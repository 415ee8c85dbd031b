//! The command interpreter: from a decoded request and the store to a reply.

use vstd::prelude::*;
use crate::resp::{Value, Msg, ProtocolError, items_view, all_digits, digits_value, is_digit, copy_range, CR, LF};
use crate::store::{RedisValueStore, read, after_read, expiry_of};

verus! {

/// ASCII lower case of a byte.
pub open spec fn lower(c: u8) -> u8 {
    if 65 <= c <= 90 {
        (c + 32) as u8
    } else {
        c
    }
}

/// `name` is `word` (given in lower case), ignoring ASCII case.
pub open spec fn name_is(name: Seq<u8>, word: Seq<u8>) -> bool {
    name.len() == word.len() && forall|i: int| 0 <= i < name.len() ==> lower(#[trigger] name[i]) == word[i]
}

pub open spec fn word_ping() -> Seq<u8> {
    seq![112u8, 105, 110, 103]
}

pub open spec fn word_echo() -> Seq<u8> {
    seq![101u8, 99, 104, 111]
}

pub open spec fn word_set() -> Seq<u8> {
    seq![115u8, 101, 116]
}

pub open spec fn word_get() -> Seq<u8> {
    seq![103u8, 101, 116]
}

pub open spec fn word_px() -> Seq<u8> {
    seq![112u8, 120]
}

/// `PONG`
pub open spec fn text_pong() -> Seq<u8> {
    seq![80u8, 79, 78, 71]
}

/// `OK`
pub open spec fn text_ok() -> Seq<u8> {
    seq![79u8, 75]
}

/// `ERR wrong arguments`
pub open spec fn text_bad_args() -> Seq<u8> {
    seq![69u8, 82, 82, 32, 119, 114, 111, 110, 103, 32, 97, 114, 103, 117, 109, 101, 110, 116, 115]
}

/// `ERR unknown command `
pub open spec fn text_unknown() -> Seq<u8> {
    seq![69u8, 82, 82, 32, 117, 110, 107, 110, 111, 119, 110, 32, 99, 111, 109, 109, 97, 110, 100, 32]
}

/// `s` without its line terminator bytes, so that it can stand in a line.
pub open spec fn strip_terminators(s: Seq<u8>) -> Seq<u8>
    decreases s.len(),
{
    if s.len() == 0 {
        s
    } else if s.last() == CR || s.last() == LF {
        strip_terminators(s.drop_last())
    } else {
        strip_terminators(s.drop_last()).push(s.last())
    }
}

/// A lifetime argument: decimal digits for a number that fits in 64 bits.
pub open spec fn ttl_value(s: Seq<u8>) -> Option<u64> {
    if s.len() >= 1 && all_digits(s) && digits_value(s) <= u64::MAX {
        Some(digits_value(s) as u64)
    } else {
        None
    }
}

/// A string of a request: a string or the absent string.
pub open spec fn is_string(m: Msg) -> bool {
    m is Bulk || m is Null
}

/// The reply to command `name` with arguments `args`, run against the table
/// `m` at time `now`, and the table afterwards. PING takes no argument, ECHO
/// and GET one, SET two, or four with `PX` and a lifetime in milliseconds.
pub open spec fn apply(
    name: Seq<u8>,
    args: Seq<Msg>,
    m: Map<Seq<u8>, (Seq<u8>, Option<u64>)>,
    now: u64,
) -> (Msg, Map<Seq<u8>, (Seq<u8>, Option<u64>)>) {
    if name_is(name, word_ping()) {
        if args.len() == 0 {
            (Msg::Simple(text_pong()), m)
        } else {
            (Msg::Error(text_bad_args()), m)
        }
    } else if name_is(name, word_echo()) {
        if args.len() == 1 && is_string(args[0]) {
            (args[0], m)
        } else {
            (Msg::Error(text_bad_args()), m)
        }
    } else if name_is(name, word_set()) {
        if (args.len() == 2 || args.len() == 4) && args[0] is Bulk && args[1] is Bulk {
            let k = args[0]->Bulk_0;
            let v = args[1]->Bulk_0;
            if args.len() == 2 {
                (Msg::Simple(text_ok()), m.insert(k, (v, None)))
            } else if args[2] is Bulk && args[3] is Bulk && name_is(args[2]->Bulk_0, word_px())
                && ttl_value(args[3]->Bulk_0) is Some {
                let ttl = ttl_value(args[3]->Bulk_0)->Some_0;
                (Msg::Simple(text_ok()), m.insert(k, (v, Some(expiry_of(now, ttl)))))
            } else {
                (Msg::Error(text_bad_args()), m)
            }
        } else {
            (Msg::Error(text_bad_args()), m)
        }
    } else if name_is(name, word_get()) {
        if args.len() == 1 && args[0] is Bulk {
            let k = args[0]->Bulk_0;
            match read(m, k, now) {
                Some(d) => (Msg::Bulk(d), after_read(m, k, now)),
                None => (Msg::Null, after_read(m, k, now)),
            }
        } else {
            (Msg::Error(text_bad_args()), m)
        }
    } else {
        (Msg::Error(text_unknown() + strip_terminators(name)), m)
    }
}

/// A request: a non-empty array of strings whose first, the command name, is
/// not the absent string.
pub open spec fn is_request(req: Msg) -> bool {
    &&& req is Array
    &&& req->Array_0.len() > 0
    &&& req->Array_0[0] is Bulk
    &&& forall|i: int| 0 <= i < req->Array_0.len() ==> is_string(#[trigger] req->Array_0[i])
}

/// Whether `name` is `word`, ignoring ASCII case.
fn name_matches(name: &[u8], word: &[u8]) -> (r: bool)
    ensures
        r == name_is(name@, word@),
{
    if name.len() != word.len() {
        return false;
    }
    let mut i: usize = 0;
    while i < name.len()
        invariant
            name@.len() == word@.len(),
            i <= name@.len(),
            forall|j: int| 0 <= j < i ==> lower(#[trigger] name@[j]) == word@[j],
        decreases name.len() - i,
    {
        let c = name[i];
        let l = if 65 <= c && c <= 90 { c + 32 } else { c };
        if l != word[i] {
            return false;
        }
        i = i + 1;
    }
    true
}

proof fn lemma_digits_prefix_grows(s: Seq<u8>, k: int)
    requires
        0 <= k <= s.len(),
    ensures
        digits_value(s.subrange(0, k)) <= digits_value(s),
    decreases s.len() - k,
{
    if k < s.len() {
        lemma_digits_prefix_grows(s, k + 1);
        assert(s.subrange(0, k + 1).drop_last() =~= s.subrange(0, k));
    } else {
        assert(s.subrange(0, k) =~= s);
    }
}

/// Reads a lifetime argument.
fn parse_ttl(s: &[u8]) -> (r: Option<u64>)
    ensures
        r == ttl_value(s@),
{
    if s.len() == 0 {
        return None;
    }
    let mut v: u64 = 0;
    let mut i: usize = 0;
    while i < s.len()
        invariant
            i <= s@.len(),
            v == digits_value(s@.subrange(0, i as int)),
            all_digits(s@.subrange(0, i as int)),
        decreases s.len() - i,
    {
        let c = s[i];
        if c < 48 || c > 57 {
            assert(!is_digit(s@[i as int]));
            return None;
        }
        proof {
            assert(s@.subrange(0, i + 1).drop_last() =~= s@.subrange(0, i as int));
            assert forall|j: int| 0 <= j < i + 1 implies is_digit(#[trigger] s@.subrange(0, i + 1)[j]) by {
                if j < i {
                    assert(s@.subrange(0, i + 1)[j] == s@.subrange(0, i as int)[j]);
                }
            }
        }
        let next = match v.checked_mul(10) {
            Some(t) => t.checked_add((c - 48) as u64),
            None => None,
        };
        match next {
            Some(n) => {
                v = n;
            },
            None => {
                proof {
                    lemma_digits_prefix_grows(s@, i + 1);
                }
                return None;
            },
        }
        i = i + 1;
    }
    assert(s@.subrange(0, i as int) =~= s@);
    Some(v)
}

/// Appends `s` to `out`, leaving out its line terminator bytes.
fn push_stripped(out: &mut Vec<u8>, s: &[u8])
    ensures
        final(out)@ == old(out)@ + strip_terminators(s@),
{
    let mut i: usize = 0;
    assert(s@.subrange(0, 0) =~= Seq::<u8>::empty());
    while i < s.len()
        invariant
            i <= s@.len(),
            out@ == old(out)@ + strip_terminators(s@.subrange(0, i as int)),
        decreases s.len() - i,
    {
        assert(s@.subrange(0, i + 1).drop_last() =~= s@.subrange(0, i as int));
        if s[i] != CR && s[i] != LF {
            out.push(s[i]);
        }
        assert(out@ =~= old(out)@ + strip_terminators(s@.subrange(0, i + 1)));
        i = i + 1;
    }
    assert(s@.subrange(0, i as int) =~= s@);
}

fn bytes_of(s: &Vec<u8>) -> (r: Vec<u8>)
    ensures
        r@ == s@,
{
    copy_range(s.as_slice(), 0, s.len())
}

/// Takes the command name out of a request's first element.
pub fn unpack_bulk_string(value: Value) -> (r: Result<Vec<u8>, ProtocolError>)
    ensures
        match value@ {
            Msg::Bulk(s) => r matches Ok(x) && x@ == s,
            _ => r == Err::<Vec<u8>, ProtocolError>(ProtocolError::MalformedRequest),
        },
{
    match value {
        Value::BulkString(s) => Ok(s),
        _ => Err(ProtocolError::MalformedRequest),
    }
}

/// Splits a request into its command name and its arguments.
pub fn extract_command(value: Value) -> (r: Result<(Vec<u8>, Vec<Value>), ProtocolError>)
    ensures
        is_request(value@) ==> (r matches Ok((name, args)) && name@ == value@->Array_0[0]->Bulk_0
            && items_view(args@) == value@->Array_0.drop_first()),
        !is_request(value@) ==> r == Err::<(Vec<u8>, Vec<Value>), ProtocolError>(ProtocolError::MalformedRequest),
{
    let ghost req = value@;
    match value {
        Value::Array(mut a) => {
            proof {
                crate::resp::lemma_array_view(a);
            }
            let ghost whole = items_view(a@);
            let mut i: usize = 0;
            while i < a.len()
                invariant
                    i <= a@.len(),
                    whole == items_view(a@),
                    req == Msg::Array(whole),
                    req == value@,
                    forall|j: int| 0 <= j < i ==> is_string(#[trigger] whole[j]),
                decreases a.len() - i,
            {
                match &a[i] {
                    Value::BulkString(_) => {},
                    Value::Null => {},
                    _ => {
                        assert(!is_string(req->Array_0[i as int]));
                        return Err(ProtocolError::MalformedRequest);
                    },
                }
                i = i + 1;
            }
            if a.len() == 0 {
                return Err(ProtocolError::MalformedRequest);
            }
            let first = a.remove(0);
            assert(items_view(a@) =~= whole.drop_first());
            match unpack_bulk_string(first) {
                Ok(name) => Ok((name, a)),
                Err(e) => Err(e),
            }
        },
        _ => Err(ProtocolError::MalformedRequest),
    }
}

fn pong() -> (r: Vec<u8>)
    ensures
        r@ == text_pong(),
{
    let r: Vec<u8> = vec![80, 79, 78, 71];
    assert(r@ =~= text_pong());
    r
}

fn ok() -> (r: Vec<u8>)
    ensures
        r@ == text_ok(),
{
    let r: Vec<u8> = vec![79, 75];
    assert(r@ =~= text_ok());
    r
}

fn bad_args() -> (r: Value)
    ensures
        r@ == Msg::Error(text_bad_args()),
{
    let t: Vec<u8> = vec![69, 82, 82, 32, 119, 114, 111, 110, 103, 32, 97, 114, 103, 117, 109, 101, 110, 116, 115];
    assert(t@ =~= text_bad_args());
    Value::Error(t)
}

fn unknown(name: &[u8]) -> (r: Value)
    ensures
        r@ == Msg::Error(text_unknown() + strip_terminators(name@)),
{
    let mut t: Vec<u8> = vec![69, 82, 82, 32, 117, 110, 107, 110, 111, 119, 110, 32, 99, 111, 109, 109, 97, 110, 100, 32];
    assert(t@ =~= text_unknown());
    push_stripped(&mut t, name);
    Value::Error(t)
}

/// Runs command `name` with arguments `args` against `store` at time `now`
/// (on the store's clock) and gives the reply. An unknown command or
/// arguments of the wrong shape give an error reply and leave the store as
/// it was.
pub fn execute(name: &[u8], args: &Vec<Value>, store: &mut RedisValueStore, now: u64) -> (r: Value)
    requires
        old(store).wf(),
    ensures
        final(store).wf(),
        (r@, final(store)@) == apply(name@, items_view(args@), old(store)@, now),
{
    let ghost av = items_view(args@);
    let w_ping: Vec<u8> = vec![112, 105, 110, 103];
    let w_echo: Vec<u8> = vec![101, 99, 104, 111];
    let w_set: Vec<u8> = vec![115, 101, 116];
    let w_get: Vec<u8> = vec![103, 101, 116];
    let w_px: Vec<u8> = vec![112, 120];
    assert(w_ping@ =~= word_ping());
    assert(w_echo@ =~= word_echo());
    assert(w_set@ =~= word_set());
    assert(w_get@ =~= word_get());
    assert(w_px@ =~= word_px());
    if name_matches(name, w_ping.as_slice()) {
        if args.len() == 0 {
            Value::SimpleString(pong())
        } else {
            bad_args()
        }
    } else if name_matches(name, w_echo.as_slice()) {
        if args.len() == 1 {
            match &args[0] {
                Value::BulkString(m) => Value::BulkString(bytes_of(m)),
                Value::Null => Value::Null,
                _ => bad_args(),
            }
        } else {
            bad_args()
        }
    } else if name_matches(name, w_set.as_slice()) {
        if args.len() != 2 && args.len() != 4 {
            return bad_args();
        }
        let (key, value) = match (&args[0], &args[1]) {
            (Value::BulkString(k), Value::BulkString(v)) => (bytes_of(k), bytes_of(v)),
            _ => return bad_args(),
        };
        if args.len() == 4 {
            match (&args[2], &args[3]) {
                (Value::BulkString(opt), Value::BulkString(amount)) => {
                    if !name_matches(opt.as_slice(), w_px.as_slice()) {
                        return bad_args();
                    }
                    match parse_ttl(amount.as_slice()) {
                        Some(ttl) => {
                            store.set_with_expiry_at(key, value, ttl, now);
                            return Value::SimpleString(ok());
                        },
                        None => return bad_args(),
                    }
                },
                _ => return bad_args(),
            }
        }
        store.set(key, value);
        Value::SimpleString(ok())
    } else if name_matches(name, w_get.as_slice()) {
        if args.len() == 1 {
            match &args[0] {
                Value::BulkString(k) => match store.get_at(k.as_slice(), now) {
                    Some(d) => Value::BulkString(d),
                    None => Value::Null,
                },
                _ => bad_args(),
            }
        } else {
            bad_args()
        }
    } else {
        unknown(name)
    }
}

/// The answer to request `req` against table `m` at time `now`, and the table
/// afterwards; anything but a request is a protocol failure.
pub open spec fn respond(
    req: Msg,
    m: Map<Seq<u8>, (Seq<u8>, Option<u64>)>,
    now: u64,
) -> (Result<Msg, ProtocolError>, Map<Seq<u8>, (Seq<u8>, Option<u64>)>) {
    if is_request(req) {
        let (reply, m2) = apply(req->Array_0[0]->Bulk_0, req->Array_0.drop_first(), m, now);
        (Ok(reply), m2)
    } else {
        (Err(ProtocolError::MalformedRequest), m)
    }
}

pub open spec fn result_view(r: Result<Value, ProtocolError>) -> Result<Msg, ProtocolError> {
    match r {
        Ok(v) => Ok(v@),
        Err(e) => Err(e),
    }
}

/// A command that is none of the four known ones gets an error reply and
/// leaves the table as it was, so the connection goes on: a `PING` after it
/// is answered with `PONG`.
pub proof fn lemma_unknown_command(
    name: Seq<u8>,
    args: Seq<Msg>,
    m: Map<Seq<u8>, (Seq<u8>, Option<u64>)>,
    now: u64,
    later: u64,
    ping: Seq<u8>,
)
    requires
        !name_is(name, word_ping()),
        !name_is(name, word_echo()),
        !name_is(name, word_set()),
        !name_is(name, word_get()),
        name_is(ping, word_ping()),
    ensures
        apply(name, args, m, now).0 is Error,
        apply(name, args, m, now).1 == m,
        apply(ping, Seq::empty(), apply(name, args, m, now).1, later) == (Msg::Simple(text_pong()), m),
{
}

/// A message that is not an array, is an empty array, has an element that is
/// not a string, or has no command name first, is a protocol failure: no
/// reply, and the table is left as it was.
pub proof fn lemma_malformed_request(req: Msg, m: Map<Seq<u8>, (Seq<u8>, Option<u64>)>, now: u64)
    requires
        !(req is Array) || req->Array_0.len() == 0 || !(req->Array_0[0] is Bulk) || exists|i: int|
            0 <= i < req->Array_0.len() && !is_string(#[trigger] req->Array_0[i]),
    ensures
        respond(req, m, now) == (Err::<Msg, ProtocolError>(ProtocolError::MalformedRequest), m),
{
}

/// Answers one request at time `now` on the store's clock. A malformed
/// request is a protocol failure, for which no reply is sent; every other
/// request gets a reply, an error reply included.
pub fn handle_at(request: Value, store: &mut RedisValueStore, now: u64) -> (r: Result<Value, ProtocolError>)
    requires
        old(store).wf(),
    ensures
        final(store).wf(),
        (result_view(r), final(store)@) == respond(request@, old(store)@, now),
{
    match extract_command(request) {
        Ok((name, args)) => Ok(execute(name.as_slice(), &args, store, now)),
        Err(e) => Err(e),
    }
}

/// Answers one request now; see `handle_at`.
pub fn handle(request: Value, store: &mut RedisValueStore) -> (r: Result<Value, ProtocolError>)
    requires
        old(store).wf(),
    ensures
        final(store).wf(),
        exists|now: u64| (result_view(r), final(store)@) == #[trigger] respond(request@, old(store)@, now),
{
    let now = store.clock();
    handle_at(request, store, now)
}

} // verus!
