//! The wire protocol: typed messages, their encoding, and a streaming decoder.

use vstd::prelude::*;

verus! {

pub const CR: u8 = 13;
pub const LF: u8 = 10;

/// Deepest array nesting that the decoder accepts.
pub const MAX_DEPTH: u64 = 32;

/// Most decimal digits accepted in a length prefix.
pub const MAX_DIGITS: usize = 18;

/// Mathematical model of a message.
pub enum Msg {
    Simple(Seq<u8>),
    Error(Seq<u8>),
    Bulk(Seq<u8>),
    Null,
    Array(Seq<Msg>),
    NullArray,
}

/// A message of the wire protocol.
#[derive(Debug, PartialEq, Eq)]
pub enum Value {
    /// `+text\r\n`
    SimpleString(Vec<u8>),
    /// `-text\r\n`
    Error(Vec<u8>),
    /// `$len\r\nbytes\r\n`
    BulkString(Vec<u8>),
    /// `$-1\r\n`, the absent string
    Null,
    /// `*count\r\n` followed by the elements
    Array(Vec<Value>),
    /// `*-1\r\n`, the absent array
    NullArray,
}

impl View for Value {
    type V = Msg;

    open spec fn view(&self) -> Msg
        decreases self,
    {
        match self {
            Value::SimpleString(s) => Msg::Simple(s@),
            Value::Error(s) => Msg::Error(s@),
            Value::BulkString(s) => Msg::Bulk(s@),
            Value::Null => Msg::Null,
            Value::Array(a) => Msg::Array(
                Seq::new(a.len() as nat, |i: int| if 0 <= i < a.len() { a@[i].view() } else { Msg::Null }),
            ),
            Value::NullArray => Msg::NullArray,
        }
    }
}

/// A line of text holds no line terminator byte.
pub open spec fn is_line_text(s: Seq<u8>) -> bool {
    forall|i: int| 0 <= i < s.len() ==> s[i] != CR && s[i] != LF
}

pub open spec fn pow10(n: nat) -> nat
    decreases n,
{
    if n == 0 { 1 } else { 10 * pow10((n - 1) as nat) }
}

/// The largest length that a length prefix can carry.
pub open spec fn max_len() -> nat {
    pow10(MAX_DIGITS as nat)
}

/// A message that the decoder can read back when it starts at nesting `depth`:
/// status and error lines without terminators, lengths below the bound, and
/// arrays nested no deeper than the limit.
pub open spec fn fits(m: Msg, depth: nat) -> bool
    decreases m,
{
    match m {
        Msg::Simple(s) => is_line_text(s),
        Msg::Error(s) => is_line_text(s),
        Msg::Bulk(s) => s.len() < max_len(),
        Msg::Null => true,
        Msg::Array(a) => depth < MAX_DEPTH && a.len() < max_len() && forall|i: int|
            #![trigger a[i]]
            0 <= i < a.len() ==> fits(a[i], (depth + 1) as nat),
        Msg::NullArray => true,
    }
}

/// A message that can be sent and read back.
pub open spec fn valid(m: Msg) -> bool {
    fits(m, 0)
}

pub open spec fn crlf() -> Seq<u8> {
    seq![CR, LF]
}

/// Decimal digits of `n`, most significant first, without leading zeros.
pub open spec fn decimal(n: nat) -> Seq<u8>
    decreases n,
{
    if n < 10 {
        seq![(48 + n) as u8]
    } else {
        decimal(n / 10).push((48 + n % 10) as u8)
    }
}

/// The bytes that stand for the absent string or array after the tag.
pub open spec fn minus_one() -> Seq<u8> {
    seq![45u8, 49u8]
}

/// The wire encoding of a message.
pub open spec fn encode_msg(m: Msg) -> Seq<u8>
    decreases m,
{
    match m {
        Msg::Simple(s) => seq![43u8] + s + crlf(),
        Msg::Error(s) => seq![45u8] + s + crlf(),
        Msg::Bulk(s) => seq![36u8] + decimal(s.len()) + crlf() + s + crlf(),
        Msg::Null => seq![36u8] + minus_one() + crlf(),
        Msg::Array(a) => seq![42u8] + decimal(a.len()) + crlf() + encode_seq(a),
        Msg::NullArray => seq![42u8] + minus_one() + crlf(),
    }
}

/// The encodings of the messages of `a`, one after another.
pub open spec fn encode_seq(a: Seq<Msg>) -> Seq<u8>
    decreases a,
{
    if a.len() == 0 {
        Seq::empty()
    } else {
        encode_seq(a.drop_last()) + encode_msg(a.last())
    }
}


/// Why the bytes cannot be a message.
#[derive(Clone, Copy, Debug, PartialEq, Eq, Structural)]
pub enum ProtocolError {
    /// The first byte is not one of the four type tags.
    UnknownTag,
    /// A length prefix is neither `-1` nor a decimal number of at most 18 digits.
    BadLength,
    /// A carriage return not followed by a line feed, a line feed alone, or a
    /// string payload not followed by CRLF.
    BadLineEnding,
    /// Arrays nested deeper than the limit.
    TooDeep,
    /// The input ended inside a message.
    Truncated,
    /// A message that is not a request: not an array, an empty array, or an
    /// array whose first element is not a string.
    MalformedRequest,
}

/// What reading one message from a buffer gives.
pub enum Parsed {
    /// The message, and the position just past its last byte.
    Done(Msg, int),
    /// The buffer ends before the message does.
    Incomplete,
    /// The bytes are not a message.
    Invalid(ProtocolError),
}

/// How the line that starts at `i` ends.
pub enum LineEnd {
    /// At the carriage return at this position, followed by a line feed.
    At(int),
    Incomplete,
    Invalid,
}

/// Where the first line terminator at or after `i` stands.
pub open spec fn scan_line(b: Seq<u8>, i: int) -> LineEnd
    decreases b.len() - i,
{
    if i < 0 || i >= b.len() {
        LineEnd::Incomplete
    } else if b[i] == LF {
        LineEnd::Invalid
    } else if b[i] == CR {
        if i + 1 >= b.len() {
            LineEnd::Incomplete
        } else if b[i + 1] == LF {
            LineEnd::At(i)
        } else {
            LineEnd::Invalid
        }
    } else {
        scan_line(b, i + 1)
    }
}

pub open spec fn is_digit(c: u8) -> bool {
    48 <= c <= 57
}

pub open spec fn all_digits(s: Seq<u8>) -> bool {
    forall|i: int| 0 <= i < s.len() ==> is_digit(#[trigger] s[i])
}

/// The number that decimal digits stand for.
pub open spec fn digits_value(s: Seq<u8>) -> nat
    decreases s.len(),
{
    if s.len() == 0 {
        0
    } else {
        digits_value(s.drop_last()) * 10 + (s.last() - 48) as nat
    }
}

/// The value of a length prefix: `-1`, or one to eighteen decimal digits.
pub open spec fn length_value(s: Seq<u8>) -> Option<int> {
    if s == minus_one() {
        Some(-1)
    } else if 1 <= s.len() <= MAX_DIGITS && all_digits(s) {
        Some(digits_value(s) as int)
    } else {
        None
    }
}

pub open spec fn is_tag(c: u8) -> bool {
    c == 43 || c == 45 || c == 36 || c == 42
}

/// Reads the message that starts at `pos`, inside arrays nested `depth` deep.
pub open spec fn parse_at(b: Seq<u8>, pos: int, depth: int) -> Parsed
    decreases MAX_DEPTH + 1 - depth, 0int,
{
    if pos < 0 || pos >= b.len() {
        Parsed::Incomplete
    } else if !is_tag(b[pos]) {
        Parsed::Invalid(ProtocolError::UnknownTag)
    } else {
        match scan_line(b, pos + 1) {
            LineEnd::Incomplete => Parsed::Incomplete,
            LineEnd::Invalid => Parsed::Invalid(ProtocolError::BadLineEnding),
            LineEnd::At(e) => {
                let line = b.subrange(pos + 1, e);
                let next = e + 2;
                if b[pos] == 43 {
                    Parsed::Done(Msg::Simple(line), next)
                } else if b[pos] == 45 {
                    Parsed::Done(Msg::Error(line), next)
                } else {
                    match length_value(line) {
                        None => Parsed::Invalid(ProtocolError::BadLength),
                        Some(n) => if n == -1 {
                            if b[pos] == 36 {
                                Parsed::Done(Msg::Null, next)
                            } else {
                                Parsed::Done(Msg::NullArray, next)
                            }
                        } else if b[pos] == 36 {
                            if next + n + 2 > b.len() {
                                Parsed::Incomplete
                            } else if b[next + n] == CR && b[next + n + 1] == LF {
                                Parsed::Done(Msg::Bulk(b.subrange(next, next + n)), next + n + 2)
                            } else {
                                Parsed::Invalid(ProtocolError::BadLineEnding)
                            }
                        } else if depth < 0 || depth >= MAX_DEPTH {
                            Parsed::Invalid(ProtocolError::TooDeep)
                        } else {
                            parse_elems(b, next, n as nat, depth + 1)
                        },
                    }
                }
            },
        }
    }
}

/// Reads `count` messages one after another from `pos`; on success the result
/// is an array of them.
pub open spec fn parse_elems(b: Seq<u8>, pos: int, count: nat, depth: int) -> Parsed
    decreases MAX_DEPTH + 1 - depth, count + 1,
{
    if depth < 0 || depth > MAX_DEPTH {
        Parsed::Invalid(ProtocolError::TooDeep)
    } else if count == 0 {
        Parsed::Done(Msg::Array(Seq::empty()), pos)
    } else {
        match parse_elems(b, pos, (count - 1) as nat, depth) {
            Parsed::Done(Msg::Array(items), p) => match parse_at(b, p, depth) {
                Parsed::Done(m, q) => Parsed::Done(Msg::Array(items.push(m)), q),
                other => other,
            },
            other => other,
        }
    }
}

/// A decoder's result stands for `p`: the same message and end, the same
/// error, or nothing where the input is incomplete.
pub open spec fn outcome_is(r: Option<Result<(Value, usize), ProtocolError>>, p: Parsed) -> bool {
    match p {
        Parsed::Done(m, e) => r matches Some(Ok((v, q))) && v@ == m && q == e,
        Parsed::Incomplete => r is None,
        Parsed::Invalid(k) => r == Some(Err::<(Value, usize), ProtocolError>(k)),
    }
}


/// Finds where the line that starts at `start` ends: `None` where the buffer
/// ends first, `Some(Err(()))` on a stray terminator byte.
fn find_line_end(b: &[u8], start: usize) -> (r: Option<Result<usize, ()>>)
    ensures
        match scan_line(b@, start as int) {
            LineEnd::At(e) => r == Some(Ok::<usize, ()>(e as usize)) && start <= e && e + 2 <= b@.len(),
            LineEnd::Incomplete => r is None,
            LineEnd::Invalid => r == Some(Err::<usize, ()>(())),
        },
{
    let mut i = start;
    while i < b.len()
        invariant
            start <= i,
            scan_line(b@, start as int) == scan_line(b@, i as int),
        decreases b.len() - i,
    {
        if b[i] == LF {
            return Some(Err(()));
        } else if b[i] == CR {
            if i + 1 >= b.len() {
                return None;
            } else if b[i + 1] == LF {
                return Some(Ok(i));
            } else {
                return Some(Err(()));
            }
        }
        i = i + 1;
    }
    None
}

proof fn lemma_pow10_mono(a: nat, b: nat)
    requires
        a <= b,
    ensures
        pow10(a) <= pow10(b),
    decreases b,
{
    if a < b {
        lemma_pow10_mono(a, (b - 1) as nat);
    }
}

/// Reads the length prefix in `b[start..end]`.
fn read_length(b: &[u8], start: usize, end: usize) -> (r: Option<i64>)
    requires
        start <= end <= b@.len(),
    ensures
        match length_value(b@.subrange(start as int, end as int)) {
            Some(n) => r == Some(n as i64) && -1 <= n < max_len() && max_len() == 1_000_000_000_000_000_000,
            None => r is None,
        },
{
    let ghost line = b@.subrange(start as int, end as int);
    if end - start == 2 && b[start] == 45 && b[start + 1] == 49 {
        assert(line =~= minus_one());
        reveal_with_fuel(pow10, 19);
        return Some(-1);
    }
    assert(line != minus_one()) by {
        if line == minus_one() {
            assert(line[0] == 45 && line[1] == 49);
        }
    }
    if end == start || end - start > MAX_DIGITS {
        return None;
    }
    let mut v: i64 = 0;
    let mut i = start;
    proof {
        reveal_with_fuel(pow10, 19);
        assert(pow10(18) == 1_000_000_000_000_000_000);
    }
    while i < end
        invariant
            start <= i <= end <= b@.len(),
            end - start <= MAX_DIGITS,
            line == b@.subrange(start as int, end as int),
            line != minus_one(),
            0 <= v,
            v == digits_value(line.subrange(0, i - start)),
            v < pow10((i - start) as nat),
            all_digits(line.subrange(0, i - start)),
            pow10(18) == 1_000_000_000_000_000_000,
        decreases end - i,
    {
        let c = b[i];
        if c < 48 || c > 57 {
            assert(!all_digits(line)) by {
                assert(line[i - start] == c);
            }
            return None;
        }
        let ghost k: int = (i - start) as int;
        proof {
            lemma_pow10_mono((k + 1) as nat, 18);
            let p = pow10(k as nat);
            assert(pow10((k + 1) as nat) == 10 * p);
            assert(v * 10 + (c - 48) < 10 * p) by (nonlinear_arith)
                requires v < p, c - 48 <= 9;
            assert(line.subrange(0, k + 1).drop_last() =~= line.subrange(0, k));
            assert(line.subrange(0, k + 1).last() == c);
            assert forall|j: int| 0 <= j < k + 1 implies is_digit(#[trigger] line.subrange(0, k + 1)[j]) by {
                if j < k {
                    assert(line.subrange(0, k + 1)[j] == line.subrange(0, k)[j]);
                }
            }
        }
        v = v * 10 + (c - 48) as i64;
        i = i + 1;
    }
    assert(line.subrange(0, line.len() as int) =~= line);
    proof {
        reveal_with_fuel(pow10, 19);
        lemma_pow10_mono((end - start) as nat, 18);
    }
    Some(v)
}

/// The bytes `b[from..to]`.
pub(crate) fn copy_range(b: &[u8], from: usize, to: usize) -> (r: Vec<u8>)
    requires
        from <= to <= b@.len(),
    ensures
        r@ == b@.subrange(from as int, to as int),
{
    let mut r: Vec<u8> = Vec::new();
    let mut i = from;
    while i < to
        invariant
            from <= i <= to <= b@.len(),
            r@ == b@.subrange(from as int, i as int),
        decreases to - i,
    {
        r.push(b[i]);
        assert(r@ =~= b@.subrange(from as int, i + 1));
        i = i + 1;
    }
    r
}


/// Once reading the elements of an array stops short, reading more of them
/// stops at the same place.
proof fn lemma_elems_stop(b: Seq<u8>, pos: int, k: nat, k2: nat, depth: int)
    requires
        k <= k2,
        !(parse_elems(b, pos, k, depth) is Done),
    ensures
        parse_elems(b, pos, k2, depth) == parse_elems(b, pos, k, depth),
    decreases k2,
{
    if k < k2 {
        lemma_elems_stop(b, pos, k, (k2 - 1) as nat, depth);
    }
}

pub open spec fn items_view(items: Seq<Value>) -> Seq<Msg> {
    Seq::new(items.len(), |j: int| items[j]@)
}

/// Reads the message that starts at `pos`, inside arrays nested `depth` deep.
fn parse_value(b: &[u8], pos: usize, depth: u64) -> (r: Option<Result<(Value, usize), ProtocolError>>)
    requires
        depth <= MAX_DEPTH,
    ensures
        outcome_is(r, parse_at(b@, pos as int, depth as int)),
        r matches Some(Ok((_, q))) ==> q <= b@.len(),
    decreases MAX_DEPTH + 1 - depth,
{
    if pos >= b.len() {
        return None;
    }
    let tag = b[pos];
    if !(tag == 43 || tag == 45 || tag == 36 || tag == 42) {
        return Some(Err(ProtocolError::UnknownTag));
    }
    let e = match find_line_end(b, pos + 1) {
        None => return None,
        Some(Err(_)) => return Some(Err(ProtocolError::BadLineEnding)),
        Some(Ok(e)) => e,
    };
    let next = e + 2;
    if tag == 43 {
        return Some(Ok((Value::SimpleString(copy_range(b, pos + 1, e)), next)));
    }
    if tag == 45 {
        return Some(Ok((Value::Error(copy_range(b, pos + 1, e)), next)));
    }
    let n = match read_length(b, pos + 1, e) {
        None => return Some(Err(ProtocolError::BadLength)),
        Some(n) => n,
    };
    if n == -1 {
        if tag == 36 {
            return Some(Ok((Value::Null, next)));
        } else {
            return Some(Ok((Value::NullArray, next)));
        }
    }
    let nu = n as u64;
    if tag == 36 {
        if ((b.len() - next) as u64) < nu + 2 {
            return None;
        }
        let end = next + nu as usize;
        if b[end] == CR && b[end + 1] == LF {
            return Some(Ok((Value::BulkString(copy_range(b, next, end)), end + 2)));
        } else {
            return Some(Err(ProtocolError::BadLineEnding));
        }
    }
    if depth >= MAX_DEPTH {
        return Some(Err(ProtocolError::TooDeep));
    }
    let mut items: Vec<Value> = Vec::new();
    let mut p = next;
    let mut i: u64 = 0;
    assert(items_view(items@) =~= Seq::<Msg>::empty());
    assert(parse_at(b@, pos as int, depth as int) == parse_elems(b@, next as int, nu as nat, depth + 1));
    while i < nu
        invariant
            depth < MAX_DEPTH,
            parse_at(b@, pos as int, depth as int) == parse_elems(b@, next as int, nu as nat, depth + 1),
            i <= nu,
            p <= b@.len(),
            parse_elems(b@, next as int, i as nat, depth + 1)
                == Parsed::Done(Msg::Array(items_view(items@)), p as int),
        decreases nu - i,
    {
        let ghost one_more = parse_elems(b@, next as int, (i + 1) as nat, depth + 1);
        let res = parse_value(b, p, depth + 1);
        assert(!(parse_at(b@, p as int, depth + 1) is Done) ==> one_more == parse_at(b@, p as int, depth + 1));
        match res {
            None => {
                proof {
                    lemma_elems_stop(b@, next as int, (i + 1) as nat, nu as nat, depth + 1);
                }
                return None;
            },
            Some(Err(k)) => {
                proof {
                    lemma_elems_stop(b@, next as int, (i + 1) as nat, nu as nat, depth + 1);
                }
                return Some(Err(k));
            },
            Some(Ok((v, q))) => {
                let ghost old_items = items@;
                items.push(v);
                assert(items_view(items@) =~= items_view(old_items).push(v@));
                p = q;
                i = i + 1;
            },
        }
    }
    let ghost iv = items_view(items@);
    let r = Value::Array(items);
    assert(r@ == Msg::Array(iv)) by {
        let a = r@->Array_0;
        assert(a.len() == iv.len());
        assert forall|j: int| 0 <= j < a.len() implies a[j] == iv[j] by {}
        assert(a =~= iv);
    }
    Some(Ok((r, p)))
}

/// Reads one message from the start of `buf`. `Ok(Some((v, n)))`: `v` is the
/// message and `n` the number of bytes it took; `Ok(None)`: `buf` ends before
/// the message does, and more input may complete it; `Err`: the bytes are not
/// a message. The payload of a string is taken by its declared length, never
/// by looking for terminators in it.
pub fn decode(buf: &[u8]) -> (r: Result<Option<(Value, usize)>, ProtocolError>)
    ensures
        match parse_at(buf@, 0, 0) {
            Parsed::Done(m, e) => r matches Ok(Some((v, n))) && v@ == m && n == e && n <= buf@.len(),
            Parsed::Incomplete => r == Ok::<Option<(Value, usize)>, ProtocolError>(None),
            Parsed::Invalid(k) => r == Err::<Option<(Value, usize)>, ProtocolError>(k),
        },
{
    match parse_value(buf, 0, 0) {
        None => Ok(None),
        Some(Err(k)) => Err(k),
        Some(Ok(x)) => Ok(Some(x)),
    }
}

/// Like `decode`, for a buffer that no more input will follow: an empty buffer
/// is the orderly end of the stream (`Ok(None)`), and a message cut short is
/// `Truncated`.
pub fn decode_at_end(buf: &[u8]) -> (r: Result<Option<(Value, usize)>, ProtocolError>)
    ensures
        buf@.len() == 0 ==> r == Ok::<Option<(Value, usize)>, ProtocolError>(None),
        buf@.len() > 0 ==> match parse_at(buf@, 0, 0) {
            Parsed::Done(m, e) => r matches Ok(Some((v, n))) && v@ == m && n == e && n <= buf@.len(),
            Parsed::Incomplete => r == Err::<Option<(Value, usize)>, ProtocolError>(ProtocolError::Truncated),
            Parsed::Invalid(k) => r == Err::<Option<(Value, usize)>, ProtocolError>(k),
        },
{
    if buf.len() == 0 {
        return Ok(None);
    }
    match decode(buf) {
        Ok(None) => Err(ProtocolError::Truncated),
        other => other,
    }
}


pub(crate) proof fn lemma_array_view(a: Vec<Value>)
    ensures
        Value::Array(a)@ == Msg::Array(items_view(a@)),
{
    let v = Value::Array(a)@->Array_0;
    assert forall|j: int| 0 <= j < v.len() implies v[j] == items_view(a@)[j] by {}
    assert(v =~= items_view(a@));
}

fn push_bytes(out: &mut Vec<u8>, s: &[u8])
    ensures
        final(out)@ == old(out)@ + s@,
{
    let mut i: usize = 0;
    while i < s.len()
        invariant
            i <= s@.len(),
            out@ == old(out)@ + s@.subrange(0, i as int),
        decreases s.len() - i,
    {
        out.push(s[i]);
        assert(s@.subrange(0, i + 1) =~= s@.subrange(0, i as int).push(s@[i as int]));
        i = i + 1;
    }
    assert(s@.subrange(0, i as int) =~= s@);
}

fn push_decimal(out: &mut Vec<u8>, n: u64)
    ensures
        final(out)@ == old(out)@ + decimal(n as nat),
    decreases n,
{
    if n >= 10 {
        push_decimal(out, n / 10);
    }
    out.push((48 + n % 10) as u8);
    assert(final(out)@ =~= old(out)@ + decimal(n as nat));
}

fn push_crlf(out: &mut Vec<u8>)
    ensures
        final(out)@ == old(out)@ + crlf(),
{
    out.push(CR);
    out.push(LF);
    assert(final(out)@ =~= old(out)@ + crlf());
}

/// Appends the encoding of `v` to `out`.
fn encode_into(v: &Value, out: &mut Vec<u8>)
    ensures
        final(out)@ == old(out)@ + encode_msg(v@),
    decreases v,
{
    let ghost start = out@;
    match v {
        Value::SimpleString(s) => {
            out.push(43);
            push_bytes(out, s.as_slice());
            push_crlf(out);
            assert(out@ =~= start + encode_msg(v@));
        },
        Value::Error(s) => {
            out.push(45);
            push_bytes(out, s.as_slice());
            push_crlf(out);
            assert(out@ =~= start + encode_msg(v@));
        },
        Value::BulkString(s) => {
            out.push(36);
            push_decimal(out, s.len() as u64);
            push_crlf(out);
            push_bytes(out, s.as_slice());
            push_crlf(out);
            assert(out@ =~= start + encode_msg(v@));
        },
        Value::Null => {
            out.push(36);
            out.push(45);
            out.push(49);
            push_crlf(out);
            assert(out@ =~= start + encode_msg(v@));
        },
        Value::NullArray => {
            out.push(42);
            out.push(45);
            out.push(49);
            push_crlf(out);
            assert(out@ =~= start + encode_msg(v@));
        },
        Value::Array(a) => {
            proof {
                lemma_array_view(*a);
            }
            let ghost iv = items_view(a@);
            out.push(42);
            push_decimal(out, a.len() as u64);
            push_crlf(out);
            let ghost head = out@;
            let mut i: usize = 0;
            assert(iv.subrange(0, 0) =~= Seq::<Msg>::empty());
            while i < a.len()
                invariant
                    i <= a@.len(),
                    iv == items_view(a@),
                    *v == Value::Array(*a),
                    out@ == head + encode_seq(iv.subrange(0, i as int)),
                decreases a.len() - i,
            {
                assert(decreases_to!(*v => (*v)->Array_0));
                assert(decreases_to!(*a => a@));
                assert(decreases_to!(a@ => a@[i as int]));
                encode_into(&a[i], out);
                assert(iv.subrange(0, i + 1).drop_last() =~= iv.subrange(0, i as int));
                assert(out@ =~= head + encode_seq(iv.subrange(0, i + 1)));
                i = i + 1;
            }
            assert(iv.subrange(0, i as int) =~= iv);
            assert(out@ =~= start + encode_msg(v@));
        },
    }
}

/// The wire encoding of `v`.
pub fn encode(v: &Value) -> (r: Vec<u8>)
    ensures
        r@ == encode_msg(v@),
{
    let mut out: Vec<u8> = Vec::new();
    encode_into(v, &mut out);
    assert(out@ =~= encode_msg(v@));
    out
}


/// `e` stands in `b` from position `pos` on.
pub open spec fn placed(b: Seq<u8>, pos: int, e: Seq<u8>) -> bool {
    0 <= pos && pos + e.len() <= b.len() && forall|j: int| 0 <= j < e.len() ==> b[pos + j] == #[trigger] e[j]
}

proof fn lemma_decimal(n: nat)
    ensures
        decimal(n).len() >= 1,
        all_digits(decimal(n)),
        is_line_text(decimal(n)),
        digits_value(decimal(n)) == n,
    decreases n,
{
    if n >= 10 {
        lemma_decimal(n / 10);
        let d = decimal(n / 10);
        assert(decimal(n).drop_last() =~= d);
        assert forall|i: int| 0 <= i < decimal(n).len() implies is_digit(#[trigger] decimal(n)[i]) by {
            if i < d.len() {
                assert(decimal(n)[i] == d[i]);
            }
        }
        assert((n / 10) * 10 + n % 10 == n) by (nonlinear_arith);
        assert(n % 10 < 10);
        assert(decimal(n).last() == (48 + n % 10) as u8);
        assert(digits_value(decimal(n)) == digits_value(d) * 10 + (n % 10));
    } else {
        assert(decimal(n).drop_last() =~= Seq::<u8>::empty());
        assert(decimal(n).last() == (48 + n) as u8);
        assert(digits_value(decimal(n)) == digits_value(Seq::<u8>::empty()) * 10 + n);
    }
}

proof fn lemma_decimal_len(n: nat, k: nat)
    requires
        k >= 1,
        n < pow10(k),
    ensures
        decimal(n).len() <= k,
    decreases n,
{
    if n >= 10 {
        assert(k >= 2) by {
            if k < 2 {
                assert(pow10(1) == 10) by {
                    reveal_with_fuel(pow10, 2);
                }
            }
        }
        let p = pow10((k - 1) as nat);
        assert(pow10(k) == 10 * p);
        assert(n / 10 < p) by (nonlinear_arith)
            requires n < 10 * p;
        lemma_decimal_len(n / 10, (k - 1) as nat);
    }
}

proof fn lemma_length_value_decimal(n: nat)
    requires
        n < max_len(),
    ensures
        length_value(decimal(n)) == Some(n as int),
{
    lemma_decimal(n);
    lemma_decimal_len(n, MAX_DIGITS as nat);
    let d = decimal(n);
    assert(d != minus_one()) by {
        assert(is_digit(d[0]));
    }
}

proof fn lemma_scan_text(b: Seq<u8>, i: int, s: Seq<u8>, k: int)
    requires
        0 <= i,
        0 <= k <= s.len(),
        is_line_text(s),
        i + s.len() + 2 <= b.len(),
        forall|j: int| 0 <= j < s.len() ==> b[i + j] == s[j],
        b[i + s.len()] == CR,
        b[i + s.len() + 1] == LF,
    ensures
        scan_line(b, i + k) == LineEnd::At(i + s.len()),
    decreases s.len() - k,
{
    if k < s.len() {
        assert(b[i + k] == s[k]);
        lemma_scan_text(b, i, s, k + 1);
    }
}

proof fn lemma_encode_seq_step(a: Seq<Msg>, k: int)
    requires
        0 <= k < a.len(),
    ensures
        encode_seq(a.take(k + 1)) == encode_seq(a.take(k)) + encode_msg(a[k]),
{
    assert(a.take(k + 1).drop_last() =~= a.take(k));
}

proof fn lemma_encode_seq_prefix(a: Seq<Msg>, k: int, k2: int)
    requires
        0 <= k <= k2 <= a.len(),
    ensures
        encode_seq(a.take(k)).len() <= encode_seq(a.take(k2)).len(),
        forall|j: int| 0 <= j < encode_seq(a.take(k)).len() ==> encode_seq(a.take(k))[j] == encode_seq(a.take(k2))[j],
    decreases k2,
{
    if k < k2 {
        lemma_encode_seq_prefix(a, k, k2 - 1);
        lemma_encode_seq_step(a, k2 - 1);
    }
}

/// A tag, a line of text and CRLF, followed by `tail`: the parser reads the
/// tag and the line, and `tail` stands right after them.
proof fn lemma_header(b: Seq<u8>, pos: int, tag: u8, text: Seq<u8>, tail: Seq<u8>)
    requires
        is_line_text(text),
        placed(b, pos, seq![tag] + text + crlf() + tail),
    ensures
        b[pos] == tag,
        scan_line(b, pos + 1) == LineEnd::At(pos + 1 + text.len()),
        b.subrange(pos + 1, pos + 1 + text.len()) == text,
        placed(b, pos + 1 + text.len() + 2, tail),
{
    let e = seq![tag] + text + crlf() + tail;
    let h = (1 + text.len()) as int;
    assert(b[pos] == e[0]);
    assert forall|j: int| 0 <= j < text.len() implies b[pos + 1 + j] == text[j] by {
        assert(e[1 + j] == text[j]);
    }
    assert(b[pos + h] == e[h]);
    assert(b[pos + h + 1] == e[h + 1]);
    lemma_scan_text(b, pos + 1, text, 0);
    assert(b.subrange(pos + 1, pos + 1 + text.len()) =~= text);
    assert forall|j: int| 0 <= j < tail.len() implies b[pos + h + 2 + j] == #[trigger] tail[j] by {
        assert(e[h + 2 + j] == tail[j]);
    }
}

proof fn lemma_parse_encoded(b: Seq<u8>, pos: int, m: Msg, depth: int)
    requires
        0 <= depth <= MAX_DEPTH,
        fits(m, depth as nat),
        placed(b, pos, encode_msg(m)),
    ensures
        parse_at(b, pos, depth) == Parsed::Done(m, pos + encode_msg(m).len()),
    decreases m, 0int,
{
    let e = encode_msg(m);
    let none = Seq::<u8>::empty();
    match m {
        Msg::Simple(s) => {
            assert(e =~= seq![43u8] + s + crlf() + none);
            lemma_header(b, pos, 43, s, none);
        },
        Msg::Error(s) => {
            assert(e =~= seq![45u8] + s + crlf() + none);
            lemma_header(b, pos, 45, s, none);
        },
        Msg::Null => {
            assert(e =~= seq![36u8] + minus_one() + crlf() + none);
            lemma_header(b, pos, 36, minus_one(), none);
        },
        Msg::NullArray => {
            assert(e =~= seq![42u8] + minus_one() + crlf() + none);
            lemma_header(b, pos, 42, minus_one(), none);
        },
        Msg::Bulk(s) => {
            let d = decimal(s.len());
            lemma_decimal(s.len());
            lemma_length_value_decimal(s.len());
            let tail = s + crlf();
            assert(e =~= seq![36u8] + d + crlf() + tail);
            lemma_header(b, pos, 36, d, tail);
            let next = pos + 1 + d.len() + 2;
            assert(b[next + s.len()] == tail[s.len() as int]);
            assert(b[next + s.len() + 1] == tail[s.len() as int + 1]);
            assert forall|j: int| 0 <= j < s.len() implies b[next + j] == s[j] by {
                assert(b[next + j] == tail[j]);
            }
            assert(b.subrange(next, next + s.len()) =~= s);
        },
        Msg::Array(a) => {
            let d = decimal(a.len());
            lemma_decimal(a.len());
            lemma_length_value_decimal(a.len());
            assert(e =~= seq![42u8] + d + crlf() + encode_seq(a));
            lemma_header(b, pos, 42, d, encode_seq(a));
            lemma_parse_elems_encoded(b, pos + 1 + d.len() + 2, a, a.len() as int, depth + 1);
            assert(a.take(a.len() as int) =~= a);
        },
    }
}

proof fn lemma_parse_elems_encoded(b: Seq<u8>, pos: int, a: Seq<Msg>, k: int, depth: int)
    requires
        1 <= depth <= MAX_DEPTH,
        forall|i: int| 0 <= i < a.len() ==> #[trigger] fits(a[i], depth as nat),
        0 <= k <= a.len(),
        placed(b, pos, encode_seq(a)),
    ensures
        parse_elems(b, pos, k as nat, depth) == Parsed::Done(Msg::Array(a.take(k)), pos + encode_seq(a.take(k)).len()),
    decreases a, k,
{
    if k == 0 {
        assert(a.take(0) =~= Seq::<Msg>::empty());
    } else {
        lemma_parse_elems_encoded(b, pos, a, k - 1, depth);
        lemma_encode_seq_step(a, k - 1);
        lemma_encode_seq_prefix(a, k, a.len() as int);
        assert(a.take(a.len() as int) =~= a);
        let p = pos + encode_seq(a.take(k - 1)).len();
        let em = encode_msg(a[k - 1]);
        let ek = encode_seq(a.take(k));
        assert forall|j: int| 0 <= j < em.len() implies b[p + j] == #[trigger] em[j] by {
            let t = encode_seq(a.take(k - 1)).len() + j;
            assert(ek[t] == em[j]);
            assert(encode_seq(a)[t] == ek[t]);
        }
        lemma_parse_encoded(b, p, a[k - 1], depth);
        assert(a.take(k - 1).push(a[k - 1]) =~= a.take(k));
    }
}

/// Every valid message reads back from its encoding, whatever follows it:
/// the same message, taking exactly the bytes of the encoding.
pub proof fn lemma_round_trip(m: Msg, rest: Seq<u8>)
    requires
        valid(m),
    ensures
        parse_at(encode_msg(m) + rest, 0, 0) == Parsed::Done(m, encode_msg(m).len() as int),
{
    let b = encode_msg(m) + rest;
    assert forall|j: int| 0 <= j < encode_msg(m).len() implies b[0 + j] == #[trigger] encode_msg(m)[j] by {}
    lemma_parse_encoded(b, 0, m, 0);
}



/// A string payload is framed by its length alone: whatever bytes it holds,
/// line terminators included, it reads back unchanged from its encoding.
pub proof fn lemma_bulk_binary_safe(payload: Seq<u8>, rest: Seq<u8>)
    requires
        payload.len() < max_len(),
    ensures
        parse_at(encode_msg(Msg::Bulk(payload)) + rest, 0, 0) == Parsed::Done(
            Msg::Bulk(payload),
            encode_msg(Msg::Bulk(payload)).len() as int,
        ),
{
    lemma_round_trip(Msg::Bulk(payload), rest);
}

} // verus!
