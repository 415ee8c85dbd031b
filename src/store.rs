//! An in-memory key/value table whose entries may carry an expiry instant,
//! checked lazily when a key is read.

use vstd::prelude::*;
use std::time::{Duration, Instant};
use crate::resp::copy_range;

verus! {

/// Relies on `std::time::Instant`, held only to measure time since the store
/// was made.
#[verifier::external_type_specification]
#[verifier::external_body]
pub struct ExInstant(Instant);

/// Relies on `Instant::now`: the current instant of the monotonic clock.
#[verifier::external_body]
fn clock_now() -> (r: Instant) {
    Instant::now()
}

/// Relies on `Instant::elapsed`: the time since `start`.
#[verifier::external_body]
fn elapsed_since(start: &Instant) -> (r: Duration) {
    start.elapsed()
}

/// Relies on `Duration::as_nanos`: the duration in whole nanoseconds.
#[verifier::external_body]
fn nanos_of(d: &Duration) -> (r: u128) {
    d.as_nanos()
}

/// Nanoseconds in a millisecond.
pub const NANOS_PER_MILLI: u64 = 1_000_000;

/// A stored value and the instant (in nanoseconds on the store's clock)
/// after which it is gone.
pub struct StoreValue {
    pub data: Vec<u8>,
    pub timeout: Option<u64>,
}

impl View for StoreValue {
    type V = (Seq<u8>, Option<u64>);

    open spec fn view(&self) -> (Seq<u8>, Option<u64>) {
        (self.data@, self.timeout)
    }
}

struct Entry {
    key: Vec<u8>,
    value: StoreValue,
}

/// The table: keys are byte strings, each held once.
pub struct RedisValueStore {
    state: Vec<Entry>,
    start: Instant,
}

/// The instant, in nanoseconds, at which a value written at `now` with a
/// lifetime of `ttl` milliseconds lapses; past the clock's range it never
/// does.
pub open spec fn expiry_of(now: u64, ttl: u64) -> u64 {
    if now + ttl * NANOS_PER_MILLI > u64::MAX {
        u64::MAX
    } else {
        (now + ttl * NANOS_PER_MILLI) as u64
    }
}

/// An entry has lapsed at `now` when `now` is strictly past its expiry.
pub open spec fn is_expired(e: (Seq<u8>, Option<u64>), now: u64) -> bool {
    e.1 matches Some(t) && now > t
}

/// What reading `k` at `now` returns.
pub open spec fn read(m: Map<Seq<u8>, (Seq<u8>, Option<u64>)>, k: Seq<u8>, now: u64) -> Option<Seq<u8>> {
    if m.contains_key(k) && !is_expired(m[k], now) {
        Some(m[k].0)
    } else {
        None
    }
}

/// The table after reading `k` at `now`: a lapsed entry is removed.
pub open spec fn after_read(m: Map<Seq<u8>, (Seq<u8>, Option<u64>)>, k: Seq<u8>, now: u64) -> Map<
    Seq<u8>,
    (Seq<u8>, Option<u64>),
> {
    if m.contains_key(k) && is_expired(m[k], now) {
        m.remove(k)
    } else {
        m
    }
}

fn bytes_eq(a: &[u8], b: &[u8]) -> (r: bool)
    ensures
        r == (a@ == b@),
{
    if a.len() != b.len() {
        return false;
    }
    let mut i: usize = 0;
    while i < a.len()
        invariant
            a@.len() == b@.len(),
            i <= a@.len(),
            forall|j: int| 0 <= j < i ==> a@[j] == b@[j],
        decreases a.len() - i,
    {
        if a[i] != b[i] {
            return false;
        }
        i = i + 1;
    }
    assert(a@ =~= b@);
    true
}

/// A value written at `now` with a lifetime of `ttl` milliseconds reads back
/// at every time up to and including `ttl` milliseconds later, and at no time
/// after that; a read after it removes the key.
pub proof fn lemma_ttl_boundary(
    m: Map<Seq<u8>, (Seq<u8>, Option<u64>)>,
    k: Seq<u8>,
    v: Seq<u8>,
    ttl: u64,
    now: u64,
    t: u64,
)
    ensures
        read(m.insert(k, (v, Some(expiry_of(now, ttl)))), k, t) == (if t <= now + ttl * NANOS_PER_MILLI {
            Some(v)
        } else {
            None::<Seq<u8>>
        }),
        t > now + ttl * NANOS_PER_MILLI ==> !after_read(m.insert(k, (v, Some(expiry_of(now, ttl)))), k, t).contains_key(k),
        t <= now + ttl * NANOS_PER_MILLI ==> after_read(m.insert(k, (v, Some(expiry_of(now, ttl)))), k, t) == m.insert(
            k,
            (v, Some(expiry_of(now, ttl))),
        ),
{
}

/// An entry read at exactly its expiry instant is still there, and the read
/// leaves the table as it was.
pub proof fn lemma_read_at_expiry(m: Map<Seq<u8>, (Seq<u8>, Option<u64>)>, k: Seq<u8>, t: u64)
    requires
        m.contains_key(k),
        m[k].1 == Some(t),
    ensures
        read(m, k, t) == Some(m[k].0),
        after_read(m, k, t) == m,
{
}

/// Writing a key without a lifetime discards the lifetime that an earlier
/// write gave it: it reads back at every later time.
pub proof fn lemma_overwrite_clears_expiry(
    m: Map<Seq<u8>, (Seq<u8>, Option<u64>)>,
    k: Seq<u8>,
    v1: Seq<u8>,
    v2: Seq<u8>,
    ttl: u64,
    now: u64,
    t: u64,
)
    ensures
        read(m.insert(k, (v1, Some(expiry_of(now, ttl)))).insert(k, (v2, None)), k, t) == Some(v2),
{
}

/// Two reads of one key, one after the other: once the first finds the entry
/// lapsed and removes it, the second finds nothing and removes nothing, so
/// the key goes absent exactly once.
pub proof fn lemma_lapse_once(m: Map<Seq<u8>, (Seq<u8>, Option<u64>)>, k: Seq<u8>, t1: u64, t2: u64)
    ensures
        read(m, k, t1) is None ==> read(after_read(m, k, t1), k, t2) is None,
        m.contains_key(k) && is_expired(m[k], t1) ==> {
            &&& after_read(m, k, t1) == m.remove(k)
            &&& after_read(after_read(m, k, t1), k, t2) == after_read(m, k, t1)
        },
{
}

impl RedisValueStore {
    /// Keys are held once each.
    pub closed spec fn wf(&self) -> bool {
        forall|i: int, j: int|
            0 <= i < j < self.state@.len() ==> self.state@[i].key@ != self.state@[j].key@
    }

    closed spec fn has_key_at(&self, k: Seq<u8>, i: int) -> bool {
        0 <= i < self.state@.len() && self.state@[i].key@ == k
    }

    pub closed spec fn view(&self) -> Map<Seq<u8>, (Seq<u8>, Option<u64>)> {
        Map::new(
            |k: Seq<u8>| exists|i: int| self.has_key_at(k, i),
            |k: Seq<u8>| self.state@[choose|i: int| self.has_key_at(k, i)].value@,
        )
    }

    proof fn lemma_view(&self)
        requires
            self.wf(),
        ensures
            forall|i: int|
                0 <= i < self.state@.len() ==> #[trigger] self.view().contains_key(self.state@[i].key@)
                    && self.view()[self.state@[i].key@] == self.state@[i].value@,
            forall|k: Seq<u8>|
                #[trigger] self.view().contains_key(k) ==> exists|i: int| self.has_key_at(k, i),
    {
        assert forall|i: int| 0 <= i < self.state@.len() implies #[trigger] self.view().contains_key(
            self.state@[i].key@,
        ) && self.view()[self.state@[i].key@] == self.state@[i].value@ by {
            let k = self.state@[i].key@;
            assert(self.has_key_at(k, i));
            let j = choose|j: int| self.has_key_at(k, j);
            assert(i == j);
        }
    }

    /// Where `key` stands in the table, if it does.
    fn find(&self, key: &[u8]) -> (r: Option<usize>)
        ensures
            match r {
                Some(i) => self.has_key_at(key@, i as int),
                None => forall|i: int| 0 <= i < self.state@.len() ==> self.state@[i].key@ != key@,
            },
    {
        let mut i: usize = 0;
        while i < self.state.len()
            invariant
                i <= self.state@.len(),
                forall|j: int| 0 <= j < i ==> self.state@[j].key@ != key@,
            decreases self.state.len() - i,
        {
            if bytes_eq(self.state[i].key.as_slice(), key) {
                return Some(i);
            }
            i = i + 1;
        }
        None
    }

    /// An empty table.
    pub fn new() -> (r: Self)
        ensures
            r.wf(),
            r@ == Map::<Seq<u8>, (Seq<u8>, Option<u64>)>::empty(),
    {
        let r = RedisValueStore { state: Vec::new(), start: clock_now() };
        assert(r@ =~= Map::<Seq<u8>, (Seq<u8>, Option<u64>)>::empty());
        r
    }

    /// The table after the entry at `i` was written: over an entry with the
    /// same key, or appended at the end with a new key.
    proof fn lemma_view_written(self, before: Self, i: int)
        requires
            before.wf(),
            self.wf(),
            0 <= i < self.state@.len(),
            self.state@.len() == before.state@.len() || self.state@.len() == before.state@.len() + 1,
            i < before.state@.len() ==> before.state@[i].key@ == self.state@[i].key@,
            forall|j: int|
                0 <= j < self.state@.len() && j != i ==> j < before.state@.len() && #[trigger] self.state@[j]
                    == before.state@[j],
        ensures
            self@ == before@.insert(self.state@[i].key@, self.state@[i].value@),
    {
        let k = self.state@[i].key@;
        let v = self.state@[i].value@;
        self.lemma_view();
        before.lemma_view();
        assert forall|kk: Seq<u8>| #[trigger] self@.contains_key(kk) implies before@.insert(k, v).contains_key(kk) by {
            let j = choose|j: int| self.has_key_at(kk, j);
            if j != i {
                assert(self.state@[j] == before.state@[j]);
                assert(before.has_key_at(kk, j));
            }
        }
        assert forall|kk: Seq<u8>| #[trigger] before@.insert(k, v).contains_key(kk) implies self@.contains_key(kk) by {
            if kk == k {
                assert(self.has_key_at(kk, i));
            } else {
                let j = choose|j: int| before.has_key_at(kk, j);
                assert(j != i);
                assert(self.state@[j] == before.state@[j]);
                assert(self.has_key_at(kk, j));
            }
        }
        assert forall|kk: Seq<u8>| #[trigger] self@.contains_key(kk) implies self@[kk] == before@.insert(k, v)[kk] by {
            let j = choose|j: int| self.has_key_at(kk, j);
            if j != i {
                assert(self.state@[j] == before.state@[j]);
                assert(before.has_key_at(kk, j));
            }
        }
        assert(self@ =~= before@.insert(k, v));
    }

    /// Puts `value` under `key`, replacing whatever was there.
    fn put(&mut self, key: Vec<u8>, value: StoreValue)
        requires
            old(self).wf(),
        ensures
            final(self).wf(),
            final(self)@ == old(self)@.insert(key@, value@),
    {
        let ghost before = *self;
        match self.find(key.as_slice()) {
            Some(i) => {
                self.state.set(i, Entry { key, value });
                proof {
                    self.lemma_view_written(before, i as int);
                }
            },
            None => {
                self.state.push(Entry { key, value });
                proof {
                    self.lemma_view_written(before, before.state@.len() as int);
                }
            },
        }
    }

    /// Takes the entry at `i` out of the table.
    fn remove_at(&mut self, i: usize)
        requires
            old(self).wf(),
            i < old(self).state@.len(),
        ensures
            final(self).wf(),
            final(self)@ == old(self)@.remove(old(self).state@[i as int].key@),
    {
        let ghost k = self.state@[i as int].key@;
        proof {
            self.lemma_view();
        }
        let _ = self.state.remove(i);
        proof {
            assert(forall|j: int| 0 <= j < self.state@.len() ==> self.state@[j] == old(self).state@[if j < i { j } else { j + 1 }]);
            self.lemma_view();
            assert forall|kk: Seq<u8>| #[trigger] self@.contains_key(kk) implies old(self)@.remove(k).contains_key(kk) by {
                let j = choose|j: int| self.has_key_at(kk, j);
                let oj = if j < i { j } else { j + 1 };
                assert(old(self).has_key_at(kk, oj));
            }
            assert forall|kk: Seq<u8>| #[trigger] old(self)@.remove(k).contains_key(kk) implies self@.contains_key(kk) by {
                let oj = choose|j: int| old(self).has_key_at(kk, j);
                assert(oj != i);
                let j = if oj < i { oj } else { oj - 1 };
                assert(self.has_key_at(kk, j));
            }
            assert forall|kk: Seq<u8>| #[trigger] self@.contains_key(kk) implies self@[kk] == old(self)@.remove(k)[kk] by {
                let j = choose|j: int| self.has_key_at(kk, j);
                let oj = if j < i { j } else { j + 1 };
                assert(old(self).has_key_at(kk, oj));
            }
            assert(self@ =~= old(self)@.remove(k));
        }
    }

    /// Stores `value` under `key` with no expiry, replacing any earlier entry
    /// and its expiry.
    pub fn set(&mut self, key: Vec<u8>, value: Vec<u8>)
        requires
            old(self).wf(),
        ensures
            final(self).wf(),
            final(self)@ == old(self)@.insert(key@, (value@, None::<u64>)),
    {
        self.put(key, StoreValue { data: value, timeout: None });
    }

    /// Stores `value` under `key`, to lapse `ttl` milliseconds after `now`
    /// (in nanoseconds on the store's clock); with a `ttl` of zero it is gone
    /// at any later instant.
    pub fn set_with_expiry_at(&mut self, key: Vec<u8>, value: Vec<u8>, ttl: u64, now: u64)
        requires
            old(self).wf(),
        ensures
            final(self).wf(),
            final(self)@ == old(self)@.insert(key@, (value@, Some(expiry_of(now, ttl)))),
    {
        let t = if ttl > (u64::MAX - now) / NANOS_PER_MILLI {
            u64::MAX
        } else {
            now + ttl * NANOS_PER_MILLI
        };
        self.put(key, StoreValue { data: value, timeout: Some(t) });
    }

    /// Stores `value` under `key`, to lapse `ttl` milliseconds from now.
    pub fn set_with_expiry(&mut self, key: Vec<u8>, value: Vec<u8>, ttl: u64)
        requires
            old(self).wf(),
        ensures
            final(self).wf(),
            exists|now: u64| final(self)@ == old(self)@.insert(key@, (value@, Some(#[trigger] expiry_of(now, ttl)))),
    {
        let now = self.clock();
        self.set_with_expiry_at(key, value, ttl, now);
    }

    /// Reads `key` at `now` (in nanoseconds on the store's clock). An entry whose
    /// expiry `now` is strictly past is removed and reads as absent; one read
    /// at its very expiry instant is still there.
    pub fn get_at(&mut self, key: &[u8], now: u64) -> (r: Option<Vec<u8>>)
        requires
            old(self).wf(),
        ensures
            final(self).wf(),
            final(self)@ == after_read(old(self)@, key@, now),
            match read(old(self)@, key@, now) {
                Some(d) => r matches Some(x) && x@ == d,
                None => r is None,
            },
    {
        proof {
            self.lemma_view();
        }
        match self.find(key) {
            None => {
                proof {
                    assert(!self@.contains_key(key@)) by {
                        if self@.contains_key(key@) {
                            let j = choose|j: int| self.has_key_at(key@, j);
                        }
                    }
                }
                None
            },
            Some(i) => {
                let expired = match self.state[i].value.timeout {
                    Some(t) => now > t,
                    None => false,
                };
                if expired {
                    self.remove_at(i);
                    None
                } else {
                    let d = &self.state[i].value.data;
                    Some(copy_range(d.as_slice(), 0, d.len()))
                }
            },
        }
    }

    /// Whether an entry for `key` is held, lapsed or not; reading this way
    /// removes nothing.
    pub fn contains_key(&self, key: &[u8]) -> (r: bool)
        requires
            self.wf(),
        ensures
            r == self@.contains_key(key@),
    {
        proof {
            self.lemma_view();
        }
        match self.find(key) {
            Some(_) => true,
            None => {
                proof {
                    if self@.contains_key(key@) {
                        let j = choose|j: int| self.has_key_at(key@, j);
                    }
                }
                false
            },
        }
    }

    /// Nanoseconds since the store was made, held at the largest `u64`
    /// past it: the time that the `_at` methods take.
    pub fn clock(&self) -> (r: u64) {
        let n = nanos_of(&elapsed_since(&self.start));
        if n > u64::MAX as u128 {
            u64::MAX
        } else {
            n as u64
        }
    }

    /// Reads `key` now; see `get_at`.
    pub fn get(&mut self, key: &[u8]) -> (r: Option<Vec<u8>>)
        requires
            old(self).wf(),
        ensures
            final(self).wf(),
            exists|now: u64| {
                &&& final(self)@ == #[trigger] after_read(old(self)@, key@, now)
                &&& match read(old(self)@, key@, now) {
                    Some(d) => r matches Some(x) && x@ == d,
                    None => r is None,
                }
            },
    {
        let now = self.clock();
        self.get_at(key, now)
    }
}

} // verus!
