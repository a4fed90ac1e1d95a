//! The storage engine: a key-space of byte values with optional deadlines, and
//! an index from insertion number to key that gives the oldest-first order.
//!
//! Time is a count of milliseconds handed in by the caller (`now`); the
//! methods without an `_at` suffix read it from the store's own clock.
use vstd::prelude::*;
use vstd::utf8::encode_utf8;
use dashmap::DashMap;
use std::time::Instant;

verus! {

#[verifier::external_type_specification]
#[verifier::external_body]
#[verifier::reject_recursive_types(K)]
#[verifier::reject_recursive_types(V)]
#[verifier::reject_recursive_types(S)]
pub struct ExDashMap<K, V, S>(DashMap<K, V, S>);

#[verifier::external_type_specification]
#[verifier::external_body]
pub struct ExInstant(Instant);

/// A stored value: its bytes, its deadline (if any), and its insertion number.
pub type Slot = (Vec<u8>, Option<u64>, u64);

/// The mathematical form of a `Slot`.
pub type SlotView = (Seq<u8>, Option<u64>, u64);

pub open spec fn slot_view(s: Slot) -> SlotView {
    (s.0@, s.1, s.2)
}

/// What the key-space map holds.
pub uninterp spec fn slots_of(m: DashMap<String, Slot>) -> Map<Seq<char>, SlotView>;

/// What the order index holds: insertion number to key.
pub uninterp spec fn order_of(m: DashMap<u64, String>) -> Map<u64, Seq<char>>;

/// Relies on DashMap::new: a new map is empty.
#[verifier::external_body]
fn new_slots() -> (r: DashMap<String, Slot>)
    ensures
        slots_of(r).dom() == Set::<Seq<char>>::empty(),
{
    DashMap::new()
}

/// Relies on DashMap::insert: the key now maps to the value; the previous value is returned.
#[verifier::external_body]
fn slots_insert(m: &mut DashMap<String, Slot>, k: String, v: Slot) -> (r: Option<Slot>)
    ensures
        slots_of(*final(m)) == slots_of(*old(m)).insert(k@, slot_view(v)),
        r is Some <==> slots_of(*old(m)).contains_key(k@),
        r is Some ==> slot_view(r->0) == slots_of(*old(m))[k@],
{
    m.insert(k, v)
}

/// Relies on DashMap::remove: the key leaves the map; its key and value are returned.
#[verifier::external_body]
fn slots_remove(m: &mut DashMap<String, Slot>, k: &str) -> (r: Option<(String, Slot)>)
    ensures
        slots_of(*final(m)) == slots_of(*old(m)).remove(k@),
        r is Some <==> slots_of(*old(m)).contains_key(k@),
        r is Some ==> (r->0).0@ == k@ && slot_view((r->0).1) == slots_of(*old(m))[k@],
{
    m.remove(k)
}

/// Relies on DashMap::get: a copy of the value stored under the key.
#[verifier::external_body]
fn slots_get(m: &DashMap<String, Slot>, k: &str) -> (r: Option<Slot>)
    ensures
        r is Some <==> slots_of(*m).contains_key(k@),
        r is Some ==> slot_view(r->0) == slots_of(*m)[k@],
{
    m.get(k).map(|e| e.value().clone())
}

/// Relies on DashMap::iter: each key of the map once, in the map's own order.
#[verifier::external_body]
fn slots_keys(m: &DashMap<String, Slot>) -> (r: Vec<String>)
    ensures
        forall|i: int| 0 <= i < r@.len() ==> slots_of(*m).contains_key(#[trigger] r@[i]@),
        forall|k: Seq<char>| slots_of(*m).contains_key(k) ==> exists|i: int| 0 <= i < r@.len() && #[trigger] r@[i]@ == k,
        forall|i: int, j: int| 0 <= i < j < r@.len() ==> r@[i]@ != r@[j]@,
{
    m.iter().map(|e| e.key().clone()).collect()
}

/// Relies on DashMap::new: a new map is empty.
#[verifier::external_body]
fn new_order() -> (r: DashMap<u64, String>)
    ensures
        order_of(r).dom() == Set::<u64>::empty(),
{
    DashMap::new()
}

/// Relies on DashMap::insert: the number now maps to the key.
#[verifier::external_body]
fn order_insert(m: &mut DashMap<u64, String>, s: u64, k: String)
    ensures
        order_of(*final(m)) == order_of(*old(m)).insert(s, k@),
{
    m.insert(s, k);
}

/// Relies on DashMap::remove: the number leaves the map; its key is returned.
#[verifier::external_body]
fn order_remove(m: &mut DashMap<u64, String>, s: u64) -> (r: Option<String>)
    ensures
        order_of(*final(m)) == order_of(*old(m)).remove(s),
        r is Some <==> order_of(*old(m)).contains_key(s),
        r is Some ==> (r->0)@ == order_of(*old(m))[s],
{
    m.remove(&s).map(|e| e.1)
}

/// Relies on DashMap::iter: every number that the map holds.
#[verifier::external_body]
fn order_numbers(m: &DashMap<u64, String>) -> (r: Vec<u64>)
    ensures
        forall|i: int| 0 <= i < r@.len() ==> order_of(*m).contains_key(#[trigger] r@[i]),
        forall|s: u64| order_of(*m).contains_key(s) ==> exists|i: int| 0 <= i < r@.len() && #[trigger] r@[i] == s,
{
    m.iter().map(|e| *e.key()).collect()
}

/// Relies on Instant::now: the moment the store's clock counts from.
#[verifier::external_body]
fn clock_origin() -> (r: Instant)
{
    Instant::now()
}

/// Relies on Instant::elapsed: milliseconds since `origin`, whatever the clock says.
#[verifier::external_body]
fn millis_since(origin: &Instant) -> (r: u64)
{
    origin.elapsed().as_millis() as u64
}

#[derive(Debug, Clone, Copy, PartialEq, Eq, Structural)]
pub enum StorageError {
    KeyNotFound,
    KeyExpired,
    DeserializationError,
}

impl StorageError {
    /// A short description of the error.
    pub fn message(&self) -> (r: String)
        ensures
            r@ == error_text(*self),
    {
        match self {
            StorageError::KeyNotFound => String::from_str("key not found"),
            StorageError::KeyExpired => String::from_str("key expired"),
            StorageError::DeserializationError => String::from_str("value deserialization failed"),
        }
    }
}

pub open spec fn error_text(e: StorageError) -> Seq<char> {
    match e {
        StorageError::KeyNotFound => "key not found"@,
        StorageError::KeyExpired => "key expired"@,
        StorageError::DeserializationError => "value deserialization failed"@,
    }
}

/// A value whose deadline has passed at `now`.
pub open spec fn is_expired(e: SlotView, now: u64) -> bool {
    match e.1 {
        Some(d) => now > d,
        None => false,
    }
}

/// A key that is present and not expired at `now`.
pub open spec fn is_live(m: Map<Seq<char>, SlotView>, k: Seq<char>, now: u64) -> bool {
    m.contains_key(k) && !is_expired(m[k], now)
}

/// `k` is live at `now` and was inserted before every other live key.
pub open spec fn is_oldest_live(m: Map<Seq<char>, SlotView>, k: Seq<char>, now: u64) -> bool {
    is_live(m, k, now) && forall|k2: Seq<char>| is_live(m, k2, now) && k2 != k ==> m[k2].2 > m[k].2
}

/// The deadline of a value set at `now` to live `ttl` milliseconds (the clock's end if it overflows).
pub open spec fn deadline(now: u64, ttl: Option<u64>) -> Option<u64> {
    match ttl {
        Some(t) => Some(if now + t > u64::MAX { u64::MAX } else { (now + t) as u64 }),
        None => None,
    }
}

/// The entries that are not expired at `now`.
pub open spec fn unexpired(m: Map<Seq<char>, SlotView>, now: u64) -> Map<Seq<char>, SlotView> {
    m.restrict(Set::new(|k: Seq<char>| !is_expired(m[k], now)))
}

/// The keys whose entries are expired at `now`.
pub open spec fn expired_keys(m: Map<Seq<char>, SlotView>, now: u64) -> Set<Seq<char>> {
    m.dom().filter(|k: Seq<char>| is_expired(m[k], now))
}

/// The entries inserted after the entry numbered `s`.
pub open spec fn inserted_after(m: Map<Seq<char>, SlotView>, s: u64) -> Map<Seq<char>, SlotView> {
    m.restrict(Set::new(|k: Seq<char>| m[k].2 > s))
}

/// Text `key` matches `pattern`: `*` alone matches all; a trailing `*` asks for
/// the rest as a prefix; any other pattern asks for equality. Both are read as
/// their UTF-8 bytes.
pub open spec fn pattern_matches(pattern: Seq<u8>, key: Seq<u8>) -> bool {
    if pattern.len() > 0 && pattern.last() == 42u8 {
        let prefix = pattern.drop_last();
        prefix.len() <= key.len() && key.subrange(0, prefix.len() as int) == prefix
    } else {
        key == pattern
    }
}

/// `k` is live at `now` and matches `pattern`.
pub open spec fn key_listed(m: Map<Seq<char>, SlotView>, pattern: Seq<char>, k: Seq<char>, now: u64) -> bool {
    is_live(m, k, now) && pattern_matches(encode_utf8(pattern), encode_utf8(k))
}

/// `r` holds each key listed at `now` (see `key_listed`) once, and nothing else.
pub open spec fn lists_keys(r: Seq<String>, m: Map<Seq<char>, SlotView>, pattern: Seq<char>, now: u64) -> bool {
    &&& forall|i: int, j: int| 0 <= i < j < r.len() ==> r[i]@ != r[j]@
    &&& forall|k: Seq<char>| #![trigger holds_key(r, k)] #![trigger key_listed(m, pattern, k, now)]
            holds_key(r, k) <==> key_listed(m, pattern, k, now)
}

/// The keys of `r` come in the order they were inserted into `m`.
pub open spec fn in_insertion_order(r: Seq<String>, m: Map<Seq<char>, SlotView>) -> bool {
    forall|a: int, b: int| 0 <= a < b < r.len() ==> m[#[trigger] r[a]@].2 < m[#[trigger] r[b]@].2
}

/// Some element of `r` is the text `k`.
pub open spec fn holds_key(r: Seq<String>, k: Seq<char>) -> bool {
    exists|i: int| 0 <= i < r.len() && #[trigger] r[i]@ == k
}

/// Whether `key` matches `pattern`, both as UTF-8 bytes.
pub fn matches_pattern(pattern: &[u8], key: &[u8]) -> (r: bool)
    ensures
        r == pattern_matches(pattern@, key@),
{
    let n = pattern.len();
    let wildcard = n > 0 && pattern[n - 1] == 42u8;
    assert(wildcard == (pattern@.len() > 0 && pattern@.last() == 42u8));
    if wildcard {
        let plen = n - 1;
        if plen > key.len() {
            return false;
        }
        let mut i: usize = 0;
        while i < plen
            invariant
                plen == pattern@.len() - 1,
                plen <= key@.len(),
                0 <= i <= plen,
                forall|j: int| 0 <= j < i ==> key@[j] == pattern@[j],
            decreases plen - i,
        {
            if key[i] != pattern[i] {
                assert(key@.subrange(0, plen as int)[i as int] != pattern@.drop_last()[i as int]);
                return false;
            }
            i = i + 1;
        }
        assert(key@.subrange(0, plen as int) =~= pattern@.drop_last());
        true
    } else {
        if n != key.len() {
            return false;
        }
        let mut i: usize = 0;
        while i < n
            invariant
                n == pattern@.len(),
                n == key@.len(),
                !(pattern@.len() > 0 && pattern@.last() == 42u8),
                0 <= i <= n,
                forall|j: int| 0 <= j < i ==> key@[j] == pattern@[j],
            decreases n - i,
        {
            if key[i] != pattern[i] {
                assert(key@[i as int] != pattern@[i as int]);
                return false;
            }
            i = i + 1;
        }
        assert(key@ =~= pattern@);
        true
    }
}

/// Puts `name` and its number `num` into the parallel lists at the place that
/// keeps the numbers increasing.
fn insert_in_order(out: &mut Vec<String>, nums: &mut Vec<u64>, name: String, num: u64) -> (pos: usize)
    requires
        old(out)@.len() == old(nums)@.len(),
        forall|a: int, b: int| 0 <= a < b < old(nums)@.len() ==> old(nums)@[a] < old(nums)@[b],
        forall|a: int| 0 <= a < old(nums)@.len() ==> old(nums)@[a] != num,
    ensures
        pos <= old(out)@.len(),
        final(out)@ == old(out)@.insert(pos as int, name),
        final(nums)@ == old(nums)@.insert(pos as int, num),
        forall|a: int, b: int| 0 <= a < b < final(nums)@.len() ==> final(nums)@[a] < final(nums)@[b],
{
    let mut pos: usize = 0;
    while pos < nums.len() && nums[pos] < num
        invariant
            pos <= nums@.len(),
            forall|a: int| 0 <= a < pos ==> nums@[a] < num,
        decreases nums.len() - pos,
    {
        pos = pos + 1;
    }
    let ghost prevn = nums@;
    out.insert(pos, name);
    nums.insert(pos, num);
    proof {
        prevn.insert_ensures(pos as int, num);
        assert forall|a: int, b: int| 0 <= a < b < nums@.len() implies nums@[a] < nums@[b] by {
            if b > pos {
                assert(nums@[b] == prevn[b - 1]);
            }
            if a > pos {
                assert(nums@[a] == prevn[a - 1]);
            }
        }
    }
    pos
}

pub struct Storage {
    map: DashMap<String, Slot>,
    fifo_keys: DashMap<u64, String>,
    next_seq: u64,
    origin: Instant,
}

impl Storage {
    /// Every key, with its value, deadline and insertion number.
    pub closed spec fn entries(&self) -> Map<Seq<char>, SlotView> {
        slots_of(self.map)
    }

    /// The insertion number that the next `set` gives.
    pub closed spec fn next(&self) -> u64 {
        self.next_seq
    }

    /// The key-space and the order index describe the same entries, and
    /// insertion numbers are below `next`.
    pub closed spec fn wf(&self) -> bool {
        let m = slots_of(self.map);
        let o = order_of(self.fifo_keys);
        &&& m.dom().finite()
        &&& forall|k: Seq<char>| #[trigger] m.contains_key(k) ==> m[k].2 < self.next_seq
                && o.contains_key(m[k].2) && o[m[k].2] == k
        &&& forall|s: u64| #[trigger] o.contains_key(s) ==> m.contains_key(o[s]) && m[o[s]].2 == s
    }

    /// A well-formed store holds finitely many keys.
    pub proof fn lemma_entries_finite(&self)
        requires
            self.wf(),
        ensures
            self.entries().dom().finite(),
    {
    }

    pub fn new() -> (r: Storage)
        ensures
            r.wf(),
            r.entries() == Map::<Seq<char>, SlotView>::empty(),
            r.next() == 0,
    {
        let r = Storage { map: new_slots(), fifo_keys: new_order(), next_seq: 0, origin: clock_origin() };
        assert(r.entries() =~= Map::<Seq<char>, SlotView>::empty());
        r
    }

    /// Whether the supply of insertion numbers is used up.
    pub fn is_full(&self) -> (r: bool)
        ensures
            r == (self.next() == u64::MAX),
    {
        self.next_seq == u64::MAX
    }

    /// Milliseconds on the store's clock.
    pub fn now(&self) -> u64 {
        millis_since(&self.origin)
    }

    /// Removes `key` from both indexes, returning what it held.
    fn remove_entry(&mut self, key: &str) -> (r: Option<Slot>)
        requires
            old(self).wf(),
        ensures
            final(self).wf(),
            final(self).entries() == old(self).entries().remove(key@),
            final(self).next() == old(self).next(),
            r is Some <==> old(self).entries().contains_key(key@),
            r is Some ==> slot_view(r->0) == old(self).entries()[key@],
    {
        let removed = slots_remove(&mut self.map, key);
        match removed {
            Some((_k, slot)) => {
                let _ = order_remove(&mut self.fifo_keys, slot.2);
                let ghost m = slots_of(self.map);
                let ghost o = order_of(self.fifo_keys);
                assert forall|k: Seq<char>| #[trigger] m.contains_key(k) implies m[k].2 < self.next_seq
                    && o.contains_key(m[k].2) && o[m[k].2] == k by {
                    assert(old(self).entries().contains_key(k));
                }
                Some(slot)
            },
            None => None,
        }
    }

    /// Stores `value` under `key` at time `now`, to live `ttl` milliseconds if given.
    pub fn set_at(&mut self, key: String, value: Vec<u8>, ttl: Option<u64>, now: u64) -> (r: Result<(), StorageError>)
        requires
            old(self).wf(),
            old(self).next() < u64::MAX,
        ensures
            r is Ok,
            final(self).wf(),
            final(self).entries() == old(self).entries().insert(key@, (value@, deadline(now, ttl), old(self).next())),
            final(self).next() == old(self).next() + 1,
            forall|k: Seq<char>| final(self).entries().contains_key(k) && k != key@
                ==> #[trigger] final(self).entries()[k].2 < final(self).entries()[key@].2,
    {
        let expiry: Option<u64> = match ttl {
            Some(t) => Some(now.saturating_add(t)),
            None => None,
        };
        let seq = self.next_seq;
        let k2 = key.clone();
        let prev = slots_insert(&mut self.map, key, (value, expiry, seq));
        match prev {
            Some(p) => {
                let _ = order_remove(&mut self.fifo_keys, p.2);
            },
            None => {},
        }
        order_insert(&mut self.fifo_keys, seq, k2);
        self.next_seq = seq + 1;
        let ghost m0 = old(self).entries();
        let ghost o0 = order_of(old(self).fifo_keys);
        let ghost m = slots_of(self.map);
        let ghost o = order_of(self.fifo_keys);
        assert forall|s: u64| #[trigger] o.contains_key(s) implies m.contains_key(o[s]) && m[o[s]].2 == s by {
            if s != seq {
                assert(o0.contains_key(s));
            }
        }
        Ok(())
    }

    /// The bytes under `key` at time `now`; an expired entry is removed and
    /// reported as `KeyExpired`.
    pub fn get_at(&mut self, key: &str, now: u64) -> (r: Result<Vec<u8>, StorageError>)
        requires
            old(self).wf(),
        ensures
            final(self).wf(),
            final(self).next() == old(self).next(),
            !old(self).entries().contains_key(key@) ==> r == Err::<Vec<u8>, StorageError>(StorageError::KeyNotFound)
                && final(self).entries() == old(self).entries(),
            old(self).entries().contains_key(key@) && is_expired(old(self).entries()[key@], now)
                ==> r == Err::<Vec<u8>, StorageError>(StorageError::KeyExpired)
                && final(self).entries() == old(self).entries().remove(key@),
            is_live(old(self).entries(), key@, now) ==> r is Ok && (r->Ok_0)@ == old(self).entries()[key@].0
                && final(self).entries() == old(self).entries(),
    {
        match slots_get(&self.map, key) {
            None => Err(StorageError::KeyNotFound),
            Some(slot) => {
                let expired = match slot.1 {
                    Some(d) => now > d,
                    None => false,
                };
                if expired {
                    let _ = self.remove_entry(key);
                    Err(StorageError::KeyExpired)
                } else {
                    Ok(slot.0)
                }
            },
        }
    }

    /// The bytes under `key` now; see `get_at`.
    pub fn get(&mut self, key: &str) -> (r: Result<Vec<u8>, StorageError>)
        requires
            old(self).wf(),
        ensures
            final(self).wf(),
            final(self).next() == old(self).next(),
            !old(self).entries().contains_key(key@) ==> r == Err::<Vec<u8>, StorageError>(StorageError::KeyNotFound)
                && final(self).entries() == old(self).entries(),
            r == Err::<Vec<u8>, StorageError>(StorageError::KeyExpired) ==> old(self).entries().contains_key(key@)
                && final(self).entries() == old(self).entries().remove(key@),
            r is Ok ==> old(self).entries().contains_key(key@) && (r->Ok_0)@ == old(self).entries()[key@].0
                && final(self).entries() == old(self).entries(),
            old(self).entries().contains_key(key@) ==> r is Ok
                || r == Err::<Vec<u8>, StorageError>(StorageError::KeyExpired),
            old(self).entries().contains_key(key@) && old(self).entries()[key@].1 is None ==> r is Ok,
    {
        let now = self.now();
        self.get_at(key, now)
    }

    /// Removes `key` and its place in the order; `KeyNotFound` if it is absent.
    pub fn delete(&mut self, key: &str) -> (r: Result<(), StorageError>)
        requires
            old(self).wf(),
        ensures
            final(self).wf(),
            final(self).next() == old(self).next(),
            final(self).entries() == old(self).entries().remove(key@),
            r is Ok <==> old(self).entries().contains_key(key@),
            r is Err ==> r == Err::<(), StorageError>(StorageError::KeyNotFound),
    {
        match self.remove_entry(key) {
            Some(_) => Ok(()),
            None => Err(StorageError::KeyNotFound),
        }
    }

    /// Removes and returns the live key with the smallest insertion number at
    /// time `now`, with its bytes. Expired entries met on the way are removed.
    pub fn pop_fifo_at(&mut self, now: u64) -> (r: Result<(String, Vec<u8>), StorageError>)
        requires
            old(self).wf(),
        ensures
            final(self).wf(),
            final(self).next() == old(self).next(),
            r is Err ==> r == Err::<(String, Vec<u8>), StorageError>(StorageError::KeyNotFound)
                && (forall|k: Seq<char>| !is_live(old(self).entries(), k, now))
                && final(self).entries() == Map::<Seq<char>, SlotView>::empty(),
            r is Ok ==> {
                let k = (r->Ok_0).0@;
                let e = old(self).entries();
                &&& is_oldest_live(e, k, now)
                &&& (r->Ok_0).1@ == e[k].0
                &&& final(self).entries() == inserted_after(e, e[k].2)
            },
    {
        let ghost e0 = old(self).entries();
        let ghost mut floor: int = 0;
        loop
            invariant
                self.wf(),
                e0 == old(self).entries(),
                self.next() == old(self).next(),
                self.entries() == e0.restrict(Set::new(|k: Seq<char>| e0[k].2 >= floor)),
                forall|k: Seq<char>| is_live(e0, k, now) ==> e0[k].2 >= floor,
            decreases self.entries().dom().len(),
        {
            let ghost m = self.entries();
            let ghost o = order_of(self.fifo_keys);
            let nums = order_numbers(&self.fifo_keys);
            if nums.len() == 0 {
                assert(self.entries() =~= Map::<Seq<char>, SlotView>::empty()) by {
                    assert forall|k: Seq<char>| !m.contains_key(k) by {
                        if m.contains_key(k) {
                            assert(o.contains_key(m[k].2));
                        }
                    }
                }
                assert forall|k: Seq<char>| !is_live(e0, k, now) by {
                    if is_live(e0, k, now) {
                        assert(m.contains_key(k));
                    }
                }
                return Err(StorageError::KeyNotFound);
            }
            let mut least: u64 = nums[0];
            let mut i: usize = 1;
            while i < nums.len()
                invariant
                    1 <= i <= nums.len(),
                    o.contains_key(least),
                    forall|j: int| 0 <= j < i ==> least <= #[trigger] nums@[j],
                    forall|j: int| 0 <= j < nums@.len() ==> o.contains_key(#[trigger] nums@[j]),
                    forall|s: u64| o.contains_key(s) ==> exists|j: int| 0 <= j < nums@.len() && #[trigger] nums@[j] == s,
                decreases nums.len() - i,
            {
                if nums[i] < least {
                    least = nums[i];
                }
                i = i + 1;
            }
            let ghost key_v = o[least];
            assert forall|k: Seq<char>| m.contains_key(k) implies m[k].2 >= least by {
                assert(o.contains_key(m[k].2));
                let j = choose|j: int| 0 <= j < nums@.len() && #[trigger] nums@[j] == m[k].2;
            }
            let key = order_remove(&mut self.fifo_keys, least).unwrap();
            let slot = slots_remove(&mut self.map, key.as_str()).unwrap().1;
            proof {
                let m2 = slots_of(self.map);
                let o2 = order_of(self.fifo_keys);
                assert forall|k: Seq<char>| #[trigger] m2.contains_key(k) implies m2[k].2 < self.next_seq
                    && o2.contains_key(m2[k].2) && o2[m2[k].2] == k by {
                    assert(m.contains_key(k));
                }
                assert forall|s: u64| #[trigger] o2.contains_key(s) implies m2.contains_key(o2[s]) && m2[o2[s]].2 == s by {
                    assert(o.contains_key(s));
                }
                assert(m.contains_key(key_v));
            }
            let expired = match slot.1 {
                Some(d) => now > d,
                None => false,
            };
            if !expired {
                proof {
                    assert forall|k2: Seq<char>| is_live(e0, k2, now) && k2 != key_v implies e0[k2].2 > e0[key_v].2 by {
                        assert(m.contains_key(k2));
                        assert(o[m[k2].2] == k2);
                    }
                    assert(self.entries() =~= inserted_after(e0, e0[key_v].2)) by {
                        assert forall|k2: Seq<char>| #[trigger] e0.contains_key(k2) && e0[k2].2 > e0[key_v].2
                            implies self.entries().contains_key(k2) by {
                            assert(m.contains_key(k2));
                        }
                        assert forall|k2: Seq<char>| #[trigger] self.entries().contains_key(k2)
                            implies e0[k2].2 > e0[key_v].2 by {
                            assert(m.contains_key(k2));
                            assert(o[m[k2].2] == k2);
                        }
                    }
                }
                return Ok((key, slot.0));
            }
            proof {
                floor = least + 1;
                assert(self.entries() =~= e0.restrict(Set::new(|k: Seq<char>| e0[k].2 >= floor))) by {
                    assert forall|k2: Seq<char>| #[trigger] e0.contains_key(k2) && e0[k2].2 >= floor
                        implies self.entries().contains_key(k2) by {
                        assert(m.contains_key(k2));
                    }
                    assert forall|k2: Seq<char>| #[trigger] self.entries().contains_key(k2)
                        implies e0[k2].2 >= floor by {
                        assert(m.contains_key(k2));
                        assert(o[m[k2].2] == k2);
                    }
                }
                assert forall|k: Seq<char>| is_live(e0, k, now) implies e0[k].2 >= floor by {
                    assert(m.contains_key(k));
                    if k != key_v {
                        assert(o[m[k].2] == k);
                    }
                }
                assert(m.dom().contains(key_v));
            }
        }
    }

    /// The live key with the smallest insertion number now; see `pop_fifo_at`.
    pub fn pop_fifo(&mut self) -> (r: Result<(String, Vec<u8>), StorageError>)
        requires
            old(self).wf(),
        ensures
            final(self).wf(),
            final(self).next() == old(self).next(),
            r is Err ==> r == Err::<(String, Vec<u8>), StorageError>(StorageError::KeyNotFound)
                && final(self).entries() == Map::<Seq<char>, SlotView>::empty(),
            r is Ok ==> {
                let k = (r->Ok_0).0@;
                let e = old(self).entries();
                &&& e.contains_key(k)
                &&& exists|now: u64| #[trigger] is_oldest_live(e, k, now)
                &&& (r->Ok_0).1@ == e[k].0
                &&& final(self).entries() == inserted_after(e, e[k].2)
            },
            (exists|k: Seq<char>| #[trigger] old(self).entries().contains_key(k) && old(self).entries()[k].1 is None)
                ==> r is Ok,
    {
        let now = self.now();
        let r = self.pop_fifo_at(now);
        proof {
            let e = old(self).entries();
            if exists|k: Seq<char>| #[trigger] e.contains_key(k) && e[k].1 is None {
                let k = choose|k: Seq<char>| #[trigger] e.contains_key(k) && e[k].1 is None;
                assert(is_live(e, k, now));
            }
        }
        r
    }

    /// Removes every entry expired at time `now`; returns how many went.
    pub fn cleanup_expired_at(&mut self, now: u64) -> (r: usize)
        requires
            old(self).wf(),
        ensures
            final(self).wf(),
            final(self).next() == old(self).next(),
            final(self).entries() == unexpired(old(self).entries(), now),
            r == expired_keys(old(self).entries(), now).len(),
            r == old(self).entries().dom().len() - final(self).entries().dom().len(),
    {
        let ghost e0 = old(self).entries();
        let names = slots_keys(&self.map);
        let mut removed: usize = 0;
        let mut i: usize = 0;
        while i < names.len()
            invariant
                self.wf(),
                e0 == old(self).entries(),
                e0.dom().finite(),
                self.next() == old(self).next(),
                0 <= i <= names.len(),
                removed <= i,
                forall|j: int| 0 <= j < names@.len() ==> e0.contains_key(#[trigger] names@[j]@),
                forall|k: Seq<char>| e0.contains_key(k) ==> exists|j: int| 0 <= j < names@.len() && #[trigger] names@[j]@ == k,
                forall|k: Seq<char>| #[trigger] self.entries().contains_key(k) ==> e0.contains_key(k) && self.entries()[k] == e0[k],
                forall|k: Seq<char>| #[trigger] e0.contains_key(k) && !is_expired(e0[k], now) ==> self.entries().contains_key(k),
                forall|j: int| 0 <= j < i && is_expired(e0[#[trigger] names@[j]@], now) ==> !self.entries().contains_key(names@[j]@),
                self.entries().dom().subset_of(e0.dom()),
                removed == e0.dom().len() - self.entries().dom().len(),
            decreases names.len() - i,
        {
            let expired = match slots_get(&self.map, names[i].as_str()) {
                Some(slot) => match slot.1 {
                    Some(d) => now > d,
                    None => false,
                },
                None => false,
            };
            if expired {
                let ghost before = self.entries();
                let _ = self.remove_entry(names[i].as_str());
                proof {
                    assert(self.entries().dom() == before.dom().remove(names@[i as int]@));
                    vstd::set_lib::lemma_len_subset(before.dom(), e0.dom());
                }
                removed = removed + 1;
            }
            i = i + 1;
        }
        proof {
            assert(self.entries() =~= unexpired(e0, now)) by {
                assert forall|k: Seq<char>| #[trigger] e0.contains_key(k) && is_expired(e0[k], now)
                    implies !self.entries().contains_key(k) by {
                    let j = choose|j: int| 0 <= j < names@.len() && #[trigger] names@[j]@ == k;
                }
            }
        }
        proof {
            let kept = self.entries().dom();
            let gone = expired_keys(e0, now);
            assert(e0.dom() =~= kept + gone);
            assert(kept.disjoint(gone));
            vstd::set_lib::lemma_set_disjoint_lens(kept, gone);
        }
        removed
    }

    /// Removes every entry expired now; see `cleanup_expired_at`.
    pub fn cleanup_expired(&mut self) -> (r: usize)
        requires
            old(self).wf(),
        ensures
            final(self).wf(),
            final(self).next() == old(self).next(),
            exists|now: u64| final(self).entries() == #[trigger] unexpired(old(self).entries(), now)
                && r == expired_keys(old(self).entries(), now).len(),
            r == old(self).entries().dom().len() - final(self).entries().dom().len(),
    {
        let now = self.now();
        self.cleanup_expired_at(now)
    }

    /// The keys live at time `now` that match `pattern` (see
    /// `pattern_matches`), each once, in the order they were inserted.
    #[verifier::rlimit(100)]
    #[verifier::spinoff_prover]
    pub fn keys_at(&self, pattern: &str, now: u64) -> (r: Vec<String>)
        requires
            self.wf(),
        ensures
            lists_keys(r@, self.entries(), pattern@, now),
            in_insertion_order(r@, self.entries()),
    {
        let ghost m = self.entries();
        let names = slots_keys(&self.map);
        let pat = pattern.as_bytes();
        let mut out: Vec<String> = Vec::new();
        let mut nums: Vec<u64> = Vec::new();
        let mut i: usize = 0;
        while i < names.len()
            invariant
                m == self.entries(),
                self.wf(),
                0 <= i <= names.len(),
                pat@ == encode_utf8(pattern@),
                forall|j: int| 0 <= j < names@.len() ==> m.contains_key(#[trigger] names@[j]@),
                forall|k: Seq<char>| m.contains_key(k) ==> exists|j: int| 0 <= j < names@.len() && #[trigger] names@[j]@ == k,
                forall|a: int, b: int| 0 <= a < b < names@.len() ==> names@[a]@ != names@[b]@,
                out@.len() == nums@.len(),
                forall|a: int| 0 <= a < out@.len() ==> #[trigger] nums@[a] == m[out@[a]@].2,
                forall|a: int, b: int| 0 <= a < b < nums@.len() ==> nums@[a] < nums@[b],
                forall|a: int| #![trigger out@[a]] 0 <= a < out@.len() ==> exists|j: int| 0 <= j < i && #[trigger] names@[j]@ == out@[a]@,
                forall|a: int| 0 <= a < out@.len() ==> key_listed(m, pattern@, #[trigger] out@[a]@, now),
                forall|j: int| 0 <= j < i && key_listed(m, pattern@, #[trigger] names@[j]@, now)
                    ==> exists|a: int| 0 <= a < out@.len() && #[trigger] out@[a]@ == names@[j]@,
            decreases names.len() - i,
        {
            let name = &names[i];
            match slots_get(&self.map, name.as_str()) {
                Some(slot) => {
                    let expired = match slot.1 {
                        Some(d) => now > d,
                        None => false,
                    };
                    if !expired && matches_pattern(pat, name.as_str().as_bytes()) {
                        let num = slot.2;
                        let ghost prev = out@;
                        let ghost prevn = nums@;
                        proof {
                            let o = order_of(self.fifo_keys);
                            assert forall|a: int| 0 <= a < prevn.len() implies prevn[a] != num by {
                                let k2 = prev[a]@;
                                let j = choose|j: int| 0 <= j < i && #[trigger] names@[j]@ == k2;
                                assert(k2 != names@[i as int]@);
                                assert(nums@[a] == m[prev[a]@].2);
                                assert(o[m[k2].2] == k2);
                                assert(o[m[names@[i as int]@].2] == names@[i as int]@);
                            }
                        }
                        let pos = insert_in_order(&mut out, &mut nums, name.clone(), num);
                        proof {
                            prev.insert_ensures(pos as int, out@[pos as int]);
                            prevn.insert_ensures(pos as int, num);
                            assert forall|a: int| 0 <= a < out@.len() implies #[trigger] nums@[a] == m[out@[a]@].2 by {
                                if a > pos {
                                    assert(out@[a] == prev[a - 1]);
                                    assert(nums@[a] == prevn[a - 1]);
                                }
                            }
                            assert forall|a: int| #![trigger out@[a]] 0 <= a < out@.len() implies exists|j: int| 0 <= j < i + 1 && #[trigger] names@[j]@ == out@[a]@ by {
                                if a < pos {
                                    let j = choose|j: int| 0 <= j < i && #[trigger] names@[j]@ == prev[a]@;
                                    assert(names@[j]@ == out@[a]@);
                                } else if a == pos {
                                    assert(names@[i as int]@ == out@[a]@);
                                } else {
                                    assert(out@[a] == prev[a - 1]);
                                    let j = choose|j: int| 0 <= j < i && #[trigger] names@[j]@ == prev[a - 1]@;
                                    assert(names@[j]@ == out@[a]@);
                                }
                            }
                            assert forall|a: int| 0 <= a < out@.len() implies key_listed(m, pattern@, #[trigger] out@[a]@, now) by {
                                if a > pos {
                                    assert(out@[a] == prev[a - 1]);
                                }
                            }
                            assert forall|j: int| 0 <= j < i + 1 && key_listed(m, pattern@, #[trigger] names@[j]@, now)
                                implies exists|a: int| 0 <= a < out@.len() && #[trigger] out@[a]@ == names@[j]@ by {
                                if j < i {
                                    let a = choose|a: int| 0 <= a < prev.len() && #[trigger] prev[a]@ == names@[j]@;
                                    if a < pos {
                                        assert(out@[a]@ == names@[j]@);
                                    } else {
                                        assert(out@[a + 1] == prev[a]);
                                        assert(out@[a + 1]@ == names@[j]@);
                                    }
                                } else {
                                    assert(out@[pos as int]@ == names@[j]@);
                                }
                            }
                        }
                    }
                },
                None => {},
            }
            i = i + 1;
        }
        proof {
            assert forall|k: Seq<char>| key_listed(m, pattern@, k, now) implies
                exists|i: int| 0 <= i < out@.len() && #[trigger] out@[i]@ == k by {
                let j = choose|j: int| 0 <= j < names@.len() && #[trigger] names@[j]@ == k;
            }
            assert forall|a: int, b: int| 0 <= a < b < out@.len() implies m[out@[a]@].2 < m[out@[b]@].2 by {
                assert(nums@[a] == m[out@[a]@].2);
                assert(nums@[b] == m[out@[b]@].2);
            }
        }
        out
    }

    /// The keys live now that match `pattern`; see `keys_at`.
    pub fn keys(&self, pattern: &str) -> (r: Vec<String>)
        requires
            self.wf(),
        ensures
            exists|now: u64| #[trigger] lists_keys(r@, self.entries(), pattern@, now),
            in_insertion_order(r@, self.entries()),
    {
        let now = self.now();
        self.keys_at(pattern, now)
    }

    /// Stores `value` under `key` now, to live `ttl` milliseconds if given.
    pub fn set(&mut self, key: String, value: Vec<u8>, ttl: Option<u64>) -> (r: Result<(), StorageError>)
        requires
            old(self).wf(),
            old(self).next() < u64::MAX,
        ensures
            r is Ok,
            final(self).wf(),
            final(self).next() == old(self).next() + 1,
            exists|now: u64| final(self).entries()
                == old(self).entries().insert(key@, (value@, #[trigger] deadline(now, ttl), old(self).next())),
            forall|k: Seq<char>| final(self).entries().contains_key(k) && k != key@
                ==> #[trigger] final(self).entries()[k].2 < final(self).entries()[key@].2,
    {
        let now = self.now();
        self.set_at(key, value, ttl, now)
    }
}

} // verus!
