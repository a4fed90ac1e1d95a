//! Properties of the store that span several operations, stated over the
//! models that the operations' contracts use: a `set_at` turns entries `e`
//! into `e.insert(..)`, a `get_at` of a live key returns its bytes, a
//! `pop_fifo_at` takes the key that `is_oldest_live` picks and leaves
//! `inserted_after(..)`, a `delete` leaves `e.remove(k)`, and `keys_at`
//! answers a list that `lists_keys` describes.
use vstd::prelude::*;
use vstd::utf8::{encode_utf8, encode_scalar, encode_utf8_decode_utf8};
use crate::storage::{
    SlotView, is_live, is_expired, is_oldest_live, deadline, lists_keys, key_listed, holds_key, inserted_after,
    pattern_matches, in_insertion_order,
};

verus! {

/// At most one key is the oldest live one.
pub proof fn lemma_oldest_unique(e: Map<Seq<char>, SlotView>, a: Seq<char>, b: Seq<char>, now: u64)
    requires
        is_oldest_live(e, a, now),
        is_oldest_live(e, b, now),
    ensures
        a == b,
{
}

/// A value set with no time-to-live is live at any later read, which
/// returns exactly its bytes.
pub proof fn law_set_then_get(
    e: Map<Seq<char>, SlotView>,
    k: Seq<char>,
    v: Seq<u8>,
    n: u64,
    set_time: u64,
    get_time: u64,
)
    ensures
        is_live(e.insert(k, (v, deadline(set_time, None), n)), k, get_time),
        e.insert(k, (v, deadline(set_time, None), n))[k].0 == v,
{
}

/// A value read after its deadline has passed is expired (the read answers
/// `KeyExpired` and removes it); a listing of every key taken afterwards does
/// not hold it.
pub proof fn law_expired_read_removes(
    e: Map<Seq<char>, SlotView>,
    k: Seq<char>,
    v: Seq<u8>,
    n: u64,
    set_time: u64,
    ttl: u64,
    get_time: u64,
    later: u64,
    listed: Seq<String>,
)
    requires
        get_time > set_time + ttl,
        lists_keys(listed, e.insert(k, (v, deadline(set_time, Some(ttl)), n)).remove(k), "*"@, later),
    ensures
        is_expired(e.insert(k, (v, deadline(set_time, Some(ttl)), n))[k], get_time),
        forall|i: int| 0 <= i < listed.len() ==> listed[i]@ != k,
{
    let e2 = e.insert(k, (v, deadline(set_time, Some(ttl)), n)).remove(k);
    assert forall|i: int| 0 <= i < listed.len() implies listed[i]@ != k by {
        let kk = listed[i]@;
        assert(listed[i]@ == kk);
        assert(key_listed(e2, "*"@, kk, later));
    }
}

/// Three keys set one after another, with no time-to-live, into an empty
/// store come out of three pops in the order they went in; a fourth pop finds
/// no live key.
pub proof fn law_pop_in_insertion_order(
    k1: Seq<char>,
    k2: Seq<char>,
    k3: Seq<char>,
    v1: Seq<u8>,
    v2: Seq<u8>,
    v3: Seq<u8>,
    n: u64,
    now: u64,
)
    requires
        k1 != k2 && k1 != k3 && k2 != k3,
        n + 2 <= u64::MAX,
    ensures
        ({
            let e3 = Map::<Seq<char>, SlotView>::empty().insert(k1, (v1, None, n)).insert(k2, (v2, None, (n + 1) as u64))
                .insert(k3, (v3, None, (n + 2) as u64));
            let e4 = inserted_after(e3, n);
            let e5 = inserted_after(e4, (n + 1) as u64);
            let e6 = inserted_after(e5, (n + 2) as u64);
            &&& forall|k: Seq<char>| is_oldest_live(e3, k, now) <==> k == k1
            &&& e3[k1].0 == v1
            &&& forall|k: Seq<char>| is_oldest_live(e4, k, now) <==> k == k2
            &&& e4[k2].0 == v2 && e4[k2].2 == n + 1
            &&& forall|k: Seq<char>| is_oldest_live(e5, k, now) <==> k == k3
            &&& e5[k3].0 == v3 && e5[k3].2 == n + 2
            &&& forall|k: Seq<char>| !is_live(e6, k, now)
        }),
{
    let e3 = Map::<Seq<char>, SlotView>::empty().insert(k1, (v1, None, n)).insert(k2, (v2, None, (n + 1) as u64))
        .insert(k3, (v3, None, (n + 2) as u64));
    let e4 = inserted_after(e3, n);
    let e5 = inserted_after(e4, (n + 1) as u64);
    let e6 = inserted_after(e5, (n + 2) as u64);
    assert(e4 =~= Map::<Seq<char>, SlotView>::empty().insert(k2, (v2, None, (n + 1) as u64))
        .insert(k3, (v3, None, (n + 2) as u64)));
    assert(e5 =~= Map::<Seq<char>, SlotView>::empty().insert(k3, (v3, None, (n + 2) as u64)));
    assert(e6 =~= Map::<Seq<char>, SlotView>::empty());
    assert(is_oldest_live(e3, k1, now));
    assert(is_oldest_live(e4, k2, now));
    assert(is_oldest_live(e5, k3, now));
    assert forall|k: Seq<char>| is_oldest_live(e3, k, now) implies k == k1 by {
        lemma_oldest_unique(e3, k, k1, now);
    }
    assert forall|k: Seq<char>| is_oldest_live(e4, k, now) implies k == k2 by {
        lemma_oldest_unique(e4, k, k2, now);
    }
    assert forall|k: Seq<char>| is_oldest_live(e5, k, now) implies k == k3 by {
        lemma_oldest_unique(e5, k, k3, now);
    }
}

/// Setting a key again moves it behind the keys set since: with `k` set,
/// then `k2`, then `k` again (no time-to-live), a pop takes `k2` and the next
/// pop takes `k` with its new bytes.
pub proof fn law_overwrite_moves_to_back(
    k: Seq<char>,
    k2: Seq<char>,
    v: Seq<u8>,
    v2: Seq<u8>,
    v3: Seq<u8>,
    n: u64,
    now: u64,
)
    requires
        k != k2,
        n + 2 <= u64::MAX,
    ensures
        ({
            let e3 = Map::<Seq<char>, SlotView>::empty().insert(k, (v, None, n)).insert(k2, (v2, None, (n + 1) as u64))
                .insert(k, (v3, None, (n + 2) as u64));
            let e4 = inserted_after(e3, (n + 1) as u64);
            &&& forall|j: Seq<char>| is_oldest_live(e3, j, now) <==> j == k2
            &&& forall|j: Seq<char>| is_oldest_live(e4, j, now) <==> j == k
            &&& e4[k].0 == v3
        }),
{
    let e3 = Map::<Seq<char>, SlotView>::empty().insert(k, (v, None, n)).insert(k2, (v2, None, (n + 1) as u64))
        .insert(k, (v3, None, (n + 2) as u64));
    let e4 = inserted_after(e3, (n + 1) as u64);
    assert(e3 =~= Map::<Seq<char>, SlotView>::empty().insert(k2, (v2, None, (n + 1) as u64))
        .insert(k, (v3, None, (n + 2) as u64)));
    assert(e4 =~= Map::<Seq<char>, SlotView>::empty().insert(k, (v3, None, (n + 2) as u64)));
    assert(is_oldest_live(e3, k2, now));
    assert(is_oldest_live(e4, k, now));
    assert forall|j: Seq<char>| is_oldest_live(e3, j, now) implies j == k2 by {
        lemma_oldest_unique(e3, j, k2, now);
    }
    assert forall|j: Seq<char>| is_oldest_live(e4, j, now) implies j == k by {
        lemma_oldest_unique(e4, j, k, now);
    }
}

/// After `k` is deleted, no pop takes it, however early it was set.
pub proof fn law_deleted_never_popped(e: Map<Seq<char>, SlotView>, k: Seq<char>, now: u64)
    ensures
        forall|j: Seq<char>| is_oldest_live(e.remove(k), j, now) ==> j != k,
{
}

/// The entries after setting `ks[i]` to `vs[i]` in turn, with no
/// time-to-live, the first set numbered `n`.
pub open spec fn after_sets(e: Map<Seq<char>, SlotView>, ks: Seq<Seq<char>>, vs: Seq<Seq<u8>>, n: nat) -> Map<
    Seq<char>,
    SlotView,
>
    decreases ks.len(),
{
    if ks.len() == 0 || vs.len() == 0 {
        e
    } else {
        after_sets(e, ks.drop_last(), vs.drop_last(), n).insert(
            ks.last(),
            (vs.last(), None, (n + ks.len() - 1) as u64),
        )
    }
}

/// Sets of distinct keys, in whatever order they come, lose no write: after
/// all of them each key is live and reads back its own bytes.
pub proof fn law_distinct_sets_all_kept(
    e: Map<Seq<char>, SlotView>,
    ks: Seq<Seq<char>>,
    vs: Seq<Seq<u8>>,
    n: nat,
    now: u64,
)
    requires
        ks.len() == vs.len(),
        ks.no_duplicates(),
    ensures
        forall|i: int| 0 <= i < ks.len() ==> is_live(after_sets(e, ks, vs, n), #[trigger] ks[i], now)
            && after_sets(e, ks, vs, n)[ks[i]].0 == vs[i],
    decreases ks.len(),
{
    if ks.len() > 0 {
        let ki = ks.drop_last();
        let vi = vs.drop_last();
        law_distinct_sets_all_kept(e, ki, vi, n, now);
        let m = after_sets(e, ks, vs, n);
        assert forall|i: int| 0 <= i < ks.len() implies is_live(m, #[trigger] ks[i], now) && m[ks[i]].0 == vs[i] by {
            if i < ks.len() - 1 {
                assert(ki[i] == ks[i]);
                assert(vi[i] == vs[i]);
                assert(ks[i] != ks[ks.len() - 1]);
            }
        }
    }
}

/// Two lists in insertion order that hold the same keys are the same list.
pub proof fn lemma_same_keys_same_order(r1: Seq<String>, r2: Seq<String>, m: Map<Seq<char>, SlotView>)
    requires
        in_insertion_order(r1, m),
        in_insertion_order(r2, m),
        forall|k: Seq<char>| holds_key(r1, k) <==> holds_key(r2, k),
    ensures
        r1.len() == r2.len(),
        forall|i: int| 0 <= i < r1.len() ==> #[trigger] r1[i]@ == r2[i]@,
    decreases r1.len() + r2.len(),
{
    if r1.len() == 0 {
        if r2.len() > 0 {
            assert(holds_key(r2, r2[0]@));
        }
    } else if r2.len() == 0 {
        assert(holds_key(r1, r1[0]@));
    } else {
        let x = r1[0]@;
        let y = r2[0]@;
        assert(holds_key(r1, x));
        assert(holds_key(r2, y));
        let j = choose|j: int| 0 <= j < r2.len() && #[trigger] r2[j]@ == x;
        let i = choose|i: int| 0 <= i < r1.len() && #[trigger] r1[i]@ == y;
        if i > 0 && j > 0 {
            assert(m[r1[i]@].2 > m[r1[0]@].2);
            assert(m[r2[j]@].2 > m[r2[0]@].2);
        }
        assert(x == y);
        let t1 = r1.drop_first();
        let t2 = r2.drop_first();
        assert forall|a: int, b: int| 0 <= a < b < t1.len() implies m[#[trigger] t1[a]@].2 < m[#[trigger] t1[b]@].2 by {
            assert(t1[a] == r1[a + 1] && t1[b] == r1[b + 1]);
        }
        assert forall|a: int, b: int| 0 <= a < b < t2.len() implies m[#[trigger] t2[a]@].2 < m[#[trigger] t2[b]@].2 by {
            assert(t2[a] == r2[a + 1] && t2[b] == r2[b + 1]);
        }
        assert forall|k: Seq<char>| holds_key(t1, k) <==> holds_key(t2, k) by {
            if holds_key(t1, k) {
                let a = choose|a: int| 0 <= a < t1.len() && #[trigger] t1[a]@ == k;
                assert(r1[a + 1]@ == k);
                assert(holds_key(r1, k));
                assert(m[r1[a + 1]@].2 > m[r1[0]@].2);
                let b = choose|b: int| 0 <= b < r2.len() && #[trigger] r2[b]@ == k;
                assert(b != 0);
                assert(t2[b - 1]@ == k);
            }
            if holds_key(t2, k) {
                let b = choose|b: int| 0 <= b < t2.len() && #[trigger] t2[b]@ == k;
                assert(r2[b + 1]@ == k);
                assert(holds_key(r2, k));
                assert(m[r2[b + 1]@].2 > m[r2[0]@].2);
                let a = choose|a: int| 0 <= a < r1.len() && #[trigger] r1[a]@ == k;
                assert(a != 0);
                assert(t1[a - 1]@ == k);
            }
        }
        lemma_same_keys_same_order(t1, t2, m);
        assert forall|i: int| 0 <= i < r1.len() implies #[trigger] r1[i]@ == r2[i]@ by {
            if i > 0 {
                assert(t1[i - 1]@ == t2[i - 1]@);
            }
        }
    }
}

/// Listing the same store twice, with the same pattern and at the same time,
/// gives the same keys in the same order.
pub proof fn law_keys_deterministic(
    m: Map<Seq<char>, SlotView>,
    pattern: Seq<char>,
    now: u64,
    r1: Seq<String>,
    r2: Seq<String>,
)
    requires
        lists_keys(r1, m, pattern, now),
        in_insertion_order(r1, m),
        lists_keys(r2, m, pattern, now),
        in_insertion_order(r2, m),
    ensures
        r1.len() == r2.len(),
        forall|i: int| 0 <= i < r1.len() ==> #[trigger] r1[i]@ == r2[i]@,
{
    assert forall|k: Seq<char>| holds_key(r1, k) <==> holds_key(r2, k) by {
        assert(holds_key(r1, k) <==> key_listed(m, pattern, k, now));
        assert(holds_key(r2, k) <==> key_listed(m, pattern, k, now));
    }
    lemma_same_keys_same_order(r1, r2, m);
}

/// The UTF-8 bytes of `p` followed by `c`.
pub proof fn lemma_encode_push(p: Seq<char>, c: char)
    ensures
        encode_utf8(p.push(c)) == encode_utf8(p) + encode_scalar(c as u32),
    decreases p.len(),
{
    if p.len() == 0 {
        assert(p.push(c).drop_first() =~= Seq::<char>::empty());
        assert(p.push(c)[0] == c);
        assert(encode_utf8(Seq::<char>::empty()) =~= Seq::<u8>::empty());
        assert(encode_utf8(p) =~= Seq::<u8>::empty());
        assert(encode_utf8(p.push(c)) =~= encode_scalar(c as u32));
    } else {
        lemma_encode_push(p.drop_first(), c);
        assert(p.push(c).drop_first() =~= p.drop_first().push(c));
        assert(encode_utf8(p.push(c)) =~= encode_utf8(p) + encode_scalar(c as u32));
    }
}

/// Listing with pattern `p*` gives exactly the live keys whose text begins
/// with `p` (compared as UTF-8 bytes).
pub proof fn law_keys_prefix(e: Map<Seq<char>, SlotView>, p: Seq<char>, listed: Seq<String>, now: u64)
    requires
        lists_keys(listed, e, p.push('*'), now),
    ensures
        forall|k: Seq<char>| holds_key(listed, k) <==> (is_live(e, k, now)
            && encode_utf8(p).len() <= encode_utf8(k).len()
            && encode_utf8(k).subrange(0, encode_utf8(p).len() as int) == encode_utf8(p)),
{
    lemma_encode_push(p, '*');
    assert(42u32 & 0x7Fu32 == 42u32) by (bit_vector);
    assert(encode_scalar('*' as u32) =~= seq![42u8]);
    let pb = encode_utf8(p.push('*'));
    assert(pb.last() == 42u8);
    assert(pb.drop_last() =~= encode_utf8(p));
    assert forall|k: Seq<char>| holds_key(listed, k) <==> (is_live(e, k, now)
        && encode_utf8(p).len() <= encode_utf8(k).len()
        && encode_utf8(k).subrange(0, encode_utf8(p).len() as int) == encode_utf8(p)) by {
        assert(key_listed(e, p.push('*'), k, now) <==> holds_key(listed, k));
    }
}

/// Listing with pattern `*` gives exactly the live keys.
pub proof fn law_keys_all(e: Map<Seq<char>, SlotView>, listed: Seq<String>, now: u64)
    requires
        lists_keys(listed, e, "*"@, now),
    ensures
        forall|k: Seq<char>| holds_key(listed, k) <==> is_live(e, k, now),
{
    reveal_strlit("*");
    assert("*"@ =~= Seq::<char>::empty().push('*'));
    law_keys_prefix(e, Seq::<char>::empty(), listed, now);
    assert(encode_utf8(Seq::<char>::empty()) =~= Seq::<u8>::empty());
    assert forall|k: Seq<char>| is_live(e, k, now) implies
        encode_utf8(k).subrange(0, 0) == encode_utf8(Seq::<char>::empty()) by {
        assert(encode_utf8(k).subrange(0, 0) =~= Seq::<u8>::empty());
    }
}

/// Listing with a pattern whose text does not end in `*` gives the pattern
/// itself if it is a live key, and nothing else.
pub proof fn law_keys_exact(e: Map<Seq<char>, SlotView>, p: Seq<char>, listed: Seq<String>, now: u64)
    requires
        !(encode_utf8(p).len() > 0 && encode_utf8(p).last() == 42u8),
        lists_keys(listed, e, p, now),
    ensures
        forall|k: Seq<char>| holds_key(listed, k) <==> (k == p
            && is_live(e, k, now)),
{
    assert forall|k: Seq<char>| holds_key(listed, k) <==> (k == p
        && is_live(e, k, now)) by {
        assert(key_listed(e, p, k, now) <==> holds_key(listed, k));
        assert(pattern_matches(encode_utf8(p), encode_utf8(k)) <==> encode_utf8(k) == encode_utf8(p));
        if encode_utf8(k) == encode_utf8(p) {
            encode_utf8_decode_utf8(k);
            encode_utf8_decode_utf8(p);
            assert(k == p);
        }
        assert(key_listed(e, p, k, now) <==> (k == p && is_live(e, k, now)));
    }
}

} // verus!
