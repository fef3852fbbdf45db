use crate::model::{
    has_key, key_index, keys_distinct, lemma_key_index, lemma_stored_well_formed, lookup, promoted,
    stored, Entries,
};
use vstd::prelude::*;

verus! {

/// The entries after storing each `(key, bytes)` pair of `ops` in turn,
/// starting from `s`, with room for `cap` keys.
pub open spec fn after_sets(s: Entries, cap: nat, ops: Entries) -> Entries
    decreases ops.len(),
{
    if ops.len() == 0 {
        s
    } else {
        stored(after_sets(s, cap, ops.drop_last()), cap, ops.last().0, ops.last().1)
    }
}

/// However many values are stored, and under whichever keys, the cache never
/// holds more keys than its capacity, and no key twice.
pub proof fn lemma_capacity_invariant(s: Entries, cap: nat, ops: Entries)
    requires
        keys_distinct(s),
        s.len() <= cap,
    ensures
        keys_distinct(after_sets(s, cap, ops)),
        after_sets(s, cap, ops).len() <= cap,
    decreases ops.len(),
{
    if ops.len() > 0 {
        lemma_capacity_invariant(s, cap, ops.drop_last());
        lemma_stored_well_formed(after_sets(s, cap, ops.drop_last()), cap, ops.last().0, ops.last().1);
    }
}

/// A key that is stored with room to spare is found with exactly the bytes
/// just stored, as the most recently used entry.
pub proof fn lemma_stored_then_found(s: Entries, cap: nat, k: Seq<char>, b: Seq<u8>)
    requires
        keys_distinct(s),
        s.len() <= cap,
        cap >= 1,
    ensures
        stored(s, cap, k, b).last() == (k, b),
        lookup(stored(s, cap, k, b), k) == Some(b),
{
    let t = stored(s, cap, k, b);
    lemma_stored_well_formed(s, cap, k, b);
    lemma_key_index(t, t.len() - 1, k);
}

/// Storing under `k` adds no key but `k`.
proof fn lemma_stored_keys(s: Entries, cap: nat, k: Seq<char>, b: Seq<u8>, other: Seq<char>)
    requires
        other != k,
        !has_key(s, other),
    ensures
        !has_key(stored(s, cap, k, b), other),
{
    let t = stored(s, cap, k, b);
    if has_key(s, k) {
        let i = key_index(s, k);
        assert forall|a: int| 0 <= a < t.len() implies t[a].0 != other by {
            if a < t.len() - 1 {
                let j = if a < i { a } else { a + 1 };
                assert(t[a] == s[j]);
            }
        }
    } else if cap > 0 && s.len() >= cap {
        assert forall|a: int| 0 <= a < t.len() implies t[a].0 != other by {
            if a < t.len() - 1 {
                assert(t[a] == s[a + 1]);
            }
        }
    } else {
        assert forall|a: int| 0 <= a < t.len() implies t[a].0 != other by {
            if a < s.len() {
                assert(t[a] == s[a]);
            }
        }
    }
}

/// Storing values with distinct keys into an empty cache, no more of them
/// than its capacity, keeps every one of them, in the order stored.
proof fn lemma_fill(cap: nat, ops: Entries, m: int)
    requires
        keys_distinct(ops),
        0 <= m <= ops.len(),
        m <= cap,
    ensures
        after_sets(Seq::empty(), cap, ops.take(m)) == ops.take(m),
    decreases m,
{
    if m > 0 {
        let prev = ops.take(m - 1);
        assert(ops.take(m).drop_last() =~= prev);
        lemma_fill(cap, ops, m - 1);
        let k = ops[m - 1].0;
        assert forall|j: int| 0 <= j < prev.len() implies prev[j].0 != k by {
            assert(prev[j] == ops[j]);
        }
        assert(!has_key(prev, k));
        assert(prev.push(ops[m - 1]) =~= ops.take(m));
    }
}

/// With room for `cap` keys and `cap + 1` values stored under distinct keys,
/// with no read between them, the first key stays through the first `cap`
/// stores and is evicted by the last one, which leaves exactly the later
/// keys.
pub proof fn lemma_eviction_order(cap: nat, ops: Entries)
    requires
        cap >= 1,
        ops.len() == cap + 1,
        keys_distinct(ops),
    ensures
        forall|m: int|
            1 <= m <= cap ==> #[trigger] has_key(
                after_sets(Seq::empty(), cap, ops.take(m)),
                ops[0].0,
            ),
        !has_key(after_sets(Seq::empty(), cap, ops), ops[0].0),
        after_sets(Seq::empty(), cap, ops) == ops.drop_first(),
{
    assert forall|m: int| 1 <= m <= cap implies #[trigger] has_key(
        after_sets(Seq::empty(), cap, ops.take(m)),
        ops[0].0,
    ) by {
        lemma_fill(cap, ops, m);
        assert(ops.take(m)[0] == ops[0]);
    }
    let full = ops.take(cap as int);
    lemma_fill(cap, ops, cap as int);
    assert(ops.drop_last() =~= full);
    let k = ops[cap as int].0;
    assert forall|j: int| 0 <= j < full.len() implies full[j].0 != k by {
        assert(full[j] == ops[j]);
    }
    assert(!has_key(full, k));
    assert(full.drop_first().push(ops[cap as int]) =~= ops.drop_first());
    assert forall|j: int| 0 <= j < ops.drop_first().len() implies ops.drop_first()[j].0
        != ops[0].0 by {
        assert(ops.drop_first()[j] == ops[j + 1]);
    }
}

/// With room for two keys: after storing under `k1` and then `k2`, a read of
/// `k1` followed by storing under a third key `k3` evicts `k2`, not `k1`.
pub proof fn lemma_read_promotes(
    k1: Seq<char>,
    k2: Seq<char>,
    k3: Seq<char>,
    v1: Seq<u8>,
    v2: Seq<u8>,
    v3: Seq<u8>,
)
    requires
        k1 != k2,
        k1 != k3,
        k2 != k3,
    ensures
        ({
            let s = stored(
                promoted(stored(stored(Seq::empty(), 2, k1, v1), 2, k2, v2), k1),
                2,
                k3,
                v3,
            );
            &&& lookup(s, k1) == Some(v1)
            &&& !has_key(s, k2)
            &&& lookup(s, k3) == Some(v3)
        }),
{
    let s0 = Seq::<(Seq<char>, Seq<u8>)>::empty();
    let s1 = stored(s0, 2, k1, v1);
    assert(s1 =~= seq![(k1, v1)]);
    assert(!has_key(s1, k2));
    let s2 = stored(s1, 2, k2, v2);
    assert(s2 =~= seq![(k1, v1), (k2, v2)]);
    lemma_key_index(s2, 0, k1);
    let s3 = promoted(s2, k1);
    assert(s3 =~= seq![(k2, v2), (k1, v1)]);
    assert(!has_key(s3, k3));
    let s4 = stored(s3, 2, k3, v3);
    assert(s4 =~= seq![(k1, v1), (k3, v3)]);
    lemma_key_index(s4, 0, k1);
    lemma_key_index(s4, 1, k3);
}

/// Storing twice under one key keeps the number of keys that the first store
/// left, and the key then holds the second value.
pub proof fn lemma_update_in_place(
    s: Entries,
    cap: nat,
    k: Seq<char>,
    b1: Seq<u8>,
    b2: Seq<u8>,
)
    requires
        keys_distinct(s),
        s.len() <= cap,
        cap >= 1,
    ensures
        stored(stored(s, cap, k, b1), cap, k, b2).len() == stored(s, cap, k, b1).len(),
        lookup(stored(stored(s, cap, k, b1), cap, k, b2), k) == Some(b2),
{
    let s1 = stored(s, cap, k, b1);
    lemma_stored_then_found(s, cap, k, b1);
    lemma_stored_well_formed(s, cap, k, b1);
    lemma_stored_then_found(s1, cap, k, b2);
}

/// A key under which nothing was ever stored is absent.
pub proof fn lemma_never_stored_absent(cap: nat, ops: Entries, k: Seq<char>)
    requires
        forall|i: int| 0 <= i < ops.len() ==> ops[i].0 != k,
    ensures
        lookup(after_sets(Seq::empty(), cap, ops), k) is None,
    decreases ops.len(),
{
    if ops.len() > 0 {
        let prev = ops.drop_last();
        assert forall|i: int| 0 <= i < prev.len() implies prev[i].0 != k by {
            assert(prev[i] == ops[i]);
        }
        lemma_never_stored_absent(cap, prev, k);
        lemma_stored_keys(after_sets(Seq::empty(), cap, prev), cap, ops.last().0, ops.last().1, k);
    }
}

} // verus!
