use vstd::prelude::*;

verus! {

/// The cache's contents as a mathematical value: `(key, bytes)` pairs
/// ordered from least recently used to most recently used.
pub type Entries = Seq<(Seq<char>, Seq<u8>)>;

/// No key occurs twice.
pub open spec fn keys_distinct(s: Entries) -> bool {
    forall|i: int, j: int| 0 <= i < s.len() && 0 <= j < s.len() && i != j ==> s[i].0 != s[j].0
}

/// Some entry has key `k`.
pub open spec fn has_key(s: Entries, k: Seq<char>) -> bool {
    exists|i: int| 0 <= i < s.len() && s[i].0 == k
}

/// The position of an entry with key `k` (meaningful where `has_key(s, k)`).
pub open spec fn key_index(s: Entries, k: Seq<char>) -> int {
    choose|i: int| 0 <= i < s.len() && s[i].0 == k
}

/// The bytes stored under `k`, if any.
pub open spec fn lookup(s: Entries, k: Seq<char>) -> Option<Seq<u8>> {
    if has_key(s, k) {
        Some(s[key_index(s, k)].1)
    } else {
        None
    }
}

/// `s` after a read of `k`: the entry of `k`, if there is one, becomes the
/// most recently used.
pub open spec fn promoted(s: Entries, k: Seq<char>) -> Entries {
    if has_key(s, k) {
        let i = key_index(s, k);
        s.remove(i).push(s[i])
    } else {
        s
    }
}

/// `s` after storing `b` under `k` with room for `cap` keys. A present key
/// gets the new bytes and becomes the most recently used. A new key is
/// appended as the most recently used, after the least recently used entry
/// is evicted if the cache is full. A cache with no room keeps nothing.
pub open spec fn stored(s: Entries, cap: nat, k: Seq<char>, b: Seq<u8>) -> Entries {
    if has_key(s, k) {
        s.remove(key_index(s, k)).push((k, b))
    } else if cap == 0 {
        s
    } else if s.len() >= cap {
        s.drop_first().push((k, b))
    } else {
        s.push((k, b))
    }
}

/// In a sequence with distinct keys, the entry with key `k` is the one at `i`.
pub proof fn lemma_key_index(s: Entries, i: int, k: Seq<char>)
    requires
        keys_distinct(s),
        0 <= i < s.len(),
        s[i].0 == k,
    ensures
        has_key(s, k),
        key_index(s, k) == i,
        lookup(s, k) == Some(s[i].1),
{
    assert(has_key(s, k));
}

/// Removing the entry at `i` and appending one whose key was at `i` keeps
/// keys distinct.
proof fn lemma_move_to_back_distinct(s: Entries, i: int, e: (Seq<char>, Seq<u8>))
    requires
        keys_distinct(s),
        0 <= i < s.len(),
        e.0 == s[i].0,
    ensures
        keys_distinct(s.remove(i).push(e)),
{
    let t = s.remove(i).push(e);
    assert forall|a: int, b: int| 0 <= a < t.len() && 0 <= b < t.len() && a != b implies t[a].0
        != t[b].0 by {
        let ia = if a == t.len() - 1 { i } else if a < i { a } else { a + 1 };
        let ib = if b == t.len() - 1 { i } else if b < i { b } else { b + 1 };
        assert(t[a].0 == s[ia].0);
        assert(t[b].0 == s[ib].0);
    }
}

/// Appending an entry with a fresh key to a sequence with distinct keys, after
/// dropping its first entry or not, keeps keys distinct.
proof fn lemma_append_fresh_distinct(s: Entries, e: (Seq<char>, Seq<u8>))
    requires
        keys_distinct(s),
        !has_key(s, e.0),
    ensures
        keys_distinct(s.push(e)),
        s.len() > 0 ==> keys_distinct(s.drop_first().push(e)),
{
    let t = s.push(e);
    assert forall|a: int, b: int| 0 <= a < t.len() && 0 <= b < t.len() && a != b implies t[a].0
        != t[b].0 by {
        if a == s.len() {
            assert(t[b] == s[b]);
        } else if b == s.len() {
            assert(t[a] == s[a]);
        }
    }
    if s.len() > 0 {
        let u = s.drop_first().push(e);
        assert forall|a: int, b: int| 0 <= a < u.len() && 0 <= b < u.len() && a != b implies u[a].0
            != u[b].0 by {
            assert(u[a] == t[a + 1]);
            assert(u[b] == t[b + 1]);
        }
    }
}

/// Storing keeps keys distinct and the count within the capacity.
pub proof fn lemma_stored_well_formed(s: Entries, cap: nat, k: Seq<char>, b: Seq<u8>)
    requires
        keys_distinct(s),
        s.len() <= cap,
    ensures
        keys_distinct(stored(s, cap, k, b)),
        stored(s, cap, k, b).len() <= cap,
{
    if has_key(s, k) {
        lemma_move_to_back_distinct(s, key_index(s, k), (k, b));
    } else if cap > 0 {
        lemma_append_fresh_distinct(s, (k, b));
    }
}

/// A read keeps the entries, their keys distinct, and their count.
pub proof fn lemma_promoted_well_formed(s: Entries, k: Seq<char>)
    requires
        keys_distinct(s),
    ensures
        keys_distinct(promoted(s, k)),
        promoted(s, k).len() == s.len(),
{
    if has_key(s, k) {
        let i = key_index(s, k);
        lemma_move_to_back_distinct(s, i, s[i]);
    }
}

} // verus!
