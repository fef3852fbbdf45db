use crate::codec::{copy_range, TryFromBytes, TryIntoBytes};
use crate::error::CacheError;
use crate::model::{
    has_key, keys_distinct, lemma_key_index, lemma_promoted_well_formed, lemma_stored_well_formed,
    lookup, promoted, stored, Entries,
};
use vstd::prelude::*;

verus! {

/// One stored value and the key it lives under.
struct Entry {
    key: String,
    bytes: Vec<u8>,
}

/// A cache of at most `capacity` keys that evicts the least recently used
/// key to make room for a new one.
///
/// Entries are kept in one vector ordered from least recently used to most
/// recently used, which serves both as the store and as the recency order;
/// finding a key scans it.
/// A cache built with capacity zero keeps nothing.
pub struct LruCache {
    capacity: usize,
    entries: Vec<Entry>,
}

impl View for LruCache {
    type V = Entries;

    closed spec fn view(&self) -> Entries {
        self.entries@.map_values(|e: Entry| (e.key@, e.bytes@))
    }
}

impl LruCache {
    /// The number of keys the cache can hold.
    pub closed spec fn spec_capacity(&self) -> nat {
        self.capacity as nat
    }

    /// Keys are distinct and never more than the capacity.
    pub open spec fn wf(&self) -> bool {
        &&& keys_distinct(self@)
        &&& self@.len() <= self.spec_capacity()
    }

    /// An empty cache with room for `max_size` keys.
    pub fn new(max_size: usize) -> (r: LruCache)
        ensures
            r.wf(),
            r@ == Seq::<(Seq<char>, Seq<u8>)>::empty(),
            r.spec_capacity() == max_size,
    {
        let r = LruCache { capacity: max_size, entries: Vec::new() };
        assert(r@ =~= Seq::<(Seq<char>, Seq<u8>)>::empty());
        r
    }

    /// The position of the entry with key `key`, if there is one.
    fn find(&self, key: &String) -> (r: Option<usize>)
        requires
            self.wf(),
        ensures
            r is None <==> !has_key(self@, key@),
            r matches Some(i) ==> i < self@.len() && self@[i as int].0 == key@,
    {
        let mut i: usize = 0;
        while i < self.entries.len()
            invariant
                i <= self.entries@.len(),
                self@.len() == self.entries@.len(),
                forall|j: int| 0 <= j < i ==> self@[j].0 != key@,
            decreases self.entries@.len() - i,
        {
            if self.entries[i].key == *key {
                assert(self@[i as int].0 == key@);
                return Some(i);
            }
            i = i + 1;
        }
        None
    }

    /// Makes the entry at position `i` the most recently used.
    fn refresh(&mut self, i: usize)
        requires
            old(self).wf(),
            i < old(self)@.len(),
        ensures
            final(self).wf(),
            final(self).spec_capacity() == old(self).spec_capacity(),
            final(self)@ == promoted(old(self)@, old(self)@[i as int].0),
    {
        proof {
            lemma_key_index(self@, i as int, self@[i as int].0);
            lemma_promoted_well_formed(self@, self@[i as int].0);
        }
        let e = self.entries.remove(i);
        self.entries.push(e);
        assert(self@ =~= old(self)@.remove(i as int).push(old(self)@[i as int]));
    }

    /// The number of keys held.
    pub fn len(&self) -> (r: usize)
        ensures
            r == self@.len(),
    {
        self.entries.len()
    }

    /// The number of keys the cache can hold.
    pub fn capacity(&self) -> (r: usize)
        ensures
            r == self.spec_capacity(),
    {
        self.capacity
    }

    /// The value stored under `key`, decoded as a `V`.
    ///
    /// An absent key gives `Ok(None)`. Stored bytes that are no `V` give the
    /// decoding error and leave the cache as it was. A successful read makes
    /// the key the most recently used.
    pub fn get<V: TryFromBytes>(&mut self, key: &str) -> (r: Result<Option<V>, CacheError>)
        requires
            old(self).wf(),
        ensures
            final(self).wf(),
            final(self).spec_capacity() == old(self).spec_capacity(),
            match lookup(old(self)@, key@) {
                None => r matches Ok(None) && final(self)@ == old(self)@,
                Some(b) => match V::decoding(b) {
                    Some(v) => r matches Ok(Some(x)) && x@ == v && final(self)@ == promoted(
                        old(self)@,
                        key@,
                    ),
                    None => r is Err && final(self)@ == old(self)@,
                },
            },
    {
        let k = key.to_owned();
        match self.find(&k) {
            None => Ok(None),
            Some(i) => {
                proof {
                    lemma_key_index(self@, i as int, key@);
                }
                let stored_bytes = &self.entries[i].bytes;
                let bytes = copy_range(stored_bytes, 0, stored_bytes.len());
                assert(bytes@ =~= self@[i as int].1);
                match V::try_from_bytes(bytes) {
                    Ok(v) => {
                        self.refresh(i);
                        Ok(Some(v))
                    },
                    Err(e) => Err(e),
                }
            },
        }
    }

    /// Stores `value` under `key`, evicting the least recently used key if a
    /// new key finds the cache full. The key becomes the most recently used.
    /// If `value` cannot be encoded, the error is returned and the cache is
    /// left as it was.
    pub fn set<V: TryIntoBytes>(&mut self, key: &str, value: &V) -> (r: Result<(), CacheError>)
        requires
            old(self).wf(),
        ensures
            final(self).wf(),
            final(self).spec_capacity() == old(self).spec_capacity(),
            match V::encoding(value@) {
                None => r is Err && final(self)@ == old(self)@,
                Some(b) => r is Ok && final(self)@ == stored(
                    old(self)@,
                    old(self).spec_capacity(),
                    key@,
                    b,
                ),
            },
    {
        let bytes = match value.try_into_bytes() {
            Ok(b) => b,
            Err(e) => return Err(e),
        };
        let k = key.to_owned();
        proof {
            lemma_stored_well_formed(self@, self.spec_capacity(), key@, bytes@);
        }
        match self.find(&k) {
            Some(i) => {
                proof {
                    lemma_key_index(self@, i as int, key@);
                }
                let mut e = self.entries.remove(i);
                e.bytes = bytes;
                self.entries.push(e);
                assert(self@ =~= old(self)@.remove(i as int).push((key@, bytes@)));
            },
            None => {
                if self.capacity == 0 {
                    return Ok(());
                }
                if self.entries.len() >= self.capacity {
                    self.entries.remove(0);
                    assert(self@ =~= old(self)@.drop_first());
                }
                self.entries.push(Entry { key: k, bytes });
                assert(self@ =~= stored(old(self)@, old(self).spec_capacity(), key@, bytes@));
            },
        }
        Ok(())
    }
}

} // verus!
