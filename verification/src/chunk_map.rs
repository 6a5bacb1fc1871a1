use vstd::prelude::*;

use crate::merge::{can_merge, chunk_merged, chunk_tree_ok, merge_shape, node_in};
use crate::octree::Chunk;
use crate::vecmath::V3i;

verus! {

/// No key occurs twice among the entries.
pub open spec fn keys_distinct(s: Seq<(V3i, Chunk)>) -> bool {
    forall|i: int, j: int| 0 <= i < j < s.len() ==> #[trigger] s[i].0 != #[trigger] s[j].0
}

/// Whether some entry has the key.
pub open spec fn has_key(s: Seq<(V3i, Chunk)>, key: V3i) -> bool {
    exists|i: int| 0 <= i < s.len() && #[trigger] s[i].0 == key
}

/// The chunk that the entries store under the key: that of the last entry
/// with the key, if there is one.
pub open spec fn lookup(s: Seq<(V3i, Chunk)>, key: V3i) -> Option<Chunk>
    decreases s.len(),
{
    if s.len() == 0 {
        None
    } else if s.last().0 == key {
        Some(s.last().1)
    } else {
        lookup(s.drop_last(), key)
    }
}

/// A key is found exactly where some entry has it, and then with the chunk
/// of such an entry.
pub proof fn lemma_lookup_has_key(s: Seq<(V3i, Chunk)>, key: V3i)
    ensures
        lookup(s, key) is Some <==> has_key(s, key),
        lookup(s, key) matches Some(c) ==> exists|i: int|
            0 <= i < s.len() && #[trigger] s[i].0 == key && s[i].1 == c,
    decreases s.len(),
{
    if s.len() > 0 {
        lemma_lookup_has_key(s.drop_last(), key);
        if s.last().0 != key {
            if has_key(s, key) {
                let i = choose|i: int| 0 <= i < s.len() && #[trigger] s[i].0 == key;
                assert(s.drop_last()[i].0 == key);
            }
            if has_key(s.drop_last(), key) {
                let i = choose|i: int| 0 <= i < s.drop_last().len() && #[trigger] s.drop_last()[i].0 == key;
                assert(s[i].0 == key);
            }
            if lookup(s, key) is Some {
                let i = choose|i: int| 0 <= i < s.drop_last().len() && #[trigger] s.drop_last()[i].0 == key && s.drop_last()[i].1 == lookup(s, key)->0;
                assert(s[i].0 == key);
            }
        } else {
            assert(s[s.len() - 1].0 == key);
        }
    }
}

/// In entries whose keys are distinct, the entry with a key is the one that
/// is found.
proof fn lemma_lookup_at(s: Seq<(V3i, Chunk)>, i: int)
    requires
        keys_distinct(s),
        0 <= i < s.len(),
    ensures
        lookup(s, s[i].0) == Some(s[i].1),
    decreases s.len(),
{
    if i < s.len() - 1 {
        assert(s.drop_last()[i] == s[i]);
        assert(s[i].0 != s[s.len() - 1].0);
        lemma_lookup_at(s.drop_last(), i);
    }
}

/// Replacing the chunk of the entry with a key changes what is found under
/// that key, and nothing else.
proof fn lemma_lookup_update(s: Seq<(V3i, Chunk)>, i: int, c: Chunk, key: V3i)
    requires
        keys_distinct(s),
        0 <= i < s.len(),
    ensures
        lookup(s.update(i, (s[i].0, c)), key) == if key == s[i].0 {
            Some(c)
        } else {
            lookup(s, key)
        },
    decreases s.len(),
{
    let t = s.update(i, (s[i].0, c));
    if i == s.len() - 1 {
        assert(t.drop_last() =~= s.drop_last());
        if key != s[i].0 {
        } else {
        }
    } else {
        assert(t.drop_last() =~= s.drop_last().update(i, (s[i].0, c)));
        assert(t.last() == s.last());
        lemma_lookup_update(s.drop_last(), i, c, key);
        if key == s[i].0 {
            assert(s[i].0 != s[s.len() - 1].0);
        }
    }
}

/// The chunks of a world, keyed by chunk position, each key at most once;
/// the entries keep the order in which their keys were first inserted.
pub struct ChunkMap {
    entries: Vec<(V3i, Chunk)>,
}

impl View for ChunkMap {
    type V = Seq<(V3i, Chunk)>;

    closed spec fn view(&self) -> Seq<(V3i, Chunk)> {
        self.entries@
    }
}

impl ChunkMap {
    #[verifier::type_invariant]
    closed spec fn inv(self) -> bool {
        keys_distinct(self.entries@)
    }

    /// An empty map.
    pub fn new() -> (m: ChunkMap)
        ensures
            m@ == Seq::<(V3i, Chunk)>::empty(),
    {
        ChunkMap { entries: Vec::new() }
    }

    /// The number of chunks.
    pub fn len(&self) -> (n: usize)
        ensures
            n == self@.len(),
    {
        self.entries.len()
    }

    /// Whether the map holds no chunk.
    pub fn is_empty(&self) -> (b: bool)
        ensures
            b == (self@.len() == 0),
    {
        self.entries.len() == 0
    }

    /// The position of the entry with the key, if any.
    fn find(&self, key: &V3i) -> (r: Option<usize>)
        ensures
            match r {
                Some(i) => i < self@.len() && self@[i as int].0 == *key,
                None => !has_key(self@, *key),
            },
    {
        let mut i: usize = 0;
        while i < self.entries.len()
            invariant
                i <= self.entries@.len(),
                forall|j: int| 0 <= j < i ==> self.entries@[j].0 != *key,
            decreases self.entries@.len() - i,
        {
            if self.entries[i].0 == *key {
                return Some(i);
            }
            i = i + 1;
        }
        None
    }

    /// The chunk stored under the key.
    pub fn get(&self, key: &V3i) -> (r: Option<&Chunk>)
        ensures
            match r {
                Some(c) => lookup(self@, *key) == Some(*c),
                None => lookup(self@, *key) is None,
            },
    {
        proof {
            use_type_invariant(self);
            lemma_lookup_has_key(self@, *key);
        }
        match self.find(key) {
            Some(i) => {
                proof {
                    lemma_lookup_at(self@, i as int);
                }
                Some(&self.entries[i].1)
            },
            None => None,
        }
    }

    /// Whether a chunk is stored under the key.
    pub fn contains_key(&self, key: &V3i) -> (b: bool)
        ensures
            b == has_key(self@, *key),
            b == lookup(self@, *key) is Some,
    {
        proof {
            lemma_lookup_has_key(self@, *key);
        }
        self.find(key).is_some()
    }

    /// Stores the chunk under the key; an entry with that key keeps its place
    /// and gets the new chunk, whose predecessor is returned.
    pub fn insert(&mut self, key: V3i, chunk: Chunk) -> (r: Option<Chunk>)
        ensures
            match r {
                Some(prev) => exists|i: int|
                    0 <= i < old(self)@.len() && #[trigger] old(self)@[i].0 == key && old(self)@[i].1
                        == prev && final(self)@ == old(self)@.update(i, (key, chunk)),
                None => !has_key(old(self)@, key) && final(self)@ == old(self)@.push((key, chunk)),
            },
            r == lookup(old(self)@, key),
            forall|k: V3i|
                #[trigger] lookup(final(self)@, k) == if k == key {
                    Some(chunk)
                } else {
                    lookup(old(self)@, k)
                },
    {
        proof {
            use_type_invariant(&*self);
            lemma_lookup_has_key(old(self)@, key);
        }
        match self.find(&key) {
            Some(i) => {
                let mut entries = Vec::new();
                std::mem::swap(&mut entries, &mut self.entries);
                let (_, prev) = entries.remove(i);
                entries.insert(i, (key, chunk));
                assert(entries@ =~= old(self)@.update(i as int, (key, chunk)));
                proof {
                    lemma_lookup_at(old(self)@, i as int);
                    assert forall|k: V3i|
                        #[trigger] lookup(entries@, k) == if k == key {
                            Some(chunk)
                        } else {
                            lookup(old(self)@, k)
                        } by {
                        lemma_lookup_update(old(self)@, i as int, chunk, k);
                    }
                }
                self.entries = entries;
                Some(prev)
            },
            None => {
                let mut entries = Vec::new();
                std::mem::swap(&mut entries, &mut self.entries);
                entries.push((key, chunk));
                assert(entries@.drop_last() =~= old(self)@);
                self.entries = entries;
                None
            },
        }
    }

    /// Stores `chunk` under `key` where no chunk is stored there; otherwise
    /// merges `chunk` into the stored one (see `Chunk::add_chunk`). Returns
    /// whether the stored chunk could not take the merge, and then keeps it
    /// as it was.
    pub fn add_or_merge(&mut self, key: V3i, chunk: Chunk) -> (refused: bool)
        ensures
            forall|k: V3i| k != key ==> #[trigger] lookup(final(self)@, k) == lookup(old(self)@, k),
            match lookup(old(self)@, key) {
                None => !refused && final(self)@ == old(self)@.push((key, chunk)),
                Some(c) => {
                    &&& refused == !can_merge(c.data@, chunk.data@)
                    &&& chunk_tree_ok(c.data@) && chunk.data@.len() >= 1 && node_in(
                        chunk.data@,
                        chunk.data@[0],
                        0,
                        0,
                    ) && merge_shape(c.data@, c.data@[0], false, chunk.data@, chunk.data@[0], 0, c.data@.len()).2
                        <= 0xFFFF ==> !refused
                    &&& final(self)@.len() == old(self)@.len()
                    &&& lookup(final(self)@, key) matches Some(m) && (refused ==> m == c) && (
                    !refused ==> chunk_merged(c, chunk, m))
                },
            },
    {
        proof {
            use_type_invariant(&*self);
            lemma_lookup_has_key(old(self)@, key);
        }
        match self.find(&key) {
            Some(i) => {
                proof {
                    lemma_lookup_at(old(self)@, i as int);
                }
                let mut entries = Vec::new();
                std::mem::swap(&mut entries, &mut self.entries);
                let (k, mut stored) = entries.remove(i);
                let ghost before = stored;
                let merged = stored.add_chunk(&chunk);
                entries.insert(i, (k, stored));
                proof {
                    assert(entries@ =~= old(self)@.update(i as int, (key, stored)));
                    assert forall|q: V3i|
                        #[trigger] lookup(entries@, q) == if q == key {
                            Some(stored)
                        } else {
                            lookup(old(self)@, q)
                        } by {
                        lemma_lookup_update(old(self)@, i as int, stored, q);
                    }
                }
                self.entries = entries;
                !merged
            },
            None => {
                let mut entries = Vec::new();
                std::mem::swap(&mut entries, &mut self.entries);
                entries.push((key, chunk));
                assert(entries@.drop_last() =~= old(self)@);
                self.entries = entries;
                false
            },
        }
    }

    /// The entries, in insertion order, handed over.
    pub fn into_entries(self) -> (s: Vec<(V3i, Chunk)>)
        ensures
            s@ == self@,
            keys_distinct(s@),
    {
        proof {
            use_type_invariant(&self);
        }
        self.entries
    }

    /// Removes every chunk.
    pub fn clear(&mut self)
        ensures
            final(self)@ == Seq::<(V3i, Chunk)>::empty(),
    {
        self.entries = Vec::new();
    }

    /// The entries, in insertion order.
    pub fn entries(&self) -> (s: &[(V3i, Chunk)])
        ensures
            s@ == self@,
            keys_distinct(s@),
    {
        proof {
            use_type_invariant(self);
        }
        self.entries.as_slice()
    }
}

} // verus!
