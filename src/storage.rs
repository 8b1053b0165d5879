use crate::chunk::ChunkStorage;
use crate::query::Query;
use crate::record::{key_of, Id, Key, Record};
use vstd::prelude::*;

verus! {

/// Chunked, indexed storage.
///
/// Every record belongs to the chunk named by its chunk key, and is unique
/// within that chunk by its item key. Chunks emptied by a removal are queued
/// and compacted away before the next operation that needs it.
///
/// Each change moves the storage's generation on and stamps the chunk
/// positions it touched with it, so that derived indices can tell which
/// chunks to look at again.
pub struct Storage<C: Key, I: Key, E: Record<C, I>> {
    id: u64,
    generation: u64,
    chunks: Vec<ChunkStorage<C, I, E>>,
    dirty: Vec<usize>,
    index: Ghost<Map<C::V, nat>>,
}

/// The chunk keys that occur among the keys of a map of records.
pub open spec fn chunk_keys_of<CV, IV, E>(m: Map<(CV, IV), E>) -> Set<CV> {
    Set::new(|c: CV| exists|ik: IV| m.contains_key((c, ik)))
}

/// `s` names each record of `m` whose key is in `sel` exactly once, and nothing else.
pub open spec fn listing<C: Key, I: Key, E: Record<C, I>>(
    s: Seq<E>,
    m: Map<(C::V, I::V), E>,
    sel: Set<(C::V, I::V)>,
) -> bool {
    &&& forall|j: int|
        0 <= j < s.len() ==> m.contains_key(key_of(#[trigger] s[j])) && m[key_of(s[j])] == s[j]
            && sel.contains(key_of(s[j]))
    &&& forall|j1: int, j2: int|
        0 <= j1 < s.len() && 0 <= j2 < s.len() && j1 != j2 ==> key_of(#[trigger] s[j1]) != key_of(
            #[trigger] s[j2],
        )
    &&& forall|k: (C::V, I::V)|
        m.contains_key(k) && #[trigger] sel.contains(k) ==> exists|j: int|
            0 <= j < s.len() && key_of(s[j]) == k
}

/// The keys of a map of records that lie in the given chunk.
pub open spec fn keys_in_chunk<CV, IV, E>(m: Map<(CV, IV), E>, c: CV) -> Set<(CV, IV)> {
    Set::new(|k: (CV, IV)| m.contains_key(k) && k.0 == c)
}

/// The map of records without those of the given chunk.
pub open spec fn without_chunk<CV, IV, E>(m: Map<(CV, IV), E>, c: CV) -> Map<(CV, IV), E> {
    m.restrict(Set::new(|k: (CV, IV)| k.0 != c))
}

/// A map of records after inserting a sequence of records in order, each
/// replacing any record with its keys.
pub open spec fn with_records<C: Key, I: Key, E: Record<C, I>>(
    m: Map<(C::V, I::V), E>,
    s: Seq<E>,
) -> Map<(C::V, I::V), E>
    decreases s.len(),
{
    if s.len() == 0 {
        m
    } else {
        with_records(m, s.drop_last()).insert(key_of(s.last()), s.last())
    }
}

/// A map of records after inserting groups of records in order.
pub open spec fn with_groups<C: Key, I: Key, E: Record<C, I>>(
    m: Map<(C::V, I::V), E>,
    ss: Seq<Seq<E>>,
) -> Map<(C::V, I::V), E>
    decreases ss.len(),
{
    if ss.len() == 0 {
        m
    } else {
        with_records(with_groups(m, ss.drop_last()), ss.last())
    }
}

/// The contents of each vector.
pub open spec fn views<E>(s: Seq<Vec<E>>) -> Seq<Seq<E>> {
    s.map_values(|v: Vec<E>| v@)
}

/// Inserting records with distinct keys adds each of them under its keys.
pub proof fn lemma_with_distinct_records<C: Key, I: Key, E: Record<C, I>>(
    m: Map<(C::V, I::V), E>,
    s: Seq<E>,
)
    requires
        forall|j1: int, j2: int|
            0 <= j1 < s.len() && 0 <= j2 < s.len() && j1 != j2 ==> key_of(#[trigger] s[j1]) != key_of(
                #[trigger] s[j2],
            ),
    ensures
        forall|j: int| 0 <= j < s.len() ==> #[trigger] with_records(m, s).contains_key(key_of(s[j]))
            && with_records(m, s)[key_of(s[j])] == s[j],
        forall|k: (C::V, I::V)| (forall|j: int| 0 <= j < s.len() ==> key_of(#[trigger] s[j]) != k)
            ==> #[trigger] with_records(m, s).contains_key(k) == m.contains_key(k)
            && with_records(m, s)[k] == m[k],
    decreases s.len(),
{
    if s.len() > 0 {
        let t = s.drop_last();
        assert forall|j1: int, j2: int|
            0 <= j1 < t.len() && 0 <= j2 < t.len() && j1 != j2 implies key_of(#[trigger] t[j1]) != key_of(
                #[trigger] t[j2],
            ) by {
            assert(t[j1] == s[j1] && t[j2] == s[j2]);
        }
        lemma_with_distinct_records(m, t);
        assert(with_records(m, s) == with_records(m, t).insert(key_of(s.last()), s.last()));
        assert(s.last() == s[s.len() - 1]);
        assert forall|j: int| 0 <= j < s.len() implies #[trigger] with_records(m, s).contains_key(key_of(s[j]))
            && with_records(m, s)[key_of(s[j])] == s[j] by {
            if j < s.len() - 1 {
                assert(t[j] == s[j]);
                assert(key_of(s[j]) != key_of(s[s.len() - 1]));
                assert(with_records(m, t).contains_key(key_of(t[j])));
            }
        }
        assert forall|k: (C::V, I::V)| (forall|j: int| 0 <= j < s.len() ==> key_of(#[trigger] s[j]) != k)
            implies #[trigger] with_records(m, s).contains_key(k) == m.contains_key(k)
            && with_records(m, s)[k] == m[k] by {
            assert forall|j: int| 0 <= j < t.len() implies key_of(#[trigger] t[j]) != k by {
                assert(t[j] == s[j]);
            }
            assert(key_of(s[s.len() - 1]) != k);
        }
    }
}

/// All records of a group share one chunk key.
pub open spec fn one_chunk<C: Key, I: Key, E: Record<C, I>>(s: Seq<E>) -> bool {
    forall|j: int| 0 <= j < s.len() ==> (#[trigger] s[j]).spec_chunk_key() == s[0].spec_chunk_key()
}

/// The same values in reverse order.
fn reversed<T>(v: Vec<T>) -> (r: Vec<T>)
    ensures
        r@ == v@.reverse(),
{
    let ghost orig = v@;
    let mut v = v;
    let mut r: Vec<T> = Vec::new();
    while v.len() > 0
        invariant
            v@ == orig.take(v@.len() as int),
            r@.len() + v@.len() == orig.len(),
            forall|j: int| 0 <= j < r@.len() ==> #[trigger] r@[j] == orig[orig.len() - 1 - j],
        decreases v@.len(),
    {
        let x = v.pop().unwrap();
        r.push(x);
        assert(v@ =~= orig.take(v@.len() as int));
    }
    assert(r@ =~= orig.reverse());
    r
}

/// The generation after `g`, which stops at `u64::MAX`.
pub open spec fn next_generation(g: u64) -> u64 {
    if g < u64::MAX {
        (g + 1) as u64
    } else {
        u64::MAX
    }
}

/// The keys that a snapshot of chunk keys names.
pub open spec fn snapshot_keys<C: Key>(s: Seq<Option<C>>) -> Set<C::V> {
    Set::new(|c: C::V| exists|p: int| 0 <= p < s.len() && (#[trigger] s[p]) is Some && s[p]->0@ == c)
}

/// The references of a sequence, followed.
pub open spec fn deref_all<E>(s: Seq<&E>) -> Seq<E> {
    Seq::new(s.len(), |j: int| *s[j])
}

impl<C: Key, I: Key, E: Record<C, I>> Storage<C, I, E> {
    /// The stored records, keyed by chunk key and item key.
    pub closed spec fn view(&self) -> Map<(C::V, I::V), E> {
        Map::new(
            |k: (C::V, I::V)|
                self.index@.contains_key(k.0) && self.chunks@[self.index@[k.0] as int]@.contains_key(
                    k.1,
                ),
            |k: (C::V, I::V)| self.chunks@[self.index@[k.0] as int]@[k.1],
        )
    }

    /// The identity given at construction.
    pub closed spec fn spec_id(&self) -> u64 {
        self.id
    }

    /// A count of the changes made, which stops at `u64::MAX`.
    pub closed spec fn spec_generation(&self) -> u64 {
        self.generation
    }

    /// For each chunk, the generation of the last change at its position.
    pub closed spec fn stamps(&self) -> Seq<u64> {
        Seq::new(self.chunks@.len(), |i: int| self.chunks@[i].spec_stamp())
    }

    /// `later` is this storage after some changes: the same storage, whose
    /// generation has not gone back, and where each position whose records
    /// changed carries a stamp later than this generation, or the last one.
    pub open spec fn advances(&self, later: &Self) -> bool {
        &&& later.spec_id() == self.spec_id()
        &&& later.spec_generation() >= self.spec_generation()
        &&& later.stamps().len() == later.groups().len()
        &&& forall|i: int|
            0 <= i < later.groups().len() ==> #[trigger] later.stamps()[i] > self.spec_generation()
                || later.stamps()[i] == u64::MAX || (i < self.groups().len() && later.groups()[i]
                == self.groups()[i] && later.stamps()[i] == self.stamps()[i])
    }

    /// Each position of `later` carries the stamp `t` or is unchanged.
    closed spec fn touched_only(&self, later: &Self, t: u64) -> bool {
        forall|i: int|
            0 <= i < later.chunks@.len() ==> #[trigger] later.chunks@[i].spec_stamp() == t || (i
                < self.chunks@.len() && later.chunks@[i].records() == self.chunks@[i].records()
                && later.chunks@[i].spec_stamp() == self.chunks@[i].spec_stamp())
    }

    proof fn lemma_touched_trans(&self, b: &Self, c: &Self, t: u64)
        requires
            self.touched_only(b, t),
            b.touched_only(c, t),
        ensures
            self.touched_only(c, t),
    {
        assert forall|i: int| 0 <= i < c.chunks@.len() implies #[trigger] c.chunks@[i].spec_stamp() == t || (i
            < self.chunks@.len() && c.chunks@[i].records() == self.chunks@[i].records()
            && c.chunks@[i].spec_stamp() == self.chunks@[i].spec_stamp()) by {
            if c.chunks@[i].spec_stamp() != t {
                assert(b.chunks@[i].spec_stamp() != t);
            }
        }
    }

    proof fn lemma_touched_one(&self, later: &Self, idx: int, t: u64)
        requires
            later.chunks@.len() == self.chunks@.len(),
            forall|i: int| 0 <= i < self.chunks@.len() && i != idx ==> later.chunks@[i] == self.chunks@[i],
            0 <= idx < later.chunks@.len() ==> later.chunks@[idx].spec_stamp() == t,
        ensures
            self.touched_only(later, t),
    {
    }

    proof fn lemma_advances(&self, later: &Self)
        requires
            self.touched_only(later, later.generation),
            later.generation == next_generation(self.generation),
            later.id == self.id,
        ensures
            self.advances(later),
    {
        assert forall|i: int|
            0 <= i < later.groups().len() implies #[trigger] later.stamps()[i] > self.spec_generation()
                || later.stamps()[i] == u64::MAX || (i < self.groups().len() && later.groups()[i]
                == self.groups()[i] && later.stamps()[i] == self.stamps()[i]) by {
            assert(later.stamps()[i] == later.chunks@[i].spec_stamp());
        }
    }

    /// The keys of the chunks currently held, empty ones awaiting compaction included.
    pub closed spec fn chunk_key_set(&self) -> Set<C::V> {
        self.index@.dom()
    }

    /// Where the chunk with the given key stands.
    pub closed spec fn chunk_position(&self, c: C::V) -> nat {
        self.index@[c]
    }

    /// The records of each chunk, in storage order.
    pub closed spec fn groups(&self) -> Seq<Seq<E>> {
        Seq::new(self.chunks@.len(), |i: int| self.chunks@[i].records())
    }

    /// No emptied chunk awaits compaction.
    pub closed spec fn compact(&self) -> bool {
        self.dirty@.len() == 0
    }

    pub closed spec fn wf(&self) -> bool {
        &&& self.wf_index()
        &&& self.empties_queued()
        &&& forall|d: int| 0 <= d < self.dirty@.len() ==> #[trigger] self.dirty@[d] < self.chunks@.len()
    }

    /// Every emptied chunk has its position in the queue.
    closed spec fn empties_queued(&self) -> bool {
        forall|i: int|
            0 <= i < self.chunks@.len() && (#[trigger] self.chunks@[i]).records().len() == 0
                ==> self.dirty@.contains(i as usize)
    }

    /// The chunks are well formed, and the index maps each chunk key to its position.
    closed spec fn wf_index(&self) -> bool {
        &&& forall|i: int| 0 <= i < self.chunks@.len() ==> (#[trigger] self.chunks@[i]).wf()
        &&& forall|c: C::V| #[trigger]
            self.index@.contains_key(c) ==> self.index@[c] < self.chunks@.len()
                && self.chunks@[self.index@[c] as int].key() == c
        &&& forall|i: int|
            0 <= i < self.chunks@.len() ==> self.index@.contains_key(
                (#[trigger] self.chunks@[i]).key(),
            ) && self.index@[self.chunks@[i].key()] == i
    }

    /// Each record held is the model's record under its keys, and no two
    /// records held share their keys.
    pub proof fn lemma_groups_keyed(&self)
        requires
            self.wf(),
        ensures
            forall|i: int, j: int|
                0 <= i < self.groups().len() && 0 <= j < self.groups()[i].len() ==> self@.contains_key(
                    key_of(#[trigger] self.groups()[i][j]),
                ) && self@[key_of(self.groups()[i][j])] == self.groups()[i][j],
            forall|i1: int, j1: int, i2: int, j2: int|
                0 <= i1 < self.groups().len() && 0 <= j1 < self.groups()[i1].len() && 0 <= i2 < self.groups().len()
                    && 0 <= j2 < self.groups()[i2].len() && (i1 != i2 || j1 != j2) ==> key_of(
                    #[trigger] self.groups()[i1][j1],
                ) != key_of(#[trigger] self.groups()[i2][j2]),
    {
        assert forall|i: int, j: int|
            0 <= i < self.groups().len() && 0 <= j < self.groups()[i].len() implies self@.contains_key(
                key_of(#[trigger] self.groups()[i][j]),
            ) && self@[key_of(self.groups()[i][j])] == self.groups()[i][j] by {
            self.chunks@[i].lemma_records();
            assert(self.index@[self.chunks@[i].key()] == i);
        }
        assert forall|i1: int, j1: int, i2: int, j2: int|
            0 <= i1 < self.groups().len() && 0 <= j1 < self.groups()[i1].len() && 0 <= i2 < self.groups().len()
                && 0 <= j2 < self.groups()[i2].len() && (i1 != i2 || j1 != j2) implies key_of(
                #[trigger] self.groups()[i1][j1],
            ) != key_of(#[trigger] self.groups()[i2][j2]) by {
            self.chunks@[i1].lemma_records();
            self.chunks@[i2].lemma_records();
            assert(self.index@[self.chunks@[i1].key()] == i1);
            assert(self.index@[self.chunks@[i2].key()] == i2);
        }
    }

    /// Every record of the model stands at some position of some chunk.
    pub proof fn lemma_model_located(&self)
        requires
            self.wf(),
        ensures
            forall|k: (C::V, I::V)| #[trigger] self@.contains_key(k) ==> exists|i: int, j: int|
                0 <= i < self.groups().len() && 0 <= j < self.groups()[i].len() && self.groups()[i][j] == self@[k]
                    && key_of(self.groups()[i][j]) == k,
    {
        assert forall|k: (C::V, I::V)| #[trigger] self@.contains_key(k) implies exists|i: int, j: int|
            0 <= i < self.groups().len() && 0 <= j < self.groups()[i].len() && self.groups()[i][j] == self@[k]
                && key_of(self.groups()[i][j]) == k by {
            let i = self.index@[k.0] as int;
            let ch = self.chunks@[i];
            ch.lemma_records();
            let j = ch.position(k.1) as int;
            assert(self.groups()[i][j] == self@[k]);
        }
    }

    /// The chunks in storage order.
    pub(crate) fn internal_rvec(&self) -> (r: &Vec<ChunkStorage<C, I, E>>)
        requires
            self.wf(),
        ensures
            r@.len() == self.groups().len(),
            forall|i: int| 0 <= i < r@.len() ==> (#[trigger] r@[i]).wf() && r@[i].records() == self.groups()[i]
                && r@[i].spec_stamp() == self.stamps()[i],
    {
        &self.chunks
    }

    /// With no emptied chunk left, the chunks held are exactly those that hold a record.
    pub proof fn lemma_compact_chunk_keys(&self)
        requires
            self.wf(),
            self.compact(),
        ensures
            self.chunk_key_set() == chunk_keys_of(self@),
            forall|i: int| 0 <= i < self.groups().len() ==> #[trigger] self.groups()[i].len() > 0,
    {
        assert forall|i: int| 0 <= i < self.groups().len() implies #[trigger] self.groups()[i].len() > 0 by {
            if self.chunks@[i].records().len() == 0 {
                assert(self.dirty@.contains(i as usize));
            }
        }
        assert forall|c: C::V| #[trigger] self.chunk_key_set().contains(c) implies chunk_keys_of(self@).contains(c) by {
            let p = self.index@[c] as int;
            let ch = self.chunks@[p];
            ch.lemma_records();
            assert(self.groups()[p].len() > 0);
            let ik = ch.records()[0].spec_item_key();
            assert(self@.contains_key((c, ik)));
        }
        assert(self.chunk_key_set() =~= chunk_keys_of(self@));
    }

    /// Remove the emptied chunks, moving the last chunk into each vacated place.
    fn clean(&mut self, t: u64)
        requires
            old(self).wf(),
        ensures
            old(self).touched_only(&*final(self), t),
            final(self).wf(),
            final(self).compact(),
            final(self)@ == old(self)@,
            final(self).id == old(self).id,
            final(self).chunks@.len() <= old(self).chunks@.len(),
    {
        while self.dirty.len() > 0
            invariant
                old(self).touched_only(&*self, t),
                self.wf_index(),
                self.empties_queued(),
                self@ == old(self)@,
                self.id == old(self).id,
                self.chunks@.len() <= old(self).chunks@.len(),
            decreases self.dirty@.len(),
        {
            let mut best: usize = 0;
            let mut j: usize = 1;
            while j < self.dirty.len()
                invariant
                    0 < self.dirty@.len(),
                    best < self.dirty@.len(),
                    1 <= j <= self.dirty@.len(),
                    forall|d: int| 0 <= d < j ==> #[trigger] self.dirty@[d] <= self.dirty@[best as int],
                decreases self.dirty@.len() - j,
            {
                if self.dirty[j] > self.dirty[best] {
                    best = j;
                }
                j += 1;
            }
            let ghost before = *self;
            let idx = self.dirty.swap_remove(best);
            assert(forall|d: int| 0 <= d < before.dirty@.len() ==> #[trigger] before.dirty@[d] <= idx);
            assert forall|d: int| 0 <= d < before.dirty@.len() && before.dirty@[d] != idx implies
                self.dirty@.contains(#[trigger] before.dirty@[d]) by {
                if d == self.dirty@.len() {
                    assert(self.dirty@[best as int] == before.dirty@[d]);
                } else {
                    assert(self.dirty@[d] == before.dirty@[d]);
                }
            }
            if idx < self.chunks.len() && self.chunks[idx].is_empty() {
                let ghost last = self.chunks@.len() - 1;
                let ghost removed_key = self.chunks@[idx as int].key();
                let ghost moved_key = self.chunks@[last].key();
                assert(idx as int != last ==> self.chunks@[last].records().len() != 0) by {
                    if idx as int != last && self.chunks@[last].records().len() == 0 {
                        assert(before.dirty@.contains(last as usize));
                    }
                }
                let removed = self.chunks.swap_remove(idx);
                proof {
                    if idx as int != last {
                        self.index@ = self.index@.remove(removed_key).insert(moved_key, idx as nat);
                    } else {
                        self.index@ = self.index@.remove(removed_key);
                    }
                    self.lemma_after_chunk_removal(before, idx as int, removed_key, moved_key);
                }
                if idx < self.chunks.len() {
                    let ghost mid = *self;
                    self.chunks[idx].set_stamp(t);
                    proof {
                        self.lemma_chunk_replaced(mid, idx as int);
                        assert(self@ =~= mid@);
                    }
                }
                proof {
                    assert(before.touched_only(&*self, t));
                    old(self).lemma_touched_trans(&before, &*self, t);
                }
            }
            proof {
                assert forall|i: int|
                    0 <= i < self.chunks@.len() && (#[trigger] self.chunks@[i]).records().len() == 0
                        implies self.dirty@.contains(i as usize) by {
                    if i != idx {
                        if i < before.chunks@.len() && self.chunks@[i] == before.chunks@[i] {
                            assert(before.dirty@.contains(i as usize));
                            let d = choose|d: int| 0 <= d < before.dirty@.len() && before.dirty@[d] == i as usize;
                            assert(self.dirty@.contains(before.dirty@[d]));
                        }
                    }
                }
            }
        }
    }

    proof fn lemma_after_chunk_removal(&self, before: Self, idx: int, removed_key: C::V, moved_key: C::V)
        requires
            before.wf_index(),
            0 <= idx < before.chunks@.len(),
            removed_key == before.chunks@[idx].key(),
            moved_key == before.chunks@[before.chunks@.len() - 1].key(),
            self.chunks@ == before.chunks@.update(idx, before.chunks@.last()).drop_last(),
            idx != before.chunks@.len() - 1 ==> self.index@ == before.index@.remove(removed_key).insert(moved_key, idx as nat),
            idx == before.chunks@.len() - 1 ==> self.index@ == before.index@.remove(removed_key),
        ensures
            self.wf_index(),
            self@ == without_chunk(before@, removed_key),
            before.chunks@[idx].records().len() == 0 ==> self@ == before@,
            forall|i: int| 0 <= i < self.chunks@.len() && i != idx ==> self.chunks@[i] == before.chunks@[i],
    {
        let last = before.chunks@.len() - 1;
        before.chunks@[idx].lemma_records();
        assert forall|c: C::V| #[trigger]
            self.index@.contains_key(c) implies self.index@[c] < self.chunks@.len()
                && self.chunks@[self.index@[c] as int].key() == c by {
            if c != moved_key || idx == last {
                let p = before.index@[c] as int;
                assert(p != idx);
                assert(p != last);
            }
        }
        assert forall|i: int|
            0 <= i < self.chunks@.len() implies self.index@.contains_key(
                (#[trigger] self.chunks@[i]).key(),
            ) && self.index@[self.chunks@[i].key()] == i by {
            if i != idx {
                assert(self.chunks@[i] == before.chunks@[i]);
                assert(before.index@[before.chunks@[i].key()] == i);
            } else {
                assert(before.index@[before.chunks@[last].key()] == last);
            }
        }
        let w = without_chunk(before@, removed_key);
        assert forall|k: (C::V, I::V)| #[trigger] self@.contains_key(k) == w.contains_key(k)
            && (self@.contains_key(k) ==> self@[k] == w[k]) by {
            if before.index@.contains_key(k.0) {
                let p = before.index@[k.0] as int;
                if p == last && p != idx {
                    assert(self.chunks@[idx] == before.chunks@[last]);
                }
            }
        }
        assert(self@ =~= w);
        if before.chunks@[idx].records().len() == 0 {
            assert forall|k: (C::V, I::V)| #[trigger] before@.contains_key(k) implies k.0 != removed_key by {
                assert(before.index@[k.0] == idx ==> before.chunks@[idx]@ =~= Map::<I::V, E>::empty());
            }
            assert(w =~= before@);
        }
    }

    /// Move the generation on from `g`.
    fn bump_from(&mut self, g: u64)
        ensures
            final(self).generation == (if g < u64::MAX { (g + 1) as u64 } else { u64::MAX }),
            final(self).id == old(self).id,
            final(self).chunks == old(self).chunks,
            final(self).index == old(self).index,
            final(self).dirty == old(self).dirty,
            final(self)@ == old(self)@,
            final(self).groups() == old(self).groups(),
            final(self).chunk_key_set() == old(self).chunk_key_set(),
            old(self).wf() ==> final(self).wf(),
            old(self).compact() ==> final(self).compact(),
    {
        self.generation = if g < u64::MAX { g + 1 } else { u64::MAX };
        assert(self@ =~= old(self)@);
        assert(self.groups() =~= old(self).groups());
    }

    /// The generation, as it stands.
    pub fn generation(&self) -> (r: u64)
        ensures
            r == self.spec_generation(),
    {
        self.generation
    }

    /// Construct an empty storage carrying the given identity. A secondary
    /// index built for one storage refuses any storage with another identity,
    /// so each storage should be given its own.
    pub fn new(id: u64) -> (r: Self)
        ensures
            r.wf(),
            r.compact(),
            r@ == Map::<(C::V, I::V), E>::empty(),
            r.groups().len() == 0,
            r.chunk_key_set() == Set::<C::V>::empty(),
            r.spec_id() == id,
    {
        let r = Storage {
            id,
            generation: 0,
            chunks: Vec::new(),
            dirty: Vec::new(),
            index: Ghost(Map::empty()),
        };
        assert(r@ =~= Map::<(C::V, I::V), E>::empty());
        assert(r.chunk_key_set() =~= Set::<C::V>::empty());
        r
    }

    pub(crate) fn id(&self) -> (r: u64)
        ensures
            r == self.spec_id(),
    {
        self.id
    }

    /// Replacing one chunk by another with the same key changes the records
    /// of that chunk key alone.
    proof fn lemma_chunk_replaced(&self, before: Self, idx: int)
        requires
            before.wf_index(),
            0 <= idx < before.chunks@.len(),
            self.chunks@.len() == before.chunks@.len(),
            forall|i: int| 0 <= i < self.chunks@.len() && i != idx ==> self.chunks@[i] == before.chunks@[i],
            self.chunks@[idx].wf(),
            self.chunks@[idx].key() == before.chunks@[idx].key(),
            self.index@ == before.index@,
        ensures
            self.wf_index(),
            forall|k: (C::V, I::V)| k.0 != before.chunks@[idx].key() ==> (#[trigger] self@.contains_key(k)
                == before@.contains_key(k) && (self@.contains_key(k) ==> self@[k] == before@[k])),
            forall|k: (C::V, I::V)| k.0 == before.chunks@[idx].key() ==> (#[trigger] self@.contains_key(k)
                == self.chunks@[idx]@.contains_key(k.1) && (self@.contains_key(k) ==> self@[k]
                == self.chunks@[idx]@[k.1])),
    {
        assert forall|i: int| 0 <= i < self.chunks@.len() implies (#[trigger] self.chunks@[i]).wf() by {
            if i != idx {
                assert(self.chunks@[i] == before.chunks@[i]);
            }
        }
        assert forall|i: int|
            0 <= i < self.chunks@.len() implies self.index@.contains_key(
                (#[trigger] self.chunks@[i]).key(),
            ) && self.index@[self.chunks@[i].key()] == i by {
            if i != idx {
                assert(self.chunks@[i] == before.chunks@[i]);
            }
        }
        assert forall|k: (C::V, I::V)| k.0 != before.chunks@[idx].key() implies (#[trigger] self@.contains_key(k)
            == before@.contains_key(k) && (self@.contains_key(k) ==> self@[k] == before@[k])) by {
            if before.index@.contains_key(k.0) {
                let p = before.index@[k.0] as int;
                assert(p != idx);
            }
        }
    }

    /// The position of the chunk with the given key, which is created empty if
    /// it is not held yet.
    fn chunk(&mut self, chunk_key: &C, t: u64) -> (idx: usize)
        requires
            old(self).wf_index(),
            old(self).chunks@.len() < usize::MAX,
        ensures
            old(self).touched_only(&*final(self), t),
            final(self).wf_index(),
            final(self)@ == old(self)@,
            final(self).id == old(self).id,
            final(self).dirty == old(self).dirty,
            final(self).chunk_key_set() == old(self).chunk_key_set().insert(chunk_key@),
            idx < final(self).chunks@.len(),
            idx == final(self).index@[chunk_key@],
            final(self).chunks@[idx as int].key() == chunk_key@,
            forall|i: int| 0 <= i < old(self).chunks@.len() ==> final(self).chunks@[i] == old(self).chunks@[i],
            old(self).chunk_key_set().contains(chunk_key@) ==> final(self).chunks@ == old(self).chunks@,
            !old(self).chunk_key_set().contains(chunk_key@) ==> idx == old(self).chunks@.len()
                && final(self).chunks@.len() == old(self).chunks@.len() + 1
                && final(self).chunks@[idx as int]@ == Map::<I::V, E>::empty()
                && final(self).chunks@[idx as int].records().len() == 0,
    {
        match self.internal_idx_of_core(chunk_key) {
            Some(idx) => {
                assert(self.chunk_key_set().insert(chunk_key@) =~= self.chunk_key_set());
                idx
            },
            None => {
                let idx = self.chunks.len();
                let c = ChunkStorage::new(chunk_key.key_clone(), t);
                self.chunks.push(c);
                proof {
                    let before = *old(self);
                    self.index@ = self.index@.insert(chunk_key@, idx as nat);
                    assert forall|i: int| 0 <= i < self.chunks@.len() implies (#[trigger] self.chunks@[i]).wf() by {
                        if i < idx {
                            assert(self.chunks@[i] == before.chunks@[i]);
                        }
                    }
                    assert forall|c2: C::V| #[trigger]
                        self.index@.contains_key(c2) implies self.index@[c2] < self.chunks@.len()
                            && self.chunks@[self.index@[c2] as int].key() == c2 by {
                        if c2 != chunk_key@ {
                            assert(self.chunks@[before.index@[c2] as int] == before.chunks@[before.index@[c2] as int]);
                        }
                    }
                    assert forall|i: int|
                        0 <= i < self.chunks@.len() implies self.index@.contains_key(
                            (#[trigger] self.chunks@[i]).key(),
                        ) && self.index@[self.chunks@[i].key()] == i by {
                        if i < idx {
                            assert(self.chunks@[i] == before.chunks@[i]);
                            assert(before.index@[before.chunks@[i].key()] == i);
                        }
                    }
                    assert forall|k: (C::V, I::V)| #[trigger] self@.contains_key(k) == before@.contains_key(k)
                        && (self@.contains_key(k) ==> self@[k] == before@[k]) by {
                        if k.0 != chunk_key@ && before.index@.contains_key(k.0) {
                            assert(self.chunks@[before.index@[k.0] as int] == before.chunks@[before.index@[k.0] as int]);
                        }
                    }
                    assert(self@ =~= before@);
                    assert(self.chunk_key_set() =~= before.chunk_key_set().insert(chunk_key@));
                }
                idx
            },
        }
    }

    /// Add a record, replacing any record with the same chunk key and item key.
    pub fn add(&mut self, element: E) -> (r: &mut Self)
        requires
            old(self).wf(),
            old(self).groups().len() < usize::MAX,
        ensures
            r.wf(),
            r.compact(),
            r@ == old(self)@.insert(key_of(element), element),
            r.groups().len() <= old(self).groups().len() + 1,
            r.spec_id() == old(self).spec_id(),
            old(self).advances(r),
            *final(self) == *final(r),
    {
        let g = self.generation;
        let t: u64 = if g < u64::MAX { g + 1 } else { u64::MAX };
        self.add_one(element, t);
        self.bump_from(g);
        proof {
            old(self).lemma_advances(&*self);
        }
        self
    }

    fn add_one(&mut self, element: E, t: u64)
        requires
            old(self).wf(),
            old(self).chunks@.len() < usize::MAX,
        ensures
            old(self).touched_only(&*final(self), t),
            final(self).wf(),
            final(self).compact(),
            final(self)@ == old(self)@.insert(key_of(element), element),
            final(self).id == old(self).id,
            final(self).chunks@.len() <= old(self).chunks@.len() + 1,
    {
        self.clean(t);
        let ck = element.chunk_key();
        let ghost cleaned = *self;
        let idx = self.chunk(&ck, t);
        let ghost before = *self;
        self.chunks[idx].add(element);
        self.chunks[idx].set_stamp(t);
        proof {
            old(self).lemma_touched_trans(&cleaned, &before, t);
            before.lemma_touched_one(&*self, idx as int, t);
            old(self).lemma_touched_trans(&before, &*self, t);
            self.lemma_chunk_replaced(before, idx as int);
            assert(self@ =~= old(self)@.insert(key_of(element), element));
            assert forall|i: int|
                0 <= i < self.chunks@.len() && (#[trigger] self.chunks@[i]).records().len() == 0
                    implies self.dirty@.contains(i as usize) by {
                if i == idx {
                    self.chunks@[i].lemma_records();
                    assert(self.chunks@[i]@.contains_key(element.spec_item_key()));
                } else if i < old(self).chunks@.len() {
                    assert(self.chunks@[i] == before.chunks@[i]);
                    assert(false);
                }
            }
        }
    }

    /// The records of one chunk list exactly the records of its chunk key.
    proof fn lemma_chunk_listing(&self, idx: int)
        requires
            self.wf_index(),
            0 <= idx < self.chunks@.len(),
        ensures
            listing(self.chunks@[idx].records(), self@, keys_in_chunk(self@, self.chunks@[idx].key())),
    {
        let ch = self.chunks@[idx];
        let c = ch.key();
        ch.lemma_records();
        assert(self.index@[c] == idx);
        let s = ch.records();
        let sel = keys_in_chunk(self@, c);
        assert forall|k: (C::V, I::V)| self@.contains_key(k) && #[trigger] sel.contains(k) implies exists|j: int|
            0 <= j < s.len() && key_of(s[j]) == k by {
            let j = ch.position(k.1) as int;
            assert(key_of(s[j]) == k);
        }
    }

    /// The record with the identity of `unique_id`, if there is one.
    pub fn get<R: Record<C, I>>(&self, unique_id: &R) -> (r: Option<&E>)
        requires
            self.wf(),
        ensures
            r is Some <==> self@.contains_key(key_of(*unique_id)),
            r is Some ==> *r->0 == self@[key_of(*unique_id)],
    {
        let ck = unique_id.chunk_key();
        match self.internal_idx_of(&ck) {
            Some(idx) => {
                let ik = unique_id.item_key();
                self.chunks[idx].get(&ik)
            },
            None => None,
        }
    }

    /// The keys of all chunks held, each once.
    pub fn chunk_keys(&self) -> (r: Vec<&C>)
        requires
            self.wf(),
        ensures
            r@.len() == self.groups().len(),
            forall|j: int| 0 <= j < r@.len() ==> self.chunk_key_set().contains((#[trigger] r@[j])@),
            forall|c: C::V| #[trigger] self.chunk_key_set().contains(c) ==> exists|j: int|
                0 <= j < r@.len() && r@[j]@ == c,
            forall|j1: int, j2: int|
                0 <= j1 < r@.len() && 0 <= j2 < r@.len() && j1 != j2 ==> (#[trigger] r@[j1])@ != (
                #[trigger] r@[j2])@,
    {
        let mut r: Vec<&C> = Vec::new();
        let mut i: usize = 0;
        while i < self.chunks.len()
            invariant
                self.wf(),
                i <= self.chunks@.len(),
                r@.len() == i,
                forall|j: int| 0 <= j < i ==> (#[trigger] r@[j])@ == self.chunks@[j].key(),
            decreases self.chunks@.len() - i,
        {
            r.push(self.chunks[i].chunk_key());
            i += 1;
        }
        proof {
            assert forall|c: C::V| #[trigger] self.chunk_key_set().contains(c) implies exists|j: int|
                0 <= j < r@.len() && r@[j]@ == c by {
                assert(r@[self.index@[c] as int]@ == c);
            }
            assert forall|j1: int, j2: int|
                0 <= j1 < r@.len() && 0 <= j2 < r@.len() && j1 != j2 implies (#[trigger] r@[j1])@ != (
                #[trigger] r@[j2])@ by {
                assert(self.index@[self.chunks@[j1].key()] == j1);
                assert(self.index@[self.chunks@[j2].key()] == j2);
            }
        }
        r
    }

    /// The records of each chunk, in storage order.
    pub fn raw(&self) -> (r: Vec<&[E]>)
        requires
            self.wf(),
        ensures
            r@.len() == self.groups().len(),
            forall|i: int| 0 <= i < r@.len() ==> (#[trigger] r@[i])@ == self.groups()[i],
    {
        let mut r: Vec<&[E]> = Vec::new();
        let mut i: usize = 0;
        while i < self.chunks.len()
            invariant
                self.wf(),
                i <= self.chunks@.len(),
                r@.len() == i,
                forall|j: int| 0 <= j < i ==> (#[trigger] r@[j])@ == self.groups()[j],
            decreases self.chunks@.len() - i,
        {
            r.push(self.chunks[i].raw());
            i += 1;
        }
        r
    }

    /// Give up the storage, returning the records of each chunk.
    pub fn dissolve(self) -> (r: Vec<Vec<E>>)
        requires
            self.wf(),
        ensures
            r@.len() == self.groups().len(),
            forall|i: int| 0 <= i < r@.len() ==> (#[trigger] r@[i])@ == self.groups()[i],
            views(r@) == self.groups(),
    {
        let ghost g = self.groups();
        let mut chunks = self.chunks;
        let mut rev: Vec<Vec<E>> = Vec::new();
        while chunks.len() > 0
            invariant
                chunks@.len() + rev@.len() == g.len(),
                forall|i: int| 0 <= i < chunks@.len() ==> (#[trigger] chunks@[i]).records() == g[i],
                forall|j: int| 0 <= j < rev@.len() ==> (#[trigger] rev@[j])@ == g[g.len() - 1 - j],
            decreases chunks@.len(),
        {
            let c = chunks.pop().unwrap();
            rev.push(c.into_records());
        }
        let mut r: Vec<Vec<E>> = Vec::new();
        while rev.len() > 0
            invariant
                r@.len() + rev@.len() == g.len(),
                forall|j: int| 0 <= j < rev@.len() ==> (#[trigger] rev@[j])@ == g[g.len() - 1 - j],
                forall|i: int| 0 <= i < r@.len() ==> (#[trigger] r@[i])@ == g[i],
            decreases rev@.len(),
        {
            let v = rev.pop().unwrap();
            r.push(v);
        }
        assert(views(r@) =~= g);
        r
    }

    /// Drop a whole chunk, returning its records, or `None` where no record
    /// has that chunk key.
    pub fn remove_chunk(&mut self, chunk_key: &C) -> (r: Option<Vec<E>>)
        requires
            old(self).wf(),
        ensures
            final(self).wf(),
            final(self).compact(),
            final(self).groups().len() <= old(self).groups().len(),
            final(self).spec_id() == old(self).spec_id(),
            old(self).advances(&*final(self)),
            r is Some <==> chunk_keys_of(old(self)@).contains(chunk_key@),
            final(self)@ == without_chunk(old(self)@, chunk_key@),
            r is Some ==> listing(r->0@, old(self)@, keys_in_chunk(old(self)@, chunk_key@)),
    {
        let g = self.generation;
        let t: u64 = if g < u64::MAX { g + 1 } else { u64::MAX };
        self.clean(t);
        proof {
            self.lemma_compact_chunk_keys();
        }
        match self.internal_idx_of(chunk_key) {
            None => {
                assert(self@ =~= without_chunk(old(self)@, chunk_key@));
                self.bump_from(g);
        proof {
            old(self).lemma_advances(&*self);
        }
                None
            },
            Some(idx) => {
                let ghost before = *self;
                proof {
                    before.lemma_chunk_listing(idx as int);
                }
                let ghost last = self.chunks@.len() - 1;
                let ghost moved_key = self.chunks@[last].key();
                let chunk = self.chunks.swap_remove(idx);
                proof {
                    if idx as int != last {
                        self.index@ = self.index@.remove(chunk_key@).insert(moved_key, idx as nat);
                    } else {
                        self.index@ = self.index@.remove(chunk_key@);
                    }
                    self.lemma_after_chunk_removal(before, idx as int, chunk_key@, moved_key);
                }
                if idx < self.chunks.len() {
                    let ghost mid = *self;
                    self.chunks[idx].set_stamp(t);
                    proof {
                        self.lemma_chunk_replaced(mid, idx as int);
                        assert(self@ =~= mid@);
                    }
                }
                proof {
                    assert(before.touched_only(&*self, t));
                    old(self).lemma_touched_trans(&before, &*self, t);
                }
                let records = chunk.into_records();
                self.bump_from(g);
        proof {
            old(self).lemma_advances(&*self);
        }
                Some(records)
            },
        }
    }

    /// Add records that all share one chunk key.
    pub fn add_chunk(&mut self, i: Vec<E>) -> (r: &mut Self)
        requires
            old(self).wf(),
            old(self).groups().len() < usize::MAX,
            one_chunk(i@),
        ensures
            r.wf(),
            r.compact(),
            r@ == with_records(old(self)@, i@),
            r.spec_id() == old(self).spec_id(),
            old(self).advances(r),
            r.groups().len() <= old(self).groups().len() + 1,
            *final(self) == *final(r),
    {
        let g = self.generation;
        let t: u64 = if g < u64::MAX { g + 1 } else { u64::MAX };
        self.add_group(i, t);
        self.bump_from(g);
        proof {
            old(self).lemma_advances(&*self);
        }
        self
    }

    fn add_group(&mut self, i: Vec<E>, t: u64)
        requires
            old(self).wf(),
            old(self).chunks@.len() < usize::MAX,
            one_chunk(i@),
        ensures
            old(self).touched_only(&*final(self), t),
            final(self).wf(),
            final(self).compact(),
            final(self)@ == with_records(old(self)@, i@),
            final(self).id == old(self).id,
            final(self).chunks@.len() <= old(self).chunks@.len() + 1,
    {
        self.clean(t);
        if i.len() == 0 {
            return;
        }
        let ghost orig = i@;
        proof {
            self.lemma_compact_chunk_keys();
        }
        let ghost cleaned = *self;
        let ck = i[0].chunk_key();
        let idx = self.chunk(&ck, t);
        let ghost start = *self;
        proof {
            old(self).lemma_touched_trans(&cleaned, &start, t);
        }
        proof {
            assert forall|i2: int| 0 <= i2 < self.chunks@.len() && i2 != idx implies (#[trigger] self.chunks@[i2]).records().len() > 0 by {
                assert(self.chunks@[i2] == cleaned.chunks@[i2]);
                assert(cleaned.groups()[i2].len() > 0);
            }
        }
        let mut rev = reversed(i);
        let ghost n = orig.len();
        proof {
            assert(orig.take(0) =~= Seq::<E>::empty());
        }
        while rev.len() > 0
            invariant
                self.wf_index(),
                old(self).touched_only(&*self, t),
                self.id == old(self).id,
                self.compact(),
                idx < self.chunks@.len(),
                self.chunks@.len() <= old(self).chunks@.len() + 1,
                self.chunks@[idx as int].key() == ck@,
                self.index@ == start.index@,
                forall|i2: int| 0 <= i2 < self.chunks@.len() && i2 != idx ==> (#[trigger] self.chunks@[i2]).records().len() > 0,
                rev@.len() < n ==> self.chunks@[idx as int].records().len() > 0,
                rev@.len() <= n,
                n == orig.len(),
                forall|j: int| 0 <= j < rev@.len() ==> #[trigger] rev@[j] == orig[n - 1 - j],
                self@ == with_records(start@, orig.take(n - rev@.len())),
                one_chunk(orig),
                orig.len() > 0,
                ck@ == orig[0].spec_chunk_key(),
            decreases rev@.len(),
        {
            let e = rev.pop().unwrap();
            let ghost step = n - 1 - rev@.len();
            let ghost before = *self;
            assert(e == orig[step]);
            self.chunks[idx].add(e);
            self.chunks[idx].set_stamp(t);
            proof {
                before.lemma_touched_one(&*self, idx as int, t);
                old(self).lemma_touched_trans(&before, &*self, t);
                self.lemma_chunk_replaced(before, idx as int);
                assert(orig.take(step + 1).drop_last() =~= orig.take(step));
                assert(orig.take(step + 1).last() == e);
                assert(self@ =~= before@.insert(key_of(e), e));
                self.chunks@[idx as int].lemma_records();
                assert(self.chunks@[idx as int]@.contains_key(e.spec_item_key()));
                assert forall|i2: int| 0 <= i2 < self.chunks@.len() && i2 != idx implies (#[trigger] self.chunks@[i2]).records().len() > 0 by {
                    assert(self.chunks@[i2] == before.chunks@[i2]);
                }
            }
        }
        proof {
            assert(orig.take(n as int) =~= orig);
            assert(start@ == old(self)@);
            assert forall|i2: int|
                0 <= i2 < self.chunks@.len() && (#[trigger] self.chunks@[i2]).records().len() == 0
                    implies self.dirty@.contains(i2 as usize) by {
                if i2 != idx {
                    assert(self.chunks@[i2].records().len() > 0);
                }
            }
        }
    }

    /// Add groups of records, each group sharing one chunk key.
    pub fn add_chunks(&mut self, ii: Vec<Vec<E>>) -> (r: &mut Self)
        requires
            old(self).wf(),
            old(self).groups().len() + ii@.len() < usize::MAX,
            forall|g: int| 0 <= g < ii@.len() ==> one_chunk(#[trigger] ii@[g]@),
        ensures
            r.wf(),
            r.compact(),
            r@ == with_groups(old(self)@, views(ii@)),
            r.groups().len() <= old(self).groups().len() + ii@.len(),
            r.spec_id() == old(self).spec_id(),
            old(self).advances(r),
            *final(self) == *final(r),
    {
        let g = self.generation;
        let t: u64 = if g < u64::MAX { g + 1 } else { u64::MAX };
        self.clean(t);
        let ghost orig = ii@;
        let ghost n = orig.len();
        let ghost start = *self;
        let mut rev = reversed(ii);
        proof {
            assert(orig.take(0) =~= Seq::<Vec<E>>::empty());
        }
        while rev.len() > 0
            invariant
                old(self).touched_only(&*self, t),
                self.wf(),
                self.compact(),
                self.id == old(self).id,
                rev@.len() <= n,
                n == orig.len(),
                self.chunks@.len() + rev@.len() <= start.chunks@.len() + n,
                start.chunks@.len() + n < usize::MAX,
                forall|j: int| 0 <= j < rev@.len() ==> #[trigger] rev@[j] == orig[n - 1 - j],
                forall|g: int| 0 <= g < orig.len() ==> one_chunk(#[trigger] orig[g]@),
                self@ == with_groups(start@, views(orig.take(n - rev@.len()))),
            decreases rev@.len(),
        {
            let group = rev.pop().unwrap();
            let ghost step = n - 1 - rev@.len();
            assert(group == orig[step]);
            let ghost before = *self;
            self.add_group(group, t);
            proof {
                old(self).lemma_touched_trans(&before, &*self, t);
                assert(views(orig.take(step + 1)).drop_last() =~= views(orig.take(step)));
                assert(views(orig.take(step + 1)).last() == group@);
            }
        }
        proof {
            assert(orig.take(n as int) =~= orig);
        }
        self.bump_from(g);
        proof {
            old(self).lemma_advances(&*self);
        }
        self
    }

    /// The records of the chunks that stand before position `n`.
    closed spec fn prefix_model(&self, n: int) -> Map<(C::V, I::V), E> {
        Map::new(|k: (C::V, I::V)| self@.contains_key(k) && self.index@[k.0] < n, |k: (C::V, I::V)| self@[k])
    }

    proof fn lemma_prefix_rebuild(&self, n: int)
        requires
            self.wf(),
            0 <= n <= self.groups().len(),
        ensures
            with_groups(Map::empty(), self.groups().take(n)) == self.prefix_model(n),
        decreases n,
    {
        let g = self.groups();
        if n == 0 {
            assert(g.take(0) =~= Seq::<Seq<E>>::empty());
            assert(self.prefix_model(0) =~= Map::<(C::V, I::V), E>::empty());
        } else {
            let m = n - 1;
            self.lemma_prefix_rebuild(m);
            let ch = self.chunks@[m];
            ch.lemma_records();
            assert(g.take(n).drop_last() =~= g.take(m));
            assert(g.take(n).last() == ch.records());
            let before = self.prefix_model(m);
            lemma_with_distinct_records(before, ch.records());
            let after = with_records(before, ch.records());
            assert(self.index@[ch.key()] == m);
            assert forall|k: (C::V, I::V)| #[trigger] after.contains_key(k) == self.prefix_model(n).contains_key(k)
                && (after.contains_key(k) ==> after[k] == self.prefix_model(n)[k]) by {
                if k.0 == ch.key() && ch@.contains_key(k.1) {
                    let j = ch.position(k.1) as int;
                    assert(key_of(ch.records()[j]) == k);
                } else {
                    assert forall|j: int| 0 <= j < ch.records().len() implies key_of(#[trigger] ch.records()[j]) != k by {}
                    if before.contains_key(k) {
                        assert(self.index@[k.0] < m);
                    }
                }
            }
            assert(after =~= self.prefix_model(n));
        }
    }

    /// Putting back the records of each chunk, in order, rebuilds the records held.
    pub proof fn lemma_groups_rebuild(&self)
        requires
            self.wf(),
        ensures
            with_groups(Map::empty(), self.groups()) == self@,
            forall|g: int| 0 <= g < self.groups().len() ==> one_chunk(#[trigger] self.groups()[g]),
    {
        let g = self.groups();
        assert forall|i: int| 0 <= i < g.len() implies one_chunk(#[trigger] g[i]) by {
            self.chunks@[i].lemma_records();
        }
        self.lemma_prefix_rebuild(g.len() as int);
        let n = g.len() as int;
        assert(g.take(n) =~= g);
        assert(self.prefix_model(n) =~= self@);
    }

    /// Whether a record was reached before position `j` of chunk `i`.
    closed spec fn reached_before(&self, k: (C::V, I::V), i: int, j: int) -> bool {
        self.index@[k.0] < i || (self.index@[k.0] == i && self.chunks@[i].position(k.1) < j)
    }

    /// The records that the query visits and the predicate accepts, each once.
    fn collect<P: Fn(&E) -> bool>(&self, q: &Query<C, I>, pred: &P) -> (r: Vec<&E>)
        requires
            self.wf(),
            forall|e: &E| #[trigger] pred.requires((e,)),
        ensures
            forall|j: int|
                0 <= j < r@.len() ==> self@.contains_key(key_of(*#[trigger] r@[j])) && self@[key_of(*r@[j])]
                    == *r@[j] && q.selects(key_of(*r@[j])) && pred.ensures((r@[j],), true),
            forall|j1: int, j2: int|
                0 <= j1 < r@.len() && 0 <= j2 < r@.len() && j1 != j2 ==> key_of(*#[trigger] r@[j1])
                    != key_of(*#[trigger] r@[j2]),
            forall|k: (C::V, I::V)|
                #[trigger] self@.contains_key(k) && q.selects(k) ==> (exists|j: int|
                    0 <= j < r@.len() && key_of(*r@[j]) == k) || pred.ensures((&self@[k],), false),
    {
        let mut acc: Vec<&E> = Vec::new();
        let mut i: usize = 0;
        while i < self.chunks.len()
            invariant
                self.wf(),
                forall|e: &E| #[trigger] pred.requires((e,)),
                i <= self.chunks@.len(),
                forall|m: int|
                    0 <= m < acc@.len() ==> self@.contains_key(key_of(*#[trigger] acc@[m]))
                        && self@[key_of(*acc@[m])] == *acc@[m] && q.selects(key_of(*acc@[m]))
                        && pred.ensures((acc@[m],), true) && self.reached_before(key_of(*acc@[m]), i as int, 0),
                forall|m1: int, m2: int|
                    0 <= m1 < acc@.len() && 0 <= m2 < acc@.len() && m1 != m2 ==> key_of(*#[trigger] acc@[m1])
                        != key_of(*#[trigger] acc@[m2]),
                forall|k: (C::V, I::V)|
                    #[trigger] self@.contains_key(k) && q.selects(k) && self.reached_before(k, i as int, 0)
                        ==> (exists|m: int| 0 <= m < acc@.len() && key_of(*acc@[m]) == k)
                        || pred.ensures((&self@[k],), false),
            decreases self.chunks@.len() - i,
        {
            let chunk = &self.chunks[i];
            proof {
                chunk.lemma_records();
            }
            if q.visits_chunk(chunk.chunk_key()) {
                let mut j: usize = 0;
                while j < chunk.len()
                    invariant
                        self.wf(),
                        forall|e: &E| #[trigger] pred.requires((e,)),
                        i < self.chunks@.len(),
                        *chunk == self.chunks@[i as int],
                        q.selects_chunk(chunk.key()),
                        j <= chunk.records().len(),
                        forall|m: int|
                            0 <= m < acc@.len() ==> self@.contains_key(key_of(*#[trigger] acc@[m]))
                                && self@[key_of(*acc@[m])] == *acc@[m] && q.selects(key_of(*acc@[m]))
                                && pred.ensures((acc@[m],), true) && self.reached_before(key_of(*acc@[m]), i as int, j as int),
                        forall|m1: int, m2: int|
                            0 <= m1 < acc@.len() && 0 <= m2 < acc@.len() && m1 != m2 ==> key_of(*#[trigger] acc@[m1])
                                != key_of(*#[trigger] acc@[m2]),
                        forall|k: (C::V, I::V)|
                            #[trigger] self@.contains_key(k) && q.selects(k) && self.reached_before(k, i as int, j as int)
                                ==> (exists|m: int| 0 <= m < acc@.len() && key_of(*acc@[m]) == k)
                                || pred.ensures((&self@[k],), false),
                    decreases chunk.records().len() - j,
                {
                    let e = chunk.get_at(j);
                    let ghost k = key_of(*e);
                    proof {
                        chunk.lemma_records();
                        assert(self.index@[chunk.key()] == i);
                        assert(self@.contains_key(k));
                    }
                    let ghost acc0 = acc@;
                    if q.visits_item(&e.item_key()) && pred(e) {
                        acc.push(e);
                        proof {
                            assert(acc@[acc@.len() - 1] == e);
                            assert forall|m1: int, m2: int|
                                0 <= m1 < acc@.len() && 0 <= m2 < acc@.len() && m1 != m2 implies key_of(*#[trigger] acc@[m1])
                                    != key_of(*#[trigger] acc@[m2]) by {
                                if m1 < acc0.len() && m2 < acc0.len() {
                                    assert(acc@[m1] == acc0[m1] && acc@[m2] == acc0[m2]);
                                } else if m1 < acc0.len() {
                                    assert(acc@[m1] == acc0[m1]);
                                    assert(self.reached_before(key_of(*acc0[m1]), i as int, j as int));
                                } else if m2 < acc0.len() {
                                    assert(acc@[m2] == acc0[m2]);
                                    assert(self.reached_before(key_of(*acc0[m2]), i as int, j as int));
                                }
                            }
                        }
                    }
                    proof {
                        assert forall|m: int|
                            0 <= m < acc@.len() implies self.reached_before(key_of(*#[trigger] acc@[m]), i as int, j + 1) by {
                            if m < acc0.len() {
                                assert(acc@[m] == acc0[m]);
                            }
                        }
                        assert forall|k2: (C::V, I::V)|
                            #[trigger] self@.contains_key(k2) && q.selects(k2) && self.reached_before(k2, i as int, j + 1)
                                implies (exists|m: int| 0 <= m < acc@.len() && key_of(*acc@[m]) == k2)
                                || pred.ensures((&self@[k2],), false) by {
                            if self.reached_before(k2, i as int, j as int) {
                                if !pred.ensures((&self@[k2],), false) {
                                    let m = choose|m: int| 0 <= m < acc0.len() && key_of(*acc0[m]) == k2;
                                    assert(acc@[m] == acc0[m]);
                                }
                            } else {
                                assert(k2.0 == chunk.key());
                                assert(chunk.position(k2.1) == j);
                                assert(k2 == k);
                                if acc@.len() > acc0.len() {
                                    assert(key_of(*acc@[acc0.len() as int]) == k2);
                                }
                            }
                        }
                    }
                    j += 1;
                }
            }
            proof {
                assert forall|k2: (C::V, I::V)|
                    #[trigger] self@.contains_key(k2) && q.selects(k2) && self.reached_before(k2, i + 1, 0)
                        implies (exists|m: int| 0 <= m < acc@.len() && key_of(*acc@[m]) == k2)
                        || pred.ensures((&self@[k2],), false) by {
                    if !self.reached_before(k2, i as int, 0) {
                        assert(self.index@[k2.0] == i);
                        assert(self.reached_before(k2, i as int, chunk.records().len() as int));
                    }
                }
                assert forall|m: int|
                    0 <= m < acc@.len() implies self.reached_before(key_of(*#[trigger] acc@[m]), i + 1, 0) by {
                    assert(self.index@[key_of(*acc@[m]).0] <= i);
                }
            }
            i += 1;
        }
        proof {
            assert forall|k2: (C::V, I::V)|
                #[trigger] self@.contains_key(k2) && q.selects(k2)
                    implies (exists|m: int| 0 <= m < acc@.len() && key_of(*acc@[m]) == k2)
                    || pred.ensures((&self@[k2],), false) by {
                assert(self.reached_before(k2, i as int, 0));
            }
        }
        acc
    }

    /// The records that the query visits, each once.
    pub fn query(&self, q: &Query<C, I>) -> (r: Vec<&E>)
        requires
            self.wf(),
        ensures
            listing(deref_all(r@), self@, q.key_set()),
    {
        let all = |e: &E| -> (b: bool)
            ensures
                b,
            { true };
        let r = self.collect(q, &all);
        proof {
            self.lemma_collect_all(q, r@);
        }
        r
    }

    proof fn lemma_collect_all(&self, q: &Query<C, I>, r: Seq<&E>)
        requires
            forall|j: int|
                0 <= j < r.len() ==> self@.contains_key(key_of(*#[trigger] r[j])) && self@[key_of(*r[j])]
                    == *r[j] && q.selects(key_of(*r[j])),
            forall|j1: int, j2: int|
                0 <= j1 < r.len() && 0 <= j2 < r.len() && j1 != j2 ==> key_of(*#[trigger] r[j1])
                    != key_of(*#[trigger] r[j2]),
            forall|k: (C::V, I::V)|
                #[trigger] self@.contains_key(k) && q.selects(k) ==> exists|j: int|
                    0 <= j < r.len() && key_of(*r[j]) == k,
        ensures
            listing(deref_all(r), self@, q.key_set()),
    {
        let s = deref_all(r);
        assert forall|j: int| 0 <= j < s.len() implies #[trigger] s[j] == *r[j] by {}
        assert forall|k: (C::V, I::V)| self@.contains_key(k) && #[trigger] q.key_set().contains(k) implies exists|j: int|
            0 <= j < s.len() && key_of(s[j]) == k by {
            assert(q.selects(k));
            let j = choose|j: int| 0 <= j < r.len() && key_of(*r[j]) == k;
            assert(s[j] == *r[j]);
        }
        assert forall|j1: int, j2: int|
            0 <= j1 < s.len() && 0 <= j2 < s.len() && j1 != j2 implies key_of(#[trigger] s[j1]) != key_of(
                #[trigger] s[j2],
            ) by {
            assert(s[j1] == *r[j1] && s[j2] == *r[j2]);
        }
    }

    /// The records that the query visits and the predicate accepts, each once:
    /// a record left out is one that the query does not visit or that the
    /// predicate turned down.
    pub fn query_filter<P: Fn(&E) -> bool>(&self, q: &Query<C, I>, pred: P) -> (r: Vec<&E>)
        requires
            self.wf(),
            forall|e: &E| #[trigger] pred.requires((e,)),
        ensures
            forall|j: int|
                0 <= j < r@.len() ==> self@.contains_key(key_of(*#[trigger] r@[j])) && self@[key_of(*r@[j])]
                    == *r@[j] && q.selects(key_of(*r@[j])) && pred.ensures((r@[j],), true),
            forall|j1: int, j2: int|
                0 <= j1 < r@.len() && 0 <= j2 < r@.len() && j1 != j2 ==> key_of(*#[trigger] r@[j1])
                    != key_of(*#[trigger] r@[j2]),
            forall|k: (C::V, I::V)|
                #[trigger] self@.contains_key(k) && q.selects(k) ==> (exists|j: int|
                    0 <= j < r@.len() && key_of(*r@[j]) == k) || pred.ensures((&self@[k],), false),
    {
        self.collect(q, &pred)
    }

    /// Every record, each once.
    pub fn iter(&self) -> (r: Vec<&E>)
        requires
            self.wf(),
        ensures
            listing(deref_all(r@), self@, self@.dom()),
    {
        let q: Query<C, I> = Query::Everything;
        let r = self.query(&q);
        proof {
            assert(q.key_set() =~= Set::new(|k: (C::V, I::V)| true));
            let s = deref_all(r@);
            assert forall|k: (C::V, I::V)| self@.contains_key(k) && #[trigger] self@.dom().contains(k) implies exists|j: int|
                0 <= j < s.len() && key_of(s[j]) == k by {
                assert(q.key_set().contains(k));
            }
        }
        r
    }

    /// Hand each record that the query visits to `f`; where `f` returns a
    /// record, it takes the place of the one handed over.
    pub fn modify<F: Fn(&E) -> Option<E>>(&mut self, q: &Query<C, I>, f: F)
        requires
            old(self).wf(),
            forall|e: &E| #[trigger] f.requires((e,)),
            forall|e: &E, n: Option<E>| #[trigger] f.ensures((e,), n) && n is Some ==> key_of(n->0) == key_of(*e),
        ensures
            final(self).wf(),
            final(self).compact(),
            final(self).groups().len() <= old(self).groups().len(),
            final(self).spec_id() == old(self).spec_id(),
            old(self).advances(&*final(self)),
            final(self)@.dom() == old(self)@.dom(),
            forall|k: (C::V, I::V)| #[trigger] old(self)@.contains_key(k) && !q.selects(k) ==> final(self)@[k] == old(self)@[k],
            forall|k: (C::V, I::V)| #[trigger] old(self)@.contains_key(k) && q.selects(k) ==> (f.ensures((&old(self)@[k],), None)
                && final(self)@[k] == old(self)@[k]) || f.ensures((&old(self)@[k],), Some(final(self)@[k])),
    {
        let g = self.generation;
        let t: u64 = if g < u64::MAX { g + 1 } else { u64::MAX };
        self.clean(t);
        let ghost start = *self;
        let mut i: usize = 0;
        while i < self.chunks.len()
            invariant
                old(self).touched_only(&*self, t),
                self.wf(),
                self.compact(),
                self.id == old(self).id,
                start.wf(),
                start@ == old(self)@,
                self.index@ == start.index@,
                self.chunks@.len() == start.chunks@.len(),
                forall|i2: int| 0 <= i2 < self.chunks@.len() ==> #[trigger] self.chunks@[i2].key() == start.chunks@[i2].key()
                    && forall|k: I::V| self.chunks@[i2].position(k) == start.chunks@[i2].position(k),
                forall|e: &E| #[trigger] f.requires((e,)),
                forall|e: &E, n: Option<E>| #[trigger] f.ensures((e,), n) && n is Some ==> key_of(n->0) == key_of(*e),
                i <= self.chunks@.len(),
                self@.dom() == start@.dom(),
                forall|k: (C::V, I::V)| #[trigger] start@.contains_key(k) && !(q.selects(k) && self.reached_before(k, i as int, 0))
                    ==> self@[k] == start@[k],
                forall|k: (C::V, I::V)| #[trigger] start@.contains_key(k) && q.selects(k) && self.reached_before(k, i as int, 0)
                    ==> (f.ensures((&start@[k],), None) && self@[k] == start@[k]) || f.ensures((&start@[k],), Some(self@[k])),
            decreases self.chunks@.len() - i,
        {
            if q.visits_chunk(self.chunks[i].chunk_key()) {
                let mut j: usize = 0;
                while j < self.chunks[i].len()
                    invariant
                        old(self).touched_only(&*self, t),
                        self.wf(),
                        self.compact(),
                        self.id == old(self).id,
                        start.wf(),
                        start@ == old(self)@,
                        self.index@ == start.index@,
                        self.chunks@.len() == start.chunks@.len(),
                        forall|i2: int| 0 <= i2 < self.chunks@.len() ==> #[trigger] self.chunks@[i2].key() == start.chunks@[i2].key()
                            && forall|k: I::V| self.chunks@[i2].position(k) == start.chunks@[i2].position(k),
                        forall|e: &E| #[trigger] f.requires((e,)),
                        forall|e: &E, n: Option<E>| #[trigger] f.ensures((e,), n) && n is Some ==> key_of(n->0) == key_of(*e),
                        i < self.chunks@.len(),
                        q.selects_chunk(self.chunks@[i as int].key()),
                        j <= self.chunks@[i as int].records().len(),
                        self@.dom() == start@.dom(),
                        forall|k: (C::V, I::V)| #[trigger] start@.contains_key(k) && !(q.selects(k) && self.reached_before(k, i as int, j as int))
                            ==> self@[k] == start@[k],
                        forall|k: (C::V, I::V)| #[trigger] start@.contains_key(k) && q.selects(k) && self.reached_before(k, i as int, j as int)
                            ==> (f.ensures((&start@[k],), None) && self@[k] == start@[k]) || f.ensures((&start@[k],), Some(self@[k])),
                    decreases self.chunks@[i as int].records().len() - j,
                {
                    let ghost before = *self;
                    let e = self.chunks[i].get_at(j);
                    let ghost k = key_of(*e);
                    proof {
                        self.chunks@[i as int].lemma_records();
                        assert(self.index@[self.chunks@[i as int].key()] == i);
                        assert(self@.contains_key(k));
                        assert(!self.reached_before(k, i as int, j as int));
                        assert(*e == start@[k]);
                    }
                    let visit = q.visits_item(&e.item_key());
                    if visit {
                        match f(e) {
                            Some(n) => {
                                proof {
                                    self.chunks@[i as int].lemma_records();
                                }
                                self.chunks[i].replace_at(j, n);
                                self.chunks[i].set_stamp(t);
                                proof {
                                    before.lemma_touched_one(&*self, i as int, t);
                                    old(self).lemma_touched_trans(&before, &*self, t);
                                    self.lemma_chunk_replaced(before, i as int);
                                    assert(self@ =~= before@.insert(k, n));
                                    self.chunks@[i as int].lemma_records();
                                    assert forall|i2: int|
                                        0 <= i2 < self.chunks@.len() && (#[trigger] self.chunks@[i2]).records().len() == 0
                                            implies self.dirty@.contains(i2 as usize) by {
                                        if i2 != i {
                                            assert(self.chunks@[i2] == before.chunks@[i2]);
                                        }
                                    }
                                    assert forall|i2: int| 0 <= i2 < self.chunks@.len() implies #[trigger] self.chunks@[i2].key() == start.chunks@[i2].key()
                                        && forall|k2: I::V| self.chunks@[i2].position(k2) == start.chunks@[i2].position(k2) by {
                                        if i2 != i {
                                            assert(self.chunks@[i2] == before.chunks@[i2]);
                                        }
                                    }
                                }
                            },
                            None => {},
                        }
                    }
                    proof {
                        assert forall|k2: (C::V, I::V)| #[trigger] start@.contains_key(k2) && !(q.selects(k2) && self.reached_before(k2, i as int, j + 1))
                            implies self@[k2] == start@[k2] by {
                            if k2 != k {
                                assert(self@[k2] == before@[k2]);
                                if self.reached_before(k2, i as int, j + 1) {
                                    assert(self.index@[k2.0] != i || self.chunks@[i as int].position(k2.1) != j);
                                }
                            }
                        }
                        assert forall|k2: (C::V, I::V)| #[trigger] start@.contains_key(k2) && q.selects(k2) && self.reached_before(k2, i as int, j + 1)
                            implies (f.ensures((&start@[k2],), None) && self@[k2] == start@[k2]) || f.ensures((&start@[k2],), Some(self@[k2])) by {
                            if k2 != k {
                                assert(self@[k2] == before@[k2]);
                                if !before.reached_before(k2, i as int, j as int) {
                                    start.chunks@[i as int].lemma_records();
                                    assert(self.index@[k2.0] == i);
                                    assert(self.chunks@[i as int].position(k2.1) == j);
                                    assert(start.chunks@[i as int]@.contains_key(k2.1));
                                    assert(start.chunks@[i as int]@[k2.1].spec_item_key() == k2.1);
                                    assert(start.chunks@[i as int]@.contains_key(k.1));
                                    assert(false);
                                }
                            } else {
                                assert(visit);
                            }
                        }
                    }
                    j += 1;
                }
            }
            proof {
                assert forall|k2: (C::V, I::V)| #[trigger] start@.contains_key(k2) && !(q.selects(k2) && self.reached_before(k2, i + 1, 0))
                    implies self@[k2] == start@[k2] by {
                    if q.selects(k2) && !self.reached_before(k2, i as int, 0) && self.reached_before(k2, i + 1, 0) {
                        assert(self.index@[k2.0] == i);
                        start.chunks@[i as int].lemma_records();
                        assert(q.selects_chunk(self.chunks@[i as int].key()));
                        assert(self.reached_before(k2, i as int, self.chunks@[i as int].records().len() as int));
                    }
                }
                assert forall|k2: (C::V, I::V)| #[trigger] start@.contains_key(k2) && q.selects(k2) && self.reached_before(k2, i + 1, 0)
                    implies (f.ensures((&start@[k2],), None) && self@[k2] == start@[k2]) || f.ensures((&start@[k2],), Some(self@[k2])) by {
                    if !self.reached_before(k2, i as int, 0) {
                        assert(self.index@[k2.0] == i);
                        assert(q.selects_chunk(self.chunks@[i as int].key()));
                        self.chunks@[i as int].lemma_records();
                        assert(self.reached_before(k2, i as int, self.chunks@[i as int].records().len() as int));
                    }
                }
            }
            i += 1;
        }
        proof {
            assert forall|k: (C::V, I::V)| #[trigger] start@.contains_key(k) implies self.reached_before(k, i as int, 0) by {}
        }
        self.bump_from(g);
        proof {
            old(self).lemma_advances(&*self);
        }
    }

    /// Remove the records that the query visits and the predicate accepts,
    /// returning them; every record left that the query visits was turned
    /// down by the predicate.
    pub fn remove<P: Fn(&E) -> bool>(&mut self, q: &Query<C, I>, pred: P) -> (r: Vec<E>)
        requires
            old(self).wf(),
            forall|e: &E| #[trigger] pred.requires((e,)),
        ensures
            final(self).wf(),
            final(self).compact(),
            final(self).groups().len() <= old(self).groups().len(),
            final(self).spec_id() == old(self).spec_id(),
            old(self).advances(&*final(self)),
            forall|j: int|
                0 <= j < r@.len() ==> old(self)@.contains_key(key_of(#[trigger] r@[j])) && old(self)@[key_of(r@[j])]
                    == r@[j] && q.selects(key_of(r@[j])) && pred.ensures((&r@[j],), true),
            forall|j1: int, j2: int|
                0 <= j1 < r@.len() && 0 <= j2 < r@.len() && j1 != j2 ==> key_of(#[trigger] r@[j1])
                    != key_of(#[trigger] r@[j2]),
            forall|k: (C::V, I::V)| #[trigger] old(self)@.contains_key(k) ==> (final(self)@.contains_key(k)
                <==> !exists|j: int| 0 <= j < r@.len() && key_of(r@[j]) == k),
            forall|k: (C::V, I::V)| #[trigger] final(self)@.contains_key(k) ==> old(self)@.contains_key(k)
                && final(self)@[k] == old(self)@[k],
            forall|k: (C::V, I::V)| #[trigger] final(self)@.contains_key(k) && q.selects(k) ==> pred.ensures(
                (&old(self)@[k],),
                false,
            ),
    {
        let g = self.generation;
        let t: u64 = if g < u64::MAX { g + 1 } else { u64::MAX };
        let ghost start = *self;
        let mut acc: Vec<E> = Vec::new();
        let mut i: usize = 0;
        while i < self.chunks.len()
            invariant
                old(self).touched_only(&*self, t),
                self.wf(),
                self.id == old(self).id,
                start@ == old(self)@,
                start.wf_index(),
                self.index@ == start.index@,
                self.chunks@.len() == start.chunks@.len(),
                forall|i2: int| 0 <= i2 < self.chunks@.len() ==> #[trigger] self.chunks@[i2].key() == start.chunks@[i2].key(),
                forall|e: &E| #[trigger] pred.requires((e,)),
                i <= self.chunks@.len(),
                forall|j: int|
                    0 <= j < acc@.len() ==> start@.contains_key(key_of(#[trigger] acc@[j])) && start@[key_of(acc@[j])]
                        == acc@[j] && q.selects(key_of(acc@[j])) && pred.ensures((&acc@[j],), true),
                forall|j1: int, j2: int|
                    0 <= j1 < acc@.len() && 0 <= j2 < acc@.len() && j1 != j2 ==> key_of(#[trigger] acc@[j1])
                        != key_of(#[trigger] acc@[j2]),
                forall|k: (C::V, I::V)| #[trigger] start@.contains_key(k) ==> (self@.contains_key(k)
                    <==> !exists|j: int| 0 <= j < acc@.len() && key_of(acc@[j]) == k),
                forall|k: (C::V, I::V)| #[trigger] self@.contains_key(k) ==> start@.contains_key(k)
                    && self@[k] == start@[k],
                forall|k: (C::V, I::V)| #[trigger] self@.contains_key(k) && q.selects(k) && self.reached_before(k, i as int, 0)
                    ==> pred.ensures((&start@[k],), false),
            decreases self.chunks@.len() - i,
        {
            if q.visits_chunk(self.chunks[i].chunk_key()) {
                let ghost pre = *self;
                self.dirty(i);
                proof {
                    assert(self.dirty@[self.dirty@.len() - 1] == i);
                    assert(self@ =~= pre@);
                }
                let mut j: usize = 0;
                while j < self.chunks[i].len()
                    invariant
                        old(self).touched_only(&*self, t),
                        self.wf(),
                        self.id == old(self).id,
                        start@ == old(self)@,
                        start.wf_index(),
                        self.index@ == start.index@,
                        self.chunks@.len() == start.chunks@.len(),
                        forall|i2: int| 0 <= i2 < self.chunks@.len() ==> #[trigger] self.chunks@[i2].key() == start.chunks@[i2].key(),
                        forall|e: &E| #[trigger] pred.requires((e,)),
                        i < self.chunks@.len(),
                        self.dirty@.contains(i),
                        q.selects_chunk(self.chunks@[i as int].key()),
                        j <= self.chunks@[i as int].records().len(),
                        forall|j: int|
                            0 <= j < acc@.len() ==> start@.contains_key(key_of(#[trigger] acc@[j])) && start@[key_of(acc@[j])]
                                == acc@[j] && q.selects(key_of(acc@[j])) && pred.ensures((&acc@[j],), true),
                        forall|j1: int, j2: int|
                            0 <= j1 < acc@.len() && 0 <= j2 < acc@.len() && j1 != j2 ==> key_of(#[trigger] acc@[j1])
                                != key_of(#[trigger] acc@[j2]),
                        forall|k: (C::V, I::V)| #[trigger] start@.contains_key(k) ==> (self@.contains_key(k)
                            <==> !exists|j: int| 0 <= j < acc@.len() && key_of(acc@[j]) == k),
                        forall|k: (C::V, I::V)| #[trigger] self@.contains_key(k) ==> start@.contains_key(k)
                            && self@[k] == start@[k],
                        forall|k: (C::V, I::V)| #[trigger] self@.contains_key(k) && q.selects(k) && self.reached_before(k, i as int, j as int)
                            ==> pred.ensures((&start@[k],), false),
                    decreases self.chunks@[i as int].records().len() - j,
                {
                    let ghost before = *self;
                    let e = self.chunks[i].get_at(j);
                    let ghost k = key_of(*e);
                    proof {
                        self.chunks@[i as int].lemma_records();
                        assert(self.index@[self.chunks@[i as int].key()] == i);
                        assert(self@.contains_key(k));
                    }
                    if q.visits_item(&e.item_key()) && pred(e) {
                        let ghost acc0 = acc@;
                        let removed = self.chunks[i].remove_at(j);
                        self.chunks[i].set_stamp(t);
                        acc.push(removed);
                        proof {
                            before.lemma_touched_one(&*self, i as int, t);
                            old(self).lemma_touched_trans(&before, &*self, t);
                            self.lemma_chunk_replaced(before, i as int);
                            assert(self@ =~= before@.remove(k));
                            assert(acc@[acc@.len() - 1] == removed);
                            assert forall|i2: int|
                                0 <= i2 < self.chunks@.len() && (#[trigger] self.chunks@[i2]).records().len() == 0
                                    implies self.dirty@.contains(i2 as usize) by {
                                if i2 != i {
                                    assert(self.chunks@[i2] == before.chunks@[i2]);
                                }
                            }
                            assert forall|i2: int| 0 <= i2 < self.chunks@.len() implies #[trigger] self.chunks@[i2].key() == start.chunks@[i2].key() by {
                                if i2 != i {
                                    assert(self.chunks@[i2] == before.chunks@[i2]);
                                }
                            }
                            assert forall|j1: int, j2: int|
                                0 <= j1 < acc@.len() && 0 <= j2 < acc@.len() && j1 != j2 implies key_of(#[trigger] acc@[j1])
                                    != key_of(#[trigger] acc@[j2]) by {
                                if j1 < acc0.len() && j2 < acc0.len() {
                                    assert(acc@[j1] == acc0[j1] && acc@[j2] == acc0[j2]);
                                } else if j1 < acc0.len() {
                                    assert(acc@[j1] == acc0[j1]);
                                    assert(!before@.contains_key(key_of(acc0[j1])));
                                } else if j2 < acc0.len() {
                                    assert(acc@[j2] == acc0[j2]);
                                    assert(!before@.contains_key(key_of(acc0[j2])));
                                }
                            }
                            assert forall|k2: (C::V, I::V)| #[trigger] start@.contains_key(k2) implies (self@.contains_key(k2)
                                <==> !exists|j2: int| 0 <= j2 < acc@.len() && key_of(acc@[j2]) == k2) by {
                                if k2 != k {
                                    if exists|j2: int| 0 <= j2 < acc@.len() && key_of(acc@[j2]) == k2 {
                                        let j2 = choose|j2: int| 0 <= j2 < acc@.len() && key_of(acc@[j2]) == k2;
                                        assert(acc@[j2] == acc0[j2]);
                                    }
                                    if exists|j2: int| 0 <= j2 < acc0.len() && key_of(acc0[j2]) == k2 {
                                        let j2 = choose|j2: int| 0 <= j2 < acc0.len() && key_of(acc0[j2]) == k2;
                                        assert(acc@[j2] == acc0[j2]);
                                    }
                                } else {
                                    assert(key_of(acc@[acc0.len() as int]) == k2);
                                }
                            }
                            assert forall|k2: (C::V, I::V)| #[trigger] self@.contains_key(k2) && q.selects(k2) && self.reached_before(k2, i as int, j as int)
                                implies pred.ensures((&start@[k2],), false) by {
                                assert(before@.contains_key(k2));
                                before.chunks@[i as int].lemma_records();
                                if self.index@[k2.0] == i {
                                    assert(self.chunks@[i as int]@.contains_key(k2.1));
                                    if before.chunks@[i as int].position(k2.1) != self.chunks@[i as int].position(k2.1) {
                                        assert(self.chunks@[i as int].position(k2.1) == j);
                                    }
                                }
                            }
                        }
                    } else {
                        proof {
                            assert forall|k2: (C::V, I::V)| #[trigger] self@.contains_key(k2) && q.selects(k2) && self.reached_before(k2, i as int, j + 1)
                                implies pred.ensures((&start@[k2],), false) by {
                                if !self.reached_before(k2, i as int, j as int) {
                                    self.chunks@[i as int].lemma_records();
                                    assert(self.index@[k2.0] == i);
                                    assert(self.chunks@[i as int].position(k2.1) == j);
                                    assert(k2 == k);
                                }
                            }
                        }
                        j += 1;
                    }
                }
            }
            proof {
                assert forall|k2: (C::V, I::V)| #[trigger] self@.contains_key(k2) && q.selects(k2) && self.reached_before(k2, i + 1, 0)
                    implies pred.ensures((&start@[k2],), false) by {
                    if !self.reached_before(k2, i as int, 0) {
                        assert(self.index@[k2.0] == i);
                        assert(q.selects_chunk(self.chunks@[i as int].key()));
                        self.chunks@[i as int].lemma_records();
                        assert(self.reached_before(k2, i as int, self.chunks@[i as int].records().len() as int));
                    }
                }
            }
            i += 1;
        }
        let ghost swept = *self;
        self.clean(t);
        proof {
            old(self).lemma_touched_trans(&swept, &*self, t);
            assert forall|k: (C::V, I::V)| #[trigger] swept@.contains_key(k) implies swept.reached_before(k, i as int, 0) by {}
        }
        self.bump_from(g);
        proof {
            old(self).lemma_advances(&*self);
        }
        acc
    }

    /// Queue a chunk's position for compaction.
    fn dirty(&mut self, idx: usize)
        requires
            old(self).wf(),
            idx < old(self).chunks@.len(),
        ensures
            final(self).wf(),
            final(self).dirty@ == old(self).dirty@.push(idx),
            final(self).chunks == old(self).chunks,
            final(self).index == old(self).index,
            final(self).id == old(self).id,
    {
        self.dirty.push(idx);
        proof {
            assert forall|i: int|
                0 <= i < self.chunks@.len() && (#[trigger] self.chunks@[i]).records().len() == 0
                    implies self.dirty@.contains(i as usize) by {
                let d = choose|d: int| 0 <= d < old(self).dirty@.len() && old(self).dirty@[d] == i as usize;
                assert(self.dirty@[d] == old(self).dirty@[d]);
            }
            assert(self.dirty@[self.dirty@.len() - 1] == idx);
        }
    }

    /// Recheck every invariant of the storage after compacting it: each chunk
    /// is indexed under its own key and holds a record, and each chunk's
    /// records sit where their item keys say.
    pub fn validate(&mut self) -> (r: bool)
        requires
            old(self).wf(),
        ensures
            r,
            final(self).wf(),
            final(self).compact(),
            final(self)@ == old(self)@,
            final(self).spec_id() == old(self).spec_id(),
            old(self).advances(&*final(self)),
    {
        let g = self.generation;
        let t: u64 = if g < u64::MAX { g + 1 } else { u64::MAX };
        self.clean(t);
        self.bump_from(g);
        proof {
            old(self).lemma_advances(&*self);
        }
        proof {
            self.lemma_compact_chunk_keys();
        }
        let mut i: usize = 0;
        while i < self.chunks.len()
            invariant
                self.wf(),
                self.compact(),
                i <= self.chunks@.len(),
            decreases self.chunks@.len() - i,
        {
            proof {
                self.lemma_compact_chunk_keys();
            }
            match self.internal_idx_of(self.chunks[i].chunk_key()) {
                Some(p) => {
                    if p != i {
                        return false;
                    }
                },
                None => {
                    return false;
                },
            }
            if self.chunks[i].is_empty() {
                return false;
            }
            if !self.chunks[i].validate() {
                return false;
            }
            i += 1;
        }
        true
    }

    /// A handle on the record with the identity of `unique_id`, which may or
    /// may not be held.
    pub fn entry<R: Record<C, I>>(&self, unique_id: &R) -> (r: Entry<C, I>)
        ensures
            r.chunk@ == unique_id.spec_chunk_key(),
            r.item@ == unique_id.spec_item_key(),
    {
        Entry { chunk: unique_id.chunk_key(), item: unique_id.item_key() }
    }

    /// Forget what `data` holds for chunks that have gone since the last call.
    ///
    /// `chunk_list` is the snapshot of chunk keys that the previous call left;
    /// an entry of `data` is dropped when its chunk key was in that snapshot
    /// and is no longer held. The snapshot is then renewed. Entries for keys
    /// that the snapshot never named are kept.
    pub fn gc<T>(&self, chunk_list: &mut Vec<Option<C>>, data: &mut Vec<(C, T)>)
        requires
            self.wf(),
        ensures
            final(chunk_list)@.len() == self.groups().len(),
            forall|p: int| 0 <= p < final(chunk_list)@.len() ==> (#[trigger] final(chunk_list)@[p]) is Some,
            snapshot_keys(final(chunk_list)@) == self.chunk_key_set(),
            final(data)@ == old(data)@.filter(
                |e: (C, T)|
                    !(snapshot_keys(old(chunk_list)@).contains(e.0@) && !self.chunk_key_set().contains(e.0@)),
            ),
    {
        let ghost before = snapshot_keys(chunk_list@);
        let ghost keep = |e: (C, T)| !(before.contains(e.0@) && !self.chunk_key_set().contains(e.0@));
        let ghost orig = data@;
        let mut taken: Vec<(C, T)> = Vec::new();
        core::mem::swap(data, &mut taken);
        let mut pending = reversed(taken);
        let mut kept: Vec<(C, T)> = Vec::new();
        proof {
            assert(orig.take(0) =~= Seq::<(C, T)>::empty());
        }
        while pending.len() > 0
            invariant
                self.wf(),
                before == snapshot_keys(chunk_list@),
                keep == (|e: (C, T)| !(before.contains(e.0@) && !self.chunk_key_set().contains(e.0@))),
                pending@.len() <= orig.len(),
                forall|j: int| 0 <= j < pending@.len() ==> #[trigger] pending@[j] == orig[orig.len() - 1 - j],
                kept@ == orig.take(orig.len() - pending@.len()).filter(keep),
            decreases pending@.len(),
        {
            let e = pending.pop().unwrap();
            let ghost t = orig.len() - 1 - pending@.len();
            assert(e == orig[t]);
            let mut in_snapshot = false;
            let mut p: usize = 0;
            while p < chunk_list.len()
                invariant
                    p <= chunk_list@.len(),
                    in_snapshot == exists|q: int| 0 <= q < p && (#[trigger] chunk_list@[q]) is Some && chunk_list@[q]->0@ == e.0@,
                decreases chunk_list@.len() - p,
            {
                match &chunk_list[p] {
                    Some(k) => {
                        if k.key_eq(&e.0) {
                            in_snapshot = true;
                        }
                    },
                    None => {},
                }
                proof {
                    if chunk_list@[p as int] is Some && chunk_list@[p as int]->0@ == e.0@ {
                        assert(in_snapshot);
                    }
                }
                p += 1;
            }
            assert(in_snapshot == before.contains(e.0@));
            let held = self.internal_idx_of(&e.0).is_some();
            proof {
                assert(orig.take(t + 1).drop_last() =~= orig.take(t));
                assert(orig.take(t + 1).last() == e);
            }
            proof {
                reveal(Seq::filter);
                assert(keep(e) == !(in_snapshot && !held));
                assert(orig.take(t + 1).filter(keep) == (if keep(e) {
                    orig.take(t).filter(keep).push(e)
                } else {
                    orig.take(t).filter(keep)
                }));
            }
            if !(in_snapshot && !held) {
                kept.push(e);
            }
        }
        proof {
            assert(orig.take(orig.len() as int) =~= orig);
        }
        *data = kept;
        let mut snapshot: Vec<Option<C>> = Vec::new();
        let mut i: usize = 0;
        while i < self.chunks.len()
            invariant
                self.wf(),
                i <= self.chunks@.len(),
                snapshot@.len() == i,
                forall|q: int| 0 <= q < i ==> (#[trigger] snapshot@[q]) is Some && snapshot@[q]->0@ == self.chunks@[q].key(),
            decreases self.chunks@.len() - i,
        {
            snapshot.push(Some(self.chunks[i].chunk_key().key_clone()));
            i += 1;
        }
        proof {
            assert forall|c: C::V| #[trigger] snapshot_keys(snapshot@).contains(c) == self.chunk_key_set().contains(c) by {
                if self.chunk_key_set().contains(c) {
                    let q = self.index@[c] as int;
                    assert(snapshot@[q] is Some && snapshot@[q]->0@ == c);
                }
            }
            assert(snapshot_keys(snapshot@) =~= self.chunk_key_set());
        }
        *chunk_list = snapshot;
    }

    /// The position of the chunk with the given key, if it is held.
    pub(crate) fn internal_idx_of(&self, chunk_key: &C) -> (r: Option<usize>)
        requires
            self.wf(),
        ensures
            r is Some <==> self.chunk_key_set().contains(chunk_key@),
            r is Some ==> r->0 == self.chunk_position(chunk_key@),
    {
        self.internal_idx_of_core(chunk_key)
    }

    fn internal_idx_of_core(&self, chunk_key: &C) -> (r: Option<usize>)
        requires
            self.wf_index(),
        ensures
            r is Some <==> self.chunk_key_set().contains(chunk_key@),
            r is Some ==> r->0 == self.chunk_position(chunk_key@),
    {
        let mut i: usize = 0;
        while i < self.chunks.len()
            invariant
                self.wf_index(),
                i <= self.chunks@.len(),
                forall|m: int| 0 <= m < i ==> (#[trigger] self.chunks@[m]).key() != chunk_key@,
            decreases self.chunks@.len() - i,
        {
            if self.chunks[i].chunk_key().key_eq(chunk_key) {
                return Some(i);
            }
            i += 1;
        }
        proof {
            if self.index@.contains_key(chunk_key@) {
                let p = self.index@[chunk_key@] as int;
                assert(self.chunks@[p].key() == chunk_key@);
            }
        }
        None
    }
}

} // verus!

verus! {

/// One chunk key and item key, whose record may or may not be held.
pub struct Entry<C, I> {
    pub chunk: C,
    pub item: I,
}

impl<C: Key, I: Key> Entry<C, I> {
    pub open spec fn key(&self) -> (C::V, I::V) {
        (self.chunk@, self.item@)
    }

    /// The record, if it is held.
    pub fn get<'a, E: Record<C, I>>(&self, storage: &'a Storage<C, I, E>) -> (r: Option<&'a E>)
        requires
            storage.wf(),
        ensures
            r is Some <==> storage@.contains_key(self.key()),
            r is Some ==> *r->0 == storage@[self.key()],
    {
        let id = Id { chunk: self.chunk.key_clone(), item: self.item.key_clone() };
        storage.get(&id)
    }

    /// Where the record is held, hand it to `f` and store what `f` returns in
    /// its place. Returns whether the record was held.
    pub fn and_modify<E: Record<C, I>, F: Fn(&E) -> E>(&self, storage: &mut Storage<C, I, E>, f: F) -> (r: bool)
        requires
            old(storage).wf(),
            forall|e: &E| #[trigger] f.requires((e,)),
            forall|e: &E, n: E| #[trigger] f.ensures((e,), n) ==> key_of(n) == key_of(*e),
        ensures
            final(storage).wf(),
            final(storage).compact(),
            final(storage).groups().len() <= old(storage).groups().len(),
            final(storage).spec_id() == old(storage).spec_id(),
            old(storage).advances(&*final(storage)),
            r == old(storage)@.contains_key(self.key()),
            !r ==> final(storage)@ == old(storage)@,
            r ==> final(storage)@ == old(storage)@.insert(self.key(), final(storage)@[self.key()])
                && f.ensures((&old(storage)@[self.key()],), final(storage)@[self.key()]),
    {
        storage.modify_one(&self.chunk, &self.item, f)
    }

    /// Where no record is held, store the one that `f` builds. Returns
    /// whether a record was added.
    pub fn or_insert_with<E: Record<C, I>, F: Fn() -> E>(&self, storage: &mut Storage<C, I, E>, f: F) -> (r: bool)
        requires
            old(storage).wf(),
            old(storage).groups().len() < usize::MAX,
            f.requires(()),
            forall|n: E| #[trigger] f.ensures((), n) ==> key_of(n) == self.key(),
        ensures
            final(storage).wf(),
            final(storage).compact(),
            final(storage).groups().len() <= old(storage).groups().len() + 1,
            final(storage).spec_id() == old(storage).spec_id(),
            old(storage).advances(&*final(storage)),
            r == !old(storage)@.contains_key(self.key()),
            !r ==> final(storage)@ == old(storage)@,
            r ==> final(storage)@ == old(storage)@.insert(self.key(), final(storage)@[self.key()])
                && f.ensures((), final(storage)@[self.key()]),
    {
        storage.insert_with(&self.chunk, &self.item, f)
    }
}

impl<C: Key, I: Key, E: Record<C, I>> Storage<C, I, E> {
    fn modify_one<F: Fn(&E) -> E>(&mut self, ck: &C, ik: &I, f: F) -> (r: bool)
        requires
            old(self).wf(),
            forall|e: &E| #[trigger] f.requires((e,)),
            forall|e: &E, n: E| #[trigger] f.ensures((e,), n) ==> key_of(n) == key_of(*e),
        ensures
            final(self).wf(),
            final(self).compact(),
            final(self).chunks@.len() <= old(self).chunks@.len(),
            final(self).id == old(self).id,
            old(self).advances(&*final(self)),
            r == old(self)@.contains_key((ck@, ik@)),
            !r ==> final(self)@ == old(self)@,
            r ==> final(self)@ == old(self)@.insert((ck@, ik@), final(self)@[(ck@, ik@)])
                && f.ensures((&old(self)@[(ck@, ik@)],), final(self)@[(ck@, ik@)]),
    {
        let g = self.generation;
        let t: u64 = if g < u64::MAX { g + 1 } else { u64::MAX };
        self.clean(t);
        match self.internal_idx_of(ck) {
            None => {
                self.bump_from(g);
                proof {
                    old(self).lemma_advances(&*self);
                }
                false
            },
            Some(idx) => match self.chunks[idx].position_of(ik) {
                None => {
                    self.bump_from(g);
                    proof {
                        old(self).lemma_advances(&*self);
                    }
                    false
                },
                Some(j) => {
                    let ghost before = *self;
                    proof {
                        self.chunks@[idx as int].lemma_records();
                    }
                    let n = f(self.chunks[idx].get_at(j));
                    self.chunks[idx].replace_at(j, n);
                    self.chunks[idx].set_stamp(t);
                    proof {
                        before.lemma_touched_one(&*self, idx as int, t);
                        old(self).lemma_touched_trans(&before, &*self, t);
                        self.lemma_chunk_replaced(before, idx as int);
                        assert(self@ =~= before@.insert((ck@, ik@), n));
                        self.chunks@[idx as int].lemma_records();
                        assert forall|i2: int|
                            0 <= i2 < self.chunks@.len() && (#[trigger] self.chunks@[i2]).records().len() == 0
                                implies self.dirty@.contains(i2 as usize) by {
                            if i2 != idx {
                                assert(self.chunks@[i2] == before.chunks@[i2]);
                            }
                        }
                    }
                    self.bump_from(g);
                    proof {
                        old(self).lemma_advances(&*self);
                    }
                    true
                },
            },
        }
    }

    fn insert_with<F: Fn() -> E>(&mut self, ck: &C, ik: &I, f: F) -> (r: bool)
        requires
            old(self).wf(),
            old(self).chunks@.len() < usize::MAX,
            f.requires(()),
            forall|n: E| #[trigger] f.ensures((), n) ==> key_of(n) == (ck@, ik@),
        ensures
            final(self).wf(),
            final(self).compact(),
            final(self).chunks@.len() <= old(self).chunks@.len() + 1,
            final(self).id == old(self).id,
            old(self).advances(&*final(self)),
            r == !old(self)@.contains_key((ck@, ik@)),
            !r ==> final(self)@ == old(self)@,
            r ==> final(self)@ == old(self)@.insert((ck@, ik@), final(self)@[(ck@, ik@)])
                && f.ensures((), final(self)@[(ck@, ik@)]),
    {
        let g = self.generation;
        let t: u64 = if g < u64::MAX { g + 1 } else { u64::MAX };
        self.clean(t);
        let id = Id { chunk: ck.key_clone(), item: ik.key_clone() };
        if self.get(&id).is_some() {
            self.bump_from(g);
        proof {
            old(self).lemma_advances(&*self);
        }
            false
        } else {
            let n = f();
            self.add_one(n, t);
            self.bump_from(g);
        proof {
            old(self).lemma_advances(&*self);
        }
            true
        }
    }
}

} // verus!
