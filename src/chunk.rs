use crate::record::{Key, Record};
use vstd::prelude::*;

verus! {

/// The records of one chunk, with the position of each item key.
pub struct ChunkStorage<C: Key, I: Key, E: Record<C, I>> {
    chunk_key: C,
    stamp: u64,
    items: Vec<E>,
    positions: Ghost<Map<I::V, nat>>,
    _marker: core::marker::PhantomData<I>,
}

impl<C: Key, I: Key, E: Record<C, I>> ChunkStorage<C, I, E> {
    /// The chunk's records, keyed by item key.
    pub closed spec fn view(&self) -> Map<I::V, E> {
        Map::new(
            |k: I::V| self.positions@.contains_key(k),
            |k: I::V| self.items@[self.positions@[k] as int],
        )
    }

    /// The generation of the storage's last change to this chunk.
    pub closed spec fn spec_stamp(&self) -> u64 {
        self.stamp
    }

    pub closed spec fn key(&self) -> C::V {
        self.chunk_key@
    }

    /// The records in storage order.
    pub closed spec fn records(&self) -> Seq<E> {
        self.items@
    }

    /// Where the record with the given item key stands.
    pub closed spec fn position(&self, k: I::V) -> nat {
        self.positions@[k]
    }

    pub closed spec fn wf(&self) -> bool {
        &&& forall|k: I::V| #[trigger]
            self.positions@.contains_key(k) ==> self.positions@[k] < self.items@.len()
                && self.items@[self.positions@[k] as int].spec_item_key() == k
        &&& forall|j: int|
            0 <= j < self.items@.len() ==> self.positions@.contains_key(
                #[trigger] self.items@[j].spec_item_key(),
            ) && self.positions@[self.items@[j].spec_item_key()] == j
        &&& forall|j: int|
            0 <= j < self.items@.len() ==> (#[trigger] self.items@[j]).spec_chunk_key()
                == self.chunk_key@
    }

    pub proof fn lemma_records(&self)
        requires
            self.wf(),
        ensures
            (self.records().len() == 0) == (self.view() == Map::<I::V, E>::empty()),
            forall|j: int|
                0 <= j < self.records().len() ==> self.view().contains_key(
                    (#[trigger] self.records()[j]).spec_item_key(),
                ) && self.view()[self.records()[j].spec_item_key()] == self.records()[j]
                    && self.records()[j].spec_chunk_key() == self.key()
                    && self.position(self.records()[j].spec_item_key()) == j,
            forall|k: I::V| #[trigger]
                self.view().contains_key(k) ==> 0 <= self.position(k) < self.records().len()
                    && self.records()[self.position(k) as int] == self.view()[k],
            forall|j1: int, j2: int|
                0 <= j1 < self.records().len() && 0 <= j2 < self.records().len() && j1 != j2
                    ==> (#[trigger] self.records()[j1]).spec_item_key()
                    != (#[trigger] self.records()[j2]).spec_item_key(),
            forall|k: I::V| #[trigger]
                self.view().contains_key(k) ==> self.view()[k].spec_item_key() == k
                    && self.view()[k].spec_chunk_key() == self.key(),
    {
        if self.records().len() == 0 {
            assert(self.view() =~= Map::<I::V, E>::empty());
        } else {
            let k = self.records()[0].spec_item_key();
            assert(self.view().contains_key(k));
        }
    }

    pub fn new(chunk_key: C, stamp: u64) -> (r: Self)
        ensures
            r.wf(),
            r.spec_stamp() == stamp,
            r@ == Map::<I::V, E>::empty(),
            r.key() == chunk_key@,
            r.records().len() == 0,
    {
        let r = ChunkStorage {
            chunk_key,
            stamp,
            items: Vec::new(),
            positions: Ghost(Map::empty()),
            _marker: core::marker::PhantomData,
        };
        assert(r@ =~= Map::<I::V, E>::empty());
        r
    }

    /// Record the generation of a change to this chunk.
    pub fn set_stamp(&mut self, stamp: u64)
        ensures
            final(self).spec_stamp() == stamp,
            final(self).key() == old(self).key(),
            final(self).records() == old(self).records(),
            final(self)@ == old(self)@,
            old(self).wf() ==> final(self).wf(),
            forall|k: I::V| #[trigger] final(self).position(k) == old(self).position(k),
    {
        self.stamp = stamp;
        assert(self@ =~= old(self)@);
    }

    /// The generation of the last change to this chunk.
    pub fn stamp(&self) -> (r: u64)
        ensures
            r == self.spec_stamp(),
    {
        self.stamp
    }

    pub fn chunk_key(&self) -> (r: &C)
        ensures
            r@ == self.key(),
    {
        &self.chunk_key
    }

    pub fn len(&self) -> (r: usize)
        requires
            self.wf(),
        ensures
            r == self.records().len(),
    {
        proof {
            self.lemma_records();
        }
        self.items.len()
    }

    pub fn is_empty(&self) -> (r: bool)
        requires
            self.wf(),
        ensures
            r == (self@ == Map::<I::V, E>::empty()),
            r == (self.records().len() == 0),
    {
        proof {
            self.lemma_records();
        }
        self.items.len() == 0
    }

    /// The position of the record with the given item key, if there is one.
    pub fn position_of(&self, item_key: &I) -> (r: Option<usize>)
        requires
            self.wf(),
        ensures
            r is Some <==> self@.contains_key(item_key@),
            r is Some ==> r->0 < self.records().len() && self.records()[r->0 as int]
                == self@[item_key@],
    {
        let mut j: usize = 0;
        while j < self.items.len()
            invariant
                self.wf(),
                j <= self.items@.len(),
                forall|m: int| 0 <= m < j ==> (#[trigger] self.items@[m]).spec_item_key() != item_key@,
            decreases self.items@.len() - j,
        {
            let k = self.items[j].item_key();
            if k.key_eq(item_key) {
                return Some(j);
            }
            j += 1;
        }
        proof {
            if self.positions@.contains_key(item_key@) {
                let p = self.positions@[item_key@] as int;
                assert(self.items@[p].spec_item_key() == item_key@);
            }
        }
        None
    }

    pub fn get(&self, item_key: &I) -> (r: Option<&E>)
        requires
            self.wf(),
        ensures
            r is Some <==> self@.contains_key(item_key@),
            r is Some ==> *r->0 == self@[item_key@],
    {
        match self.position_of(item_key) {
            Some(j) => Some(&self.items[j]),
            None => None,
        }
    }

    pub fn get_at(&self, j: usize) -> (r: &E)
        requires
            self.wf(),
            j < self.records().len(),
        ensures
            *r == self.records()[j as int],
    {
        &self.items[j]
    }
    /// Insert a record, replacing any record with the same item key.
    pub fn add(&mut self, e: E)
        requires
            old(self).wf(),
            e.spec_chunk_key() == old(self).key(),
        ensures
            final(self).wf(),
            final(self).spec_stamp() == old(self).spec_stamp(),
            final(self).key() == old(self).key(),
            final(self)@ == old(self)@.insert(e.spec_item_key(), e),
    {
        let k = e.item_key();
        match self.position_of(&k) {
            Some(j) => {
                self.items.set(j, e);
                proof {
                    assert forall|j2: int|
                        0 <= j2 < self.items@.len() implies self.positions@.contains_key(
                            #[trigger] self.items@[j2].spec_item_key(),
                        ) && self.positions@[self.items@[j2].spec_item_key()] == j2 by {
                        if j2 != j {
                            assert(old(self).items@[j2] == self.items@[j2]);
                        }
                    }
                }
            },
            None => {
                let ghost n = self.items@.len();
                self.items.push(e);
                self.positions = Ghost(self.positions@.insert(k@, n));
                proof {
                    assert forall|j2: int|
                        0 <= j2 < self.items@.len() implies self.positions@.contains_key(
                            #[trigger] self.items@[j2].spec_item_key(),
                        ) && self.positions@[self.items@[j2].spec_item_key()] == j2 by {
                        if j2 < n {
                            assert(old(self).items@[j2] == self.items@[j2]);
                            assert(old(self).positions@.contains_key(self.items@[j2].spec_item_key()));
                        }
                    }
                    assert forall|j2: int|
                        0 <= j2 < self.items@.len() implies (#[trigger] self.items@[j2]).spec_chunk_key()
                            == self.chunk_key@ by {
                        if j2 < n {
                            assert(old(self).items@[j2] == self.items@[j2]);
                        }
                    }
                }
            },
        }
        assert(self@ =~= old(self)@.insert(k@, e));
    }

    /// Replace the record at a position by one with the same keys.
    pub fn replace_at(&mut self, j: usize, e: E)
        requires
            old(self).wf(),
            j < old(self).records().len(),
            e.spec_chunk_key() == old(self).key(),
            e.spec_item_key() == old(self).records()[j as int].spec_item_key(),
        ensures
            final(self).wf(),
            final(self).spec_stamp() == old(self).spec_stamp(),
            final(self).key() == old(self).key(),
            final(self)@ == old(self)@.insert(e.spec_item_key(), e),
            final(self).records() == old(self).records().update(j as int, e),
            forall|k: I::V| #[trigger] final(self).position(k) == old(self).position(k),
    {
        self.items.set(j, e);
        proof {
            assert forall|j2: int|
                0 <= j2 < self.items@.len() implies self.positions@.contains_key(
                    #[trigger] self.items@[j2].spec_item_key(),
                ) && self.positions@[self.items@[j2].spec_item_key()] == j2 by {
                if j2 != j {
                    assert(old(self).items@[j2] == self.items@[j2]);
                }
            }
        }
        assert(self@ =~= old(self)@.insert(e.spec_item_key(), e));
    }

    /// Remove the record at a position; the last record takes its place.
    pub fn remove_at(&mut self, j: usize) -> (r: E)
        requires
            old(self).wf(),
            j < old(self).records().len(),
        ensures
            final(self).wf(),
            final(self).spec_stamp() == old(self).spec_stamp(),
            final(self).key() == old(self).key(),
            r == old(self).records()[j as int],
            final(self)@ == old(self)@.remove(r.spec_item_key()),
            final(self).records() == old(self).records().update(
                j as int,
                old(self).records().last(),
            ).drop_last(),
            forall|k: I::V| #[trigger]
                final(self)@.contains_key(k) ==> final(self).position(k) == old(self).position(k)
                    || (final(self).position(k) == j && old(self).position(k) == old(self).records().len() - 1),
    {
        let ghost last = (self.items@.len() - 1) as int;
        let ghost lk = self.items@[last].spec_item_key();
        let r = self.items.swap_remove(j);
        let ghost rk = r.spec_item_key();
        proof {
            if j < last {
                self.positions@ = self.positions@.remove(rk).insert(lk, j as nat);
            } else {
                self.positions@ = self.positions@.remove(rk);
            }
            assert forall|j2: int|
                0 <= j2 < self.items@.len() implies self.positions@.contains_key(
                    #[trigger] self.items@[j2].spec_item_key(),
                ) && self.positions@[self.items@[j2].spec_item_key()] == j2 by {
                if j2 != j {
                    assert(old(self).items@[j2] == self.items@[j2]);
                    assert(old(self).positions@[old(self).items@[j2].spec_item_key()] == j2);
                } else {
                    assert(self.items@[j2] == old(self).items@[last]);
                }
            }
            assert forall|k: I::V| #[trigger]
                self.positions@.contains_key(k) implies self.positions@[k] < self.items@.len()
                    && self.items@[self.positions@[k] as int].spec_item_key() == k by {
                if k != lk {
                    let p = old(self).positions@[k] as int;
                    assert(old(self).items@[p].spec_item_key() == k);
                    assert(p != j);
                    assert(p != last);
                }
            }
            assert forall|j2: int|
                0 <= j2 < self.items@.len() implies (#[trigger] self.items@[j2]).spec_chunk_key()
                    == self.chunk_key@ by {
                if j2 != j {
                    assert(old(self).items@[j2] == self.items@[j2]);
                } else {
                    assert(self.items@[j2] == old(self).items@[last]);
                }
            }
            assert forall|k: I::V| self@.contains_key(k) implies #[trigger] self@[k]
                == old(self)@.remove(rk)[k] by {
                if k != lk {
                    let p = old(self).positions@[k] as int;
                    assert(old(self).items@[p].spec_item_key() == k);
                    assert(p != j);
                    assert(p != last);
                    assert(self.items@[p] == old(self).items@[p]);
                }
            }
            assert(self@ =~= old(self)@.remove(rk));
        }
        r
    }

    /// Give up the chunk, returning its records in storage order.
    pub fn into_records(self) -> (r: Vec<E>)
        ensures
            r@ == self.records(),
    {
        self.items
    }

    /// The chunk's records in storage order.
    pub fn raw(&self) -> (r: &[E])
        ensures
            r@ == self.records(),
    {
        self.items.as_slice()
    }
    /// Recheck that each record sits where its item key says and carries the
    /// chunk's key.
    pub fn validate(&self) -> (r: bool)
        requires
            self.wf(),
        ensures
            r,
    {
        let mut j: usize = 0;
        while j < self.items.len()
            invariant
                self.wf(),
                j <= self.items@.len(),
            decreases self.items@.len() - j,
        {
            let k = self.items[j].item_key();
            match self.position_of(&k) {
                Some(p) => {
                    if p != j {
                        return false;
                    }
                },
                None => {
                    return false;
                },
            }
            if !self.items[j].chunk_key().key_eq(&self.chunk_key) {
                return false;
            }
            j += 1;
        }
        true
    }
}

} // verus!
