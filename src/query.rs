use crate::record::Key;
use vstd::prelude::*;

verus! {

/// Which records to visit.
pub enum Query<C, I> {
    /// Every record.
    Everything,
    /// The records of the listed chunks; keys that are not held add nothing.
    Chunks(Vec<C>),
    /// The one record with this chunk key and item key.
    Id(C, I),
}

impl<C: Key, I: Key> Query<C, I> {
    /// The query visits the chunk with this key.
    pub open spec fn selects_chunk(&self, c: C::V) -> bool {
        match self {
            Query::Everything => true,
            Query::Chunks(list) => exists|j: int| 0 <= j < list@.len() && (#[trigger] list@[j])@ == c,
            Query::Id(ck, _) => ck@ == c,
        }
    }

    /// Within a visited chunk, the query visits the item with this key.
    pub open spec fn selects_item(&self, i: I::V) -> bool {
        match self {
            Query::Id(_, ik) => ik@ == i,
            _ => true,
        }
    }

    /// The query visits the record with these keys.
    pub open spec fn selects(&self, k: (C::V, I::V)) -> bool {
        self.selects_chunk(k.0) && self.selects_item(k.1)
    }

    /// The identities that the query visits.
    pub open spec fn key_set(&self) -> Set<(C::V, I::V)> {
        Set::new(|k: (C::V, I::V)| self.selects(k))
    }

    pub fn visits_chunk(&self, c: &C) -> (r: bool)
        ensures
            r == self.selects_chunk(c@),
    {
        match self {
            Query::Everything => true,
            Query::Chunks(list) => {
                let mut j: usize = 0;
                while j < list.len()
                    invariant
                        self is Chunks,
                        self->Chunks_0 == *list,
                        j <= list@.len(),
                        forall|m: int| 0 <= m < j ==> (#[trigger] list@[m])@ != c@,
                    decreases list@.len() - j,
                {
                    if list[j].key_eq(c) {
                        assert((list@[j as int])@ == c@);
                        return true;
                    }
                    j += 1;
                }
                false
            },
            Query::Id(ck, _) => ck.key_eq(c),
        }
    }

    pub fn visits_item(&self, i: &I) -> (r: bool)
        ensures
            r == self.selects_item(i@),
    {
        match self {
            Query::Id(_, ik) => ik.key_eq(i),
            _ => true,
        }
    }
}

} // verus!
