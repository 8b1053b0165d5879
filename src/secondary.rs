use crate::record::{key_of, Key, Record};
use crate::query::Query;
use crate::storage::Storage;
use vstd::prelude::*;

verus! {

/// A projection's result matches a derived key.
pub open spec fn hits<K: Key>(p: Option<K>, key: K::V) -> bool {
    p is Some && p->0@ == key
}

/// A derived index over one storage: for each record, the key that a
/// projection gives it, if any. It is brought up to date lazily, when it is
/// next asked, and then only for the chunk positions that changed since.
pub struct SecondaryIndex<C, I, E, K, F> {
    storage_id: u64,
    generation: u64,
    fresh: bool,
    projection: F,
    cache: Vec<Vec<Option<K>>>,
    synced: Ghost<Seq<Seq<E>>>,
    _marker: core::marker::PhantomData<(C, I)>,
}

impl<C: Key, I: Key, E: Record<C, I>, K: Key, F: Fn(&E) -> Option<K>> SecondaryIndex<C, I, E, K, F> {
    pub closed spec fn projection(&self) -> F {
        self.projection
    }

    /// The identity of the storage that the index was built for.
    pub closed spec fn spec_storage_id(&self) -> u64 {
        self.storage_id
    }

    pub closed spec fn wf(&self) -> bool {
        &&& self.cache@.len() == self.synced@.len()
        &&& forall|i: int| 0 <= i < self.cache@.len() ==> (#[trigger] self.cache@[i])@.len() == self.synced@[i].len()
        &&& forall|i: int, j: int|
            0 <= i < self.cache@.len() && 0 <= j < self.cache@[i]@.len() ==> self.projection.ensures(
                (&self.synced@[i][j],),
                #[trigger] self.cache@[i]@[j],
            )
    }

    /// Each row of the index that its next lookup would keep is right for the
    /// storage as it stands: a row is kept where the index was filled for this
    /// storage at a generation short of the last, and no change stamped later
    /// than that generation reached the row's position.
    pub closed spec fn consistent(&self, storage: &Storage<C, I, E>) -> bool {
        self.storage_id == storage.spec_id() ==> (self.fresh ==> self.generation
            <= storage.spec_generation() && (self.generation != u64::MAX ==> forall|i: int|
            0 <= i < self.synced@.len() && i < storage.groups().len() && storage.stamps()[i]
                <= self.generation ==> #[trigger] self.synced@[i] == storage.groups()[i]))
    }

    /// An index over `storage` by the given projection; it is filled when it
    /// is first asked.
    pub fn new(storage: &Storage<C, I, E>, projection: F) -> (r: Self)
        ensures
            r.wf(),
            r.consistent(storage),
            r.projection() == projection,
            r.spec_storage_id() == storage.spec_id(),
    {
        SecondaryIndex {
            storage_id: storage.id(),
            generation: 0,
            fresh: false,
            projection,
            cache: Vec::new(),
            synced: Ghost(Seq::empty()),
            _marker: core::marker::PhantomData,
        }
    }

    /// Bring the index up to date with the storage: project again the records
    /// of each position that changed since the index was last filled, and keep
    /// the other rows.
    fn sync(&mut self, storage: &Storage<C, I, E>)
        requires
            old(self).wf(),
            old(self).consistent(storage),
            old(self).storage_id == storage.spec_id(),
            storage.wf(),
            forall|e: &E| #[trigger] old(self).projection.requires((e,)),
        ensures
            final(self).wf(),
            final(self).consistent(storage),
            final(self).synced@ == storage.groups(),
            final(self).projection == old(self).projection,
            final(self).storage_id == old(self).storage_id,
    {
        let current = storage.generation();
        let trusted = self.fresh && self.generation != u64::MAX;
        let chunks = storage.internal_rvec();
        let n = chunks.len();
        self.cache.truncate(n);
        let ghost old_synced = self.synced@;
        proof {
            if n <= old_synced.len() {
                self.synced@ = old_synced.subrange(0, n as int);
            }
        }
        let l0 = self.cache.len();
        let mut i: usize = 0;
        while i < n
            invariant
                old(self).wf(),
                old(self).consistent(storage),
                old(self).storage_id == storage.spec_id(),
                storage.wf(),
                trusted == (old(self).fresh && old(self).generation != u64::MAX),
                self.generation == old(self).generation,
                self.projection == old(self).projection,
                self.storage_id == old(self).storage_id,
                forall|e: &E| #[trigger] self.projection.requires((e,)),
                n == chunks@.len(),
                chunks@.len() == storage.groups().len(),
                forall|i2: int| 0 <= i2 < chunks@.len() ==> (#[trigger] chunks@[i2]).wf() && chunks@[i2].records()
                    == storage.groups()[i2] && chunks@[i2].spec_stamp() == storage.stamps()[i2],
                l0 <= n,
                l0 <= old_synced.len(),
                old_synced == old(self).synced@,
                i <= n,
                self.cache@.len() == self.synced@.len(),
                self.cache@.len() == (if i < l0 { l0 as int } else { i as int }),
                forall|i2: int| 0 <= i2 < i ==> #[trigger] self.synced@[i2] == storage.groups()[i2],
                forall|i2: int| i <= i2 < l0 ==> #[trigger] self.synced@[i2] == old_synced[i2],
                forall|i2: int| 0 <= i2 < self.cache@.len() ==> (#[trigger] self.cache@[i2])@.len() == self.synced@[i2].len(),
                forall|i2: int, j2: int|
                    0 <= i2 < self.cache@.len() && 0 <= j2 < self.cache@[i2]@.len() ==> self.projection.ensures(
                        (&self.synced@[i2][j2],),
                        #[trigger] self.cache@[i2]@[j2],
                    ),
            decreases n - i,
        {
            let chunk = &chunks[i];
            if trusted && i < l0 && chunk.stamp() <= self.generation {
                proof {
                    assert(old_synced[i as int] == storage.groups()[i as int]);
                }
            } else {
                let mut row: Vec<Option<K>> = Vec::new();
                let mut j: usize = 0;
                while j < chunk.len()
                    invariant
                        chunk.wf(),
                        chunk.records() == storage.groups()[i as int],
                        forall|e: &E| #[trigger] self.projection.requires((e,)),
                        j <= chunk.records().len(),
                        row@.len() == j,
                        forall|j2: int| 0 <= j2 < j ==> self.projection.ensures(
                            (&storage.groups()[i as int][j2],),
                            #[trigger] row@[j2],
                        ),
                    decreases chunk.records().len() - j,
                {
                    let p = (self.projection)(chunk.get_at(j));
                    row.push(p);
                    j += 1;
                }
                let ghost prev_cache = self.cache@;
                let ghost prev_synced = self.synced@;
                if i < l0 {
                    self.cache.set(i, row);
                    proof {
                        self.synced@ = prev_synced.update(i as int, storage.groups()[i as int]);
                    }
                } else {
                    self.cache.push(row);
                    proof {
                        self.synced@ = prev_synced.push(storage.groups()[i as int]);
                    }
                }
                proof {
                    assert forall|i2: int, j2: int|
                        0 <= i2 < self.cache@.len() && 0 <= j2 < self.cache@[i2]@.len() implies self.projection.ensures(
                            (&self.synced@[i2][j2],),
                            #[trigger] self.cache@[i2]@[j2],
                        ) by {
                        if i2 != i {
                            assert(self.cache@[i2] == prev_cache[i2]);
                            assert(self.synced@[i2] == prev_synced[i2]);
                        }
                    }
                }
            }
            i += 1;
        }
        proof {
            assert(self.synced@ =~= storage.groups());
        }
        self.generation = current;
        self.fresh = true;
    }

    /// The records that the query visits and whose projection gives `key`,
    /// each once; `None` where the index was built for another storage.
    pub fn matching<'a>(&mut self, storage: &'a Storage<C, I, E>, q: &Query<C, I>, key: &K) -> (r: Option<Vec<&'a E>>)
        requires
            old(self).wf(),
            old(self).consistent(storage),
            storage.wf(),
            forall|e: &E| #[trigger] old(self).projection().requires((e,)),
        ensures
            final(self).wf(),
            final(self).consistent(storage),
            final(self).projection() == old(self).projection(),
            final(self).spec_storage_id() == old(self).spec_storage_id(),
            r is None <==> old(self).spec_storage_id() != storage.spec_id(),
            r is Some ==> forall|j: int|
                0 <= j < r->0@.len() ==> storage@.contains_key(key_of(*#[trigger] r->0@[j]))
                    && storage@[key_of(*r->0@[j])] == *r->0@[j] && q.selects(key_of(*r->0@[j])) && exists|p: Option<K>|
                    old(self).projection().ensures((r->0@[j],), p) && hits(p, key@),
            r is Some ==> forall|j1: int, j2: int|
                0 <= j1 < r->0@.len() && 0 <= j2 < r->0@.len() && j1 != j2 ==> key_of(*#[trigger] r->0@[j1])
                    != key_of(*#[trigger] r->0@[j2]),
            r is Some ==> forall|k: (C::V, I::V)|
                #[trigger] storage@.contains_key(k) && q.selects(k) ==> (exists|j: int| 0 <= j < r->0@.len() && key_of(*r->0@[j]) == k)
                    || exists|p: Option<K>| old(self).projection().ensures((&storage@[k],), p) && !hits(p, key@),
    {
        if self.storage_id != storage.id() {
            return None;
        }
        proof {
            assert forall|e: &E| #[trigger] self.projection.requires((e,)) by {
                assert(old(self).projection().requires((e,)));
            }
        }
        self.sync(storage);
        let chunks = storage.internal_rvec();
        let ghost g = storage.groups();
        proof {
            storage.lemma_groups_keyed();
        }
        let mut acc: Vec<&'a E> = Vec::new();
        let ghost mut pos: Seq<(int, int)> = Seq::empty();
        let mut i: usize = 0;
        while i < chunks.len()
            invariant
                self.wf(),
                self.synced@ == g,
                g == storage.groups(),
                chunks@.len() == g.len(),
                forall|i2: int| 0 <= i2 < chunks@.len() ==> (#[trigger] chunks@[i2]).wf() && chunks@[i2].records() == g[i2],
                i <= chunks@.len(),
                pos.len() == acc@.len(),
                forall|m: int| 0 <= m < pos.len() ==> 0 <= (#[trigger] pos[m]).0 < i && 0 <= pos[m].1 < g[pos[m].0].len()
                    && *acc@[m] == g[pos[m].0][pos[m].1] && hits(self.cache@[pos[m].0]@[pos[m].1], key@)
                    && q.selects(key_of(g[pos[m].0][pos[m].1])),
                forall|m1: int, m2: int| 0 <= m1 < pos.len() && 0 <= m2 < pos.len() && m1 != m2 ==> #[trigger] pos[m1] != #[trigger] pos[m2],
                forall|i2: int, j2: int| 0 <= i2 < i && 0 <= j2 < g[i2].len() && #[trigger] hits(self.cache@[i2]@[j2], key@)
                    && q.selects(key_of(g[i2][j2])) ==> exists|m: int| 0 <= m < pos.len() && pos[m] == (i2, j2),
            decreases chunks@.len() - i,
        {
            let chunk = &chunks[i];
            let row = &self.cache[i];
            let mut j: usize = 0;
            while j < chunk.len()
                invariant
                    self.wf(),
                    self.synced@ == g,
                    chunks@.len() == g.len(),
                    i < chunks@.len(),
                    *chunk == chunks@[i as int],
                    *row == self.cache@[i as int],
                    chunk.wf(),
                    chunk.records() == g[i as int],
                    j <= g[i as int].len(),
                    pos.len() == acc@.len(),
                    forall|m: int| 0 <= m < pos.len() ==> 0 <= (#[trigger] pos[m]).0 <= i && 0 <= pos[m].1 < g[pos[m].0].len()
                        && (pos[m].0 == i ==> pos[m].1 < j)
                        && *acc@[m] == g[pos[m].0][pos[m].1] && hits(self.cache@[pos[m].0]@[pos[m].1], key@)
                        && q.selects(key_of(g[pos[m].0][pos[m].1])),
                    forall|m1: int, m2: int| 0 <= m1 < pos.len() && 0 <= m2 < pos.len() && m1 != m2 ==> #[trigger] pos[m1] != #[trigger] pos[m2],
                    forall|i2: int, j2: int| 0 <= i2 <= i && 0 <= j2 < g[i2].len() && (i2 == i ==> j2 < j)
                        && #[trigger] hits(self.cache@[i2]@[j2], key@) && q.selects(key_of(g[i2][j2]))
                        ==> exists|m: int| 0 <= m < pos.len() && pos[m] == (i2, j2),
                decreases g[i as int].len() - j,
            {
                let e = chunk.get_at(j);
                proof {
                    chunk.lemma_records();
                }
                let hit = match &row[j] {
                    Some(k) => k.key_eq(key) && q.visits_chunk(chunk.chunk_key()) && q.visits_item(&e.item_key()),
                    None => false,
                };
                let ghost pos0 = pos;
                if hit {
                    acc.push(e);
                    proof {
                        pos = pos.push((i as int, j as int));
                        assert(pos[pos.len() - 1] == (i as int, j as int));
                        assert forall|m: int| 0 <= m < pos0.len() implies #[trigger] pos[m] == pos0[m] by {}
                    }
                }
                proof {
                    assert forall|i2: int, j2: int| 0 <= i2 <= i && 0 <= j2 < g[i2].len() && (i2 == i ==> j2 < j + 1)
                        && #[trigger] hits(self.cache@[i2]@[j2], key@) && q.selects(key_of(g[i2][j2]))
                        implies exists|m: int| 0 <= m < pos.len() && pos[m] == (i2, j2) by {
                        if i2 == i && j2 == j {
                            assert(pos[pos.len() - 1] == (i2, j2));
                        } else {
                            let m = choose|m: int| 0 <= m < pos0.len() && pos0[m] == (i2, j2);
                            assert(pos[m] == pos0[m]);
                        }
                    }
                }
                j += 1;
            }
            i += 1;
        }
        proof {
            let r = acc@;
            assert forall|j: int| 0 <= j < r.len() implies storage@.contains_key(key_of(*#[trigger] r[j]))
                && storage@[key_of(*r[j])] == *r[j] && q.selects(key_of(*r[j])) && exists|p: Option<K>|
                self.projection.ensures((r[j],), p) && hits(p, key@) by {
                let (a, b) = pos[j];
                assert(self.projection.ensures((&g[a][b],), self.cache@[a]@[b]));
            }
            assert forall|j1: int, j2: int|
                0 <= j1 < r.len() && 0 <= j2 < r.len() && j1 != j2 implies key_of(*#[trigger] r[j1])
                    != key_of(*#[trigger] r[j2]) by {
                assert(pos[j1] != pos[j2]);
                assert(g[pos[j1].0][pos[j1].1] == *r[j1]);
                assert(g[pos[j2].0][pos[j2].1] == *r[j2]);
            }
            storage.lemma_model_located();
            assert forall|k: (C::V, I::V)|
                #[trigger] storage@.contains_key(k) && q.selects(k) implies (exists|j: int| 0 <= j < r.len() && key_of(*r[j]) == k)
                    || exists|p: Option<K>| old(self).projection().ensures((&storage@[k],), p) && !hits(p, key@) by {
                let (a, b) = choose|a: int, b: int|
                    0 <= a < g.len() && 0 <= b < g[a].len() && g[a][b] == storage@[k] && key_of(g[a][b]) == k;
                let p = self.cache@[a]@[b];
                assert(self.projection.ensures((&g[a][b],), p));
                assert(old(self).projection().ensures((&storage@[k],), p));
                if hits(p, key@) {
                    let m = choose|m: int| 0 <= m < pos.len() && pos[m] == (a, b);
                    assert(key_of(*r[m]) == k);
                }
            }
        }
        let r = Some(acc);
        proof {
            assert(r->0@ == acc@);
            assert(forall|k: (C::V, I::V)|
                #[trigger] storage@.contains_key(k) && q.selects(k) ==> (exists|j: int| 0 <= j < r->0@.len() && key_of(*r->0@[j]) == k)
                    || exists|p: Option<K>| old(self).projection().ensures((&storage@[k],), p) && !hits(p, key@));
        }
        r
    }
}

/// A change to the storage never leaves an index trusting what it holds:
/// an index consistent with a storage stays consistent with it after any
/// sequence of changes, so the next lookup rebuilds what changed.
pub proof fn lemma_index_follows_storage<C: Key, I: Key, E: Record<C, I>, K: Key, F: Fn(&E) -> Option<K>>(
    index: &SecondaryIndex<C, I, E, K, F>,
    before: &Storage<C, I, E>,
    after: &Storage<C, I, E>,
)
    requires
        index.consistent(before),
        before.advances(after),
    ensures
        index.consistent(after),
{
}

} // verus!
