use crate::query::Query;
use crate::record::{key_of, Key, Record};
use crate::storage::{chunk_keys_of, listing, one_chunk, with_groups, Storage};
use vstd::prelude::*;

verus! {

/// No two records held by a storage share both their chunk key and their
/// item key.
pub proof fn lemma_unique_keys<C: Key, I: Key, E: Record<C, I>>(s: &Storage<C, I, E>)
    requires
        s.wf(),
    ensures
        forall|i1: int, j1: int, i2: int, j2: int|
            0 <= i1 < s.groups().len() && 0 <= j1 < s.groups()[i1].len() && 0 <= i2 < s.groups().len()
                && 0 <= j2 < s.groups()[i2].len() && (i1 != i2 || j1 != j2) ==> key_of(
                #[trigger] s.groups()[i1][j1],
            ) != key_of(#[trigger] s.groups()[i2][j2]),
{
    s.lemma_groups_keyed();
}

/// Dissolving a storage and adding its chunks back rebuilds the same records:
/// each dissolved group holds one chunk key, and adding the groups in order to
/// an empty storage gives the records that were held.
pub proof fn lemma_round_trip<C: Key, I: Key, E: Record<C, I>>(s: &Storage<C, I, E>)
    requires
        s.wf(),
    ensures
        with_groups(Map::empty(), s.groups()) == s@,
        forall|g: int| 0 <= g < s.groups().len() ==> one_chunk(#[trigger] s.groups()[g]),
{
    s.lemma_groups_rebuild();
}

/// Once no record of a chunk key is left, the chunk key is no longer held.
pub proof fn lemma_emptied_chunk_gone<C: Key, I: Key, E: Record<C, I>>(s: &Storage<C, I, E>, c: C::V)
    requires
        s.wf(),
        s.compact(),
        forall|ik: I::V| !s@.contains_key((c, ik)),
    ensures
        !s.chunk_key_set().contains(c),
{
    s.lemma_compact_chunk_keys();
}

/// A query for everything visits every record.
pub proof fn lemma_everything_selects_all<C: Key, I: Key>()
    ensures
        forall|k: (C::V, I::V)| #[trigger] Query::<C, I>::Everything.key_set().contains(k),
{
}

/// Listing the records of some chunks is the same whether or not the list
/// of chunk keys also names keys that are not held.
pub proof fn lemma_unknown_chunks_ignored<C: Key, I: Key, E: Record<C, I>>(
    s: &Storage<C, I, E>,
    known: Vec<C>,
    named: Vec<C>,
    r: Seq<E>,
)
    requires
        forall|j: int| 0 <= j < known@.len() ==> exists|m: int| 0 <= m < named@.len() && (#[trigger] named@[m])@ == (#[trigger] known@[j])@,
        forall|j: int|
            0 <= j < named@.len() ==> chunk_keys_of(s@).contains((#[trigger] named@[j])@) ==> exists|m: int|
                0 <= m < known@.len() && (#[trigger] known@[m])@ == named@[j]@,
    ensures
        listing(r, s@, Query::<C, I>::Chunks(known).key_set()) <==> listing(
            r,
            s@,
            Query::<C, I>::Chunks(named).key_set(),
        ),
{
    let a = Query::<C, I>::Chunks(known);
    let b = Query::<C, I>::Chunks(named);
    assert forall|k: (C::V, I::V)| s@.contains_key(k) implies #[trigger] a.key_set().contains(k) == b.key_set().contains(k) by {
        assert(s@.contains_key((k.0, k.1)));
        assert(chunk_keys_of(s@).contains(k.0));
        if a.key_set().contains(k) {
            let j = choose|j: int| 0 <= j < known@.len() && (#[trigger] known@[j])@ == k.0;
            let m = choose|m: int| 0 <= m < named@.len() && (#[trigger] named@[m])@ == known@[j]@;
            assert(named@[m]@ == k.0);
            assert(exists|j2: int| 0 <= j2 < named@.len() && (#[trigger] named@[j2])@ == k.0);
            assert(b->Chunks_0 == named);
            assert(b.selects_chunk(k.0));
        }
        if b.key_set().contains(k) {
            let j = choose|j: int| 0 <= j < named@.len() && (#[trigger] named@[j])@ == k.0;
            let m = choose|m: int| 0 <= m < known@.len() && (#[trigger] known@[m])@ == named@[j]@;
            assert(known@[m]@ == k.0);
            assert(exists|j2: int| 0 <= j2 < known@.len() && (#[trigger] known@[j2])@ == k.0);
            assert(a->Chunks_0 == known);
            assert(a.selects_chunk(k.0));
        }
    }
    if listing(r, s@, a.key_set()) {
        lemma_listing_same_on_dom(r, s@, a.key_set(), b.key_set());
    }
    if listing(r, s@, b.key_set()) {
        lemma_listing_same_on_dom(r, s@, b.key_set(), a.key_set());
    }
}

proof fn lemma_listing_same_on_dom<C: Key, I: Key, E: Record<C, I>>(
    r: Seq<E>,
    m: Map<(C::V, I::V), E>,
    x: Set<(C::V, I::V)>,
    y: Set<(C::V, I::V)>,
)
    requires
        forall|k: (C::V, I::V)| m.contains_key(k) ==> #[trigger] x.contains(k) == y.contains(k),
        listing(r, m, x),
    ensures
        listing(r, m, y),
{
    assert forall|j: int| 0 <= j < r.len() implies y.contains(key_of(#[trigger] r[j])) by {
        assert(x.contains(key_of(r[j])));
    }
    assert forall|k: (C::V, I::V)| m.contains_key(k) && #[trigger] y.contains(k) implies exists|j: int|
        0 <= j < r.len() && key_of(r[j]) == k by {
        assert(x.contains(k));
    }
}

} // verus!
