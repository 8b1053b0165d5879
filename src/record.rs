use vstd::prelude::*;

verus! {

/// What a key must offer: a comparison and a copy, both faithful to its view.
pub trait Key: View + Sized {
    fn key_eq(&self, other: &Self) -> (r: bool)
        ensures
            r == (self@ == other@),
    ;

    fn key_clone(&self) -> (r: Self)
        ensures
            r@ == self@,
    ;
}

impl Key for () {
    fn key_eq(&self, other: &Self) -> (r: bool) {
        true
    }

    fn key_clone(&self) -> (r: Self) {
        ()
    }
}

impl Key for u8 {
    fn key_eq(&self, other: &Self) -> (r: bool) {
        *self == *other
    }

    fn key_clone(&self) -> (r: Self) {
        *self
    }
}

impl Key for u16 {
    fn key_eq(&self, other: &Self) -> (r: bool) {
        *self == *other
    }

    fn key_clone(&self) -> (r: Self) {
        *self
    }
}

impl Key for u32 {
    fn key_eq(&self, other: &Self) -> (r: bool) {
        *self == *other
    }

    fn key_clone(&self) -> (r: Self) {
        *self
    }
}

impl Key for u64 {
    fn key_eq(&self, other: &Self) -> (r: bool) {
        *self == *other
    }

    fn key_clone(&self) -> (r: Self) {
        *self
    }
}

impl Key for usize {
    fn key_eq(&self, other: &Self) -> (r: bool) {
        *self == *other
    }

    fn key_clone(&self) -> (r: Self) {
        *self
    }
}

impl Key for i64 {
    fn key_eq(&self, other: &Self) -> (r: bool) {
        *self == *other
    }

    fn key_clone(&self) -> (r: Self) {
        *self
    }
}

impl Key for u128 {
    fn key_eq(&self, other: &Self) -> (r: bool) {
        *self == *other
    }

    fn key_clone(&self) -> (r: Self) {
        *self
    }
}

impl Key for i8 {
    fn key_eq(&self, other: &Self) -> (r: bool) {
        *self == *other
    }

    fn key_clone(&self) -> (r: Self) {
        *self
    }
}

impl Key for i16 {
    fn key_eq(&self, other: &Self) -> (r: bool) {
        *self == *other
    }

    fn key_clone(&self) -> (r: Self) {
        *self
    }
}

impl Key for i32 {
    fn key_eq(&self, other: &Self) -> (r: bool) {
        *self == *other
    }

    fn key_clone(&self) -> (r: Self) {
        *self
    }
}

impl Key for i128 {
    fn key_eq(&self, other: &Self) -> (r: bool) {
        *self == *other
    }

    fn key_clone(&self) -> (r: Self) {
        *self
    }
}

impl Key for isize {
    fn key_eq(&self, other: &Self) -> (r: bool) {
        *self == *other
    }

    fn key_clone(&self) -> (r: Self) {
        *self
    }
}

impl Key for char {
    fn key_eq(&self, other: &Self) -> (r: bool) {
        *self == *other
    }

    fn key_clone(&self) -> (r: Self) {
        *self
    }
}

impl Key for bool {
    fn key_eq(&self, other: &Self) -> (r: bool) {
        *self == *other
    }

    fn key_clone(&self) -> (r: Self) {
        *self
    }
}

impl Key for String {
    fn key_eq(&self, other: &Self) -> (r: bool) {
        *self == *other
    }

    fn key_clone(&self) -> (r: Self) {
        self.clone()
    }
}

impl<'a> Key for &'a str {
    fn key_eq(&self, other: &Self) -> (r: bool) {
        let a: String = (*self).to_owned();
        let b: String = (*other).to_owned();
        a == b
    }

    fn key_clone(&self) -> (r: Self) {
        *self
    }
}

/// A retrievable record: it names the chunk it belongs to and its key within
/// that chunk. Within one storage the pair of the two keys is unique.
pub trait Record<ChunkKey: Key, ItemKey: Key> {
    spec fn spec_chunk_key(&self) -> ChunkKey::V;

    spec fn spec_item_key(&self) -> ItemKey::V;

    fn chunk_key(&self) -> (r: ChunkKey)
        ensures
            r@ == self.spec_chunk_key(),
    ;

    fn item_key(&self) -> (r: ItemKey)
        ensures
            r@ == self.spec_item_key(),
    ;
}

/// A reference to a record has the record's keys.
impl<'a, ChunkKey: Key, ItemKey: Key, R: Record<ChunkKey, ItemKey>> Record<ChunkKey, ItemKey> for &'a R {
    open spec fn spec_chunk_key(&self) -> ChunkKey::V {
        (**self).spec_chunk_key()
    }

    open spec fn spec_item_key(&self) -> ItemKey::V {
        (**self).spec_item_key()
    }

    fn chunk_key(&self) -> (r: ChunkKey) {
        (**self).chunk_key()
    }

    fn item_key(&self) -> (r: ItemKey) {
        (**self).item_key()
    }
}

/// A value stored under an item key, in the single chunk `()`.
impl<ItemKey: Key, R> Record<(), ItemKey> for (ItemKey, R) {
    open spec fn spec_chunk_key(&self) -> () {
        ()
    }

    open spec fn spec_item_key(&self) -> ItemKey::V {
        self.0@
    }

    fn chunk_key(&self) -> (r: ()) {
        ()
    }

    fn item_key(&self) -> (r: ItemKey) {
        self.0.key_clone()
    }
}

/// A value stored under a chunk key and an item key.
impl<ChunkKey: Key, ItemKey: Key, R> Record<ChunkKey, ItemKey> for (ChunkKey, ItemKey, R) {
    open spec fn spec_chunk_key(&self) -> ChunkKey::V {
        self.0@
    }

    open spec fn spec_item_key(&self) -> ItemKey::V {
        self.1@
    }

    fn chunk_key(&self) -> (r: ChunkKey) {
        self.0.key_clone()
    }

    fn item_key(&self) -> (r: ItemKey) {
        self.1.key_clone()
    }
}

/// The identity of a record: its chunk key and its item key.
pub open spec fn key_of<C: Key, I: Key, E: Record<C, I>>(e: E) -> (C::V, I::V) {
    (e.spec_chunk_key(), e.spec_item_key())
}

} // verus!

verus! {

/// A bare identity, to look records up by: a chunk key and an item key.
pub struct Id<ChunkKey, ItemKey> {
    pub chunk: ChunkKey,
    pub item: ItemKey,
}

impl<ChunkKey: Key, ItemKey: Key> Id<ChunkKey, ItemKey> {
    pub fn new(chunk: ChunkKey, item: ItemKey) -> (r: Self)
        ensures
            r.chunk == chunk,
            r.item == item,
    {
        Id { chunk, item }
    }
}

impl<ChunkKey: Key, ItemKey: Key> Record<ChunkKey, ItemKey> for Id<ChunkKey, ItemKey> {
    open spec fn spec_chunk_key(&self) -> ChunkKey::V {
        self.chunk@
    }

    open spec fn spec_item_key(&self) -> ItemKey::V {
        self.item@
    }

    fn chunk_key(&self) -> (r: ChunkKey) {
        self.chunk.key_clone()
    }

    fn item_key(&self) -> (r: ItemKey) {
        self.item.key_clone()
    }
}

} // verus!
