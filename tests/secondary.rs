use retriever::query::Query;
use retriever::record::Id;
use retriever::secondary::SecondaryIndex;
use retriever::storage::Storage;

fn sign(x: &(u8, u16, i64)) -> Option<&'static str> {
    if x.2 < 0 {
        Some("negative")
    } else {
        Some("positive")
    }
}

#[test]
fn index_follows_get_mut_style_change() {
    let mut storage: Storage<u8, u16, (u8, u16, i64)> = Storage::new(20);
    storage.add((1, 1, -5));
    let mut index = SecondaryIndex::new(&storage, sign);
    assert_eq!(index.matching(&storage, &Query::Everything, &"negative"), Some(vec![&(1, 1, -5)]));

    let entry = storage.entry(&Id::new(1u8, 1u16));
    assert!(entry.and_modify(&mut storage, |x: &(u8, u16, i64)| (x.0, x.1, 5)));

    assert_eq!(index.matching(&storage, &Query::Everything, &"negative"), Some(Vec::new()));
    assert_eq!(index.matching(&storage, &Query::Everything, &"positive"), Some(vec![&(1, 1, 5)]));
}

#[test]
fn index_counts_positive_numbers() {
    let mut storage: Storage<u8, u16, (u8, u16, i64)> = Storage::new(21);
    storage.add((1, 1000, 17));
    storage.add((1, 1001, 53));
    storage.add((1, 1002, -57));
    storage.add((2, 2000, 29));
    storage.add((2, 2001, -19));
    storage.add((3, 3002, -23));
    let mut positive = SecondaryIndex::new(&storage, |x: &(u8, u16, i64)| Some(x.2 > 0));
    let hits = positive.matching(&storage, &Query::Everything, &true).unwrap();
    assert_eq!(99, hits.into_iter().map(|x| x.2).sum::<i64>());
    let misses = positive.matching(&storage, &Query::Everything, &false).unwrap();
    assert_eq!(-99, misses.into_iter().map(|x| x.2).sum::<i64>());
}

#[test]
fn index_after_many_changes() {
    let mut storage: Storage<u8, u16, (u8, u16, i64)> = Storage::new(22);
    let mut index = SecondaryIndex::new(&storage, sign);
    assert_eq!(index.matching(&storage, &Query::Everything, &"negative"), Some(Vec::new()));
    storage.add((1, 1, -1));
    storage.add((2, 2, -2));
    storage.add((3, 3, 3));
    storage.modify(&Query::Everything, |x: &(u8, u16, i64)| Some((x.0, x.1, -x.2)));
    storage.remove(&Query::Chunks(vec![1]), |_x: &(u8, u16, i64)| true);
    storage.add((4, 4, -4));
    let mut negative: Vec<i64> = index
        .matching(&storage, &Query::Everything, &"negative")
        .unwrap()
        .into_iter()
        .map(|x| x.2)
        .collect();
    negative.sort();
    assert_eq!(negative, vec![-4, -3]);
    let positive: Vec<i64> =
        index.matching(&storage, &Query::Everything, &"positive").unwrap().into_iter().map(|x| x.2).collect();
    assert_eq!(positive, vec![2]);
}

#[test]
fn index_ignores_records_without_a_key() {
    let mut storage: Storage<u8, u16, (u8, u16, i64)> = Storage::new(23);
    storage.add((1, 1, 0));
    storage.add((1, 2, 7));
    let mut nonzero = SecondaryIndex::new(&storage, |x: &(u8, u16, i64)| {
        if x.2 == 0 {
            None
        } else {
            Some(x.2)
        }
    });
    assert_eq!(nonzero.matching(&storage, &Query::Everything, &7), Some(vec![&(1, 2, 7)]));
    assert_eq!(nonzero.matching(&storage, &Query::Everything, &0), Some(Vec::new()));
}

#[test]
fn index_refuses_another_storage() {
    let first: Storage<u8, u16, (u8, u16, i64)> = Storage::new(24);
    let mut second: Storage<u8, u16, (u8, u16, i64)> = Storage::new(25);
    second.add((1, 1, -1));
    let mut index = SecondaryIndex::new(&first, sign);
    assert_eq!(index.matching(&second, &Query::Everything, &"negative"), None);
    assert_eq!(index.matching(&first, &Query::Everything, &"negative"), Some(Vec::new()));
}

#[test]
fn index_projects_only_changed_chunks_again() {
    let mut storage: Storage<u8, u16, (u8, u16, i64)> = Storage::new(26);
    storage.add((1, 1, -1));
    storage.add((1, 2, 2));
    storage.add((2, 1, -3));
    storage.add((3, 1, 4));
    let calls = std::cell::Cell::new(0u32);
    let mut index = SecondaryIndex::new(&storage, |x: &(u8, u16, i64)| {
        calls.set(calls.get() + 1);
        sign(x)
    });
    assert_eq!(index.matching(&storage, &Query::Everything, &"negative").unwrap().len(), 2);
    assert_eq!(calls.get(), 4);

    assert_eq!(index.matching(&storage, &Query::Everything, &"positive").unwrap().len(), 2);
    assert_eq!(calls.get(), 4);

    let entry = storage.entry(&Id::new(2u8, 1u16));
    assert!(entry.and_modify(&mut storage, |x: &(u8, u16, i64)| (x.0, x.1, 3)));
    assert_eq!(index.matching(&storage, &Query::Everything, &"negative"), Some(vec![&(1, 1, -1)]));
    assert_eq!(calls.get(), 5);
}

#[test]
fn read_only_modify_keeps_index_rows() {
    let mut storage: Storage<u8, u16, (u8, u16, i64)> = Storage::new(27);
    storage.add((1, 1, -1));
    storage.add((2, 1, 1));
    let calls = std::cell::Cell::new(0u32);
    let mut index = SecondaryIndex::new(&storage, |x: &(u8, u16, i64)| {
        calls.set(calls.get() + 1);
        sign(x)
    });
    assert_eq!(index.matching(&storage, &Query::Everything, &"negative").unwrap().len(), 1);
    assert_eq!(calls.get(), 2);
    storage.modify(&Query::Everything, |_x: &(u8, u16, i64)| None);
    assert_eq!(index.matching(&storage, &Query::Everything, &"negative").unwrap().len(), 1);
    assert_eq!(calls.get(), 2);
}

#[test]
fn matching_within_chunks() {
    let mut storage: Storage<u8, u16, (u8, u16, i64)> = Storage::new(28);
    storage.add((1, 1, -1));
    storage.add((2, 1, -2));
    storage.add((2, 2, 2));
    let mut index = SecondaryIndex::new(&storage, sign);
    let found = index.matching(&storage, &Query::Chunks(vec![2, 7]), &"negative");
    assert_eq!(found, Some(vec![&(2, 1, -2)]));
    assert_eq!(index.matching(&storage, &Query::Id(2, 2), &"negative"), Some(Vec::new()));
    assert_eq!(index.matching(&storage, &Query::Id(2, 2), &"positive"), Some(vec![&(2, 2, 2)]));
}
