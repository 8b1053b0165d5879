use retriever::query::Query;
use retriever::record::Id;
use retriever::storage::Storage;

type Triple = (u8, &'static str, i64);

fn three_records() -> Storage<u8, &'static str, Triple> {
    let mut storage: Storage<u8, &'static str, Triple> = Storage::new(1);
    storage.add((1, "a", 10));
    storage.add((1, "b", 20));
    storage.add((2, "c", 30));
    storage
}

#[test]
fn get_remove_chunk_and_chunk_keys() {
    let mut storage = three_records();
    assert_eq!(storage.get(&Id::new(1u8, "a")).map(|x| x.2), Some(10));
    assert_eq!(storage.remove_chunk(&2), Some(vec![(2, "c", 30)]));
    let keys: Vec<u8> = storage.chunk_keys().into_iter().copied().collect();
    assert_eq!(keys, vec![1]);
    assert!(storage.validate());
}

#[test]
fn get_missing_keys() {
    let storage = three_records();
    assert_eq!(storage.get(&Id::new(1u8, "c")), None);
    assert_eq!(storage.get(&Id::new(3u8, "a")), None);
}

#[test]
fn remove_chunk_missing_is_none() {
    let mut storage = three_records();
    assert_eq!(storage.remove_chunk(&9), None);
    assert_eq!(storage.iter().len(), 3);
}

#[test]
fn add_duplicate_replaces() {
    let mut storage = three_records();
    storage.add((1, "a", 99));
    assert_eq!(storage.get(&Id::new(1u8, "a")), Some(&(1, "a", 99)));
    assert_eq!(storage.iter().len(), 3);
    let matching: Vec<&Triple> = storage
        .iter()
        .into_iter()
        .filter(|x| x.0 == 1 && x.1 == "a")
        .collect();
    assert_eq!(matching.len(), 1);
    assert!(storage.validate());
}

#[test]
fn add_chains() {
    let mut storage: Storage<u64, u64, (u64, u64, u64)> = Storage::new(2);
    storage.add((7, 1, 100)).add((7, 2, 200)).add((8, 1, 300));
    assert_eq!(storage.iter().len(), 3);
    assert_eq!(storage.get(&Id::new(8u64, 1u64)), Some(&(8, 1, 300)));
}

#[test]
fn dissolve_then_add_chunks_round_trips() {
    let mut storage: Storage<usize, usize, (usize, usize, String)> = Storage::new(3);
    storage.add((109, 0, String::from("hello")));
    storage.add((109, 1, String::from("doctor")));
    storage.add((109, 2, String::from("name")));
    storage.add((9000, 3, String::from("continue")));
    storage.add((9000, 4, String::from("yesterday")));
    storage.add((9000, 5, String::from("tomorrow")));

    let raw: Vec<Vec<(usize, usize, String)>> =
        storage.raw().into_iter().map(|chunk| chunk.to_vec()).collect();
    assert_eq!(raw.len(), 2);

    let groups = storage.dissolve();
    assert_eq!(groups, raw);
    let mut copy: Storage<usize, usize, (usize, usize, String)> = Storage::new(4);
    copy.add_chunks(groups);
    assert_eq!(copy.get(&Id::new(109usize, 0usize)), Some(&(109, 0, String::from("hello"))));
    assert_eq!(copy.get(&Id::new(109usize, 1usize)), Some(&(109, 1, String::from("doctor"))));
    assert_eq!(copy.get(&Id::new(109usize, 2usize)), Some(&(109, 2, String::from("name"))));
    assert_eq!(copy.get(&Id::new(9000usize, 3usize)), Some(&(9000, 3, String::from("continue"))));
    assert_eq!(copy.get(&Id::new(9000usize, 4usize)), Some(&(9000, 4, String::from("yesterday"))));
    assert_eq!(copy.get(&Id::new(9000usize, 5usize)), Some(&(9000, 5, String::from("tomorrow"))));
    assert_eq!(copy.iter().len(), 6);
    assert!(copy.validate());
}

#[test]
fn add_chunk_groups_records() {
    let mut storage: Storage<u8, u16, (u8, u16, i64)> = Storage::new(5);
    storage.add_chunk(vec![(4, 1, -1), (4, 2, -2), (4, 1, 5)]);
    storage.add_chunk(Vec::new());
    assert_eq!(storage.iter().len(), 2);
    assert_eq!(storage.get(&Id::new(4u8, 1u16)), Some(&(4, 1, 5)));
    assert_eq!(storage.raw().len(), 1);
}

fn numbers() -> Storage<u8, u16, (u8, u16, i64)> {
    let mut storage: Storage<u8, u16, (u8, u16, i64)> = Storage::new(6);
    storage.add((1, 1000, 17));
    storage.add((1, 1001, 53));
    storage.add((1, 1002, -57));
    storage.add((2, 2000, 29));
    storage.add((2, 2001, -19));
    storage.add((3, 3002, -23));
    storage
}

#[test]
fn iter_visits_every_record() {
    let storage = numbers();
    assert_eq!(storage.iter().len(), 6);
    assert_eq!(0, storage.iter().into_iter().map(|x| x.2).sum::<i64>());
}

#[test]
fn query_everything_and_chunks() {
    let storage = numbers();
    assert_eq!(storage.query(&Query::Everything).len(), 6);
    assert_eq!(0, storage.query(&Query::Everything).into_iter().map(|x| x.2).sum::<i64>());
    let all = storage.query(&Query::Chunks(vec![0, 1, 2, 3]));
    assert_eq!(all.len(), 6);
    assert_eq!(0, all.into_iter().map(|x| x.2).sum::<i64>());
    let some = storage.query(&Query::Chunks(vec![2, 42, 2]));
    assert_eq!(some.len(), 2);
    assert_eq!(10, some.into_iter().map(|x| x.2).sum::<i64>());
    assert_eq!(storage.query(&Query::Chunks(vec![42])).len(), 0);
}

#[test]
fn query_single_id() {
    let storage = numbers();
    let one = storage.query(&Query::Id(1, 1001));
    assert_eq!(one, vec![&(1, 1001, 53)]);
    assert_eq!(storage.query(&Query::Id(1, 2000)).len(), 0);
}

#[test]
fn query_filter_keeps_accepted() {
    let storage = numbers();
    let positive = storage.query_filter(&Query::Everything, |x: &(u8, u16, i64)| x.2 > 0);
    assert_eq!(positive.len(), 3);
    assert_eq!(99, positive.into_iter().map(|x| x.2).sum::<i64>());
    let negative_in_one = storage.query_filter(&Query::Chunks(vec![1]), |x: &(u8, u16, i64)| x.2 < 0);
    assert_eq!(negative_in_one, vec![&(1, 1002, -57)]);
}

#[test]
fn modify_charges_negative_balances() {
    let mut storage: Storage<(), usize, (usize, i64)> = Storage::new(7);
    storage.add((1, 25));
    storage.add((2, 13));
    storage.add((3, -900));
    storage.add((4, 27000));
    storage.add((5, -13));
    storage.modify(&Query::Everything, |account: &(usize, i64)| {
        if account.1 < 0 {
            Some((account.0, account.1 - 25))
        } else {
            None
        }
    });
    assert_eq!(storage.get(&(1usize, 0i64)).map(|x| x.1), Some(25));
    assert_eq!(storage.get(&(2usize, 0i64)).map(|x| x.1), Some(13));
    assert_eq!(storage.get(&(3usize, 0i64)).map(|x| x.1), Some(-925));
    assert_eq!(storage.get(&(4usize, 0i64)).map(|x| x.1), Some(27000));
    assert_eq!(storage.get(&(5usize, 0i64)).map(|x| x.1), Some(-38));
    assert!(storage.validate());
}

#[test]
fn modify_outside_query_untouched() {
    let mut storage = numbers();
    storage.modify(&Query::Chunks(vec![2]), |x: &(u8, u16, i64)| Some((x.0, x.1, 0)));
    assert_eq!(storage.get(&Id::new(2u8, 2000u16)), Some(&(2, 2000, 0)));
    assert_eq!(storage.get(&Id::new(2u8, 2001u16)), Some(&(2, 2001, 0)));
    assert_eq!(storage.get(&Id::new(1u8, 1000u16)), Some(&(1, 1000, 17)));
}

#[test]
fn remove_by_filter() {
    let mut storage: Storage<u128, u128, (u128, u128, String)> = Storage::new(8);
    storage.add((109, 109301, String::from("Departed from Starbase Alpha")));
    storage.add((109, 109302, String::from("Purchased illegal cloaking device from aliens")));
    storage.add((109, 109303, String::from("Asked doctor to check cat for space fleas")));
    let removed = storage.remove(&Query::Everything, |entry: &(u128, u128, String)| {
        entry.2.contains("illegal")
    });
    assert_eq!(removed.len(), 1);
    assert_eq!(removed[0].1, 109302);
    assert!(storage.get(&Id::new(109u128, 109302u128)).is_none());
    assert_eq!(storage.iter().len(), 2);
    assert!(storage.validate());
}

#[test]
fn remove_whole_chunk_compacts() {
    let mut storage = numbers();
    let removed = storage.remove(&Query::Chunks(vec![1]), |_x: &(u8, u16, i64)| true);
    assert_eq!(removed.len(), 3);
    let mut keys: Vec<u8> = storage.chunk_keys().into_iter().copied().collect();
    keys.sort();
    assert_eq!(keys, vec![2, 3]);
    assert!(storage.validate());
    assert_eq!(storage.iter().len(), 3);
    assert_eq!(storage.get(&Id::new(3u8, 3002u16)), Some(&(3, 3002, -23)));
    assert_eq!(storage.get(&Id::new(2u8, 2001u16)), Some(&(2, 2001, -19)));
}

#[test]
fn remove_every_chunk_leaves_nothing() {
    let mut storage = numbers();
    let removed = storage.remove(&Query::Everything, |_x: &(u8, u16, i64)| true);
    assert_eq!(removed.len(), 6);
    assert!(storage.chunk_keys().is_empty());
    assert!(storage.validate());
    storage.add((5, 5, 5));
    assert_eq!(storage.chunk_keys(), vec![&5]);
}

#[test]
fn remove_single_id_then_empty_chunk_goes() {
    let mut storage = numbers();
    let removed = storage.remove(&Query::Id(3, 3002), |_x: &(u8, u16, i64)| true);
    assert_eq!(removed, vec![(3, 3002, -23)]);
    assert!(!storage.chunk_keys().contains(&&3));
    assert!(storage.validate());
}

#[test]
fn entry_get_modify_insert() {
    let mut storage: Storage<usize, usize, (usize, usize, bool)> = Storage::new(9);
    storage.add((1, 1, false));
    storage.add((1, 2, true));
    storage.add((2, 1, false));

    assert_eq!(storage.entry(&Id::new(1usize, 1usize)).get(&storage).map(|x| x.2), Some(false));

    let e = storage.entry(&Id::new(2usize, 1usize));
    assert!(e.and_modify(&mut storage, |x: &(usize, usize, bool)| (x.0, x.1, true)));
    assert_eq!(storage.get(&Id::new(2usize, 1usize)).map(|x| x.2), Some(true));

    let missing = storage.entry(&Id::new(9usize, 9usize));
    assert!(!missing.and_modify(&mut storage, |x: &(usize, usize, bool)| (x.0, x.1, true)));
    assert_eq!(storage.iter().len(), 3);

    let fresh = storage.entry(&Id::new(3usize, 1usize));
    assert!(fresh.or_insert_with(&mut storage, || (3, 1, true)));
    assert_eq!(storage.get(&Id::new(3usize, 1usize)), Some(&(3, 1, true)));
    assert!(!fresh.or_insert_with(&mut storage, || (3, 1, false)));
    assert_eq!(storage.get(&Id::new(3usize, 1usize)), Some(&(3, 1, true)));
    assert!(storage.validate());
}

#[test]
fn string_keys() {
    let mut storage: Storage<String, u64, (String, u64, u32)> = Storage::new(10);
    storage.add((String::from("PS109"), 89875, 1));
    storage.add((String::from("PS109"), 99200, 2));
    storage.add((String::from("Northwood Elementary"), 1029, 3));
    assert_eq!(
        storage.get(&Id::new(String::from("Northwood Elementary"), 1029u64)).map(|x| x.2),
        Some(3)
    );
    assert_eq!(storage.chunk_keys().len(), 2);
    assert!(storage.validate());
}

#[test]
fn new_storage_is_empty() {
    let mut storage: Storage<u8, u8, (u8, u8, u8)> = Storage::new(11);
    assert!(storage.iter().is_empty());
    assert!(storage.chunk_keys().is_empty());
    assert!(storage.validate());
}

#[test]
fn gc_forgets_removed_chunks_only() {
    let mut storage = numbers();
    let mut snapshot: Vec<Option<u8>> = Vec::new();
    let mut data: Vec<(u8, &'static str)> = vec![(1, "one"), (2, "two"), (3, "three"), (9, "nine")];
    storage.gc(&mut snapshot, &mut data);
    assert_eq!(data.len(), 4);
    let mut keys: Vec<u8> = snapshot.iter().map(|k| k.unwrap()).collect();
    keys.sort();
    assert_eq!(keys, vec![1, 2, 3]);

    storage.remove_chunk(&2);
    storage.add((4, 1, 1));
    storage.gc(&mut snapshot, &mut data);
    assert_eq!(data, vec![(1, "one"), (3, "three"), (9, "nine")]);
    let mut keys: Vec<u8> = snapshot.iter().map(|k| k.unwrap()).collect();
    keys.sort();
    assert_eq!(keys, vec![1, 3, 4]);
}

#[test]
fn reference_to_record_is_a_record() {
    let storage = three_records();
    let id = Id::new(1u8, "b");
    assert_eq!(storage.get(&&id), Some(&(1, "b", 20)));
    let record: Triple = (2, "c", 0);
    assert_eq!(storage.get(&&record), Some(&(2, "c", 30)));
}
