use voyager::Error;
use voyager::Index;
use voyager::Voyager;

#[test]
fn test_voyager() {
    let mut v = Voyager::new(5);

    let v1 = vec![1, 2, 3, 4, 5];
    let v2 = vec![6, 7, 8, 9, 10];

    v.add_item(&v1, Some(1)).unwrap();
    v.add_item(&v2, Some(2)).unwrap();

    let (result, distance) = v.query(&v1, 2, None).unwrap();

    assert!(result == vec![1, 2]);
    assert!(distance == vec![0, 125]);
}

#[test]
fn test_distance() {
    let v = Voyager::new(5);

    let v1 = vec![1, 2, 3, 4, 5];
    let v2 = vec![6, 7, 8, 9, 10];

    let distance = v.get_distance(&v1, &v2);

    assert!(distance == 125);
}

#[test]
fn test_save() {
    let mut v = Voyager::new(5);

    let v1 = vec![1, 2, 3, 4, 5];
    let v2 = vec![6, 7, 8, 9, 10];

    v.add_item(&v1, Some(1)).unwrap();
    v.add_item(&v2, Some(2)).unwrap();

    let bytes = v.save();
    assert!(bytes.len() > 0);
    assert!(bytes.len() % 8 == 0);
}

#[test]
fn test_load() {
    let mut v = Voyager::new(5);

    let v1 = vec![1, 2, 3, 4, 5];
    let v2 = vec![6, 7, 8, 9, 10];

    v.add_item(&v1, Some(1)).unwrap();
    v.add_item(&v2, Some(2)).unwrap();

    let bytes = v.save();

    let mut new_v = Voyager::new(5);
    new_v.load(&bytes).unwrap();

    let (result, distance) = new_v.query(&v1, 2, None).unwrap();
    assert!(result == vec![1, 2]);
    assert!(distance == vec![0, 125]);
}

#[test]
fn test_runtime() {
    let mut index = Index::new(5);

    let v1 = vec![1, 2, 3, 4, 5];
    let v2 = vec![6, 7, 8, 9, 10];

    index.add_item(&v1, Some(0)).unwrap();
    index.add_item(&v2, Some(1)).unwrap();

    let (a, b) = index.query(&v1, 2, None).unwrap();

    assert!(a == vec![0, 1]);
    assert!(b == vec![0, 125]);
}

#[test]
fn single_item_is_its_own_nearest_neighbor() {
    let mut v = Voyager::new(3);
    v.add_item(&vec![7, -2, 9], Some(1)).unwrap();
    let (ids, dists) = v.query(&vec![7, -2, 9], 1, None).unwrap();
    assert_eq!(ids, vec![1]);
    assert_eq!(dists, vec![0]);
}

#[test]
fn distance_is_symmetric_and_zero_on_self() {
    let v = Voyager::new(4);
    let a = vec![3, -1, 4, 1];
    let b = vec![-5, 9, 2, 6];
    assert_eq!(v.get_distance(&a, &b), v.get_distance(&b, &a));
    assert_eq!(v.get_distance(&a, &a), 0);
    assert_eq!(v.get_distance(&b, &b), 0);
}

#[test]
fn omitted_ids_count_up_from_zero() {
    let mut v = Voyager::new(2);
    assert_eq!(v.add_item(&vec![0, 0], None).unwrap(), 0);
    assert_eq!(v.add_item(&vec![1, 0], None).unwrap(), 1);
    assert_eq!(v.add_item(&vec![2, 0], None).unwrap(), 2);
}

#[test]
fn omitted_id_skips_taken_ids() {
    let mut v = Voyager::new(2);
    v.add_item(&vec![0, 0], Some(0)).unwrap();
    v.add_item(&vec![1, 0], Some(1)).unwrap();
    assert_eq!(v.add_item(&vec![2, 0], None).unwrap(), 2);
    v.add_item(&vec![3, 0], Some(4)).unwrap();
    assert_eq!(v.add_item(&vec![4, 0], None).unwrap(), 3);
}

#[test]
fn query_for_more_than_stored_returns_all() {
    let mut v = Voyager::new(2);
    v.add_item(&vec![0, 0], Some(10)).unwrap();
    v.add_item(&vec![5, 5], Some(20)).unwrap();
    let (ids, dists) = v.query(&vec![1, 1], 7, None).unwrap();
    assert_eq!(ids.len(), 2);
    assert_eq!(dists.len(), 2);
    assert_eq!(ids, vec![10, 20]);
    assert_eq!(dists, vec![2, 32]);
}

#[test]
fn invalid_k_is_rejected() {
    let mut v = Voyager::new(2);
    v.add_item(&vec![0, 0], None).unwrap();
    assert_eq!(v.query(&vec![0, 0], 0, None).unwrap_err(), Error::InvalidK);
    assert_eq!(v.query(&vec![0, 0], -3, None).unwrap_err(), Error::InvalidK);
}

#[test]
fn ef_below_k_is_rejected() {
    let mut v = Voyager::new(2);
    v.add_item(&vec![0, 0], None).unwrap();
    assert_eq!(v.query(&vec![0, 0], 2, Some(1)).unwrap_err(), Error::InvalidEf);
    assert_eq!(v.query(&vec![0, 0], 1, Some(-1)).unwrap_err(), Error::InvalidEf);
}

#[test]
fn wrong_dimension_is_rejected() {
    let mut v = Voyager::new(3);
    assert_eq!(v.add_item(&vec![1, 2], None).unwrap_err(), Error::DimensionMismatch);
    v.add_item(&vec![1, 2, 3], None).unwrap();
    assert_eq!(v.query(&vec![1, 2], 1, None).unwrap_err(), Error::DimensionMismatch);
}

#[test]
fn reused_id_is_rejected_without_changes() {
    let mut v = Voyager::new(2);
    v.add_item(&vec![1, 1], Some(7)).unwrap();
    assert_eq!(v.add_item(&vec![2, 2], Some(7)).unwrap_err(), Error::IdCollision);
    assert_eq!(v.len(), 1);
    let (ids, dists) = v.query(&vec![1, 1], 1, None).unwrap();
    assert_eq!(ids, vec![7]);
    assert_eq!(dists, vec![0]);
}

#[test]
fn unknown_id_lookup_fails() {
    let mut store = voyager::VectorStore::new(2);
    store.put(3, vec![1, 2]).unwrap();
    assert!(store.get(3).is_ok());
    assert_eq!(store.get(4).unwrap_err(), Error::UnknownId);
}

#[test]
fn load_rejects_garbage() {
    let mut v = Voyager::new(2);
    v.add_item(&vec![1, 1], None).unwrap();
    assert_eq!(v.load(&vec![1, 2, 3]).unwrap_err(), Error::CorruptFormat);
    assert_eq!(v.load(&vec![0u8; 16]).unwrap_err(), Error::CorruptFormat);
    let (ids, _) = v.query(&vec![1, 1], 1, None).unwrap();
    assert_eq!(ids, vec![0]);
}

#[test]
fn load_rejects_unknown_version() {
    let mut v = Voyager::new(2);
    v.add_item(&vec![1, 1], None).unwrap();
    let mut bytes = v.save();
    bytes[0] = 99;
    let mut w = Voyager::new(2);
    assert_eq!(w.load(&bytes).unwrap_err(), Error::UnsupportedVersion);
    assert_eq!(w.len(), 0);
}

#[test]
fn load_rejects_other_dimension() {
    let mut v = Voyager::new(2);
    v.add_item(&vec![1, 1], None).unwrap();
    let bytes = v.save();
    let mut w = Voyager::new(3);
    assert_eq!(w.load(&bytes).unwrap_err(), Error::DimensionMismatch);
}

#[test]
fn load_rejects_truncation_and_trailing_bytes() {
    let mut v = Voyager::new(2);
    v.add_item(&vec![1, 1], None).unwrap();
    let bytes = v.save();
    let mut w = Voyager::new(2);
    let mut truncated = bytes.clone();
    truncated.truncate(bytes.len() - 8);
    assert_eq!(w.load(&truncated).unwrap_err(), Error::CorruptFormat);
    let mut extended = bytes.clone();
    extended.extend_from_slice(&[0u8; 8]);
    assert_eq!(w.load(&extended).unwrap_err(), Error::CorruptFormat);
    assert_eq!(w.len(), 0);
}

fn line_dataset(n: i32) -> Vec<Vec<i32>> {
    let mut data = Vec::new();
    let mut i: i32 = 0;
    while i < n {
        data.push(vec![10 * i, i, -i]);
        i += 1;
    }
    data
}

fn brute_force_top_k(data: &Vec<Vec<i32>>, q: &Vec<i32>, k: usize) -> Vec<u32> {
    let v = Voyager::new(3);
    let mut pairs: Vec<(u128, u32)> = Vec::new();
    for (i, x) in data.iter().enumerate() {
        pairs.push((v.get_distance(q, x), i as u32));
    }
    pairs.sort();
    pairs.truncate(k);
    pairs.into_iter().map(|p| p.1).collect()
}

#[test]
fn save_load_round_trip_reproduces_queries() {
    let data = line_dataset(25);
    let mut v = Voyager::new(3);
    for x in &data {
        v.add_item(x, None).unwrap();
    }
    let bytes = v.save();
    let mut w = Voyager::new(3);
    w.load(&bytes).unwrap();
    for q in &data {
        let before = v.query(q, 4, None).unwrap();
        let after = w.query(q, 4, None).unwrap();
        assert_eq!(before, after);
    }
    assert_eq!(bytes, w.save());
}

#[test]
fn results_are_sorted_and_exact_on_a_line() {
    let data = line_dataset(30);
    let mut v = Voyager::new(3);
    for x in &data {
        v.add_item(x, None).unwrap();
    }
    let q = vec![102, 10, -10];
    let (ids, dists) = v.query(&q, 5, Some(30)).unwrap();
    assert_eq!(ids.len(), 5);
    for i in 1..dists.len() {
        assert!(dists[i - 1] <= dists[i]);
    }
    let exact = brute_force_top_k(&data, &q, 5);
    assert_eq!(ids, exact);
}

#[test]
fn widening_the_beam_never_hurts_recall() {
    let data = line_dataset(40);
    let mut v = Voyager::new(3);
    for x in &data {
        v.add_item(x, None).unwrap();
    }
    let q = vec![203, 20, -20];
    let k = 5usize;
    let exact = brute_force_top_k(&data, &q, k);
    let mut last_recall = 0usize;
    for ef in [5i32, 10, 20, 40] {
        let (ids, _) = v.query(&q, k as i32, Some(ef)).unwrap();
        let recall = ids.iter().filter(|i| exact.contains(i)).count();
        assert!(recall >= last_recall);
        last_recall = recall;
    }
    assert_eq!(last_recall, k);
}
