use simagef::index::{get_bucket_width, ApproxIndex, BucketTable, IndexError};

fn keys(digits: &[i8]) -> Vec<Vec<i8>> {
    digits.iter().map(|digit| vec![*digit, 0, 1]).collect()
}

#[test]
fn the_bucket_width_follows_the_table() {
    let expected = [
        (0, 140),
        (9, 140),
        (10, 130),
        (19, 130),
        (20, 120),
        (29, 120),
        (30, 110),
        (39, 110),
        (40, 100),
        (49, 100),
        (50, 100),
        (59, 100),
        (60, 80),
        (69, 80),
        (70, 70),
        (79, 70),
        (80, 60),
        (89, 60),
        (90, 30),
        (94, 30),
        (95, 25),
        (100, 25),
        (255, 25),
    ];
    for (threshold, width) in expected {
        assert_eq!(get_bucket_width(threshold), width);
    }
}

#[test]
fn the_bucket_width_never_grows_with_the_threshold() {
    let mut last = get_bucket_width(0);
    for threshold in 1..=255u8 {
        let width = get_bucket_width(threshold);
        assert!(width <= last);
        last = width;
    }
}

#[test]
fn a_new_table_has_empty_buckets() {
    let table = BucketTable::new();
    assert!(table.members(&vec![1, 2, 3]).is_empty());
    assert!(table.members(&Vec::new()).is_empty());
}

#[test]
fn a_bucket_lists_its_members_in_the_order_stored() {
    let mut table = BucketTable::new();
    table.append(&vec![1, 2, 3], 4);
    table.append(&vec![1, 2, 4], 5);
    table.append(&vec![1, 2, 3], 0);
    table.append(&vec![], 9);
    assert_eq!(table.members(&vec![1, 2, 3]), vec![4, 0]);
    assert_eq!(table.members(&vec![1, 2, 4]), vec![5]);
    assert_eq!(table.members(&vec![]), vec![9]);
    assert!(table.members(&vec![1, 2]).is_empty());
    assert!(table.members(&vec![3, 2, 1]).is_empty());
    assert!(table.members(&vec![-1, 2, 3]).is_empty());
}

#[test]
fn many_keys_are_kept_apart() {
    let mut table = BucketTable::new();
    let mut index = 0;
    for a in -128..=127i16 {
        for b in [-128i16, -1, 0, 1, 127] {
            table.append(&vec![a as i8, b as i8], index);
            index += 1;
        }
    }
    let mut index = 0;
    for a in -128..=127i16 {
        for b in [-128i16, -1, 0, 1, 127] {
            assert_eq!(table.members(&vec![a as i8, b as i8]), vec![index]);
            index += 1;
        }
    }
}

#[test]
fn a_new_index_is_empty() {
    let index = ApproxIndex::new(20);
    assert_eq!(index.len(), 0);
    assert_eq!(index.tables(), 20);
    assert_eq!(index.query_candidates(&keys(&[0; 20])).unwrap(), Vec::<usize>::new());
}

#[test]
fn dense_indices_count_up_from_zero() {
    let mut index = ApproxIndex::new(3);
    for expected in 0..50usize {
        assert_eq!(index.len(), expected);
        let given = index.insert(&keys(&[expected as i8, 1, 2])).unwrap();
        assert_eq!(given, expected);
    }
    assert_eq!(index.len(), 50);
}

#[test]
fn a_query_finds_what_shares_a_bucket_in_some_table() {
    let mut index = ApproxIndex::new(3);
    index.insert(&keys(&[1, 1, 1])).unwrap();
    index.insert(&keys(&[2, 2, 2])).unwrap();
    index.insert(&keys(&[1, 2, 3])).unwrap();
    index.insert(&keys(&[9, 9, 3])).unwrap();
    let mut found = index.query_candidates(&keys(&[1, 5, 5])).unwrap();
    found.sort();
    assert_eq!(found, vec![0, 2]);
    let mut found = index.query_candidates(&keys(&[7, 2, 3])).unwrap();
    found.sort();
    assert_eq!(found, vec![1, 2, 3]);
    assert!(index.query_candidates(&keys(&[3, 3, 9])).unwrap().is_empty());
    assert_eq!(index.len(), 4);
}

#[test]
fn a_key_counts_only_in_its_own_table() {
    let mut index = ApproxIndex::new(2);
    index.insert(&keys(&[1, 2])).unwrap();
    assert!(index.query_candidates(&keys(&[2, 1])).unwrap().is_empty());
    assert_eq!(index.query_candidates(&keys(&[1, 1])).unwrap(), vec![0]);
    assert_eq!(index.query_candidates(&keys(&[2, 2])).unwrap(), vec![0]);
}

#[test]
fn a_vector_found_in_several_tables_is_named_once() {
    let mut index = ApproxIndex::new(4);
    index.insert(&keys(&[1, 2, 3, 4])).unwrap();
    index.insert(&keys(&[1, 2, 3, 4])).unwrap();
    let mut found = index.query_candidates(&keys(&[1, 2, 3, 4])).unwrap();
    found.sort();
    assert_eq!(found, vec![0, 1]);
}

#[test]
fn a_vector_is_paired_only_with_those_before_it() {
    let mut index = ApproxIndex::new(2);
    let first = index.insert_and_query(&keys(&[1, 1])).unwrap();
    assert_eq!(first.index, 0);
    assert!(first.tasks.is_empty());
    let second = index.insert_and_query(&keys(&[1, 1])).unwrap();
    assert_eq!(second.index, 1);
    assert_eq!(second.tasks.len(), 1);
    assert_eq!((second.tasks[0].index1, second.tasks[0].index2), (1, 0));
    let third = index.insert_and_query(&keys(&[1, 2])).unwrap();
    assert_eq!(third.index, 2);
    let mut pairs: Vec<(usize, usize)> =
        third.tasks.iter().map(|task| (task.index1, task.index2)).collect();
    pairs.sort();
    assert_eq!(pairs, vec![(2, 0), (2, 1)]);
    let fourth = index.insert_and_query(&keys(&[5, 5])).unwrap();
    assert_eq!(fourth.index, 3);
    assert!(fourth.tasks.is_empty());
    assert_eq!(index.len(), 4);
}

#[test]
fn no_pair_is_named_twice_in_a_run() {
    let mut index = ApproxIndex::new(3);
    let mut seen: Vec<(usize, usize)> = Vec::new();
    for round in 0..40i8 {
        let insertion = index.insert_and_query(&keys(&[round % 3, round % 4, round % 5])).unwrap();
        assert_eq!(insertion.index, round as usize);
        for task in &insertion.tasks {
            assert_eq!(task.index1, insertion.index);
            assert!(task.index2 < task.index1);
            let pair = (task.index2, task.index1);
            assert!(!seen.contains(&pair));
            seen.push(pair);
        }
    }
    // Vectors 0 and 3 agree in the first table, 0 and 1 in none.
    assert!(seen.contains(&(0, 3)));
    assert!(!seen.contains(&(0, 1)));
}

#[test]
fn another_number_of_keys_than_tables_is_refused() {
    let mut index = ApproxIndex::new(3);
    assert_eq!(index.insert(&keys(&[1, 2])).unwrap_err(), IndexError::KeyCount);
    assert_eq!(index.insert(&keys(&[1, 2, 3, 4])).unwrap_err(), IndexError::KeyCount);
    assert_eq!(index.query_candidates(&keys(&[])).unwrap_err(), IndexError::KeyCount);
    assert_eq!(index.insert_and_query(&keys(&[1])).unwrap_err(), IndexError::KeyCount);
    assert_eq!(index.len(), 0);
    assert_eq!(index.insert(&keys(&[1, 2, 3])).unwrap(), 0);
}

#[test]
fn an_index_without_tables_pairs_nothing() {
    let mut index = ApproxIndex::new(0);
    assert_eq!(index.insert_and_query(&Vec::new()).unwrap().index, 0);
    let second = index.insert_and_query(&Vec::new()).unwrap();
    assert_eq!(second.index, 1);
    assert!(second.tasks.is_empty());
}
