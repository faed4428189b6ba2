use simagef::database::{
    fetch, insert, insert_batch, InsertionMessage, SignatureRow, WriteBatch, BATCH_SIZE,
};

fn message(name: &str, modified: u64) -> InsertionMessage {
    InsertionMessage { filename_s: name.to_string(), modified, signature: vec![1, -1] }
}

#[test]
fn a_row_holds_the_signature_by_its_bits() {
    let row = insert("/tmp/a.png", 1_700_000_000, &vec![-1, 0, 1, -128, 127, -2]);
    assert_eq!(row.id, 0);
    assert_eq!(row.path, "/tmp/a.png");
    assert_eq!(row.modified, 1_700_000_000);
    assert_eq!(row.signature, vec![255, 0, 1, 128, 127, 254]);
}

#[test]
fn a_row_holds_the_time_by_its_bits() {
    assert_eq!(insert("a", 0, &Vec::new()).modified, 0);
    assert_eq!(insert("a", i64::MAX as u64, &Vec::new()).modified, i64::MAX);
    assert_eq!(insert("a", i64::MAX as u64 + 1, &Vec::new()).modified, i64::MIN);
    assert_eq!(insert("a", u64::MAX, &Vec::new()).modified, -1);
}

#[test]
fn what_was_recorded_is_found_again() {
    let signature: Vec<i8> = vec![-2, -1, 0, 1, 2, -128, 127];
    let row = insert("/tmp/a.png", 1000, &signature);
    let entry = fetch(Some(row), 1000).unwrap();
    assert_eq!(entry.signature, signature);
    assert_eq!(entry.modified, 1000);
    assert_eq!(entry.path, "/tmp/a.png");
    assert_eq!(entry.id, 0);
}

#[test]
fn a_row_serves_until_the_file_changes() {
    let signature: Vec<i8> = vec![5, 6];
    assert!(fetch(Some(insert("a", 1000, &signature)), 999).is_some());
    assert!(fetch(Some(insert("a", 1000, &signature)), 0).is_some());
    assert!(fetch(Some(insert("a", 1000, &signature)), 1000).is_some());
    assert!(fetch(Some(insert("a", 1000, &signature)), 1001).is_none());
    assert!(fetch(Some(insert("a", 1000, &signature)), u64::MAX).is_none());
}

#[test]
fn times_beyond_the_signed_range_are_compared_as_unsigned() {
    let late = i64::MAX as u64 + 10;
    assert!(fetch(Some(insert("a", late, &vec![1])), late).is_some());
    assert!(fetch(Some(insert("a", late, &vec![1])), 5).is_some());
    assert!(fetch(Some(insert("a", late, &vec![1])), late + 1).is_none());
    let row = SignatureRow { id: 3, path: "a".to_string(), modified: -1, signature: vec![200] };
    let entry = fetch(Some(row), u64::MAX).unwrap();
    assert_eq!(entry.modified, u64::MAX);
    assert_eq!(entry.signature, vec![-56]);
    assert_eq!(entry.id, 3);
}

#[test]
fn a_path_without_a_row_has_no_entry() {
    assert!(fetch(None, 0).is_none());
    assert!(fetch(None, 1000).is_none());
}

#[test]
fn a_batch_is_written_row_by_row_in_order() {
    let messages = vec![
        InsertionMessage { filename_s: "a".to_string(), modified: 1, signature: vec![-1] },
        InsertionMessage { filename_s: "b".to_string(), modified: 2, signature: vec![2, 3] },
    ];
    let rows = insert_batch(&messages);
    assert_eq!(rows.len(), 2);
    assert_eq!(rows[0].path, "a");
    assert_eq!(rows[0].modified, 1);
    assert_eq!(rows[0].signature, vec![255]);
    assert_eq!(rows[1].path, "b");
    assert_eq!(rows[1].modified, 2);
    assert_eq!(rows[1].signature, vec![2, 3]);
    assert!(insert_batch(&Vec::new()).is_empty());
}

#[test]
fn writes_leave_in_batches_of_one_hundred() {
    assert_eq!(BATCH_SIZE, 100);
    let mut batch = WriteBatch::new(BATCH_SIZE);
    let mut written: Vec<Vec<u64>> = Vec::new();
    for i in 0..250u64 {
        if let Some(full) = batch.push(message("f", i)) {
            written.push(full.iter().map(|m| m.modified).collect());
        }
    }
    let rest: Vec<u64> = batch.finish().iter().map(|m| m.modified).collect();
    assert_eq!(written.len(), 2);
    assert_eq!(written[0], (0..100).collect::<Vec<u64>>());
    assert_eq!(written[1], (100..200).collect::<Vec<u64>>());
    assert_eq!(rest, (200..250).collect::<Vec<u64>>());
}

#[test]
fn the_last_batch_may_be_empty() {
    let mut batch = WriteBatch::new(2);
    assert!(batch.push(message("a", 1)).is_none());
    assert_eq!(batch.push(message("b", 2)).unwrap().len(), 2);
    assert!(batch.finish().is_empty());
    assert!(WriteBatch::new(100).finish().is_empty());
}

#[test]
fn a_batch_of_one_leaves_with_every_message() {
    let mut batch = WriteBatch::new(1);
    assert_eq!(batch.push(message("a", 1)).unwrap().len(), 1);
    assert_eq!(batch.push(message("b", 2)).unwrap()[0].filename_s, "b");
    let mut none = WriteBatch::new(0);
    assert_eq!(none.push(message("c", 3)).unwrap().len(), 1);
}
