use simagef::database::{insert, insert_batch};
use simagef::extraction::{
    fetch_signature, path_text, record_signature, FetchStep, ProgressCounter, SigFetchError,
    PROGRESS_STEP,
};

#[test]
fn a_fresh_row_is_served_from_the_cache() {
    let signature: Vec<i8> = vec![1, -2, 3];
    match fetch_signature(Some(insert("a", 50, &signature)), 50) {
        FetchStep::Cached(found) => assert_eq!(found, signature),
        FetchStep::Compute => panic!("the row serves"),
    }
}

#[test]
fn a_stale_or_missing_row_is_computed_again() {
    assert!(matches!(fetch_signature(Some(insert("a", 50, &vec![1])), 51), FetchStep::Compute));
    assert!(matches!(fetch_signature(None, 0), FetchStep::Compute));
}

#[test]
fn a_second_run_on_unchanged_files_computes_nothing() {
    let files: Vec<(&str, u64, Vec<i8>)> =
        vec![("a.png", 10, vec![1, 2]), ("b.png", 20, vec![-3, 4]), ("c.png", 30, vec![])];
    // First run: nothing is cached, every signature is computed and recorded.
    let mut messages = Vec::new();
    for (path, modified, signature) in &files {
        assert!(matches!(fetch_signature(None, *modified), FetchStep::Compute));
        messages.push(record_signature(path, *modified, signature));
    }
    let rows = insert_batch(&messages);
    // Second run: every row serves, with the signature recorded.
    for (row, (path, modified, signature)) in rows.into_iter().zip(files.iter()) {
        assert_eq!(&row.path, path);
        match fetch_signature(Some(row), *modified) {
            FetchStep::Cached(found) => assert_eq!(&found, signature),
            FetchStep::Compute => panic!("the row serves"),
        }
    }
}

#[test]
fn a_message_carries_what_was_computed() {
    let message = record_signature("/tmp/a.png", 77, &vec![9, -9]);
    assert_eq!(message.filename_s, "/tmp/a.png");
    assert_eq!(message.modified, 77);
    assert_eq!(message.signature, vec![9, -9]);
}

#[test]
fn progress_is_reported_every_five_files() {
    assert_eq!(PROGRESS_STEP, 5);
    let mut counter = ProgressCounter::new();
    for _ in 0..4 {
        assert_eq!(counter.count_one(), None);
    }
    assert_eq!(counter.count_one(), Some(5));
    counter.sent();
    for _ in 0..4 {
        assert_eq!(counter.count_one(), None);
    }
    assert_eq!(counter.count_one(), Some(5));
    counter.sent();
    assert_eq!(counter.count_one(), None);
    assert_eq!(counter.finish(), 1);
}

#[test]
fn a_report_that_was_not_passed_on_is_offered_again() {
    let mut counter = ProgressCounter::new();
    for _ in 0..4 {
        counter.count_one();
    }
    assert_eq!(counter.count_one(), Some(5));
    assert_eq!(counter.count_one(), Some(6));
    assert_eq!(counter.count_one(), Some(7));
    counter.sent();
    assert_eq!(counter.finish(), 0);
}

#[test]
fn a_path_that_is_no_text_is_an_error() {
    assert_eq!(path_text(Some("/tmp/a".to_string())).unwrap(), "/tmp/a");
    let error = path_text(None).unwrap_err();
    assert_eq!(
        error.message(),
        "Error converting file path to string: Unable to convert file path"
    );
    let other = SigFetchError::PathConversionError("x".to_string());
    assert_eq!(other.message(), "Error converting file path to string: x");
}
