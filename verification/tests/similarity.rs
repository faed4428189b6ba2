use simagef::shared::CompareTask;
use simagef::similarity::{cosine_similarity, verify_pair, Similarity, MAX_PRODUCT};

#[test]
fn the_parts_of_a_similarity_are_exact() {
    let s = cosine_similarity(&vec![1, 2, 3], &vec![4, 5, 6]).unwrap();
    assert_eq!(s.dot_value(), 32);
    assert_eq!(s.norms(), (14, 77));
}

#[test]
fn the_parts_hold_the_extremes_of_a_byte() {
    let s = cosine_similarity(&vec![-128, 127, -128], &vec![-128, -128, 127]).unwrap();
    assert_eq!(s.dot_value(), 16384 - 16256 - 16256);
    assert_eq!(s.norms(), (16384 + 16129 + 16384, 16384 + 16384 + 16129));
}

#[test]
fn cosine_similarity_is_symmetric() {
    let vectors: Vec<Vec<i8>> = vec![
        vec![1, 2, 3, 4],
        vec![-1, 2, -3, 4],
        vec![0, 0, 0, 1],
        vec![2, 2, 2, 2],
        vec![-128, 127, 0, 5],
        vec![1, 2, 3, 5],
    ];
    for a in &vectors {
        for b in &vectors {
            let one = cosine_similarity(a, b).unwrap();
            let other = cosine_similarity(b, a).unwrap();
            assert_eq!(one.dot_value(), other.dot_value());
            assert_eq!(one.norms(), (other.norms().1, other.norms().0));
            for threshold in 0..=100u8 {
                assert_eq!(one.exceeds(threshold), other.exceeds(threshold));
            }
        }
    }
}

#[test]
fn a_similarity_equal_to_the_threshold_is_rejected() {
    // 9 / sqrt(10 * 10) is exactly 0.9.
    let s = Similarity::from_parts(9, 10, 10).unwrap();
    assert!(!s.exceeds(90));
    assert!(s.exceeds(89));
    assert!(!s.exceeds(91));
}

#[test]
fn a_similarity_just_above_the_threshold_is_accepted() {
    let s = Similarity::from_parts(9001, 10000, 10000).unwrap();
    assert!(s.exceeds(90));
    let t = Similarity::from_parts(9000, 10000, 10000).unwrap();
    assert!(!t.exceeds(90));
    let u = Similarity::from_parts(8999, 10000, 10000).unwrap();
    assert!(!u.exceeds(90));
}

#[test]
fn equal_vectors_exceed_every_threshold_below_one_hundred() {
    let s = cosine_similarity(&vec![3, 4], &vec![3, 4]).unwrap();
    assert!(s.exceeds(0));
    assert!(s.exceeds(99));
    assert!(!s.exceeds(100));
}

#[test]
fn vectors_on_one_line_are_as_similar_as_equal_ones() {
    let s = cosine_similarity(&vec![1, 2, 3], &vec![2, 4, 6]).unwrap();
    assert!(s.exceeds(99));
    assert!(!s.exceeds(100));
}

#[test]
fn a_vector_of_length_zero_matches_nothing() {
    let s = cosine_similarity(&vec![0, 0], &vec![1, 2]).unwrap();
    assert!(!s.exceeds(0));
    let t = cosine_similarity(&vec![0, 0], &vec![0, 0]).unwrap();
    assert!(!t.exceeds(0));
    let e = cosine_similarity(&Vec::new(), &Vec::new()).unwrap();
    assert!(!e.exceeds(0));
}

#[test]
fn vectors_at_right_angles_or_opposed_match_nothing() {
    let right = cosine_similarity(&vec![1, 0], &vec![0, 1]).unwrap();
    assert!(!right.exceeds(0));
    let opposed = cosine_similarity(&vec![1, 2], &vec![-1, -2]).unwrap();
    assert_eq!(opposed.dot_value(), -5);
    assert!(!opposed.exceeds(0));
}

#[test]
fn vectors_of_different_lengths_are_not_compared() {
    assert!(cosine_similarity(&vec![1, 2, 3], &vec![1, 2]).is_none());
    assert!(cosine_similarity(&Vec::new(), &vec![1]).is_none());
}

#[test]
fn a_similarity_holds_parts_up_to_the_limit() {
    let limit = MAX_PRODUCT;
    assert!(Similarity::from_parts(limit as i64, limit, limit).is_some());
    assert!(Similarity::from_parts(-(limit as i64), limit, limit).is_some());
    assert!(Similarity::from_parts(0, 0, 0).is_some());
    assert!(Similarity::from_parts(limit as i64 + 1, limit, limit).is_none());
    assert!(Similarity::from_parts(-(limit as i64) - 1, limit, limit).is_none());
    assert!(Similarity::from_parts(0, limit + 1, limit).is_none());
    assert!(Similarity::from_parts(0, limit, limit + 1).is_none());
}

#[test]
fn the_largest_parts_are_compared_without_overflow() {
    let limit = MAX_PRODUCT;
    let s = Similarity::from_parts(limit as i64, limit, limit).unwrap();
    assert!(s.exceeds(99));
    assert!(!s.exceeds(100));
    assert!(!s.exceeds(255));
}

#[test]
fn the_threshold_is_read_in_percent() {
    // The similarity is 0.5.
    let s = Similarity::from_parts(1, 2, 2).unwrap();
    assert!(s.exceeds(49));
    assert!(!s.exceeds(50));
    assert!(!s.exceeds(51));
}

#[test]
fn an_accepted_pair_keeps_its_indices_and_its_score() {
    let task = CompareTask { index1: 7, index2: 3 };
    let pairing = verify_pair(&task, &vec![1, 2, 3], &vec![1, 2, 4], 90).unwrap();
    assert_eq!(pairing.index1, 7);
    assert_eq!(pairing.index2, 3);
    assert_eq!(pairing.score.dot_value(), 17);
    assert_eq!(pairing.score.norms(), (14, 21));
}

#[test]
fn a_pair_below_the_threshold_is_rejected() {
    let task = CompareTask { index1: 1, index2: 0 };
    assert!(verify_pair(&task, &vec![1, 0, 0], &vec![0, 1, 0], 90).is_none());
    assert!(verify_pair(&task, &vec![1, 2, 3], &vec![3, 2, 1], 90).is_none());
    assert!(verify_pair(&task, &vec![1, 2, 3], &vec![3, 2, 1], 70).is_some());
}

#[test]
fn a_pair_that_cannot_be_compared_is_rejected() {
    let task = CompareTask { index1: 1, index2: 0 };
    assert!(verify_pair(&task, &vec![1, 2, 3], &vec![1, 2], 0).is_none());
    assert!(verify_pair(&task, &vec![0, 0], &vec![0, 0], 0).is_none());
}

#[test]
fn a_similarity_beyond_one_is_none_of_two_vectors() {
    assert!(Similarity::from_parts(10, 10, 10).is_some());
    assert!(Similarity::from_parts(-10, 10, 10).is_some());
    assert!(Similarity::from_parts(11, 10, 10).is_none());
    assert!(Similarity::from_parts(-11, 10, 10).is_none());
    assert!(Similarity::from_parts(1, 0, 5).is_none());
    assert!(Similarity::from_parts(6, 4, 9).is_some());
    assert!(Similarity::from_parts(7, 4, 9).is_none());
}

#[test]
fn no_pair_of_vectors_exceeds_one_hundred_percent() {
    let vectors: Vec<Vec<i8>> =
        vec![vec![1, 2, 3], vec![2, 4, 6], vec![-128, -128, -128], vec![127, 0, 1], vec![3, 2, 1]];
    for a in &vectors {
        for b in &vectors {
            let s = cosine_similarity(a, b).unwrap();
            let (norm1, norm2) = s.norms();
            let dot = s.dot_value() as i128;
            assert!(dot * dot <= norm1 as i128 * norm2 as i128);
            assert!(!s.exceeds(100));
        }
    }
}
