use knn_core::bits::{BitArray, HammingSpace, from_bools};
use knn_core::knn::Knn;
use knn_core::training_harness::Classifier;

fn bits_of(vals: &[bool]) -> BitArray {
    from_bools(&vals.to_vec())
}

#[test]
fn test_end_to_end_hamming_knn() {
    let space = HammingSpace { len: 4 };
    let mut model = Knn::new(1, space);
    let examples = vec![
        (0u8, bits_of(&[true, false, true, false])),
        (1u8, bits_of(&[false, true, false, true])),
    ];
    model.train(&examples);
    let query = bits_of(&[true, false, true, false]);
    assert_eq!(0, model.classify(&query));
    let other = bits_of(&[false, true, false, true]);
    assert_eq!(1, model.classify(&other));
}

#[test]
fn test_exact_match_wins() {
    let space = HammingSpace { len: 3 };
    let mut model = Knn::new(1, space);
    model.add_example((4, bits_of(&[true, true, false])));
    model.add_example((9, bits_of(&[false, false, true])));
    model.add_example((2, bits_of(&[true, false, false])));
    assert_eq!(9, model.classify(&bits_of(&[false, false, true])));
}

#[test]
fn test_all_tied_votes_full_set() {
    // Every stored example is at the same distance from the query, and k
    // covers the whole set: the result is the mode over all labels.
    let space = HammingSpace { len: 2 };
    let mut model = Knn::new(3, space);
    model.add_example((7, bits_of(&[true, false])));
    model.add_example((3, bits_of(&[false, true])));
    model.add_example((7, bits_of(&[true, false])));
    // bits [true, true] differs from each stored example in exactly one spot.
    assert_eq!(7, model.classify(&bits_of(&[true, true])));
}

#[test]
fn test_knn_test_tallies() {
    let space = HammingSpace { len: 4 };
    let mut model = Knn::new(1, space);
    model.train(&vec![
        (0u8, bits_of(&[true, false, true, false])),
        (1u8, bits_of(&[false, true, false, true])),
    ]);
    let queries = vec![
        (0u8, bits_of(&[true, false, true, false])),
        (1u8, bits_of(&[false, true, false, true])),
        (1u8, bits_of(&[true, false, true, false])),
    ];
    let cm = model.test(&queries);
    let (wrong, total) = cm.error_counts();
    assert_eq!(1, wrong);
    assert_eq!(3, total);
    assert_eq!(1, cm.correct_count(0));
    assert_eq!(1, cm.correct_count(1));
    assert_eq!(1, cm.incorrect_count(1));
}
