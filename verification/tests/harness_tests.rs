use knn_core::training_harness::ConfusionMatrix;
use knn_core::hash_histogram::HashHistogram;

#[test]
fn test_matrix() {
    let mut matrix = ConfusionMatrix::new();

    let one_ok = 6;
    let one_er = 4;
    let two_ok = 7;
    let two_er = 3;

    for _ in 0..one_ok {
        matrix.record(1, 1);
    }

    for _ in 0..one_er {
        matrix.record(1, 2);
    }

    for _ in 0..two_ok {
        matrix.record(2, 2);
    }

    for _ in 0..two_er {
        matrix.record(2, 1);
    }

    assert_eq!(
        format!(
            "1: {} correct, {} incorrect\n2: {} correct, {} incorrect\n",
            one_ok, one_er, two_ok, two_er
        ),
        matrix.summary()
    );
}

#[test]
fn test_matrix_counts() {
    let mut matrix = ConfusionMatrix::new();
    matrix.record(5, 5);
    matrix.record(5, 3);
    matrix.record(5, 3);
    assert_eq!(1, matrix.correct_count(5));
    assert_eq!(2, matrix.incorrect_count(5));
    let (wrong, total) = matrix.error_counts();
    assert_eq!(2, wrong);
    assert_eq!(3, total);
    let labels = matrix.all_labels();
    assert_eq!(vec![5u8], labels);
}

#[test]
fn test_histogram_get_and_bump() {
    let mut h = HashHistogram::new();
    assert_eq!(0, h.get(42));
    let n = 9;
    for _ in 0..n {
        h.bump(42);
    }
    assert_eq!(n, h.get(42));
    assert_eq!(0, h.get(41));
    assert_eq!(n, h.total());
}

#[test]
fn test_histogram_mode() {
    let mut h = HashHistogram::new();
    for _ in 0..3 {
        h.bump(97);
    }
    for _ in 0..5 {
        h.bump(98);
    }
    assert_eq!(98, h.mode());
    assert_eq!(vec![97u64, 98u64], h.all_labels());
}

#[test]
fn test_histogram_mode_tie_breaks_to_first() {
    let mut h = HashHistogram::new();
    h.bump(7);
    h.bump(2);
    assert_eq!(7, h.mode());
}
