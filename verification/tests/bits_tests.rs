use knn_core::bits::{BitArray, NUM_BITS, distance, from_bools};

#[test]
fn test_bits() {
    let mut b = BitArray::new();
    assert_eq!(0, b.len());
    b.add(false);
    assert_eq!(1, b.len());
    assert!(!b.is_set(0));
    assert_eq!(0, b.count_bits_on());

    b.add(true);
    assert_eq!(2, b.len());
    assert!(b.is_set(1));
    assert_eq!(1, b.count_bits_on());

    for _ in 0..NUM_BITS {
        b.add(true);
    }
    assert_eq!(NUM_BITS + 2, b.len());
    for i in 1..b.len() {
        assert!(b.is_set(i));
    }
    assert_eq!(b.len() as u32 - 1, b.count_bits_on());

    let mut b2 = BitArray::new();
    for i in 0..b.len() {
        b2.add(i % 2 == 0);
    }

    let b3 = b.xor(&b2);
    assert_eq!((b.len() as u32 / 2) + 1, b3.count_bits_on());
    assert_eq!(b3.count_bits_on(), distance(&b, &b2));

    assert!(!b.equals(&b2));
    assert!(!b2.equals(&b3));
    assert!(!b.equals(&b3));

    assert!(b.equals(&b.clone()));
    assert!(b2.equals(&b2.clone()));
    assert!(b3.equals(&b3.clone()));
}

#[test]
fn test_hamming_laws_concrete() {
    let a = from_bools(&vec![true, false, true, true, false]);
    let b = from_bools(&vec![false, false, true, false, true]);
    assert_eq!(distance(&a, &b), distance(&b, &a));
    assert_eq!(0, distance(&a, &a));
    assert!(distance(&a, &b) as u64 <= a.len());
    assert_eq!(3, distance(&a, &b));
}

#[test]
fn test_count_matches_get() {
    let vals = vec![true, true, false, true, false, false, true, true];
    let b = from_bools(&vals);
    let mut brute: u32 = 0;
    for i in 0..b.len() {
        if b.is_set(i) {
            brute += 1;
        }
    }
    assert_eq!(brute, b.count_bits_on());
}

#[test]
fn test_append_round_trip() {
    let vals = vec![true, false, false, true, true, false, true];
    let b = from_bools(&vals);
    assert_eq!(vals.len() as u64, b.len());
    for i in 0..vals.len() {
        assert_eq!(vals[i], b.is_set(i as u64));
    }
}

#[test]
fn test_set_overwrites() {
    let mut b = from_bools(&vec![false, false, false]);
    b.set(1, true);
    assert!(!b.is_set(0));
    assert!(b.is_set(1));
    assert!(!b.is_set(2));
    b.set(1, false);
    assert_eq!(0, b.count_bits_on());
}
