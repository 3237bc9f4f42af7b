use piopkit::field::PrimeField;
use piopkit::rng::FiatShamirSim;
use piopkit::util::{bits, bits_from_int, ceil_log2, contains_range, floor_log2, gen_vector, int_from_bits, test_rot};
use rand::Rng;

#[test]
fn test_bits() {
    let n = 7;
    let int = rand::rng().random_range(0..(1usize << n));

    assert_eq!(int_from_bits(&vec![0; n]), 0);
    assert_eq!(int_from_bits(&vec![1; n]), (1 << n) - 1);
    assert_eq!(int_from_bits(&bits_from_int(int, n)), int);
    assert!(bits(n).len() == 1 << n);
    assert!(bits(n)
        .iter()
        .zip(0..(1 << n))
        .all(|(bv, i)| bits_from_int(i, n).iter().enumerate().all(|(ind, b)| bv[ind] == *b)));
}

#[test]
fn test_fiatshamirsim() {
    let n = 10;
    let field = PrimeField::new(65537).unwrap();

    let mut fs1 = FiatShamirSim::new(&field);
    let mut fs2 = FiatShamirSim::new(&field);

    assert!((0..n).all(|_| fs1.challenge() == fs2.challenge()));

    (0..n).for_each(|_| {
        fs1.challenge();
    });

    let mut fs3 = fs1.clone();

    assert!((0..n).all(|_| fs1.challenge() == fs3.challenge()));
}

#[test]
fn test_util_bits() {
    let n = 7;
    let int = rand::rng().random_range(0..(1usize << n));

    assert_eq!(int_from_bits(&vec![0; n]), 0);
    assert_eq!(int_from_bits(&vec![1; n]), (1 << n) - 1);
    assert_eq!(int_from_bits(&bits_from_int(int, n)), int);
    assert!(bits(n).len() == 1 << n);
    assert!(bits(n)
        .iter()
        .zip(0..(1 << n))
        .all(|(bv, i)| bits_from_int(i, n).iter().enumerate().all(|(ind, b)| bv[ind] == *b)));
}

#[test]
fn test_util_fiatshamirsim() {
    let n = 10;
    let field = PrimeField::new(65537).unwrap();

    let mut fs1 = FiatShamirSim::new(&field);
    let mut fs2 = FiatShamirSim::new(&field);

    assert!((0..n).all(|_| fs1.challenge() == fs2.challenge()));

    (0..n).for_each(|_| {
        fs1.challenge();
    });

    let mut fs3 = fs1.clone();

    assert!((0..n).all(|_| fs1.challenge() == fs3.challenge()));
}

#[test]
fn fiat_shamir_reset_restarts_the_sequence() {
    let field = PrimeField::new(101).unwrap();
    let mut fs = FiatShamirSim::new(&field);
    let first: Vec<u64> = (0..5).map(|_| fs.challenge()).collect();
    assert!(first.iter().all(|&c| 0 < c && c < 101));
    fs.reset();
    let again: Vec<u64> = (0..5).map(|_| fs.challenge()).collect();
    assert_eq!(first, again);
}

#[test]
fn bits_exact_values() {
    assert_eq!(bits_from_int(6, 4), vec![0, 1, 1, 0]);
    assert_eq!(int_from_bits(&[1, 0, 1]), 5);
    // a nonzero entry counts as one
    assert_eq!(int_from_bits(&[3, 0, 7]), 5);
    assert_eq!(bits(2), vec![vec![0, 0], vec![1, 0], vec![0, 1], vec![1, 1]]);
    assert_eq!(bits(0), vec![Vec::<usize>::new()]);
}

#[test]
fn contains_range_cases() {
    assert!(contains_range(0..10, &(2..5)));
    assert!(contains_range(0..10, &(0..10)));
    assert!(!contains_range(0..10, &(5..11)));
    assert!(!contains_range(3..10, &(2..5)));
}

#[test]
fn test_rot_cases() {
    assert!(test_rot(&vec![1, 2, 3], &vec![3, 1, 2], 1));
    assert!(!test_rot(&vec![1, 2, 3], &vec![1, 2, 3], 1));
    assert!(test_rot(&vec![1, 2, 3], &vec![1, 2, 3], 0));
    assert!(!test_rot(&vec![1, 2], &vec![1, 2, 3], 0));
}

#[test]
fn gen_vector_calls_in_order() {
    let mut k = 0;
    let v = gen_vector(
        || {
            k += 1;
            k * k
        },
        4,
    );
    assert_eq!(v, vec![1, 4, 9, 16]);
}

#[test]
fn log2_values() {
    assert_eq!(floor_log2(0), 0);
    assert_eq!(floor_log2(1), 0);
    assert_eq!(floor_log2(2), 1);
    assert_eq!(floor_log2(1023), 9);
    assert_eq!(floor_log2(1024), 10);
    assert_eq!(ceil_log2(1), 0);
    assert_eq!(ceil_log2(2), 1);
    assert_eq!(ceil_log2(65536), 16);
    assert_eq!(ceil_log2(65537), 17);
}

#[test]
fn contains_range_bound_kinds() {
    assert!(contains_range(0..10, &(0..5)));
    assert!(!contains_range(0..10, &(5..11)));
    assert!(!contains_range(2..10, &(0..5)));
    assert!(contains_range(0..10, &(0..=9)));
    assert!(!contains_range(0..10, &(0..=10)));
    assert!(!contains_range(0..10, &(..)));
    // the upper bound is not looked at when the lower one fails
    assert!(!contains_range(5..10, &(0..0)));
}

#[test]
fn int_from_bits_long_input() {
    let mut v = vec![1usize, 0, 1];
    v.extend(std::iter::repeat(0).take(100));
    assert_eq!(int_from_bits(&v), 5);
    assert_eq!(int_from_bits(&[2, 0, 5]), 5);
    assert_eq!(int_from_bits(&[]), 0);
}

#[test]
fn fiat_shamir_clone_and_fresh_agree() {
    let field = PrimeField::new(65537).unwrap();
    let mut a = FiatShamirSim::new(&field);
    let mut b = FiatShamirSim::new(&field);
    for _ in 0..3 {
        assert_eq!(a.challenge(), b.challenge());
    }
    let mut c = a.clone();
    for _ in 0..3 {
        assert_eq!(a.challenge(), c.challenge());
    }
    a.reset();
    let mut fresh = FiatShamirSim::new(&field);
    assert_eq!(a.challenge(), fresh.challenge());
}

#[test]
fn contains_range_one_sided_and_pairs() {
    assert!(!contains_range(0..10, &(3..)));
    assert!(!contains_range(0..10, &(..5)));
    assert!(!contains_range(0..10, &(..=5)));
    assert!(contains_range(0..10, &(std::ops::Bound::Included(2), std::ops::Bound::Excluded(5))));
    assert!(contains_range(0..10, &(std::ops::Bound::Excluded(3), std::ops::Bound::Included(9))));
    assert!(!contains_range(0..10, &(std::ops::Bound::Included(2), std::ops::Bound::Unbounded)));
    assert!(!contains_range(0..10, &(std::ops::Bound::Included(2), std::ops::Bound::Included(10))));
}
