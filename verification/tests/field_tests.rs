use piopkit::field::{is_prime_u64, mod_inverse, PrimeField};

#[test]
fn field_construction() {
    assert!(PrimeField::new(65537).is_some());
    assert!(PrimeField::new(65536).is_none());
    assert!(PrimeField::new(1).is_none());
    assert!(PrimeField::new(0).is_none());
    assert!(is_prime_u64(2));
    assert!(is_prime_u64(97));
    assert!(!is_prime_u64(91));
}

#[test]
fn field_arithmetic_exact_values() {
    let f = PrimeField::new(17).unwrap();
    assert_eq!(f.modulus(), 17);
    assert_eq!(f.zero(), 0);
    assert_eq!(f.one(), 1);
    assert_eq!(f.neg_one(), 16);
    assert_eq!(f.add(9, 10), 2);
    assert_eq!(f.sub(3, 5), 15);
    assert_eq!(f.negate(4), 13);
    assert_eq!(f.negate(0), 0);
    assert_eq!(f.mul(5, 7), 1);
    assert_eq!(f.from_int(-1), 16);
    assert_eq!(f.from_int(40), 6);
    assert_eq!(f.mul_int(3, -2), 11);
    assert!(f.eq_el(4, 4));
    assert!(f.is_zero(0));
    assert!(f.is_one(1));
    assert_eq!(f.pow(2, 4), 16);
    assert_eq!(f.pow(3, 0), 1);
    assert_eq!(f.smallest_lift(16), -1);
    assert_eq!(f.smallest_lift(8), 8);
    assert_eq!(f.smallest_lift(9), -8);
}

#[test]
fn field_inverse_and_division() {
    let f = PrimeField::new(65537).unwrap();
    for a in [1u64, 2, 3, 12345, 65536] {
        let inv = f.invert(a);
        assert_eq!(f.mul(a, inv), 1);
        let b = 4321;
        let q = f.div(b, a);
        assert_eq!(f.mul(q, a), b);
    }
    assert_eq!(f.div(6, 3), 2);
    assert_eq!(mod_inverse(3, 7), 5);
}
