use constraint_theory_core::cache::{gcd, primitive_triples};

#[test]
fn test_gcd() {
    assert_eq!(gcd(12, 8), 4);
    assert_eq!(gcd(17, 13), 1);
    assert_eq!(gcd(100, 50), 50);
}

#[test]
fn gcd_with_zero_and_equal_arguments() {
    assert_eq!(gcd(0, 0), 0);
    assert_eq!(gcd(0, 9), 9);
    assert_eq!(gcd(9, 0), 9);
    assert_eq!(gcd(7, 7), 7);
}

#[test]
fn gcd_keeps_shared_powers_of_two() {
    assert_eq!(gcd(48, 180), 12);
    assert_eq!(gcd(1 << 31, 1 << 20), 1 << 20);
    assert_eq!(gcd(u32::MAX, u32::MAX - 1), 1);
    assert_eq!(gcd(96, 64), 32);
}

#[test]
fn primitive_triples_by_euclid_formula() {
    assert_eq!(primitive_triples(5), vec![(3, 4, 5), (5, 12, 13), (15, 8, 17), (7, 24, 25)]);
    assert!(primitive_triples(2).is_empty());
    for (a, b, c) in primitive_triples(40) {
        let (a, b, c) = (a as u64, b as u64, c as u64);
        assert_eq!(a * a + b * b, c * c);
        assert_eq!(gcd(a as u32, b as u32), 1);
    }
}
