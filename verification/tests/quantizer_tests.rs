use constraint_theory_core::quantizer::{PythagoreanQuantizer, QuantizationMode, Rational};

#[test]
fn test_rational() {
    let r = Rational::new(3, 5);
    assert!((r.num as f64 / r.den as f64 - 0.6).abs() < 1e-10);
    assert!(r.is_pythagorean());

    let r = Rational::new(4, 5);
    assert!((r.num as f64 / r.den as f64 - 0.8).abs() < 1e-10);
    assert!(r.is_pythagorean());

    let r = Rational::new(1, 3);
    assert!(!r.is_pythagorean());
}

#[test]
fn test_pythagorean_rationals() {
    for r in [Rational::new(3, 5), Rational::new(4, 5), Rational::new(5, 13), Rational::new(12, 13)] {
        assert!(r.is_pythagorean(), "Rational {:?} should be Pythagorean", r);
    }
    for r in [Rational::new(1, 3), Rational::new(2, 7), Rational::new(1, 2)] {
        assert!(!r.is_pythagorean(), "Rational {:?} should NOT be Pythagorean", r);
    }
}

#[test]
fn pythagorean_edge_cases() {
    assert!(!Rational::new(1, 0).is_pythagorean());
    assert!(!Rational::new(6, 5).is_pythagorean());
    assert!(Rational::new(-3, 5).is_pythagorean());
    assert!(Rational::new(0, 7).is_pythagorean());
    assert!(Rational::new(5, 5).is_pythagorean());
    assert!(Rational::new(20, 29).is_pythagorean());
    assert!(Rational::new(0, u32::MAX as u64).is_pythagorean());
    assert!(!Rational::new(1, u32::MAX as u64).is_pythagorean());
}

#[test]
fn quantizer_presets() {
    let q = PythagoreanQuantizer::for_llm();
    assert_eq!((q.mode, q.bits), (QuantizationMode::Ternary, 1));
    let q = PythagoreanQuantizer::for_embeddings();
    assert_eq!((q.mode, q.bits), (QuantizationMode::Polar, 8));
    let q = PythagoreanQuantizer::for_vector_db();
    assert_eq!((q.mode, q.bits), (QuantizationMode::Turbo, 4));
    let q = PythagoreanQuantizer::hybrid();
    assert_eq!((q.mode, q.bits), (QuantizationMode::Hybrid, 4));
    let q = PythagoreanQuantizer::default();
    assert_eq!((q.mode, q.bits), (QuantizationMode::Hybrid, 4));
}

#[test]
fn zero_bits_are_raised_to_one() {
    assert_eq!(PythagoreanQuantizer::new(QuantizationMode::Polar, 0).bits, 1);
    assert_eq!(PythagoreanQuantizer::new(QuantizationMode::Polar, 6).bits, 6);
}
