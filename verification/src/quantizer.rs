//! Quantizer configuration and exact rational ratios. The floating-point
//! quantization itself is not part of this library.
use vstd::prelude::*;

verus! {

/// Quantization modes.
#[derive(Clone, Copy, Debug, PartialEq, Eq, Structural)]
pub enum QuantizationMode {
    /// Ternary quantization: values in `{-1, 0, 1}`.
    Ternary,
    /// Polar quantization: preserves the unit norm.
    Polar,
    /// Near-optimal distortion quantization.
    Turbo,
    /// Chooses a mode from the input.
    Hybrid,
}

/// Quantizer configuration: a mode, a bit width and a bound on the
/// denominators of the rational ratios it may use.
#[derive(Clone, Debug)]
pub struct PythagoreanQuantizer {
    /// Quantization mode.
    pub mode: QuantizationMode,
    /// Bits per element (at least 1).
    pub bits: u8,
    max_denominator: usize,
}

/// Mathematical content of a quantizer.
pub struct QuantizerView {
    pub mode: QuantizationMode,
    pub bits: u8,
    pub max_denominator: usize,
}

impl View for PythagoreanQuantizer {
    type V = QuantizerView;

    /// The mode, bit width and denominator bound.
    closed spec fn view(&self) -> QuantizerView {
        QuantizerView { mode: self.mode, bits: self.bits, max_denominator: self.max_denominator }
    }
}

impl PythagoreanQuantizer {
    /// A quantizer with the given mode and bit width (raised to 1 when 0);
    /// ratio denominators are bounded by 100.
    pub fn new(mode: QuantizationMode, bits: u8) -> (q: Self)
        ensures
            q@.mode == mode,
            q@.bits == if bits < 1 { 1 } else { bits },
            q@.max_denominator == 100,
    {
        let b = if bits < 1 {
            1
        } else {
            bits
        };
        PythagoreanQuantizer { mode, bits: b, max_denominator: 100 }
    }

    /// Quantizer for LLM weights: ternary, 1 bit.
    pub fn for_llm() -> (q: Self)
        ensures
            q@.mode == QuantizationMode::Ternary,
            q@.bits == 1,
            q@.max_denominator == 100,
    {
        Self::new(QuantizationMode::Ternary, 1)
    }

    /// Quantizer for embeddings: polar, 8 bits.
    pub fn for_embeddings() -> (q: Self)
        ensures
            q@.mode == QuantizationMode::Polar,
            q@.bits == 8,
            q@.max_denominator == 100,
    {
        Self::new(QuantizationMode::Polar, 8)
    }

    /// Quantizer for vector databases: turbo, 4 bits.
    pub fn for_vector_db() -> (q: Self)
        ensures
            q@.mode == QuantizationMode::Turbo,
            q@.bits == 4,
            q@.max_denominator == 100,
    {
        Self::new(QuantizationMode::Turbo, 4)
    }

    /// Quantizer that chooses its mode from the input: hybrid, 4 bits.
    pub fn hybrid() -> (q: Self)
        ensures
            q@.mode == QuantizationMode::Hybrid,
            q@.bits == 4,
            q@.max_denominator == 100,
    {
        Self::new(QuantizationMode::Hybrid, 4)
    }
}

impl Default for PythagoreanQuantizer {
    /// The hybrid quantizer.
    fn default() -> (q: Self)
        ensures
            q@.mode == QuantizationMode::Hybrid,
            q@.bits == 4,
            q@.max_denominator == 100,
    {
        Self::hybrid()
    }
}

/// `x` is the square of a natural number.
pub open spec fn is_perfect_square(x: int) -> bool {
    exists|b: nat| #[trigger] (b * b) == x
}

/// `num / den` is the ratio of a leg to the hypotenuse of a right triangle
/// with integer sides: `den > 0`, `|num| <= den`, and `den² - num²` is a
/// perfect square.
pub open spec fn pythagorean_ratio(num: int, den: int) -> bool {
    let a = if num >= 0 {
        num
    } else {
        -num
    };
    den > 0 && a <= den && is_perfect_square(den * den - a * a)
}

/// The integer square root: the largest `r` with `r * r <= n`.
fn isqrt(n: u64) -> (r: u64)
    ensures
        r * r <= n < (r + 1) * (r + 1),
{
    let mut lo: u64 = 0;
    let mut hi: u64 = 0x1_0000_0000;
    assert(n < hi * hi) by (nonlinear_arith)
        requires
            hi == 0x1_0000_0000u64,
            n <= u64::MAX,
    ;
    while hi - lo > 1
        invariant
            lo < hi <= 0x1_0000_0000,
            lo * lo <= n < hi * hi,
        decreases hi - lo,
    {
        let mid = lo + (hi - lo) / 2;
        assert(mid * mid < 0x1_0000_0000 * 0x1_0000_0000) by (nonlinear_arith)
            requires
                mid < 0x1_0000_0000,
        ;
        if mid * mid <= n {
            lo = mid;
        } else {
            hi = mid;
        }
    }
    assert(hi == lo + 1);
    lo
}

/// A square `x` whose floor root is `r` is `r * r`.
proof fn lemma_square_root(x: int, r: int, b: int)
    requires
        0 <= r,
        0 <= b,
        r * r <= x < (r + 1) * (r + 1),
        b * b == x,
    ensures
        b == r,
{
    if b < r {
        assert(b * b < r * r) by (nonlinear_arith)
            requires
                0 <= b < r,
        ;
    } else if b > r {
        assert((r + 1) * (r + 1) <= b * b) by (nonlinear_arith)
            requires
                0 <= r < b,
        ;
    }
}

/// A rational number `num / den`.
#[derive(Clone, Copy, Debug, PartialEq, Eq, Structural)]
pub struct Rational {
    /// Numerator.
    pub num: i64,
    /// Denominator.
    pub den: u64,
}

impl Rational {
    /// The rational `num / den`.
    pub fn new(num: i64, den: u64) -> (r: Self)
        ensures
            r.num == num,
            r.den == den,
    {
        Rational { num, den }
    }

    /// Whether this is a Pythagorean ratio: a leg over the hypotenuse of a
    /// right triangle with integer sides.
    pub fn is_pythagorean(&self) -> (r: bool)
        requires
            self.den <= u32::MAX,
        ensures
            r == pythagorean_ratio(self.num as int, self.den as int),
    {
        let a: u64 = if self.num >= 0 {
            self.num as u64
        } else {
            (-(self.num as i128)) as u64
        };
        let c = self.den;
        if c == 0 {
            return false;
        }
        if a > c {
            return false;
        }
        assert(c * c <= u64::MAX) by (nonlinear_arith)
            requires
                c <= u32::MAX,
        ;
        assert(a * a <= c * c) by (nonlinear_arith)
            requires
                a <= c,
        ;
        let b_sq = c * c - a * a;
        let b = isqrt(b_sq);
        let ok = b * b == b_sq;
        proof {
            if ok {
                assert((b as nat) * (b as nat) == b_sq);
            } else if is_perfect_square(b_sq as int) {
                let k = choose|k: nat| #[trigger] (k * k) == b_sq as int;
                lemma_square_root(b_sq as int, b as int, k as int);
            }
        }
        ok
    }
}

/// Both legs of a right triangle with integer sides give Pythagorean ratios
/// over the hypotenuse, whatever the numerator's sign.
pub proof fn lemma_pythagorean_legs(a: int, b: int, c: int)
    requires
        c > 0,
        0 <= a,
        0 <= b,
        a * a + b * b == c * c,
    ensures
        pythagorean_ratio(a, c),
        pythagorean_ratio(-a, c),
        pythagorean_ratio(b, c),
        pythagorean_ratio(-b, c),
{
    assert(a <= c && b <= c) by (nonlinear_arith)
        requires
            c > 0,
            0 <= a,
            0 <= b,
            a * a + b * b == c * c,
    ;
    assert(((b as nat) * (b as nat)) == c * c - a * a);
    assert(((a as nat) * (a as nat)) == c * c - b * b);
}

} // verus!
