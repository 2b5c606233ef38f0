//! Integer helpers of the Pythagorean lattice: greatest common divisors and
//! primitive Pythagorean triples by Euclid's formula.
use vstd::prelude::*;
use vstd::arithmetic::power2::{lemma2_to64, lemma_pow2_adds, lemma_pow2_pos, lemma_pow2_unfold, pow2};
use vstd::bits::{lemma_u32_shl_is_mul, lemma_u32_shr_is_div};
use vstd::std_specs::bits::axiom_u32_trailing_zeros;
use vstd::arithmetic::div_mod::{lemma_fundamental_div_mod, lemma_mod_multiples_basic};

verus! {

/// `d` divides `x`.
pub open spec fn divides(d: int, x: int) -> bool {
    exists|k: int| #[trigger] (d * k) == x
}

/// `g` is the greatest common divisor of `a` and `b`: a non-negative common
/// divisor that every positive common divisor divides (0 for `a = b = 0`).
pub open spec fn is_gcd(g: int, a: int, b: int) -> bool {
    &&& g >= 0
    &&& divides(g, a)
    &&& divides(g, b)
    &&& forall|d: int| d > 0 && #[trigger] divides(d, a) && divides(d, b) ==> divides(d, g)
}

proof fn lemma_divides_trans(d: int, x: int, y: int)
    requires
        divides(d, x),
        divides(x, y),
    ensures
        divides(d, y),
{
    let k1 = choose|k: int| #[trigger] (d * k) == x;
    let k2 = choose|k: int| #[trigger] (x * k) == y;
    assert(d * (k1 * k2) == y) by (nonlinear_arith)
        requires
            d * k1 == x,
            x * k2 == y,
    ;
}

/// An odd divisor of `2 * z` divides `z`.
proof fn lemma_odd_divides_half(d: int, z: int)
    requires
        d % 2 == 1,
        divides(d, 2 * z),
    ensures
        divides(d, z),
{
    let k = choose|k: int| #[trigger] (d * k) == 2 * z;
    if k % 2 != 0 {
        let p = d / 2;
        let q = k / 2;
        assert(d == 2 * p + 1 && k == 2 * q + 1);
        assert(d * k == 2 * (2 * p * q + p + q) + 1) by (nonlinear_arith)
            requires
                d == 2 * p + 1,
                k == 2 * q + 1,
        ;
        assert(false);
    }
    assert(k % 2 == 0);
    let h = k / 2;
    assert(d * h == z) by (nonlinear_arith)
        requires
            d * k == 2 * z,
            k == 2 * h,
    ;
}

/// An odd divisor of `y * 2^e` divides `y`.
proof fn lemma_odd_divides_pow2(d: int, y: int, e: nat)
    requires
        d % 2 == 1,
        divides(d, y * pow2(e)),
    ensures
        divides(d, y),
    decreases e,
{
    if e > 0 {
        lemma_pow2_unfold(e);
        let p = pow2((e - 1) as nat);
        assert(y * pow2(e) == 2 * (y * p)) by (nonlinear_arith)
            requires
                pow2(e) == 2 * p,
        ;
        lemma_odd_divides_half(d, y * p);
        lemma_odd_divides_pow2(d, y, (e - 1) as nat);
    } else {
        lemma2_to64();
        assert(y * pow2(e) == y);
    }
}

/// If `2^j` divides `a0 * 2^t` with `a0` odd, then `j <= t`.
proof fn lemma_pow2_divides_bound(j: nat, t: nat, a0: int)
    requires
        a0 % 2 == 1,
        divides(pow2(j) as int, a0 * pow2(t)),
    ensures
        j <= t,
{
    if j > t {
        let m = choose|m: int| #[trigger] (pow2(j) * m) == a0 * pow2(t);
        let e = (j - t - 1) as nat;
        lemma_pow2_adds(t, (e + 1) as nat);
        lemma_pow2_unfold((e + 1) as nat);
        lemma_pow2_pos(t);
        let pt = pow2(t) as int;
        let q = pow2(e) as int;
        assert(pt * (2 * q * m) == pt * a0) by (nonlinear_arith)
            requires
                pow2(j) == pt * pow2((e + 1) as nat),
                pow2((e + 1) as nat) == 2 * q,
                pow2(j) * m == a0 * pt,
        ;
        assert(2 * q * m == a0) by (nonlinear_arith)
            requires
                pt * (2 * q * m) == pt * a0,
                pt > 0,
        ;
        assert(a0 == 2 * (q * m)) by (nonlinear_arith)
            requires
                2 * q * m == a0,
        ;
        assert(a0 % 2 == 0);
    }
}

/// A non-zero `x` is its odd part times `2^t`, where `t` counts its trailing zeros.
proof fn lemma_odd_part(x: u32)
    requires
        x != 0,
    ensures
        x.trailing_zeros() < 32,
        (x >> x.trailing_zeros()) == x as nat / pow2(x.trailing_zeros() as nat),
        (x >> x.trailing_zeros()) % 2 == 1,
        x == (x >> x.trailing_zeros()) * pow2(x.trailing_zeros() as nat),
{
    axiom_u32_trailing_zeros(x);
    let t = x.trailing_zeros();
    let y = x >> t;
    lemma_u32_shr_is_div(x, t);
    assert(y % 2 == 1) by (bit_vector)
        requires
            y == x >> t,
            (x >> t) & 1u32 == 1u32,
    ;
    assert((y << t) == x) by (bit_vector)
        requires
            y == x >> t,
            t < 32,
            x << ((32 - t) as u32) == 0,
    ;
    lemma_pow2_pos(t as nat);
    let p = pow2(t as nat) as int;
    assert(y * p <= x) by (nonlinear_arith)
        requires
            y == x as int / p,
            p > 0,
            x >= 0,
    ;
    lemma_u32_shl_is_mul(y, t);
}

/// The trailing zeros of `a | b` are the fewer of those of `a` and `b`.
proof fn lemma_or_trailing_zeros(a: u32, b: u32)
    requires
        a != 0,
        b != 0,
    ensures
        (a | b).trailing_zeros() == if a.trailing_zeros() <= b.trailing_zeros() {
            a.trailing_zeros()
        } else {
            b.trailing_zeros()
        },
{
    let c = a | b;
    assert(c != 0) by (bit_vector)
        requires
            c == a | b,
            a != 0,
    ;
    axiom_u32_trailing_zeros(a);
    axiom_u32_trailing_zeros(b);
    axiom_u32_trailing_zeros(c);
    let (ta, tb, s) = (a.trailing_zeros(), b.trailing_zeros(), c.trailing_zeros());
    let m = if ta <= tb {
        ta
    } else {
        tb
    };
    if s < m {
        assert((c >> s) & 1u32 == ((a >> s) & 1u32) | ((b >> s) & 1u32)) by (bit_vector)
            requires
                c == a | b,
        ;
        assert((a >> s) & 1u32 == 0u32);
        assert((b >> s) & 1u32 == 0u32);
        assert((c >> s) & 1u32 == 1u32);
        let u = (a >> s) & 1u32;
        let v = (b >> s) & 1u32;
        assert((u == 0u32 && v == 0u32) ==> (u | v) == 0u32) by (bit_vector);
        assert(false);
    } else if s > m {
        assert((c >> m) & 1u32 == ((a >> m) & 1u32) | ((b >> m) & 1u32)) by (bit_vector)
            requires
                c == a | b,
        ;
        assert((c >> m) & 1u32 == 0u32);
        if m == ta {
            assert((a >> m) & 1u32 == 1u32);
        } else {
            assert((b >> m) & 1u32 == 1u32);
        }
        let u = (a >> m) & 1u32;
        let v = (b >> m) & 1u32;
        assert((u == 1u32 || v == 1u32) ==> (u | v) != 0u32) by (bit_vector);
        assert(false);
    }
}

/// Greatest common divisor by the binary algorithm.
#[verifier::spinoff_prover]
pub fn gcd(a: u32, b: u32) -> (r: u32)
    ensures
        is_gcd(r as int, a as int, b as int),
{
    if a == b {
        proof {
            assert(a * 1 == a);
            assert forall|d: int| d > 0 && #[trigger] divides(d, a as int) && divides(d, b as int) implies divides(d, a as int) by {}
        }
        return a;
    }
    if a == 0 {
        proof {
            assert(b * 0 == a && b * 1 == b);
        }
        return b;
    }
    if b == 0 {
        proof {
            assert(a * 0 == b && a * 1 == a);
        }
        return a;
    }
    let shift = (a | b).trailing_zeros();
    let ta = a.trailing_zeros();
    let tb = b.trailing_zeros();
    proof {
        lemma_odd_part(a);
        lemma_odd_part(b);
        lemma_or_trailing_zeros(a, b);
    }
    let mut x = a >> ta;
    let mut y = b >> tb;
    let ghost a0 = x as int;
    let ghost b0 = y as int;
    proof {
        assert forall|d: int| d % 2 == 1 && d > 0 implies (#[trigger] divides(d, x as int) && divides(d, y as int))
            <==> (divides(d, a as int) && divides(d, b as int)) by {
            if divides(d, a as int) {
                lemma_odd_divides_pow2(d, a0, ta as nat);
            }
            if divides(d, b as int) {
                lemma_odd_divides_pow2(d, b0, tb as nat);
            }
            if divides(d, x as int) {
                let k = choose|k: int| #[trigger] (d * k) == x as int;
                assert(d * (k * pow2(ta as nat)) == a as int) by (nonlinear_arith)
                    requires
                        d * k == a0,
                        a as int == a0 * pow2(ta as nat),
                ;
            }
            if divides(d, y as int) {
                let k = choose|k: int| #[trigger] (d * k) == y as int;
                assert(d * (k * pow2(tb as nat)) == b as int) by (nonlinear_arith)
                    requires
                        d * k == b0,
                        b as int == b0 * pow2(tb as nat),
                ;
            }
        }
    }
    while x != y
        invariant
            x % 2 == 1,
            y % 2 == 1,
            forall|d: int| d % 2 == 1 && d > 0 ==> ((#[trigger] divides(d, x as int) && divides(d, y as int))
                <==> (divides(d, a as int) && divides(d, b as int))),
        decreases x + y,
    {
        if x > y {
            let z = x - y;
            assert(z != 0);
            proof {
                lemma_odd_part(z);
            }
            let t = z.trailing_zeros();
            let ghost x_old = x;
            x = z >> t;
            proof {
                assert forall|d: int| d % 2 == 1 && d > 0 implies (#[trigger] divides(d, x as int) && divides(d, y as int))
                    <==> (divides(d, a as int) && divides(d, b as int)) by {
                    assert((divides(d, x_old as int) && divides(d, y as int)) <==> (divides(d, a as int) && divides(d, b as int)));
                    if divides(d, x_old as int) && divides(d, y as int) {
                        let k1 = choose|k: int| #[trigger] (d * k) == x_old as int;
                        let k2 = choose|k: int| #[trigger] (d * k) == y as int;
                        assert(d * (k1 - k2) == z as int) by (nonlinear_arith)
                            requires
                                d * k1 == x_old,
                                d * k2 == y,
                                z == x_old - y,
                        ;
                        assert(z as int == (x as int) * pow2(t as nat));
                        lemma_odd_divides_pow2(d, x as int, t as nat);
                    }
                    if divides(d, x as int) && divides(d, y as int) {
                        let k1 = choose|k: int| #[trigger] (d * k) == x as int;
                        let k2 = choose|k: int| #[trigger] (d * k) == y as int;
                        assert(d * (k1 * pow2(t as nat) + k2) == x_old as int) by (nonlinear_arith)
                            requires
                                d * k1 == x,
                                d * k2 == y,
                                z == x * pow2(t as nat),
                                z == x_old - y,
                        ;
                    }
                }
            }
        } else {
            let z = y - x;
            assert(z != 0);
            proof {
                lemma_odd_part(z);
            }
            let t = z.trailing_zeros();
            let ghost y_old = y;
            y = z >> t;
            proof {
                assert forall|d: int| d % 2 == 1 && d > 0 implies (#[trigger] divides(d, x as int) && divides(d, y as int))
                    <==> (divides(d, a as int) && divides(d, b as int)) by {
                    assert((divides(d, x as int) && divides(d, y_old as int)) <==> (divides(d, a as int) && divides(d, b as int)));
                    if divides(d, x as int) && divides(d, y_old as int) {
                        let k1 = choose|k: int| #[trigger] (d * k) == y_old as int;
                        let k2 = choose|k: int| #[trigger] (d * k) == x as int;
                        assert(d * (k1 - k2) == z as int) by (nonlinear_arith)
                            requires
                                d * k1 == y_old,
                                d * k2 == x,
                                z == y_old - x,
                        ;
                        assert(z as int == (y as int) * pow2(t as nat));
                        lemma_odd_divides_pow2(d, y as int, t as nat);
                    }
                    if divides(d, x as int) && divides(d, y as int) {
                        let k1 = choose|k: int| #[trigger] (d * k) == y as int;
                        let k2 = choose|k: int| #[trigger] (d * k) == x as int;
                        assert(d * (k1 * pow2(t as nat) + k2) == y_old as int) by (nonlinear_arith)
                            requires
                                d * k1 == y,
                                d * k2 == x,
                                z == y * pow2(t as nat),
                                z == y_old - x,
                        ;
                    }
                }
            }
        }
    }
    let ghost g = x as int;
    proof {
        lemma_gcd_result(a, b, g, a0, b0, ta as nat, tb as nat, shift as nat);
        lemma_u32_shl_is_mul(x, shift);
    }
    x << shift
}

/// Assembles the greatest common divisor from the odd parts' common odd
/// divisor `g` and the shared power of two.
proof fn lemma_gcd_result(a: u32, b: u32, g: int, a0: int, b0: int, ta: nat, tb: nat, s: nat)
    requires
        a != 0,
        b != 0,
        g > 0,
        g % 2 == 1,
        a0 % 2 == 1,
        b0 % 2 == 1,
        a as int == a0 * pow2(ta),
        b as int == b0 * pow2(tb),
        s == if ta <= tb { ta } else { tb },
        ta < 32,
        tb < 32,
        forall|d: int| d % 2 == 1 && d > 0 ==> ((#[trigger] divides(d, g) && divides(d, g)) <==> (divides(d, a as int)
            && divides(d, b as int))),
    ensures
        g * pow2(s) <= u32::MAX,
        is_gcd(g * pow2(s), a as int, b as int),
{
    assert(g * 1 == g);
    assert(divides(g, g));
    assert(divides(g, a as int) && divides(g, b as int));
    lemma_odd_divides_pow2(g, a0, ta);
    lemma_odd_divides_pow2(g, b0, tb);
    let ka = choose|k: int| #[trigger] (g * k) == a0;
    let kb = choose|k: int| #[trigger] (g * k) == b0;
    lemma_pow2_adds(s, (ta - s) as nat);
    lemma_pow2_adds(s, (tb - s) as nat);
    lemma_pow2_pos(s);
    lemma_pow2_pos((ta - s) as nat);
    let r = g * pow2(s);
    let pa = pow2((ta - s) as nat) as int;
    let pb = pow2((tb - s) as nat) as int;
    assert(r * (ka * pa) == a as int) by (nonlinear_arith)
        requires
            r == g * pow2(s),
            g * ka == a0,
            a as int == a0 * pow2(ta),
            pow2(ta) == pow2(s) * pa,
    ;
    assert(r * (kb * pb) == b as int) by (nonlinear_arith)
        requires
            r == g * pow2(s),
            g * kb == b0,
            b as int == b0 * pow2(tb),
            pow2(tb) == pow2(s) * pb,
    ;
    assert(r <= a) by (nonlinear_arith)
        requires
            r * (ka * pa) == a as int,
            a > 0,
            r > 0 || r <= 0,
            g > 0,
            pow2(s) > 0,
            r == g * pow2(s),
    ;
    assert forall|d: int| d > 0 && #[trigger] divides(d, a as int) && divides(d, b as int) implies divides(d, r) by {
        lemma_divisor_splits(d, a, b, g, a0, b0, ta, tb, s);
    }
}

/// A positive common divisor of `a` and `b` divides `g * 2^s`.
proof fn lemma_divisor_splits(d: int, a: u32, b: u32, g: int, a0: int, b0: int, ta: nat, tb: nat, s: nat)
    requires
        d > 0,
        divides(d, a as int),
        divides(d, b as int),
        a != 0,
        b != 0,
        g > 0,
        a0 % 2 == 1,
        b0 % 2 == 1,
        a as int == a0 * pow2(ta),
        b as int == b0 * pow2(tb),
        s == if ta <= tb { ta } else { tb },
        forall|e: int| e % 2 == 1 && e > 0 ==> ((#[trigger] divides(e, g) && divides(e, g)) <==> (divides(e, a as int)
            && divides(e, b as int))),
    ensures
        divides(d, g * pow2(s)),
{
    let k = choose|k: int| #[trigger] (d * k) == a as int;
    assert(d <= a) by (nonlinear_arith)
        requires
            d * k == a as int,
            d > 0,
            a > 0,
    ;
    let du = d as u32;
    lemma_odd_part(du);
    let j = du.trailing_zeros() as nat;
    let o = (du >> du.trailing_zeros()) as int;
    assert(o * pow2(j) == d);
    lemma_pow2_pos(j);
    assert(o > 0) by (nonlinear_arith)
        requires
            o * pow2(j) == d,
            d > 0,
            pow2(j) > 0,
            o >= 0,
    ;
    assert(divides(o, d)) by {
        assert(o * (pow2(j) as int) == d);
    }
    lemma_divides_trans(o, d, a as int);
    lemma_divides_trans(o, d, b as int);
    assert(divides(o, g));
    assert(divides(pow2(j) as int, d)) by {
        assert((pow2(j) as int) * o == d) by (nonlinear_arith)
            requires
                o * pow2(j) == d,
        ;
    }
    lemma_divides_trans(pow2(j) as int, d, a as int);
    lemma_divides_trans(pow2(j) as int, d, b as int);
    lemma_pow2_divides_bound(j, ta, a0);
    lemma_pow2_divides_bound(j, tb, b0);
    let k1 = choose|k: int| #[trigger] (o * k) == g;
    lemma_pow2_adds(j, (s - j) as nat);
    let q = pow2((s - j) as nat) as int;
    assert(d * (k1 * q) == g * pow2(s)) by (nonlinear_arith)
        requires
            o * k1 == g,
            o * pow2(j) == d,
            pow2(s) == pow2(j) * q,
    ;
}

/// The greatest common divisor is unique: two values that both meet
/// `is_gcd` for the same pair are equal.
pub proof fn lemma_gcd_unique(g1: int, g2: int, a: int, b: int)
    requires
        is_gcd(g1, a, b),
        is_gcd(g2, a, b),
    ensures
        g1 == g2,
{
    if g1 > 0 && g2 > 0 {
        assert(divides(g1, g2));
        assert(divides(g2, g1));
        let k1 = choose|k: int| #[trigger] (g1 * k) == g2;
        let k2 = choose|k: int| #[trigger] (g2 * k) == g1;
        assert(g1 * (k1 * k2) == g1) by (nonlinear_arith)
            requires
                g1 * k1 == g2,
                g2 * k2 == g1,
        ;
        assert(k1 * k2 == 1) by (nonlinear_arith)
            requires
                g1 * (k1 * k2) == g1,
                g1 > 0,
        ;
        assert(k1 == 1 || k1 == -1) by (nonlinear_arith)
            requires
                k1 * k2 == 1,
        ;
    } else if g1 == 0 {
        let k = choose|k: int| #[trigger] (g1 * k) == a;
        let k2 = choose|k: int| #[trigger] (g1 * k) == b;
        assert(a == 0 && b == 0);
        if g2 > 0 {
            assert(divides(g2 + 1, a) && divides(g2 + 1, b)) by {
                assert((g2 + 1) * 0 == a);
                assert((g2 + 1) * 0 == b);
            }
            assert(divides(g2 + 1, g2));
            let q = choose|q: int| #[trigger] ((g2 + 1) * q) == g2;
            assert(false) by (nonlinear_arith)
                requires
                    (g2 + 1) * q == g2,
                    g2 > 0,
            ;
        }
    } else {
        let k = choose|k: int| #[trigger] (g2 * k) == a;
        let k2 = choose|k: int| #[trigger] (g2 * k) == b;
        assert(a == 0 && b == 0);
        assert(divides(g1 + 1, a) && divides(g1 + 1, b)) by {
            assert((g1 + 1) * 0 == a);
            assert((g1 + 1) * 0 == b);
        }
        assert(divides(g1 + 1, g1));
        let q = choose|q: int| #[trigger] ((g1 + 1) * q) == g1;
        assert(false) by (nonlinear_arith)
            requires
                (g1 + 1) * q == g1,
                g1 > 0,
        ;
    }
}

/// Euclid's triple for `m > n`: `(m² - n², 2mn, m² + n²)`, each side stored
/// as a `u32` (reduced modulo `2^32`).
pub open spec fn euclid_triple(m: int, n: int) -> (u32, u32, u32) {
    ((m * m - n * n) as u32, (2 * m * n) as u32, (m * m + n * n) as u32)
}

/// `(m, n)` gives a primitive triple: `m - n` is odd and `m`, `n` are coprime.
pub open spec fn primitive_pair(m: int, n: int) -> bool {
    (m - n) % 2 == 1 && is_gcd(1, m, n)
}

/// The triples of the pairs `(m, n)` with `1 <= n < k`, in increasing `n`.
pub open spec fn triples_row(m: int, k: int) -> Seq<(u32, u32, u32)>
    decreases k,
{
    if k <= 1 {
        Seq::empty()
    } else {
        triples_row(m, k - 1) + if primitive_pair(m, k - 1) {
            seq![euclid_triple(m, k - 1)]
        } else {
            Seq::empty()
        }
    }
}

/// The triples of the pairs `(m, n)` with `2 <= m < end` and `1 <= n < m`,
/// by increasing `m`, then `n`.
pub open spec fn triples_upto(end: int) -> Seq<(u32, u32, u32)>
    decreases end,
{
    if end <= 2 {
        Seq::empty()
    } else {
        triples_upto(end - 1) + triples_row(end - 1, end - 1)
    }
}

/// No integer above 1 divides both `m` and `n`.
pub open spec fn coprime(m: int, n: int) -> bool {
    forall|d: int| d > 1 ==> !(#[trigger] (m % d) == 0 && n % d == 0)
}

/// A pair with greatest common divisor 1 has no common divisor above 1.
proof fn lemma_gcd_one_coprime(m: int, n: int)
    requires
        is_gcd(1, m, n),
    ensures
        coprime(m, n),
{
    assert forall|d: int| d > 1 implies !(#[trigger] (m % d) == 0 && n % d == 0) by {
        if m % d == 0 && n % d == 0 {
            assert(d * (m / d) == m && d * (n / d) == n) by (nonlinear_arith)
                requires
                    d > 1,
                    m % d == 0,
                    n % d == 0,
            ;
            assert(divides(d, m) && divides(d, n));
            assert(divides(d, 1));
            let k = choose|k: int| #[trigger] (d * k) == 1;
            assert(false) by (nonlinear_arith)
                requires
                    d * k == 1,
                    d > 1,
            ;
        }
    }
}

/// `x` is the triple of a pair `(m, n)` with `1 <= n < k` that
/// `primitive_pair` admits.
spec fn row_source(x: (u32, u32, u32), m: int, k: int) -> bool {
    exists|n: int| 1 <= n < k && #[trigger] primitive_pair(m, n) && x == euclid_triple(m, n)
}

/// Each triple of the row of `m` below `k` comes from a pair of that row.
proof fn lemma_triples_row_source(m: int, k: int)
    ensures
        forall|t: int| 0 <= t < triples_row(m, k).len() ==> row_source(#[trigger] triples_row(m, k)[t], m, k),
    decreases k,
{
    if k > 1 {
        lemma_triples_row_source(m, k - 1);
        let pre = triples_row(m, k - 1);
        assert forall|t: int| 0 <= t < triples_row(m, k).len() implies row_source(#[trigger] triples_row(m, k)[t], m, k) by {
            if t < pre.len() {
                assert(triples_row(m, k)[t] == pre[t]);
                assert(row_source(pre[t], m, k - 1));
                let n = choose|n: int| 1 <= n < k - 1 && #[trigger] primitive_pair(m, n) && pre[t] == euclid_triple(m, n);
                assert(primitive_pair(m, n));
            } else {
                assert(primitive_pair(m, k - 1));
                assert(triples_row(m, k)[t] == euclid_triple(m, k - 1));
            }
        }
    }
}

/// `x` is Euclid's triple `(m² - n², 2mn, m² + n²)`, each side reduced to a
/// `u32`, of a pair `1 <= n < m < end` whose difference is odd and that no
/// integer above 1 divides.
pub open spec fn primitive_euclid_below(x: (u32, u32, u32), end: int) -> bool {
    exists|m: int, n: int|
        1 <= n < m < end && (m - n) % 2 == 1 && #[trigger] coprime(m, n) && x == (
            (m * m - n * n) as u32,
            (2 * m * n) as u32,
            (m * m + n * n) as u32,
        )
}

/// Every triple listed for `end` is Euclid's triple of a pair `1 <= n < m < end`
/// whose difference is odd and that no integer above 1 divides: a primitive
/// triple.
pub proof fn lemma_triples_primitive(end: int)
    ensures
        forall|t: int| 0 <= t < triples_upto(end).len() ==> primitive_euclid_below(#[trigger] triples_upto(end)[t], end),
    decreases end,
{
    if end > 2 {
        lemma_triples_primitive(end - 1);
        lemma_triples_row_source(end - 1, end - 1);
        let pre = triples_upto(end - 1);
        let row = triples_row(end - 1, end - 1);
        assert forall|t: int| 0 <= t < triples_upto(end).len() implies primitive_euclid_below(
            #[trigger] triples_upto(end)[t],
            end,
        ) by {
            if t < pre.len() {
                assert(triples_upto(end)[t] == pre[t]);
                assert(primitive_euclid_below(pre[t], end - 1));
                let (m, n) = choose|m: int, n: int|
                    1 <= n < m < end - 1 && (m - n) % 2 == 1 && #[trigger] coprime(m, n) && pre[t] == (
                        (m * m - n * n) as u32,
                        (2 * m * n) as u32,
                        (m * m + n * n) as u32,
                    );
                assert(coprime(m, n));
            } else {
                let m = end - 1;
                assert(triples_upto(end)[t] == row[t - pre.len()]);
                assert(row_source(row[t - pre.len()], m, m));
                let n = choose|n: int| 1 <= n < m && #[trigger] primitive_pair(m, n) && row[t - pre.len()] == euclid_triple(m, n);
                lemma_gcd_one_coprime(m, n);
                assert(coprime(m, n));
            }
        }
    }
}

/// For `d > 0`, `d` divides `x` exactly when `x % d == 0`.
proof fn lemma_divides_mod(d: int, x: int)
    requires
        d > 0,
    ensures
        divides(d, x) <==> x % d == 0,
{
    lemma_fundamental_div_mod(x, d);
    if x % d == 0 {
        assert(d * (x / d) == x);
    }
    if divides(d, x) {
        let k = choose|k: int| #[trigger] (d * k) == x;
        lemma_mod_multiples_basic(k, d);
        assert(k * d == x) by (nonlinear_arith)
            requires
                d * k == x,
        ;
    }
}

/// Two non-negative coprime integers have a Bezout pair `(x, y)`:
/// `x * a + y * b == 1`.
proof fn lemma_bezout(a: int, b: int) -> (xy: (int, int))
    requires
        a >= 0,
        b >= 0,
        coprime(a, b),
    ensures
        xy.0 * a + xy.1 * b == 1,
    decreases b,
{
    if b == 0 {
        assert(0int % 2 == 0);
        if a == 0 {
            assert(a % 2 == 0);
        }
        if a > 1 {
            assert(a % a == 0 && 0int % a == 0) by (nonlinear_arith)
                requires
                    a > 1,
            ;
        }
        (1, 0)
    } else {
        let q = a / b;
        let r = a % b;
        lemma_fundamental_div_mod(a, b);
        assert forall|d: int| d > 1 implies !(#[trigger] (b % d) == 0 && r % d == 0) by {
            if b % d == 0 && r % d == 0 {
                lemma_divides_mod(d, b);
                lemma_divides_mod(d, r);
                lemma_divides_mod(d, a);
                let k1 = choose|k: int| #[trigger] (d * k) == b;
                let k2 = choose|k: int| #[trigger] (d * k) == r;
                assert(d * (k1 * q + k2) == a) by (nonlinear_arith)
                    requires
                        d * k1 == b,
                        d * k2 == r,
                        a == b * q + r,
                ;
                assert(a % d == 0);
            }
        }
        let (x1, y1) = lemma_bezout(b, r);
        assert(y1 * a + (x1 - y1 * q) * b == 1) by (nonlinear_arith)
            requires
                x1 * b + y1 * r == 1,
                a == b * q + r,
        ;
        (y1, x1 - y1 * q)
    }
}

/// A common divisor of `a` and `b` divides `s * a + t * b`.
proof fn lemma_divides_lin(e: int, a: int, b: int, s: int, t: int)
    requires
        divides(e, a),
        divides(e, b),
    ensures
        divides(e, s * a + t * b),
{
    let ka = choose|k: int| #[trigger] (e * k) == a;
    let kb = choose|k: int| #[trigger] (e * k) == b;
    assert(e * (s * ka + t * kb) == s * a + t * b) by (nonlinear_arith)
        requires
            e * ka == a,
            e * kb == b,
    ;
}

/// No integer above 1 divides both halves of a Bezout pair `x * m + y * n == 1`.
proof fn lemma_bezout_no_common(m: int, n: int, x: int, y: int, e: int)
    requires
        x * m + y * n == 1,
        e > 1,
    ensures
        !(divides(e, m) && divides(e, n)),
{
    if divides(e, m) && divides(e, n) {
        lemma_divides_lin(e, m, n, x, y);
        let k = choose|k: int| #[trigger] (e * k) == x * m + y * n;
        assert(false) by (nonlinear_arith)
            requires
                e * k == 1,
                e > 1,
        ;
    }
}

/// With a Bezout pair `x * m + y * n == 1` for `n < m` of opposite parity, no
/// integer `d > 1` divides both `m² - n²` and `2mn`.
proof fn lemma_legs_no_common_divisor(m: int, n: int, x: int, y: int, d: int)
    requires
        1 <= n < m,
        (m - n) % 2 == 1,
        x * m + y * n == 1,
        d > 1,
    ensures
        !(divides(d, m * m - n * n) && divides(d, 2 * m * n)),
{
    if divides(d, m * m - n * n) && divides(d, 2 * m * n) {
        let ka = choose|k: int| #[trigger] (d * k) == m * m - n * n;
        let kb = choose|k: int| #[trigger] (d * k) == 2 * m * n;
        assert(divides(d, m * m - n * n));
        assert forall|e: int| e > 1 implies !(#[trigger] (d % e) == 0 && m % e == 0) by {
            if d % e == 0 && m % e == 0 {
                lemma_divides_mod(e, d);
                lemma_divides_mod(e, m);
                lemma_divides_trans(e, d, m * m - n * n);
                lemma_divides_lin(e, m, m * m - n * n, m, -1);
                assert(m * m + -1 * (m * m - n * n) == n * n);
                lemma_divides_lin(e, m, n * n, x * n, y);
                assert((x * n) * m + y * (n * n) == n) by (nonlinear_arith)
                    requires
                        x * m + y * n == 1,
                ;
                lemma_bezout_no_common(m, n, x, y, e);
            }
        }
        assert forall|e: int| e > 1 implies !(#[trigger] (d % e) == 0 && n % e == 0) by {
            if d % e == 0 && n % e == 0 {
                lemma_divides_mod(e, d);
                lemma_divides_mod(e, n);
                lemma_divides_trans(e, d, m * m - n * n);
                lemma_divides_lin(e, n, n, n, 0);
                assert(n * n + 0 * n == n * n);
                lemma_divides_lin(e, m * m - n * n, n * n, 1, 1);
                assert(1 * (m * m - n * n) + 1 * (n * n) == m * m);
                lemma_divides_lin(e, m * m, n, x, y * m);
                assert(x * (m * m) + (y * m) * n == m) by (nonlinear_arith)
                    requires
                        x * m + y * n == 1,
                ;
                lemma_bezout_no_common(m, n, x, y, e);
            }
        }
        let (u, v) = lemma_bezout(d, m);
        let (u2, v2) = lemma_bezout(d, n);
        let k2n = 2 * n * u + v * kb;
        assert(d * k2n == 2 * n) by (nonlinear_arith)
            requires
                u * d + v * m == 1,
                d * kb == 2 * m * n,
                k2n == 2 * n * u + v * kb,
        ;
        let k2 = 2 * u2 + v2 * k2n;
        assert(d * k2 == 2) by (nonlinear_arith)
            requires
                u2 * d + v2 * n == 1,
                d * k2n == 2 * n,
                k2 == 2 * u2 + v2 * k2n,
        ;
        assert(d == 2) by (nonlinear_arith)
            requires
                d * k2 == 2,
                d > 1,
        ;
        let h = (m - n) / 2;
        assert(m == n + 2 * h + 1);
        let o = 2 * h * h + 2 * h + 2 * h * n + n;
        assert(m * m - n * n == 2 * o + 1) by (nonlinear_arith)
            requires
                m == n + 2 * h + 1,
                o == 2 * h * h + 2 * h + 2 * h * n + n,
        ;
        assert(false) by (nonlinear_arith)
            requires
                d == 2,
                d * ka == m * m - n * n,
                m * m - n * n == 2 * o + 1,
        ;
    }
}

/// Euclid's formula gives a primitive triple: for coprime `1 <= n < m` of
/// opposite parity, no integer above 1 divides both legs `m² - n²` and `2mn`.
pub proof fn lemma_euclid_legs_coprime(m: int, n: int)
    requires
        1 <= n < m,
        (m - n) % 2 == 1,
        coprime(m, n),
    ensures
        coprime(m * m - n * n, 2 * m * n),
{
    let (x, y) = lemma_bezout(m, n);
    assert forall|d: int| d > 1 implies !(#[trigger] ((m * m - n * n) % d) == 0 && (2 * m * n) % d == 0) by {
        if (m * m - n * n) % d == 0 && (2 * m * n) % d == 0 {
            lemma_divides_mod(d, m * m - n * n);
            lemma_divides_mod(d, 2 * m * n);
            lemma_legs_no_common_divisor(m, n, x, y, d);
        }
    }
}

/// `(a, b, c)` is a primitive Pythagorean triple: `a² + b² = c²` and no
/// integer above 1 divides both legs.
pub open spec fn primitive_pythagorean(x: (u32, u32, u32)) -> bool {
    &&& x.0 * x.0 + x.1 * x.1 == x.2 * x.2
    &&& coprime(x.0 as int, x.1 as int)
}

/// Euclid's sides satisfy `(p - q)² + 4pq = (p + q)²` with `p = m²`, `q = n²`.
proof fn lemma_euclid_pythagorean(m: int, n: int)
    ensures
        (m * m - n * n) * (m * m - n * n) + (2 * m * n) * (2 * m * n) == (m * m + n * n) * (m * m + n * n),
{
    let p = m * m;
    let q = n * n;
    assert((p - q) * (p - q) + 4 * (p * q) == (p + q) * (p + q)) by (nonlinear_arith);
    assert((2 * m * n) * (2 * m * n) == 4 * ((m * m) * (n * n))) by (nonlinear_arith);
}

/// While `m < 46341` no side of Euclid's triple leaves the `u32` range, so
/// every triple listed for `end <= 46341` is a primitive Pythagorean triple.
pub proof fn lemma_listed_triples_pythagorean(end: int)
    requires
        end <= 46341,
    ensures
        forall|t: int| 0 <= t < triples_upto(end).len() ==> primitive_pythagorean(#[trigger] triples_upto(end)[t]),
{
    lemma_triples_primitive(end);
    assert forall|t: int| 0 <= t < triples_upto(end).len() implies primitive_pythagorean(#[trigger] triples_upto(end)[t]) by {
        let x = triples_upto(end)[t];
        assert(primitive_euclid_below(x, end));
        let (m, n) = choose|m: int, n: int|
            1 <= n < m < end && (m - n) % 2 == 1 && #[trigger] coprime(m, n) && x == (
                (m * m - n * n) as u32,
                (2 * m * n) as u32,
                (m * m + n * n) as u32,
            );
        assert(0 < n * n < m * m <= 46340 * 46340 && 2 * m * n <= m * m + n * n) by (nonlinear_arith)
            requires
                1 <= n < m <= 46340,
        ;
        assert(x.0 == m * m - n * n && x.1 == 2 * m * n && x.2 == m * m + n * n);
        lemma_euclid_pythagorean(m, n);
        lemma_euclid_legs_coprime(m, n);
    }
}

/// The primitive Pythagorean triples of Euclid's formula for `2 <= m < density`
/// and `1 <= n < m`, with `m - n` odd and `gcd(m, n) = 1`.
pub fn primitive_triples(density: usize) -> (r: Vec<(u32, u32, u32)>)
    requires
        density <= 0x1_0000_0000,
    ensures
        r@ == triples_upto(density as int),
        forall|t: int| 0 <= t < r@.len() ==> primitive_euclid_below(#[trigger] r@[t], density as int),
        density <= 46341 ==> forall|t: int| 0 <= t < r@.len() ==> primitive_pythagorean(#[trigger] r@[t]),
{
    proof {
        lemma_triples_primitive(density as int);
        if density <= 46341 {
            lemma_listed_triples_pythagorean(density as int);
        }
    }
    let mut triples: Vec<(u32, u32, u32)> = Vec::new();
    let mut m: usize = 2;
    if density <= 2 {
        return triples;
    }
    while m < density
        invariant
            density <= 0x1_0000_0000,
            2 <= m <= density,
            triples@ == triples_upto(m as int),
        decreases density - m,
    {
        let mut n: usize = 1;
        let ghost before = triples@;
        while n < m
            invariant
                density <= 0x1_0000_0000,
                2 <= m < density,
                1 <= n <= m,
                triples@ == before + triples_row(m as int, n as int),
            decreases m - n,
        {
            let g = gcd(m as u32, n as u32);
            if (m - n) % 2 == 1 && g == 1 {
                let mm = m as u128;
                let nn = n as u128;
                assert(mm * mm < 0x1_0000_0000_0000_0000 && nn * nn < mm * mm
                    && 2 * mm * nn < 0x2_0000_0000_0000_0000) by (nonlinear_arith)
                    requires
                        nn < mm < 0x1_0000_0000,
                ;
                let a = #[verifier::truncate] ((mm * mm - nn * nn) as u32);
                let b = #[verifier::truncate] ((2 * mm * nn) as u32);
                let c = #[verifier::truncate] ((mm * mm + nn * nn) as u32);
                triples.push((a, b, c));
            }
            proof {
                assert(is_gcd(1, m as int, n as int) <==> g == 1) by {
                    if is_gcd(1, m as int, n as int) {
                        lemma_gcd_unique(1, g as int, m as int, n as int);
                    }
                }
            }
            assert(triples@ =~= before + triples_row(m as int, n + 1));
            n = n + 1;
        }
        m = m + 1;
    }
    triples
}

} // verus!
