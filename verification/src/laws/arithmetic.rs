//! Laws of rounding and division.

use crate::double::{double, lemma_double_negated, nearest_even, BITS53};
use crate::fixed::{abs, clamp, div_nearest, div_toward_zero, whole_pixels};
use crate::number::{lemma_double_nearest, number_of, units_of};
use vstd::arithmetic::power2::{lemma2_to64, lemma_pow2_pos, lemma_pow2_unfold, pow2};
use vstd::prelude::*;

verus! {

/// Whether `m` doubled `i` times is `n / d` to half of its last bit, with an even
/// `m` where it is off by just that, and no bit more than is needed.
pub open spec fn rounds_to(n: int, d: int, m: int, i: nat) -> bool {
    let step = pow2(i) * d;
    &&& -0x20_0000_0000_0000 <= m <= 0x20_0000_0000_0000
    &&& -step <= 2 * (m * step - n) <= step
    &&& (2 * (m * step - n) == step || 2 * (m * step - n) == -step) ==> m % 2 == 0
    &&& i > 0 ==> n >= 0x10_0000_0000_0000 * step || n <= -0x10_0000_0000_0000 * step
}

/// Rounding gives a number of 53 bits that is off by half of its last bit at most,
/// and of two that are as near the even one.
pub proof fn law_rounding(n: int, d: int)
    requires
        d > 0,
    ensures
        exists|m: int, i: nat| #[trigger] rounds_to(n, d, m, i) && double(n, d) == m * pow2(i),
{
    let (m, i) = lemma_rounding(abs(n), d);
    lemma_double_negated(n, d);
    let p = pow2(i) as int;
    let step = p * d;
    assert((-m) * p == -(m * p) && (-m) * step == -(m * step)) by (nonlinear_arith);
    if n >= 0 {
        assert(rounds_to(n, d, m, i));
    } else {
        assert(rounds_to(n, d, -m, i));
    }
}

proof fn lemma_rounding(n: int, d: int) -> (r: (int, nat))
    requires
        d > 0,
        n >= 0,
    ensures
        rounds_to(n, d, r.0, r.1),
        double(n, d) == r.0 * pow2(r.1),
    decreases n - d,
{
    lemma2_to64();
    if n < BITS53 * d {
        let m = nearest_even(n, d);
        let (q, r) = (n / d, n % d);
        vstd::arithmetic::div_mod::lemma_fundamental_div_mod(n, d);
        vstd::arithmetic::div_mod::lemma_mod_bound(n, d);
        vstd::arithmetic::div_mod::lemma_div_pos_is_pos(n, d);
        assert(q < BITS53) by (nonlinear_arith)
            requires
                n == d * q + r,
                r >= 0,
                n < BITS53 * d,
                d > 0,
        ;
        assert(d * q == q * d && (q + 1) * d == q * d + d) by (nonlinear_arith);
        let unit = pow2(0) as int;
        assert(unit * d == d && m * unit == m) by (nonlinear_arith)
            requires
                unit == 1,
        ;
        assert(m == q || m == q + 1);
        (m, 0)
    } else {
        let (m, i) = lemma_rounding(n, 2 * d);
        lemma_pow2_unfold(i + 1);
        let p = pow2(i) as int;
        assert(p * (2 * d) == (2 * p) * d) by (nonlinear_arith);
        assert(2 * (m * p) == m * (2 * p)) by (nonlinear_arith);
        if i == 0 {
            assert(n >= 0x10_0000_0000_0000 * (2 * d));
            assert(p * (2 * d) == 2 * d) by (nonlinear_arith)
                requires
                    p == 1,
            ;
        }
        (m, i + 1)
    }
}

/// No number of 53 bits, wherever its point stands, is nearer than the one that
/// rounding gives.
pub proof fn law_nothing_nearer(n: int, d: int, m: int, i: nat)
    requires
        d > 0,
        n >= 0,
        0 <= m <= 0x20_0000_0000_0000,
    ensures
        abs(double(n, d) * d - n) <= abs(m * pow2(i) * d - n),
        double(-n, d) == -double(n, d),
{
    lemma_double_nearest(n, d, m, i);
    lemma_double_negated(n, d);
}

/// A quotient with its fraction dropped, times the divisor, falls short of what was
/// divided by less than the divisor, and has its sign or is zero.
pub proof fn law_dropped_fraction(a: int, b: int)
    requires
        b != 0,
    ensures
        ({
            let q = div_toward_zero(a, b);
            let size = |v: int| if v < 0 {
                -v
            } else {
                v
            };
            &&& size(q * b) <= size(a) < size(q * b) + size(b)
            &&& a >= 0 ==> q * b >= 0
            &&& a <= 0 ==> q * b <= 0
        }),
{
    let (m, d) = (abs(a), abs(b));
    let q = m / d;
    vstd::arithmetic::div_mod::lemma_fundamental_div_mod(m, d);
    vstd::arithmetic::div_mod::lemma_mod_bound(m, d);
    vstd::arithmetic::div_mod::lemma_div_pos_is_pos(m, d);
    assert(q * d >= 0) by (nonlinear_arith)
        requires
            q >= 0,
            d > 0,
    ;
    assert(d * q == q * d && (-q) * (-d) == q * d && (-q) * d == -(q * d) && q * (-d) == -(q * d))
        by (nonlinear_arith);
}

/// A quotient to the nearest integer is off by half at most, and goes away from
/// zero where it is off by half.
pub proof fn law_nearest_quotient(a: int, b: int)
    requires
        b > 0,
    ensures
        ({
            let q = div_nearest(a, b);
            &&& -b <= 2 * (q * b - a) <= b
            &&& a > 0 && (2 * (q * b - a) == b || 2 * (q * b - a) == -b) ==> q * b > a
            &&& a < 0 && (2 * (q * b - a) == b || 2 * (q * b - a) == -b) ==> q * b < a
        }),
{
    let m = abs(a);
    let q = (2 * m + b) / (2 * b);
    let r = (2 * m + b) % (2 * b);
    vstd::arithmetic::div_mod::lemma_fundamental_div_mod(2 * m + b, 2 * b);
    vstd::arithmetic::div_mod::lemma_mod_bound(2 * m + b, 2 * b);
    assert((2 * b) * q == 2 * (q * b) && (-q) * b == -(q * b)) by (nonlinear_arith);
    assert(-2 * a + b == 2 * (-a) + b);
}

/// A number held inside bounds is inside them, and is the number where that is.
pub proof fn law_held_inside(v: int, lo: int, hi: int)
    requires
        lo <= hi,
    ensures
        lo <= clamp(v, lo, hi) <= hi,
        lo <= v <= hi ==> clamp(v, lo, hi) == v,
        v < lo ==> clamp(v, lo, hi) == lo,
        v > hi ==> clamp(v, lo, hi) == hi,
{
}

/// The pixels of a coordinate are counted toward zero: 2^52 units make a pixel.
pub proof fn law_whole_pixels(v: int)
    ensures
        v >= 0 ==> whole_pixels(v) == v / 0x10_0000_0000_0000,
        v < 0 ==> whole_pixels(v) == -((-v) / 0x10_0000_0000_0000),
{
}

/// A number in units of 2^-1074 and a coordinate in units of 2^-52 stand for each
/// other.
pub proof fn law_units(v: int, c: int)
    ensures
        v >= 0 ==> units_of(v) == v / (pow2(1022) as int),
        v < 0 ==> units_of(v) == -((-v) / (pow2(1022) as int)),
        number_of(c) == double(c * pow2(1022), 1),
{
    lemma_pow2_pos(1022);
}

} // verus!
