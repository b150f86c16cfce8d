//! Rounding to binary64, the format of double-precision numbers.
//!
//! A double has 53 significant bits. Here one is a whole number of units, small
//! enough that nothing but the number of significant bits limits it.

use crate::fixed::abs;
use vstd::arithmetic::power2::{lemma_pow2_pos, lemma_pow2_unfold, pow2};
use vstd::prelude::*;

verus! {

/// The significant bits of a double reach up to this number.
pub const BITS53: i128 = 0x20_0000_0000_0000;

/// Half of it: the least number with 53 bits.
pub const BITS52: i128 = 0x10_0000_0000_0000;

/// The integer nearest to `n / d`, and the even one of two that are as near.
pub open spec fn nearest_even(n: int, d: int) -> int
    recommends
        d > 0,
{
    let q = abs(n) / d;
    let r = abs(n) % d;
    let m = if 2 * r > d || (2 * r == d && q % 2 == 1) {
        q + 1
    } else {
        q
    };
    if n < 0 {
        -m
    } else {
        m
    }
}

/// The number of 53 significant bits that is nearest to `n / d`, with the even
/// one of two that are as near. Below that many bits, every integer is one.
pub open spec fn double(n: int, d: int) -> int
    decreases abs(n) - d,
    when d > 0
{
    if abs(n) < BITS53 * d {
        nearest_even(n, d)
    } else {
        2 * double(n, 2 * d)
    }
}

/// The integer nearest to `n / d`, and the even one of two that are as near.
pub fn to_nearest_even(n: i128, d: i128) -> (r: i128)
    requires
        n > i128::MIN,
        0 < d <= 0x4000_0000_0000_0000_0000_0000_0000_0000,
    ensures
        r == nearest_even(n as int, d as int),
        abs(r as int) <= abs(n as int),
{
    let m: i128 = if n < 0 {
        -n
    } else {
        n
    };
    let q: i128 = m / d;
    let rest: i128 = m % d;
    proof {
        vstd::arithmetic::div_mod::lemma_fundamental_div_mod(m as int, d as int);
        vstd::arithmetic::div_mod::lemma_mod_bound(m as int, d as int);
        vstd::arithmetic::div_mod::lemma_div_pos_is_pos(m as int, d as int);
        vstd::arithmetic::div_mod::lemma_div_nonincreasing(m as int, d as int);
        assert(d * q >= q) by (nonlinear_arith)
            requires
                d >= 1,
                q >= 0,
        ;
    }
    let up: bool = rest > d - rest || (rest == d - rest && q % 2 == 1);
    proof {
        if up && d == 1 {
            assert(rest == 0);
        }
        if up {
            assert(d * q >= q && rest >= 1);
        }
    }
    let a: i128 = if up {
        q + 1
    } else {
        q
    };
    if n < 0 {
        -a
    } else {
        a
    }
}

/// The double nearest to an integer.
pub fn to_double(n: i128) -> (r: i128)
    requires
        -0x1000_0000_0000_0000_0000_0000_0000_0000 <= n
            <= 0x1000_0000_0000_0000_0000_0000_0000_0000,
    ensures
        r == double(n as int, 1),
        abs(r as int) <= 2 * abs(n as int),
        n >= 0 ==> r >= 0,
        n <= 0 ==> r <= 0,
{
    let m: i128 = if n < 0 {
        -n
    } else {
        n
    };
    let mut d: i128 = 1;
    while m / BITS53 >= d
        invariant
            m == abs(n as int),
            m <= 0x1000_0000_0000_0000_0000_0000_0000_0000,
            1 <= d,
            d == 1 || d <= 2 * (m as int),
            d <= 0x1_0000_0000_0000_0000_0000_0000,
            double(n as int, 1) == d * double(n as int, d as int),
        decreases m - d,
    {
        proof {
            let x = double(n as int, 2 * d as int);
            assert(d * (2 * x) == (2 * d) * x) by (nonlinear_arith);
        }
        d = 2 * d;
    }
    let q: i128 = to_nearest_even(n, d);
    proof {
        lemma_nearest_times(n as int, d as int);
        assert(abs(n as int) < BITS53 * d);
        assert(d * q == q * d) by (nonlinear_arith);
    }
    q * d
}

/// Rounding to a multiple of `d` goes no further than half of `d`.
proof fn lemma_nearest_times(n: int, d: int)
    requires
        d > 0,
        d == 1 || d <= 2 * abs(n),
    ensures
        abs(nearest_even(n, d) * d) <= 2 * abs(n),
        n >= 0 ==> nearest_even(n, d) >= 0,
        n <= 0 ==> nearest_even(n, d) <= 0,
        n >= 0 ==> nearest_even(n, d) * d >= 0,
        n <= 0 ==> nearest_even(n, d) * d <= 0,
{
    let m = abs(n);
    let q = m / d;
    let r = m % d;
    vstd::arithmetic::div_mod::lemma_fundamental_div_mod(m, d);
    vstd::arithmetic::div_mod::lemma_mod_bound(m, d);
    vstd::arithmetic::div_mod::lemma_div_pos_is_pos(m, d);
    assert(d * q == q * d) by (nonlinear_arith);
    assert((q + 1) * d == q * d + d) by (nonlinear_arith);
    assert((-q) * d == -(q * d)) by (nonlinear_arith);
    assert((-(q + 1)) * d == -((q + 1) * d)) by (nonlinear_arith);
    assert(q * d >= 0) by (nonlinear_arith)
        requires
            q >= 0,
            d > 0,
    ;
    assert(q == 0 ==> r == m) by (nonlinear_arith)
        requires
            m == d * q + r,
    ;
    assert(q >= 1 ==> d * q >= d) by (nonlinear_arith)
        requires
            d > 0,
    ;
}

proof fn lemma_nearest_scaled(n: int, d: int)
    requires
        d > 0,
    ensures
        nearest_even(2 * n, 2 * d) == nearest_even(n, d),
{
    let m = abs(n);
    vstd::arithmetic::div_mod::lemma_fundamental_div_mod(m, d);
    vstd::arithmetic::div_mod::lemma_mod_bound(m, d);
    let (q, r) = (m / d, m % d);
    assert(2 * m == q * (2 * d) + 2 * r) by (nonlinear_arith)
        requires
            m == d * q + r,
    ;
    vstd::arithmetic::div_mod::lemma_fundamental_div_mod_converse(2 * m, 2 * d, q, 2 * r);
}

/// Doubling both sides of a quotient makes no difference.
pub proof fn lemma_double_scaled(n: int, d: int)
    requires
        d > 0,
    ensures
        double(2 * n, 2 * d) == double(n, d),
    decreases abs(n) - d,
{
    lemma_nearest_scaled(n, d);
    if abs(n) >= BITS53 * d {
        lemma_double_scaled(n, 2 * d);
    }
}

/// A number of 53 bits or more goes on being rounded in the same place when it
/// is doubled.
pub proof fn lemma_double_shifted(n: int, d: int, i: nat)
    requires
        d > 0,
        n >= BITS52 * d,
    ensures
        double(n * pow2(i), d) == double(n, d) * pow2(i),
    decreases i,
{
    if i == 0 {
        vstd::arithmetic::power2::lemma2_to64();
    } else {
        lemma_double_shifted(n, d, (i - 1) as nat);
        lemma_pow2_unfold(i);
        lemma_pow2_pos((i - 1) as nat);
        let p = pow2((i - 1) as nat) as int;
        let x = n * p;
        assert(x >= n) by (nonlinear_arith)
            requires
                x == n * p,
                n >= 0,
                p >= 1,
        ;
        assert(n * (2 * p) == 2 * x) by (nonlinear_arith)
            requires
                x == n * p,
        ;
        assert(2 * x >= BITS53 * d);
        lemma_double_scaled(x, d);
        let y = double(n, d);
        assert(2 * (y * p) == y * (2 * p)) by (nonlinear_arith);
    }
}

// ---------------------------------------------------------------------------
// Order
// ---------------------------------------------------------------------------

/// Rounding to an integer keeps the order of numbers.
pub proof fn lemma_nearest_ordered(a: int, b: int, d: int)
    requires
        d > 0,
        0 <= a <= b,
    ensures
        0 <= nearest_even(a, d) <= nearest_even(b, d),
{
    vstd::arithmetic::div_mod::lemma_div_is_ordered(a, b, d);
    vstd::arithmetic::div_mod::lemma_div_pos_is_pos(a, d);
    vstd::arithmetic::div_mod::lemma_fundamental_div_mod(a, d);
    vstd::arithmetic::div_mod::lemma_fundamental_div_mod(b, d);
    if a / d == b / d {
        assert(d * (a / d) == d * (b / d));
        assert(a % d <= b % d);
    }
}

proof fn lemma_double_ordered_up(a: int, b: int, d: int)
    requires
        d > 0,
        0 <= a <= b,
    ensures
        double(a, d) <= double(b, d),
    decreases abs(b) - d,
{
    if b < BITS53 * d {
        lemma_nearest_ordered(a, b, d);
    } else if a >= BITS53 * d {
        lemma_double_ordered_up(a, b, 2 * d);
    } else {
        let (lo, mid) = (double(a, d), double(BITS52 * (2 * d), 2 * d));
        lemma_double_ordered_up(BITS52 * (2 * d), b, 2 * d);
        lemma_nearest_bounds(a, d, 0, BITS53 as int);
        lemma_nearest_multiple(BITS52 as int, 2 * d);
    }
}

/// A multiple of the divisor is not rounded.
pub proof fn lemma_nearest_multiple(q: int, d: int)
    requires
        d > 0,
        q >= 0,
    ensures
        nearest_even(q * d, d) == q,
{
    assert(q * d >= 0) by (nonlinear_arith)
        requires
            q >= 0,
            d > 0,
    ;
    assert(q * d == q * d + 0);
    vstd::arithmetic::div_mod::lemma_fundamental_div_mod_converse(q * d, d, q, 0);
}

/// Rounding to a double keeps the order of numbers.
pub proof fn lemma_double_ordered(a: int, b: int, d: int)
    requires
        d > 0,
        a <= b,
    ensures
        double(a, d) <= double(b, d),
{
    lemma_double_negated(a, d);
    lemma_double_negated(b, d);
    if a >= 0 {
        lemma_double_ordered_up(a, b, d);
    } else if b <= 0 {
        lemma_double_ordered_up(-b, -a, d);
    } else {
        lemma_double_positive(-a, d);
        lemma_double_positive(b, d);
    }
}

/// A number of 53 bits is a double wherever its point stands.
pub proof fn lemma_double_exact(m: int, i: nat)
    requires
        -BITS53 <= m <= BITS53,
    ensures
        double(m * pow2(i), 1) == m * pow2(i),
    decreases i,
{
    lemma_pow2_pos(i);
    let n = m * pow2(i);
    let p = pow2(i) as int;
    assert(abs(n) == abs(m) * p) by (nonlinear_arith)
        requires
            n == m * p,
            p > 0,
    ;
    if i == 0 {
        vstd::arithmetic::power2::lemma2_to64();
    }
    if abs(n) < BITS53 {
        lemma_nearest_multiple(abs(n), 1);
    } else if i == 0 {
        lemma_nearest_multiple(BITS52 as int, 2);
        lemma_double_negated(BITS53 as int, 1);
        assert(double(BITS53 as int, 1) == 2 * double(BITS53 as int, 2));
    } else {
        lemma_double_exact(m, (i - 1) as nat);
        lemma_pow2_unfold(i);
        let k = pow2((i - 1) as nat) as int;
        assert(m * (2 * k) == 2 * (m * k)) by (nonlinear_arith);
        lemma_double_scaled(m * k, 1);
    }
}

// ---------------------------------------------------------------------------
// Quotients
// ---------------------------------------------------------------------------

/// How often `n` has to be doubled for `n / d` to have 53 bits before the point.
pub open spec fn places(n: int, d: int) -> nat
    decreases BITS53 * d - n,
    when n > 0 && d > 0
{
    if n >= BITS52 * d {
        0
    } else {
        1 + places(2 * n, d)
    }
}

/// The quotients by the 53 bits of a double are counted in units of which two to
/// this power make one.
pub open spec fn unit_bits() -> nat {
    106
}

/// The quotient of two integers as a double: its 53 bits, and how many of them
/// stand behind the point.
#[derive(Clone, Copy, Debug, PartialEq, Eq, Structural)]
pub struct Quotient {
    pub mantissa: i128,
    pub places: u32,
}

/// The 53 bits of `n / d`.
pub open spec fn mantissa(n: int, d: int) -> int {
    nearest_even(n * pow2(places(n, d)), d)
}

proof fn lemma_powers()
    ensures
        pow2(31) == 0x8000_0000,
        pow2(52) == BITS52,
        pow2(53) == BITS53,
        pow2(84) == 0x10_0000_0000_0000_0000_0000,
        pow2(106) == 0x400_0000_0000_0000_0000_0000_0000,
{
    vstd::arithmetic::power2::lemma2_to64();
    vstd::arithmetic::power2::lemma2_to64_rest();
    vstd::arithmetic::power2::lemma_pow2_adds(53, 31);
    vstd::arithmetic::power2::lemma_pow2_adds(53, 53);
}

/// Rounding keeps to whole bounds.
pub proof fn lemma_nearest_bounds(n: int, d: int, lo: int, hi: int)
    requires
        d > 0,
        0 <= lo,
        lo * d <= n < hi * d,
    ensures
        lo <= nearest_even(n, d) <= hi,
{
    vstd::arithmetic::div_mod::lemma_fundamental_div_mod(n, d);
    vstd::arithmetic::div_mod::lemma_mod_bound(n, d);
    let (q, r) = (n / d, n % d);
    assert(lo <= q < hi) by (nonlinear_arith)
        requires
            n == d * q + r,
            0 <= r < d,
            lo * d <= n < hi * d,
            d > 0,
    ;
    assert(0 <= lo * d) by (nonlinear_arith)
        requires
            0 <= lo,
            d > 0,
    ;
}

/// The quotient of two positive integers as a double.
pub fn to_quotient(n: i32, d: i32) -> (q: Quotient)
    requires
        n > 0,
        d > 0,
    ensures
        q.mantissa == mantissa(n as int, d as int),
        q.places == places(n as int, d as int),
        BITS52 <= q.mantissa <= BITS53,
        21 <= q.places <= 84,
{
    let den: i128 = d as i128;
    let mut num: i128 = n as i128;
    let mut k: u32 = 0;
    proof {
        lemma_powers();
        vstd::arithmetic::power2::lemma2_to64();
    }
    while num < BITS52 * den
        invariant
            den == d,
            0 < d,
            0 < n,
            n <= num < BITS53 * den,
            num == n * pow2(k as nat),
            k <= 84,
            places(n as int, d as int) == k + places(num as int, d as int),
        decreases BITS53 * den - num,
    {
        proof {
            lemma_powers();
            lemma_pow2_unfold((k + 1) as nat);
            let p = pow2(k as nat) as int;
            assert(n * (2 * p) == 2 * (n * p)) by (nonlinear_arith);
            assert(n * p >= p) by (nonlinear_arith)
                requires
                    n >= 1,
                    p >= 0,
            ;
            if k >= 84 {
                assert(p >= pow2(84));
            }
        }
        num = 2 * num;
        k = k + 1;
    }
    proof {
        lemma_nearest_bounds(num as int, den as int, BITS52 as int, BITS53 as int);
        vstd::arithmetic::power2::lemma2_to64();
        if k < 21 {
            vstd::arithmetic::power2::lemma_pow2_strictly_increases(k as nat, 21);
            let p = pow2(k as nat) as int;
            assert(n * p < BITS52) by (nonlinear_arith)
                requires
                    0 < n < 0x8000_0000,
                    0 <= p < 0x20_0000,
            ;
        }
    }
    Quotient { mantissa: to_nearest_even(num, den), places: k }
}

/// Two to the power of `i`.
pub fn to_power(i: u32) -> (r: i128)
    requires
        i <= 106,
    ensures
        r == pow2(i as nat),
        0 < r <= 0x400_0000_0000_0000_0000_0000_0000,
{
    let mut r: i128 = 1;
    let mut j: u32 = 0;
    proof {
        lemma_powers();
        vstd::arithmetic::power2::lemma2_to64();
    }
    while j < i
        invariant
            j <= i <= 106,
            r == pow2(j as nat),
            0 < r <= 0x400_0000_0000_0000_0000_0000_0000,
        decreases i - j,
    {
        proof {
            lemma_powers();
            lemma_pow2_unfold((j + 1) as nat);
            if j + 1 < 106 {
                vstd::arithmetic::power2::lemma_pow2_strictly_increases((j + 1) as nat, 106);
            }
        }
        r = 2 * r;
        j = j + 1;
    }
    r
}

/// The quotient of an integer by the 53 bits of a double, as a double, in units
/// of which there are 2^106 to one.
pub fn to_double_quotient(v: i32, d: i128) -> (r: i128)
    requires
        BITS52 <= d <= BITS53,
    ensures
        r == double(v * pow2(unit_bits()), d as int),
        -0x80_0000_0000_0000_0000_0000 <= r <= 0x80_0000_0000_0000_0000_0000,
{
    proof {
        lemma_powers();
    }
    if v == 0 {
        assert(nearest_even(0, d as int) == 0) by {
            vstd::arithmetic::div_mod::lemma_div_basics(d as int);
            vstd::arithmetic::div_mod::lemma_small_mod(0, d as nat);
        }
        return 0;
    }
    let a: i128 = if v < 0 {
        -(v as i128)
    } else {
        v as i128
    };
    let mut num: i128 = a;
    let mut rest: u32 = 106;
    while num < BITS52 * d
        invariant
            BITS52 <= d <= BITS53,
            1 <= a <= 0x8000_0000,
            a <= num < BITS53 * d,
            rest <= 106,
            num * pow2(rest as nat) == a * pow2(106),
            pow2(106) == 0x400_0000_0000_0000_0000_0000_0000,
        decreases rest,
    {
        proof {
            if rest == 0 {
                vstd::arithmetic::power2::lemma2_to64();
                assert(num == a * pow2(106));
            } else {
                lemma_pow2_unfold(rest as nat);
                let p = pow2((rest - 1) as nat) as int;
                assert((2 * num) * p == num * (2 * p)) by (nonlinear_arith);
            }
        }
        num = 2 * num;
        rest = rest - 1;
    }
    let q: i128 = to_nearest_even(num, d);
    let p: i128 = to_power(rest);
    proof {
        lemma_double_shifted(num as int, d as int, rest as nat);
        lemma_nearest_bounds(num as int, d as int, BITS52 as int, BITS53 as int);
        lemma_double_negated(a * pow2(106), d as int);
        assert(p <= 0x2_0000_0000) by (nonlinear_arith)
            requires
                num * p == a * 0x400_0000_0000_0000_0000_0000_0000,
                num >= 0x100_0000_0000_0000_0000_0000_0000,
                1 <= a <= 0x8000_0000,
                p > 0,
        ;
        assert(0 <= q * p <= 0x40_0000_0000_0000_0000_0000) by (nonlinear_arith)
            requires
                0 <= q <= 0x20_0000_0000_0000,
                0 < p <= 0x2_0000_0000,
        ;
        assert((-(a as int)) * pow2(106) == -(a * pow2(106))) by (nonlinear_arith);
    }
    if v < 0 {
        -(q * p)
    } else {
        q * p
    }
}

/// The double nearest to a number of the other sign has the other sign.
pub proof fn lemma_double_negated(n: int, d: int)
    requires
        d > 0,
    ensures
        double(-n, d) == -double(n, d),
    decreases abs(n) - d,
{
    assert(abs(-n) == abs(n));
    assert(nearest_even(-n, d) == -nearest_even(n, d)) by {
        if n == 0 {
            vstd::arithmetic::div_mod::lemma_div_basics(d);
            vstd::arithmetic::div_mod::lemma_small_mod(0, d as nat);
        }
    }
    if abs(n) >= BITS53 * d {
        lemma_double_negated(n, 2 * d);
    }
}

// ---------------------------------------------------------------------------
// Bits
// ---------------------------------------------------------------------------

/// The 53 bits of a quotient as a double, and how often they have to be doubled
/// to give it.
pub fn to_bits(n: i128, d: i128) -> (r: (i128, u32))
    requires
        0 <= n <= 0x1000_0000_0000_0000_0000_0000_0000_0000,
        1 <= d <= 0x4000_0000_0000_0000_0000_0000_0000_0000,
    ensures
        double(n as int, d as int) == r.0 * pow2(r.1 as nat),
        0 <= r.0 <= BITS53,
        r.1 > 0 ==> r.0 >= BITS52,
        n >= BITS52 * d ==> r.0 >= BITS52,
        r.1 <= 72,
{
    let mut e: i128 = d;
    let mut k: u32 = 0;
    proof {
        vstd::arithmetic::power2::lemma2_to64();
    }
    while n / BITS53 >= e
        invariant
            0 <= n <= 0x1000_0000_0000_0000_0000_0000_0000_0000,
            1 <= d <= e <= 0x4000_0000_0000_0000_0000_0000_0000_0000,
            k > 0 ==> e <= 0x100_0000_0000_0000_0000,
            k <= 72,
            pow2(k as nat) <= e,
            e == d * pow2(k as nat),
            k > 0 ==> n >= BITS52 * e,
            double(n as int, d as int) == pow2(k as nat) * double(n as int, e as int),
        decreases n - e,
    {
        proof {
            let x = double(n as int, 2 * e as int);
            let p = pow2(k as nat) as int;
            assert(p * (2 * x) == (2 * p) * x) by (nonlinear_arith);
            assert(d * (2 * p) == 2 * (d * p)) by (nonlinear_arith);
            lemma_pow2_unfold((k + 1) as nat);
            lemma_powers();
            if k == 72 {
                vstd::arithmetic::power2::lemma_pow2_adds(53, 19);
                vstd::arithmetic::power2::lemma2_to64();
            }
        }
        e = 2 * e;
        k = k + 1;
    }
    let q: i128 = to_nearest_even(n, e);
    proof {
        assert(n < BITS53 * e);
        let lo: int = if n >= BITS52 * e {
            BITS52 as int
        } else {
            0
        };
        lemma_nearest_bounds(n as int, e as int, lo, BITS53 as int);
        let p = pow2(k as nat) as int;
        assert(p * q == q * p) by (nonlinear_arith);
        assert(k == 0 ==> e == d);
    }
    (q, k)
}

/// A number that is not negative rounds to one that is not.
pub proof fn lemma_double_positive(n: int, d: int)
    requires
        n >= 0,
        d > 0,
    ensures
        double(n, d) >= 0,
    decreases abs(n) - d,
{
    if abs(n) >= BITS53 * d {
        lemma_double_positive(n, 2 * d);
    } else {
        vstd::arithmetic::div_mod::lemma_div_pos_is_pos(n, d);
    }
}

} // verus!
