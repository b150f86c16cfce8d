//! Double-precision numbers and their arithmetic.

use crate::double::{
    double, lemma_double_exact, lemma_double_negated, lemma_double_ordered, lemma_double_positive,
    lemma_double_scaled, lemma_double_shifted, lemma_nearest_multiple, nearest_even, to_bits,
    to_power, BITS52, BITS53,
};
use crate::fixed::{abs, div_toward_zero, Coord};
use vstd::arithmetic::power2::{
    lemma2_to64, lemma2_to64_rest, lemma_pow2_adds, lemma_pow2_pos, lemma_pow2_strictly_increases,
    lemma_pow2_unfold, pow2,
};
use vstd::prelude::*;

verus! {

/// How often the least double above zero has to be doubled to give one.
pub const ONE_SHIFT: u32 = 1074;

/// How often the bits of a finite double are doubled at most.
pub const SHIFT_LIMIT: u32 = 2045;

/// A double: `bits`, of which there are 53, doubled `shift` times, in units of
/// the least double above zero, which is 2^-1074.
#[derive(Clone, Copy, Debug, PartialEq, Eq, Structural)]
pub struct Double {
    pub bits: i128,
    pub shift: u32,
}

impl View for Double {
    type V = int;

    /// The number, in units of 2^-1074.
    open spec fn view(&self) -> int {
        self.bits * pow2(self.shift as nat)
    }
}

/// One, in units of 2^-1074.
pub open spec fn one() -> int {
    pow2(ONE_SHIFT as nat) as int
}

/// What no finite double reaches, in units of 2^-1074.
pub open spec fn infinite() -> int {
    pow2(2098) as int
}

impl Double {
    pub open spec fn wf(self) -> bool {
        &&& -BITS53 <= self.bits <= BITS53
        &&& self.shift <= SHIFT_LIMIT
    }
}

/// The double of the integer `n` doubled `shift` times.
fn rounded(n: i128, shift: u32) -> (r: Double)
    requires
        -0x1000_0000_0000_0000_0000_0000_0000_0000 <= n
            <= 0x1000_0000_0000_0000_0000_0000_0000_0000,
        shift <= SHIFT_LIMIT || (shift <= 4000 && abs(n as int) >= BITS52),
    ensures
        r@ == double(n * pow2(shift as nat), 1),
        abs(r@) < infinite() ==> r.wf(),
        -BITS53 <= r.bits <= BITS53,
        r.shift <= shift + 72,
{
    let m: i128 = if n < 0 {
        -n
    } else {
        n
    };
    let (b, k): (i128, u32) = to_bits(m, 1);
    let r: Double = if n < 0 {
        Double { bits: -b, shift: shift + k }
    } else {
        Double { bits: b, shift: shift + k }
    };
    proof {
        let (p, t) = (pow2(shift as nat) as int, pow2(k as nat) as int);
        lemma_shifted(m as int, shift as nat);
        lemma_pow2_adds(k as nat, shift as nat);
        let u = b as int;
        assert((u * t) * p == u * (t * p)) by (nonlinear_arith);
        assert((-u) * (t * p) == -(u * (t * p))) by (nonlinear_arith);
        assert((-(m as int)) * p == -(m * p)) by (nonlinear_arith);
        lemma_double_negated(m * p, 1);
        assert(t * p == p * t) by (nonlinear_arith);
        if r.shift > SHIFT_LIMIT {
            lemma2_to64_rest();
            lemma_pow2_adds(52, 2046);
            if r.shift > 2046 {
                lemma_pow2_strictly_increases(2046, r.shift as nat);
            }
            let q = pow2(r.shift as nat) as int;
            assert(u * q >= pow2(52) * pow2(2046)) by (nonlinear_arith)
                requires
                    u >= pow2(52),
                    q >= pow2(2046),
            ;
        }
    }
    r
}

/// Doubling an integer before it is rounded or after makes no difference.
proof fn lemma_shifted(n: int, i: nat)
    requires
        n >= 0,
    ensures
        double(n * pow2(i), 1) == double(n, 1) * pow2(i),
{
    if n >= BITS52 {
        lemma_double_shifted(n, 1, i);
    } else {
        lemma_double_exact(n, i);
        lemma_double_exact(n, 0);
        lemma2_to64();
        assert(n * pow2(0) == n);
    }
}

/// A whole number.
pub fn whole(n: i32) -> (r: Double)
    ensures
        r@ == n * one(),
        r.wf(),
{
    Double { bits: n as i128, shift: ONE_SHIFT }
}

/// The number of the other sign.
pub fn negated(d: Double) -> (r: Double)
    requires
        d.wf(),
    ensures
        r@ == -d@,
        r.wf(),
{
    proof {
        let (b, p) = (d.bits as int, pow2(d.shift as nat) as int);
        assert((-b) * p == -(b * p)) by (nonlinear_arith);
    }
    Double { bits: -d.bits, shift: d.shift }
}

/// A number over two.
pub fn halved(d: Double) -> (r: Double)
    requires
        d.wf(),
    ensures
        r@ == double(d@, 2),
        r.wf(),
{
    let b: i128 = d.bits;
    if d.shift > 0 {
        proof {
            lemma_pow2_unfold(d.shift as nat);
            let p = pow2((d.shift - 1) as nat) as int;
            assert(b * (2 * p) == 2 * (b * p)) by (nonlinear_arith);
            lemma_double_exact(b as int, (d.shift - 1) as nat);
            lemma_double_scaled(b * p, 1);
        }
        Double { bits: b, shift: d.shift - 1 }
    } else {
        proof {
            lemma2_to64();
            assert(b * pow2(0) == b);
        }
        let q: i128 = crate::double::to_nearest_even(b, 2);
        proof {
            assert(q * pow2(0) == q);
        }
        Double { bits: q, shift: 0 }
    }
}

/// The part `n / 4` of a number, for a small `n`.
pub fn quarters(d: Double, n: i128) -> (r: Double)
    requires
        d.wf(),
        1 <= n <= 3,
    ensures
        r@ == double(n * d@, 4),
        r.wf(),
{
    let (b, s): (i128, u32) = (d.bits, d.shift);
    assert(-3 * BITS53 <= n * b <= 3 * BITS53) by (nonlinear_arith)
        requires
            1 <= n <= 3,
            -BITS53 <= b <= BITS53,
    ;
    if s >= 2 {
        let r: Double = rounded(n * b, s - 2);
        proof {
            lemma_pow2_unfold(s as nat);
            lemma_pow2_unfold((s - 1) as nat);
            let p = pow2((s - 2) as nat) as int;
            let v = (n * b) * p;
            assert(n * (b * (2 * (2 * p))) == 2 * (2 * v)) by (nonlinear_arith)
                requires
                    v == (n * b) * p,
            ;
            lemma_double_scaled(2 * v, 2);
            lemma_double_scaled(v, 1);
            lemma_finite(n * b, (s - 2) as nat);
        }
        r
    } else {
        let p: i128 = if s == 1 {
            2
        } else {
            1
        };
        let nb: i128 = n * b;
        let v: i128 = nb * p;
        let m: i128 = if v < 0 {
            -v
        } else {
            v
        };
        let (q, k): (i128, u32) = to_bits(m, 4);
        proof {
            lemma2_to64();
            assert(pow2(s as nat) == p);
            assert(n * (b * p) == (n * b) * p) by (nonlinear_arith);
            assert(n * d@ == v);
            lemma_double_negated(m as int, 4);
            let (u, t) = (q as int, pow2(k as nat) as int);
            assert((-u) * t == -(u * t)) by (nonlinear_arith);
        }
        Double {
            bits: if v < 0 {
                -q
            } else {
                q
            },
            shift: k,
        }
    }
}

/// Three quarters of a double stay below what no double reaches.
proof fn lemma_finite(n: int, i: nat)
    requires
        -3 * BITS53 <= n <= 3 * BITS53,
        i <= SHIFT_LIMIT - 2,
    ensures
        abs(double(n * pow2(i), 1)) < infinite(),
{
    lemma2_to64();
    lemma2_to64_rest();
    lemma_pow2_adds(53, 2043);
    lemma_pow2_adds(2, 2096);
    if i < 2043 {
        lemma_pow2_strictly_increases(i, 2043);
    }
    let (p, q) = (pow2(i) as int, pow2(2043) as int);
    lemma_pow2_pos(i);
    let bound: int = 3 * pow2(2096) as int;
    assert(-bound <= n * p <= bound) by (nonlinear_arith)
        requires
            -3 * BITS53 <= n <= 3 * BITS53,
            0 < p <= q,
            bound == 3 * (BITS53 * q),
    ;
    lemma_double_exact(3, 2096);
    lemma_double_exact(-3, 2096);
    lemma_double_ordered(-bound, n * p, 1);
    lemma_double_ordered(n * p, bound, 1);
}

/// No double is nearer to a number than the one that it is rounded to.
pub proof fn lemma_double_nearest(n: int, d: int, m: int, i: nat)
    requires
        n >= 0,
        d > 0,
        0 <= m <= BITS53,
    ensures
        abs(double(n, d) * d - n) <= abs(m * pow2(i) * d - n),
    decreases abs(n) - d,
{
    let g = m * pow2(i);
    lemma_pow2_pos(i);
    if n < BITS53 * d {
        let q = n / d;
        vstd::arithmetic::div_mod::lemma_fundamental_div_mod(n, d);
        vstd::arithmetic::div_mod::lemma_mod_bound(n, d);
        assert(d * q == q * d && (q + 1) * d == q * d + d) by (nonlinear_arith);
        let x = double(n, d);
        assert(x == q || x == q + 1);
        assert(g <= q ==> g * d <= q * d) by (nonlinear_arith)
            requires
                d > 0,
        ;
        assert(g >= q + 1 ==> g * d >= (q + 1) * d) by (nonlinear_arith)
            requires
                d > 0,
        ;
    } else {
        let x = double(n, 2 * d);
        assert((2 * x) * d == x * (2 * d)) by (nonlinear_arith);
        if i > 0 {
            lemma_double_nearest(n, 2 * d, m, (i - 1) as nat);
            lemma_pow2_unfold(i);
            let p = pow2((i - 1) as nat) as int;
            assert((m * (2 * p)) * d == (m * p) * (2 * d)) by (nonlinear_arith);
            assert(g * d == (m * p) * (2 * d));
        } else {
            lemma2_to64();
            assert(g == m);
            lemma_double_nearest(n, 2 * d, BITS52 as int, 0);
            let unit = pow2(0) as int;
            assert(BITS52 * unit * (2 * d) == BITS53 * d) by (nonlinear_arith)
                requires
                    unit == 1,
                    BITS53 == 2 * BITS52,
            ;
            assert(g * d == m * d);
            assert(m * d <= BITS53 * d) by (nonlinear_arith)
                requires
                    m <= BITS53,
                    d > 0,
            ;
        }
    }
}

// ---------------------------------------------------------------------------
// Sums
// ---------------------------------------------------------------------------

/// The same number with as many bits as it can have.
fn filled(d: Double) -> (r: Double)
    requires
        d.wf(),
    ensures
        r@ == d@,
        r.wf(),
        r.shift > 0 ==> abs(r.bits as int) >= BITS52,
{
    if d.bits == 0 {
        proof {
            assert(0 * pow2(d.shift as nat) == 0 && 0 * pow2(0) == 0);
        }
        return Double { bits: 0, shift: 0 };
    }
    let mut b: i128 = d.bits;
    let mut s: u32 = d.shift;
    while -BITS52 < b && b < BITS52 && s > 0
        invariant
            -BITS53 <= b <= BITS53,
            s <= SHIFT_LIMIT,
            b * pow2(s as nat) == d@,
        decreases s,
    {
        proof {
            lemma_pow2_unfold(s as nat);
            let (u, p) = (b as int, pow2((s - 1) as nat) as int);
            assert((2 * u) * p == u * (2 * p)) by (nonlinear_arith);
        }
        b = 2 * b;
        s = s - 1;
    }
    Double { bits: b, shift: s }
}

/// In its own place a number of 53 bits is rounded to an integer.
proof fn lemma_double_in_place(n: int, i: nat)
    requires
        n >= BITS52 * pow2(i),
    ensures
        double(n, 1) == pow2(i) * double(n, pow2(i) as int),
    decreases i,
{
    if i == 0 {
        lemma2_to64();
        let (unit, x) = (pow2(0) as int, double(n, 1));
        assert(unit * x == x) by (nonlinear_arith)
            requires
                unit == 1,
        ;
    } else {
        lemma_pow2_unfold(i);
        lemma_pow2_pos((i - 1) as nat);
        let p = pow2((i - 1) as nat) as int;
        lemma_double_in_place(n, (i - 1) as nat);
        let x = double(n, 2 * p);
        assert(abs(n) >= BITS53 * p);
        assert(double(n, p) == 2 * x);
        assert(p * (2 * x) == (2 * p) * x) by (nonlinear_arith);
    }
}

proof fn lemma_nearest_off(m: int, d: int, off: int)
    requires
        m >= 1,
        d > 0,
        2 * abs(off) < d,
    ensures
        nearest_even(m * d + off, d) == m,
{
    let n = m * d + off;
    assert(m * d >= d) by (nonlinear_arith)
        requires
            m >= 1,
            d > 0,
    ;
    if off >= 0 {
        vstd::arithmetic::div_mod::lemma_fundamental_div_mod_converse(n, d, m, off);
    } else {
        assert((m - 1) * d == m * d - d) by (nonlinear_arith);
        vstd::arithmetic::div_mod::lemma_fundamental_div_mod_converse(n, d, m - 1, d + off);
    }
}

/// What is far below the last bit of a number does not change it.
proof fn lemma_absorbed(m: int, i: nat, off: int)
    requires
        BITS52 <= m <= BITS53,
        i >= 65,
        -BITS53 <= off <= BITS53,
    ensures
        double(m * pow2(i) + off, 1) == m * pow2(i),
        m * pow2(i) + off >= BITS52,
{
    lemma2_to64();
    lemma2_to64_rest();
    if i > 64 {
        lemma_pow2_strictly_increases(64, i);
    }
    lemma_pow2_unfold(i);
    lemma_pow2_unfold(i + 1);
    let p = pow2(i) as int;
    let h = pow2((i - 1) as nat) as int;
    let n = m * p + off;
    assert(BITS52 * p <= m * p <= BITS53 * p) by (nonlinear_arith)
        requires
            BITS52 <= m <= BITS53,
            p > 0,
    ;
    assert(m < BITS53 ==> m * p + p <= BITS53 * p) by (nonlinear_arith)
        requires
            p > 0,
    ;
    assert(m > BITS52 ==> m * p >= BITS52 * p + p) by (nonlinear_arith)
        requires
            p > 0,
    ;
    if n < BITS52 * p {
        assert(m == BITS52);
        lemma_double_in_place(n, (i - 1) as nat);
        lemma_nearest_off(BITS53 as int, h, off);
        assert(n == BITS53 * h + off);
    } else if n < BITS53 * p {
        lemma_double_in_place(n, i);
        lemma_nearest_off(m, p, off);
        assert(p * m == m * p) by (nonlinear_arith);
    } else {
        assert(m == BITS53);
        lemma_double_in_place(n, i + 1);
        lemma_nearest_off(BITS52 as int, 2 * p, off);
        assert(n == BITS52 * (2 * p) + off);
    }
}

/// The sum of two numbers.
pub fn sum(a: Double, b: Double) -> (r: Double)
    requires
        a.wf(),
        b.wf(),
    ensures
        r@ == double(a@ + b@, 1),
        abs(r@) < infinite() ==> r.wf(),
        -BITS53 <= r.bits <= BITS53,
{
    let (fa, fb): (Double, Double) = (filled(a), filled(b));
    let (hi, lo): (Double, Double) = if fa.shift >= fb.shift {
        (fa, fb)
    } else {
        (fb, fa)
    };
    let gap: u32 = hi.shift - lo.shift;
    proof {
        lemma_pow2_adds(gap as nat, lo.shift as nat);
        let (x, y) = (hi.bits as int, lo.bits as int);
        let (g, q) = (pow2(gap as nat) as int, pow2(lo.shift as nat) as int);
        assert(x * (g * q) + y * q == (x * g + y) * q) by (nonlinear_arith);
        assert(a@ + b@ == (x * g + y) * q);
    }
    if gap <= 64 {
        let g: i128 = to_power(gap);
        proof {
            lemma2_to64();
            if gap < 64 {
                lemma_pow2_strictly_increases(gap as nat, 64);
            }
            let x = hi.bits as int;
            assert(-0x20_0000_0000_0000_0000_0000_0000_0000 <= x * g
                <= 0x20_0000_0000_0000_0000_0000_0000_0000) by (nonlinear_arith)
                requires
                    -BITS53 <= x <= BITS53,
                    0 < g <= 0x1_0000_0000_0000_0000,
            ;
        }
        rounded(hi.bits * g + lo.bits, lo.shift)
    } else {
        proof {
            let (x, y) = (hi.bits as int, lo.bits as int);
            let (g, q) = (pow2(gap as nat) as int, pow2(lo.shift as nat) as int);
            let (m, off) = (
                abs(x),
                if x < 0 {
                    -y
                } else {
                    y
                },
            );
            lemma_absorbed(m, gap as nat, off);
            lemma_shifted(m * g + off, lo.shift as nat);
            lemma_double_negated((m * g + off) * q, 1);
            assert((m * g) * q == m * (g * q)) by (nonlinear_arith);
            assert((-x) * (g * q) == -(x * (g * q))) by (nonlinear_arith);
            assert((-x) * g == -(x * g)) by (nonlinear_arith);
            assert(-((m * g + off) * q) == (-(m * g + off)) * q) by (nonlinear_arith);
        }
        hi
    }
}

/// Whether a number is less than another.
pub fn is_less(a: Double, b: Double) -> (r: bool)
    requires
        a.wf(),
        b.wf(),
    ensures
        r == (a@ < b@),
{
    let d: Double = sum(a, negated(b));
    proof {
        let n = a@ - b@;
        lemma2_to64();
        lemma_double_exact(-1, 0);
        if n < 0 {
            lemma_double_ordered(n, -1, 1);
        } else {
            lemma_double_positive(n, 1);
        }
        lemma_pow2_pos(d.shift as nat);
        let (u, p) = (d.bits as int, pow2(d.shift as nat) as int);
        assert(u < 0 <==> u * p < 0) by (nonlinear_arith)
            requires
                p > 0,
        ;
    }
    d.bits < 0
}

// ---------------------------------------------------------------------------
// Products and quotients
// ---------------------------------------------------------------------------

/// Doubling both sides of a quotient over and over makes no difference.
pub proof fn lemma_unshifted(n: int, d: int, i: nat)
    requires
        d > 0,
    ensures
        double(n * pow2(i), d * pow2(i)) == double(n, d),
    decreases i,
{
    if i == 0 {
        lemma2_to64();
        assert(n * pow2(0) == n && d * pow2(0) == d);
    } else {
        lemma_unshifted(n, d, (i - 1) as nat);
        lemma_pow2_unfold(i);
        lemma_pow2_pos((i - 1) as nat);
        let p = pow2((i - 1) as nat) as int;
        assert(n * (2 * p) == 2 * (n * p) && d * (2 * p) == 2 * (d * p)) by (nonlinear_arith);
        assert(d * p > 0) by (nonlinear_arith)
            requires
                d > 0,
                p > 0,
        ;
        lemma_double_scaled(n * p, d * p);
        assert(n * pow2(i) == 2 * (n * p) && d * pow2(i) == 2 * (d * p));
    }
}

/// The product of two numbers that are not negative.
pub fn product(a: Double, b: Double) -> (r: Double)
    requires
        a.wf(),
        b.wf(),
        a.bits >= 0,
        b.bits >= 0,
    ensures
        r@ == double(a@ * b@, one()),
        r@ >= 0,
        abs(r@) < infinite() ==> r.wf(),
{
    let (fa, fb): (Double, Double) = (filled(a), filled(b));
    proof {
        lemma_bits_sign(a);
        lemma_bits_sign(b);
        lemma_bits_sign(fa);
        lemma_bits_sign(fb);
        let (x, y) = (fa.bits as int, fb.bits as int);
        assert(0 <= x * y <= BITS53 * BITS53) by (nonlinear_arith)
            requires
                0 <= x <= BITS53,
                0 <= y <= BITS53,
        ;
        assert(x >= BITS52 && y >= BITS52 ==> x * y >= BITS52) by (nonlinear_arith);
        let (p, q) = (pow2(fa.shift as nat) as int, pow2(fb.shift as nat) as int);
        lemma_pow2_adds(fa.shift as nat, fb.shift as nat);
        assert((x * p) * (y * q) == (x * y) * (p * q)) by (nonlinear_arith);
        lemma_pow2_pos(ONE_SHIFT as nat);
        assert((x * p) * (y * q) >= 0) by (nonlinear_arith)
            requires
                x * p >= 0,
                y * q >= 0,
        ;
        lemma_double_positive(a@ * b@, one());
    }
    let n: i128 = fa.bits * fb.bits;
    let t: u32 = fa.shift + fb.shift;
    assert(a@ * b@ == n * pow2(t as nat));
    if t >= ONE_SHIFT {
        proof {
            let i = (t - ONE_SHIFT) as nat;
            lemma_pow2_adds(i, ONE_SHIFT as nat);
            let (v, p, q) = (n as int, pow2(i) as int, one());
            assert(v * (p * q) == (v * p) * q) by (nonlinear_arith);
            lemma_unshifted(v * p, 1, ONE_SHIFT as nat);
            assert(1 * q == q);
        }
        return rounded(n, t - ONE_SHIFT);
    }
    let j: u32 = ONE_SHIFT - t;
    proof {
        lemma_pow2_adds(j as nat, t as nat);
        lemma_pow2_pos(j as nat);
        lemma_unshifted(n as int, pow2(j as nat) as int, t as nat);
        lemma2_to64();
    }
    if j > 106 {
        proof {
            lemma2_to64_rest();
            lemma_pow2_adds(53, 54);
            if j > 107 {
                lemma_pow2_strictly_increases(107, j as nat);
            }
            let d = pow2(j as nat) as int;
            vstd::arithmetic::div_mod::lemma_basic_div(n as int, d);
            vstd::arithmetic::div_mod::lemma_small_mod(n as nat, d as nat);
            assert(BITS53 * d >= d) by (nonlinear_arith)
                requires
                    d > 0,
            ;
            assert(0 * pow2(0) == 0);
        }
        return Double { bits: 0, shift: 0 };
    }
    let (m, k): (i128, u32) = to_bits(n, to_power(j));
    Double { bits: m, shift: k }
}

/// The bits have the sign of the number.
pub proof fn lemma_bits_sign(d: Double)
    ensures
        d.bits >= 0 <==> d@ >= 0,
        d.bits > 0 <==> d@ > 0,
{
    lemma_pow2_pos(d.shift as nat);
    let (u, p) = (d.bits as int, pow2(d.shift as nat) as int);
    assert((u >= 0 <==> u * p >= 0) && (u > 0 <==> u * p > 0)) by (nonlinear_arith)
        requires
            p > 0,
    ;
}

/// A power of two as a quotient.
pub proof fn lemma_whole_ratio(d: int, i: nat)
    requires
        d > 0,
    ensures
        double(d * pow2(i), d) == pow2(i),
    decreases i,
{
    if i == 0 {
        lemma2_to64();
        lemma_nearest_multiple(1, d);
        assert(d * pow2(0) == 1 * d);
    } else {
        lemma_whole_ratio(d, (i - 1) as nat);
        lemma_pow2_unfold(i);
        lemma_pow2_pos((i - 1) as nat);
        let p = pow2((i - 1) as nat) as int;
        assert(d * (2 * p) == 2 * (d * p)) by (nonlinear_arith);
        if i >= 53 {
            lemma_large_ratio(d, i);
        } else {
            lemma2_to64();
            lemma2_to64_rest();
            if i < 53 {
                lemma_pow2_strictly_increases(i, 53);
            }
            let q = pow2(i) as int;
            assert(0 <= d * q < BITS53 * d) by (nonlinear_arith)
                requires
                    0 <= q < BITS53,
                    d > 0,
            ;
            assert(d * q == q * d) by (nonlinear_arith);
            lemma_nearest_multiple(q, d);
        }
    }
}

proof fn lemma_large_ratio(d: int, i: nat)
    requires
        d > 0,
        i >= 53,
    ensures
        double(d * pow2(i), d) == pow2(i),
{
    lemma2_to64_rest();
    let j = (i - 52) as nat;
    lemma_pow2_adds(52, j);
    lemma_pow2_pos(j);
    let (p, q) = (pow2(52) as int, pow2(j) as int);
    assert(d * (p * q) == (p * d) * q) by (nonlinear_arith);
    assert(p * d == BITS52 * d);
    lemma_double_shifted(p * d, d, j);
    assert(p * d < BITS53 * d) by (nonlinear_arith)
        requires
            p < BITS53,
            d > 0,
    ;
    assert(p * d >= 0) by (nonlinear_arith)
        requires
            p >= 0,
            d > 0,
    ;
    lemma_nearest_multiple(p, d);
}

/// Multiplying by a whole number of ones is multiplying by the number.
pub proof fn lemma_times_whole(v: int, n: int)
    ensures
        double(v * (n * one()), one()) == double(v * n, 1),
{
    let p = one();
    lemma_pow2_pos(ONE_SHIFT as nat);
    assert(v * (n * p) == (v * n) * p) by (nonlinear_arith);
    lemma_unshifted(v * n, 1, ONE_SHIFT as nat);
    assert(1 * p == p);
}

/// A number times one is the number, rounded.
pub proof fn lemma_times_one(v: int)
    ensures
        double(v * one(), one()) == double(v, 1),
{
    lemma_times_whole(v, 1);
    assert(v * (1 * one()) == v * one());
}

/// Doubling an integer before it is rounded or after makes no difference.
pub proof fn lemma_shift_outside(n: int, i: nat)
    requires
        n >= 0,
    ensures
        double(n * pow2(i), 1) == double(n, 1) * pow2(i),
{
    lemma_shifted(n, i);
}

/// The quotient of two integers.
pub fn ratio(n: u32, d: i128) -> (r: Double)
    requires
        1 <= d <= 0x4000_0000,
    ensures
        r@ == double(n * one(), d as int),
        r.wf(),
        r.bits >= 0,
{
    proof {
        lemma2_to64();
        lemma2_to64_rest();
        lemma_pow2_adds(45, 45);
    }
    if n == 0 {
        proof {
            assert(0 * one() == 0 && 0 * pow2(0) == 0);
            lemma_nearest_multiple(0, d as int);
        }
        return Double { bits: 0, shift: 0 };
    }
    let v: i128 = n as i128 * 0x400_0000_0000_0000_0000_0000;
    let (m, k): (i128, u32) = to_bits(v, d);
    proof {
        lemma_double_shifted(v as int, d as int, 984);
        lemma_pow2_adds(90, 984);
        lemma_pow2_adds(k as nat, 984);
        let (x, p, q) = (n as int, pow2(90) as int, pow2(984) as int);
        assert((x * p) * q == x * (p * q)) by (nonlinear_arith);
        let (u, z) = (m as int, pow2(k as nat) as int);
        assert((u * z) * q == u * (z * q)) by (nonlinear_arith);
    }
    Double { bits: m, shift: k + 984 }
}

// ---------------------------------------------------------------------------
// Bounds
// ---------------------------------------------------------------------------

/// A number is a double already.
pub proof fn lemma_is_double(d: Double)
    requires
        d.wf(),
    ensures
        double(d@, 1) == d@,
{
    lemma_double_exact(d.bits as int, d.shift as nat);
}

/// A half is at most two thirds of the number, and exact above the last bit.
pub proof fn lemma_half(d: Double)
    requires
        d.wf(),
    ensures
        3 * abs(double(d@, 2)) <= 2 * abs(d@),
        d@ >= 0 ==> double(d@, 2) >= 0,
{
    let b = d.bits as int;
    if d.shift > 0 {
        lemma_pow2_unfold(d.shift as nat);
        let p = pow2((d.shift - 1) as nat) as int;
        assert(b * (2 * p) == 2 * (b * p)) by (nonlinear_arith);
        lemma_double_exact(b, (d.shift - 1) as nat);
        lemma_double_scaled(b * p, 1);
    } else {
        lemma2_to64();
        assert(b * pow2(0) == b);
    }
}

/// A sum is off by no more than what is added.
pub proof fn lemma_sum_near(d: Double, v: int)
    requires
        d.wf(),
    ensures
        abs(double(d@ + v, 1) - (d@ + v)) <= abs(v),
        abs(double(d@ + v, 1)) <= abs(d@) + 2 * abs(v),
{
    let n = d@ + v;
    let (b, i) = (d.bits as int, d.shift as nat);
    lemma_double_negated(n, 1);
    lemma_pow2_pos(i);
    let p = pow2(i) as int;
    assert((-b) * p == -(b * p)) by (nonlinear_arith);
    assert(b >= 0 ==> b * p >= 0) by (nonlinear_arith)
        requires
            p > 0,
    ;
    assert(b < 0 ==> b * p < 0) by (nonlinear_arith)
        requires
            p > 0,
    ;
    let m = if n >= 0 {
        b
    } else {
        -b
    };
    if m >= 0 {
        lemma_double_nearest(abs(n), 1, m, i);
    } else {
        lemma_double_nearest(abs(n), 1, 0, i);
        assert(0 * p == 0);
    }
}

// ---------------------------------------------------------------------------
// Coordinates
// ---------------------------------------------------------------------------

/// A number in units of a coordinate, of which 2^52 make one, with what is below
/// a unit dropped.
pub open spec fn units_of(v: int) -> int {
    div_toward_zero(v, pow2(1022) as int)
}

/// A number as a coordinate.
pub fn to_units(d: Double) -> (r: Coord)
    requires
        d.wf(),
        abs(d@) <= pow2(1122),
    ensures
        r == units_of(d@),
{
    let f: Double = filled(d);
    let b: i128 = f.bits;
    proof {
        lemma2_to64();
        lemma2_to64_rest();
        lemma_pow2_pos(1022);
    }
    if f.shift >= 1022 {
        let k: u32 = f.shift - 1022;
        proof {
            lemma_pow2_adds(k as nat, 1022);
            lemma_pow2_adds(52, 1070);
            lemma_pow2_pos(k as nat);
            let (u, p, q, z) = (
                b as int,
                pow2(k as nat) as int,
                pow2(1022) as int,
                pow2(f.shift as nat) as int,
            );
            lemma_pow2_pos(f.shift as nat);
            assert(abs(u * z) == abs(u) * z) by (nonlinear_arith)
                requires
                    z > 0,
            ;
            if k > 48 {
                lemma_pow2_strictly_increases(1070, f.shift as nat);
                assert(abs(u) * z > pow2(52) * pow2(1070)) by (nonlinear_arith)
                    requires
                        abs(u) >= pow2(52),
                        pow2(52) > 0,
                        z > pow2(1070),
                ;
            }
            if k < 48 {
                lemma_pow2_strictly_increases(k as nat, 48);
            }
            assert(-0x40_0000_0000_0000_0000_0000_0000 <= u * p
                <= 0x40_0000_0000_0000_0000_0000_0000) by (nonlinear_arith)
                requires
                    -BITS53 <= u <= BITS53,
                    0 < p <= 0x1_0000_0000_0000,
            ;
            assert(u * (p * q) == (u * p) * q) by (nonlinear_arith);
            lemma_whole_quotient(u * p, q);
        }
        b * to_power(k)
    } else {
        let k: u32 = 1022 - f.shift;
        proof {
            lemma_pow2_adds(k as nat, f.shift as nat);
            lemma_pow2_pos(f.shift as nat);
            lemma_pow2_pos(k as nat);
            lemma_common_factor(
                b as int,
                pow2(k as nat) as int,
                pow2(f.shift as nat) as int,
            );
        }
        if k > 60 {
            proof {
                lemma_pow2_strictly_increases(60, k as nat);
                vstd::arithmetic::div_mod::lemma_basic_div(abs(b as int), pow2(k as nat) as int);
            }
            return 0;
        }
        let p: i128 = to_power(k);
        if b < 0 {
            -((-b) / p)
        } else {
            b / p
        }
    }
}

proof fn lemma_whole_quotient(v: int, q: int)
    requires
        q > 0,
    ensures
        div_toward_zero(v * q, q) == v,
{
    let m = abs(v);
    vstd::arithmetic::div_mod::lemma_div_by_multiple(m, q);
    assert(abs(v * q) == m * q && (v >= 0 ==> v * q >= 0) && (v < 0 ==> v * q < 0))
        by (nonlinear_arith)
        requires
            q > 0,
            m == abs(v),
    ;
}

proof fn lemma_common_factor(b: int, k: int, s: int)
    requires
        k > 0,
        s > 0,
    ensures
        div_toward_zero(b * s, k * s) == div_toward_zero(b, k),
{
    let m = abs(b);
    assert(abs(b * s) == m * s && (b >= 0 ==> b * s >= 0) && (b < 0 ==> b * s < 0) && k * s > 0
        && m * s >= 0) by (nonlinear_arith)
        requires
            s > 0,
            k > 0,
            m == abs(b),
    ;
    assert(k * s == s * k) by (nonlinear_arith);
    vstd::arithmetic::div_mod::lemma_div_denominator(m * s, s, k);
    vstd::arithmetic::div_mod::lemma_div_by_multiple(m, s);
}

/// A coordinate as a number.
pub open spec fn number_of(c: int) -> int {
    double(c * pow2(1022), 1)
}

/// A coordinate as a number.
pub fn from_units(c: Coord) -> (r: Double)
    requires
        -0x1000_0000_0000_0000_0000_0000_0000_0000 <= c
            <= 0x1000_0000_0000_0000_0000_0000_0000_0000,
    ensures
        r@ == number_of(c as int),
        r.wf(),
{
    rounded(c, 1022)
}

} // verus!
