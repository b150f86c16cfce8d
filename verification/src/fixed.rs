//! Fixed-point screen coordinates.

use vstd::prelude::*;

verus! {

/// A screen coordinate, counted in units of 2^-52 pixel.
///
/// Pointer positions, which come in steps of 1/256 pixel, and the centres of hints
/// are whole numbers of these units, and so is every double of magnitude one or
/// more. Sums of coordinates are rounded as sums of doubles are.
pub type Coord = i128;

/// One pixel.
pub const UNIT: Coord = 0x10_0000_0000_0000;

/// Half a pixel.
pub const HALF: Coord = 0x8_0000_0000_0000;

/// `v` held inside `lo ..= hi`.
pub open spec fn clamp(v: int, lo: int, hi: int) -> int {
    if v < lo {
        lo
    } else if v > hi {
        hi
    } else {
        v
    }
}

/// The quotient `a / b` with the fraction dropped, that is rounded toward zero.
pub open spec fn div_toward_zero(a: int, b: int) -> int
    recommends
        b != 0,
{
    if (a >= 0) == (b > 0) {
        abs(a) / abs(b)
    } else {
        -(abs(a) / abs(b))
    }
}

/// The quotient `a / b` rounded to the nearest integer, halves away from zero.
pub open spec fn div_nearest(a: int, b: int) -> int
    recommends
        b > 0,
{
    if a >= 0 {
        (2 * a + b) / (2 * b)
    } else {
        -((-2 * a + b) / (2 * b))
    }
}

pub open spec fn abs(v: int) -> int {
    if v < 0 {
        -v
    } else {
        v
    }
}

/// The whole pixels of `v`, rounded toward zero.
pub open spec fn whole_pixels(v: int) -> int {
    div_toward_zero(v, UNIT as int)
}

/// A whole number of pixels as a coordinate.
pub fn px(pixels: i32) -> (r: Coord)
    ensures
        r == pixels * UNIT,
{
    pixels as i128 * UNIT
}

/// The whole pixels of `v`, or the nearest `u32` where they lie outside its range.
pub fn to_u32(v: Coord) -> (r: u32)
    ensures
        r == clamp(whole_pixels(v as int), 0, u32::MAX as int),
{
    if v < UNIT {
        assert(v >= 0 ==> v as int / UNIT as int == 0);
        assert(v < 0 ==> (-v) / UNIT as int >= 0);
        return 0;
    }
    let q: i128 = v / UNIT;
    if q > u32::MAX as i128 {
        u32::MAX
    } else {
        q as u32
    }
}

/// Signed division that drops the fraction.
pub fn quotient_i32(a: i32, b: i32) -> (r: i32)
    requires
        b != 0,
        !(a == i32::MIN && b == -1),
    ensures
        r == div_toward_zero(a as int, b as int),
{
    let m: i64 = if a < 0 {
        -(a as i64)
    } else {
        a as i64
    };
    let d: i64 = if b < 0 {
        -(b as i64)
    } else {
        b as i64
    };
    let q: i64 = m / d;
    proof {
        vstd::arithmetic::div_mod::lemma_div_nonincreasing(m as int, d as int);
        vstd::arithmetic::div_mod::lemma_div_pos_is_pos(m as int, d as int);
        if d >= 2 {
            vstd::arithmetic::div_mod::lemma_div_decreases(0x8000_0000, d as int);
            vstd::arithmetic::div_mod::lemma_div_is_ordered(m as int, 0x8000_0000, d as int);
        }
    }
    if (a >= 0) == (b > 0) {
        q as i32
    } else {
        (-q) as i32
    }
}

/// The nearest integer to `a / b`, halves away from zero, held inside `i32`.
pub fn nearest_i32(a: i128, b: i128) -> (r: i32)
    requires
        0 < b <= 0x1000_0000_0000_0000_0000_0000,
        -0x100_0000_0000_0000_0000_0000_0000_0000 <= a
            <= 0x100_0000_0000_0000_0000_0000_0000_0000,
    ensures
        r == clamp(div_nearest(a as int, b as int), i32::MIN as int, i32::MAX as int),
{
    let q: i128 = if a >= 0 {
        (2 * a + b) / (2 * b)
    } else {
        let m: i128 = (2 * (-a) + b) / (2 * b);
        proof {
            vstd::arithmetic::div_mod::lemma_div_nonincreasing(2 * (-a) + b, 2 * b as int);
            vstd::arithmetic::div_mod::lemma_div_pos_is_pos(2 * (-a) + b, 2 * b as int);
        }
        -m
    };
    if q > i32::MAX as i128 {
        i32::MAX
    } else if q < i32::MIN as i128 {
        i32::MIN
    } else {
        q as i32
    }
}

} // verus!
