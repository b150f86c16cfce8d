//! Laws of target detection.

use crate::areas::TargetArea;
use crate::contours::{
    hierarchy_filter, lemma_filter_length, nested, nested_contours, nested_rejected, rank_of,
    ranks, settled, size_filter, walkable, ContourLinks, LogicalRect,
};
use crate::double::{
    double, lemma_double_exact, lemma_nearest_bounds, lemma_nearest_multiple, places, BITS52,
    BITS53,
};
use crate::fixed::{clamp, div_nearest};
use crate::number::lemma_unshifted;
use crate::target_detection::{
    area_of, areas_of, detected, grain, gray, kept, kernel_length, logical, logical_length,
    logicals, over_pruned, placed, scale_mantissa, scale_places, target_filter, upright_ops,
    valid_dimensions, CapturedFrame, MatOp, PixelRect, ShmFormat, Verdicts,
};
use crate::wayland::{Monitor, Transform};
use vstd::arithmetic::power2::{
    lemma2_to64, lemma2_to64_rest, lemma_pow2_adds, lemma_pow2_pos, lemma_pow2_unfold, pow2,
};
use vstd::prelude::*;

verus! {

/// The contours that a filter leaves in.
pub open spec fn left_in(filtered: Seq<bool>) -> Set<int> {
    Set::new(|i: int| 0 <= i < filtered.len() && !filtered[i])
}

/// The count of what a filter leaves in counts each contour once.
pub proof fn law_kept_counts(filtered: Seq<bool>)
    ensures
        left_in(filtered).finite(),
        kept(filtered) == left_in(filtered).len(),
    decreases filtered.len(),
{
    if filtered.len() == 0 {
        assert(left_in(filtered) =~= Set::empty());
    } else {
        let init = filtered.drop_last();
        let last = filtered.len() - 1;
        law_kept_counts(init);
        if filtered.last() {
            assert(left_in(filtered) =~= left_in(init));
        } else {
            assert(left_in(filtered) =~= left_in(init).insert(last));
        }
    }
}

/// With more than 120 contours, size alone decides as soon as the forest leaves
/// fewer than 80 of them, whatever part of all that is, and as soon as it leaves
/// fewer than 8 in 100, however many that are. In all other cases the forest
/// decides; so where it does, at least 80 of more than 120 contours are left.
pub proof fn law_filter_that_counts(rects: Seq<LogicalRect>, scale: int, h: Seq<ContourLinks>)
    requires
        walkable(h, rects.len()),
        rects.len() <= i32::MAX,
    ensures
        ({
            let by_forest = hierarchy_filter(rects, scale, h);
            let left = left_in(by_forest).len();
            let counts = target_filter(rects, scale, h);
            &&& by_forest.len() == rects.len()
            &&& rects.len() > 120 && left < 80 ==> counts == size_filter(rects, scale)
            &&& rects.len() > 120 && 100 * left < 8 * rects.len() ==> counts == size_filter(
                rects,
                scale,
            )
            &&& rects.len() <= 120 ==> counts == by_forest
            &&& left >= 80 && 100 * left >= 8 * rects.len() ==> counts == by_forest
            &&& rects.len() > 120 && counts == by_forest ==> left >= 80 || by_forest
                == size_filter(rects, scale)
        }),
{
    law_kept_counts(hierarchy_filter(rects, scale, h));
    lemma_filter_length(rects, scale, h);
}

/// The verdicts of a detection say which filter counts by the number of contours
/// and the number that the forest leaves.
pub proof fn law_fallback(v: Verdicts, total: nat)
    requires
        v.used_fallback == over_pruned(total, kept(v.primary@)),
    ensures
        ({
            let left = left_in(v.primary@).len();
            &&& total <= 120 ==> v.chosen() == v.primary@ && !v.used_fallback
            &&& total > 120 && left < 80 ==> v.chosen() == v.size_only@ && v.used_fallback
            &&& total > 120 && 100 * left < 8 * total ==> v.chosen() == v.size_only@
                && v.used_fallback
            &&& left >= 80 && 100 * left >= 8 * total ==> v.chosen() == v.primary@
                && !v.used_fallback
            &&& total > 120 && !v.used_fallback ==> left >= 80 && 25 * left >= 2 * total
        }),
{
    law_kept_counts(v.primary@);
}

/// Size leaves in exactly the contours that are higher than 3 and lower than 50
/// logical pixels, wider than 7 and narrower than 500.
pub proof fn law_sizes(rects: Seq<LogicalRect>, scale: int, i: int)
    requires
        0 <= i < rects.len(),
    ensures
        size_filter(rects, scale).len() == rects.len(),
        !size_filter(rects, scale)[i] <==> (3 * scale < rects[i].h < 50 * scale && 7 * scale
            < rects[i].w < 500 * scale),
{
}

/// What lies in a target is dropped if it is 6 logical pixels high or less, if
/// its centre is less than 8 from the target's both ways, and if the target is an
/// icon: lower and narrower than 40, with less than 5 between its sides. Anything
/// else is not dropped for its place.
pub proof fn law_nesting(r: LogicalRect, parent: LogicalRect, scale: int)
    ensures
        ({
            let dx = double(
                double(2 * r.x + r.w, 1) - double(2 * parent.x + parent.w, 1),
                1,
            );
            let dy = double(
                double(2 * r.y + r.h, 1) - double(2 * parent.y + parent.h, 1),
                1,
            );
            let off_square = double(parent.h - parent.w, 1);
            let near = -16 * scale < dx < 16 * scale && -16 * scale < dy < 16 * scale;
            let icon = parent.h < 40 * scale && parent.w < 40 * scale && -5 * scale < off_square
                && off_square < 5 * scale;
            &&& r.h <= 6 * scale ==> nested_rejected(r, parent, scale)
            &&& near ==> nested_rejected(r, parent, scale)
            &&& icon ==> nested_rejected(r, parent, scale)
            &&& r.h > 6 * scale && !near && !icon ==> !nested_rejected(r, parent, scale)
        }),
{
}

// ---------------------------------------------------------------------------
// The picture
// ---------------------------------------------------------------------------

/// A frame can be read if it has pixels and its rows do not overlap.
pub proof fn law_readable_frames(frame: CapturedFrame)
    ensures
        valid_dimensions(frame) <==> (frame.width >= 1 && frame.height >= 1 && frame.stride >= 4
            * frame.width),
{
}

/// The gray of a pixel is its blue, green and red, weighted 29, 150 and 77 in 256,
/// with the fraction dropped. The rows of an upside-down frame are read from the
/// last to the first. Which bytes are blue, green and red goes by the format; where
/// alpha comes first in the name and red before blue, the second byte counts as
/// blue and as green.
pub proof fn law_gray(frame: CapturedFrame, x: int, y: int)
    requires
        0 <= x < frame.width,
        0 <= y < frame.height,
        frame.format != ShmFormat::Other,
        frame.stride >= 4 * frame.width,
        frame.data@.len() >= (frame.height - 1) * frame.stride + 4 * frame.width,
    ensures
        ({
            let row = if frame.y_invert {
                frame.height - 1 - y
            } else {
                y
            };
            let at = row * frame.stride + 4 * x;
            let d = frame.data@;
            let (b, g, r) = match frame.format {
                ShmFormat::Argb8888 => (d[at + 1], d[at + 1], d[at + 2]),
                ShmFormat::Xrgb8888 => (d[at + 1], d[at + 1], d[at + 2]),
                ShmFormat::Bgra8888 => (d[at], d[at + 1], d[at + 2]),
                ShmFormat::Bgrx8888 => (d[at], d[at + 1], d[at + 2]),
                _ => (d[at + 2], d[at + 1], d[at]),
            };
            let v = gray(frame)[y * frame.width + x];
            &&& gray(frame).len() == frame.width * frame.height
            &&& 0 <= y * frame.width + x < gray(frame).len()
            &&& 256 * v <= 29 * b + 150 * g + 77 * r
            &&& 29 * b + 150 * g + 77 * r < 256 * v + 256
        }),
{
    let (w, h, stride) = (frame.width as int, frame.height as int, frame.stride as int);
    let k = y * w + x;
    vstd::arithmetic::div_mod::lemma_fundamental_div_mod_converse(k, w, y, x);
    assert(0 <= y * w && y * w + w <= w * h) by (nonlinear_arith)
        requires
            0 <= y,
            y + 1 <= h,
            w > 0,
    ;
    let row = if frame.y_invert {
        h - 1 - y
    } else {
        y
    };
    assert(0 <= row * stride <= (h - 1) * stride) by (nonlinear_arith)
        requires
            0 <= row <= h - 1,
            stride >= 0,
    ;
    let at = row * stride + x * 4;
    let p = frame.data@.subrange(at, at + 4);
    assert(p[0] == frame.data@[at] && p[1] == frame.data@[at + 1] && p[2] == frame.data@[at + 2]);
}

/// How many quarter turns clockwise an operation is.
pub open spec fn quarter_turns(op: MatOp) -> int {
    match op {
        MatOp::RotateClockwise => 1,
        MatOp::Rotate180 => 2,
        MatOp::RotateCounterclockwise => 3,
        MatOp::FlipHorizontally => 0,
    }
}

/// A picture is turned upright by as many quarter turns clockwise as the output's
/// transform has, in one operation at most, and mirrored after that exactly if the
/// transform is a flipped one.
pub proof fn law_upright(transform: Transform)
    ensures
        ({
            let ops = upright_ops(transform);
            let turns: int = match transform {
                Transform::Normal | Transform::Flipped => 0,
                Transform::_90 | Transform::Flipped90 => 1,
                Transform::_180 | Transform::Flipped180 => 2,
                Transform::_270 | Transform::Flipped270 => 3,
            };
            let flipped = match transform {
                Transform::Normal | Transform::_90 | Transform::_180 | Transform::_270 => false,
                _ => true,
            };
            &&& ops.len() == (if turns > 0 {
                1int
            } else {
                0
            }) + (if flipped {
                1int
            } else {
                0
            })
            &&& turns > 0 ==> quarter_turns(ops[0]) == turns
            &&& flipped ==> ops.last() == MatOp::FlipHorizontally
        }),
{
}

// ---------------------------------------------------------------------------
// Scale and place
// ---------------------------------------------------------------------------

proof fn lemma_places(n: int, j: nat)
    requires
        n > 0,
        j <= 52,
    ensures
        places(n * pow2(j), n) == 52 - j,
    decreases 52 - j,
{
    lemma2_to64_rest();
    lemma_pow2_pos(j);
    let p = pow2(j) as int;
    if j < 52 {
        lemma_places(n, j + 1);
        lemma_pow2_unfold(j + 1);
        vstd::arithmetic::power2::lemma_pow2_strictly_increases(j, 52);
        assert(n * (2 * p) == 2 * (n * p)) by (nonlinear_arith);
        assert(0 < n * p < BITS52 * n) by (nonlinear_arith)
            requires
                0 < p < BITS52,
                n > 0,
        ;
    } else {
        assert(n * p == BITS52 * n) by (nonlinear_arith)
            requires
                p == BITS52,
        ;
        assert(n * p > 0);
    }
}

proof fn lemma_same_scale(n: int)
    requires
        n > 0,
    ensures
        scale_places(n, n) == 52,
        scale_mantissa(n, n) == BITS52,
        grain(n, n) == pow2(54),
{
    lemma2_to64();
    lemma2_to64_rest();
    lemma_places(n, 0);
    assert(n * pow2(0) == n);
    let p = pow2(52) as int;
    assert(n * p == p * n) by (nonlinear_arith);
    lemma_nearest_multiple(p, n);
}

proof fn lemma_place_bounds(n: int, d: int)
    requires
        0 < n < BITS53 * d,
        d > 0,
    ensures
        n * pow2(places(n, d)) < BITS53 * d,
        n * pow2(places(n, d)) >= BITS52 * d,
    decreases BITS53 * d - n,
{
    lemma2_to64();
    if n >= BITS52 * d {
        assert(n * pow2(0) == n);
    } else {
        lemma_place_bounds(2 * n, d);
        let k = places(2 * n, d);
        lemma_pow2_unfold(k + 1);
        let p = pow2(k) as int;
        assert(n * (2 * p) == (2 * n) * p) by (nonlinear_arith);
    }
}

/// The scale is the number of frame rows to a row of the monitor, which counts as
/// one row high at least, to 53 bits: so many halvings of a number of 53 bits, the
/// nearest, and the even one of two that are as near. Lengths are divided by it,
/// and the sides of the kernel are three and a half and two and a half times it,
/// to whole pixels.
pub proof fn law_scale(rows: i32, monitor_height: i32, v: i32)
    requires
        rows > 0,
    ensures
        ({
            let (r, h) = (rows as int, monitor_height as int);
            let height = if h > 1 {
                h
            } else {
                1
            };
            let bits = scale_mantissa(r, h);
            let halvings = scale_places(r, h);
            let off = 2 * (bits * height - r * pow2(halvings));
            &&& 0x10_0000_0000_0000 <= bits <= 0x20_0000_0000_0000
            &&& 0x10_0000_0000_0000 * height <= r * pow2(halvings)
            &&& r * pow2(halvings) < 0x20_0000_0000_0000 * height
            &&& -height <= off <= height
            &&& off == height || off == -height ==> bits % 2 == 0
            &&& grain(r, h) * pow2(halvings) == pow2(106)
            &&& logical_length(v, r, h) == double(v * pow2(106), bits)
            &&& kernel_length(7, r, h) == clamp(
                div_nearest(double(7 * bits, 1), 2 * (pow2(halvings) as int)),
                1,
                0x7fff_ffff,
            )
            &&& kernel_length(5, r, h) == clamp(
                div_nearest(double(5 * bits, 1), 2 * (pow2(halvings) as int)),
                1,
                0x7fff_ffff,
            )
        }),
{
    let (r, h) = (rows as int, monitor_height as int);
    let height = if h > 1 {
        h
    } else {
        1
    };
    lemma_place_bounds(r, height);
    let k = places(r, height);
    let n = r * pow2(k);
    lemma_nearest_bounds(n, height, BITS52 as int, BITS53 as int);
    vstd::arithmetic::div_mod::lemma_fundamental_div_mod(n, height);
    vstd::arithmetic::div_mod::lemma_mod_bound(n, height);
    let q = n / height;
    assert((q + 1) * height == height * q + height && q * height == height * q)
        by (nonlinear_arith);
    lemma_pow2_unfold(k + 1);
    assert(pow2(k) <= n) by (nonlinear_arith)
        requires
            n == r * pow2(k),
            r >= 1,
    ;
    lemma2_to64_rest();
    if k > 106 {
        lemma_pow2_adds(53, 53);
        vstd::arithmetic::power2::lemma_pow2_strictly_increases(106, k);
    }
    lemma_pow2_adds((106 - k) as nat, k);
}

/// In a frame with a row for each logical row of the monitor, a length is as many
/// logical pixels as it has pixels, and the dilation kernel is 4 wide and 3 high.
pub proof fn law_unscaled(rows: int, v: i32)
    requires
        rows > 0,
    ensures
        grain(rows, rows) > 0,
        logical_length(v, rows, rows) == v * grain(rows, rows),
        kernel_length(7, rows, rows) == 4,
        kernel_length(5, rows, rows) == 3,
{
    lemma_same_scale(rows);
    lemma2_to64();
    lemma2_to64_rest();
    lemma_pow2_adds(54, 52);
    lemma_pow2_pos(54);
    lemma_pow2_pos(52);
    let (a, b) = (pow2(54) as int, pow2(52) as int);
    assert(v * (a * b) == (v * a) * b) by (nonlinear_arith);
    lemma_unshifted(v * a, 1, 52);
    assert(1 * b == b);
    lemma_double_exact(v as int, 54);
    lemma_double_exact(7, 52);
    lemma_double_exact(5, 52);
    lemma_pow2_unfold(53);
    assert(div_nearest(7 * b, 2 * b) == 4 && div_nearest(5 * b, 2 * b) == 3) by {
        assert((2 * (7 * b) + 2 * b) / (2 * (2 * b)) == 4) by (nonlinear_arith)
            requires
                b > 0,
        ;
        assert((2 * (5 * b) + 2 * b) / (2 * (2 * b)) == 3) by (nonlinear_arith)
            requires
                b > 0,
        ;
    }
}

/// In such a frame an area is the contour's box moved to the monitor's place,
/// pixel for pixel.
pub proof fn law_unscaled_areas(r: PixelRect, rows: int, x: int, y: int)
    requires
        rows > 0,
        i32::MIN <= x <= i32::MAX,
        i32::MIN <= y <= i32::MAX,
        i32::MIN <= r.x + x <= i32::MAX,
        i32::MIN <= r.y + y <= i32::MAX,
    ensures
        area_of(logical(r, rows, rows), grain(rows, rows), x, y) == (TargetArea {
            x: (r.x + x) as i32,
            y: (r.y + y) as i32,
            w: r.width,
            h: r.height,
        }),
{
    lemma_same_scale(rows);
    let g = grain(rows, rows);
    law_unscaled(rows, r.x);
    law_unscaled(rows, r.y);
    law_unscaled(rows, r.width);
    law_unscaled(rows, r.height);
    lemma2_to64_rest();
    lemma_moved(r.x as int, g, x);
    lemma_moved(r.y as int, g, y);
    lemma_exact_quotient(r.width as int, g);
    lemma_exact_quotient(r.height as int, g);
    assert forall|v: i32| i128::MIN <= #[trigger] (v * g) <= i128::MAX by {
        assert(-0x8000_0000 * g <= v * g <= 0x8000_0000 * g) by (nonlinear_arith)
            requires
                -0x8000_0000 <= v <= 0x8000_0000,
                g > 0,
        ;
    }
    assert(i128::MIN <= r.x * g <= i128::MAX && i128::MIN <= r.y * g <= i128::MAX);
    assert(i128::MIN <= r.width * g <= i128::MAX && i128::MIN <= r.height * g <= i128::MAX);
}

proof fn lemma_exact_quotient(v: int, g: int)
    requires
        g > 0,
    ensures
        div_nearest(v * g, g) == v,
{
    let m = if v < 0 {
        -v
    } else {
        v
    };
    assert((2 * (m * g) + g) / (2 * g) == m) by (nonlinear_arith)
        requires
            g > 0,
            m >= 0,
    ;
    assert((-m) * g == -(m * g)) by (nonlinear_arith);
    assert(m * g >= 0 && (m > 0 ==> m * g > 0)) by (nonlinear_arith)
        requires
            g > 0,
            m >= 0,
    ;
    if v < 0 {
        assert(-2 * (v * g) + g == 2 * (m * g) + g);
    }
}

proof fn lemma_moved(v: int, g: int, offset: int)
    requires
        g == pow2(54),
        i32::MIN <= v <= i32::MAX,
        i32::MIN <= offset <= i32::MAX,
        i32::MIN <= v + offset <= i32::MAX,
    ensures
        placed(v * g, g, offset) == v + offset,
{
    lemma_pow2_pos(54);
    assert(v * g + offset * g == (v + offset) * g) by (nonlinear_arith);
    lemma_double_exact(v + offset, 54);
    lemma_exact_quotient(v + offset, g);
}

/// An area has the edges of its rectangle, moved to the monitor's place, and its
/// sides, each to the nearest whole logical pixel.
pub proof fn law_area(r: LogicalRect, scale: int, x: int, y: int)
    ensures
        ({
            let a = area_of(r, scale, x, y);
            let (lo, hi) = (i32::MIN as int, i32::MAX as int);
            &&& a.x == clamp(div_nearest(double(r.x + x * scale, 1), scale), lo, hi)
            &&& a.y == clamp(div_nearest(double(r.y + y * scale, 1), scale), lo, hi)
            &&& a.w == clamp(div_nearest(r.w as int, scale), lo, hi)
            &&& a.h == clamp(div_nearest(r.h as int, scale), lo, hi)
        }),
{
}

/// The areas that come out are those of the contours that the filter leaves in
/// and that are not empty, one for each and in their order.
pub proof fn law_areas_in_order(
    rects: Seq<LogicalRect>,
    filtered: Seq<bool>,
    scale: int,
    x: int,
    y: int,
    k: nat,
    i: int,
)
    requires
        0 <= i < k <= rects.len(),
    ensures
        ({
            let found = areas_of(rects, filtered, scale, x, y, k);
            let earlier = areas_of(rects, filtered, scale, x, y, i as nat);
            let a = area_of(rects[i], scale, x, y);
            let counts = |j: int|
                0 <= j < k && !filtered[j] && area_of(rects[j], scale, x, y).w > 0 && area_of(
                    rects[j],
                    scale,
                    x,
                    y,
                ).h > 0;
            &&& earlier.is_prefix_of(found)
            &&& !filtered[i] && a.w > 0 && a.h > 0 ==> earlier.len() < found.len()
                && found[earlier.len() as int] == a
            &&& Set::new(counts).finite()
            &&& found.len() == Set::new(counts).len()
            &&& areas_of(rects, filtered, scale, x, y, 0).len() == 0
        }),
    decreases k,
{
    lemma_areas_counted(rects, filtered, scale, x, y, k);
    let found = areas_of(rects, filtered, scale, x, y, k);
    let init = areas_of(rects, filtered, scale, x, y, (k - 1) as nat);
    let earlier = areas_of(rects, filtered, scale, x, y, i as nat);
    if i < k - 1 {
        law_areas_in_order(rects, filtered, scale, x, y, (k - 1) as nat, i);
        assert(earlier =~= found.subrange(0, earlier.len() as int)) by {
            assert(earlier =~= init.subrange(0, earlier.len() as int));
            assert(init =~= found.subrange(0, init.len() as int));
        }
    } else {
        assert(earlier =~= found.subrange(0, earlier.len() as int));
    }
}

proof fn lemma_areas_counted(
    rects: Seq<LogicalRect>,
    filtered: Seq<bool>,
    scale: int,
    x: int,
    y: int,
    k: nat,
)
    requires
        k <= rects.len(),
    ensures
        ({
            let counts = |j: int|
                0 <= j < k && !filtered[j] && area_of(rects[j], scale, x, y).w > 0 && area_of(
                    rects[j],
                    scale,
                    x,
                    y,
                ).h > 0;
            &&& Set::new(counts).finite()
            &&& areas_of(rects, filtered, scale, x, y, k).len() == Set::new(counts).len()
        }),
    decreases k,
{
    let counts = |j: int|
        0 <= j < k && !filtered[j] && area_of(rects[j], scale, x, y).w > 0 && area_of(
            rects[j],
            scale,
            x,
            y,
        ).h > 0;
    if k == 0 {
        assert(Set::new(counts) =~= Set::empty());
    } else {
        lemma_areas_counted(rects, filtered, scale, x, y, (k - 1) as nat);
        let before = |j: int|
            0 <= j < k - 1 && !filtered[j] && area_of(rects[j], scale, x, y).w > 0 && area_of(
                rects[j],
                scale,
                x,
                y,
            ).h > 0;
        if counts(k - 1) {
            assert(Set::new(counts) =~= Set::new(before).insert(k - 1));
        } else {
            assert(Set::new(counts) =~= Set::new(before));
        }
    }
}

/// What is detected are the areas, at the monitor's place, of the contours that the
/// filter leaves in, with their edges and sides taken to logical pixels.
pub proof fn law_detected(
    rects: Seq<PixelRect>,
    h: Seq<ContourLinks>,
    rows: int,
    monitor: Monitor,
)
    ensures
        ({
            let height = monitor.height as int;
            let scale = grain(rows, height);
            let scaled = rects.map_values(
                |r: PixelRect|
                    LogicalRect {
                        x: logical_length(r.x, rows, height) as i128,
                        y: logical_length(r.y, rows, height) as i128,
                        w: logical_length(r.width, rows, height) as i128,
                        h: logical_length(r.height, rows, height) as i128,
                    },
            );
            detected(rects, h, rows, monitor) == areas_of(
                scaled,
                target_filter(scaled, scale, h),
                scale,
                monitor.x as int,
                monitor.y as int,
                rects.len(),
            )
        }),
{
    let height = monitor.height as int;
    let scaled = rects.map_values(
        |r: PixelRect|
            LogicalRect {
                x: logical_length(r.x, rows, height) as i128,
                y: logical_length(r.y, rows, height) as i128,
                w: logical_length(r.width, rows, height) as i128,
                h: logical_length(r.height, rows, height) as i128,
            },
    );
    assert(scaled =~= logicals(rects, rows, height));
}

/// In a frame with a row for each logical row of the monitor, and where no contour
/// lies in another, the targets are the contours that are higher than 3 and lower
/// than 50 pixels, wider than 7 and narrower than 500, however many there are. They
/// keep their order and their size, and move to the monitor's place.
pub proof fn law_flat_frames(rects: Seq<PixelRect>, h: Seq<ContourLinks>, monitor: Monitor)
    requires
        monitor.height > 0,
        rects.len() <= i32::MAX,
        walkable(h, rects.len()),
        forall|i: int| 0 <= i < rects.len() ==> (#[trigger] h[i]).parent < 0,
        forall|i: int|
            0 <= i < rects.len() ==> i32::MIN <= (#[trigger] rects[i]).x + monitor.x <= i32::MAX
                && i32::MIN <= rects[i].y + monitor.y <= i32::MAX,
    ensures
        detected(rects, h, monitor.height as int, monitor) == rects.filter(
            |r: PixelRect| 3 < r.height && r.height < 50 && 7 < r.width && r.width < 500,
        ).map_values(
            |r: PixelRect|
                TargetArea {
                    x: (r.x + monitor.x) as i32,
                    y: (r.y + monitor.y) as i32,
                    w: r.width,
                    h: r.height,
                },
        ),
{
    let height = monitor.height as int;
    let scaled = logicals(rects, height, height);
    let scale = grain(height, height);
    lemma_none_nested(h, rects.len());
    let by_size = size_filter(scaled, scale);
    assert(settled(scaled, scale, h, by_size, nested_contours(h, rects.len())) == by_size);
    lemma_flat_areas(rects, monitor, rects.len());
    assert(rects.take(rects.len() as int) =~= rects);
}

proof fn lemma_none_nested(h: Seq<ContourLinks>, k: nat)
    requires
        forall|i: int| 0 <= i < k ==> (#[trigger] h[i]).parent < 0,
    ensures
        nested_contours(h, k).len() == 0,
    decreases k,
{
    if k > 0 {
        lemma_none_nested(h, (k - 1) as nat);
    }
}

proof fn lemma_flat_areas(rects: Seq<PixelRect>, monitor: Monitor, k: nat)
    requires
        monitor.height > 0,
        k <= rects.len(),
        forall|i: int|
            0 <= i < rects.len() ==> i32::MIN <= (#[trigger] rects[i]).x + monitor.x <= i32::MAX
                && i32::MIN <= rects[i].y + monitor.y <= i32::MAX,
    ensures
        ({
            let height = monitor.height as int;
            let scaled = logicals(rects, height, height);
            let scale = grain(height, height);
            areas_of(
                scaled,
                size_filter(scaled, scale),
                scale,
                monitor.x as int,
                monitor.y as int,
                k,
            ) == rects.take(k as int).filter(
                |r: PixelRect| 3 < r.height && r.height < 50 && 7 < r.width && r.width < 500,
            ).map_values(
                |r: PixelRect|
                    TargetArea {
                        x: (r.x + monitor.x) as i32,
                        y: (r.y + monitor.y) as i32,
                        w: r.width,
                        h: r.height,
                    },
            )
        }),
    decreases k,
{
    reveal(Seq::filter);
    let height = monitor.height as int;
    let scale = grain(height, height);
    let fits = |r: PixelRect| 3 < r.height && r.height < 50 && 7 < r.width && r.width < 500;
    let moved = |r: PixelRect|
        TargetArea {
            x: (r.x + monitor.x) as i32,
            y: (r.y + monitor.y) as i32,
            w: r.width,
            h: r.height,
        };
    if k > 0 {
        lemma_flat_areas(rects, monitor, (k - 1) as nat);
        let before = rects.take(k - 1);
        let all = rects.take(k as int);
        assert(all.drop_last() =~= before);
        let r = rects[k - 1];
        assert(all.last() == r);
        let l = logicals(rects, height, height)[k - 1];
        lemma_same_scale(height);
        lemma2_to64_rest();
        law_unscaled(height, r.width);
        law_unscaled(height, r.height);
        law_unscaled_areas(r, height, monitor.x as int, monitor.y as int);
        assert(-0x8000_0000 * scale <= r.width * scale <= 0x8000_0000 * scale && -0x8000_0000
            * scale <= r.height * scale <= 0x8000_0000 * scale) by (nonlinear_arith)
            requires
                -0x8000_0000 <= r.width <= 0x8000_0000,
                -0x8000_0000 <= r.height <= 0x8000_0000,
                scale > 0,
        ;
        assert(l.w == r.width * scale && l.h == r.height * scale);
        law_sizes(logicals(rects, height, height), scale, k - 1);
        assert((3 * scale < r.height * scale <==> 3 < r.height) && (r.height * scale < 50 * scale
            <==> r.height < 50) && (7 * scale < r.width * scale <==> 7 < r.width) && (r.width
            * scale < 500 * scale <==> r.width < 500)) by (nonlinear_arith)
            requires
                scale > 0,
        ;
        assert(size_filter(logicals(rects, height, height), scale)[k - 1] == !fits(r));
        if fits(r) {
            assert(before.filter(fits).push(r).map_values(moved) =~= before.filter(
                fits,
            ).map_values(moved).push(moved(r)));
        }
    }
}

/// Links that lead on to later contours, siblings and children of nested contours
/// to nested ones, can be walked. A contour that follows itself cannot.
pub proof fn law_walkable(h: Seq<ContourLinks>, n: nat)
    requires
        n <= h.len(),
        n <= i32::MAX,
    ensures
        (forall|i: int|
            #![trigger h[i]]
            0 <= i < h.len() && h[i].parent >= 0 ==> {
                &&& i < n
                &&& h[i].parent < n
                &&& h[i].next >= 0 ==> i < h[i].next < n && h[h[i].next as int].parent >= 0
                &&& h[i].first_child >= 0 ==> i < h[i].first_child < n
                    && h[h[i].first_child as int].parent >= 0
            }) ==> walkable(h, n),
        (exists|i: int|
            0 <= i < n && (#[trigger] h[i]).parent >= 0 && (h[i].next == i || h[i].first_child
                == i || h[i].parent >= n || h[i].next >= n || h[i].first_child >= n))
            ==> !walkable(h, n),
{
    if forall|i: int|
        #![trigger h[i]]
        0 <= i < h.len() && h[i].parent >= 0 ==> {
            &&& i < n
            &&& h[i].parent < n
            &&& h[i].next >= 0 ==> i < h[i].next < n && h[h[i].next as int].parent >= 0
            &&& h[i].first_child >= 0 ==> i < h[i].first_child < n
                && h[h[i].first_child as int].parent >= 0
        } {
        let rank = Seq::new(n, |i: int| (n - i) as nat);
        assert(ranks(h, n, rank));
    }
    if walkable(h, n) {
        let rank = rank_of(h, n);
        assert(ranks(h, n, rank));
        assert forall|i: int| 0 <= i < n && (#[trigger] h[i]).parent >= 0 implies h[i].next != i
            && h[i].first_child != i && h[i].parent < n && h[i].next < n && h[i].first_child
            < n by {
            assert(nested(h, n, i));
        }
    }
}

} // verus!
