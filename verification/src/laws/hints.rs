//! Laws of hint mode: labels, the place of hints, and typing.

use crate::areas::TargetArea;
use crate::config::Config;
use crate::double::{double, lemma_double_exact, lemma_double_ordered};
use crate::fixed::{clamp, div_toward_zero};
use crate::hint::{
    after_key, are_grid_hints, box_height, box_start, box_width, cells_along, drawn_labels,
    five_halves, font_multiple, grid_count, grid_fits, grid_gap, label, label_count,
    lemma_cells_fit, letter, matching, nine_fifths, Hint, HintResult,
};
use crate::modes::are_area_hints;
use crate::number::{one, Double};
use crate::wayland::{KeyEvent, KeyState, Monitor};
use vstd::arithmetic::power2::{
    lemma2_to64, lemma2_to64_rest, lemma_pow2_adds, lemma_pow2_pos, pow2,
};
use vstd::prelude::*;

verus! {

// ---------------------------------------------------------------------------
// Labels
// ---------------------------------------------------------------------------

/// The first labels are the single characters in order; after them comes every
/// pair, the second character going round fastest.
pub proof fn law_labels(chars: Seq<char>, a: int, b: int)
    requires
        0 <= a < chars.len(),
        0 <= b < chars.len(),
    ensures
        label(chars, a) == seq![chars[a]],
        label(chars, chars.len() + a * chars.len() + b) == seq![chars[a], chars[b]],
{
    let n = chars.len() as int;
    vstd::arithmetic::div_mod::lemma_fundamental_div_mod_converse(a * n + b, n, a, b);
    assert(a * n >= 0) by (nonlinear_arith)
        requires
            a >= 0,
            n >= 0,
    ;
}

/// There are as many labels as are asked for, up to the number of characters and
/// pairs of them. One is made even where none is asked for, and none without
/// characters.
pub proof fn law_label_count(n: nat, count: nat)
    ensures
        n == 0 ==> label_count(n, count) == 0,
        n > 0 && count > 0 && count <= n + n * n ==> label_count(n, count) == count,
        n > 0 && count >= n + n * n ==> label_count(n, count) == n + n * n,
        n > 0 && count == 0 ==> label_count(n, count) == 1,
{
    assert(n > 0 ==> n * n > 0) by (nonlinear_arith);
}

// ---------------------------------------------------------------------------
// The grid
// ---------------------------------------------------------------------------

/// The distance between the cells of a grid, for a setting that is an `i32`.
pub open spec fn distance_of(setting: u32) -> int {
    if setting < 20 {
        20
    } else {
        setting as int
    }
}

/// How many cells of the given length a side has room for; one at least.
pub open spec fn room_for(side: i32, gap: int) -> int {
    if side < gap {
        1
    } else {
        side as int / gap
    }
}

proof fn lemma_room(side: i32, gap: int)
    requires
        gap >= 20,
    ensures
        cells_along(side, gap) == room_for(side, gap),
        room_for(side, gap) >= 1,
{
    vstd::arithmetic::div_mod::lemma_div_by_self(gap);
    if side >= gap {
        vstd::arithmetic::div_mod::lemma_div_is_ordered(gap, side as int, gap);
    } else if side >= 0 {
        vstd::arithmetic::div_mod::lemma_basic_div(side as int, gap);
    } else {
        vstd::arithmetic::div_mod::lemma_div_pos_is_pos(-side, gap);
    }
}

proof fn lemma_halves(gap: int, size: int)
    requires
        gap >= 0,
    ensures
        div_toward_zero(gap, 2) == gap / 2,
        -1 <= size - 2 * div_toward_zero(size, 2) <= 1,
{
    if size >= 0 {
        assert(div_toward_zero(size, 2) == size / 2);
    } else {
        assert(div_toward_zero(size, 2) == -((-size) / 2));
    }
}

/// A length over two, with the fraction dropped.
pub open spec fn halved_length(v: int) -> int {
    if v < 0 {
        -((-v) / 2)
    } else {
        v / 2
    }
}

proof fn lemma_halved(v: int)
    ensures
        div_toward_zero(v, 2) == halved_length(v),
{
}

/// The grid of hints covers the monitor. The cell in each row and column that has
/// a label holds the hint of that number, and the middle of the hint's box is the
/// middle of the cell, to half a pixel.
pub proof fn law_grid_covers(
    hints: Seq<Hint>,
    monitor: Monitor,
    config: Config,
    row: int,
    col: int,
)
    requires
        are_grid_hints(hints, monitor, config),
        grid_fits(monitor, config),
        config.hint_grid_gap <= i32::MAX,
        0 <= row,
        0 <= col < room_for(monitor.width, distance_of(config.hint_grid_gap)),
        row * room_for(monitor.width, distance_of(config.hint_grid_gap)) + col < hints.len(),
    ensures
        ({
            let gap = distance_of(config.hint_grid_gap);
            let cols = room_for(monitor.width, gap);
            let n = row * cols + col;
            let h = hints[n];
            &&& -1 <= 2 * h.x + h.w - 2 * (col * gap + gap / 2) <= 1
            &&& -1 <= 2 * h.y + h.h - 2 * (row * gap + gap / 2) <= 1
            &&& row < room_for(monitor.height, gap)
            &&& h.label@ == label(config.hint_chars@, n)
        }),
{
    let gap = distance_of(config.hint_grid_gap);
    lemma_room(monitor.width, gap);
    lemma_room(monitor.height, gap);
    let cols = room_for(monitor.width, gap);
    let rows = room_for(monitor.height, gap);
    let n = row * cols + col;
    assert(row * cols >= 0) by (nonlinear_arith)
        requires
            row >= 0,
            cols >= 1,
    ;
    vstd::arithmetic::div_mod::lemma_fundamental_div_mod_converse(n, cols, row, col);
    let (w, h) = (box_width(config.hint_font_size), box_height(config.hint_font_size));
    lemma_cells_fit(n, hints.len() as int, cols, gap, w, h);
    lemma_halves(gap, w);
    lemma_halves(gap, h);
    assert(cols * rows >= 1) by (nonlinear_arith)
        requires
            cols >= 1,
            rows >= 1,
    ;
    assert(hints[n]@.x == box_start(col, gap, w) && hints[n]@.y == box_start(row, gap, h));
    assert(row < rows) by (nonlinear_arith)
        requires
            row * cols + col < cols * rows,
            0 <= col,
            cols >= 1,
    ;
}

/// No two hints of a grid are in the same place: hints of one row are a cell
/// apart, and so are hints of different rows.
pub proof fn law_grid_spread(
    hints: Seq<Hint>,
    monitor: Monitor,
    config: Config,
    i: int,
    j: int,
)
    requires
        are_grid_hints(hints, monitor, config),
        grid_fits(monitor, config),
        config.hint_grid_gap <= i32::MAX,
        0 <= i < j < hints.len(),
    ensures
        hints[i].x != hints[j].x || hints[i].y != hints[j].y,
        hints[i].w == hints[j].w,
        hints[i].h == hints[j].h,
        ({
            let gap = distance_of(config.hint_grid_gap);
            let cols = room_for(monitor.width, gap);
            &&& hints[j].x - hints[i].x == (j % cols - i % cols) * gap
            &&& hints[j].y - hints[i].y == (j / cols - i / cols) * gap
        }),
{
    let gap = distance_of(config.hint_grid_gap);
    lemma_room(monitor.width, gap);
    let cols = room_for(monitor.width, gap);
    let (w, h) = (box_width(config.hint_font_size), box_height(config.hint_font_size));
    lemma_cells_fit(i, hints.len() as int, cols, gap, w, h);
    lemma_cells_fit(j, hints.len() as int, cols, gap, w, h);
    let (c1, c2, r1, r2) = (i % cols, j % cols, i / cols, j / cols);
    assert(hints[i]@.x == box_start(c1, gap, w) && hints[j]@.x == box_start(c2, gap, w));
    assert(hints[i]@.y == box_start(r1, gap, h) && hints[j]@.y == box_start(r2, gap, h));
    assert((c2 - c1) * gap == c2 * gap - c1 * gap && (r2 - r1) * gap == r2 * gap - r1 * gap)
        by (nonlinear_arith);
    vstd::arithmetic::div_mod::lemma_fundamental_div_mod(i, cols);
    vstd::arithmetic::div_mod::lemma_fundamental_div_mod(j, cols);
    if r1 == r2 {
        assert(c1 != c2);
    }
    assert(c1 != c2 ==> (c2 - c1) * gap != 0) by (nonlinear_arith)
        requires
            gap >= 20,
    ;
    assert(r1 != r2 ==> (r2 - r1) * gap != 0) by (nonlinear_arith)
        requires
            gap >= 20,
    ;
}

/// Every cell that the monitor has room for gets a hint, as far as the characters
/// and the pairs of them go.
pub proof fn law_grid_full(hints: Seq<Hint>, monitor: Monitor, config: Config)
    requires
        are_grid_hints(hints, monitor, config),
        config.hint_grid_gap <= i32::MAX,
    ensures
        ({
            let gap = distance_of(config.hint_grid_gap);
            let cells = room_for(monitor.width, gap) * room_for(monitor.height, gap);
            let n = config.hint_chars@.len();
            &&& n == 0 ==> hints.len() == 0
            &&& n > 0 && cells <= n + n * n ==> hints.len() == cells
            &&& cells >= n + n * n ==> hints.len() == n + n * n
        }),
{
    let gap = distance_of(config.hint_grid_gap);
    lemma_room(monitor.width, gap);
    lemma_room(monitor.height, gap);
    let (a, b) = (room_for(monitor.width, gap), room_for(monitor.height, gap));
    assert(a * b >= 1) by (nonlinear_arith)
        requires
            a >= 1,
            b >= 1,
    ;
    law_label_count(config.hint_chars@.len(), (a * b) as nat);
}

/// With a setting beyond `i32` the distance wraps around.
pub proof fn law_gap_wraps(setting: u32)
    ensures
        setting < 20 ==> grid_gap(setting) == 20,
        20 <= setting < 0x8000_0000 ==> grid_gap(setting) == setting,
        setting >= 0x8000_0000 ==> grid_gap(setting) == setting - 0x1_0000_0000,
{
}

/// Whatever the distance between cells is, there are as many cells along a side as
/// it has room for, with the fraction dropped, and one at least. The cells are
/// counted row by row, and each box stands in the middle of its cell, with the
/// fractions of both halves dropped.
pub proof fn law_grid_places(hints: Seq<Hint>, monitor: Monitor, config: Config, i: int)
    requires
        are_grid_hints(hints, monitor, config),
        grid_fits(monitor, config),
        0 <= i < hints.len(),
    ensures
        ({
            let gap = grid_gap(config.hint_grid_gap);
            let across = div_toward_zero(monitor.width as int, gap);
            let down = div_toward_zero(monitor.height as int, gap);
            let cols = if across < 1 {
                1
            } else {
                across
            };
            let rows = if down < 1 {
                1
            } else {
                down
            };
            let h = hints[i];
            &&& hints.len() == label_count(config.hint_chars@.len(), (cols * rows) as nat)
            &&& h.x == (i % cols) * gap + halved_length(gap) - halved_length(h.w as int)
            &&& h.y == (i / cols) * gap + halved_length(gap) - halved_length(h.h as int)
            &&& h.label@ == label(config.hint_chars@, i)
        }),
{
    let gap = grid_gap(config.hint_grid_gap);
    let cols = cells_along(monitor.width, gap);
    let (w, h) = (box_width(config.hint_font_size), box_height(config.hint_font_size));
    lemma_cells_fit(i, hints.len() as int, cols, gap, w, h);
    lemma_halved(gap);
    lemma_halved(w);
    lemma_halved(h);
    assert(hints[i]@.x == box_start(i % cols, gap, w) && hints[i]@.y == box_start(
        i / cols,
        gap,
        h,
    ));
    assert(hints[i]@.w == w as i32);
}

/// The boxes of the grid have the size that goes with the font.
pub proof fn law_grid_boxes(hints: Seq<Hint>, monitor: Monitor, config: Config, i: int)
    requires
        are_grid_hints(hints, monitor, config),
        0 <= i < hints.len(),
    ensures
        hints[i].w == box_width(config.hint_font_size),
        hints[i].h == box_height(config.hint_font_size),
{
    assert(hints[i]@.w == box_width(config.hint_font_size) as i32);
}

// ---------------------------------------------------------------------------
// Boxes
// ---------------------------------------------------------------------------

/// The box is two and a half times as wide as the font is large, and one and four
/// fifths times as high, rounded as numbers are; then the fraction is dropped, and
/// what is beyond `i32` ends there.
pub proof fn law_boxes(font: Double)
    ensures
        ({
            let one = pow2(1074) as int;
            let wide = double(font@ * (5 * pow2(1073)), one);
            let high = double(font@ * (0x1c_cccc_cccc_cccd * pow2(1022)), one);
            let (lo, hi) = (-0x8000_0000int, 0x7fff_ffffint);
            &&& box_width(font) == clamp(div_toward_zero(wide, one), lo, hi)
            &&& box_height(font) == clamp(div_toward_zero(high, one), lo, hi)
        }),
{
}

/// For a font of a whole number of pixels, the box is two and a half times as
/// wide and one and four fifths times as high, with fractions dropped.
pub proof fn law_whole_boxes(font: Double, pixels: int)
    requires
        0 <= pixels <= 0x400_0000,
        font@ == pixels * one(),
    ensures
        box_width(font) == 5 * pixels / 2,
        box_height(font) == 9 * pixels / 5,
{
    lemma2_to64();
    lemma2_to64_rest();
    lemma_pow2_pos(1074);
    lemma_pow2_pos(1073);
    lemma_pow2_pos(1022);
    lemma_pow2_adds(1, 1073);
    lemma_pow2_adds(52, 1022);
    let (p, u) = (one(), pow2(1022) as int);
    // The width.
    let c = five_halves()@;
    let half = pow2(1073) as int;
    assert(pixels * p * (5 * half) == (5 * pixels) * half * p) by (nonlinear_arith);
    crate::number::lemma_times_one((5 * pixels) * half);
    lemma_double_exact(5 * pixels, 1073);
    assert((5 * pixels) * half / (2 * half) == 5 * pixels / 2) by {
        vstd::arithmetic::div_mod::lemma_div_denominator((5 * pixels) * half, half, 2);
        vstd::arithmetic::div_mod::lemma_div_by_multiple(5 * pixels, half);
        assert(half * 2 == 2 * half);
        assert((5 * pixels) * half >= 0) by (nonlinear_arith)
            requires
                pixels >= 0,
                half > 0,
        ;
    }
    // The height.
    let k = 0x1c_cccc_cccc_cccdint;
    assert(pixels * p * (k * u) == (k * pixels) * u * p) by (nonlinear_arith);
    crate::number::lemma_times_one((k * pixels) * u);
    let q = 9 * pixels / 5;
    let e = 0x10_0000_0000_0000int;
    let n = k * pixels;
    assert(5 * n == 9 * e * pixels + pixels) by (nonlinear_arith)
        requires
            n == k * pixels,
            5 * k == 9 * e + 1,
    ;
    assert(q * e <= n);
    let m = (q + 1) * 0x200_0000 - 1;
    assert(n <= m * 0x800_0000);
    crate::number::lemma_shift_outside(n, 1022);
    lemma_double_exact(q, 52);
    lemma_double_ordered(q * e, n, 1);
    lemma_double_exact(m, 27);
    lemma_double_ordered(n, m * 0x800_0000, 1);
    let d = double(n, 1);
    assert(q * e <= d < (q + 1) * e);
    assert(d * u / p == q) by {
        vstd::arithmetic::div_mod::lemma_div_denominator(d * u, u, e);
        vstd::arithmetic::div_mod::lemma_div_by_multiple(d, u);
        assert(u * e == p) by (nonlinear_arith)
            requires
                p == e * u,
        ;
        assert(d * u >= 0) by (nonlinear_arith)
            requires
                d >= 0,
                u > 0,
        ;
        assert(d / e == q);
    }
    assert(d * u >= 0) by (nonlinear_arith)
        requires
            d >= 0,
            u > 0,
    ;
}

/// On a monitor of any usual size, up to 2^19 pixels a side, the grid can be placed
/// whatever the distance of the cells is, up to 2^30, and whatever boxes of that size
/// the font has.
pub proof fn law_grid_fits(monitor: Monitor, config: Config)
    requires
        1 <= monitor.width <= 0x8_0000,
        1 <= monitor.height <= 0x8_0000,
        config.hint_grid_gap < 0x4000_0000,
        -0x4000_0000 <= box_width(config.hint_font_size) <= 0x4000_0000,
        -0x4000_0000 <= box_height(config.hint_font_size) <= 0x4000_0000,
    ensures
        grid_fits(monitor, config),
{
    let gap = grid_gap(config.hint_grid_gap);
    let cols = cells_along(monitor.width, gap);
    let rows = cells_along(monitor.height, gap);
    lemma_room(monitor.width, gap);
    lemma_room(monitor.height, gap);
    vstd::arithmetic::div_mod::lemma_fundamental_div_mod(monitor.width as int, gap);
    vstd::arithmetic::div_mod::lemma_fundamental_div_mod(monitor.height as int, gap);
    vstd::arithmetic::div_mod::lemma_mod_bound(monitor.width as int, gap);
    vstd::arithmetic::div_mod::lemma_mod_bound(monitor.height as int, gap);
    assert(gap * cols == cols * gap && gap * rows == rows * gap) by (nonlinear_arith);
    assert(1 <= cols <= 26214 && (cols - 1) * gap <= 0x8_0000) by (nonlinear_arith)
        requires
            gap >= 20,
            cols >= 1,
            cols == 1 || cols * gap <= 0x8_0000,
    ;
    assert(1 <= rows <= 26214 && (rows - 1) * gap <= 0x8_0000) by (nonlinear_arith)
        requires
            gap >= 20,
            rows >= 1,
            rows == 1 || rows * gap <= 0x8_0000,
    ;
    assert(1 <= cols * rows <= 26214 * 26214) by (nonlinear_arith)
        requires
            1 <= cols <= 26214,
            1 <= rows <= 26214,
    ;
    let count = grid_count(monitor, config) as int;
    if count > 0 {
        let across = (if count < cols {
            count
        } else {
            cols
        }) - 1;
        let down = (count - 1) / cols;
        assert(count <= cols * rows);
        assert(0 <= down <= rows - 1) by (nonlinear_arith)
            requires
                down == (count - 1) / cols,
                0 < count <= cols * rows,
                cols >= 1,
        ;
        assert(0 <= across * gap <= 0x8_0000) by (nonlinear_arith)
            requires
                0 <= across <= cols - 1,
                (cols - 1) * gap <= 0x8_0000,
                gap >= 20,
        ;
        assert(0 <= down * gap <= 0x8_0000) by (nonlinear_arith)
            requires
                0 <= down <= rows - 1,
                (rows - 1) * gap <= 0x8_0000,
                gap >= 20,
        ;
    }
}

/// A larger font never has a smaller box.
pub proof fn law_boxes_grow(small: Double, large: Double)
    requires
        small@ <= large@,
    ensures
        box_width(small) <= box_width(large),
        box_height(small) <= box_height(large),
{
    crate::number::lemma_bits_sign(five_halves());
    crate::number::lemma_bits_sign(nine_fifths());
    lemma_multiple_grows(small@, large@, five_halves()@);
    lemma_multiple_grows(small@, large@, nine_fifths()@);
}

proof fn lemma_multiple_grows(a: int, b: int, factor: int)
    requires
        a <= b,
        factor >= 0,
    ensures
        font_multiple(a, factor) <= font_multiple(b, factor),
{
    lemma_pow2_pos(1074);
    let p = one();
    assert(a * factor <= b * factor) by (nonlinear_arith)
        requires
            a <= b,
            factor >= 0,
    ;
    lemma_double_ordered(a * factor, b * factor, p);
    let (x, y) = (double(a * factor, p), double(b * factor, p));
    if x >= 0 {
        vstd::arithmetic::div_mod::lemma_div_is_ordered(x, y, p);
    } else if y < 0 {
        vstd::arithmetic::div_mod::lemma_div_is_ordered(-y, -x, p);
    } else {
        vstd::arithmetic::div_mod::lemma_div_pos_is_pos(-x, p);
        vstd::arithmetic::div_mod::lemma_div_pos_is_pos(y, p);
    }
}

// ---------------------------------------------------------------------------
// Hints on areas
// ---------------------------------------------------------------------------

/// Each area has its hint, in order, as far as there are labels, and the middle of
/// the hint's box is the middle of the area, to half a pixel, unless the box is at
/// the end of `i32`.
pub proof fn law_area_hints(hints: Seq<Hint>, areas: Seq<TargetArea>, config: Config, i: int)
    requires
        are_area_hints(hints, areas, config),
        areas.len() > 0,
        0 <= i < hints.len(),
    ensures
        ({
            let (h, a, n) = (hints[i], areas[i], config.hint_chars@.len());
            &&& h.label@ == label(config.hint_chars@, i)
            &&& h.w == box_width(config.hint_font_size)
            &&& h.h == box_height(config.hint_font_size)
            &&& i32::MIN < h.x < i32::MAX ==> -1 <= 2 * h.x + h.w - 2 * (a.x + halved_length(
                a.w as int,
            )) <= 1
            &&& i32::MIN < h.y < i32::MAX ==> -1 <= 2 * h.y + h.h - 2 * (a.y + halved_length(
                a.h as int,
            )) <= 1
            &&& h.x == clamp(
                a.x + halved_length(a.w as int) - halved_length(h.w as int),
                -0x8000_0000,
                0x7fff_ffff,
            )
            &&& h.y == clamp(
                a.y + halved_length(a.h as int) - halved_length(h.h as int),
                -0x8000_0000,
                0x7fff_ffff,
            )
            &&& areas.len() <= n + n * n ==> hints.len() == areas.len()
            &&& areas.len() >= n + n * n ==> hints.len() == n + n * n
        }),
{
    law_label_count(config.hint_chars@.len(), areas.len());
    let (w, h) = (box_width(config.hint_font_size), box_height(config.hint_font_size));
    assert(hints[i]@.w == w as i32);
    lemma_halves(0, w);
    lemma_halves(0, h);
    lemma_halved(areas[i].w as int);
    lemma_halved(areas[i].h as int);
    lemma_halved(w);
    lemma_halved(h);
}

// ---------------------------------------------------------------------------
// Typing
// ---------------------------------------------------------------------------

/// The hints that match are exactly those whose labels begin with what was typed,
/// in order.
pub proof fn law_matching(hints: Seq<Hint>, typed: Seq<char>)
    ensures
        matching(hints, typed) == hints.filter(|h: Hint| typed.is_prefix_of(h.label@)),
    decreases hints.len(),
{
    reveal(Seq::filter);
    if hints.len() > 0 {
        law_matching(hints.drop_last(), typed);
    }
}

/// A key that does not go down, and a key that is none of Escape, Backspace and
/// the letters, change nothing. Escape cancels. Backspace takes back what was
/// typed last.
pub proof fn law_keys_of_hint_mode(event: KeyEvent, hints: Seq<Hint>, typed: Seq<char>)
    ensures
        ({
            let (now, result) = after_key(event, hints, typed);
            let small = 0x61 <= event.sym <= 0x7a;
            let capital = 0x41 <= event.sym <= 0x5a;
            &&& event.state != KeyState::Pressed ==> now == typed && result == HintResult::Continue
            &&& event.state == KeyState::Pressed && event.sym == 0xff1b ==> now == typed && result
                == HintResult::Cancel
            &&& event.state == KeyState::Pressed && event.sym == 0xff08 ==> result
                == HintResult::Continue && now.len() == (if typed.len() == 0 {
                0
            } else {
                typed.len() - 1
            }) && now == typed.take(now.len() as int)
            &&& event.state == KeyState::Pressed && event.sym != 0xff1b && event.sym != 0xff08
                && !small && !capital ==> now == typed && result == HintResult::Continue
            &&& result == HintResult::Cancel ==> event.sym == 0xff1b
        }),
{
    assert(typed.take(typed.len() as int) =~= typed);
    if typed.len() > 0 {
        assert(typed.take(typed.len() - 1) =~= typed.drop_last());
    }
}

/// The 26 letters of either case are letters, the small ones. Nothing else is.
pub proof fn law_letter(sym: u32)
    ensures
        97 <= sym <= 122 ==> letter(sym) is Some && letter(sym)->0 as u32 == sym,
        65 <= sym <= 90 ==> letter(sym) is Some && letter(sym)->0 as u32 == sym + 32,
        !(97 <= sym <= 122) && !(65 <= sym <= 90) ==> letter(sym) is None,
{
}

/// A letter of either case counts as the small one. It is added to what was typed
/// if some label begins with the result, and not otherwise. If that is a single
/// hint, it is selected, at the middle of its box; if there are more, none is.
pub proof fn law_letters_of_hint_mode(
    event: KeyEvent,
    hints: Seq<Hint>,
    typed: Seq<char>,
    c: char,
    i: int,
    j: int,
)
    requires
        event.state == KeyState::Pressed,
        'a' <= c <= 'z',
        event.sym == c as u32 || event.sym == c as u32 - 32,
    ensures
        ({
            let (now, result) = after_key(event, hints, typed);
            let longer = typed.push(c);
            let fits = |k: int| longer.is_prefix_of(hints[k].label@);
            &&& (forall|k: int| 0 <= k < hints.len() ==> !#[trigger] fits(k)) ==> now == typed
                && result == HintResult::Continue
            &&& 0 <= i < hints.len() && fits(i) ==> now == longer
            &&& 0 <= i < hints.len() && fits(i) && (forall|k: int|
                0 <= k < hints.len() && k != i ==> !#[trigger] fits(k)) ==> result == (
            HintResult::Selected {
                x: (hints[i].x * 0x10_0000_0000_0000 + hints[i].w * 0x8_0000_0000_0000) as i128,
                y: (hints[i].y * 0x10_0000_0000_0000 + hints[i].h * 0x8_0000_0000_0000) as i128,
            })
            &&& 0 <= i < hints.len() && fits(i) && 0 <= j < hints.len() && j != i && fits(j)
                ==> result == HintResult::Continue
        }),
{
    let longer = typed.push(c);
    let found = matching(hints, longer);
    assert(letter(event.sym) == Some(c));
    if forall|k: int|
        0 <= k < hints.len() ==> !longer.is_prefix_of((#[trigger] hints[k]).label@) {
        crate::hint::lemma_no_match(hints, longer);
    }
    if 0 <= i < hints.len() && longer.is_prefix_of(hints[i].label@) {
        crate::hint::lemma_matching(hints, longer);
        assert(found.contains(hints[i]));
        if forall|k: int|
            0 <= k < hints.len() && k != i ==> !longer.is_prefix_of((#[trigger] hints[k]).label@) {
            crate::hint::lemma_single_match(hints, longer, i);
        }
        if 0 <= j < hints.len() && j != i && longer.is_prefix_of(hints[j].label@) {
            if i < j {
                lemma_two_match(hints, longer, i, j);
            } else {
                lemma_two_match(hints, longer, j, i);
            }
        }
    }
    let fits = |k: int| longer.is_prefix_of(hints[k].label@);
    if forall|k: int| 0 <= k < hints.len() ==> !#[trigger] fits(k) {
        assert forall|k: int| 0 <= k < hints.len() implies !longer.is_prefix_of(
            (#[trigger] hints[k]).label@,
        ) by {
            assert(!fits(k));
        }
    }
    if forall|k: int| 0 <= k < hints.len() && k != i ==> !#[trigger] fits(k) {
        assert forall|k: int| 0 <= k < hints.len() && k != i implies !longer.is_prefix_of(
            (#[trigger] hints[k]).label@,
        ) by {
            assert(!fits(k));
        }
    }
}

proof fn lemma_two_match(hints: Seq<Hint>, typed: Seq<char>, i: int, j: int)
    requires
        0 <= i < j < hints.len(),
        typed.is_prefix_of(hints[i].label@),
        typed.is_prefix_of(hints[j].label@),
    ensures
        matching(hints, typed).len() >= 2,
    decreases hints.len(),
{
    let init = hints.drop_last();
    if j < hints.len() - 1 {
        lemma_two_match(init, typed, i, j);
    } else {
        crate::hint::lemma_matching(init, typed);
        assert(init[i] == hints[i]);
        assert(matching(init, typed).contains(init[i]));
    }
}

/// A hint is drawn exactly if its label begins with what was typed, in the order
/// of the hints. What was typed is dimmed, and what is left to type follows it.
pub proof fn law_drawn_labels(hints: Seq<Hint>, typed: Seq<char>, k: nat)
    requires
        k <= hints.len(),
    ensures
        ({
            let drawn = drawn_labels(hints, typed, k);
            &&& forall|m: int|
                0 <= m < drawn.len() ==> {
                    let d = #[trigger] drawn[m];
                    &&& 0 <= d.index < k
                    &&& d.dimmed == typed
                    &&& d.dimmed + d.bright == hints[d.index].label@
                }
            &&& forall|m: int, l: int|
                0 <= m < l < drawn.len() ==> (#[trigger] drawn[m]).index < (
                #[trigger] drawn[l]).index
            &&& forall|i: int|
                0 <= i < k && typed.is_prefix_of((#[trigger] hints[i]).label@) ==> exists|m: int|
                    0 <= m < drawn.len() && (#[trigger] drawn[m]).index == i
        }),
    decreases k,
{
    if k > 0 {
        law_drawn_labels(hints, typed, (k - 1) as nat);
        let before = drawn_labels(hints, typed, (k - 1) as nat);
        let drawn = drawn_labels(hints, typed, k);
        let text = hints[k - 1].label@;
        if typed.is_prefix_of(text) {
            assert(typed + text.skip(typed.len() as int) =~= text) by {
                assert(typed =~= text.subrange(0, typed.len() as int));
            }
            assert(drawn[drawn.len() - 1].index == k - 1);
        }
        assert forall|i: int|
            0 <= i < k && typed.is_prefix_of((#[trigger] hints[i]).label@) implies exists|m: int|
            0 <= m < drawn.len() && (#[trigger] drawn[m]).index == i by {
            if i < k - 1 {
                let m = choose|m: int| 0 <= m < before.len() && (#[trigger] before[m]).index == i;
                assert(drawn[m].index == i);
            }
        }
    }
}

} // verus!
