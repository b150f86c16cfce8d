//! Hint mode: labelled boxes across the screen, filtered as the user types.

use crate::areas::TargetArea;
use crate::config::Config;
use crate::double::{double, lemma_double_negated, lemma_double_positive, BITS53};
use crate::fixed::{abs, clamp, div_toward_zero, px, quotient_i32, Coord, HALF, UNIT};
use crate::input::keysyms;
use crate::number::{
    infinite, is_less, lemma_bits_sign, negated, one, product, to_units, Double, ONE_SHIFT,
    SHIFT_LIMIT,
};
use crate::text::{chars_of, starts_with, string_of};
use crate::wayland::{KeyEvent, KeyState, Monitor};
use vstd::arithmetic::power2::{
    lemma2_to64, lemma2_to64_rest, lemma_pow2_adds, lemma_pow2_pos, lemma_pow2_strictly_increases,
    pow2,
};
use vstd::prelude::*;

verus! {

// ---------------------------------------------------------------------------
// Data types
// ---------------------------------------------------------------------------

/// A single hint on the screen.
#[derive(Debug)]
pub struct Hint {
    /// Pixel position relative to the monitor's top-left.
    pub x: i32,
    pub y: i32,
    /// Pixel dimensions of the hint box.
    pub w: i32,
    pub h: i32,
    /// The label the user must type to select this hint (e.g. "aj").
    pub label: String,
}

/// What a key press in hint mode comes to.
#[derive(Clone, Copy, Debug, PartialEq, Eq, Structural)]
pub enum HintResult {
    /// A hint was uniquely selected: warp to its centre.
    Selected { x: Coord, y: Coord },
    /// The user cancelled.
    Cancel,
    /// Nothing is selected yet.
    Continue,
}

pub struct HintView {
    pub x: i32,
    pub y: i32,
    pub w: i32,
    pub h: i32,
    pub label: Seq<char>,
}

impl View for Hint {
    type V = HintView;

    open spec fn view(&self) -> HintView {
        HintView { x: self.x, y: self.y, w: self.w, h: self.h, label: self.label@ }
    }
}

impl Clone for Hint {
    fn clone(&self) -> (r: Hint)
        ensures
            r@ == self@,
    {
        Hint { x: self.x, y: self.y, w: self.w, h: self.h, label: self.label.clone() }
    }
}

// ---------------------------------------------------------------------------
// Labels
// ---------------------------------------------------------------------------

/// The label with number `i`: first the single characters, then the pairs.
pub open spec fn label(chars: Seq<char>, i: int) -> Seq<char> {
    let n = chars.len() as int;
    if i < n {
        seq![chars[i]]
    } else {
        seq![chars[(i - n) / n], chars[(i - n) % n]]
    }
}

/// The number of labels made of `n` characters when `count` are asked for: as
/// many as that, as far as there are characters and pairs, but one at least.
pub open spec fn label_count(n: nat, count: nat) -> nat {
    if n == 0 {
        0
    } else if count == 0 {
        1
    } else if count < n + n * n {
        count
    } else {
        n + n * n
    }
}

proof fn lemma_pair_index(n: int, a: int, b: int)
    requires
        0 <= a < n,
        0 <= b < n,
    ensures
        (a * n + b) / n == a,
        (a * n + b) % n == b,
        0 <= a * n + b < n * n,
{
    vstd::arithmetic::div_mod::lemma_fundamental_div_mod_converse(a * n + b, n, a, b);
    assert(0 <= a * n + b < n * n) by (nonlinear_arith)
        requires
            0 <= a < n,
            0 <= b < n,
    ;
}

/// Labels made of the given characters, the shortest first: each character, and
/// then each pair of them, until there are `count`.
pub fn generate_labels(chars: &str, count: usize) -> (labels: Vec<String>)
    ensures
        labels.len() == label_count(chars@.len(), count as nat),
        forall|i: int| 0 <= i < labels.len() ==> (#[trigger] labels[i])@ == label(chars@, i),
{
    let v: Vec<char> = chars_of(chars);
    let n: usize = v.len();
    let mut labels: Vec<String> = Vec::new();
    let mut i: usize = 0;
    while i < n
        invariant
            v@ == chars@,
            n == v.len(),
            i <= n,
            labels.len() == i,
            i > 0 ==> i < count,
            forall|k: int| 0 <= k < labels.len() ==> (#[trigger] labels[k])@ == label(chars@, k),
        decreases n - i,
    {
        let one: String = string_of(&v, i, i + 1);
        assert(one@ =~= label(chars@, i as int));
        labels.push(one);
        if labels.len() >= count {
            assert(n * n >= 1) by (nonlinear_arith)
                requires
                    n >= 1,
            ;
            return labels;
        }
        i = i + 1;
    }
    let mut a: usize = 0;
    while a < n
        invariant
            v@ == chars@,
            n == v.len(),
            a <= n,
            n < count || n == 0,
            labels.len() == n + a * n,
            labels.len() < count || n == 0,
            forall|k: int| 0 <= k < labels.len() ==> (#[trigger] labels[k])@ == label(chars@, k),
        decreases n - a,
    {
        let mut b: usize = 0;
        while b < n
            invariant
                v@ == chars@,
                n == v.len(),
                a < n,
                b <= n,
                labels.len() == n + a * n + b,
                labels.len() < count,
                forall|k: int|
                    0 <= k < labels.len() ==> (#[trigger] labels[k])@ == label(chars@, k),
            decreases n - b,
        {
            proof {
                lemma_pair_index(n as int, a as int, b as int);
            }
            let mut pair: String = string_of(&v, a, a + 1);
            pair.push(v[b]);
            assert(pair@ =~= label(chars@, n + a * n + b));
            labels.push(pair);
            if labels.len() >= count {
                return labels;
            }
            b = b + 1;
        }
        assert((a + 1) * n == a * n + n) by (nonlinear_arith);
        a = a + 1;
    }
    labels
}

pub open spec fn distinct(chars: Seq<char>) -> bool {
    forall|i: int, j: int|
        0 <= i < j < chars.len() ==> #[trigger] chars[i] != #[trigger] chars[j]
}

/// The place of a two-character label among the pairs.
proof fn lemma_pair_of(n: int, i: int)
    requires
        n > 0,
        n <= i < n + n * n,
    ensures
        0 <= (i - n) / n < n,
        0 <= (i - n) % n < n,
        i - n == (i - n) / n * n + (i - n) % n,
{
    let k = i - n;
    vstd::arithmetic::div_mod::lemma_fundamental_div_mod(k, n);
    assert(0 <= k / n < n) by (nonlinear_arith)
        requires
            0 <= k < n * n,
            n > 0,
    ;
    assert(n * (k / n) == k / n * n) by (nonlinear_arith);
}

/// Labels made of distinct characters are distinct, and none is shorter than
/// one before it.
pub proof fn law_labels_distinct(chars: Seq<char>, i: int, j: int)
    requires
        distinct(chars),
        0 <= i < j < chars.len() + chars.len() * chars.len(),
    ensures
        label(chars, i) != label(chars, j),
        label(chars, i).len() <= label(chars, j).len(),
{
    let n = chars.len() as int;
    let a = label(chars, i);
    let b = label(chars, j);
    if j < n {
        assert(a[0] != b[0]);
    } else if i < n {
        assert(a.len() != b.len());
    } else {
        lemma_pair_of(n, i);
        lemma_pair_of(n, j);
        if a == b {
            assert(a[0] == b[0] && a[1] == b[1]);
            let (ia, ib) = ((i - n) / n, (i - n) % n);
            let (ja, jb) = ((j - n) / n, (j - n) % n);
            assert(ia == ja) by {
                if ia < ja {
                    assert(chars[ia] != chars[ja]);
                } else if ja < ia {
                    assert(chars[ja] != chars[ia]);
                }
            }
            assert(ib == jb) by {
                if ib < jb {
                    assert(chars[ib] != chars[jb]);
                } else if jb < ib {
                    assert(chars[jb] != chars[ib]);
                }
            }
        }
    }
}

// ---------------------------------------------------------------------------
// Hint generation
// ---------------------------------------------------------------------------

pub open spec fn in_i32(v: int) -> bool {
    i32::MIN <= v <= i32::MAX
}

/// The distance between grid cells: at least 20 pixels. A setting beyond `i32`
/// wraps to a negative distance.
pub open spec fn grid_gap(setting: u32) -> int {
    if setting < 20 {
        20
    } else if setting <= i32::MAX {
        setting as int
    } else {
        setting - 0x1_0000_0000
    }
}

/// The number of grid cells along a side of the monitor, one at least.
pub open spec fn cells_along(length: i32, gap: int) -> int {
    let n = div_toward_zero(length as int, gap);
    if n < 1 {
        1
    } else {
        n
    }
}

/// Two and a half.
pub open spec fn five_halves() -> Double {
    Double { bits: 5, shift: 1073 }
}

/// The double nearest to one and four fifths.
pub open spec fn nine_fifths() -> Double {
    Double { bits: 0x1c_cccc_cccc_cccd, shift: 1022 }
}

/// The whole pixels of the font size times `factor`, as far as they are in `i32`.
pub open spec fn font_multiple(font_size: int, factor: int) -> int {
    clamp(
        div_toward_zero(double(font_size * factor, one()), one()),
        i32::MIN as int,
        i32::MAX as int,
    )
}

/// The width of a hint box: two and a half times the font size.
pub open spec fn box_width(font_size: Double) -> int {
    font_multiple(font_size@, five_halves()@)
}

/// The height of a hint box: one and four fifths of the font size.
pub open spec fn box_height(font_size: Double) -> int {
    font_multiple(font_size@, nine_fifths()@)
}

/// Where the box of cell `k` begins, along one side, to be centred in the cell.
pub open spec fn box_start(k: int, gap: int, size: int) -> int {
    k * gap + div_toward_zero(gap, 2) - div_toward_zero(size, 2)
}

/// The hint in cell `i` of a grid with `cols` columns, counted row by row.
pub open spec fn grid_hint(i: int, cols: int, config: Config) -> HintView {
    let gap = grid_gap(config.hint_grid_gap);
    let w = box_width(config.hint_font_size);
    let h = box_height(config.hint_font_size);
    HintView {
        x: box_start(i % cols, gap, w) as i32,
        y: box_start(i / cols, gap, h) as i32,
        w: w as i32,
        h: h as i32,
        label: label(config.hint_chars@, i),
    }
}

/// Whether the box of cell `k` can be placed within `i32`.
pub open spec fn cell_fits(k: int, gap: int, size: int) -> bool {
    in_i32(k * gap) && in_i32(k * gap + div_toward_zero(gap, 2)) && in_i32(box_start(k, gap, size))
}

/// The number of hints of the grid: one in each cell, as far as there are labels.
pub open spec fn grid_count(monitor: Monitor, config: Config) -> nat {
    let gap = grid_gap(config.hint_grid_gap);
    label_count(
        config.hint_chars@.len(),
        (cells_along(monitor.width, gap) * cells_along(monitor.height, gap)) as nat,
    )
}

/// Whether the first `count` cells of a grid with `cols` columns, row by row, can
/// be placed within `i32`.
pub open spec fn cells_fit(count: int, cols: int, gap: int, w: int, h: int) -> bool {
    count > 0 ==> {
        &&& cell_fits(0, gap, w)
        &&& cell_fits((if count < cols {
            count
        } else {
            cols
        }) - 1, gap, w)
        &&& cell_fits(0, gap, h)
        &&& cell_fits((count - 1) / cols, gap, h)
    }
}

/// Whether the grid of hints can be counted and placed within `i32`.
pub open spec fn grid_fits(monitor: Monitor, config: Config) -> bool {
    let gap = grid_gap(config.hint_grid_gap);
    let cols = cells_along(monitor.width, gap);
    &&& !(monitor.width == i32::MIN && gap == -1)
    &&& !(monitor.height == i32::MIN && gap == -1)
    &&& cols * cells_along(monitor.height, gap) <= i32::MAX
    &&& cells_fit(
        grid_count(monitor, config) as int,
        cols,
        gap,
        box_width(config.hint_font_size),
        box_height(config.hint_font_size),
    )
}

/// Whether the hints are those of the grid that covers the monitor.
pub open spec fn are_grid_hints(hints: Seq<Hint>, monitor: Monitor, config: Config) -> bool {
    let cols = cells_along(monitor.width, grid_gap(config.hint_grid_gap));
    &&& hints.len() == grid_count(monitor, config)
    &&& forall|i: int| 0 <= i < hints.len() ==> (#[trigger] hints[i])@ == grid_hint(
        i,
        cols,
        config,
    )
}

fn to_grid_gap(setting: u32) -> (gap: i32)
    ensures
        gap == grid_gap(setting),
        gap != 0,
{
    if setting < 20 {
        20
    } else if setting <= i32::MAX as u32 {
        setting as i32
    } else {
        (setting as i64 - 0x1_0000_0000) as i32
    }
}

fn to_cells_along(length: i32, gap: i32) -> (n: i32)
    requires
        gap != 0,
        !(length == i32::MIN && gap == -1),
    ensures
        n == cells_along(length, gap as int),
        n >= 1,
{
    let n: i32 = quotient_i32(length, gap);
    if n < 1 {
        1
    } else {
        n
    }
}

fn to_box_width(font_size: Double) -> (r: i32)
    requires
        font_size.wf(),
    ensures
        r == box_width(font_size),
{
    to_font_multiple(font_size, Double { bits: 5, shift: 1073 })
}

fn to_box_height(font_size: Double) -> (r: i32)
    requires
        font_size.wf(),
    ensures
        r == box_height(font_size),
{
    to_font_multiple(font_size, Double { bits: 0x1c_cccc_cccc_cccd, shift: 1022 })
}

fn to_font_multiple(font_size: Double, factor: Double) -> (r: i32)
    requires
        font_size.wf(),
        factor.wf(),
        factor.bits >= 0,
    ensures
        r == font_multiple(font_size@, factor@),
{
    proof {
        lemma_bits_sign(font_size);
        lemma_bits_sign(factor);
        lemma_pow2_pos(ONE_SHIFT as nat);
        let (v, c) = (font_size@, factor@);
        assert((-v) * c == -(v * c)) by (nonlinear_arith);
        lemma_double_negated(v * c, one());
    }
    if font_size.bits >= 0 {
        to_whole_pixels(product(font_size, factor))
    } else {
        let m: Double = negated(font_size);
        proof {
            lemma_bits_sign(m);
        }
        let d: Double = product(m, factor);
        let n: i32 = to_whole_pixels(d);
        let huge: bool = is_beyond(d);
        proof {
            assert(d@ >= 0);
            vstd::arithmetic::div_mod::lemma_div_pos_is_pos(d@, one());
        }
        if huge {
            i32::MIN
        } else {
            -n
        }
    }
}

/// Whether a number is farther than `i32` reaches.
fn is_beyond(d: Double) -> (b: bool)
    requires
        d@ >= 0,
        d@ < infinite() ==> d.wf(),
    ensures
        b == (d@ / one() > i32::MAX),
{
    let limit: Double = Double { bits: 0x8000_0000, shift: 1074 };
    proof {
        lemma2_to64();
        lemma_pow2_adds(31, 1074);
        lemma_pow2_strictly_increases(1105, 2098);
        lemma_pow2_pos(1074);
        let p = one();
        vstd::arithmetic::div_mod::lemma_fundamental_div_mod(d@, p);
        vstd::arithmetic::div_mod::lemma_mod_bound(d@, p);
        let q = d@ / p;
        assert(q >= 0x8000_0000 <==> d@ >= 0x8000_0000 * p) by (nonlinear_arith)
            requires
                d@ == p * q + d@ % p,
                0 <= d@ % p < p,
        ;
    }
    if d.shift > SHIFT_LIMIT || d.bits < -BITS53 || d.bits > BITS53 {
        return true;
    }
    !is_less(d, limit)
}

/// The whole pixels of a number, as far as they are in `i32`.
fn to_whole_pixels(d: Double) -> (r: i32)
    requires
        d@ >= 0,
        d@ < infinite() ==> d.wf(),
    ensures
        r == (if d@ / one() > i32::MAX {
            i32::MAX as int
        } else {
            d@ / one()
        }),
{
    if is_beyond(d) {
        return i32::MAX;
    }
    proof {
        lemma2_to64();
        lemma2_to64_rest();
        lemma_pow2_adds(31, 1074);
        lemma_pow2_strictly_increases(1105, 1122);
        lemma_pow2_strictly_increases(1105, 2098);
        lemma_pow2_adds(52, 1022);
        lemma_pow2_pos(1022);
        lemma_pow2_pos(1074);
        let (p, u) = (one(), pow2(1022) as int);
        vstd::arithmetic::div_mod::lemma_fundamental_div_mod(d@, p);
        vstd::arithmetic::div_mod::lemma_mod_bound(d@, p);
        vstd::arithmetic::div_mod::lemma_div_pos_is_pos(d@, p);
        vstd::arithmetic::div_mod::lemma_div_pos_is_pos(d@, u);
        let q = d@ / p;
        assert(d@ < 0x8000_0000 * p) by (nonlinear_arith)
            requires
                d@ == p * q + d@ % p,
                0 <= d@ % p < p,
                q <= 0x7fff_ffff,
        ;
        assert(u * UNIT == p) by (nonlinear_arith)
            requires
                p == UNIT * u,
        ;
        vstd::arithmetic::div_mod::lemma_div_denominator(d@, u, UNIT as int);
    }
    let c: Coord = to_units(d);
    (c / UNIT) as i32
}

fn is_cell_fitting(k: i32, gap: i32, size: i32) -> (b: bool)
    requires
        k >= 0,
    ensures
        b == cell_fits(k as int, gap as int, size as int),
{
    proof {
        assert(-0x4000_0000_0000_0000 <= k * gap <= 0x4000_0000_0000_0000) by (nonlinear_arith)
            requires
                0 <= k <= 0x8000_0000,
                -0x8000_0000 <= gap <= 0x8000_0000,
        ;
    }
    let at: i128 = k as i128 * gap as i128;
    let mid: i128 = at + quotient_i32(gap, 2) as i128;
    let start: i128 = mid - quotient_i32(size, 2) as i128;
    let lo: i128 = i32::MIN as i128;
    let hi: i128 = i32::MAX as i128;
    lo <= at && at <= hi && lo <= mid && mid <= hi && lo <= start && start <= hi
}

/// Whether [`generate_hints`] can count and place its hints within `i32`.
pub fn is_grid_fitting(monitor: &Monitor, config: &Config) -> (b: bool)
    requires
        config.wf(),
    ensures
        b == grid_fits(*monitor, *config),
{
    let gap: i32 = to_grid_gap(config.hint_grid_gap);
    if gap == -1 && (monitor.width == i32::MIN || monitor.height == i32::MIN) {
        return false;
    }
    let cols: i64 = to_cells_along(monitor.width, gap) as i64;
    let rows: i64 = to_cells_along(monitor.height, gap) as i64;
    proof {
        assert(1 <= cols * rows <= 0x4000_0000_0000_0000) by (nonlinear_arith)
            requires
                1 <= cols <= 0x8000_0000,
                1 <= rows <= 0x8000_0000,
        ;
    }
    let total: i64 = cols * rows;
    if total > i32::MAX as i64 {
        return false;
    }
    let n: usize = config.hint_chars.as_str().unicode_len();
    if n == 0 {
        return true;
    }
    let mut count: i64 = total;
    proof {
        assert(n >= 0x1_0000 ==> n * n >= 0x1_0000_0000) by (nonlinear_arith);
        assert(n < 0x1_0000 ==> 0 <= n * n < 0x1_0000_0000) by (nonlinear_arith)
            requires
                n >= 0,
        ;
    }
    if n < 0x1_0000 {
        let c: i64 = n as i64;
        if c + c * c < total {
            count = c + c * c;
        }
    }
    assert(count == grid_count(*monitor, *config));
    let last_col: i64 = if count < cols {
        count - 1
    } else {
        cols - 1
    };
    proof {
        vstd::arithmetic::div_mod::lemma_div_nonincreasing(count - 1, cols as int);
        vstd::arithmetic::div_mod::lemma_div_pos_is_pos(count - 1, cols as int);
    }
    let last_row: i64 = (count - 1) / cols;
    let box_w: i32 = to_box_width(config.hint_font_size);
    let box_h: i32 = to_box_height(config.hint_font_size);
    is_cell_fitting(0, gap, box_w) && is_cell_fitting(last_col as i32, gap, box_w)
        && is_cell_fitting(0, gap, box_h) && is_cell_fitting(last_row as i32, gap, box_h)
}

proof fn lemma_cell_fits(k: int, last: int, gap: int, size: int)
    requires
        0 <= k <= last,
        cell_fits(0, gap, size),
        cell_fits(last, gap, size),
    ensures
        cell_fits(k, gap, size),
{
    assert((0 <= k * gap <= last * gap) || (last * gap <= k * gap <= 0)) by (nonlinear_arith)
        requires
            0 <= k <= last,
    ;
}

/// Each of the first `count` cells can be placed.
pub proof fn lemma_cells_fit(i: int, count: int, cols: int, gap: int, w: int, h: int)
    requires
        0 <= i < count,
        cols >= 1,
        cells_fit(count, cols, gap, w, h),
    ensures
        cell_fits(i % cols, gap, w),
        cell_fits(i / cols, gap, h),
{
    vstd::arithmetic::div_mod::lemma_fundamental_div_mod(i, cols);
    vstd::arithmetic::div_mod::lemma_mod_bound(i, cols);
    vstd::arithmetic::div_mod::lemma_mod_decreases(i as nat, cols as nat);
    vstd::arithmetic::div_mod::lemma_div_pos_is_pos(i, cols);
    vstd::arithmetic::div_mod::lemma_div_is_ordered(i, count - 1, cols);
    let last = (if count < cols {
        count
    } else {
        cols
    }) - 1;
    lemma_cell_fits(i % cols, last, gap, w);
    lemma_cell_fits(i / cols, (count - 1) / cols, gap, h);
}

/// The corner of the box of cell `k`, along one side.
fn to_box_start(k: i32, gap: i32, size: i32) -> (r: i32)
    requires
        k >= 0,
        cell_fits(k as int, gap as int, size as int),
    ensures
        r == box_start(k as int, gap as int, size as int),
{
    k * gap + quotient_i32(gap, 2) - quotient_i32(size, 2)
}

/// The grid of hints that covers the monitor, one in the middle of each cell,
/// row by row, as far as there are labels.
pub fn generate_hints(monitor: &Monitor, config: &Config) -> (hints: Vec<Hint>)
    requires
        config.wf(),
        grid_fits(*monitor, *config),
    ensures
        are_grid_hints(hints@, *monitor, *config),
{
    let gap: i32 = to_grid_gap(config.hint_grid_gap);
    let cols: i32 = to_cells_along(monitor.width, gap);
    let rows: i32 = to_cells_along(monitor.height, gap);
    proof {
        assert(1 <= cols * rows) by (nonlinear_arith)
            requires
                cols >= 1,
                rows >= 1,
        ;
    }
    let total: usize = (cols * rows) as usize;
    let labels: Vec<String> = generate_labels(config.hint_chars.as_str(), total);
    let box_w: i32 = to_box_width(config.hint_font_size);
    let box_h: i32 = to_box_height(config.hint_font_size);
    let mut hints: Vec<Hint> = Vec::new();
    let mut row: i32 = 0;
    while row < rows && hints.len() < labels.len()
        invariant
            0 <= row <= rows,
            cols >= 1,
            total == cols * rows,
            total <= i32::MAX,
            labels.len() <= total,
            labels.len() == label_count(config.hint_chars@.len(), total as nat),
            forall|i: int|
                0 <= i < labels.len() ==> (#[trigger] labels[i])@ == label(
                    config.hint_chars@,
                    i,
                ),
            gap == grid_gap(config.hint_grid_gap),
            box_w == box_width(config.hint_font_size),
            box_h == box_height(config.hint_font_size),
            cells_fit(
                labels.len() as int,
                cols as int,
                gap as int,
                box_w as int,
                box_h as int,
            ),
            hints.len() == row * cols || hints.len() == labels.len(),
            hints.len() <= labels.len(),
            row * cols <= cols * rows,
            forall|i: int|
                0 <= i < hints.len() ==> (#[trigger] hints[i])@ == grid_hint(
                    i,
                    cols as int,
                    *config,
                ),
        decreases rows - row,
    {
        proof {
            assert(row * cols + cols <= cols * rows) by (nonlinear_arith)
                requires
                    row + 1 <= rows,
                    cols >= 1,
            ;
            assert(0 <= row * cols) by (nonlinear_arith)
                requires
                    row >= 0,
                    cols >= 1,
            ;
            assert((row + 1) * cols == row * cols + cols) by (nonlinear_arith);
        }
        let mut col: i32 = 0;
        while col < cols && hints.len() < labels.len()
            invariant
                0 <= col <= cols,
                0 <= row < rows,
                total <= i32::MAX,
                labels.len() <= total,
                row * cols + cols <= total,
                forall|i: int|
                    0 <= i < labels.len() ==> (#[trigger] labels[i])@ == label(
                        config.hint_chars@,
                        i,
                    ),
                gap == grid_gap(config.hint_grid_gap),
                box_w == box_width(config.hint_font_size),
                box_h == box_height(config.hint_font_size),
                cells_fit(
                    labels.len() as int,
                    cols as int,
                    gap as int,
                    box_w as int,
                    box_h as int,
                ),
                hints.len() == row * cols + col,
                hints.len() <= labels.len(),
                forall|i: int|
                    0 <= i < hints.len() ==> (#[trigger] hints[i])@ == grid_hint(
                        i,
                        cols as int,
                        *config,
                    ),
            decreases cols - col,
        {
            proof {
                vstd::arithmetic::div_mod::lemma_fundamental_div_mod_converse(
                    row * cols + col,
                    cols as int,
                    row as int,
                    col as int,
                );
                lemma_cells_fit(
                    row * cols + col,
                    labels.len() as int,
                    cols as int,
                    gap as int,
                    box_w as int,
                    box_h as int,
                );
            }
            let idx: usize = hints.len();
            hints.push(
                Hint {
                    x: to_box_start(col, gap, box_w),
                    y: to_box_start(row, gap, box_h),
                    w: box_w,
                    h: box_h,
                    label: labels[idx].clone(),
                },
            );
            col = col + 1;
        }
        row = row + 1;
    }
    proof {
        assert(rows * cols == cols * rows) by (nonlinear_arith);
    }
    hints
}

/// Where a box begins, along one side, to be centred on an area.
pub open spec fn centred_start(start: i32, length: i32, size: int) -> int {
    clamp(
        start + div_toward_zero(length as int, 2) - div_toward_zero(size, 2),
        i32::MIN as int,
        i32::MAX as int,
    )
}

/// The hint with number `i`, centred on an area.
pub open spec fn area_hint(area: TargetArea, i: int, config: Config) -> HintView {
    let w = box_width(config.hint_font_size);
    let h = box_height(config.hint_font_size);
    HintView {
        x: centred_start(area.x, area.w, w) as i32,
        y: centred_start(area.y, area.h, h) as i32,
        w: w as i32,
        h: h as i32,
        label: label(config.hint_chars@, i),
    }
}

fn to_centred_start(start: i32, length: i32, size: i32) -> (r: i32)
    ensures
        r == centred_start(start, length, size as int),
{
    let v: i64 = start as i64 + quotient_i32(length, 2) as i64 - quotient_i32(size, 2) as i64;
    if v < i32::MIN as i64 {
        i32::MIN
    } else if v > i32::MAX as i64 {
        i32::MAX
    } else {
        v as i32
    }
}

/// A hint on each area, in order, as far as there are labels.
pub fn generate_hints_from_areas(config: &Config, areas: &Vec<TargetArea>) -> (hints: Vec<Hint>)
    requires
        config.wf(),
    ensures
        areas.len() == 0 ==> hints.len() == 0,
        areas.len() > 0 ==> hints.len() == label_count(config.hint_chars@.len(), areas@.len()),
        hints.len() <= areas.len(),
        forall|i: int|
            0 <= i < hints.len() ==> (#[trigger] hints[i])@ == area_hint(areas[i], i, *config),
{
    let mut hints: Vec<Hint> = Vec::new();
    if areas.len() == 0 {
        return hints;
    }
    let labels: Vec<String> = generate_labels(config.hint_chars.as_str(), areas.len());
    let box_w: i32 = to_box_width(config.hint_font_size);
    let box_h: i32 = to_box_height(config.hint_font_size);
    let mut i: usize = 0;
    while i < labels.len()
        invariant
            i <= labels.len() <= areas.len(),
            hints.len() == i,
            box_w == box_width(config.hint_font_size),
            box_h == box_height(config.hint_font_size),
            forall|k: int|
                0 <= k < labels.len() ==> (#[trigger] labels[k])@ == label(
                    config.hint_chars@,
                    k,
                ),
            forall|k: int|
                0 <= k < hints.len() ==> (#[trigger] hints[k])@ == area_hint(
                    areas[k],
                    k,
                    *config,
                ),
        decreases labels.len() - i,
    {
        let area: TargetArea = areas[i];
        hints.push(
            Hint {
                x: to_centred_start(area.x, area.w, box_w),
                y: to_centred_start(area.y, area.h, box_h),
                w: box_w,
                h: box_h,
                label: labels[i].clone(),
            },
        );
        i = i + 1;
    }
    hints
}

// ---------------------------------------------------------------------------
// Drawing
// ---------------------------------------------------------------------------

/// A label to draw, in the box of the hint with the given index: first the part
/// that was typed, dimmed, and then the rest.
pub struct DrawnLabel {
    pub index: usize,
    pub dimmed: String,
    pub bright: String,
}

pub struct DrawnLabelView {
    pub index: int,
    pub dimmed: Seq<char>,
    pub bright: Seq<char>,
}

impl View for DrawnLabel {
    type V = DrawnLabelView;

    open spec fn view(&self) -> DrawnLabelView {
        DrawnLabelView { index: self.index as int, dimmed: self.dimmed@, bright: self.bright@ }
    }
}

pub open spec fn drawn_views(labels: Seq<DrawnLabel>) -> Seq<DrawnLabelView> {
    Seq::new(labels.len(), |i: int| labels[i]@)
}

/// The labels to draw for the first `k` hints: those that begin with what was
/// typed.
pub open spec fn drawn_labels(hints: Seq<Hint>, typed: Seq<char>, k: nat) -> Seq<DrawnLabelView>
    decreases k,
{
    if k == 0 {
        Seq::empty()
    } else {
        let before = drawn_labels(hints, typed, (k - 1) as nat);
        let text = hints[k - 1].label@;
        if typed.is_prefix_of(text) {
            before.push(
                DrawnLabelView {
                    index: k - 1,
                    dimmed: typed,
                    bright: text.skip(typed.len() as int),
                },
            )
        } else {
            before
        }
    }
}

/// The labels to draw once `typed` was typed.
pub fn draw_hints(hints: &Vec<Hint>, typed: &str) -> (labels: Vec<DrawnLabel>)
    ensures
        drawn_views(labels@) == drawn_labels(hints@, typed@, hints@.len()),
{
    let mut labels: Vec<DrawnLabel> = Vec::new();
    let n: usize = typed.unicode_len();
    let mut i: usize = 0;
    assert(drawn_views(labels@) =~= Seq::empty());
    while i < hints.len()
        invariant
            i <= hints.len(),
            n == typed@.len(),
            drawn_views(labels@) == drawn_labels(hints@, typed@, i as nat),
        decreases hints.len() - i,
    {
        let text: &str = hints[i].label.as_str();
        if starts_with(text, typed) {
            let v: Vec<char> = chars_of(text);
            let bright: String = string_of(&v, n, v.len());
            assert(bright@ =~= text@.skip(n as int));
            let ghost before = labels@;
            labels.push(DrawnLabel { index: i, dimmed: typed.to_owned(), bright });
            assert(drawn_views(labels@) =~= drawn_views(before).push(labels@.last()@));
        }
        i = i + 1;
    }
    labels
}

// ---------------------------------------------------------------------------
// Input handling
// ---------------------------------------------------------------------------

/// The letter that a keysym stands for, in lower case.
pub open spec fn letter(sym: u32) -> Option<char> {
    if 0x61 <= sym <= 0x7a {
        Some(sym as u8 as char)
    } else if 0x41 <= sym <= 0x5a {
        Some((sym + 32) as u8 as char)
    } else {
        None
    }
}

/// The letter that a keysym stands for, in lower case.
pub fn keysym_to_char(sym: u32) -> (c: Option<char>)
    ensures
        c == letter(sym),
{
    if 0x61 <= sym && sym <= 0x7a {
        return Some(sym as u8 as char);
    }
    if 0x41 <= sym && sym <= 0x5a {
        return Some((sym + 32) as u8 as char);
    }
    None
}

/// The hints whose labels begin with what was typed, in order.
pub open spec fn matching(hints: Seq<Hint>, typed: Seq<char>) -> Seq<Hint>
    decreases hints.len(),
{
    if hints.len() == 0 {
        Seq::empty()
    } else if typed.is_prefix_of(hints.last().label@) {
        matching(hints.drop_last(), typed).push(hints.last())
    } else {
        matching(hints.drop_last(), typed)
    }
}

/// The centre of a hint's box, along one side.
pub open spec fn centre_of(start: i32, length: i32) -> int {
    start * UNIT + length * HALF
}

/// What was typed, and what the mode makes of it, after a key event.
pub open spec fn after_key(event: KeyEvent, hints: Seq<Hint>, typed: Seq<char>) -> (
    Seq<char>,
    HintResult,
) {
    if event.state != KeyState::Pressed {
        (typed, HintResult::Continue)
    } else if event.sym == keysyms::ESCAPE {
        (typed, HintResult::Cancel)
    } else if event.sym == keysyms::BACKSPACE {
        (
            if typed.len() == 0 {
                typed
            } else {
                typed.drop_last()
            },
            HintResult::Continue,
        )
    } else {
        match letter(event.sym) {
            None => (typed, HintResult::Continue),
            Some(c) => {
                let longer = typed.push(c);
                let found = matching(hints, longer);
                if found.len() == 0 {
                    (typed, HintResult::Continue)
                } else if found.len() == 1 {
                    (
                        longer,
                        HintResult::Selected {
                            x: centre_of(found[0].x, found[0].w) as Coord,
                            y: centre_of(found[0].y, found[0].h) as Coord,
                        },
                    )
                } else {
                    (longer, HintResult::Continue)
                }
            },
        }
    }
}

fn to_centre_of(start: i32, length: i32) -> (c: Coord)
    ensures
        c == centre_of(start, length),
{
    px(start) + length as i128 * HALF
}

/// Takes in a key event of hint mode. A letter is added to what was typed
/// unless no label begins with the result; Backspace takes the last one back.
/// The result is a selection as soon as a single hint remains.
pub fn process_key(event: &KeyEvent, hints: &Vec<Hint>, typed: &mut String) -> (r: HintResult)
    ensures
        (final(typed)@, r) == after_key(*event, hints@, old(typed)@),
{
    if event.state != KeyState::Pressed {
        return HintResult::Continue;
    }
    if event.sym == keysyms::ESCAPE {
        return HintResult::Cancel;
    }
    if event.sym == keysyms::BACKSPACE {
        typed.pop();
        return HintResult::Continue;
    }
    let c: char = match keysym_to_char(event.sym) {
        Some(c) => c,
        None => {
            return HintResult::Continue;
        },
    };
    typed.push(c);
    let ghost longer = typed@;
    let mut count: usize = 0;
    let mut first: usize = 0;
    let mut i: usize = 0;
    while i < hints.len()
        invariant
            i <= hints.len(),
            count <= i,
            typed@ == longer,
            count == matching(hints@.take(i as int), longer).len(),
            count > 0 ==> first < i && hints@[first as int] == matching(
                hints@.take(i as int),
                longer,
            )[0],
        decreases hints.len() - i,
    {
        assert(hints@.take(i + 1).drop_last() =~= hints@.take(i as int));
        if starts_with(hints[i].label.as_str(), typed.as_str()) {
            if count == 0 {
                first = i;
            }
            count = count + 1;
        }
        i = i + 1;
    }
    assert(hints@.take(i as int) =~= hints@);
    if count == 0 {
        typed.pop();
        assert(typed@ =~= old(typed)@);
        HintResult::Continue
    } else if count == 1 {
        let h: &Hint = &hints[first];
        HintResult::Selected { x: to_centre_of(h.x, h.w), y: to_centre_of(h.y, h.h) }
    } else {
        HintResult::Continue
    }
}

// ---------------------------------------------------------------------------
// What typing guarantees
// ---------------------------------------------------------------------------

/// Whether what was typed begins some label, or nothing was typed.
pub open spec fn typed_valid(hints: Seq<Hint>, typed: Seq<char>) -> bool {
    typed.len() == 0 || matching(hints, typed).len() > 0
}

/// The hints that match are hints whose labels begin with what was typed.
pub proof fn lemma_matching(hints: Seq<Hint>, typed: Seq<char>)
    ensures
        matching(hints, typed).len() <= hints.len(),
        forall|i: int|
            0 <= i < matching(hints, typed).len() ==> typed.is_prefix_of(
                (#[trigger] matching(hints, typed)[i]).label@,
            ) && hints.contains(matching(hints, typed)[i]),
        forall|i: int|
            0 <= i < hints.len() && typed.is_prefix_of((#[trigger] hints[i]).label@)
                ==> matching(hints, typed).contains(hints[i]),
    decreases hints.len(),
{
    if hints.len() > 0 {
        let init = hints.drop_last();
        lemma_matching(init, typed);
        let found = matching(hints, typed);
        let before = matching(init, typed);
        assert forall|i: int| 0 <= i < found.len() implies typed.is_prefix_of(
            (#[trigger] found[i]).label@,
        ) && hints.contains(found[i]) by {
            if i < before.len() {
                assert(found[i] == before[i]);
                let k = choose|k: int| 0 <= k < init.len() && init[k] == before[i];
                assert(hints[k] == found[i]);
            } else {
                assert(hints[hints.len() - 1] == found[i]);
            }
        }
        assert forall|i: int|
            0 <= i < hints.len() && typed.is_prefix_of(
                (#[trigger] hints[i]).label@,
            ) implies found.contains(hints[i]) by {
            if i < init.len() {
                assert(init[i] == hints[i]);
                assert(before.contains(init[i]));
                let k = choose|k: int| 0 <= k < before.len() && before[k] == init[i];
                assert(found[k] == hints[i]);
            } else {
                assert(found[found.len() - 1] == hints[i]);
            }
        }
    }
}

/// Typing only narrows the choice: the hints that match a longer text match
/// every text that it begins with.
pub proof fn law_typing_narrows(hints: Seq<Hint>, shorter: Seq<char>, longer: Seq<char>)
    requires
        shorter.is_prefix_of(longer),
    ensures
        matching(hints, longer).len() <= matching(hints, shorter).len(),
        forall|i: int|
            0 <= i < matching(hints, longer).len() ==> matching(hints, shorter).contains(
                #[trigger] matching(hints, longer)[i],
            ),
    decreases hints.len(),
{
    if hints.len() > 0 {
        let last = hints.last();
        law_typing_narrows(hints.drop_last(), shorter, longer);
        if longer.is_prefix_of(last.label@) {
            assert(shorter =~= last.label@.subrange(0, shorter.len() as int)) by {
                assert forall|k: int| 0 <= k < shorter.len() implies shorter[k]
                    == last.label@[k] by {
                    assert(longer[k] == longer.subrange(0, shorter.len() as int)[k]);
                    assert(longer[k] == last.label@.subrange(0, longer.len() as int)[k]);
                }
            }
        }
        let few = matching(hints, longer);
        let many = matching(hints, shorter);
        let few0 = matching(hints.drop_last(), longer);
        let many0 = matching(hints.drop_last(), shorter);
        assert forall|i: int| 0 <= i < few.len() implies many.contains(#[trigger] few[i]) by {
            if i < few0.len() {
                assert(many0.contains(few0[i]));
                let k = choose|k: int| 0 <= k < many0.len() && many0[k] == few0[i];
                assert(many[k] == few[i]);
            } else {
                assert(many[many.len() - 1] == few[i]);
            }
        }
    }
}

/// Whatever key comes, what was typed goes on beginning some label.
pub proof fn law_typed_stays_valid(event: KeyEvent, hints: Seq<Hint>, typed: Seq<char>)
    requires
        typed_valid(hints, typed),
    ensures
        typed_valid(hints, after_key(event, hints, typed).0),
{
    let next = after_key(event, hints, typed).0;
    if typed.len() > 0 && next == typed.drop_last() && next.len() > 0 {
        assert(next =~= typed.subrange(0, next.len() as int));
        law_typing_narrows(hints, next, typed);
    }
}

/// Backspace undoes a letter: after a letter that was taken, it brings back what
/// was typed before.
pub proof fn law_backspace_undoes(
    key: KeyEvent,
    backspace: KeyEvent,
    hints: Seq<Hint>,
    typed: Seq<char>,
)
    requires
        backspace.state == KeyState::Pressed,
        backspace.sym == keysyms::BACKSPACE,
        after_key(key, hints, typed).0.len() > typed.len(),
    ensures
        after_key(backspace, hints, after_key(key, hints, typed).0) == (
            typed,
            HintResult::Continue,
        ),
{
    let longer = after_key(key, hints, typed).0;
    assert(longer.drop_last() =~= typed);
}

/// The centre of a hint is within `i32` pixels and a half more.
pub proof fn lemma_selection_bounded(event: KeyEvent, hints: Seq<Hint>, typed: Seq<char>)
    ensures
        after_key(event, hints, typed).1 matches HintResult::Selected { x, y } ==> {
            &&& -0x1_0000_0000 * UNIT <= x <= 0x1_0000_0000 * UNIT
            &&& -0x1_0000_0000 * UNIT <= y <= 0x1_0000_0000 * UNIT
        },
{
}

/// A selection is of some hint.
pub proof fn lemma_selected_hint(event: KeyEvent, hints: Seq<Hint>, typed: Seq<char>) -> (i: int)
    requires
        after_key(event, hints, typed).1 is Selected,
    ensures
        0 <= i < hints.len(),
        after_key(event, hints, typed).1 == selected(hints[i]),
{
    let longer = after_key(event, hints, typed).0;
    lemma_matching(hints, longer);
    let found = matching(hints, longer);
    assert(hints.contains(found[0]));
    choose|i: int| 0 <= i < hints.len() && hints[i] == found[0]
}

/// A selection is always of the only hint that matches, and at its centre.
pub proof fn law_selection_is_unique(event: KeyEvent, hints: Seq<Hint>, typed: Seq<char>, k: int)
    requires
        after_key(event, hints, typed).1 is Selected,
        0 <= k < hints.len(),
        after_key(event, hints, typed).0.is_prefix_of(hints[k].label@),
    ensures
        matching(hints, after_key(event, hints, typed).0) == seq![hints[k]],
        after_key(event, hints, typed).1 == (HintResult::Selected {
            x: centre_of(hints[k].x, hints[k].w) as Coord,
            y: centre_of(hints[k].y, hints[k].h) as Coord,
        }),
{
    let longer = after_key(event, hints, typed).0;
    lemma_matching(hints, longer);
    let found = matching(hints, longer);
    assert(found.contains(hints[k]));
    assert(found =~= seq![hints[k]]);
}

/// Whether the hints carry the labels made of `chars`, in order.
pub open spec fn labelled(hints: Seq<Hint>, chars: Seq<char>) -> bool {
    &&& hints.len() <= chars.len() + chars.len() * chars.len()
    &&& forall|i: int| 0 <= i < hints.len() ==> (#[trigger] hints[i]).label@ == label(chars, i)
}

/// The keys that spell a label: one key press for each character.
pub open spec fn spells(first: KeyEvent, second: KeyEvent, text: Seq<char>) -> bool {
    &&& first.state == KeyState::Pressed
    &&& letter(first.sym) == Some(text[0])
    &&& text.len() == 2 ==> second.state == KeyState::Pressed && letter(second.sym) == Some(
        text[1],
    )
}

pub open spec fn selected(h: Hint) -> HintResult {
    HintResult::Selected {
        x: centre_of(h.x, h.w) as Coord,
        y: centre_of(h.y, h.h) as Coord,
    }
}

/// A single hint whose label begins with what was typed is the only match.
pub proof fn lemma_single_match(hints: Seq<Hint>, typed: Seq<char>, i: int)
    requires
        0 <= i < hints.len(),
        typed.is_prefix_of(hints[i].label@),
        forall|j: int|
            0 <= j < hints.len() && j != i ==> !typed.is_prefix_of((#[trigger] hints[j]).label@),
    ensures
        matching(hints, typed) == seq![hints[i]],
    decreases hints.len(),
{
    let init = hints.drop_last();
    if i < hints.len() - 1 {
        assert(!typed.is_prefix_of(hints[hints.len() - 1].label@));
        assert forall|j: int| 0 <= j < init.len() && j != i implies !typed.is_prefix_of(
            (#[trigger] init[j]).label@,
        ) by {
            assert(init[j] == hints[j]);
        }
        lemma_single_match(init, typed, i);
    } else {
        lemma_no_match(init, typed);
        assert(matching(hints, typed) =~= seq![hints[i]]);
    }
}

/// Where no label begins with what was typed, nothing matches.
pub proof fn lemma_no_match(hints: Seq<Hint>, typed: Seq<char>)
    requires
        forall|j: int|
            0 <= j < hints.len() ==> !typed.is_prefix_of((#[trigger] hints[j]).label@),
    ensures
        matching(hints, typed) == Seq::<Hint>::empty(),
    decreases hints.len(),
{
    if hints.len() > 0 {
        assert(!typed.is_prefix_of(hints[hints.len() - 1].label@));
        assert forall|j: int| 0 <= j < hints.drop_last().len() implies !typed.is_prefix_of(
            (#[trigger] hints.drop_last()[j]).label@,
        ) by {
            assert(hints.drop_last()[j] == hints[j]);
        }
        lemma_no_match(hints.drop_last(), typed);
    }
}

/// Where the single character with number `i` begins the label with number `j`.
proof fn lemma_begins(chars: Seq<char>, i: int, j: int)
    requires
        distinct(chars),
        0 <= i < chars.len(),
        0 <= j < chars.len() + chars.len() * chars.len(),
    ensures
        seq![chars[i]].is_prefix_of(label(chars, j)) <==> j == i || (chars.len() + i
            * chars.len() <= j < chars.len() + (i + 1) * chars.len()),
{
    let n = chars.len() as int;
    let one = seq![chars[i]];
    let text = label(chars, j);
    assert(one.is_prefix_of(text) <==> text[0] == chars[i]) by {
        if text[0] == chars[i] {
            assert(one =~= text.subrange(0, 1));
        }
        if one.is_prefix_of(text) {
            assert(one[0] == text.subrange(0, 1)[0]);
        }
    }
    if j < n {
        if i < j {
            assert(chars[i] != chars[j]);
        } else if j < i {
            assert(chars[j] != chars[i]);
        }
        assert(n + i * n > j) by (nonlinear_arith)
            requires
                0 <= j < n,
                i >= 0,
        ;
    } else {
        lemma_pair_of(n, j);
        let a = (j - n) / n;
        let b = (j - n) % n;
        assert(a == i <==> n + i * n <= j < n + (i + 1) * n) by (nonlinear_arith)
            requires
                j - n == a * n + b,
                0 <= b < n,
        ;
        if a < i {
            assert(chars[a] != chars[i]);
        } else if i < a {
            assert(chars[i] != chars[a]);
        }
    }
}

/// Typing a label selects its hint. A single character does so unless it also
/// begins a longer label that is in use; then it selects nothing.
pub proof fn law_typing_label_selects(
    hints: Seq<Hint>,
    chars: Seq<char>,
    i: int,
    first: KeyEvent,
    second: KeyEvent,
)
    requires
        distinct(chars),
        labelled(hints, chars),
        0 <= i < hints.len(),
        spells(first, second, label(chars, i)),
    ensures
        ({
            let n = chars.len();
            let start = Seq::<char>::empty();
            let (typed, result) = after_key(first, hints, start);
            if i < n && hints.len() <= n + i * n {
                result == selected(hints[i])
            } else if i < n {
                result is Continue
            } else {
                &&& result is Continue
                &&& after_key(second, hints, typed).1 == selected(hints[i])
            }
        }),
{
    let n = chars.len() as int;
    let start = Seq::<char>::empty();
    let text = label(chars, i);
    if i >= n {
        lemma_pair_of(n, i);
    }
    let a = if i < n {
        i
    } else {
        (i - n) / n
    };
    let one = seq![chars[a]];
    assert(start.push(text[0]) =~= one);
    lemma_matching(hints, one);
    assert forall|j: int| 0 <= j < hints.len() implies (one.is_prefix_of(
        (#[trigger] hints[j]).label@,
    ) <==> j == a || (n + a * n <= j < n + (a + 1) * n)) by {
        lemma_begins(chars, a, j);
    }
    assert((a + 1) * n == a * n + n) by (nonlinear_arith);
    if i < n && hints.len() <= n + i * n {
        lemma_single_match(hints, one, i);
    } else {
        let other = if i < n {
            n + i * n
        } else {
            i
        };
        assert(0 <= a < hints.len() && 0 <= other < hints.len() && other != a) by {
            assert(a * n >= 0) by (nonlinear_arith)
                requires
                    a >= 0,
                    n >= 0,
            ;
        }
        let found = matching(hints, one);
        assert(one.is_prefix_of(hints[a].label@));
        assert(one.is_prefix_of(hints[other].label@));
        assert(found.contains(hints[a]) && found.contains(hints[other]));
        assert(hints[a].label@ != hints[other].label@) by {
            law_labels_distinct(chars, a, other);
        }
        assert(found.len() >= 2) by {
            let p = choose|p: int| 0 <= p < found.len() && found[p] == hints[a];
            let q = choose|q: int| 0 <= q < found.len() && found[q] == hints[other];
            assert(p != q);
        }
        if i >= n {
            assert(one.push(text[1]) =~= text);
            assert forall|j: int| 0 <= j < hints.len() && j != i implies !text.is_prefix_of(
                (#[trigger] hints[j]).label@,
            ) by {
                if text.is_prefix_of(hints[j].label@) {
                    assert(text =~= hints[j].label@);
                    if i < j {
                        law_labels_distinct(chars, i, j);
                    } else {
                        law_labels_distinct(chars, j, i);
                    }
                }
            }
            assert(text.is_prefix_of(hints[i].label@)) by {
                assert(text =~= text.subrange(0, text.len() as int));
            }
            lemma_single_match(hints, text, i);
        }
    }
}

/// Selecting the hint of an area warps to a point of the area, at most half a
/// pixel from its centre each way, where the hint's box can be placed within `i32`.
pub proof fn law_area_hint_on_area(area: TargetArea, config: Config, h: Hint, i: int)
    requires
        area.w > 0,
        area.h > 0,
        config.hint_font_size@ >= 0,
        in_i32(
            area.x + div_toward_zero(area.w as int, 2) - div_toward_zero(
                box_width(config.hint_font_size),
                2,
            ),
        ),
        in_i32(
            area.y + div_toward_zero(area.h as int, 2) - div_toward_zero(
                box_height(config.hint_font_size),
                2,
            ),
        ),
        h@ == area_hint(area, i, config),
    ensures
        area.x * UNIT <= centre_of(h.x, h.w) < (area.x + area.w) * UNIT,
        area.y * UNIT <= centre_of(h.y, h.h) < (area.y + area.h) * UNIT,
        abs(2 * centre_of(h.x, h.w) - (2 * area.x + area.w) * UNIT) <= UNIT,
        abs(2 * centre_of(h.y, h.h) - (2 * area.y + area.h) * UNIT) <= UNIT,
{
    let font = config.hint_font_size;
    lemma_box_positive(font);
    lemma_centred(area.x as int, area.w as int, box_width(font));
    lemma_centred(area.y as int, area.h as int, box_height(font));
}

proof fn lemma_box_positive(font: Double)
    requires
        font@ >= 0,
    ensures
        box_width(font) >= 0,
        box_height(font) >= 0,
{
    lemma_bits_sign(five_halves());
    lemma_bits_sign(nine_fifths());
    lemma_multiple_positive(font@, five_halves()@);
    lemma_multiple_positive(font@, nine_fifths()@);
}

proof fn lemma_multiple_positive(v: int, factor: int)
    requires
        v >= 0,
        factor >= 0,
    ensures
        font_multiple(v, factor) >= 0,
{
    lemma_pow2_pos(ONE_SHIFT as nat);
    assert(v * factor >= 0) by (nonlinear_arith)
        requires
            v >= 0,
            factor >= 0,
    ;
    lemma_double_positive(v * factor, one());
    vstd::arithmetic::div_mod::lemma_div_pos_is_pos(double(v * factor, one()), one());
}

proof fn lemma_centred(start: int, length: int, size: int)
    requires
        length > 0,
        size >= 0,
    ensures
        ({
            let at = start + div_toward_zero(length, 2) - div_toward_zero(size, 2);
            let centre = at * UNIT + size * HALF;
            &&& start * UNIT <= centre < (start + length) * UNIT
            &&& abs(2 * centre - (2 * start + length) * UNIT) <= UNIT
        }),
{
    let (a, b) = (length / 2, size / 2);
    assert(div_toward_zero(length, 2) == a && div_toward_zero(size, 2) == b);
    assert(length == 2 * a || length == 2 * a + 1);
    assert(size == 2 * b || size == 2 * b + 1);
}

/// The grid of hints depends on the monitor's size alone, wherever it is, and
/// every gap up to 20 pixels acts as 20.
pub proof fn law_grid_hints_relative(
    m1: Monitor,
    m2: Monitor,
    c1: Config,
    c2: Config,
    h1: Seq<Hint>,
    h2: Seq<Hint>,
)
    requires
        m1.width == m2.width,
        m1.height == m2.height,
        c2 == (Config { hint_grid_gap: c2.hint_grid_gap, ..c1 }),
        c1.hint_grid_gap == c2.hint_grid_gap || (c1.hint_grid_gap <= 20 && c2.hint_grid_gap <= 20),
        are_grid_hints(h1, m1, c1),
        are_grid_hints(h2, m2, c2),
    ensures
        grid_fits(m1, c1) == grid_fits(m2, c2),
        h1.len() == h2.len(),
        forall|i: int| 0 <= i < h1.len() ==> (#[trigger] h1[i])@ == h2[i]@,
{
    assert forall|i: int| 0 <= i < h1.len() implies (#[trigger] h1[i])@ == h2[i]@ by {
        let cols = cells_along(m1.width, grid_gap(c1.hint_grid_gap));
        assert(h2[i]@ == grid_hint(i, cols, c2));
    }
}

/// Selecting a hint of the grid warps to a point on the monitor, where the
/// monitor is as large as a cell.
pub proof fn law_grid_hints_on_monitor(monitor: Monitor, config: Config, h: Hint, i: int)
    requires
        config.hint_grid_gap <= i32::MAX,
        monitor.width >= grid_gap(config.hint_grid_gap),
        monitor.height >= grid_gap(config.hint_grid_gap),
        grid_fits(monitor, config),
        0 <= i < grid_count(monitor, config),
        h@ == grid_hint(
            i,
            cells_along(monitor.width, grid_gap(config.hint_grid_gap)),
            config,
        ),
        config.hint_font_size@ >= 0,
    ensures
        0 <= centre_of(h.x, h.w) < monitor.width * UNIT,
        0 <= centre_of(h.y, h.h) < monitor.height * UNIT,
{
    let gap = grid_gap(config.hint_grid_gap);
    let cols = cells_along(monitor.width, gap);
    let rows = cells_along(monitor.height, gap);
    let w = box_width(config.hint_font_size);
    let hh = box_height(config.hint_font_size);
    assert(cols * rows >= 1) by (nonlinear_arith)
        requires
            cols >= 1,
            rows >= 1,
    ;
    vstd::arithmetic::div_mod::lemma_fundamental_div_mod(i, cols);
    assert(0 <= i / cols < rows) by (nonlinear_arith)
        requires
            0 <= i < cols * rows,
            cols >= 1,
    ;
    lemma_cells_fit(i, grid_count(monitor, config) as int, cols, gap, w, hh);
    vstd::arithmetic::div_mod::lemma_div_by_self(gap);
    vstd::arithmetic::div_mod::lemma_div_is_ordered(gap, monitor.width as int, gap);
    vstd::arithmetic::div_mod::lemma_div_is_ordered(gap, monitor.height as int, gap);
    lemma_cell_centre(monitor.width as int, gap, i % cols);
    lemma_cell_centre(monitor.height as int, gap, i / cols);
    lemma_box_positive(config.hint_font_size);
}

/// The middle of a cell lies on the monitor, and some way from its far edge.
proof fn lemma_cell_centre(length: int, gap: int, k: int)
    requires
        20 <= gap <= length,
        0 <= k < length / gap,
    ensures
        0 <= k * gap + gap / 2 <= length - 10,
{
    vstd::arithmetic::div_mod::lemma_fundamental_div_mod(length, gap);
    assert(k * gap <= (length / gap - 1) * gap) by (nonlinear_arith)
        requires
            k <= length / gap - 1,
            gap > 0,
    ;
    assert((length / gap - 1) * gap == gap * (length / gap) - gap) by (nonlinear_arith);
    assert(0 <= k * gap) by (nonlinear_arith)
        requires
            k >= 0,
            gap > 0,
    ;
}

} // verus!
