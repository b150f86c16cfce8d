//! Grid mode's selection: a part of the screen, narrowed quadrant by quadrant.

use crate::double::{double, lemma_double_exact, lemma_double_scaled, BITS53};
use crate::fixed::abs;
use crate::number::{
    halved, infinite, lemma_half, lemma_sum_near, one, quarters, sum, whole as whole_number,
    Double, ONE_SHIFT,
};
use crate::wayland::Monitor;
use vstd::arithmetic::power2::{
    lemma2_to64, lemma2_to64_rest, lemma_pow2_adds, lemma_pow2_pos, lemma_pow2_strictly_increases,
    lemma_pow2_unfold, pow2,
};
use vstd::prelude::*;

verus! {

/// The current grid selection area.
#[derive(Clone, Copy, Debug)]
pub struct GridSelection {
    pub x: Double,
    pub y: Double,
    pub w: Double,
    pub h: Double,
}

/// A selection in numbers, in units of 2^-1074 pixel.
pub struct GridView {
    pub x: int,
    pub y: int,
    pub w: int,
    pub h: int,
}

impl View for GridSelection {
    type V = GridView;

    open spec fn view(&self) -> GridView {
        GridView { x: self.x@, y: self.y@, w: self.w@, h: self.h@ }
    }
}

/// A bound on a selection, so that its edges can be computed: 2^40 pixels.
pub open spec fn selection_limit() -> int {
    pow2(1114) as int
}

/// A length over two.
pub open spec fn half(v: int) -> int {
    double(v, 2)
}

/// The middle of a side, from where it begins and how long it is.
pub open spec fn middle_of(start: int, length: int) -> int {
    double(start + half(length), 1)
}

pub open spec fn is_quadrant(q: char) -> bool {
    q == 'u' || q == 'i' || q == 'j' || q == 'k'
}

impl GridView {
    /// The quadrant `q` of a selection: `u` top-left, `i` top-right, `j`
    /// bottom-left, `k` bottom-right. Any other letter leaves it as it is.
    pub open spec fn quadrant(self, q: char) -> GridView {
        if is_quadrant(q) {
            GridView {
                x: if q == 'i' || q == 'k' {
                    middle_of(self.x, self.w)
                } else {
                    self.x
                },
                y: if q == 'j' || q == 'k' {
                    middle_of(self.y, self.h)
                } else {
                    self.y
                },
                w: half(self.w),
                h: half(self.h),
            }
        } else {
            self
        }
    }

    /// Whether the point lies in the selection.
    pub open spec fn contains(self, x: int, y: int) -> bool {
        self.x <= x < self.x + self.w && self.y <= y < self.y + self.h
    }

    /// Whether the selection is a part of the monitor.
    pub open spec fn inside(self, monitor: Monitor) -> bool {
        &&& 0 <= self.x && 0 <= self.w && self.x + self.w <= monitor.width * one()
        &&& 0 <= self.y && 0 <= self.h && self.y + self.h <= monitor.height * one()
    }

    /// Whether nothing is rounded where the selection is cut in quadrants.
    pub open spec fn splits(self) -> bool {
        &&& 2 * half(self.w) == self.w && middle_of(self.x, self.w) == self.x + half(self.w)
        &&& 2 * half(self.h) == self.h && middle_of(self.y, self.h) == self.y + half(self.h)
    }
}

/// A length added to a position leaves both within bounds, whatever is rounded.
proof fn lemma_side(start: Double, length: Double)
    requires
        start.wf(),
        length.wf(),
        abs(start@) + 4 * abs(length@) <= selection_limit(),
    ensures
        abs(middle_of(start@, length@)) + 4 * abs(half(length@)) <= selection_limit(),
        selection_limit() < infinite(),
{
    lemma_half(length);
    lemma_sum_near(start, half(length@));
    lemma_pow2_strictly_increases(1114, 2098);
}

impl GridSelection {
    pub open spec fn wf(self) -> bool {
        &&& self.x.wf() && self.y.wf() && self.w.wf() && self.h.wf()
        &&& abs(self.x@) + 4 * abs(self.w@) <= selection_limit()
        &&& abs(self.y@) + 4 * abs(self.h@) <= selection_limit()
    }

    /// The whole monitor.
    pub fn new(monitor: &Monitor) -> (s: GridSelection)
        ensures
            s.wf(),
            s@ == whole(*monitor),
    {
        let s: GridSelection = GridSelection {
            x: whole_number(0),
            y: whole_number(0),
            w: whole_number(monitor.width),
            h: whole_number(monitor.height),
        };
        proof {
            assert(0 * one() == 0);
            lemma_pixels(monitor.width as int);
            lemma_pixels(monitor.height as int);
        }
        s
    }

    /// Narrows the selection to a quadrant: `u` top-left, `i` top-right, `j`
    /// bottom-left, `k` bottom-right. Any other letter does nothing.
    pub fn subdivide(&mut self, quadrant: char)
        requires
            old(self).wf(),
        ensures
            final(self).wf(),
            final(self)@ == old(self)@.quadrant(quadrant),
    {
        proof {
            lemma_side(self.x, self.w);
            lemma_side(self.y, self.h);
            lemma_half(self.w);
            lemma_half(self.h);
        }
        let hw: Double = halved(self.w);
        let hh: Double = halved(self.h);
        match quadrant {
            'u' => {},
            'i' => {
                self.x = sum(self.x, hw);
            },
            'j' => {
                self.y = sum(self.y, hh);
            },
            'k' => {
                self.x = sum(self.x, hw);
                self.y = sum(self.y, hh);
            },
            _ => {
                return;
            },
        }
        self.w = hw;
        self.h = hh;
    }

    /// The middle of the selection.
    pub fn centre(&self) -> (c: (Double, Double))
        requires
            self.wf(),
        ensures
            c.0@ == middle_of(self.x@, self.w@),
            c.1@ == middle_of(self.y@, self.h@),
            c.0.wf(),
            c.1.wf(),
            abs(c.0@) <= selection_limit(),
            abs(c.1@) <= selection_limit(),
    {
        proof {
            lemma_side(self.x, self.w);
            lemma_side(self.y, self.h);
        }
        (sum(self.x, halved(self.w)), sum(self.y, halved(self.h)))
    }
}

proof fn lemma_pixels(n: int)
    requires
        i32::MIN <= n <= i32::MAX,
    ensures
        4 * abs(n * one()) <= selection_limit(),
{
    lemma2_to64_rest();
    lemma_pow2_adds(40, 1074);
    lemma_pow2_pos(1074);
    let p = one();
    assert(abs(n * p) == abs(n) * p && 4 * (abs(n) * p) <= 0x100_0000_0000 * p) by (nonlinear_arith)
        requires
            i32::MIN <= n <= i32::MAX,
            p > 0,
    ;
}

// ---------------------------------------------------------------------------
// Drawing
// ---------------------------------------------------------------------------

/// A quadrant's letter and the point that it is drawn around.
#[derive(Clone, Copy, Debug)]
pub struct QuadrantLabel {
    pub letter: char,
    pub x: Double,
    pub y: Double,
}

/// What grid mode draws: a crosshair through the middle of the selection, out to
/// its edges, and a letter in the middle of each quadrant.
pub struct GridDrawing {
    pub left: Double,
    pub top: Double,
    pub right: Double,
    pub bottom: Double,
    pub mid_x: Double,
    pub mid_y: Double,
    pub labels: Vec<QuadrantLabel>,
}

/// The point so many quarters of the way along a side.
pub open spec fn along(start: int, length: int, n: int) -> int {
    double(start + double(n * length, 4), 1)
}

/// The lines and letters that show the selection and its quadrants.
pub fn draw_grid(sel: &GridSelection) -> (d: GridDrawing)
    requires
        sel.wf(),
    ensures
        d.left == sel.x,
        d.top == sel.y,
        d.right@ == double(sel.x@ + sel.w@, 1),
        d.bottom@ == double(sel.y@ + sel.h@, 1),
        d.mid_x@ == middle_of(sel.x@, sel.w@),
        d.mid_y@ == middle_of(sel.y@, sel.h@),
        d.labels.len() == 4,
        d.labels[0].letter == 'u',
        d.labels[1].letter == 'i',
        d.labels[2].letter == 'j',
        d.labels[3].letter == 'k',
        forall|i: int|
            0 <= i < 4 ==> {
                let label = #[trigger] d.labels[i];
                &&& label.x@ == along(sel.x@, sel.w@, if i == 1 || i == 3 {
                    3
                } else {
                    1
                })
                &&& label.y@ == along(sel.y@, sel.h@, if i >= 2 {
                    3
                } else {
                    1
                })
            },
{
    let (mid_x, mid_y): (Double, Double) = sel.centre();
    let x1: Double = sum(sel.x, quarters(sel.w, 1));
    let x3: Double = sum(sel.x, quarters(sel.w, 3));
    let y1: Double = sum(sel.y, quarters(sel.h, 1));
    let y3: Double = sum(sel.y, quarters(sel.h, 3));
    let mut labels: Vec<QuadrantLabel> = Vec::new();
    labels.push(QuadrantLabel { letter: 'u', x: x1, y: y1 });
    labels.push(QuadrantLabel { letter: 'i', x: x3, y: y1 });
    labels.push(QuadrantLabel { letter: 'j', x: x1, y: y3 });
    labels.push(QuadrantLabel { letter: 'k', x: x3, y: y3 });
    GridDrawing {
        left: sel.x,
        top: sel.y,
        right: sum(sel.x, sel.w),
        bottom: sum(sel.y, sel.h),
        mid_x,
        mid_y,
        labels,
    }
}

// ---------------------------------------------------------------------------
// What subdivision guarantees
// ---------------------------------------------------------------------------

/// The quadrants tile a selection that splits without rounding: each of its
/// points lies in exactly one of them, and no other point lies in any.
pub proof fn law_quadrants_tile(sel: GridView, x: int, y: int)
    requires
        sel.splits(),
        sel.w >= 0,
        sel.h >= 0,
    ensures
        forall|q: char|
            is_quadrant(q) && #[trigger] sel.quadrant(q).contains(x, y) ==> sel.contains(x, y),
        forall|p: char, q: char|
            is_quadrant(p) && is_quadrant(q) && #[trigger] sel.quadrant(p).contains(x, y)
                && #[trigger] sel.quadrant(q).contains(x, y) ==> p == q,
        sel.contains(x, y) ==> sel.quadrant('u').contains(x, y) || sel.quadrant('i').contains(x, y)
            || sel.quadrant('j').contains(x, y) || sel.quadrant('k').contains(x, y),
{
}

/// The four quadrants meet at the selection's centre, and each is half as wide
/// and half as high as the selection.
pub proof fn law_quadrants_meet(sel: GridView)
    ensures
        ({
            let (cx, cy) = (middle_of(sel.x, sel.w), middle_of(sel.y, sel.h));
            let (w, h) = (half(sel.w), half(sel.h));
            &&& sel.quadrant('u') == GridView { x: sel.x, y: sel.y, w, h }
            &&& sel.quadrant('i') == GridView { x: cx, y: sel.y, w, h }
            &&& sel.quadrant('j') == GridView { x: sel.x, y: cy, w, h }
            &&& sel.quadrant('k') == GridView { x: cx, y: cy, w, h }
            &&& double(sel.x + w, 1) == cx
            &&& double(sel.y + h, 1) == cy
        }),
{
}

/// A quadrant of a part of the monitor is a part of the monitor, where it is cut
/// without rounding.
pub proof fn law_quadrant_inside(monitor: Monitor, sel: GridView, q: char)
    requires
        sel.inside(monitor),
        sel.splits(),
    ensures
        sel.quadrant(q).inside(monitor),
{
}

/// The selection after choosing quadrants one after another.
pub open spec fn narrowed(sel: GridView, choices: Seq<char>) -> GridView
    decreases choices.len(),
{
    if choices.len() == 0 {
        sel
    } else {
        narrowed(sel, choices.drop_last()).quadrant(choices.last())
    }
}

pub open spec fn whole(monitor: Monitor) -> GridView {
    GridView { x: 0, y: 0, w: monitor.width * one(), h: monitor.height * one() }
}

pub open spec fn are_quadrants(choices: Seq<char>) -> bool {
    forall|i: int| 0 <= i < choices.len() ==> is_quadrant(#[trigger] choices[i])
}

/// The length of a cell where a side is cut into `2^n` parts.
pub open spec fn part(side: int, n: nat) -> int {
    side * pow2((ONE_SHIFT - n) as nat)
}

proof fn lemma_part(side: int, n: nat)
    requires
        0 < side <= i32::MAX,
        0 < n <= ONE_SHIFT,
    ensures
        half(part(side, (n - 1) as nat)) == part(side, n),
        part(side, (n - 1) as nat) == 2 * part(side, n),
        part(side, n) > 0,
{
    let k = (ONE_SHIFT - n) as nat;
    lemma_pow2_unfold(k + 1);
    lemma_pow2_pos(k);
    let p = pow2(k) as int;
    assert(side * (2 * p) == 2 * (side * p)) by (nonlinear_arith);
    assert(side * p > 0) by (nonlinear_arith)
        requires
            side > 0,
            p > 0,
    ;
    lemma_double_exact(side, k);
    lemma_double_scaled(side * p, 1);
}

/// However deep the choices go, up to 1074 of them each halves the selection
/// exactly: after `n` of them its size is the monitor's over `2^n`.
pub proof fn law_choices_narrow(monitor: Monitor, choices: Seq<char>)
    requires
        monitor.width > 0,
        monitor.height > 0,
        choices.len() <= ONE_SHIFT,
        are_quadrants(choices),
    ensures
        ({
            let s = narrowed(whole(monitor), choices);
            &&& s.w == part(monitor.width as int, choices.len())
            &&& s.h == part(monitor.height as int, choices.len())
            &&& s.w * pow2(choices.len()) == monitor.width * one()
            &&& s.h * pow2(choices.len()) == monitor.height * one()
        }),
    decreases choices.len(),
{
    let n = choices.len();
    let (mw, mh) = (monitor.width as int, monitor.height as int);
    if n > 0 {
        let init = choices.drop_last();
        assert forall|i: int| 0 <= i < init.len() implies is_quadrant(#[trigger] init[i]) by {
            assert(init[i] == choices[i]);
        }
        law_choices_narrow(monitor, init);
        assert(is_quadrant(choices[n - 1]));
        lemma_part(mw, n);
        lemma_part(mh, n);
    }
    lemma_pow2_adds((ONE_SHIFT - n) as nat, n);
    let (a, b) = (pow2((ONE_SHIFT - n) as nat) as int, pow2(n) as int);
    assert((mw * a) * b == mw * (a * b)) by (nonlinear_arith);
    assert((mh * a) * b == mh * (a * b)) by (nonlinear_arith);
}

/// Choosing quadrants makes the selection smaller than any size above zero, as
/// soon as the size over the monitor's is more than one in `2^n`.
pub proof fn law_choices_get_small(monitor: Monitor, min_size: int, choices: Seq<char>)
    requires
        monitor.width > 0,
        monitor.height > 0,
        choices.len() <= ONE_SHIFT,
        are_quadrants(choices),
        monitor.width * one() < min_size * pow2(choices.len()),
        monitor.height * one() < min_size * pow2(choices.len()),
    ensures
        narrowed(whole(monitor), choices).w < min_size,
        narrowed(whole(monitor), choices).h < min_size,
{
    law_choices_narrow(monitor, choices);
    lemma_pow2_pos(choices.len());
    let s = narrowed(whole(monitor), choices);
    let p = pow2(choices.len()) as int;
    assert(s.w * p < min_size * p ==> s.w < min_size) by (nonlinear_arith)
        requires
            p > 0,
    ;
    assert(s.h * p < min_size * p ==> s.h < min_size) by (nonlinear_arith)
        requires
            p > 0,
    ;
}

/// The cell in column `a` and row `b` of the monitor cut into `2^n` columns and
/// rows.
pub open spec fn cell(monitor: Monitor, n: nat, a: int, b: int) -> GridView {
    let (w, h) = (part(monitor.width as int, n), part(monitor.height as int, n));
    GridView { x: a * w, y: b * h, w, h }
}

pub open spec fn is_cell(monitor: Monitor, n: nat, s: GridView) -> bool {
    exists|a: int, b: int|
        0 <= a < pow2(n) && 0 <= b < pow2(n) && s == #[trigger] cell(monitor, n, a, b)
}

/// Whether the edges of `2^n` columns and rows are all doubles.
pub open spec fn cuts_exactly(monitor: Monitor, n: nat) -> bool {
    &&& monitor.width * pow2(n) <= BITS53
    &&& monitor.height * pow2(n) <= BITS53
}

/// As long as the edges of the cells are doubles, the selection after `n` choices
/// is a cell of the monitor cut into `2^n` columns and rows, and so a part of the
/// monitor.
pub proof fn law_choices_are_cells(monitor: Monitor, choices: Seq<char>)
    requires
        monitor.width > 0,
        monitor.height > 0,
        are_quadrants(choices),
        cuts_exactly(monitor, choices.len()),
    ensures
        is_cell(monitor, choices.len(), narrowed(whole(monitor), choices)),
        narrowed(whole(monitor), choices).inside(monitor),
    decreases choices.len(),
{
    let n = choices.len();
    let (mw, mh) = (monitor.width as int, monitor.height as int);
    let s = narrowed(whole(monitor), choices);
    lemma_few_cuts(mw, n);
    law_choices_narrow(monitor, choices);
    let (a, b) = lemma_cell(monitor, choices);
    assert(s == cell(monitor, n, a, b));
    let (w, h, p) = (s.w, s.h, pow2(n) as int);
    lemma_pow2_pos((ONE_SHIFT - n) as nat);
    let q = pow2((ONE_SHIFT - n) as nat) as int;
    assert(mw * q > 0 && mh * q > 0) by (nonlinear_arith)
        requires
            mw > 0,
            mh > 0,
            q > 0,
    ;
    assert(0 <= a * w && a * w + w <= w * p) by (nonlinear_arith)
        requires
            0 <= a < p,
            w > 0,
    ;
    assert(0 <= b * h && b * h + h <= h * p) by (nonlinear_arith)
        requires
            0 <= b < p,
            h > 0,
    ;
    assert(s.x == a * w && s.y == b * h);
    assert(s.inside(monitor));
    assert(0 <= a < pow2(n) && 0 <= b < pow2(n) && s == cell(monitor, n, a, b));
}

proof fn lemma_few_cuts(side: int, n: nat)
    requires
        side > 0,
        side * pow2(n) <= BITS53,
    ensures
        n <= 53,
{
    lemma2_to64_rest();
    let p = pow2(n) as int;
    assert(side * p >= p) by (nonlinear_arith)
        requires
            side >= 1,
            p >= 0,
    ;
    if n > 53 {
        lemma_pow2_strictly_increases(53, n);
    }
}

/// One side of a cell, cut once more.
proof fn lemma_cut(side: int, n: nat, a: int)
    requires
        0 < side <= i32::MAX,
        0 < n,
        side * pow2(n) <= BITS53,
        0 <= a < pow2((n - 1) as nat),
    ensures
        middle_of(a * part(side, (n - 1) as nat), part(side, (n - 1) as nat)) == (2 * a + 1) * part(
            side,
            n,
        ),
        a * part(side, (n - 1) as nat) == (2 * a) * part(side, n),
        2 * a + 1 < pow2(n),
{
    lemma_few_cuts(side, n);
    lemma_part(side, n);
    lemma_pow2_unfold(n);
    let (c, k) = (part(side, n), (ONE_SHIFT - n) as nat);
    let (p, z) = (pow2(n) as int, pow2(k) as int);
    assert(a * (2 * c) == (2 * a) * c && (2 * a + 1) * c == (2 * a) * c + c) by (nonlinear_arith);
    let m = (2 * a + 1) * side;
    assert(0 <= m <= side * p) by (nonlinear_arith)
        requires
            m == (2 * a + 1) * side,
            0 <= 2 * a + 1 <= p,
            side > 0,
    ;
    assert((2 * a + 1) * (side * z) == m * z) by (nonlinear_arith)
        requires
            m == (2 * a + 1) * side,
    ;
    lemma_double_exact(m, k);
}

proof fn lemma_cell(monitor: Monitor, choices: Seq<char>) -> (r: (int, int))
    requires
        monitor.width > 0,
        monitor.height > 0,
        are_quadrants(choices),
        cuts_exactly(monitor, choices.len()),
    ensures
        narrowed(whole(monitor), choices) == cell(monitor, choices.len(), r.0, r.1),
        0 <= r.0 < pow2(choices.len()),
        0 <= r.1 < pow2(choices.len()),
    decreases choices.len(),
{
    let n = choices.len();
    let (mw, mh) = (monitor.width as int, monitor.height as int);
    if n == 0 {
        lemma2_to64();
        assert(0 * part(mw, 0) == 0 && 0 * part(mh, 0) == 0);
        (0int, 0int)
    } else {
        let init = choices.drop_last();
        assert forall|i: int| 0 <= i < init.len() implies is_quadrant(#[trigger] init[i]) by {
            assert(init[i] == choices[i]);
        }
        lemma_pow2_unfold(n);
        let p = pow2((n - 1) as nat) as int;
        assert(mw * p <= mw * (2 * p) && mh * p <= mh * (2 * p)) by (nonlinear_arith)
            requires
                mw > 0,
                mh > 0,
                p >= 0,
        ;
        let (a, b) = lemma_cell(monitor, init);
        let q = choices[n - 1];
        assert(is_quadrant(q));
        lemma_few_cuts(mw, n);
        lemma_part(mw, n);
        lemma_part(mh, n);
        lemma_cut(mw, n, a);
        lemma_cut(mh, n, b);
        (
            if q == 'i' || q == 'k' {
                2 * a + 1
            } else {
                2 * a
            },
            if q == 'j' || q == 'k' {
                2 * b + 1
            } else {
                2 * b
            },
        )
    }
}

} // verus!
