//! What hint mode and grid mode do with each key press.
//!
//! A mode answers a key with a list of effects, which the program carries out
//! in order, and with what comes next.

use crate::areas::{areas_on_monitor, normalize_areas_for_monitor, TargetArea};
use crate::config::Config;
use crate::double::{
    double, lemma_double_exact, lemma_double_negated, lemma_double_ordered, lemma_double_positive,
    BITS53,
};
use crate::fixed::{abs, px, Coord, UNIT};
use crate::grid::{half, middle_of, selection_limit, GridSelection, GridView};
use crate::hint::{
    after_key, are_grid_hints, area_hint, generate_hints, generate_hints_from_areas, grid_fits,
    grid_gap, label_count, law_grid_hints_on_monitor, lemma_selected_hint, process_key, Hint,
    HintResult,
};
use crate::input::keysyms;
use crate::number::{
    infinite, is_less, lemma_double_nearest, lemma_sum_near, one, sum, to_units, units_of, whole,
    Double,
};
use crate::text::{lowered, same, to_ascii_lowercase, trim, trimmed};
use crate::wayland::{KeyEvent, KeyState, Monitor};
use vstd::arithmetic::power2::{
    lemma2_to64, lemma2_to64_rest, lemma_pow2_adds, lemma_pow2_pos, lemma_pow2_strictly_increases,
    pow2,
};
use vstd::prelude::*;

verus! {

/// Something for the program to do.
#[derive(Clone, Copy, Debug, PartialEq, Eq, Structural)]
pub enum Effect {
    /// Move the pointer to an absolute position.
    Warp { x: Coord, y: Coord },
    /// Click a mouse button.
    Click { button: u32 },
    /// Send out the requests that wait.
    Flush,
    /// Wait until the compositor has handled every request so far.
    Roundtrip,
    /// Take the overlay away.
    DestroyOverlay,
    /// Draw the overlay anew.
    Redraw,
}

/// What comes after the effects.
#[derive(Clone, Copy, Debug, PartialEq, Eq, Structural)]
pub enum Next {
    /// Stay in the mode.
    Stay,
    /// Leave, and end the program.
    Leave,
    /// Go on in hint mode.
    HintMode,
    /// Go on in grid mode.
    GridMode,
}

pub struct Step {
    pub effects: Vec<Effect>,
    pub next: Next,
}

pub struct StepView {
    pub effects: Seq<Effect>,
    pub next: Next,
}

impl View for Step {
    type V = StepView;

    open spec fn view(&self) -> StepView {
        StepView { effects: self.effects@, next: self.next }
    }
}

// ---------------------------------------------------------------------------
// Scripts
// ---------------------------------------------------------------------------

/// Nothing happens.
pub open spec fn idle() -> StepView {
    StepView { effects: Seq::empty(), next: Next::Stay }
}

/// The overlay shows what changed.
pub open spec fn redraw() -> StepView {
    StepView { effects: seq![Effect::Redraw, Effect::Flush], next: Next::Stay }
}

/// The overlay goes away.
pub open spec fn leave_for(next: Next) -> StepView {
    StepView { effects: seq![Effect::DestroyOverlay, Effect::Flush], next }
}

/// The pointer moves, the overlay goes away, and the click goes to what was
/// under it.
pub open spec fn warp_then_click(x: int, y: int, button: u32) -> StepView {
    StepView {
        effects: seq![
            Effect::Warp { x: x as Coord, y: y as Coord },
            Effect::Flush,
            Effect::Roundtrip,
            Effect::DestroyOverlay,
            Effect::Click { button },
            Effect::Flush,
        ],
        next: Next::Leave,
    }
}

/// The pointer moves and clicks before the overlay goes away.
pub open spec fn click_then_leave(x: int, y: int, button: u32) -> StepView {
    StepView {
        effects: seq![
            Effect::Warp { x: x as Coord, y: y as Coord },
            Effect::Click { button },
            Effect::Flush,
            Effect::Roundtrip,
            Effect::DestroyOverlay,
            Effect::Flush,
        ],
        next: Next::Leave,
    }
}

pub fn to_idle() -> (s: Step)
    ensures
        s@ == idle(),
{
    Step { effects: Vec::new(), next: Next::Stay }
}

pub fn to_redraw() -> (s: Step)
    ensures
        s@ == redraw(),
{
    let mut effects: Vec<Effect> = Vec::new();
    effects.push(Effect::Redraw);
    effects.push(Effect::Flush);
    assert(effects@ =~= redraw().effects);
    Step { effects, next: Next::Stay }
}

pub fn to_leave_for(next: Next) -> (s: Step)
    ensures
        s@ == leave_for(next),
{
    let mut effects: Vec<Effect> = Vec::new();
    effects.push(Effect::DestroyOverlay);
    effects.push(Effect::Flush);
    assert(effects@ =~= leave_for(next).effects);
    Step { effects, next }
}

pub fn to_warp_then_click(x: Coord, y: Coord, button: u32) -> (s: Step)
    ensures
        s@ == warp_then_click(x as int, y as int, button),
{
    let mut effects: Vec<Effect> = Vec::new();
    effects.push(Effect::Warp { x, y });
    effects.push(Effect::Flush);
    effects.push(Effect::Roundtrip);
    effects.push(Effect::DestroyOverlay);
    effects.push(Effect::Click { button });
    effects.push(Effect::Flush);
    assert(effects@ =~= warp_then_click(x as int, y as int, button).effects);
    Step { effects, next: Next::Leave }
}

pub fn to_click_then_leave(x: Coord, y: Coord, button: u32) -> (s: Step)
    ensures
        s@ == click_then_leave(x as int, y as int, button),
{
    let mut effects: Vec<Effect> = Vec::new();
    effects.push(Effect::Warp { x, y });
    effects.push(Effect::Click { button });
    effects.push(Effect::Flush);
    effects.push(Effect::Roundtrip);
    effects.push(Effect::DestroyOverlay);
    effects.push(Effect::Flush);
    assert(effects@ =~= click_then_leave(x as int, y as int, button).effects);
    Step { effects, next: Next::Leave }
}

/// Whether a step moves the pointer to positions on the monitor only.
pub open spec fn warps_on(s: StepView, monitor: Monitor) -> bool {
    forall|i: int|
        0 <= i < s.effects.len() ==> (#[trigger] s.effects[i] matches Effect::Warp { x, y } ==> {
            &&& monitor.x * UNIT <= x < (monitor.x + monitor.width) * UNIT
            &&& monitor.y * UNIT <= y < (monitor.y + monitor.height) * UNIT
        })
}

/// Whether a step is safe to carry out. A mode that goes on neither moves the
/// pointer nor clicks nor loses its overlay. A mode that ends takes its overlay
/// away once and sends everything out; and where the pointer moved, it does so
/// first and the compositor has handled the move before the overlay goes.
pub open spec fn orderly(s: StepView) -> bool {
    let e = s.effects;
    if s.next == Next::Stay {
        forall|i: int|
            0 <= i < e.len() ==> (#[trigger] e[i] == Effect::Redraw || e[i] == Effect::Flush)
    } else {
        &&& e.len() > 0 && e.last() == Effect::Flush
        &&& exists|d: int|
            0 <= d < e.len() && #[trigger] e[d] == Effect::DestroyOverlay && (forall|i: int|
                0 <= i < e.len() && i != d ==> #[trigger] e[i] != Effect::DestroyOverlay) && (
            forall|i: int|
                0 <= i < e.len() && (#[trigger] e[i] is Warp) ==> i == 0 && (exists|r: int|
                    0 < r < d && #[trigger] e[r] == Effect::Roundtrip))
    }
}

pub proof fn lemma_scripts_orderly(x: int, y: int, button: u32, next: Next)
    ensures
        orderly(idle()),
        orderly(redraw()),
        next != Next::Stay ==> orderly(leave_for(next)),
        orderly(warp_then_click(x, y, button)),
        orderly(click_then_leave(x, y, button)),
{
    let a = warp_then_click(x, y, button).effects;
    assert(a[2] == Effect::Roundtrip && a[3] == Effect::DestroyOverlay);
    let b = click_then_leave(x, y, button).effects;
    assert(b[3] == Effect::Roundtrip && b[4] == Effect::DestroyOverlay);
    let c = leave_for(next).effects;
    assert(c[0] == Effect::DestroyOverlay);
}

// ---------------------------------------------------------------------------
// Hint mode
// ---------------------------------------------------------------------------

/// Where hint targets come from.
#[derive(Clone, Copy, Debug, PartialEq, Eq, Structural)]
pub enum HintSource {
    /// A regular grid across the monitor.
    Grid,
    /// Rectangles read from standard input.
    Stdin,
    /// Targets detected in a picture of the monitor.
    Detect,
    /// A setting with no meaning, which counts as the grid.
    Unknown,
}

/// The source that a setting names, in either case and with blanks around it.
pub open spec fn source_of(setting: Seq<char>) -> HintSource {
    let word = lowered(trimmed(setting));
    if word == "stdin"@ {
        HintSource::Stdin
    } else if word == "detect"@ {
        HintSource::Detect
    } else if word == "grid"@ || word == "static"@ {
        HintSource::Grid
    } else {
        HintSource::Unknown
    }
}

/// The source that a setting names.
pub fn hint_source(setting: &str) -> (s: HintSource)
    ensures
        s == source_of(setting@),
{
    let t: String = trim(setting);
    let word: String = to_ascii_lowercase(t.as_str());
    let w: &str = word.as_str();
    if same(w, "stdin") {
        HintSource::Stdin
    } else if same(w, "detect") {
        HintSource::Detect
    } else if same(w, "grid") || same(w, "static") {
        HintSource::Grid
    } else {
        HintSource::Unknown
    }
}

/// Whether the hints are those on the given areas.
pub open spec fn are_area_hints(hints: Seq<Hint>, areas: Seq<TargetArea>, config: Config) -> bool {
    &&& hints.len() == label_count(config.hint_chars@.len(), areas.len())
    &&& forall|i: int| 0 <= i < hints.len() ==> (#[trigger] hints[i])@ == area_hint(
        areas[i],
        i,
        config,
    )
}

/// The hints to show: on the target areas that show on the monitor, and on the
/// grid where there are none.
pub fn choose_hints(monitor: &Monitor, config: &Config, areas: Option<Vec<TargetArea>>) -> (hints:
    Vec<Hint>)
    requires
        config.wf(),
        (areas matches Some(a) && areas_on_monitor(a@, *monitor).len() > 0) || grid_fits(
            *monitor,
            *config,
        ),
    ensures
        match areas {
            Some(a) if areas_on_monitor(a@, *monitor).len() > 0 => are_area_hints(
                hints@,
                areas_on_monitor(a@, *monitor),
                *config,
            ),
            _ => are_grid_hints(hints@, *monitor, *config),
        },
{
    match areas {
        Some(a) => {
            let on: Vec<TargetArea> = normalize_areas_for_monitor(monitor, &a);
            if on.len() > 0 {
                return generate_hints_from_areas(config, &on);
            }
        },
        None => {},
    }
    generate_hints(monitor, config)
}

/// What hint mode does with a key event, and what was typed after it.
pub open spec fn hint_step(
    monitor: Monitor,
    event: KeyEvent,
    hints: Seq<Hint>,
    typed: Seq<char>,
) -> (Seq<char>, StepView) {
    let (now, result) = after_key(event, hints, typed);
    (
        now,
        match result {
            HintResult::Selected { x, y } => warp_then_click(
                monitor.x * UNIT + x,
                monitor.y * UNIT + y,
                1,
            ),
            HintResult::Cancel => leave_for(Next::Leave),
            HintResult::Continue => redraw(),
        },
    )
}

/// Takes in a key event of hint mode: a selected hint is clicked, a cancelled
/// mode is left, and otherwise the hints are drawn anew.
pub fn hint_mode_key(
    monitor: &Monitor,
    event: &KeyEvent,
    hints: &Vec<Hint>,
    typed: &mut String,
) -> (s: Step)
    ensures
        (final(typed)@, s@) == hint_step(*monitor, *event, hints@, old(typed)@),
{
    match process_key(event, hints, typed) {
        HintResult::Selected { x, y } => {
            proof {
                crate::hint::lemma_selection_bounded(*event, hints@, old(typed)@);
            }
            to_warp_then_click(px(monitor.x) + x, px(monitor.y) + y, 1)
        },
        HintResult::Cancel => to_leave_for(Next::Leave),
        HintResult::Continue => to_redraw(),
    }
}

/// Every step of hint mode is orderly.
pub proof fn law_hint_mode_orderly(
    monitor: Monitor,
    event: KeyEvent,
    hints: Seq<Hint>,
    typed: Seq<char>,
)
    ensures
        orderly(hint_step(monitor, event, hints, typed).1),
{
    let result = after_key(event, hints, typed).1;
    match result {
        HintResult::Selected { x, y } => {
            lemma_scripts_orderly(monitor.x * UNIT + x, monitor.y * UNIT + y, 1, Next::Leave);
        },
        _ => {
            lemma_scripts_orderly(0, 0, 1, Next::Leave);
        },
    }
}

/// A click on a hint of the grid lands on the monitor, where the monitor is as
/// large as a cell.
pub proof fn law_hint_click_on_monitor(
    monitor: Monitor,
    config: Config,
    event: KeyEvent,
    hints: Seq<Hint>,
    typed: Seq<char>,
)
    requires
        grid_fits(monitor, config),
        config.hint_grid_gap <= i32::MAX,
        config.hint_font_size@ >= 0,
        monitor.width >= grid_gap(config.hint_grid_gap),
        monitor.height >= grid_gap(config.hint_grid_gap),
        are_grid_hints(hints, monitor, config),
    ensures
        warps_on(hint_step(monitor, event, hints, typed).1, monitor),
{
    let (now, result) = after_key(event, hints, typed);
    if result is Selected {
        let i = lemma_selected_hint(event, hints, typed);
        law_grid_hints_on_monitor(monitor, config, hints[i], i);
    }
}

// ---------------------------------------------------------------------------
// Grid mode
// ---------------------------------------------------------------------------

/// The letters of the quadrants, in the order of their keys.
pub const QUADRANTS: [char; 4] = ['u', 'i', 'j', 'k'];

/// The first of the four keys that is `sym`, or 4.
pub open spec fn quadrant_index(keys: Seq<u32>, sym: u32) -> int {
    if keys[0] == sym {
        0
    } else if keys[1] == sym {
        1
    } else if keys[2] == sym {
        2
    } else if keys[3] == sym {
        3
    } else {
        4
    }
}

/// The absolute position of the selection's middle.
pub open spec fn middle(monitor: Monitor, sel: GridView) -> (int, int) {
    (
        units_of(double(monitor.x * one() + middle_of(sel.x, sel.w), 1)),
        units_of(double(monitor.y * one() + middle_of(sel.y, sel.h), 1)),
    )
}

/// What grid mode does with a key event, and the selection after it.
pub open spec fn grid_step(
    monitor: Monitor,
    min_size: int,
    keys: Seq<u32>,
    select: u32,
    event: KeyEvent,
    sel: GridView,
) -> (GridView, StepView) {
    if event.state != KeyState::Pressed {
        (sel, idle())
    } else if event.sym == keysyms::ESCAPE {
        (sel, leave_for(Next::Leave))
    } else if quadrant_index(keys, event.sym) < 4 {
        let now = sel.quadrant(QUADRANTS@[quadrant_index(keys, event.sym)]);
        if now.w < min_size && now.h < min_size {
            (now, warp_then_click(middle(monitor, now).0, middle(monitor, now).1, 1))
        } else {
            (now, redraw())
        }
    } else if event.sym == select {
        (sel, click_then_leave(middle(monitor, sel).0, middle(monitor, sel).1, 1))
    } else {
        (sel, idle())
    }
}

/// A position on the monitor, in the compositor's logical space.
pub fn to_absolute(origin: i32, v: Double) -> (r: Coord)
    requires
        v.wf(),
        abs(v@) <= selection_limit(),
    ensures
        r == units_of(double(origin * one() + v@, 1)),
{
    let o: Double = whole(origin);
    let s: Double = sum(o, v);
    proof {
        lemma_sum_near(o, v@);
        lemma_origin(origin as int);
    }
    to_units(s)
}

/// A position that is added to the origin of a monitor stays in bounds.
proof fn lemma_origin(origin: int)
    requires
        i32::MIN <= origin <= i32::MAX,
    ensures
        abs(origin * one()) + 2 * selection_limit() <= pow2(1122) < infinite(),
{
    lemma2_to64_rest();
    lemma_pow2_adds(40, 1074);
    lemma_pow2_adds(48, 1074);
    lemma_pow2_strictly_increases(1122, 2098);
    lemma_pow2_pos(1074);
    let p = one();
    assert(abs(origin * p) == abs(origin) * p && abs(origin) * p <= 0x8000_0000 * p)
        by (nonlinear_arith)
        requires
            i32::MIN <= origin <= i32::MAX,
            p > 0,
    ;
}

fn to_middle(monitor: &Monitor, sel: &GridSelection) -> (m: (Coord, Coord))
    requires
        sel.wf(),
    ensures
        m.0 == middle(*monitor, sel@).0,
        m.1 == middle(*monitor, sel@).1,
{
    let (cx, cy): (Double, Double) = sel.centre();
    (to_absolute(monitor.x, cx), to_absolute(monitor.y, cy))
}

/// Takes in a key event of grid mode. A quadrant's key narrows the selection,
/// and clicks its middle once it is smaller than `min_size` both ways; the key
/// `select` clicks the middle at once.
pub fn grid_mode_key(
    monitor: &Monitor,
    min_size: Double,
    keys: &[u32; 4],
    select: u32,
    event: &KeyEvent,
    sel: &mut GridSelection,
) -> (s: Step)
    requires
        old(sel).wf(),
        min_size.wf(),
    ensures
        final(sel).wf(),
        (final(sel)@, s@) == grid_step(*monitor, min_size@, keys@, select, *event, old(sel)@),
{
    if event.state != KeyState::Pressed {
        return to_idle();
    }
    if event.sym == keysyms::ESCAPE {
        return to_leave_for(Next::Leave);
    }
    let mut i: usize = 0;
    while i < 4 && keys[i] != event.sym
        invariant
            i <= 4,
            forall|j: int| 0 <= j < i ==> #[trigger] keys@[j] != event.sym,
        decreases 4 - i,
    {
        i = i + 1;
    }
    assert(i as int == quadrant_index(keys@, event.sym));
    if i < 4 {
        sel.subdivide(QUADRANTS[i]);
        if is_less(sel.w, min_size) && is_less(sel.h, min_size) {
            let (x, y): (Coord, Coord) = to_middle(monitor, sel);
            return to_warp_then_click(x, y, 1);
        }
        return to_redraw();
    }
    if event.sym == select {
        let (x, y): (Coord, Coord) = to_middle(monitor, sel);
        return to_click_then_leave(x, y, 1);
    }
    to_idle()
}

/// Every step of grid mode is orderly.
pub proof fn law_grid_mode_orderly(
    monitor: Monitor,
    min_size: int,
    keys: Seq<u32>,
    select: u32,
    event: KeyEvent,
    sel: GridView,
)
    ensures
        orderly(grid_step(monitor, min_size, keys, select, event, sel).1),
{
    let (now, step) = grid_step(monitor, min_size, keys, select, event, sel);
    lemma_scripts_orderly(middle(monitor, now).0, middle(monitor, now).1, 1, Next::Leave);
}

/// The least size of a selection whose middle can be told from its far edge,
/// whatever is rounded: 2^-18 pixel.
pub open spec fn least_size() -> int {
    pow2(1056) as int
}

/// A click of grid mode lands on the monitor, where the selection that is clicked
/// is a part of the monitor and not too small to be told apart from its edge.
pub proof fn law_grid_click_on_monitor(
    monitor: Monitor,
    min_size: int,
    keys: Seq<u32>,
    select: u32,
    event: KeyEvent,
    sel: GridView,
)
    requires
        ({
            let now = grid_step(monitor, min_size, keys, select, event, sel).0;
            now.inside(monitor) && now.w >= least_size() && now.h >= least_size()
        }),
    ensures
        warps_on(grid_step(monitor, min_size, keys, select, event, sel).1, monitor),
{
    let now = grid_step(monitor, min_size, keys, select, event, sel).0;
    lemma_middle_on_monitor(monitor.x as int, now.x, now.w, monitor.width as int);
    lemma_middle_on_monitor(monitor.y as int, now.y, now.h, monitor.height as int);
}

/// Rounding goes less far than a step of which 2^53 reach beyond the number.
proof fn lemma_rounding(n: int, d: int, i: nat)
    requires
        0 <= n < BITS53 * (d * pow2(i)),
        d > 0,
    ensures
        abs(double(n, d) * d - n) < d * pow2(i),
{
    lemma_pow2_pos(i);
    let p = pow2(i) as int;
    let step = d * p;
    assert(step > 0) by (nonlinear_arith)
        requires
            step == d * p,
            d > 0,
            p > 0,
    ;
    let m = n / step;
    vstd::arithmetic::div_mod::lemma_fundamental_div_mod(n, step);
    vstd::arithmetic::div_mod::lemma_mod_bound(n, step);
    vstd::arithmetic::div_mod::lemma_div_pos_is_pos(n, step);
    assert(m < BITS53) by (nonlinear_arith)
        requires
            n == step * m + n % step,
            n < BITS53 * step,
            0 <= n % step,
            step > 0,
    ;
    lemma_double_nearest(n, d, m, i);
    assert((m * p) * d == step * m) by (nonlinear_arith)
        requires
            step == d * p,
    ;
}

/// The middle of a part of a side is on the side, in the compositor's logical
/// space too.
proof fn lemma_middle_on_monitor(origin: int, start: int, length: int, side: int)
    requires
        i32::MIN <= origin <= i32::MAX,
        side <= i32::MAX,
        0 <= start,
        length >= least_size(),
        start + length <= side * one(),
    ensures
        origin * UNIT <= units_of(double(origin * one() + middle_of(start, length), 1)) < (origin
            + side) * UNIT,
{
    lemma2_to64();
    lemma2_to64_rest();
    lemma_pow2_adds(52, 1022);
    lemma_pow2_adds(5, 1051);
    lemma_pow2_adds(1, 1051);
    lemma_pow2_adds(2, 1051);
    lemma_pow2_adds(23, 1051);
    lemma_pow2_pos(1022);
    lemma_pow2_adds(29, 1022);
    let (e, p, u) = (pow2(1051) as int, one(), pow2(1022) as int);
    assert(p == 0x80_0000 * e && e == 0x2000_0000 * u);
    assert(least_size() == 32 * e);
    assert(side * p <= 0x7fff_ffff * p) by (nonlinear_arith)
        requires
            side <= 0x7fff_ffff,
            p > 0,
    ;
    assert(-0x8000_0000 * p <= origin * p <= 0x7fff_ffff * p) by (nonlinear_arith)
        requires
            -0x8000_0000 <= origin <= 0x7fff_ffff,
            p > 0,
    ;
    let hw = half(length);
    lemma_rounding(length, 2, 1051);
    lemma_double_positive(length, 2);
    let n = start + hw;
    lemma_rounding(n, 1, 1052);
    lemma_double_positive(n, 1);
    let c = middle_of(start, length);
    let t = origin * p + c;
    let r = double(t, 1);
    lemma_rounding(abs(t), 1, 1053);
    lemma_double_negated(t, 1);
    lemma_double_exact(origin, 1074);
    lemma_double_ordered(origin * p, t, 1);
    assert((origin + side) * p == origin * p + side * p) by (nonlinear_arith);
    assert(origin * p <= r);
    assert(r + 9 * e < (origin + side) * p);
    lemma_units_between(r, origin, origin + side);
}

/// A number that is well below a whole one is below it as a coordinate.
pub proof fn lemma_units_between(v: int, lo: int, hi: int)
    requires
        lo * one() <= v,
        v + pow2(1022) < hi * one(),
    ensures
        lo * UNIT <= units_of(v) < hi * UNIT,
{
    lemma2_to64_rest();
    lemma_pow2_adds(52, 1022);
    lemma_pow2_pos(1022);
    let (u, m) = (pow2(1022) as int, abs(v));
    let q = m / u;
    vstd::arithmetic::div_mod::lemma_fundamental_div_mod(m, u);
    vstd::arithmetic::div_mod::lemma_mod_bound(m, u);
    vstd::arithmetic::div_mod::lemma_div_pos_is_pos(m, u);
    let (a, b) = (lo * UNIT, hi * UNIT);
    assert(lo * one() == a * u && hi * one() == b * u) by (nonlinear_arith)
        requires
            one() == UNIT * u,
            a == lo * UNIT,
            b == hi * UNIT,
    ;
    if v >= 0 {
        assert(a <= q) by (nonlinear_arith)
            requires
                a * u <= v,
                v == u * q + m % u,
                m % u < u,
                u > 0,
        ;
        assert(q < b) by (nonlinear_arith)
            requires
                v + u < b * u,
                v == u * q + m % u,
                0 <= m % u,
                u > 0,
        ;
    } else {
        assert(a <= -q) by (nonlinear_arith)
            requires
                a * u <= v,
                -v == u * q + m % u,
                0 <= m % u,
                u > 0,
        ;
        assert(-q < b) by (nonlinear_arith)
            requires
                v + u < b * u,
                -v == u * q + m % u,
                m % u < u,
                u > 0,
        ;
    }
}

/// Grid mode warps by a quadrant's key only once the selection is small enough,
/// and a quadrant's key that does not end the mode leaves one that is not.
pub proof fn law_grid_mode_size(
    monitor: Monitor,
    min_size: int,
    keys: Seq<u32>,
    select: u32,
    event: KeyEvent,
    sel: GridView,
)
    requires
        event.state == KeyState::Pressed,
        event.sym != keysyms::ESCAPE,
        quadrant_index(keys, event.sym) < 4,
    ensures
        ({
            let (now, step) = grid_step(monitor, min_size, keys, select, event, sel);
            step.next == Next::Leave <==> now.w < min_size && now.h < min_size
        }),
{
}

} // verus!
