//! Normal mode: the cursor moves while direction keys are held.

use crate::config::Config;
use crate::double::{
    double, lemma_double_exact, lemma_double_negated, lemma_double_ordered, lemma_double_positive,
    lemma_double_scaled, to_double, BITS53,
};
use crate::fixed::{abs, clamp, px, Coord, UNIT};
use crate::grid::selection_limit;
use crate::input::{
    are_speed_modifiers, bindings_to_keysyms, can_look_up, is_resolved, keysyms, normal_keysym,
    normalize_keysym, speed_modifier_keysyms, DEFAULT_BUTTON_KEYSYMS, DEFAULT_NORMAL_MOVE_KEYSYMS,
};
use crate::modes::{
    click_then_leave, idle, leave_for, lemma_scripts_orderly, lemma_units_between, orderly,
    to_absolute, to_click_then_leave, to_idle, to_leave_for, to_warp_then_click, warp_then_click,
    warps_on, Next, Step, StepView,
};
use crate::number::{
    from_units, halved, infinite, is_less, lemma_bits_sign, lemma_is_double, lemma_sum_near,
    lemma_times_whole, lemma_whole_ratio, negated, number_of, one, product, ratio, sum, units_of,
    whole, Double, ONE_SHIFT, SHIFT_LIMIT,
};
use crate::pointer::{
    lemma_on_surface, on_surface, reading, resolve_initial_pointer_position,
};
use crate::text::trimmed;
use crate::wayland::{KeyEvent, KeyState, Monitor, PointerPosSource, Transform};
use std::collections::HashMap;
use vstd::arithmetic::power2::{
    lemma2_to64, lemma2_to64_rest, lemma_pow2_adds, lemma_pow2_pos, lemma_pow2_strictly_increases,
    lemma_pow2_unfold, pow2,
};
use vstd::prelude::*;
use vstd::std_specs::iter::IteratorSpec;

verus! {

// ---------------------------------------------------------------------------
// Keys
// ---------------------------------------------------------------------------

/// What a held key does.
#[derive(Clone, Copy, Debug, PartialEq, Eq, Structural)]
pub enum HeldKeyRole {
    MoveLeft,
    MoveDown,
    MoveUp,
    MoveRight,
    SpeedModifier,
}

/// The keys of normal mode.
pub struct NormalKeys {
    /// Left, down, up, right.
    pub moves: [u32; 4],
    /// The left, middle and right mouse button.
    pub buttons: [u32; 3],
    /// Any of these makes the cursor faster.
    pub modifiers: Vec<u32>,
}

/// Whether `sym` is the keysym of a binding, or of the fallback where it has none,
/// with letters in lower case.
pub open spec fn is_bound_keysym<F: Fn(&str) -> u32>(
    look_up: F,
    binding: Seq<char>,
    fallback: u32,
    sym: u32,
) -> bool {
    exists|raw: u32| #[trigger]
        is_resolved(look_up, binding, fallback, raw) && sym == normal_keysym(raw)
}

impl NormalKeys {
    /// The keys that the configuration asks for.
    pub fn new<F: Fn(&str) -> u32>(config: &Config, look_up: &F) -> (keys: NormalKeys)
        requires
            forall|i: int|
                0 <= i < 4 ==> can_look_up(*look_up, (#[trigger] config.normal_move_keys@[i])@),
            forall|i: int| 0 <= i < 3 ==> can_look_up(*look_up, (#[trigger] config.buttons@[i])@),
            can_look_up(*look_up, trimmed(config.speed_modifier_key@)),
        ensures
            forall|i: int|
                0 <= i < 4 ==> is_bound_keysym(
                    *look_up,
                    config.normal_move_keys@[i]@,
                    DEFAULT_NORMAL_MOVE_KEYSYMS@[i],
                    #[trigger] keys.moves@[i],
                ),
            forall|i: int|
                0 <= i < 3 ==> is_bound_keysym(
                    *look_up,
                    config.buttons@[i]@,
                    DEFAULT_BUTTON_KEYSYMS@[i],
                    #[trigger] keys.buttons@[i],
                ),
            are_speed_modifiers(*look_up, config.speed_modifier_key@, keys.modifiers@),
    {
        let m: [u32; 4] = bindings_to_keysyms(
            &config.normal_move_keys,
            &DEFAULT_NORMAL_MOVE_KEYSYMS,
            look_up,
        );
        let b: [u32; 3] = bindings_to_keysyms(&config.buttons, &DEFAULT_BUTTON_KEYSYMS, look_up);
        NormalKeys {
            moves: [
                normalize_keysym(m[0]),
                normalize_keysym(m[1]),
                normalize_keysym(m[2]),
                normalize_keysym(m[3]),
            ],
            buttons: [normalize_keysym(b[0]), normalize_keysym(b[1]), normalize_keysym(b[2])],
            modifiers: speed_modifier_keysyms(config.speed_modifier_key.as_str(), look_up),
        }
    }

    /// The role of a key, by its normalised keysym. A direction goes before the
    /// speed modifier, and an earlier direction before a later one.
    pub open spec fn role_of(self, sym: u32) -> Option<HeldKeyRole> {
        if sym == self.moves@[0] {
            Some(HeldKeyRole::MoveLeft)
        } else if sym == self.moves@[1] {
            Some(HeldKeyRole::MoveDown)
        } else if sym == self.moves@[2] {
            Some(HeldKeyRole::MoveUp)
        } else if sym == self.moves@[3] {
            Some(HeldKeyRole::MoveRight)
        } else if self.modifiers@.contains(sym) {
            Some(HeldKeyRole::SpeedModifier)
        } else {
            None
        }
    }

    /// The role of a key, by its normalised keysym.
    pub fn role(&self, sym: u32) -> (role: Option<HeldKeyRole>)
        ensures
            role == self.role_of(sym),
    {
        if sym == self.moves[0] {
            return Some(HeldKeyRole::MoveLeft);
        }
        if sym == self.moves[1] {
            return Some(HeldKeyRole::MoveDown);
        }
        if sym == self.moves[2] {
            return Some(HeldKeyRole::MoveUp);
        }
        if sym == self.moves[3] {
            return Some(HeldKeyRole::MoveRight);
        }
        let mut i: usize = 0;
        while i < self.modifiers.len()
            invariant
                i <= self.modifiers.len(),
                forall|j: int| 0 <= j < i ==> #[trigger] self.modifiers@[j] != sym,
                self.moves@[0] != sym,
                self.moves@[1] != sym,
                self.moves@[2] != sym,
                self.moves@[3] != sym,
            decreases self.modifiers.len() - i,
        {
            if self.modifiers[i] == sym {
                assert(self.modifiers@[i as int] == sym);
                return Some(HeldKeyRole::SpeedModifier);
            }
            i = i + 1;
        }
        None
    }
}

/// The speed factor of the speed modifier: two where the configured one is not
/// above zero.
pub fn speed_multiplier(configured: Double) -> (factor: Double)
    requires
        configured.wf(),
    ensures
        factor@ == (if configured@ > 0 {
            configured@
        } else {
            2 * one()
        }),
        factor@ > 0,
        factor.wf(),
{
    proof {
        lemma_bits_sign(configured);
        lemma_pow2_pos(ONE_SHIFT as nat);
    }
    if configured.bits > 0 {
        configured
    } else {
        whole(2)
    }
}

// ---------------------------------------------------------------------------
// State
// ---------------------------------------------------------------------------

/// The cursor and the held keys.
pub struct NormalState {
    /// The cursor, relative to the monitor.
    pub cx: Double,
    pub cy: Double,
    /// The last position that the real pointer moved to.
    pub last_sample: Option<(Coord, Coord)>,
    /// The held keys that have a role, by keycode.
    pub held: HashMap<u32, HeldKeyRole>,
}

/// The same in numbers, with the cursor in units of 2^-1074 pixel.
pub struct NormalView {
    pub cx: int,
    pub cy: int,
    pub last_sample: Option<(Coord, Coord)>,
    pub held: Map<u32, HeldKeyRole>,
}

impl View for NormalState {
    type V = NormalView;

    open spec fn view(&self) -> NormalView {
        NormalView {
            cx: self.cx@,
            cy: self.cy@,
            last_sample: self.last_sample,
            held: self.held@,
        }
    }
}

impl NormalState {
    pub open spec fn wf(self) -> bool {
        self.cx.wf() && self.cy.wf()
    }
}

/// How far a pointer position may lie from the origin.
pub const POSITION_LIMIT: Coord = 0x1000_0000_0000_0000_0000_0000;

pub open spec fn near_origin(v: Coord) -> bool {
    -POSITION_LIMIT <= v <= POSITION_LIMIT
}

/// How long a frame should take, in microseconds.
pub const FRAME_MICROS: u64 = 8_333;

/// How long to wait at first for the real pointer to move, in milliseconds.
pub const STARTUP_MILLIS: u128 = 25;

/// The longest time that a frame counts for, in nanoseconds.
pub const FRAME_LIMIT: u64 = 50_000_000;

/// The last place for the cursor along a side: the near edge of the last pixel.
/// On a single pixel it is the middle, where the cursor starts.
pub open spec fn far_edge(length: int) -> int {
    if length >= 2 {
        (length - 1) * one()
    } else {
        length * pow2(1073)
    }
}

impl NormalView {
    /// The cursor is on the monitor.
    pub open spec fn wf(self, monitor: Monitor) -> bool {
        &&& monitor.width >= 1 && monitor.height >= 1
        &&& 0 <= self.cx <= far_edge(monitor.width as int)
        &&& 0 <= self.cy <= far_edge(monitor.height as int)
    }

    pub open spec fn holds(self, role: HeldKeyRole) -> bool {
        self.held.values().contains(role)
    }

    /// Whether a direction key is held.
    pub open spec fn steering(self) -> bool {
        self.holds(HeldKeyRole::MoveLeft) || self.holds(HeldKeyRole::MoveDown) || self.holds(
            HeldKeyRole::MoveUp,
        ) || self.holds(HeldKeyRole::MoveRight)
    }

    /// The state after a pointer position and whether the cursor moved. While no
    /// direction is held the cursor follows the real pointer's motion, if that
    /// went more than a hundredth of a pixel and is on the monitor.
    pub open spec fn following(
        self,
        monitor: Monitor,
        sample: Option<(Coord, Coord, PointerPosSource)>,
    ) -> (NormalView, bool) {
        match sample {
            Some((x, y, PointerPosSource::Motion)) if !self.steering() && (match self.last_sample {
                Some((lx, ly)) => 100 * abs(lx - x) > UNIT || 100 * abs(ly - y) > UNIT,
                None => true,
            }) => {
                let seen = NormalView { last_sample: Some((x, y)), ..self };
                if on_surface(
                    x as int,
                    y as int,
                    monitor.width * UNIT,
                    monitor.height * UNIT,
                ) {
                    (NormalView { cx: number_of(x as int), cy: number_of(y as int), ..seen }, true)
                } else {
                    (seen, false)
                }
            },
            _ => (self, false),
        }
    }

    /// The state after the held keys moved the cursor by `length`, and whether
    /// any of them is a direction.
    pub open spec fn advanced(self, monitor: Monitor, length: int) -> (NormalView, bool) {
        let x1 = if self.holds(HeldKeyRole::MoveLeft) {
            lowered(self.cx, length)
        } else {
            self.cx
        };
        let x2 = if self.holds(HeldKeyRole::MoveRight) {
            raised(x1, length, (monitor.width - 1) * one())
        } else {
            x1
        };
        let y1 = if self.holds(HeldKeyRole::MoveUp) {
            lowered(self.cy, length)
        } else {
            self.cy
        };
        let y2 = if self.holds(HeldKeyRole::MoveDown) {
            raised(y1, length, (monitor.height - 1) * one())
        } else {
            y1
        };
        (NormalView { cx: x2, cy: y2, ..self }, self.steering())
    }

    /// How far the cursor goes in a frame: the speed is in pixels per second, and
    /// the speed modifier multiplies it.
    pub open spec fn frame_length(self, speed: int, elapsed: int, multiplier: int) -> int {
        let plain = distance(speed, not_above(elapsed, FRAME_LIMIT as int));
        if self.holds(HeldKeyRole::SpeedModifier) {
            double(plain * multiplier, one())
        } else {
            plain
        }
    }
}

/// Pixels per frame, sixty frames to a second.
pub open spec fn frame_speed(speed: int) -> int {
    double(speed * one(), 60)
}

/// Nanoseconds in seconds.
pub open spec fn seconds(time: int) -> int {
    double(time * one(), 1_000_000_000)
}

/// How far the cursor goes at a speed in a time: what it goes in a frame, times
/// the time, times sixty, rounded at each step.
pub open spec fn distance(speed: int, time: int) -> int {
    double(double(frame_speed(speed) * seconds(time), one()) * 60, 1)
}

/// A position less a length, and not below zero.
pub open spec fn lowered(v: int, length: int) -> int {
    not_below(double(v - length, 1), 0)
}

/// A position and a length, and not above `hi`.
pub open spec fn raised(v: int, length: int, hi: int) -> int {
    not_above(double(v + length, 1), hi)
}

/// A position on a monitor in the compositor's logical space, as a coordinate.
pub open spec fn absolute(origin: int, v: int) -> int {
    units_of(double(origin * one() + v, 1))
}

pub open spec fn not_below(v: int, lo: int) -> int {
    if v < lo {
        lo
    } else {
        v
    }
}

pub open spec fn not_above(v: int, hi: int) -> int {
    if v > hi {
        hi
    } else {
        v
    }
}

/// The held keys after an event. A key keeps the role that it was pressed with.
pub open spec fn held_after(
    held: Map<u32, HeldKeyRole>,
    keys: NormalKeys,
    event: KeyEvent,
) -> Map<u32, HeldKeyRole> {
    match event.state {
        KeyState::Pressed => match keys.role_of(normal_keysym(event.sym)) {
            Some(role) if !held.contains_key(event.key) => held.insert(event.key, role),
            _ => held,
        },
        KeyState::Released => held.remove(event.key),
        KeyState::Repeated => held,
    }
}

/// What normal mode does with a key event, with the cursor at `cx`, `cy`.
pub open spec fn normal_step(
    keys: NormalKeys,
    monitor: Monitor,
    cx: int,
    cy: int,
    event: KeyEvent,
) -> StepView {
    let sym = normal_keysym(event.sym);
    let x = absolute(monitor.x as int, cx);
    let y = absolute(monitor.y as int, cy);
    if event.state != KeyState::Pressed {
        idle()
    } else if sym == keysyms::ESCAPE {
        leave_for(Next::Leave)
    } else if sym == keys.buttons@[0] {
        warp_then_click(x, y, 1)
    } else if sym == keys.buttons@[1] {
        click_then_leave(x, y, 2)
    } else if sym == keys.buttons@[2] {
        warp_then_click(x, y, 3)
    } else if sym == keysyms::X {
        leave_for(Next::HintMode)
    } else if sym == keysyms::G {
        leave_for(Next::GridMode)
    } else {
        idle()
    }
}

// ---------------------------------------------------------------------------
// The start
// ---------------------------------------------------------------------------

/// Whether to wait on for the real pointer to move, so many milliseconds after
/// the wait began.
pub fn awaits_motion(
    sample: Option<(Coord, Coord, PointerPosSource)>,
    elapsed: u128,
) -> (b: bool)
    ensures
        b == (elapsed < STARTUP_MILLIS && !(sample matches Some((_, _, source)) && source
            == PointerPosSource::Motion)),
{
    match sample {
        Some((_, _, PointerPosSource::Motion)) => false,
        _ => elapsed < STARTUP_MILLIS,
    }
}

/// Whether an absolute position is on the monitor, a pixel around it included.
pub open spec fn near_monitor(m: Monitor, x: int, y: int) -> bool {
    &&& (m.x - 1) * UNIT <= x < (m.x + m.width + 1) * UNIT
    &&& (m.y - 1) * UNIT <= y < (m.y + m.height + 1) * UNIT
}

/// A coordinate on a monitor in the compositor's logical space.
pub open spec fn pointed_at(origin: int, v: int) -> int {
    double(origin * UNIT + v, 1)
}

/// The index of the first monitor that has the absolute position, or the number
/// of monitors if there is none.
pub open spec fn monitor_at(monitors: Seq<Monitor>, x: int, y: int) -> int
    decreases monitors.len(),
{
    if monitors.len() == 0 {
        0
    } else {
        let before = monitor_at(monitors.drop_last(), x, y);
        if before < monitors.len() - 1 || near_monitor(monitors.last(), x, y) {
            before
        } else {
            monitors.len() as int
        }
    }
}

/// Whether an absolute position is on the monitor, a pixel around it included.
/// Edges beyond `i32` are no obstacle.
fn is_near_monitor(m: &Monitor, x: Coord, y: Coord) -> (b: bool)
    ensures
        b == near_monitor(*m, x as int, y as int),
{
    let right: Coord = px(m.x) + px(m.width);
    let bottom: Coord = px(m.y) + px(m.height);
    assert(right == (m.x + m.width) * UNIT && bottom == (m.y + m.height) * UNIT);
    px(m.x) - UNIT <= x && x < right + UNIT && px(m.y) - UNIT <= y && y < bottom + UNIT
}

/// The monitor that the real pointer is on, where its motion on the overlay of
/// the focused monitor tells that.
pub fn find_pointer_monitor(
    focused: &Monitor,
    monitors: &Vec<Monitor>,
    sample: (Coord, Coord, PointerPosSource),
) -> (found: Option<usize>)
    requires
        near_origin(sample.0),
        near_origin(sample.1),
    ensures
        ({
            let i = monitor_at(
                monitors@,
                pointed_at(focused.x as int, sample.0 as int),
                pointed_at(focused.y as int, sample.1 as int),
            );
            match found {
                Some(k) => sample.2 == PointerPosSource::Motion && k == i && i < monitors.len(),
                None => sample.2 != PointerPosSource::Motion || i == monitors.len(),
            }
        }),
{
    if sample.2 != PointerPosSource::Motion {
        return None;
    }
    let x: Coord = to_double(px(focused.x) + sample.0);
    let y: Coord = to_double(px(focused.y) + sample.1);
    let mut i: usize = 0;
    while i < monitors.len()
        invariant
            i <= monitors.len(),
            sample.2 == PointerPosSource::Motion,
            x == pointed_at(focused.x as int, sample.0 as int),
            y == pointed_at(focused.y as int, sample.1 as int),
            monitor_at(monitors@.take(i as int), x as int, y as int) == i,
        decreases monitors.len() - i,
    {
        assert(monitors@.take(i + 1).drop_last() =~= monitors@.take(i as int));
        if is_near_monitor(&monitors[i], x, y) {
            proof {
                lemma_monitor_at_prefix(monitors@, i + 1, x as int, y as int);
            }
            return Some(i);
        }
        i = i + 1;
    }
    assert(monitors@.take(i as int) =~= monitors@);
    None
}

/// A monitor found in the first few is found in all.
proof fn lemma_monitor_at_prefix(monitors: Seq<Monitor>, n: int, x: int, y: int)
    requires
        0 <= n <= monitors.len(),
        monitor_at(monitors.take(n), x, y) < n,
    ensures
        monitor_at(monitors, x, y) == monitor_at(monitors.take(n), x, y),
    decreases monitors.len(),
{
    if n < monitors.len() {
        assert(monitors.drop_last().take(n) =~= monitors.take(n));
        lemma_monitor_at_prefix(monitors.drop_last(), n, x, y);
    } else {
        assert(monitors.take(n) =~= monitors);
    }
}

pub open spec fn owned(found: Option<&Monitor>) -> Option<Monitor> {
    match found {
        Some(m) => Some(*m),
        None => None,
    }
}

/// The monitor to go on with: the one that the pointer is on, if that is known.
pub open spec fn retargeted(focused: Monitor, found: Option<Monitor>) -> Monitor {
    match found {
        Some(m) if m.output != focused.output => m,
        _ => focused,
    }
}

/// Whether the overlay has to move to the monitor that was found.
pub fn needs_retarget(focused: &Monitor, found: &Monitor) -> (b: bool)
    ensures
        b == (found.output != focused.output),
{
    found.output != focused.output
}

/// The pointer position relative to the monitor to go on with.
pub open spec fn start_point(focused: Monitor, found: Option<Monitor>, x: int, y: int) -> (
    int,
    int,
) {
    let on = retargeted(focused, found);
    match found {
        Some(_) => (
            double(pointed_at(focused.x as int, x) - on.x * UNIT, 1),
            double(pointed_at(focused.y as int, y) - on.y * UNIT, 1),
        ),
        None => (x, y),
    }
}

/// What a pointer position means on the monitor to go on with.
pub open spec fn start_reading(
    focused: Monitor,
    found: Option<Monitor>,
    sample: (Coord, Coord, PointerPosSource),
) -> Option<(Seq<char>, int, int)> {
    let on = retargeted(focused, found);
    let (x, y) = start_point(focused, found, sample.0 as int, sample.1 as int);
    reading(
        x,
        y,
        on.x * UNIT,
        on.y * UNIT,
        on.width * UNIT,
        on.height * UNIT,
        sample.2 == PointerPosSource::Motion,
    )
}

/// A position in the coordinates of an output with the given transform, with
/// the transform's name.
pub fn transformed_position(
    transform: Transform,
    x: Double,
    y: Double,
    max_x: Double,
    max_y: Double,
) -> (r: (&'static str, Double, Double))
    requires
        x.wf(),
        y.wf(),
        max_x.wf(),
        max_y.wf(),
    ensures
        ({
            let (left, top) = (x@, y@);
            let (right, bottom) = (double(max_x@ - x@, 1), double(max_y@ - y@, 1));
            (r.0@, r.1@, r.2@) == (match transform {
                Transform::Normal => ("Normal"@, left, top),
                Transform::_90 => ("_90"@, top, right),
                Transform::_180 => ("_180"@, right, bottom),
                Transform::_270 => ("_270"@, bottom, left),
                Transform::Flipped => ("Flipped"@, right, top),
                Transform::Flipped90 => ("Flipped90"@, bottom, right),
                Transform::Flipped180 => ("Flipped180"@, left, bottom),
                Transform::Flipped270 => ("Flipped270"@, top, left),
            })
        }),
{
    let right: Double = sum(max_x, negated(x));
    let bottom: Double = sum(max_y, negated(y));
    match transform {
        Transform::Normal => ("Normal", x, y),
        Transform::_90 => ("_90", y, right),
        Transform::_180 => ("_180", right, bottom),
        Transform::_270 => ("_270", bottom, x),
        Transform::Flipped => ("Flipped", right, y),
        Transform::Flipped90 => ("Flipped90", bottom, right),
        Transform::Flipped180 => ("Flipped180", x, bottom),
        Transform::Flipped270 => ("Flipped270", y, x),
    }
}

impl NormalState {
    /// No key is held, and the cursor is in the middle of the monitor.
    pub fn new(monitor: &Monitor) -> (s: NormalState)
        ensures
            s.wf(),
            s@ == (NormalView {
                cx: monitor.width * pow2(1073),
                cy: monitor.height * pow2(1073),
                last_sample: None,
                held: Map::empty(),
            }),
            monitor.width >= 1 && monitor.height >= 1 ==> s@.wf(*monitor),
    {
        proof {
            lemma_middle(monitor.width as int);
            lemma_middle(monitor.height as int);
        }
        NormalState {
            cx: halved(whole(monitor.width)),
            cy: halved(whole(monitor.height)),
            last_sample: None,
            held: HashMap::new(),
        }
    }

    /// Puts the cursor where the real pointer is, as far as the pointer position
    /// tells that. `found` is the monitor of [`find_pointer_monitor`]. Gives the
    /// name of the reading that fits, if one does.
    pub fn place(
        &mut self,
        focused: &Monitor,
        found: Option<&Monitor>,
        sample: (Coord, Coord, PointerPosSource),
    ) -> (mapping: Option<&'static str>)
        requires
            old(self).wf(),
            near_origin(sample.0),
            near_origin(sample.1),
            ({
                let on = retargeted(*focused, owned(found));
                on.width >= 1 && on.height >= 1
            }),
        ensures
            ({
                let f = owned(found);
                let on = retargeted(*focused, f);
                let start = start_reading(*focused, f, sample);
                let (x, y) = match start {
                    Some((_, x, y)) => (number_of(x), number_of(y)),
                    None => (old(self)@.cx, old(self)@.cy),
                };
                &&& (match mapping {
                    Some(name) => start matches Some((n, _, _)) && n == name@,
                    None => start is None,
                })
                &&& final(self).wf()
                &&& final(self)@.cx == clamp(x, 0, (on.width - 1) * one())
                &&& final(self)@.cy == clamp(y, 0, (on.height - 1) * one())
                &&& final(self)@.last_sample == (if sample.2 == PointerPosSource::Motion {
                    Some((sample.0, sample.1))
                } else {
                    old(self)@.last_sample
                })
                &&& final(self)@.held == old(self)@.held
                &&& final(self)@.wf(on)
            }),
    {
        let on: &Monitor = match found {
            Some(m) => if needs_retarget(focused, m) {
                m
            } else {
                focused
            },
            None => focused,
        };
        if sample.2 == PointerPosSource::Motion {
            self.last_sample = Some((sample.0, sample.1));
        }
        let (x, y): (Coord, Coord) = if found.is_some() {
            (
                to_double(to_double(px(focused.x) + sample.0) - px(on.x)),
                to_double(to_double(px(focused.y) + sample.1) - px(on.y)),
            )
        } else {
            (sample.0, sample.1)
        };
        let start: Option<(&'static str, Coord, Coord)> = resolve_initial_pointer_position(
            x,
            y,
            px(on.x),
            px(on.y),
            px(on.width),
            px(on.height),
            sample.2 == PointerPosSource::Motion,
        );
        let mapping: Option<&'static str> = match start {
            Some((name, sx, sy)) => {
                proof {
                    lemma_on_surface(
                        sx as int,
                        sy as int,
                        on.width as int,
                        on.height as int,
                    );
                }
                self.cx = from_units(sx);
                self.cy = from_units(sy);
                Some(name)
            },
            None => None,
        };
        proof {
            lemma_far_edge(on.width as int);
            lemma_far_edge(on.height as int);
        }
        self.cx = held_inside(self.cx, whole(on.width - 1));
        self.cy = held_inside(self.cy, whole(on.height - 1));
        mapping
    }

    /// Whether a key with the role is held.
    pub fn holds(&self, role: HeldKeyRole) -> (found: bool)
        ensures
            found == self@.holds(role),
    {
        broadcast use vstd::std_specs::hash::group_hash_axioms;

        let mut found: bool = false;
        let ghost vs = vstd::std_specs::hash::spec_values_iter(&self.held).remaining();
        for v in it: self.held.values()
            invariant
                it.seq() == vs,
                it.seq().unref().to_set() == self.held@.values(),
                found == (exists|k: int| 0 <= k < it.index() && *it.seq()[k] == role),
        {
            if *v == role {
                found = true;
            }
        }
        proof {
            let u = vs.unref();
            assert(u.len() == vs.len());
            assert(forall|k: int| 0 <= k < u.len() ==> #[trigger] u[k] == *vs[k]);
            assert(u.to_set().contains(role) == (exists|k: int| 0 <= k < u.len() && u[k] == role));
            assert(found ==> exists|k: int| 0 <= k < u.len() && u[k] == role) by {
                let k = choose|k: int| 0 <= k < vs.len() && *vs[k] == role;
                assert(found ==> u[k] == role);
            }
        }
        found
    }

    /// Whether a direction key is held.
    pub fn steering(&self) -> (b: bool)
        ensures
            b == self@.steering(),
    {
        self.holds(HeldKeyRole::MoveLeft) || self.holds(HeldKeyRole::MoveDown) || self.holds(
            HeldKeyRole::MoveUp,
        ) || self.holds(HeldKeyRole::MoveRight)
    }

    /// Takes in the real pointer's position, and gives whether the cursor moved.
    pub fn follow_pointer(
        &mut self,
        monitor: &Monitor,
        sample: Option<(Coord, Coord, PointerPosSource)>,
    ) -> (moved: bool)
        requires
            sample matches Some((x, y, _)) ==> near_origin(x) && near_origin(y),
            old(self)@.last_sample matches Some((x, y)) ==> near_origin(x) && near_origin(y),
        ensures
            (final(self)@, moved) == old(self)@.following(*monitor, sample),
            final(self)@.last_sample matches Some((x, y)) ==> near_origin(x) && near_origin(y),
            old(self)@.wf(*monitor) ==> final(self)@.wf(*monitor),
            old(self).wf() ==> final(self).wf(),
    {
        if self.steering() {
            return false;
        }
        match sample {
            Some((x, y, PointerPosSource::Motion)) => {
                let changed: bool = match self.last_sample {
                    Some((lx, ly)) => apart(lx, x) || apart(ly, y),
                    None => true,
                };
                if !changed {
                    return false;
                }
                self.last_sample = Some((x, y));
                proof {
                    lemma_on_surface(
                        x as int,
                        y as int,
                        monitor.width as int,
                        monitor.height as int,
                    );
                }
                if 0 <= x && x <= px(monitor.width) - UNIT && 0 <= y && y <= px(monitor.height)
                    - UNIT {
                    proof {
                        lemma_number_inside(x as int, monitor.width as int);
                        lemma_number_inside(y as int, monitor.height as int);
                        lemma_far_edge(monitor.width as int);
                        lemma_far_edge(monitor.height as int);
                    }
                    self.cx = from_units(x);
                    self.cy = from_units(y);
                    true
                } else {
                    false
                }
            },
            _ => false,
        }
    }

    /// Takes in a key event: holds or releases the key, and clicks or leaves
    /// where the key asks for that.
    pub fn key(&mut self, keys: &NormalKeys, monitor: &Monitor, event: &KeyEvent) -> (s: Step)
        requires
            old(self).wf(),
            old(self)@.wf(*monitor),
        ensures
            final(self).wf(),
            final(self)@ == (NormalView {
                held: held_after(old(self)@.held, *keys, *event),
                ..old(self)@
            }),
            s@ == normal_step(*keys, *monitor, old(self)@.cx, old(self)@.cy, *event),
    {
        broadcast use vstd::std_specs::hash::group_hash_axioms;

        let sym: u32 = normalize_keysym(event.sym);
        match event.state {
            KeyState::Pressed => {
                if let Some(role) = keys.role(sym) {
                    if !self.held.contains_key(&event.key) {
                        self.held.insert(event.key, role);
                    }
                }
            },
            KeyState::Released => {
                self.held.remove(&event.key);
                return to_idle();
            },
            KeyState::Repeated => {
                return to_idle();
            },
        }
        if sym == keysyms::ESCAPE {
            return to_leave_for(Next::Leave);
        }
        proof {
            lemma_far_edge(monitor.width as int);
            lemma_far_edge(monitor.height as int);
        }
        let x: Coord = to_absolute(monitor.x, self.cx);
        let y: Coord = to_absolute(monitor.y, self.cy);
        if sym == keys.buttons[0] {
            to_warp_then_click(x, y, 1)
        } else if sym == keys.buttons[1] {
            to_click_then_leave(x, y, 2)
        } else if sym == keys.buttons[2] {
            to_warp_then_click(x, y, 3)
        } else if sym == keysyms::X {
            to_leave_for(Next::HintMode)
        } else if sym == keysyms::G {
            to_leave_for(Next::GridMode)
        } else {
            to_idle()
        }
    }

    /// Moves the cursor as the held keys say, for the time since the last frame
    /// in nanoseconds, and gives whether a direction is held.
    pub fn frame(&mut self, monitor: &Monitor, speed: u32, elapsed: u64, multiplier: Double) -> (
    moved: bool)
        requires
            old(self).wf(),
            old(self)@.wf(*monitor),
            multiplier.wf(),
            multiplier@ > 0,
        ensures
            (final(self)@, moved) == old(self)@.advanced(
                *monitor,
                old(self)@.frame_length(speed as int, elapsed as int, multiplier@),
            ),
            final(self).wf(),
            final(self)@.wf(*monitor),
    {
        let time: u32 = if elapsed > FRAME_LIMIT {
            FRAME_LIMIT as u32
        } else {
            elapsed as u32
        };
        let plain: Double = to_distance(speed, time);
        let length: Double = if self.holds(HeldKeyRole::SpeedModifier) {
            proof {
                lemma_bits_sign(multiplier);
            }
            capped(product(plain, multiplier))
        } else {
            plain
        };
        let max_x: Double = whole(monitor.width - 1);
        let max_y: Double = whole(monitor.height - 1);
        proof {
            let exact = self@.frame_length(speed as int, elapsed as int, multiplier@);
            assert(stands_for(length, exact));
            let v = self@;
            law_cursor_stays_on_monitor(v, *monitor, exact, None);
            lemma_moves_inside(v.cx, exact, monitor.width as int);
            lemma_moves_inside(v.cy, exact, monitor.height as int);
            lemma_far_edge(monitor.width as int);
            lemma_far_edge(monitor.height as int);
        }
        let left: bool = self.holds(HeldKeyRole::MoveLeft);
        let right: bool = self.holds(HeldKeyRole::MoveRight);
        let up: bool = self.holds(HeldKeyRole::MoveUp);
        let down: bool = self.holds(HeldKeyRole::MoveDown);
        if left {
            self.cx = lowered_by(self.cx, length);
        }
        if right {
            self.cx = raised_by(self.cx, length, max_x);
        }
        if up {
            self.cy = lowered_by(self.cy, length);
        }
        if down {
            self.cy = raised_by(self.cy, length, max_y);
        }
        left || right || up || down
    }
}

fn held_inside(v: Double, hi: Double) -> (r: Double)
    requires
        v.wf(),
        hi.wf(),
        hi@ >= 0,
    ensures
        r@ == clamp(v@, 0, hi@),
        r.wf(),
{
    proof {
        lemma_bits_sign(v);
        assert(0 * one() == 0);
    }
    if v.bits < 0 {
        whole(0)
    } else if is_less(hi, v) {
        hi
    } else {
        v
    }
}

/// Whether two positions are more than a hundredth of a pixel apart.
fn apart(a: Coord, b: Coord) -> (r: bool)
    requires
        near_origin(a),
        near_origin(b),
    ensures
        r == (100 * abs(a - b) > UNIT),
{
    let d: Coord = if a < b {
        b - a
    } else {
        a - b
    };
    100 * d > UNIT
}

/// What is farther than any monitor is long: 2^126 pixels.
spec fn far() -> int {
    pow2(1200) as int
}

/// Whether `length` is `exact`, or both are beyond every monitor.
spec fn stands_for(length: Double, exact: int) -> bool {
    length@ == exact || (far() <= length@ && far() <= exact)
}

/// How far the cursor goes at a speed in a time.
fn to_distance(speed: u32, time: u32) -> (r: Double)
    requires
        time <= FRAME_LIMIT,
    ensures
        r@ == distance(speed as int, time as int),
        r.wf(),
        r@ >= 0,
        r.bits >= 0,
{
    let b: Double = ratio(speed, 60);
    let t: Double = ratio(time, 1_000_000_000);
    let a: Double = product(b, t);
    proof {
        lemma_short_distance(speed as int, time as int);
        lemma_bits_sign(a);
    }
    let sixty: Double = Double { bits: 60, shift: 1074 };
    let r: Double = product(a, sixty);
    proof {
        lemma_bits_sign(r);
        lemma_times_whole(a@, 60);
    }
    r
}

/// No speed takes the cursor out of the range of doubles.
proof fn lemma_short_distance(speed: int, time: int)
    requires
        0 <= speed <= u32::MAX,
        0 <= time <= FRAME_LIMIT,
    ensures
        double(frame_speed(speed) * seconds(time), one()) < infinite(),
        distance(speed, time) < infinite(),
{
    lemma2_to64();
    lemma2_to64_rest();
    lemma_pow2_pos(1074);
    lemma_pow2_adds(32, 1074);
    lemma_pow2_adds(1074, 1106);
    lemma_pow2_adds(6, 1106);
    lemma_pow2_strictly_increases(1106, 2098);
    lemma_pow2_strictly_increases(1112, 2098);
    let p = one();
    assert(0 <= speed * p <= 60 * (0x1_0000_0000 * p) && 0 <= time * p <= 1_000_000_000 * p)
        by (nonlinear_arith)
        requires
            0 <= speed <= 0x1_0000_0000,
            0 <= time <= 1_000_000_000,
            p > 0,
    ;
    let (x, y) = (frame_speed(speed), seconds(time));
    lemma_at_most(speed * p, 60, 1106);
    lemma_at_most(time * p, 1_000_000_000, 1074);
    let q = pow2(1106) as int;
    assert(0 <= x * y <= q * p) by (nonlinear_arith)
        requires
            0 <= x <= q,
            0 <= y <= p,
    ;
    assert(q * p == p * q) by (nonlinear_arith);
    lemma_at_most(x * y, p, 1106);
    let a = double(x * y, p);
    lemma_at_most(a * 60, 1, 1112);
}

/// A quotient that is at most a power of two rounds to one that is.
proof fn lemma_at_most(n: int, d: int, i: nat)
    requires
        d > 0,
        0 <= n <= d * pow2(i),
    ensures
        0 <= double(n, d) <= pow2(i),
{
    lemma_double_positive(n, d);
    lemma_double_ordered(n, d * pow2(i), d);
    lemma_whole_ratio(d, i);
}

/// A length, or one beyond every monitor where it is beyond what a double holds.
fn capped(d: Double) -> (r: Double)
    requires
        d@ >= 0,
        d@ < infinite() ==> d.wf(),
    ensures
        stands_for(r, d@),
        r.wf(),
        r@ >= 0,
{
    proof {
        lemma_pow2_pos(1200);
        lemma_pow2_strictly_increases(1200, 2098);
        assert(1 * pow2(1200) == pow2(1200));
    }
    if d.shift <= SHIFT_LIMIT && -BITS53 <= d.bits && d.bits <= BITS53 {
        d
    } else {
        Double { bits: 1, shift: 1200 }
    }
}

fn lowered_by(v: Double, length: Double) -> (r: Double)
    requires
        v.wf(),
        length.wf(),
        0 <= v@ < far(),
        0 <= length@,
    ensures
        forall|exact: int| stands_for(length, exact) ==> r@ == #[trigger] lowered(v@, exact),
        r.wf(),
        0 <= r@,
{
    let s: Double = sum(v, negated(length));
    proof {
        lemma_pow2_strictly_increases(1200, 2098);
        lemma_is_double(v);
        lemma_bits_sign(s);
        lemma_double_ordered(v@ - length@, v@, 1);
        assert(0 * one() == 0);
        assert forall|exact: int| stands_for(length, exact) implies (if s@ < 0 {
            0
        } else {
            s@
        }) == #[trigger] lowered(v@, exact) by {
            lemma_double_negated(exact - v@, 1);
            lemma_double_negated(length@ - v@, 1);
            if length@ != exact {
                lemma_double_positive(exact - v@, 1);
                lemma_double_positive(length@ - v@, 1);
            }
        }
    }
    if s.bits < 0 {
        whole(0)
    } else {
        s
    }
}

fn raised_by(v: Double, length: Double, hi: Double) -> (r: Double)
    requires
        v.wf(),
        length.wf(),
        hi.wf(),
        0 <= v@ < far(),
        0 <= length@,
        0 <= hi@ < far(),
    ensures
        forall|exact: int|
            stands_for(length, exact) ==> r@ == #[trigger] raised(v@, exact, hi@),
        r.wf(),
        0 <= r@ <= hi@,
{
    proof {
        lemma_is_double(hi);
    }
    if is_less(hi, length) {
        proof {
            assert forall|exact: int| stands_for(length, exact) implies hi@ == #[trigger] raised(
                v@,
                exact,
                hi@,
            ) by {
                lemma_double_ordered(hi@, v@ + exact, 1);
            }
        }
        return hi;
    }
    let s: Double = sum(v, length);
    proof {
        lemma_sum_near(v, length@);
        lemma_pow2_adds(2, 1200);
        lemma2_to64();
        lemma_pow2_strictly_increases(1202, 2098);
        lemma_double_positive(v@ + length@, 1);
    }
    if is_less(hi, s) {
        hi
    } else {
        s
    }
}

/// The middle of a side is a double.
proof fn lemma_middle(length: int)
    requires
        i32::MIN <= length <= i32::MAX,
    ensures
        double(length * one(), 2) == length * pow2(1073),
        1 <= length ==> 0 <= length * pow2(1073) <= far_edge(length),
{
    lemma_pow2_unfold(1074);
    lemma_pow2_pos(1073);
    let p = pow2(1073) as int;
    assert(length * (2 * p) == 2 * (length * p)) by (nonlinear_arith);
    lemma_double_exact(length, 1073);
    lemma_double_scaled(length * p, 1);
    assert(1 <= length ==> 0 <= length * p) by (nonlinear_arith)
        requires
            p > 0,
    ;
    assert(2 <= length ==> length * p <= (length - 1) * (2 * p)) by (nonlinear_arith)
        requires
            p > 0,
    ;
}

/// The far edge is a double.
proof fn lemma_far_edge(length: int)
    requires
        1 <= length <= i32::MAX,
    ensures
        double(far_edge(length), 1) == far_edge(length),
        0 <= (length - 1) * one() <= far_edge(length) < far(),
        far_edge(length) <= selection_limit(),
{
    lemma2_to64();
    lemma2_to64_rest();
    lemma_pow2_unfold(1074);
    lemma_pow2_pos(1073);
    lemma_pow2_adds(41, 1073);
    lemma_pow2_strictly_increases(1114, 1200);
    let p = pow2(1073) as int;
    let m = if length >= 2 {
        2 * (length - 1)
    } else {
        length
    };
    assert((2 * (length - 1)) * p == (length - 1) * (2 * p)) by (nonlinear_arith);
    assert(0 <= m * p <= 0x1_0000_0000 * p) by (nonlinear_arith)
        requires
            0 <= m <= 0x1_0000_0000,
            p > 0,
    ;
    lemma_double_exact(m, 1073);
}

/// A coordinate on a side is on it as a number.
proof fn lemma_number_inside(x: int, side: int)
    requires
        0 <= x <= (side - 1) * UNIT,
        side <= i32::MAX,
    ensures
        0 <= number_of(x) <= (side - 1) * one(),
        side >= 1,
{
    lemma2_to64_rest();
    lemma_pow2_pos(1022);
    lemma_pow2_adds(52, 1022);
    let (p, n) = (pow2(1022) as int, side - 1);
    assert(0 <= x * p <= (n * UNIT) * p) by (nonlinear_arith)
        requires
            0 <= x <= n * UNIT,
            p > 0,
    ;
    assert((n * UNIT) * p == n * (UNIT * p)) by (nonlinear_arith);
    lemma_double_positive(x * p, 1);
    lemma_double_exact(n, 1074);
    lemma_double_ordered(x * p, n * one(), 1);
}

/// Moving along a side stays between its edges.
proof fn lemma_moves_inside(v: int, length: int, side: int)
    requires
        1 <= side <= i32::MAX,
        0 <= v <= far_edge(side),
        length >= 0,
    ensures
        0 <= lowered(v, length) <= far_edge(side),
        0 <= raised(v, length, (side - 1) * one()) <= (side - 1) * one() <= far_edge(side),
{
    lemma_far_edge(side);
    lemma_double_ordered(v - length, far_edge(side), 1);
    lemma_double_positive(v + length, 1);
}

// ---------------------------------------------------------------------------
// Laws
// ---------------------------------------------------------------------------

/// Every step of normal mode is orderly.
pub proof fn law_normal_mode_orderly(
    keys: NormalKeys,
    monitor: Monitor,
    cx: int,
    cy: int,
    event: KeyEvent,
)
    ensures
        orderly(normal_step(keys, monitor, cx, cy, event)),
{
    let x = absolute(monitor.x as int, cx);
    let y = absolute(monitor.y as int, cy);
    lemma_scripts_orderly(x, y, 1, Next::Leave);
    lemma_scripts_orderly(x, y, 2, Next::HintMode);
    lemma_scripts_orderly(x, y, 3, Next::GridMode);
}

/// Where the pointer's motion lies on the monitor that was found, the cursor
/// starts exactly at the pointer, on whichever monitor had the overlay, as long as
/// nothing is rounded on the way from one monitor to the other.
pub proof fn law_cursor_starts_at_pointer(
    focused: Monitor,
    found: Monitor,
    x: Coord,
    y: Coord,
    source: PointerPosSource,
)
    requires
        ({
            let on = retargeted(focused, Some(found));
            let (rel_x, rel_y) = start_point(focused, Some(found), x as int, y as int);
            &&& on_surface(rel_x, rel_y, on.width * UNIT, on.height * UNIT)
            &&& rel_x == focused.x * UNIT + x - on.x * UNIT
            &&& rel_y == focused.y * UNIT + y - on.y * UNIT
        }),
    ensures
        ({
            let on = retargeted(focused, Some(found));
            &&& start_reading(focused, Some(found), (x, y, source)) matches Some((name, cx, cy))
            &&& name == "surface-local"@
            &&& on.x * UNIT + cx == focused.x * UNIT + x
            &&& on.y * UNIT + cy == focused.y * UNIT + y
            &&& clamp(cx, 0, (on.width - 1) * UNIT) == cx
            &&& clamp(cy, 0, (on.height - 1) * UNIT) == cy
        }),
{
    let on = retargeted(focused, Some(found));
    let (rel_x, rel_y) = start_point(focused, Some(found), x as int, y as int);
    lemma_on_surface(rel_x, rel_y, on.width as int, on.height as int);
}

/// A click of normal mode lands on the monitor.
pub proof fn law_normal_click_on_monitor(
    keys: NormalKeys,
    monitor: Monitor,
    s: NormalView,
    event: KeyEvent,
)
    requires
        s.wf(monitor),
    ensures
        warps_on(normal_step(keys, monitor, s.cx, s.cy, event), monitor),
{
    lemma_absolute(monitor.x as int, s.cx, monitor.width as int);
    lemma_absolute(monitor.y as int, s.cy, monitor.height as int);
}

/// A position between the edges of a side is between them in the compositor's
/// logical space, rounded or not.
proof fn lemma_absolute(origin: int, v: int, side: int)
    requires
        i32::MIN <= origin <= i32::MAX,
        1 <= side <= i32::MAX,
        0 <= v <= far_edge(side),
    ensures
        origin * UNIT <= absolute(origin, v) < (origin + side) * UNIT,
{
    lemma2_to64_rest();
    lemma_pow2_unfold(1074);
    lemma_pow2_pos(1073);
    lemma_pow2_strictly_increases(1022, 1073);
    let p = pow2(1073) as int;
    let m = if side >= 2 {
        2 * (origin + side - 1)
    } else {
        2 * origin + 1
    };
    assert((2 * origin) * p == origin * (2 * p)) by (nonlinear_arith);
    assert(side >= 2 ==> m * p == origin * (2 * p) + (side - 1) * (2 * p)) by (nonlinear_arith)
        requires
            side >= 2 ==> m == 2 * (origin + side - 1),
    ;
    assert(side == 1 ==> m * p == origin * (2 * p) + side * p) by (nonlinear_arith)
        requires
            side == 1 ==> m == 2 * origin + 1,
    ;
    assert((origin + side) * (2 * p) >= m * p + p) by (nonlinear_arith)
        requires
            m <= 2 * (origin + side) - 1,
            p > 0,
    ;
    lemma_double_exact(2 * origin, 1073);
    lemma_double_exact(m, 1073);
    lemma_double_ordered(origin * one(), origin * one() + v, 1);
    lemma_double_ordered(origin * one() + v, m * p, 1);
    lemma_units_between(double(origin * one() + v, 1), origin, origin + side);
}

/// The cursor stays on the monitor whatever moves it, and with two pixels or more
/// each way it never goes beyond the near edge of the last one.
pub proof fn law_cursor_stays_on_monitor(
    s: NormalView,
    monitor: Monitor,
    length: int,
    sample: Option<(Coord, Coord, PointerPosSource)>,
)
    requires
        s.wf(monitor),
        length >= 0,
    ensures
        s.advanced(monitor, length).0.wf(monitor),
        s.following(monitor, sample).0.wf(monitor),
        ({
            let (moved, followed) = (
                s.advanced(monitor, length).0,
                s.following(monitor, sample).0,
            );
            &&& monitor.width >= 2 ==> moved.cx <= (monitor.width - 1) * one() && followed.cx <= (
            monitor.width - 1) * one()
            &&& monitor.height >= 2 ==> moved.cy <= (monitor.height - 1) * one() && followed.cy <= (
            monitor.height - 1) * one()
        }),
{
    let (w, h) = (monitor.width as int, monitor.height as int);
    lemma_moves_inside(s.cx, length, w);
    lemma_moves_inside(lowered(s.cx, length), length, w);
    lemma_moves_inside(s.cy, length, h);
    lemma_moves_inside(lowered(s.cy, length), length, h);
    lemma_far_edge(w);
    lemma_far_edge(h);
    if let Some((x, y, _)) = sample {
        lemma_on_surface(x as int, y as int, w, h);
        if on_surface(x as int, y as int, w * UNIT, h * UNIT) {
            lemma_number_inside(x as int, w);
            lemma_number_inside(y as int, h);
        }
    }
}

/// A key that was not held is held with its role from its press to its release,
/// whatever the keyboard repeats in between, and its release leaves the other
/// keys as they were.
pub proof fn law_press_then_release(
    held: Map<u32, HeldKeyRole>,
    keys: NormalKeys,
    press: KeyEvent,
    repeat: KeyEvent,
    release: KeyEvent,
)
    requires
        !held.contains_key(press.key),
        press.state == KeyState::Pressed,
        repeat.state == KeyState::Repeated,
        release.state == KeyState::Released,
        release.key == press.key,
    ensures
        ({
            let pressed = held_after(held, keys, press);
            let repeated = held_after(pressed, keys, repeat);
            let released = held_after(repeated, keys, release);
            &&& match keys.role_of(normal_keysym(press.sym)) {
                Some(role) => repeated == held.insert(press.key, role),
                None => repeated == held,
            }
            &&& released == held
        }),
{
    let pressed = held_after(held, keys, press);
    assert(pressed.remove(press.key) =~= held);
}

/// A key's role does not change while it is held, and a letter has the role of
/// its key whether Shift is held or not.
pub proof fn law_role_is_kept(held: Map<u32, HeldKeyRole>, keys: NormalKeys, event: KeyEvent)
    ensures
        held.contains_key(event.key) && event.state != KeyState::Released ==> held_after(
            held,
            keys,
            event,
        ) == held,
        0x61 <= event.sym <= 0x7a ==> normal_keysym((event.sym - 32) as u32) == normal_keysym(
            event.sym,
        ),
{
}

/// While a direction is held, the real pointer does not move the cursor.
pub proof fn law_keys_before_pointer(
    s: NormalView,
    monitor: Monitor,
    sample: Option<(Coord, Coord, PointerPosSource)>,
)
    requires
        s.steering(),
    ensures
        s.following(monitor, sample) == (s, false),
{
}

/// The same pointer position twice moves the cursor at most once.
pub proof fn law_follow_settles(
    s: NormalView,
    monitor: Monitor,
    sample: Option<(Coord, Coord, PointerPosSource)>,
)
    ensures
        ({
            let (once, _) = s.following(monitor, sample);
            once.following(monitor, sample) == (once, false)
        }),
{
}

/// A frame is the longer the more time it counts for, and none counts for more
/// than a twentieth of a second.
pub proof fn law_frame_length_monotonic(
    s: NormalView,
    speed: int,
    short: int,
    long: int,
    multiplier: int,
)
    requires
        speed >= 0,
        0 <= short <= long,
        multiplier > 0,
    ensures
        0 <= s.frame_length(speed, short, multiplier) <= s.frame_length(speed, long, multiplier),
        s.frame_length(speed, long, multiplier) <= s.frame_length(
            speed,
            FRAME_LIMIT as int,
            multiplier,
        ),
{
    let limit = FRAME_LIMIT as int;
    lemma_ordered_lengths(s, speed, not_above(short, limit), not_above(long, limit), multiplier);
    lemma_ordered_lengths(s, speed, not_above(long, limit), limit, multiplier);
}

proof fn lemma_ordered_lengths(s: NormalView, speed: int, a: int, b: int, multiplier: int)
    requires
        speed >= 0,
        0 <= a <= b <= FRAME_LIMIT,
        multiplier > 0,
    ensures
        0 <= s.frame_length(speed, a, multiplier) <= s.frame_length(speed, b, multiplier),
{
    lemma_pow2_pos(1074);
    let p = one();
    assert(speed * p >= 0 && 0 <= a * p <= b * p) by (nonlinear_arith)
        requires
            speed >= 0,
            0 <= a <= b,
            p > 0,
    ;
    lemma_double_positive(speed * p, 60);
    lemma_double_positive(a * p, 1_000_000_000);
    lemma_double_ordered(a * p, b * p, 1_000_000_000);
    let (v, x, y) = (frame_speed(speed), seconds(a), seconds(b));
    lemma_ordered_products(v, x, y, p);
    let (x1, y1) = (double(v * x, p), double(v * y, p));
    lemma_ordered_products(60, x1, y1, 1);
    let (x2, y2) = (distance(speed, a), distance(speed, b));
    lemma_ordered_products(multiplier, x2, y2, p);
    assert(multiplier * x2 == x2 * multiplier && multiplier * y2 == y2 * multiplier)
        by (nonlinear_arith);
}

proof fn lemma_ordered_products(v: int, x: int, y: int, d: int)
    requires
        v >= 0,
        0 <= x <= y,
        d > 0,
    ensures
        0 <= double(v * x, d) <= double(v * y, d),
{
    assert(0 <= v * x <= v * y) by (nonlinear_arith)
        requires
            v >= 0,
            0 <= x <= y,
    ;
    lemma_double_positive(v * x, d);
    lemma_double_ordered(v * x, v * y, d);
}

} // verus!
