//! The real pointer's position and the virtual pointer's moves.

use crate::double::{
    double, lemma_double_exact, lemma_double_negated, lemma_double_ordered, lemma_double_positive,
    to_double,
};
use crate::fixed::{clamp, px, to_u32, whole_pixels, Coord, UNIT};
use crate::wayland::{
    after_pointer_event, Monitor, PointerEvent, PointerPosSource, WaylandState,
};
use vstd::prelude::*;

verus! {

#[derive(Clone, Copy, Debug, PartialEq, Eq, Structural)]
pub enum ButtonState {
    Released,
    Pressed,
}

/// A request to the virtual pointer.
#[derive(Clone, Copy, Debug, PartialEq, Eq, Structural)]
pub enum PointerRequest {
    /// Move to `x / x_extent`, `y / y_extent` of the compositor's space.
    MotionAbsolute { time: u32, x: u32, y: u32, x_extent: u32, y_extent: u32 },
    Button { time: u32, button: u32, state: ButtonState },
    Frame,
}

// ---------------------------------------------------------------------------
// Pointer position
// ---------------------------------------------------------------------------

/// The pointer position on `surface` and where it came from, if that surface
/// has pointer focus.
pub open spec fn sample_on(state: WaylandState, surface: u64) -> Option<
    (Coord, Coord, PointerPosSource),
> {
    match (state.pointer_surface_pos, state.pointer_surface_pos_source) {
        (Some((x, y)), Some(source)) if state.pointer_focus_surface == Some(surface) => Some(
            (x, y, source),
        ),
        _ => None,
    }
}

/// The pointer position on `surface`, if that surface has pointer focus.
pub open spec fn position_on(state: WaylandState, surface: u64) -> Option<(Coord, Coord)> {
    if state.pointer_focus_surface == Some(surface) {
        state.pointer_surface_pos
    } else {
        None
    }
}

/// The pointer position on `surface` and where it came from, if that surface
/// has pointer focus.
pub fn surface_pointer_pos(state: &WaylandState, surface: u64) -> (pos: Option<
    (Coord, Coord, PointerPosSource),
>)
    ensures
        pos == sample_on(*state, surface),
{
    match state.pointer_focus_surface {
        Some(focus) => {
            if focus != surface {
                return None;
            }
        },
        None => {
            return None;
        },
    }
    match (state.pointer_surface_pos, state.pointer_surface_pos_source) {
        (Some((x, y)), Some(source)) => Some((x, y, source)),
        _ => None,
    }
}

/// The pointer position on `surface`, if that surface has pointer focus.
pub fn pointer_position_on_surface(state: &WaylandState, surface: u64) -> (pos: Option<
    (Coord, Coord),
>)
    ensures
        pos == position_on(*state, surface),
{
    match state.pointer_focus_surface {
        Some(focus) => if focus == surface {
            state.pointer_surface_pos
        } else {
            None
        },
        None => None,
    }
}

/// A surface has the pointer's position from the pointer's arrival, through its
/// motion, until the pointer leaves it. Leaving another surface changes nothing.
pub proof fn law_position_needs_focus(
    s: WaylandState,
    surface: u64,
    other: u64,
    from: (Coord, Coord),
    to: (Coord, Coord),
)
    requires
        other != surface,
    ensures
        ({
            let entered = after_pointer_event(
                s,
                PointerEvent::Enter { surface, x: from.0, y: from.1 },
            );
            let moved = after_pointer_event(entered, PointerEvent::Motion { x: to.0, y: to.1 });
            let left = after_pointer_event(moved, PointerEvent::Leave { surface });
            &&& position_on(entered, surface) == Some(from)
            &&& sample_on(entered, surface) == Some((from.0, from.1, PointerPosSource::Enter))
            &&& position_on(moved, surface) == Some(to)
            &&& sample_on(moved, surface) == Some((to.0, to.1, PointerPosSource::Motion))
            &&& position_on(moved, other) is None
            &&& after_pointer_event(moved, PointerEvent::Leave { surface: other }) == moved
            &&& position_on(left, surface) is None
            &&& sample_on(left, surface) is None
        }),
{
}

/// How far the numbers of a reading may lie from zero, so that their sums can be
/// computed: 2^70 pixels.
pub const READING_LIMIT: Coord = 0x400_0000_0000_0000_0000_0000_0000_0000;

pub open spec fn is_readable(v: Coord) -> bool {
    -READING_LIMIT <= v <= READING_LIMIT
}

/// Whether the position lies on a surface of the given size, the last pixel
/// row and column included only up to their near edge.
pub open spec fn on_surface(x: int, y: int, width: int, height: int) -> bool {
    0 <= x <= double(width - UNIT, 1) && 0 <= y <= double(height - UNIT, 1)
}

/// On a surface of whole pixels, the edge is where it is.
pub proof fn lemma_on_surface(x: int, y: int, width: int, height: int)
    requires
        i32::MIN <= width <= i32::MAX,
        i32::MIN <= height <= i32::MAX,
    ensures
        on_surface(x, y, width * UNIT, height * UNIT) == (0 <= x <= (width - 1) * UNIT && 0 <= y
            <= (height - 1) * UNIT),
{
    lemma_double_pixels(width - 1);
    lemma_double_pixels(height - 1);
}

fn is_on_surface(x: Coord, y: Coord, width: Coord, height: Coord) -> (r: bool)
    requires
        is_readable(width),
        is_readable(height),
    ensures
        r == on_surface(x as int, y as int, width as int, height as int),
{
    0 <= x && x <= to_double(width - UNIT) && 0 <= y && y <= to_double(height - UNIT)
}

/// The position on the monitor that a raw pointer position means, with the name
/// of the reading. Compositors differ: the first reading that falls on the
/// monitor counts, of the position as it stands, taken from the global origin
/// (only if that is allowed), and taken with the monitor's offset added.
pub open spec fn reading(
    raw_x: int,
    raw_y: int,
    monitor_x: int,
    monitor_y: int,
    width: int,
    height: int,
    allow_global_map: bool,
) -> Option<(Seq<char>, int, int)> {
    let (local_x, local_y) = (double(raw_x - monitor_x, 1), double(raw_y - monitor_y, 1));
    let (moved_x, moved_y) = (double(raw_x + monitor_x, 1), double(raw_y + monitor_y, 1));
    if on_surface(raw_x, raw_y, width, height) {
        Some(("surface-local"@, raw_x, raw_y))
    } else if allow_global_map && on_surface(local_x, local_y, width, height) {
        Some(("global-logical"@, local_x, local_y))
    } else if on_surface(moved_x, moved_y, width, height) {
        Some(("offset-adjusted-enter"@, moved_x, moved_y))
    } else {
        None
    }
}

/// The position on the monitor that a raw pointer position means, with the name
/// of the reading.
pub fn resolve_initial_pointer_position(
    raw_x: Coord,
    raw_y: Coord,
    monitor_x: Coord,
    monitor_y: Coord,
    monitor_width: Coord,
    monitor_height: Coord,
    allow_global_map: bool,
) -> (r: Option<(&'static str, Coord, Coord)>)
    requires
        is_readable(raw_x),
        is_readable(raw_y),
        is_readable(monitor_x),
        is_readable(monitor_y),
        is_readable(monitor_width),
        is_readable(monitor_height),
    ensures
        (match r {
            Some((name, x, y)) => Some((name@, x as int, y as int)),
            None => None,
        }) == reading(
            raw_x as int,
            raw_y as int,
            monitor_x as int,
            monitor_y as int,
            monitor_width as int,
            monitor_height as int,
            allow_global_map,
        ),
{
    if is_on_surface(raw_x, raw_y, monitor_width, monitor_height) {
        return Some(("surface-local", raw_x, raw_y));
    }
    if allow_global_map {
        let x: Coord = to_double(raw_x - monitor_x);
        let y: Coord = to_double(raw_y - monitor_y);
        if is_on_surface(x, y, monitor_width, monitor_height) {
            return Some(("global-logical", x, y));
        }
    }
    let x: Coord = to_double(raw_x + monitor_x);
    let y: Coord = to_double(raw_y + monitor_y);
    if is_on_surface(x, y, monitor_width, monitor_height) {
        return Some(("offset-adjusted-enter", x, y));
    }
    None
}

/// A resolved position lies on the monitor.
pub proof fn law_reading_on_monitor(
    raw_x: int,
    raw_y: int,
    monitor_x: int,
    monitor_y: int,
    width: int,
    height: int,
    allow_global_map: bool,
)
    ensures
        reading(raw_x, raw_y, monitor_x, monitor_y, width, height, allow_global_map) matches Some(
            (_, x, y),
        ) ==> on_surface(x, y, width, height),
{
}

// ---------------------------------------------------------------------------
// Moving the virtual pointer
// ---------------------------------------------------------------------------

/// The smallest of the monitors' `f`, or `empty` where there is no monitor.
pub open spec fn least(monitors: Seq<Monitor>, f: spec_fn(Monitor) -> int, empty: int) -> int
    decreases monitors.len(),
{
    if monitors.len() == 0 {
        empty
    } else if monitors.len() == 1 || f(monitors.last()) < least(monitors.drop_last(), f, empty) {
        f(monitors.last())
    } else {
        least(monitors.drop_last(), f, empty)
    }
}

/// The largest of the monitors' `f`, or `empty` where there is no monitor.
pub open spec fn greatest(monitors: Seq<Monitor>, f: spec_fn(Monitor) -> int, empty: int) -> int
    decreases monitors.len(),
{
    if monitors.len() == 0 {
        empty
    } else if monitors.len() == 1 || f(monitors.last()) > greatest(
        monitors.drop_last(),
        f,
        empty,
    ) {
        f(monitors.last())
    } else {
        greatest(monitors.drop_last(), f, empty)
    }
}

/// The left edge of the box around all monitors.
pub open spec fn box_left(monitors: Seq<Monitor>) -> int {
    least(monitors, |m: Monitor| m.x as int, 0)
}

/// The top edge of the box around all monitors.
pub open spec fn box_top(monitors: Seq<Monitor>) -> int {
    least(monitors, |m: Monitor| m.y as int, 0)
}

/// The right edge of the box around all monitors.
pub open spec fn box_right(monitors: Seq<Monitor>) -> int {
    greatest(monitors, |m: Monitor| m.x + m.width, 1)
}

/// The bottom edge of the box around all monitors.
pub open spec fn box_bottom(monitors: Seq<Monitor>) -> int {
    greatest(monitors, |m: Monitor| m.y + m.height, 1)
}

/// Whether the far edges of the monitor are `i32`.
pub open spec fn edges_fit(m: Monitor) -> bool {
    i32::MIN <= m.x + m.width <= i32::MAX && i32::MIN <= m.y + m.height <= i32::MAX
}

/// Whether the monitors and the box around them can be measured in `i32`.
pub open spec fn layout_fits(monitors: Seq<Monitor>) -> bool {
    &&& forall|i: int| 0 <= i < monitors.len() ==> edges_fit(#[trigger] monitors[i])
    &&& i32::MIN <= box_right(monitors) - box_left(monitors) <= i32::MAX
    &&& i32::MIN <= box_bottom(monitors) - box_top(monitors) <= i32::MAX
}

/// Whether the monitors and the box around them can be measured in `i32`.
pub fn is_layout_fitting(monitors: &Vec<Monitor>) -> (b: bool)
    ensures
        b == layout_fits(monitors@),
{
    let mut i: usize = 0;
    while i < monitors.len()
        invariant
            i <= monitors.len(),
            forall|j: int| 0 <= j < i ==> edges_fit(#[trigger] monitors[j]),
        decreases monitors.len() - i,
    {
        let m: &Monitor = &monitors[i];
        if m.x.checked_add(m.width).is_none() || m.y.checked_add(m.height).is_none() {
            assert(!edges_fit(monitors[i as int]));
            return false;
        }
        i = i + 1;
    }
    let b: Bounds = bounding_box(monitors);
    b.right.checked_sub(b.left).is_some() && b.bottom.checked_sub(b.top).is_some()
}

/// The value of an integer in the 32 bits of a protocol word.
pub open spec fn word(v: int) -> int {
    v % 0x1_0000_0000
}

/// The edges of the box around all monitors.
#[derive(Clone, Copy, Debug, PartialEq, Eq, Structural)]
pub struct Bounds {
    pub left: i32,
    pub top: i32,
    pub right: i32,
    pub bottom: i32,
}

/// The box around all monitors. With no monitor it is the first pixel.
pub fn bounding_box(monitors: &Vec<Monitor>) -> (b: Bounds)
    requires
        forall|i: int| 0 <= i < monitors.len() ==> edges_fit(#[trigger] monitors[i]),
    ensures
        b.left == box_left(monitors@),
        b.top == box_top(monitors@),
        b.right == box_right(monitors@),
        b.bottom == box_bottom(monitors@),
{
    let mut b: Bounds = Bounds { left: 0, top: 0, right: 1, bottom: 1 };
    let mut i: usize = 0;
    while i < monitors.len()
        invariant
            i <= monitors.len(),
            forall|j: int| 0 <= j < monitors.len() ==> edges_fit(#[trigger] monitors[j]),
            b.left == box_left(monitors@.take(i as int)),
            b.top == box_top(monitors@.take(i as int)),
            b.right == box_right(monitors@.take(i as int)),
            b.bottom == box_bottom(monitors@.take(i as int)),
        decreases monitors.len() - i,
    {
        assert(monitors@.take(i + 1).drop_last() =~= monitors@.take(i as int));
        assert(edges_fit(monitors@[i as int]));
        let m: &Monitor = &monitors[i];
        if i == 0 || m.x < b.left {
            b.left = m.x;
        }
        if i == 0 || m.y < b.top {
            b.top = m.y;
        }
        if i == 0 || m.x + m.width > b.right {
            b.right = m.x + m.width;
        }
        if i == 0 || m.y + m.height > b.bottom {
            b.bottom = m.y + m.height;
        }
        i = i + 1;
    }
    assert(monitors@.take(i as int) =~= monitors@);
    b
}

fn to_word(v: i32) -> (r: u32)
    ensures
        r == word(v as int),
{
    if v >= 0 {
        v as u32
    } else {
        (v as i64 + 0x1_0000_0000) as u32
    }
}

/// How far `x` is from `origin`, as a double.
pub open spec fn distance_from(origin: int, x: int) -> int {
    double(x - origin * UNIT, 1)
}

/// The pixels from `origin` to `x`, dropped to whole ones, as a protocol word.
pub open spec fn pixels_from(origin: int, x: int) -> int {
    clamp(whole_pixels(distance_from(origin, x)), 0, u32::MAX as int)
}

/// A whole number of pixels is a double.
pub proof fn lemma_double_pixels(n: int)
    requires
        -0x2_0000_0000 <= n <= 0x2_0000_0000,
    ensures
        double(n * UNIT, 1) == n * UNIT,
{
    vstd::arithmetic::power2::lemma2_to64_rest();
    lemma_double_exact(n, 52);
}

fn to_pixels_from(origin: i32, x: Coord) -> (r: u32)
    ensures
        r == pixels_from(origin as int, x as int),
{
    let start: Coord = px(origin);
    let end: Coord = start + 0x1_0000_0000 * UNIT;
    if x < start {
        proof {
            lemma_double_negated(start - x, 1);
            lemma_double_positive(start - x, 1);
            assert(double(start - x, 1) / UNIT as int >= 0);
        }
        return 0;
    }
    if x >= end {
        proof {
            lemma_double_pixels(0x1_0000_0000);
            lemma_double_ordered(end - start, x - start, 1);
            assert(double(x - start, 1) / UNIT as int >= 0x1_0000_0000);
        }
        return u32::MAX;
    }
    to_u32(to_double(x - start))
}

/// The requests that move the virtual pointer to the absolute position `x`, `y`
/// of the compositor's logical space, which may reach below zero. Positions go
/// out relative to the box around all monitors, with its size as the extent.
/// Without a virtual pointer there are none.
pub fn warp_pointer(
    monitors: &Vec<Monitor>,
    vptr: bool,
    x: Coord,
    y: Coord,
    now: u32,
) -> (requests: Vec<PointerRequest>)
    requires
        vptr ==> layout_fits(monitors@),
    ensures
        requests@ == warp_requests(monitors@, vptr, x as int, y as int, now),
{
    let mut requests: Vec<PointerRequest> = Vec::new();
    if vptr {
        let b: Bounds = bounding_box(monitors);
        let motion: PointerRequest = PointerRequest::MotionAbsolute {
            time: now,
            x: to_pixels_from(b.left, x),
            y: to_pixels_from(b.top, y),
            x_extent: to_word(b.right - b.left),
            y_extent: to_word(b.bottom - b.top),
        };
        requests.push(motion);
        requests.push(PointerRequest::Frame);
    }
    requests
}

pub open spec fn warp_requests(
    monitors: Seq<Monitor>,
    vptr: bool,
    x: int,
    y: int,
    now: u32,
) -> Seq<PointerRequest> {
    if vptr {
        seq![
            PointerRequest::MotionAbsolute {
                time: now,
                x: pixels_from(box_left(monitors), x) as u32,
                y: pixels_from(box_top(monitors), y) as u32,
                x_extent: word(box_right(monitors) - box_left(monitors)) as u32,
                y_extent: word(box_bottom(monitors) - box_top(monitors)) as u32,
            },
            PointerRequest::Frame,
        ]
    } else {
        Seq::empty()
    }
}

proof fn lemma_least(monitors: Seq<Monitor>, f: spec_fn(Monitor) -> int, empty: int, i: int)
    requires
        0 <= i < monitors.len(),
    ensures
        least(monitors, f, empty) <= f(monitors[i]),
    decreases monitors.len(),
{
    if i < monitors.len() - 1 {
        lemma_least(monitors.drop_last(), f, empty, i);
    }
}

proof fn lemma_greatest(monitors: Seq<Monitor>, f: spec_fn(Monitor) -> int, empty: int, i: int)
    requires
        0 <= i < monitors.len(),
    ensures
        greatest(monitors, f, empty) >= f(monitors[i]),
    decreases monitors.len(),
{
    if i < monitors.len() - 1 {
        lemma_greatest(monitors.drop_last(), f, empty, i);
    }
}

/// The box around all monitors contains every monitor.
pub proof fn law_box_contains(monitors: Seq<Monitor>, i: int)
    requires
        0 <= i < monitors.len(),
    ensures
        box_left(monitors) <= monitors[i].x,
        box_top(monitors) <= monitors[i].y,
        monitors[i].x + monitors[i].width <= box_right(monitors),
        monitors[i].y + monitors[i].height <= box_bottom(monitors),
{
    lemma_least(monitors, |m: Monitor| m.x as int, 0, i);
    lemma_least(monitors, |m: Monitor| m.y as int, 0, i);
    lemma_greatest(monitors, |m: Monitor| m.x + m.width, 1, i);
    lemma_greatest(monitors, |m: Monitor| m.y + m.height, 1, i);
}

/// Whether rounding the distance from `origin` leaves `x` in its pixel, instead
/// of taking it up to the next one.
pub open spec fn keeps_pixel(origin: int, x: int) -> bool {
    distance_from(origin, x) < (x / UNIT as int + 1 - origin) * UNIT
}

/// A warp to a position on some monitor moves the pointer to that position's
/// pixel, unless rounding takes it up to the next: the request counts the pixels
/// from the corner of the box around all monitors, and lies inside the extent
/// that goes with it.
pub proof fn law_warp_hits_pixel(
    monitors: Seq<Monitor>,
    i: int,
    x: int,
    y: int,
    now: u32,
)
    requires
        layout_fits(monitors),
        0 <= i < monitors.len(),
        monitors[i].x * UNIT <= x < (monitors[i].x + monitors[i].width) * UNIT,
        monitors[i].y * UNIT <= y < (monitors[i].y + monitors[i].height) * UNIT,
        keeps_pixel(box_left(monitors), x),
        keeps_pixel(box_top(monitors), y),
    ensures
        ({
            let requests = warp_requests(monitors, true, x, y, now);
            &&& requests.len() == 2
            &&& requests[1] == PointerRequest::Frame
            &&& requests[0] matches PointerRequest::MotionAbsolute {
                time,
                x: rel_x,
                y: rel_y,
                x_extent,
                y_extent,
            }
            &&& time == now
            &&& rel_x == x / UNIT as int - box_left(monitors)
            &&& rel_y == y / UNIT as int - box_top(monitors)
            &&& x_extent == box_right(monitors) - box_left(monitors)
            &&& y_extent == box_bottom(monitors) - box_top(monitors)
            &&& rel_x < x_extent
            &&& rel_y < y_extent
        }),
{
    law_box_contains(monitors, i);
    assert(edges_fit(monitors[i]));
    lemma_offset_pixels(box_left(monitors), box_right(monitors), x);
    lemma_offset_pixels(box_top(monitors), box_bottom(monitors), y);
}

proof fn lemma_offset_pixels(lo: int, hi: int, v: int)
    requires
        lo * UNIT <= v < hi * UNIT,
        hi - lo <= i32::MAX,
        keeps_pixel(lo, v),
    ensures
        pixels_from(lo, v) == v / UNIT as int - lo,
        0 <= v / UNIT as int - lo < hi - lo,
{
    let n = v / UNIT as int - lo;
    assert(v / (UNIT as int) < hi);
    assert(0 <= n < hi - lo);
    lemma_double_pixels(n);
    lemma_double_ordered(n * UNIT, v - lo * UNIT, 1);
    let d = distance_from(lo, v);
    assert(n * UNIT <= d < (n + 1) * UNIT);
    assert(d / UNIT as int == n);
}

/// The Linux code of a mouse button: 1 is left, 2 middle, 3 right.
pub open spec fn button_code(button: u32) -> Option<u32> {
    if button == 1 {
        Some(0x110)
    } else if button == 2 {
        Some(0x112)
    } else if button == 3 {
        Some(0x111)
    } else {
        None
    }
}

pub open spec fn click_requests(vptr: bool, button: u32, now: u32) -> Seq<PointerRequest> {
    match button_code(button) {
        Some(code) if vptr => seq![
            PointerRequest::Button { time: now, button: code, state: ButtonState::Pressed },
            PointerRequest::Frame,
            PointerRequest::Button {
                time: (now + 1) as u32,
                button: code,
                state: ButtonState::Released,
            },
            PointerRequest::Frame,
        ],
        _ => Seq::empty(),
    }
}

/// The requests that press and release a mouse button: 1 is left, 2 middle, 3
/// right. Another button, or no virtual pointer, gives none.
pub fn click_button(vptr: bool, button: u32, now: u32) -> (requests: Vec<PointerRequest>)
    requires
        vptr && button_code(button) is Some ==> now < u32::MAX,
    ensures
        requests@ == click_requests(vptr, button, now),
{
    let mut requests: Vec<PointerRequest> = Vec::new();
    let code: u32 = match button {
        1 => 0x110,
        2 => 0x112,
        3 => 0x111,
        _ => {
            return requests;
        },
    };
    if vptr {
        requests.push(
            PointerRequest::Button { time: now, button: code, state: ButtonState::Pressed },
        );
        requests.push(PointerRequest::Frame);
        requests.push(
            PointerRequest::Button { time: now + 1, button: code, state: ButtonState::Released },
        );
        requests.push(PointerRequest::Frame);
    }
    requests
}

} // verus!
