//! Where the pointer is, and where it goes.

use crate::double::{double, lemma_double_exact};
use crate::pointer::{
    box_bottom, box_left, box_right, box_top, click_requests, greatest, law_box_contains,
    layout_fits, least, position_on, reading, sample_on, warp_requests, ButtonState, PointerRequest,
};
use crate::wayland::{
    after_pointer_event, Monitor, PointerEvent, PointerPosSource, WaylandState,
};
use vstd::prelude::*;

verus! {

// ---------------------------------------------------------------------------
// Reading a position
// ---------------------------------------------------------------------------

/// A surface has the pointer's position exactly if it has the focus and a position
/// is known. Where it came from is needed only by who asks for it.
pub proof fn law_sample(s: WaylandState, surface: u64)
    ensures
        s.pointer_focus_surface != Some(surface) ==> position_on(s, surface) is None && sample_on(
            s,
            surface,
        ) is None,
        s.pointer_focus_surface == Some(surface) ==> {
            &&& position_on(s, surface) == s.pointer_surface_pos
            &&& sample_on(s, surface) is Some <==> s.pointer_surface_pos is Some
                && s.pointer_surface_pos_source is Some
            &&& sample_on(s, surface) matches Some((x, y, source)) ==> s.pointer_surface_pos
                == Some((x, y)) && s.pointer_surface_pos_source == Some(source)
        },
{
}

/// The pointer's arrival and motion tell the position and how it came, the arrival
/// also the surface. When the pointer leaves the focused surface nothing is known
/// any more. Nothing else changes the pointer, and the pointer nothing else.
pub proof fn law_pointer_events(s: WaylandState, event: PointerEvent)
    ensures
        ({
            let t = after_pointer_event(s, event);
            &&& t.monitors == s.monitors
            &&& t.pending_outputs == s.pending_outputs
            &&& t.keyboard == s.keyboard
            &&& t.pointer == s.pointer
            &&& t.vptr == s.vptr
            &&& t.surface_entered_output == s.surface_entered_output
            &&& t.layer_surface_configured == s.layer_surface_configured
            &&& match event {
                PointerEvent::Enter { surface, x, y } => t.pointer_focus_surface == Some(surface)
                    && t.pointer_surface_pos == Some((x, y)) && t.pointer_surface_pos_source
                    == Some(PointerPosSource::Enter),
                PointerEvent::Motion { x, y } => t.pointer_focus_surface
                    == s.pointer_focus_surface && t.pointer_surface_pos == Some((x, y))
                    && t.pointer_surface_pos_source == Some(PointerPosSource::Motion),
                PointerEvent::Leave { surface } if s.pointer_focus_surface == Some(surface) => {
                    t.pointer_focus_surface is None && t.pointer_surface_pos is None
                        && t.pointer_surface_pos_source is None
                },
                _ => t == s,
            }
        }),
{
}

/// Whether a position lies on a surface of that size: not before its first column
/// and row, and not behind the near edge of its last.
pub open spec fn lies_on(x: int, y: int, width: int, height: int) -> bool {
    &&& 0 <= x
    &&& x <= double(width - 0x10_0000_0000_0000, 1)
    &&& 0 <= y
    &&& y <= double(height - 0x10_0000_0000_0000, 1)
}

/// A position that lies on the monitor is taken as it stands. Else the monitor's
/// offset is taken off it, where that is allowed and leads onto the monitor; else
/// it is added, where that leads onto the monitor. Else the position says nothing.
pub proof fn law_readings(
    raw: (int, int),
    origin: (int, int),
    size: (int, int),
    allow_global_map: bool,
)
    ensures
        ({
            let r = reading(raw.0, raw.1, origin.0, origin.1, size.0, size.1, allow_global_map);
            let off = (double(raw.0 - origin.0, 1), double(raw.1 - origin.1, 1));
            let on = (double(raw.0 + origin.0, 1), double(raw.1 + origin.1, 1));
            let as_it_stands = lies_on(raw.0, raw.1, size.0, size.1);
            let taken_off = allow_global_map && lies_on(off.0, off.1, size.0, size.1);
            let added = lies_on(on.0, on.1, size.0, size.1);
            &&& r is Some <==> as_it_stands || taken_off || added
            &&& as_it_stands ==> r == Some(("surface-local"@, raw.0, raw.1))
            &&& !as_it_stands && taken_off ==> r == Some(("global-logical"@, off.0, off.1))
            &&& !as_it_stands && !taken_off && added ==> r == Some(
                ("offset-adjusted-enter"@, on.0, on.1),
            )
        }),
{
}

proof fn lemma_pixels(n: int)
    requires
        -0x4_0000_0000 <= n <= 0x4_0000_0000,
    ensures
        double(n * 0x10_0000_0000_0000, 1) == n * 0x10_0000_0000_0000,
{
    vstd::arithmetic::power2::lemma2_to64_rest();
    lemma_double_exact(n, 52);
}

/// A compositor may give a pixel of the monitor from the global origin, where that
/// is allowed, or with the monitor's offset taken off it: the pixel comes back,
/// unless what was given could be a pixel of the monitor itself.
pub proof fn law_reading_finds_pixel(monitor: Monitor, x: int, y: int, allow_global_map: bool)
    requires
        0 <= x < monitor.width,
        0 <= y < monitor.height,
    ensures
        ({
            let u = 0x10_0000_0000_0000int;
            let (left, top) = (monitor.x as int, monitor.y as int);
            let (width, height) = (monitor.width as int, monitor.height as int);
            let from_origin = reading(
                (x + left) * u,
                (y + top) * u,
                left * u,
                top * u,
                width * u,
                height * u,
                true,
            );
            let from_corner = reading(
                (x - left) * u,
                (y - top) * u,
                left * u,
                top * u,
                width * u,
                height * u,
                false,
            );
            &&& reading(x * u, y * u, left * u, top * u, width * u, height * u, allow_global_map)
                == Some(("surface-local"@, x * u, y * u))
            &&& !(0 <= x + left < width && 0 <= y + top < height) ==> from_origin == Some(
                ("global-logical"@, x * u, y * u),
            )
            &&& !(0 <= x - left < width && 0 <= y - top < height) ==> from_corner == Some(
                ("offset-adjusted-enter"@, x * u, y * u),
            )
        }),
{
    let u = 0x10_0000_0000_0000int;
    lemma_pixels(x);
    lemma_pixels(y);
    lemma_pixels(monitor.width - 1);
    lemma_pixels(monitor.height - 1);
    assert((monitor.width - 1) * u == monitor.width * u - u);
    assert((monitor.height - 1) * u == monitor.height * u - u);
    assert((x + monitor.x) * u - monitor.x * u == x * u);
    assert((y + monitor.y) * u - monitor.y * u == y * u);
    assert((x - monitor.x) * u + monitor.x * u == x * u);
    assert((y - monitor.y) * u + monitor.y * u == y * u);
}

// ---------------------------------------------------------------------------
// Moving and clicking
// ---------------------------------------------------------------------------

proof fn lemma_least_of(monitors: Seq<Monitor>, f: spec_fn(Monitor) -> int, empty: int) -> (i: int)
    requires
        monitors.len() > 0,
    ensures
        0 <= i < monitors.len(),
        least(monitors, f, empty) == f(monitors[i]),
    decreases monitors.len(),
{
    if monitors.len() == 1 || f(monitors.last()) < least(monitors.drop_last(), f, empty) {
        monitors.len() - 1
    } else {
        lemma_least_of(monitors.drop_last(), f, empty)
    }
}

proof fn lemma_greatest_of(
    monitors: Seq<Monitor>,
    f: spec_fn(Monitor) -> int,
    empty: int,
) -> (i: int)
    requires
        monitors.len() > 0,
    ensures
        0 <= i < monitors.len(),
        greatest(monitors, f, empty) == f(monitors[i]),
    decreases monitors.len(),
{
    if monitors.len() == 1 || f(monitors.last()) > greatest(monitors.drop_last(), f, empty) {
        monitors.len() - 1
    } else {
        lemma_greatest_of(monitors.drop_last(), f, empty)
    }
}

/// The box around the monitors holds each of them, and no smaller box does: on each
/// of its sides lies the side of some monitor. With no monitor it is one pixel, at
/// the origin.
pub proof fn law_box(monitors: Seq<Monitor>)
    ensures
        monitors.len() == 0 ==> box_left(monitors) == 0 && box_top(monitors) == 0 && box_right(
            monitors,
        ) == 1 && box_bottom(monitors) == 1,
        forall|i: int|
            0 <= i < monitors.len() ==> box_left(monitors) <= (#[trigger] monitors[i]).x
                && box_top(monitors) <= monitors[i].y && monitors[i].x + monitors[i].width
                <= box_right(monitors) && monitors[i].y + monitors[i].height <= box_bottom(
                monitors,
            ),
        monitors.len() > 0 ==> {
            &&& exists|i: int|
                0 <= i < monitors.len() && box_left(monitors) == (#[trigger] monitors[i]).x
            &&& exists|i: int|
                0 <= i < monitors.len() && box_top(monitors) == (#[trigger] monitors[i]).y
            &&& exists|i: int|
                0 <= i < monitors.len() && box_right(monitors) == (#[trigger] monitors[i]).x
                    + monitors[i].width
            &&& exists|i: int|
                0 <= i < monitors.len() && box_bottom(monitors) == (#[trigger] monitors[i]).y
                    + monitors[i].height
        },
{
    assert forall|i: int| 0 <= i < monitors.len() implies box_left(monitors) <= (
    #[trigger] monitors[i]).x && box_top(monitors) <= monitors[i].y && monitors[i].x
        + monitors[i].width <= box_right(monitors) && monitors[i].y + monitors[i].height
        <= box_bottom(monitors) by {
        law_box_contains(monitors, i);
    }
    if monitors.len() > 0 {
        let i = lemma_least_of(monitors, |m: Monitor| m.x as int, 0);
        assert(box_left(monitors) == monitors[i].x);
        let i = lemma_least_of(monitors, |m: Monitor| m.y as int, 0);
        assert(box_top(monitors) == monitors[i].y);
        let i = lemma_greatest_of(monitors, |m: Monitor| m.x + m.width, 1);
        assert(box_right(monitors) == monitors[i].x + monitors[i].width);
        let i = lemma_greatest_of(monitors, |m: Monitor| m.y + m.height, 1);
        assert(box_bottom(monitors) == monitors[i].y + monitors[i].height);
    }
}

/// Monitors of any usual place and size, up to 2^29 pixels, can be measured.
pub proof fn law_layout_fits(monitors: Seq<Monitor>)
    requires
        forall|i: int|
            0 <= i < monitors.len() ==> {
                let m = #[trigger] monitors[i];
                &&& -0x2000_0000 <= m.x <= 0x2000_0000 && 0 <= m.width <= 0x2000_0000
                &&& -0x2000_0000 <= m.y <= 0x2000_0000 && 0 <= m.height <= 0x2000_0000
            },
    ensures
        layout_fits(monitors),
{
    law_box(monitors);
}

/// Whether `n` pixels are the whole pixels of a distance: 0 of one that leads back,
/// and the most that 32 bits hold of one that is longer.
pub open spec fn counts_pixels(n: u32, distance: int) -> bool {
    let u = 0x10_0000_0000_0000int;
    if distance < u {
        n == 0
    } else if distance >= 0x1_0000_0000 * u {
        n == 0xffff_ffff
    } else {
        n * u <= distance < (n + 1) * u
    }
}

/// Whether `n` is the length, or what its 32 bits are without a sign.
pub open spec fn has_bits_of(n: u32, length: int) -> bool {
    n == length || n == length + 0x1_0000_0000
}

/// A warp is one motion and a frame, both at once. The motion counts the whole
/// pixels from the corner of the box around the monitors, each axis by itself, and
/// is given with the box's sides. Without a virtual pointer nothing is sent.
pub proof fn law_warp(monitors: Seq<Monitor>, x: int, y: int, now: u32)
    requires
        i32::MIN <= box_right(monitors) - box_left(monitors) <= i32::MAX,
        i32::MIN <= box_bottom(monitors) - box_top(monitors) <= i32::MAX,
    ensures
        warp_requests(monitors, false, x, y, now).len() == 0,
        ({
            let u = 0x10_0000_0000_0000int;
            let sent = warp_requests(monitors, true, x, y, now);
            &&& sent.len() == 2
            &&& sent[1] == PointerRequest::Frame
            &&& sent[0] matches PointerRequest::MotionAbsolute {
                time,
                x: right,
                y: down,
                x_extent,
                y_extent,
            }
            &&& time == now
            &&& counts_pixels(right, double(x - box_left(monitors) * u, 1))
            &&& counts_pixels(down, double(y - box_top(monitors) * u, 1))
            &&& has_bits_of(x_extent, box_right(monitors) - box_left(monitors))
            &&& has_bits_of(y_extent, box_bottom(monitors) - box_top(monitors))
        }),
{
}

/// A click presses and releases the same button, the release a millisecond after
/// the press, each with a frame of its own. The buttons 1, 2 and 3 are the left,
/// the middle and the right one; another gives no click, and none comes without a
/// virtual pointer.
pub proof fn law_click(vptr: bool, button: u32, now: u32)
    requires
        now < u32::MAX,
    ensures
        ({
            let sent = click_requests(vptr, button, now);
            let code = if button == 1 {
                0x110u32
            } else if button == 2 {
                0x112u32
            } else {
                0x111u32
            };
            if vptr && 1 <= button <= 3 {
                &&& sent.len() == 4
                &&& sent[0] == PointerRequest::Button {
                    time: now,
                    button: code,
                    state: ButtonState::Pressed,
                }
                &&& sent[1] == PointerRequest::Frame
                &&& sent[2] == PointerRequest::Button {
                    time: (now + 1) as u32,
                    button: code,
                    state: ButtonState::Released,
                }
                &&& sent[3] == PointerRequest::Frame
            } else {
                sent.len() == 0
            }
        }),
{
}

} // verus!
