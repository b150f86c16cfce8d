//! Laws of normal mode: the cursor, the held keys, and the real pointer.

use crate::double::double;
use crate::fixed::Coord;
use crate::modes::{Effect, Next, StepView};
use crate::normal::{
    held_after, monitor_at, normal_step, pointed_at, retargeted, start_point, start_reading,
    HeldKeyRole, NormalKeys, NormalView, FRAME_MICROS, STARTUP_MILLIS,
};
use crate::number::{number_of, units_of};
use crate::pointer::{lemma_on_surface, reading};
use crate::wayland::{KeyEvent, KeyState, Monitor, PointerPosSource, ENTRY_MILLIS};
use vstd::arithmetic::power2::pow2;
use vstd::prelude::*;

verus! {

/// Whether some held key has the role.
pub open spec fn some_key(held: Map<u32, HeldKeyRole>, role: HeldKeyRole) -> bool {
    exists|k: u32| #[trigger] held.contains_key(k) && held[k] == role
}

proof fn lemma_some_key(s: NormalView, role: HeldKeyRole)
    ensures
        s.holds(role) == some_key(s.held, role),
{
    if s.holds(role) {
        let k = choose|k: u32| s.held.dom().contains(k) && s.held[k] == role;
        assert(s.held.contains_key(k));
    }
    if some_key(s.held, role) {
        let k = choose|k: u32| #[trigger] s.held.contains_key(k) && s.held[k] == role;
        assert(s.held.dom().contains(k));
    }
}

/// Where a coordinate goes when it is pulled back and pushed on by `length`, each
/// only if asked for, between zero and `end`: back first.
pub open spec fn pulled(v: int, back: bool, on: bool, length: int, end: int) -> int {
    let a = double(v - length, 1);
    let b = if !back {
        v
    } else if a < 0 {
        0
    } else {
        a
    };
    let c = double(b + length, 1);
    if !on {
        b
    } else if c > end {
        end
    } else {
        c
    }
}

/// The two axes are independent. Where the cursor is afterwards along one of them
/// depends on where it was along that one, on the length of the frame, and on
/// which of the two keys of that axis is held, whatever keys of the other axis
/// are. Left and up go back, right and down go on. The cursor counts as moved
/// exactly if one of the four is held.
pub proof fn law_axes(s: NormalView, monitor: Monitor, length: int)
    ensures
        ({
            let (t, moved) = s.advanced(monitor, length);
            let left = some_key(s.held, HeldKeyRole::MoveLeft);
            let right = some_key(s.held, HeldKeyRole::MoveRight);
            let up = some_key(s.held, HeldKeyRole::MoveUp);
            let down = some_key(s.held, HeldKeyRole::MoveDown);
            &&& t.cx == pulled(s.cx, left, right, length, (monitor.width - 1) * pow2(1074))
            &&& t.cy == pulled(s.cy, up, down, length, (monitor.height - 1) * pow2(1074))
            &&& !left && !right ==> t.cx == s.cx
            &&& !up && !down ==> t.cy == s.cy
            &&& left && !right && double(s.cx - length, 1) >= 0 ==> t.cx == double(
                s.cx - length,
                1,
            )
            &&& up && !down && double(s.cy - length, 1) >= 0 ==> t.cy == double(
                s.cy - length,
                1,
            )
            &&& moved == (left || right || up || down)
            &&& t.held == s.held && t.last_sample == s.last_sample
        }),
{
    lemma_some_key(s, HeldKeyRole::MoveLeft);
    lemma_some_key(s, HeldKeyRole::MoveRight);
    lemma_some_key(s, HeldKeyRole::MoveUp);
    lemma_some_key(s, HeldKeyRole::MoveDown);
}

/// Two states that agree on one axis go on agreeing on it, whatever the other
/// axis is like.
pub proof fn law_axes_apart(s: NormalView, t: NormalView, monitor: Monitor, length: int)
    ensures
        s.cy == t.cy && (some_key(s.held, HeldKeyRole::MoveUp) <==> some_key(
            t.held,
            HeldKeyRole::MoveUp,
        )) && (some_key(s.held, HeldKeyRole::MoveDown) <==> some_key(
            t.held,
            HeldKeyRole::MoveDown,
        )) ==> s.advanced(monitor, length).0.cy == t.advanced(monitor, length).0.cy,
        s.cx == t.cx && (some_key(s.held, HeldKeyRole::MoveLeft) <==> some_key(
            t.held,
            HeldKeyRole::MoveLeft,
        )) && (some_key(s.held, HeldKeyRole::MoveRight) <==> some_key(
            t.held,
            HeldKeyRole::MoveRight,
        )) ==> s.advanced(monitor, length).0.cx == t.advanced(monitor, length).0.cx,
{
    law_axes(s, monitor, length);
    law_axes(t, monitor, length);
}

/// A frame is as long as the speed over sixty, times the time in seconds, times
/// sixty, times the multiplier while the speed modifier is held, each step
/// rounded. No more than a twentieth of a second counts.
pub proof fn law_frame_length(s: NormalView, speed: int, elapsed: int, multiplier: int)
    ensures
        ({
            let one = pow2(1074) as int;
            let time = if elapsed > 50_000_000 {
                50_000_000
            } else {
                elapsed
            };
            let in_frame = double(speed * one, 60);
            let in_seconds = double(time * one, 1_000_000_000);
            let plain = double(double(in_frame * in_seconds, one) * 60, 1);
            let length = s.frame_length(speed, elapsed, multiplier);
            &&& !some_key(s.held, HeldKeyRole::SpeedModifier) ==> length == plain
            &&& some_key(s.held, HeldKeyRole::SpeedModifier) ==> length == double(
                plain * multiplier,
                one,
            )
        }),
{
    lemma_some_key(s, HeldKeyRole::SpeedModifier);
}

// ---------------------------------------------------------------------------
// The real pointer
// ---------------------------------------------------------------------------

/// While no direction is held, the cursor goes where the real pointer moves on the
/// monitor, as soon as that is more than a hundredth of a pixel from where it last
/// was, along either axis. A pointer that moves off the monitor is only
/// remembered. Nothing happens while a direction is held, for a position that did
/// not come with motion, and for one that is nearer than that both ways.
pub proof fn law_follow(
    s: NormalView,
    monitor: Monitor,
    sample: Option<(i128, i128, PointerPosSource)>,
)
    ensures
        ({
            let (t, moved) = s.following(monitor, sample);
            let held = some_key(s.held, HeldKeyRole::MoveLeft) || some_key(
                s.held,
                HeldKeyRole::MoveRight,
            ) || some_key(s.held, HeldKeyRole::MoveUp) || some_key(s.held, HeldKeyRole::MoveDown);
            let px = 0x10_0000_0000_0000int;
            &&& t.held == s.held
            &&& held || !(sample matches Some((_, _, PointerPosSource::Motion))) ==> t == s
                && !moved
            &&& sample matches Some((x, y, PointerPosSource::Motion)) ==> {
                let far = match s.last_sample {
                    Some((lx, ly)) => 100 * (x - lx) > px || 100 * (lx - x) > px || 100 * (y - ly)
                        > px || 100 * (ly - y) > px,
                    None => true,
                };
                let inside = 0 <= x <= (monitor.width - 1) * px && 0 <= y <= (monitor.height - 1)
                    * px;
                &&& !held && far ==> t.last_sample == Some((x, y)) && moved == inside
                &&& !held && far && inside ==> t.cx == number_of(x as int) && t.cy == number_of(
                    y as int,
                )
                &&& !held && far && !inside ==> t.cx == s.cx && t.cy == s.cy
                &&& !held && !far ==> t == s && !moved
            }
        }),
{
    lemma_some_key(s, HeldKeyRole::MoveLeft);
    lemma_some_key(s, HeldKeyRole::MoveRight);
    lemma_some_key(s, HeldKeyRole::MoveUp);
    lemma_some_key(s, HeldKeyRole::MoveDown);
    if let Some((x, y, _)) = sample {
        lemma_on_surface(x as int, y as int, monitor.width as int, monitor.height as int);
    }
}

/// The monitor with a position is the first one that has it, or lies within a
/// pixel of it.
pub proof fn law_monitor_at(monitors: Seq<Monitor>, x: int, y: int)
    ensures
        ({
            let i = monitor_at(monitors, x, y);
            let px = 0x10_0000_0000_0000int;
            let has = |k: int|
                {
                    let m = monitors[k];
                    &&& m.x * px - px <= x && x < m.x * px + m.width * px + px
                    &&& m.y * px - px <= y && y < m.y * px + m.height * px + px
                };
            &&& 0 <= i <= monitors.len()
            &&& i < monitors.len() ==> has(i)
            &&& forall|k: int| 0 <= k < i ==> !#[trigger] has(k)
        }),
    decreases monitors.len(),
{
    if monitors.len() > 0 {
        let init = monitors.drop_last();
        law_monitor_at(init, x, y);
        let px = 0x10_0000_0000_0000int;
        let i = monitor_at(monitors, x, y);
        let j = monitor_at(init, x, y);
        let has = |k: int|
            {
                let m = monitors[k];
                &&& m.x * px - px <= x && x < m.x * px + m.width * px + px
                &&& m.y * px - px <= y && y < m.y * px + m.height * px + px
            };
        let had = |k: int|
            {
                let m = init[k];
                &&& m.x * px - px <= x && x < m.x * px + m.width * px + px
                &&& m.y * px - px <= y && y < m.y * px + m.height * px + px
            };
        assert forall|k: int| 0 <= k < i implies !#[trigger] has(k) by {
            if k < monitors.len() - 1 {
                assert(init[k] == monitors[k]);
                assert(!had(k));
            }
        }
        if i < monitors.len() - 1 {
            assert(init[i] == monitors[i]);
            assert(had(i));
        }
    }
}

/// The overlay goes to the monitor that was found, and stays where it is if none
/// was or if that is the one. A position on the overlay of one monitor becomes the
/// position from the corner of the other at the same place.
pub proof fn law_retarget(focused: Monitor, found: Monitor, x: int, y: int)
    ensures
        retargeted(focused, None) == focused,
        found.output == focused.output ==> retargeted(focused, Some(found)) == focused,
        found.output != focused.output ==> retargeted(focused, Some(found)) == found,
        start_point(focused, None, x, y) == (x, y),
        found.output != focused.output ==> ({
            let px = 0x10_0000_0000_0000int;
            start_point(focused, Some(found), x, y) == (
                double(double(focused.x * px + x, 1) - found.x * px, 1),
                double(double(focused.y * px + y, 1) - found.y * px, 1),
            )
        }),
        found.output == focused.output ==> ({
            let px = 0x10_0000_0000_0000int;
            start_point(focused, Some(found), x, y) == (
                double(double(focused.x * px + x, 1) - focused.x * px, 1),
                double(double(focused.y * px + y, 1) - focused.y * px, 1),
            )
        }),
        pointed_at(focused.x as int, x) == double(focused.x * 0x10_0000_0000_0000 + x, 1),
{
}

/// The cursor starts where the pointer is on the monitor to go on with. Only a
/// position that came with a motion may be taken from the global origin.
pub proof fn law_start(
    focused: Monitor,
    found: Option<Monitor>,
    sample: (Coord, Coord, PointerPosSource),
)
    ensures
        ({
            let px = 0x10_0000_0000_0000int;
            let on = retargeted(focused, found);
            let (x, y) = start_point(focused, found, sample.0 as int, sample.1 as int);
            start_reading(focused, found, sample) == reading(
                x,
                y,
                on.x * px,
                on.y * px,
                on.width * px,
                on.height * px,
                sample.2 is Motion,
            )
        }),
{
}

/// A frame is the 120th part of a second. The first motion of the real pointer is
/// waited for no longer than a fortieth of a second, and the entry of the overlay on
/// an output no longer than a fifth.
pub proof fn law_times()
    ensures
        120 * FRAME_MICROS <= 1_000_000 < 120 * (FRAME_MICROS + 1),
        40 * STARTUP_MILLIS == 1_000,
        5 * ENTRY_MILLIS == 1_000,
{
}

// ---------------------------------------------------------------------------
// Keys
// ---------------------------------------------------------------------------

/// The first of the four keys that steer goes left, the second down, the third up
/// and the fourth right; what is none of them and a speed modifier makes faster;
/// any other key has no role.
pub proof fn law_roles(keys: NormalKeys, sym: u32)
    ensures
        ({
            let role = keys.role_of(sym);
            let m = keys.moves@;
            &&& sym == m[0] ==> role == Some(HeldKeyRole::MoveLeft)
            &&& sym == m[1] && sym != m[0] ==> role == Some(HeldKeyRole::MoveDown)
            &&& sym == m[2] && sym != m[0] && sym != m[1] ==> role == Some(HeldKeyRole::MoveUp)
            &&& sym == m[3] && sym != m[0] && sym != m[1] && sym != m[2] ==> role == Some(
                HeldKeyRole::MoveRight,
            )
            &&& sym != m[0] && sym != m[1] && sym != m[2] && sym != m[3] ==> role == (
            if keys.modifiers@.contains(sym) {
                Some(HeldKeyRole::SpeedModifier)
            } else {
                None
            })
        }),
{
}

/// A key that goes down is held with its role from then on, unless it already is;
/// one that goes up is held no more; a repeated key changes nothing, and no event
/// changes the other keys. Capital letters count as small ones.
pub proof fn law_holding(
    held: Map<u32, HeldKeyRole>,
    keys: NormalKeys,
    event: KeyEvent,
    other: u32,
)
    requires
        other != event.key,
    ensures
        ({
            let now = held_after(held, keys, event);
            let sym = if 0x41 <= event.sym <= 0x5a {
                (event.sym + 32) as u32
            } else {
                event.sym
            };
            &&& now.contains_key(other) == held.contains_key(other)
            &&& held.contains_key(other) ==> now[other] == held[other]
            &&& event.state == KeyState::Repeated ==> now == held
            &&& event.state == KeyState::Released ==> !now.contains_key(event.key)
            &&& event.state == KeyState::Pressed && held.contains_key(event.key) ==> now == held
            &&& event.state == KeyState::Pressed && !held.contains_key(event.key) ==> match
                keys.role_of(sym) {
                Some(role) => now.contains_key(event.key) && now[event.key] == role,
                None => !now.contains_key(event.key),
            }
        }),
{
}

/// What each key that goes down does, with the cursor at `cx`, `cy` of the
/// monitor. The three buttons click left, middle and right where the cursor is;
/// the left and the right one after the overlay is gone. Escape leaves, x goes on
/// in hint mode and g in grid mode. Any other key, and a key that does not go
/// down, does nothing here.
pub proof fn law_keys_of_normal_mode(
    keys: NormalKeys,
    monitor: Monitor,
    cx: int,
    cy: int,
    event: KeyEvent,
)
    ensures
        ({
            let step = normal_step(keys, monitor, cx, cy, event);
            let sym = if 0x41 <= event.sym <= 0x5a {
                (event.sym + 32) as u32
            } else {
                event.sym
            };
            let b = keys.buttons@;
            let down = event.state == KeyState::Pressed;
            let warp = Effect::Warp {
                x: units_of(double(monitor.x * pow2(1074) + cx, 1)) as i128,
                y: units_of(double(monitor.y * pow2(1074) + cy, 1)) as i128,
            };
            let gone = seq![Effect::DestroyOverlay, Effect::Flush];
            &&& !down ==> step.effects.len() == 0 && step.next == Next::Stay
            &&& down && sym == 0xff1b ==> step == StepView { effects: gone, next: Next::Leave }
            &&& down && sym != 0xff1b && sym == b[0] ==> step == clicked_after(warp, 1)
            &&& down && sym != 0xff1b && sym == b[1] && sym != b[0] ==> step == clicked_before(
                warp,
                2,
            )
            &&& down && sym != 0xff1b && sym == b[2] && sym != b[0] && sym != b[1] ==> step
                == clicked_after(warp, 3)
            &&& down && sym != b[0] && sym != b[1] && sym != b[2] && sym == 0x78 ==> step
                == StepView { effects: gone, next: Next::HintMode }
            &&& down && sym != b[0] && sym != b[1] && sym != b[2] && sym == 0x67 ==> step
                == StepView { effects: gone, next: Next::GridMode }
            &&& sym != 0xff1b && sym != b[0] && sym != b[1] && sym != b[2] && sym != 0x78 && sym
                != 0x67 ==> step.effects.len() == 0 && step.next == Next::Stay
        }),
{
}

/// The pointer moves, the compositor sees that, the overlay goes, and then the
/// button is clicked.
pub open spec fn clicked_after(warp: Effect, button: u32) -> StepView {
    StepView {
        effects: seq![
            warp,
            Effect::Flush,
            Effect::Roundtrip,
            Effect::DestroyOverlay,
            Effect::Click { button },
            Effect::Flush,
        ],
        next: Next::Leave,
    }
}

/// The pointer moves and the button is clicked, the compositor sees that, and
/// then the overlay goes.
pub open spec fn clicked_before(warp: Effect, button: u32) -> StepView {
    StepView {
        effects: seq![
            warp,
            Effect::Click { button },
            Effect::Flush,
            Effect::Roundtrip,
            Effect::DestroyOverlay,
            Effect::Flush,
        ],
        next: Next::Leave,
    }
}

} // verus!
