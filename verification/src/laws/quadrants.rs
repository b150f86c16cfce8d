//! Laws of grid mode, and of what hint mode does with a selection.

use crate::double::double;
use crate::grid::{along, half, middle_of, whole, GridView};
use crate::hint::{after_key, Hint, HintResult};
use crate::laws::cursor::{clicked_after, clicked_before};
use crate::modes::{grid_step, hint_step, Effect, Next, StepView};
use crate::number::units_of;
use crate::wayland::{KeyEvent, KeyState, Monitor};
use vstd::arithmetic::power2::pow2;
use vstd::prelude::*;

verus! {

/// Whether `sym` is the key of quadrant `k`: the first of the four that it is. No
/// quadrant has Escape.
pub open spec fn is_key_of(keys: Seq<u32>, sym: u32, k: int) -> bool {
    &&& keys.len() == 4
    &&& 0 <= k < 4
    &&& keys[k] == sym
    &&& sym != 0xff1b
    &&& forall|j: int| 0 <= j < k ==> #[trigger] keys[j] != sym
}

/// The first key takes the top left quarter of the selection, the second the top
/// right, the third the bottom left and the fourth the bottom right. Each halves
/// the width and the height; the left edge moves by half the width exactly for
/// the second and the fourth, and the top edge by half the height exactly for the
/// third and the fourth.
pub proof fn law_quadrant_keys(
    monitor: Monitor,
    min_size: int,
    keys: Seq<u32>,
    select: u32,
    event: KeyEvent,
    sel: GridView,
    k: int,
)
    requires
        is_key_of(keys, event.sym, k),
        event.state == KeyState::Pressed,
    ensures
        ({
            let now = grid_step(monitor, min_size, keys, select, event, sel).0;
            &&& now.w == double(sel.w, 2)
            &&& now.h == double(sel.h, 2)
            &&& now.x == (if k == 1 || k == 3 {
                double(sel.x + double(sel.w, 2), 1)
            } else {
                sel.x
            })
            &&& now.y == (if k == 2 || k == 3 {
                double(sel.y + double(sel.h, 2), 1)
            } else {
                sel.y
            })
        }),
{
    assert(forall|j: int| 0 <= j < k ==> #[trigger] keys[j] != event.sym);
    assert(k > 0 ==> keys[0] != event.sym);
    assert(k > 1 ==> keys[1] != event.sym);
    assert(k > 2 ==> keys[2] != event.sym);
}

/// The letter u takes the top left quarter, i the top right, j the bottom left and k
/// the bottom right one; any other letter takes all. The first selection is the
/// whole monitor.
pub proof fn law_letters(monitor: Monitor, sel: GridView, q: char)
    ensures
        ({
            let now = sel.quadrant(q);
            let right = q == 'i' || q == 'k';
            let below = q == 'j' || q == 'k';
            if q == 'u' || right || below {
                &&& now.w == double(sel.w, 2)
                &&& now.h == double(sel.h, 2)
                &&& now.x == if right {
                    double(sel.x + double(sel.w, 2), 1)
                } else {
                    sel.x
                }
                &&& now.y == if below {
                    double(sel.y + double(sel.h, 2), 1)
                } else {
                    sel.y
                }
            } else {
                now == sel
            }
        }),
        whole(monitor).x == 0 && whole(monitor).y == 0,
        whole(monitor).w == monitor.width * pow2(1074),
        whole(monitor).h == monitor.height * pow2(1074),
{
}

/// The middle of a selection of the monitor, as a coordinate.
pub open spec fn point_of(monitor: Monitor, sel: GridView) -> Effect {
    let one = pow2(1074) as int;
    Effect::Warp {
        x: units_of(double(monitor.x * one + double(sel.x + double(sel.w, 2), 1), 1)) as i128,
        y: units_of(double(monitor.y * one + double(sel.y + double(sel.h, 2), 1), 1)) as i128,
    }
}

/// After a quadrant's key, the middle of what it took is clicked with the left
/// button, once the overlay is gone, exactly if that is smaller than the least
/// size both ways; otherwise the grid is drawn anew and the mode goes on.
pub proof fn law_quadrant_ends(
    monitor: Monitor,
    min_size: int,
    keys: Seq<u32>,
    select: u32,
    event: KeyEvent,
    sel: GridView,
    k: int,
)
    requires
        is_key_of(keys, event.sym, k),
        event.state == KeyState::Pressed,
    ensures
        ({
            let (now, step) = grid_step(monitor, min_size, keys, select, event, sel);
            &&& now.w < min_size && now.h < min_size ==> step == clicked_after(
                point_of(monitor, now),
                1,
            )
            &&& now.w >= min_size || now.h >= min_size ==> step == StepView {
                effects: seq![Effect::Redraw, Effect::Flush],
                next: Next::Stay,
            }
        }),
{
}

/// Escape leaves grid mode. The select key clicks the middle of the selection with
/// the left button before the overlay goes. Any other key that is no quadrant's,
/// and a key that does not go down, does nothing. None of these changes the
/// selection.
pub proof fn law_other_keys_of_grid_mode(
    monitor: Monitor,
    min_size: int,
    keys: Seq<u32>,
    select: u32,
    event: KeyEvent,
    sel: GridView,
)
    requires
        keys.len() == 4,
        event.state != KeyState::Pressed || event.sym == 0xff1b || !keys.contains(event.sym),
    ensures
        ({
            let (now, step) = grid_step(monitor, min_size, keys, select, event, sel);
            let down = event.state == KeyState::Pressed;
            &&& now == sel
            &&& !down ==> step.effects.len() == 0 && step.next == Next::Stay
            &&& down && event.sym == 0xff1b ==> step == StepView {
                effects: seq![Effect::DestroyOverlay, Effect::Flush],
                next: Next::Leave,
            }
            &&& down && event.sym != 0xff1b && event.sym == select ==> step == clicked_before(
                point_of(monitor, sel),
                1,
            )
            &&& down && event.sym != 0xff1b && event.sym != select ==> step.effects.len() == 0
                && step.next == Next::Stay
        }),
{
    assert(keys.contains(keys[0]) && keys.contains(keys[1]) && keys.contains(keys[2])
        && keys.contains(keys[3]));
}

/// The lines of the grid cross in the middle of the selection, and the letters
/// stand a quarter and three quarters of the way along its sides.
pub proof fn law_grid_picture(start: int, length: int)
    ensures
        half(length) == double(length, 2),
        middle_of(start, length) == double(start + double(length, 2), 1),
        along(start, length, 1) == double(start + double(length, 4), 1),
        along(start, length, 3) == double(start + double(3 * length, 4), 1),
{
}

/// A selected hint is clicked with the left button, at its place on the monitor,
/// once the overlay is gone; a cancelled mode is left; anything else draws the
/// hints anew.
pub proof fn law_steps_of_hint_mode(
    monitor: Monitor,
    event: KeyEvent,
    hints: Seq<Hint>,
    typed: Seq<char>,
)
    ensures
        ({
            let (typed_now, result) = after_key(event, hints, typed);
            let (now, step) = hint_step(monitor, event, hints, typed);
            let px = 0x10_0000_0000_0000int;
            &&& now == typed_now
            &&& result matches HintResult::Selected { x, y } ==> step == clicked_after(
                Effect::Warp {
                    x: (monitor.x * px + x) as i128,
                    y: (monitor.y * px + y) as i128,
                },
                1,
            )
            &&& result == HintResult::Cancel ==> step == StepView {
                effects: seq![Effect::DestroyOverlay, Effect::Flush],
                next: Next::Leave,
            }
            &&& result == HintResult::Continue ==> step == StepView {
                effects: seq![Effect::Redraw, Effect::Flush],
                next: Next::Stay,
            }
        }),
{
}

} // verus!
