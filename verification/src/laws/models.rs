//! The models of the types tell all that a value holds.

use crate::grid::GridSelection;
use crate::hint::{drawn_views, DrawnLabel, Hint};
use crate::modes::Step;
use crate::normal::NormalState;
use crate::number::Double;
use crate::wayland::{
    monitor_views, pending_views, same_but_pending, KeyEvent, Monitor, PendingOutput, WaylandState,
};
use vstd::arithmetic::power2::pow2;
use vstd::prelude::*;

verus! {

/// A number is its bits, doubled as often as it says.
pub proof fn law_number(d: Double)
    ensures
        d@ == d.bits * pow2(d.shift as nat),
{
}

/// Monitors with the same model are the same in name, place, size, scale, transform
/// and output.
pub proof fn law_same_monitors(a: Monitor, b: Monitor)
    requires
        a@ == b@,
    ensures
        a.name@ == b.name@,
        (a.x, a.y, a.width, a.height) == (b.x, b.y, b.width, b.height),
        a.scale == b.scale,
        a.transform == b.transform,
        a.output == b.output,
{
}

/// The model of a monitor has the monitor's own numbers, and so has that of an output
/// whose description is still arriving, in a sequence as by themselves.
pub proof fn law_outputs(monitors: Seq<Monitor>, outputs: Seq<PendingOutput>)
    ensures
        monitor_views(monitors).len() == monitors.len(),
        forall|i: int|
            0 <= i < monitors.len() ==> {
                let (m, v) = (#[trigger] monitors[i], monitor_views(monitors)[i]);
                &&& v.name == m.name@ && v.output == m.output
                &&& (v.x, v.y, v.width, v.height) == (m.x, m.y, m.width, m.height)
                &&& v.scale == m.scale && v.transform == m.transform
            },
        pending_views(outputs).len() == outputs.len(),
        forall|i: int|
            0 <= i < outputs.len() ==> {
                let (p, v) = (#[trigger] outputs[i], pending_views(outputs)[i]);
                &&& v.name == p.name@ && v.output == p.output
                &&& (v.x, v.y, v.width, v.height) == (p.x, p.y, p.width, p.height)
                &&& v.scale == p.scale && v.transform == p.transform && v.done == p.done
            },
{
}

/// States that are the same but for the pending outputs are the same in all else.
pub proof fn law_same_but_pending(a: WaylandState, b: WaylandState)
    ensures
        same_but_pending(a, b) <==> {
            &&& a.monitors == b.monitors
            &&& a.keyboard == b.keyboard && a.pointer == b.pointer && a.vptr == b.vptr
            &&& a.pointer_focus_surface == b.pointer_focus_surface
            &&& a.pointer_surface_pos == b.pointer_surface_pos
            &&& a.pointer_surface_pos_source == b.pointer_surface_pos_source
            &&& a.surface_entered_output == b.surface_entered_output
            &&& a.layer_surface_configured == b.layer_surface_configured
        },
{
}

/// The models of what the modes work with have the values' own numbers and texts.
pub proof fn law_modes(
    event: KeyEvent,
    hint: Hint,
    sel: GridSelection,
    state: NormalState,
    step: Step,
)
    ensures
        event@.key == event.key && event@.sym == event.sym && event@.state == event.state,
        event@.utf8 is Some <==> event.utf8 is Some,
        event.utf8 is Some ==> event@.utf8->0 == event.utf8->0@,
        (hint@.x, hint@.y, hint@.w, hint@.h) == (hint.x, hint.y, hint.w, hint.h),
        hint@.label == hint.label@,
        (sel@.x, sel@.y, sel@.w, sel@.h) == (sel.x@, sel.y@, sel.w@, sel.h@),
        (state@.cx, state@.cy) == (state.cx@, state.cy@),
        state@.last_sample == state.last_sample,
        state@.held == state.held@,
        step@.effects == step.effects@,
        step@.next == step.next,
{
}

/// The model of a drawn label has the label's own texts.
pub proof fn law_drawn(labels: Seq<DrawnLabel>, i: int)
    requires
        0 <= i < labels.len(),
    ensures
        drawn_views(labels).len() == labels.len(),
        drawn_views(labels)[i].index == labels[i].index,
        drawn_views(labels)[i].dimmed == labels[i].dimmed@,
        drawn_views(labels)[i].bright == labels[i].bright@,
{
}

} // verus!
