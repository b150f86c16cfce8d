//! What becomes of the outputs that the compositor describes.

use crate::wayland::{
    after_output_event, after_xdg_output_event, monitors_of, position_of_monitor,
    position_of_output, unknown_output, Monitor, MonitorView, OutputEvent, PendingOutput,
    PendingView, Transform, XdgOutputEvent,
};
use vstd::prelude::*;

verus! {

/// An event on an output tells just what it is about: everything else that was
/// known stays as it was. A transform that is not a known one counts as none.
pub proof fn law_output_events(p: PendingView, event: OutputEvent)
    ensures
        ({
            let q = after_output_event(p, event);
            &&& q.output == p.output
            &&& q.name == match event {
                OutputEvent::Name(name) => name@,
                _ => p.name,
            }
            &&& (q.x, q.y) == match event {
                OutputEvent::Geometry { x, y, .. } => (x, y),
                _ => (p.x, p.y),
            }
            &&& q.transform == match event {
                OutputEvent::Geometry { transform: Some(t), .. } => Some(t),
                OutputEvent::Geometry { .. } => Some(Transform::Normal),
                _ => p.transform,
            }
            &&& (q.width, q.height) == match event {
                OutputEvent::Mode { width, height } => (width, height),
                _ => (p.width, p.height),
            }
            &&& q.scale == match event {
                OutputEvent::Scale { factor } => factor,
                _ => p.scale,
            }
            &&& q.done == (p.done || event is Done)
        }),
{
}

/// An event on the logical geometry tells just what it is about, too.
pub proof fn law_xdg_output_events(p: PendingView, event: XdgOutputEvent)
    ensures
        ({
            let q = after_xdg_output_event(p, event);
            &&& q.output == p.output
            &&& q.name == match event {
                XdgOutputEvent::Name(name) => name@,
                _ => p.name,
            }
            &&& (q.x, q.y) == match event {
                XdgOutputEvent::LogicalPosition { x, y } => (x, y),
                _ => (p.x, p.y),
            }
            &&& (q.width, q.height) == match event {
                XdgOutputEvent::LogicalSize { width, height } => (width, height),
                _ => (p.width, p.height),
            }
            &&& q.transform == p.transform
            &&& q.scale == p.scale
            &&& q.done == p.done
        }),
{
}

/// The logical geometry holds, whatever the output's own events said of it before.
pub proof fn law_logical_geometry_wins(
    p: PendingView,
    own: (i32, i32, i32, i32),
    transform: Option<Transform>,
    logical: (i32, i32, i32, i32),
)
    ensures
        ({
            let placed = after_output_event(
                p,
                OutputEvent::Geometry { x: own.0, y: own.1, transform },
            );
            let sized = after_output_event(
                placed,
                OutputEvent::Mode { width: own.2, height: own.3 },
            );
            let moved = after_xdg_output_event(
                sized,
                XdgOutputEvent::LogicalPosition { x: logical.0, y: logical.1 },
            );
            let q = after_xdg_output_event(
                moved,
                XdgOutputEvent::LogicalSize { width: logical.2, height: logical.3 },
            );
            (q.x, q.y, q.width, q.height) == logical
        }),
{
}

/// Of an output of which nothing is known, nothing is known.
pub proof fn law_unknown_output(output: u32)
    ensures
        ({
            let p = unknown_output(output);
            &&& p.output == output
            &&& p.name.len() == 0
            &&& p.x == 0 && p.y == 0
            &&& p.width == 0 && p.height == 0
            &&& p.scale == 0
            &&& p.transform is None
            &&& !p.done
            &&& monitors_of(seq![p]).len() == 0
        }),
{
    let one = seq![unknown_output(output)];
    assert(one.drop_last() =~= Seq::<PendingView>::empty());
    reveal_with_fuel(monitors_of, 2);
}

/// The monitors are the outputs that are done or have a width, in their order, each
/// as it was described. One without a name is called unknown, the scale is at least
/// one, and without a transform there is none.
pub proof fn law_monitors(outputs: Seq<PendingView>)
    ensures
        monitors_of(outputs) == outputs.filter(
            |p: PendingView| p.done || p.width >= 1,
        ).map_values(
            |p: PendingView|
                MonitorView {
                    name: if p.name == Seq::<char>::empty() {
                        "unknown"@
                    } else {
                        p.name
                    },
                    x: p.x,
                    y: p.y,
                    width: p.width,
                    height: p.height,
                    scale: if p.scale < 1 {
                        1
                    } else {
                        p.scale
                    },
                    transform: if p.transform is Some {
                        p.transform->0
                    } else {
                        Transform::Normal
                    },
                    output: p.output,
                },
        ),
    decreases outputs.len(),
{
    reveal(Seq::filter);
    let counts = |p: PendingView| p.done || p.width >= 1;
    if outputs.len() > 0 {
        law_monitors(outputs.drop_last());
        let p = outputs.last();
        if p.name.len() == 0 {
            assert(p.name =~= Seq::empty());
        }
        assert(monitors_of(outputs) == if counts(p) {
            monitors_of(outputs.drop_last()).push(monitors_of(outputs).last())
        } else {
            monitors_of(outputs.drop_last())
        });
    }
}

/// The index that is found is that of the first output with the number, and past
/// the last where there is none.
pub proof fn law_position_of_output(outputs: Seq<PendingOutput>, output: u32)
    ensures
        ({
            let at = position_of_output(outputs, output);
            &&& 0 <= at <= outputs.len()
            &&& at < outputs.len() ==> outputs[at].output == output
            &&& forall|i: int| 0 <= i < at ==> (#[trigger] outputs[i]).output != output
        }),
    decreases outputs.len(),
{
    if outputs.len() > 0 {
        let init = outputs.drop_last();
        law_position_of_output(init, output);
        assert forall|i: int| 0 <= i < position_of_output(outputs, output) implies (
        #[trigger] outputs[i]).output != output by {
            if i < init.len() {
                assert(init[i] == outputs[i]);
            }
        }
    }
}

/// So is the index of a monitor.
pub proof fn law_position_of_monitor(monitors: Seq<Monitor>, output: u32)
    ensures
        ({
            let at = position_of_monitor(monitors, output);
            &&& 0 <= at <= monitors.len()
            &&& at < monitors.len() ==> monitors[at].output == output
            &&& forall|i: int| 0 <= i < at ==> (#[trigger] monitors[i]).output != output
        }),
    decreases monitors.len(),
{
    if monitors.len() > 0 {
        let init = monitors.drop_last();
        law_position_of_monitor(init, output);
        assert forall|i: int| 0 <= i < position_of_monitor(monitors, output) implies (
        #[trigger] monitors[i]).output != output by {
            if i < init.len() {
                assert(init[i] == monitors[i]);
            }
        }
    }
}

} // verus!
