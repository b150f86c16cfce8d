//! What is known of the compositor: outputs, input devices, pointer focus.
//!
//! Proxies of compositor objects stay with the program that talks to the
//! compositor. Here an output and a surface are numbers that it hands out.

use crate::fixed::Coord;
use vstd::prelude::*;

verus! {

/// How an output shows its contents, as announced by the compositor.
#[derive(Clone, Copy, Debug, PartialEq, Eq, Structural)]
pub enum Transform {
    Normal,
    _90,
    _180,
    _270,
    Flipped,
    Flipped90,
    Flipped180,
    Flipped270,
}

#[derive(Clone, Copy, Debug, PartialEq, Eq, Structural)]
pub enum KeyState {
    Released,
    Pressed,
    Repeated,
}

/// Whether a pointer position came with the pointer's arrival on a surface or
/// with its motion there.
#[derive(Clone, Copy, Debug, PartialEq, Eq, Structural)]
pub enum PointerPosSource {
    Enter,
    Motion,
}

/// A single monitor.
#[derive(Debug)]
pub struct Monitor {
    pub name: String,
    pub x: i32,
    pub y: i32,
    pub width: i32,
    pub height: i32,
    pub scale: i32,
    pub transform: Transform,
    /// The number of the output that this monitor is.
    pub output: u32,
}

/// A keyboard event.
#[derive(Debug)]
pub struct KeyEvent {
    /// Linux keycode (evdev).
    pub key: u32,
    /// XKB keysym.
    pub sym: u32,
    pub state: KeyState,
    pub utf8: Option<String>,
}

/// An output whose description is still arriving.
#[derive(Debug)]
pub struct PendingOutput {
    pub output: u32,
    pub name: String,
    pub x: i32,
    pub y: i32,
    pub width: i32,
    pub height: i32,
    pub scale: i32,
    pub transform: Option<Transform>,
    pub done: bool,
}

/// What the compositor says of an output.
pub enum OutputEvent {
    Name(String),
    /// The transform is `None` where its value is not a known one.
    Geometry { x: i32, y: i32, transform: Option<Transform> },
    Mode { width: i32, height: i32 },
    Scale { factor: i32 },
    Done,
    Other,
}

/// What the compositor says of an output's logical geometry.
pub enum XdgOutputEvent {
    LogicalPosition { x: i32, y: i32 },
    LogicalSize { width: i32, height: i32 },
    Name(String),
    Other,
}

/// What the compositor says of the pointer.
pub enum PointerEvent {
    Enter { surface: u64, x: Coord, y: Coord },
    Motion { x: Coord, y: Coord },
    Leave { surface: u64 },
    Other,
}

/// The objects to ask a seat for.
#[derive(Clone, Copy, Debug, PartialEq, Eq, Structural)]
pub struct SeatRequests {
    pub keyboard: bool,
    pub pointer: bool,
}

/// How long to wait for our surface to enter an output, in milliseconds.
pub const ENTRY_MILLIS: u128 = 200;

/// The state that compositor events build up.
pub struct WaylandState {
    pub monitors: Vec<Monitor>,
    pub pending_outputs: Vec<PendingOutput>,
    /// Whether a keyboard, a pointer and a virtual pointer are at hand.
    pub keyboard: bool,
    pub pointer: bool,
    pub vptr: bool,
    /// Pointer focus, and the position relative to the focused surface.
    pub pointer_focus_surface: Option<u64>,
    pub pointer_surface_pos: Option<(Coord, Coord)>,
    pub pointer_surface_pos_source: Option<PointerPosSource>,
    /// The output that the compositor put our surface on.
    pub surface_entered_output: Option<u32>,
    /// Whether the layer surface was configured.
    pub layer_surface_configured: bool,
}

// ---------------------------------------------------------------------------
// Models
// ---------------------------------------------------------------------------

pub struct MonitorView {
    pub name: Seq<char>,
    pub x: i32,
    pub y: i32,
    pub width: i32,
    pub height: i32,
    pub scale: i32,
    pub transform: Transform,
    pub output: u32,
}

impl View for Monitor {
    type V = MonitorView;

    open spec fn view(&self) -> MonitorView {
        MonitorView {
            name: self.name@,
            x: self.x,
            y: self.y,
            width: self.width,
            height: self.height,
            scale: self.scale,
            transform: self.transform,
            output: self.output,
        }
    }
}

impl Clone for Monitor {
    fn clone(&self) -> (r: Monitor)
        ensures
            r@ == self@,
    {
        Monitor {
            name: self.name.clone(),
            x: self.x,
            y: self.y,
            width: self.width,
            height: self.height,
            scale: self.scale,
            transform: self.transform,
            output: self.output,
        }
    }
}

pub struct KeyEventView {
    pub key: u32,
    pub sym: u32,
    pub state: KeyState,
    pub utf8: Option<Seq<char>>,
}

impl View for KeyEvent {
    type V = KeyEventView;

    open spec fn view(&self) -> KeyEventView {
        KeyEventView {
            key: self.key,
            sym: self.sym,
            state: self.state,
            utf8: match self.utf8 {
                Some(s) => Some(s@),
                None => None,
            },
        }
    }
}

impl Clone for KeyEvent {
    fn clone(&self) -> (r: KeyEvent)
        ensures
            r@ == self@,
    {
        KeyEvent {
            key: self.key,
            sym: self.sym,
            state: self.state,
            utf8: match &self.utf8 {
                Some(s) => Some(s.clone()),
                None => None,
            },
        }
    }
}

pub struct PendingView {
    pub output: u32,
    pub name: Seq<char>,
    pub x: i32,
    pub y: i32,
    pub width: i32,
    pub height: i32,
    pub scale: i32,
    pub transform: Option<Transform>,
    pub done: bool,
}

impl View for PendingOutput {
    type V = PendingView;

    open spec fn view(&self) -> PendingView {
        PendingView {
            output: self.output,
            name: self.name@,
            x: self.x,
            y: self.y,
            width: self.width,
            height: self.height,
            scale: self.scale,
            transform: self.transform,
            done: self.done,
        }
    }
}

pub open spec fn pending_views(outputs: Seq<PendingOutput>) -> Seq<PendingView> {
    Seq::new(outputs.len(), |i: int| outputs[i]@)
}

pub open spec fn monitor_views(monitors: Seq<Monitor>) -> Seq<MonitorView> {
    Seq::new(monitors.len(), |i: int| monitors[i]@)
}

/// An output of which nothing is known yet.
pub open spec fn unknown_output(output: u32) -> PendingView {
    PendingView {
        output,
        name: Seq::empty(),
        x: 0,
        y: 0,
        width: 0,
        height: 0,
        scale: 0,
        transform: None,
        done: false,
    }
}

pub open spec fn after_output_event(p: PendingView, event: OutputEvent) -> PendingView {
    match event {
        OutputEvent::Name(name) => PendingView { name: name@, ..p },
        OutputEvent::Geometry { x, y, transform } => PendingView {
            x,
            y,
            transform: Some(
                match transform {
                    Some(t) => t,
                    None => Transform::Normal,
                },
            ),
            ..p
        },
        OutputEvent::Mode { width, height } => PendingView { width, height, ..p },
        OutputEvent::Scale { factor } => PendingView { scale: factor, ..p },
        OutputEvent::Done => PendingView { done: true, ..p },
        OutputEvent::Other => p,
    }
}

pub open spec fn after_xdg_output_event(p: PendingView, event: XdgOutputEvent) -> PendingView {
    match event {
        XdgOutputEvent::LogicalPosition { x, y } => PendingView { x, y, ..p },
        XdgOutputEvent::LogicalSize { width, height } => PendingView { width, height, ..p },
        XdgOutputEvent::Name(name) => PendingView { name: name@, ..p },
        XdgOutputEvent::Other => p,
    }
}

/// Whether enough is known of an output to use it.
pub open spec fn usable(p: PendingView) -> bool {
    p.done || p.width > 0
}

pub open spec fn monitor_of(p: PendingView) -> MonitorView {
    MonitorView {
        name: if p.name.len() == 0 {
            "unknown"@
        } else {
            p.name
        },
        x: p.x,
        y: p.y,
        width: p.width,
        height: p.height,
        scale: if p.scale > 0 {
            p.scale
        } else {
            1
        },
        transform: match p.transform {
            Some(t) => t,
            None => Transform::Normal,
        },
        output: p.output,
    }
}

/// The monitors that the usable outputs are, in the order of the outputs.
pub open spec fn monitors_of(outputs: Seq<PendingView>) -> Seq<MonitorView>
    decreases outputs.len(),
{
    if outputs.len() == 0 {
        Seq::empty()
    } else if usable(outputs.last()) {
        monitors_of(outputs.drop_last()).push(monitor_of(outputs.last()))
    } else {
        monitors_of(outputs.drop_last())
    }
}

/// The index of the first pending output with the number `output`, or the
/// number of outputs if there is none.
pub open spec fn position_of_output(outputs: Seq<PendingOutput>, output: u32) -> int
    decreases outputs.len(),
{
    if outputs.len() == 0 {
        0
    } else {
        let before = position_of_output(outputs.drop_last(), output);
        if before < outputs.len() - 1 || outputs.last().output == output {
            before
        } else {
            outputs.len() as int
        }
    }
}

/// The index of the first monitor on `output`, or the number of monitors if
/// there is none.
pub open spec fn position_of_monitor(monitors: Seq<Monitor>, output: u32) -> int
    decreases monitors.len(),
{
    if monitors.len() == 0 {
        0
    } else {
        let before = position_of_monitor(monitors.drop_last(), output);
        if before < monitors.len() - 1 || monitors.last().output == output {
            before
        } else {
            monitors.len() as int
        }
    }
}

/// The state after a pointer event. A surface that the pointer left has neither
/// focus nor a pointer position.
pub open spec fn after_pointer_event(s: WaylandState, event: PointerEvent) -> WaylandState {
    match event {
        PointerEvent::Enter { surface, x, y } => WaylandState {
            pointer_focus_surface: Some(surface),
            pointer_surface_pos: Some((x, y)),
            pointer_surface_pos_source: Some(PointerPosSource::Enter),
            ..s
        },
        PointerEvent::Motion { x, y } => WaylandState {
            pointer_surface_pos: Some((x, y)),
            pointer_surface_pos_source: Some(PointerPosSource::Motion),
            ..s
        },
        PointerEvent::Leave { surface } => if s.pointer_focus_surface == Some(surface) {
            WaylandState {
                pointer_focus_surface: None,
                pointer_surface_pos: None,
                pointer_surface_pos_source: None,
                ..s
            }
        } else {
            s
        },
        PointerEvent::Other => s,
    }
}

/// Whether nothing but the pending outputs differs.
pub open spec fn same_but_pending(a: WaylandState, b: WaylandState) -> bool {
    a == (WaylandState { pending_outputs: a.pending_outputs, ..b })
}

// ---------------------------------------------------------------------------
// Outputs
// ---------------------------------------------------------------------------

impl PendingOutput {
    pub fn new(output: u32) -> (p: PendingOutput)
        ensures
            p@ == unknown_output(output),
    {
        PendingOutput {
            output,
            name: String::new(),
            x: 0,
            y: 0,
            width: 0,
            height: 0,
            scale: 0,
            transform: None,
            done: false,
        }
    }

    /// Takes in one event of the output.
    pub fn apply(&mut self, event: OutputEvent)
        ensures
            final(self)@ == after_output_event(old(self)@, event),
    {
        match event {
            OutputEvent::Name(name) => {
                self.name = name;
            },
            OutputEvent::Geometry { x, y, transform } => {
                self.x = x;
                self.y = y;
                self.transform = Some(
                    match transform {
                        Some(t) => t,
                        None => Transform::Normal,
                    },
                );
            },
            OutputEvent::Mode { width, height } => {
                self.width = width;
                self.height = height;
            },
            OutputEvent::Scale { factor } => {
                self.scale = factor;
            },
            OutputEvent::Done => {
                self.done = true;
            },
            OutputEvent::Other => {},
        }
    }

    /// Takes in one event on the output's logical geometry.
    pub fn apply_xdg(&mut self, event: XdgOutputEvent)
        ensures
            final(self)@ == after_xdg_output_event(old(self)@, event),
    {
        match event {
            XdgOutputEvent::LogicalPosition { x, y } => {
                self.x = x;
                self.y = y;
            },
            XdgOutputEvent::LogicalSize { width, height } => {
                self.width = width;
                self.height = height;
            },
            XdgOutputEvent::Name(name) => {
                self.name = name;
            },
            XdgOutputEvent::Other => {},
        }
    }

    /// The monitor that this output is.
    pub fn to_monitor(&self) -> (m: Monitor)
        ensures
            m@ == monitor_of(self@),
    {
        Monitor {
            name: if self.name.as_str().is_empty() {
                "unknown".to_owned()
            } else {
                self.name.clone()
            },
            x: self.x,
            y: self.y,
            width: self.width,
            height: self.height,
            scale: if self.scale > 0 {
                self.scale
            } else {
                1
            },
            transform: match self.transform {
                Some(t) => t,
                None => Transform::Normal,
            },
            output: self.output,
        }
    }
}

impl WaylandState {
    /// The state before any event.
    pub fn new() -> (s: WaylandState)
        ensures
            s.monitors@.len() == 0,
            s.pending_outputs@.len() == 0,
            !s.keyboard,
            !s.pointer,
            !s.vptr,
            s.pointer_focus_surface is None,
            s.pointer_surface_pos is None,
            s.pointer_surface_pos_source is None,
            s.surface_entered_output is None,
            !s.layer_surface_configured,
    {
        WaylandState {
            monitors: Vec::new(),
            pending_outputs: Vec::new(),
            keyboard: false,
            pointer: false,
            vptr: false,
            pointer_focus_surface: None,
            pointer_surface_pos: None,
            pointer_surface_pos_source: None,
            surface_entered_output: None,
            layer_surface_configured: false,
        }
    }

    /// Adds an output of which nothing is known yet.
    pub fn announce_output(&mut self, output: u32)
        ensures
            pending_views(final(self).pending_outputs@) == pending_views(
                old(self).pending_outputs@,
            ).push(unknown_output(output)),
            same_but_pending(*final(self), *old(self)),
    {
        self.pending_outputs.push(PendingOutput::new(output));
    }

    /// Hands an event to the first pending output with the number `output`; one
    /// for an unknown output is dropped.
    pub fn output_event(&mut self, output: u32, event: OutputEvent)
        ensures
            same_but_pending(*final(self), *old(self)),
            ({
                let before = old(self).pending_outputs@;
                let at = position_of_output(before, output);
                pending_views(final(self).pending_outputs@) == if at < before.len() {
                    pending_views(before).update(at, after_output_event(before[at]@, event))
                } else {
                    pending_views(before)
                }
            }),
    {
        let ghost before = self.pending_outputs@;
        let mut i: usize = 0;
        while i < self.pending_outputs.len() && self.pending_outputs[i].output != output
            invariant
                i <= self.pending_outputs.len(),
                self.pending_outputs@ == before,
                *self == *old(self),
                position_of_output(before.take(i as int), output) == i,
            decreases self.pending_outputs.len() - i,
        {
            assert(before.take(i + 1).drop_last() =~= before.take(i as int));
            i = i + 1;
        }
        proof {
            if i < before.len() {
                assert(before.take(i + 1).drop_last() =~= before.take(i as int));
                lemma_position_of_output_extends(before, output, i + 1);
            } else {
                assert(before.take(i as int) =~= before);
            }
        }
        if i < self.pending_outputs.len() {
            self.pending_outputs[i].apply(event);
        }
    }

    /// Hands an event on logical geometry to the pending output at `index`; one
    /// beyond the last output is dropped.
    pub fn xdg_output_event(&mut self, index: usize, event: XdgOutputEvent)
        ensures
            same_but_pending(*final(self), *old(self)),
            ({
                let before = old(self).pending_outputs@;
                pending_views(final(self).pending_outputs@) == if index < before.len() {
                    pending_views(before).update(
                        index as int,
                        after_xdg_output_event(before[index as int]@, event),
                    )
                } else {
                    pending_views(before)
                }
            }),
    {
        if index < self.pending_outputs.len() {
            self.pending_outputs[index].apply_xdg(event);
        }
    }

    /// Turns the usable outputs into the monitors. Fails where there is none.
    pub fn collect_monitors(&mut self) -> (found: bool)
        ensures
            monitor_views(final(self).monitors@) == monitors_of(
                pending_views(old(self).pending_outputs@),
            ),
            found == (final(self).monitors@.len() > 0),
            *final(self) == (WaylandState { monitors: final(self).monitors, ..*old(self) }),
    {
        let mut monitors: Vec<Monitor> = Vec::new();
        let ghost all = pending_views(self.pending_outputs@);
        let mut i: usize = 0;
        while i < self.pending_outputs.len()
            invariant
                i <= self.pending_outputs.len(),
                all == pending_views(self.pending_outputs@),
                monitor_views(monitors@) == monitors_of(all.take(i as int)),
            decreases self.pending_outputs.len() - i,
        {
            assert(all.take(i + 1).drop_last() =~= all.take(i as int));
            let p: &PendingOutput = &self.pending_outputs[i];
            if p.done || p.width > 0 {
                let ghost before = monitors@;
                monitors.push(p.to_monitor());
                assert(monitor_views(monitors@) =~= monitor_views(before).push(
                    monitor_of(all[i as int]),
                ));
            }
            i = i + 1;
        }
        assert(all.take(all.len() as int) =~= all);
        let found: bool = monitors.len() > 0;
        self.monitors = monitors;
        found
    }

    /// Whether the compositor has to be asked which monitor has focus.
    pub fn needs_focus_probe(&self) -> (b: bool)
        ensures
            b == (self.monitors@.len() > 1),
    {
        self.monitors.len() > 1
    }

    /// The index of the focused monitor: the one on the output that our surface
    /// entered, and the first where that is not known. With several monitors the
    /// noted output is then forgotten.
    pub fn find_focused_monitor(&mut self) -> (index: usize)
        requires
            old(self).monitors@.len() > 0,
        ensures
            index < old(self).monitors@.len(),
            index == match old(self).surface_entered_output {
                Some(output) if old(self).monitors@.len() > 1 && position_of_monitor(
                    old(self).monitors@,
                    output,
                ) < old(self).monitors@.len() => position_of_monitor(
                    old(self).monitors@,
                    output,
                ),
                _ => 0,
            },
            *final(self) == (WaylandState {
                surface_entered_output: if old(self).monitors@.len() > 1 {
                    None
                } else {
                    old(self).surface_entered_output
                },
                ..*old(self)
            }),
    {
        if self.monitors.len() <= 1 {
            return 0;
        }
        let index: usize = match self.surface_entered_output {
            Some(output) => self.monitor_on(output),
            None => 0,
        };
        self.surface_entered_output = None;
        index
    }

    /// The index of the first monitor on `output`, or 0.
    fn monitor_on(&self, output: u32) -> (index: usize)
        ensures
            index == (if position_of_monitor(self.monitors@, output) < self.monitors@.len() {
                position_of_monitor(self.monitors@, output)
            } else {
                0
            }),
    {
        let mut i: usize = 0;
        while i < self.monitors.len()
            invariant
                i <= self.monitors.len(),
                position_of_monitor(self.monitors@.take(i as int), output) == i,
            decreases self.monitors.len() - i,
        {
            assert(self.monitors@.take(i + 1).drop_last() =~= self.monitors@.take(i as int));
            if self.monitors[i].output == output {
                proof {
                    lemma_position_of_monitor_extends(self.monitors@, output, i + 1);
                }
                return i;
            }
            i = i + 1;
        }
        assert(self.monitors@.take(i as int) =~= self.monitors@);
        0
    }

    /// Forgets which output our surface entered, before it enters one.
    pub fn expect_entry(&mut self)
        ensures
            *final(self) == (WaylandState { surface_entered_output: None, ..*old(self) }),
    {
        self.surface_entered_output = None;
    }

    /// Whether to wait on for our surface to enter an output, so many
    /// milliseconds after the wait began.
    pub fn awaits_entry(&self, elapsed: u128) -> (b: bool)
        ensures
            b == (self.surface_entered_output is None && elapsed < ENTRY_MILLIS),
    {
        self.surface_entered_output.is_none() && elapsed < ENTRY_MILLIS
    }

    // -----------------------------------------------------------------------
    // Seat, pointer and surfaces
    // -----------------------------------------------------------------------

    /// Takes in whether there is a seat, once the outputs are known, and says
    /// which of its devices to ask for. With a seat there is a virtual pointer,
    /// and a keyboard.
    pub fn take_seat(&mut self, seat: bool) -> (r: SeatRequests)
        ensures
            r.keyboard == (seat && !old(self).keyboard),
            !r.pointer,
            *final(self) == (WaylandState {
                vptr: seat,
                keyboard: old(self).keyboard || seat,
                ..*old(self)
            }),
    {
        self.vptr = seat;
        self.seat_capabilities(seat, false)
    }

    /// Takes in the seat's capabilities and says which of its devices to ask
    /// for: those that it has and that are not at hand.
    pub fn seat_capabilities(&mut self, has_keyboard: bool, has_pointer: bool) -> (r: SeatRequests)
        ensures
            r.keyboard == (has_keyboard && !old(self).keyboard),
            r.pointer == (has_pointer && !old(self).pointer),
            *final(self) == (WaylandState {
                keyboard: old(self).keyboard || has_keyboard,
                pointer: old(self).pointer || has_pointer,
                ..*old(self)
            }),
    {
        let r: SeatRequests = SeatRequests {
            keyboard: has_keyboard && !self.keyboard,
            pointer: has_pointer && !self.pointer,
        };
        if r.keyboard {
            self.keyboard = true;
        }
        if r.pointer {
            self.pointer = true;
        }
        r
    }

    /// Takes in one pointer event.
    pub fn pointer_event(&mut self, event: PointerEvent)
        ensures
            *final(self) == after_pointer_event(*old(self), event),
    {
        match event {
            PointerEvent::Enter { surface, x, y } => {
                self.pointer_focus_surface = Some(surface);
                self.pointer_surface_pos = Some((x, y));
                self.pointer_surface_pos_source = Some(PointerPosSource::Enter);
            },
            PointerEvent::Motion { x, y } => {
                self.pointer_surface_pos = Some((x, y));
                self.pointer_surface_pos_source = Some(PointerPosSource::Motion);
            },
            PointerEvent::Leave { surface } => {
                let left: bool = match self.pointer_focus_surface {
                    Some(focus) => focus == surface,
                    None => false,
                };
                if left {
                    self.pointer_focus_surface = None;
                    self.pointer_surface_pos = None;
                    self.pointer_surface_pos_source = None;
                }
            },
            PointerEvent::Other => {},
        }
    }

    /// Notes that our surface entered an output.
    pub fn surface_entered(&mut self, output: u32)
        ensures
            *final(self) == (WaylandState {
                surface_entered_output: Some(output),
                ..*old(self)
            }),
    {
        self.surface_entered_output = Some(output);
    }

    /// Forgets that a layer surface was configured, before another one is.
    pub fn expect_configure(&mut self)
        ensures
            *final(self) == (WaylandState { layer_surface_configured: false, ..*old(self) }),
    {
        self.layer_surface_configured = false;
    }

    /// Notes that the layer surface was configured.
    pub fn layer_surface_configure(&mut self)
        ensures
            *final(self) == (WaylandState { layer_surface_configured: true, ..*old(self) }),
    {
        self.layer_surface_configured = true;
    }
}

proof fn lemma_position_of_output_extends(outputs: Seq<PendingOutput>, output: u32, k: int)
    requires
        0 <= k <= outputs.len(),
        position_of_output(outputs.take(k), output) < k,
    ensures
        position_of_output(outputs, output) == position_of_output(outputs.take(k), output),
    decreases outputs.len() - k,
{
    if k < outputs.len() {
        assert(outputs.take(k + 1).drop_last() =~= outputs.take(k));
        lemma_position_of_output_extends(outputs, output, k + 1);
    } else {
        assert(outputs.take(k) =~= outputs);
    }
}

proof fn lemma_position_of_monitor_extends(monitors: Seq<Monitor>, output: u32, k: int)
    requires
        0 <= k <= monitors.len(),
        position_of_monitor(monitors.take(k), output) < k,
    ensures
        position_of_monitor(monitors, output) == position_of_monitor(monitors.take(k), output),
    decreases monitors.len() - k,
{
    if k < monitors.len() {
        assert(monitors.take(k + 1).drop_last() =~= monitors.take(k));
        lemma_position_of_monitor_extends(monitors, output, k + 1);
    } else {
        assert(monitors.take(k) =~= monitors);
    }
}

/// Every monitor has a name and a scale of one or more.
pub proof fn law_monitors_complete(outputs: Seq<PendingView>, i: int)
    requires
        0 <= i < monitors_of(outputs).len(),
    ensures
        monitors_of(outputs)[i].name.len() > 0,
        monitors_of(outputs)[i].scale >= 1,
        exists|j: int|
            0 <= j < outputs.len() && usable(#[trigger] outputs[j]) && monitors_of(outputs)[i]
                == monitor_of(outputs[j]),
    decreases outputs.len(),
{
    reveal_strlit("unknown");
    if outputs.len() > 0 {
        let init = outputs.drop_last();
        let before = monitors_of(init);
        if i < before.len() {
            law_monitors_complete(init, i);
            let j = choose|j: int|
                0 <= j < init.len() && usable(#[trigger] init[j]) && before[i] == monitor_of(
                    init[j],
                );
            assert(usable(outputs[j]));
        } else {
            assert(usable(outputs[outputs.len() - 1]));
        }
    }
}

// ---------------------------------------------------------------------------
// Connecting, keys and buffers
// ---------------------------------------------------------------------------

/// The complaint about the first required global that the compositor lacks.
pub fn missing_global(
    compositor: bool,
    shm: bool,
    layer_shell: bool,
    vptr_mgr: bool,
) -> (complaint: Option<&'static str>)
    ensures
        compositor && shm && layer_shell && vptr_mgr <==> complaint is None,
        complaint matches Some(text) ==> text@ == if !compositor {
            "wl_compositor not available"@
        } else if !shm {
            "wl_shm not available"@
        } else if !layer_shell {
            "zwlr_layer_shell_v1 not available – is this a wlroots compositor?"@
        } else {
            "zwlr_virtual_pointer_manager_v1 not available"@
        },
{
    if !compositor {
        Some("wl_compositor not available")
    } else if !shm {
        Some("wl_shm not available")
    } else if !layer_shell {
        Some("zwlr_layer_shell_v1 not available – is this a wlroots compositor?")
    } else if !vptr_mgr {
        Some("zwlr_virtual_pointer_manager_v1 not available")
    } else {
        None
    }
}

/// The XKB keycode of an evdev keycode.
pub fn xkb_keycode(key: u32) -> (code: u32)
    requires
        key <= u32::MAX - 8,
    ensures
        code == key + 8,
{
    key + 8
}

/// The event for a key in a known state. The keysym is 0 where no keymap gives
/// one, and empty text is no text.
pub fn key_event(
    key: u32,
    state: Option<KeyState>,
    sym: Option<u32>,
    utf8: Option<String>,
) -> (event: Option<KeyEvent>)
    ensures
        state is None <==> event is None,
        event matches Some(e) ==> {
            &&& e.key == key
            &&& Some(e.state) == state
            &&& e.sym == (match sym {
                Some(s) => s,
                None => 0,
            })
            &&& e.utf8 == (match utf8 {
                Some(text) if text@.len() > 0 => Some(text),
                _ => None,
            })
        },
{
    match state {
        None => None,
        Some(state) => {
            let sym: u32 = match sym {
                Some(s) => s,
                None => 0,
            };
            let utf8: Option<String> = match utf8 {
                Some(text) => if text.as_str().is_empty() {
                    None
                } else {
                    Some(text)
                },
                None => None,
            };
            Some(KeyEvent { key, sym, state, utf8 })
        },
    }
}

/// The stride and the size in bytes of a buffer of 32-bit pixels.
pub fn shm_layout(width: i32, height: i32) -> (layout: (i32, usize))
    requires
        0 <= width,
        0 <= height,
        width * 4 <= i32::MAX,
        width * 4 * height <= i32::MAX,
    ensures
        layout.0 == width * 4,
        layout.1 == width * 4 * height,
{
    let stride: i32 = width * 4;
    assert(stride * height >= 0) by (nonlinear_arith)
        requires
            stride >= 0,
            height >= 0,
    ;
    (stride, (stride * height) as usize)
}

} // verus!
