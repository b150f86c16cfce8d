use warpd_rs::fixed::UNIT;
use warpd_rs::wayland::{
    key_event, missing_global, shm_layout, xkb_keycode, KeyEvent, KeyState, OutputEvent,
    PointerEvent, PointerPosSource, SeatRequests, Transform, WaylandState, XdgOutputEvent,
};

fn two_outputs() -> WaylandState {
    let mut s = WaylandState::new();
    s.announce_output(4);
    s.announce_output(9);
    s.output_event(4, OutputEvent::Geometry { x: 0, y: 0, transform: Some(Transform::_90) });
    s.output_event(4, OutputEvent::Mode { width: 1080, height: 1920 });
    s.output_event(4, OutputEvent::Name("DP-1".to_string()));
    s.output_event(4, OutputEvent::Scale { factor: 2 });
    s.output_event(4, OutputEvent::Other);
    s.output_event(4, OutputEvent::Done);
    s.output_event(9, OutputEvent::Geometry { x: 7, y: 8, transform: None });
    s.output_event(9, OutputEvent::Mode { width: 800, height: 600 });
    s
}

#[test]
fn outputs_become_monitors() {
    let mut s = two_outputs();
    assert!(s.collect_monitors());
    assert_eq!(s.monitors.len(), 2);
    let a = &s.monitors[0];
    assert_eq!(
        (a.name.as_str(), a.x, a.y, a.width, a.height, a.scale, a.transform, a.output),
        ("DP-1", 0, 0, 1080, 1920, 2, Transform::_90, 4)
    );
    let b = &s.monitors[1];
    assert_eq!(
        (b.name.as_str(), b.x, b.y, b.width, b.height, b.scale, b.transform, b.output),
        ("unknown", 7, 8, 800, 600, 1, Transform::Normal, 9)
    );
}

#[test]
fn logical_geometry_replaces_the_physical_one() {
    let mut s = two_outputs();
    s.xdg_output_event(0, XdgOutputEvent::LogicalPosition { x: -5, y: 6 });
    s.xdg_output_event(0, XdgOutputEvent::LogicalSize { width: 540, height: 960 });
    s.xdg_output_event(1, XdgOutputEvent::Name("HDMI-A-1".to_string()));
    s.xdg_output_event(1, XdgOutputEvent::Other);
    s.xdg_output_event(2, XdgOutputEvent::LogicalPosition { x: 1, y: 1 });
    s.collect_monitors();
    let a = &s.monitors[0];
    assert_eq!((a.x, a.y, a.width, a.height), (-5, 6, 540, 960));
    assert_eq!(s.monitors[1].name, "HDMI-A-1");
    assert_eq!((s.monitors[1].x, s.monitors[1].y), (7, 8));
}

#[test]
fn unknown_outputs_are_left_out() {
    let mut s = WaylandState::new();
    assert!(!s.collect_monitors());
    s.announce_output(1);
    s.output_event(2, OutputEvent::Done);
    assert!(!s.collect_monitors());
    s.output_event(1, OutputEvent::Done);
    assert!(s.collect_monitors());
    assert_eq!(s.monitors.len(), 1);
    assert_eq!(s.monitors[0].width, 0);
}

#[test]
fn focus_is_where_our_surface_is() {
    let mut s = two_outputs();
    s.collect_monitors();
    assert!(s.needs_focus_probe());
    assert_eq!(s.find_focused_monitor(), 0);
    s.surface_entered(9);
    assert_eq!(s.find_focused_monitor(), 1);
    assert_eq!(s.surface_entered_output, None);
    assert_eq!(s.monitors.len(), 2);
    s.surface_entered(77);
    assert_eq!(s.find_focused_monitor(), 0);
    assert_eq!(s.surface_entered_output, None);
    s.monitors.pop();
    s.surface_entered(9);
    assert!(!s.needs_focus_probe());
    assert_eq!(s.find_focused_monitor(), 0);
    assert_eq!(s.surface_entered_output, Some(9));
}

#[test]
fn entry_is_awaited_for_a_while() {
    let mut s = WaylandState::new();
    s.surface_entered(3);
    assert!(!s.awaits_entry(0));
    s.expect_entry();
    assert!(s.awaits_entry(0) && s.awaits_entry(199));
    assert!(!s.awaits_entry(200));
    s.surface_entered(3);
    assert!(!s.awaits_entry(199));
}

#[test]
fn seat_brings_virtual_pointer_and_keyboard() {
    let mut s = WaylandState::new();
    assert_eq!(s.take_seat(true), SeatRequests { keyboard: true, pointer: false });
    assert!(s.vptr && s.keyboard && !s.pointer);
    assert_eq!(s.take_seat(true), SeatRequests { keyboard: false, pointer: false });
    let mut none = WaylandState::new();
    assert_eq!(none.take_seat(false), SeatRequests { keyboard: false, pointer: false });
    assert!(!none.vptr && !none.keyboard);
}

#[test]
fn seat_devices_are_asked_for_once() {
    let mut s = WaylandState::new();
    assert_eq!(
        s.seat_capabilities(true, false),
        SeatRequests { keyboard: true, pointer: false }
    );
    assert_eq!(
        s.seat_capabilities(true, true),
        SeatRequests { keyboard: false, pointer: true }
    );
    assert_eq!(
        s.seat_capabilities(true, true),
        SeatRequests { keyboard: false, pointer: false }
    );
    s.seat_capabilities(false, false);
    assert!(s.keyboard && s.pointer);
}

#[test]
fn pointer_events_are_remembered() {
    let mut s = WaylandState::new();
    s.pointer_event(PointerEvent::Enter { surface: 3, x: UNIT, y: 2 * UNIT });
    assert_eq!(s.pointer_focus_surface, Some(3));
    assert_eq!(s.pointer_surface_pos_source, Some(PointerPosSource::Enter));
    s.pointer_event(PointerEvent::Motion { x: 5 * UNIT, y: 0 });
    assert_eq!(s.pointer_surface_pos, Some((5 * UNIT, 0)));
    assert_eq!(s.pointer_surface_pos_source, Some(PointerPosSource::Motion));
}

#[test]
fn configured_surfaces_are_noted() {
    let mut s = WaylandState::new();
    assert!(!s.layer_surface_configured);
    s.layer_surface_configure();
    assert!(s.layer_surface_configured);
    s.expect_configure();
    assert!(!s.layer_surface_configured);
}

#[test]
fn first_missing_global_is_named() {
    assert_eq!(missing_global(true, true, true, true), None);
    assert_eq!(missing_global(false, false, true, true), Some("wl_compositor not available"));
    assert_eq!(missing_global(true, false, false, true), Some("wl_shm not available"));
    assert_eq!(
        missing_global(true, true, false, false),
        Some("zwlr_layer_shell_v1 not available – is this a wlroots compositor?")
    );
    assert_eq!(
        missing_global(true, true, true, false),
        Some("zwlr_virtual_pointer_manager_v1 not available")
    );
}

#[test]
fn key_events_carry_symbol_and_text() {
    assert_eq!(xkb_keycode(30), 38);
    let e = key_event(30, Some(KeyState::Pressed), Some(0x61), Some("a".to_string()));
    match e {
        Some(e) => {
            assert_eq!((e.key, e.sym, e.state), (30, 0x61, KeyState::Pressed));
            assert_eq!(e.utf8.as_deref(), Some("a"));
            let c: KeyEvent = e.clone();
            assert_eq!((c.key, c.sym, c.state, c.utf8), (e.key, e.sym, e.state, e.utf8));
        }
        None => panic!("no event"),
    }
    let bare = key_event(1, Some(KeyState::Released), None, Some(String::new()));
    assert!(matches!(bare, Some(KeyEvent { key: 1, sym: 0, state: KeyState::Released, utf8: None })));
    assert!(key_event(1, None, Some(5), None).is_none());
}

#[test]
fn buffers_hold_four_bytes_a_pixel() {
    assert_eq!(shm_layout(1920, 1080), (7680, 8294400));
    assert_eq!(shm_layout(1, 1), (4, 4));
    assert_eq!(shm_layout(0, 5), (0, 0));
}

#[test]
fn cloned_monitors_are_alike() {
    let mut s = two_outputs();
    s.collect_monitors();
    let m = s.monitors[0].clone();
    assert_eq!(
        (m.name.as_str(), m.x, m.y, m.width, m.height, m.scale, m.transform, m.output),
        ("DP-1", 0, 0, 1080, 1920, 2, Transform::_90, 4)
    );
}
