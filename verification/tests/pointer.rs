use warpd_rs::fixed::{Coord, UNIT};
use warpd_rs::pointer::{
    bounding_box, click_button, is_layout_fitting, pointer_position_on_surface, resolve_initial_pointer_position,
    surface_pointer_pos, warp_pointer, Bounds, ButtonState, PointerRequest, READING_LIMIT,
};
use warpd_rs::wayland::{Monitor, PointerEvent, PointerPosSource, Transform, WaylandState};

fn units(v: f64) -> Coord {
    (v * 4503599627370496.0) as i128
}

fn screen(x: i32, y: i32, width: i32, height: i32) -> Monitor {
    Monitor {
        name: "screen".to_string(),
        x,
        y,
        width,
        height,
        scale: 1,
        transform: Transform::Normal,
        output: 0,
    }
}

fn resolve(v: [f64; 6], allow_global_map: bool) -> Option<(&'static str, Coord, Coord)> {
    resolve_initial_pointer_position(
        units(v[0]),
        units(v[1]),
        units(v[2]),
        units(v[3]),
        units(v[4]),
        units(v[5]),
        allow_global_map,
    )
}

#[test]
fn resolves_surface_local_pointer_coords() {
    assert_eq!(
        resolve([831.11328125, 558.5, 1920.0, -1080.0, 2560.0, 1080.0], true),
        Some(("surface-local", units(831.11328125), units(558.5)))
    );
}

#[test]
fn resolves_global_pointer_coords() {
    assert_eq!(
        resolve([2752.0, -522.0, 1920.0, -1080.0, 2560.0, 1080.0], true),
        Some(("global-logical", units(832.0), units(558.0)))
    );
}

#[test]
fn resolves_hyprland_enter_pointer_coords() {
    assert_eq!(
        resolve([-1088.0, 1638.5, 1920.0, -1080.0, 2560.0, 1080.0], false),
        Some(("offset-adjusted-enter", units(832.0), units(558.5)))
    );
}

#[test]
fn global_reading_needs_permission() {
    let v = [2752.0, -522.0, 1920.0, -1080.0, 2560.0, 1080.0];
    assert_eq!(resolve(v, false), None);
}

#[test]
fn readings_are_rounded() {
    let last = f64::EPSILON;
    assert_eq!(
        resolve([-1920.0 + 1919.0 * last, 3.0, -1920.0, 0.0, 100.0, 100.0], true),
        Some(("global-logical", units((-1920.0 + 1919.0 * last) + 1920.0), units(3.0)))
    );
    assert_eq!(
        resolve([-last, 3.0, -50.0, 0.0, 100.0, 100.0], true),
        Some(("global-logical", units(50.0), units(3.0)))
    );
}

#[test]
fn positions_off_the_monitor_resolve_to_nothing() {
    assert_eq!(resolve([-5.0, 3.0, 0.0, 0.0, 100.0, 100.0], true), None);
    assert_eq!(resolve([0.0, 0.0, 0.0, 0.0, 0.5, 100.0], true), None);
    assert_eq!(resolve([0.0, 0.0, 0.0, 0.0, 100.0, 0.0], true), None);
}

#[test]
fn last_pixel_counts_up_to_its_near_edge() {
    assert_eq!(
        resolve([99.0, 49.0, 0.0, 0.0, 100.0, 50.0], true),
        Some(("surface-local", units(99.0), units(49.0)))
    );
    assert_eq!(resolve([99.25, 49.0, 0.0, 0.0, 100.0, 50.0], true), None);
}

#[test]
fn extreme_positions_resolve_without_overflow() {
    let far = READING_LIMIT;
    let at = |x, y, mx, my| resolve_initial_pointer_position(x, y, mx, my, UNIT, UNIT, true);
    assert_eq!(at(far, -far, -far, far), Some(("offset-adjusted-enter", 0, 0)));
    assert_eq!(at(far, -far, far, -far), Some(("global-logical", 0, 0)));
    assert_eq!(at(far, far, -far, 0), None);
}

#[test]
fn pointer_position_belongs_to_the_focused_surface() {
    let mut state = WaylandState::new();
    assert_eq!(surface_pointer_pos(&state, 7), None);
    assert_eq!(pointer_position_on_surface(&state, 7), None);

    state.pointer_event(PointerEvent::Enter { surface: 7, x: units(3.5), y: units(4.0) });
    assert_eq!(
        surface_pointer_pos(&state, 7),
        Some((units(3.5), units(4.0), PointerPosSource::Enter))
    );
    assert_eq!(pointer_position_on_surface(&state, 7), Some((units(3.5), units(4.0))));
    assert_eq!(surface_pointer_pos(&state, 8), None);
    assert_eq!(pointer_position_on_surface(&state, 8), None);

    state.pointer_event(PointerEvent::Motion { x: units(5.0), y: units(6.0) });
    assert_eq!(
        surface_pointer_pos(&state, 7),
        Some((units(5.0), units(6.0), PointerPosSource::Motion))
    );

    state.pointer_event(PointerEvent::Leave { surface: 8 });
    state.pointer_event(PointerEvent::Other);
    assert_eq!(
        surface_pointer_pos(&state, 7),
        Some((units(5.0), units(6.0), PointerPosSource::Motion))
    );
    assert_eq!(pointer_position_on_surface(&state, 7), Some((units(5.0), units(6.0))));

    state.pointer_event(PointerEvent::Leave { surface: 7 });
    assert_eq!(surface_pointer_pos(&state, 7), None);
    assert_eq!(pointer_position_on_surface(&state, 7), None);
}

#[test]
fn box_holds_all_monitors() {
    let monitors = vec![screen(0, 0, 1920, 1080), screen(1920, -1080, 2560, 1080)];
    assert_eq!(
        bounding_box(&monitors),
        Bounds { left: 0, top: -1080, right: 4480, bottom: 1080 }
    );
    assert_eq!(bounding_box(&vec![]), Bounds { left: 0, top: 0, right: 1, bottom: 1 });
    assert_eq!(
        bounding_box(&vec![screen(-300, 50, 200, 100)]),
        Bounds { left: -300, top: 50, right: -100, bottom: 150 }
    );
}

#[test]
fn layouts_beyond_measure_are_known() {
    assert!(is_layout_fitting(&vec![]));
    assert!(is_layout_fitting(&vec![screen(i32::MAX - 10, 0, 10, 10)]));
    assert!(!is_layout_fitting(&vec![screen(i32::MAX - 10, 0, 11, 10)]));
    assert!(!is_layout_fitting(&vec![screen(0, i32::MAX, 10, 1)]));
    let far = vec![screen(i32::MIN, 0, 10, 10), screen(i32::MAX - 10, 0, 10, 10)];
    assert!(!is_layout_fitting(&far));
}

#[test]
fn warp_counts_pixels_from_the_corner_of_the_box() {
    let monitors = vec![screen(0, 0, 1920, 1080), screen(1920, -1080, 2560, 1080)];
    assert_eq!(
        warp_pointer(&monitors, true, units(2000.75), units(-80.25), 17),
        vec![
            PointerRequest::MotionAbsolute {
                time: 17,
                x: 2000,
                y: 999,
                x_extent: 4480,
                y_extent: 2160
            },
            PointerRequest::Frame,
        ]
    );
}

#[test]
fn warp_distance_is_rounded() {
    // So close below a pixel that the distance from far away rounds up to it.
    let monitors = vec![screen(-1048576, 0, 1048577, 10)];
    let just_below = 1.0 - 1.0 / 9007199254740992.0;
    let expected = (just_below + 1048576.0) as u32;
    assert_eq!(expected, 1048577);
    match warp_pointer(&monitors, true, units(just_below), units(5.0), 0)[0] {
        PointerRequest::MotionAbsolute { x, y, .. } => assert_eq!((x, y), (expected, 5)),
        _ => unreachable!(),
    }
}

#[test]
fn warp_outside_the_box_is_held_at_its_corner() {
    let monitors = vec![screen(10, 20, 100, 100)];
    assert_eq!(
        warp_pointer(&monitors, true, units(-5.0), i128::MAX, 0),
        vec![
            PointerRequest::MotionAbsolute {
                time: 0,
                x: 0,
                y: u32::MAX,
                x_extent: 100,
                y_extent: 100
            },
            PointerRequest::Frame,
        ]
    );
}

#[test]
fn nothing_happens_without_a_virtual_pointer() {
    let monitors = vec![screen(0, 0, 100, 100)];
    assert_eq!(warp_pointer(&monitors, false, 0, 0, 5), vec![]);
    assert_eq!(click_button(false, 1, 5), vec![]);
    let beyond = vec![screen(i32::MAX, 0, 10, 10)];
    assert_eq!(warp_pointer(&beyond, false, 0, 0, 5), vec![]);
    assert_eq!(click_button(false, 1, u32::MAX), vec![]);
    assert_eq!(click_button(true, 9, u32::MAX), vec![]);
}

#[test]
fn clicks_press_and_release_the_button() {
    for (button, code) in [(1, 0x110), (2, 0x112), (3, 0x111)] {
        assert_eq!(
            click_button(true, button, 40),
            vec![
                PointerRequest::Button { time: 40, button: code, state: ButtonState::Pressed },
                PointerRequest::Frame,
                PointerRequest::Button { time: 41, button: code, state: ButtonState::Released },
                PointerRequest::Frame,
            ]
        );
    }
    assert_eq!(click_button(true, 0, 40), vec![]);
    assert_eq!(click_button(true, 4, 40), vec![]);
}
