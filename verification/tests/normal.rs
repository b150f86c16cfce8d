use warpd_rs::config::Config;
use warpd_rs::fixed::{Coord, UNIT};
use warpd_rs::input::keysyms;
use warpd_rs::modes::{Effect, Next};
use warpd_rs::normal::{
    awaits_motion, find_pointer_monitor, needs_retarget, speed_multiplier, transformed_position, HeldKeyRole,
    NormalKeys, NormalState,
};
use warpd_rs::number::{whole, Double};
use warpd_rs::wayland::{KeyEvent, KeyState, Monitor, PointerPosSource, Transform};

fn on_output(output: u32, x: i32, y: i32, width: i32, height: i32) -> Monitor {
    Monitor {
        name: format!("output {output}"),
        x,
        y,
        width,
        height,
        scale: 1,
        transform: Transform::Normal,
        output,
    }
}

fn default_keys() -> NormalKeys {
    NormalKeys::new(&Config::default(), &|_: &str| 0)
}

fn event(key: u32, sym: u32, state: KeyState) -> KeyEvent {
    KeyEvent { key, sym, state, utf8: None }
}

fn hold(s: &mut NormalState, monitor: &Monitor, key: u32, sym: u32) {
    let step = s.key(&default_keys(), monitor, &event(key, sym, KeyState::Pressed));
    assert!(step.effects.is_empty());
    assert_eq!(step.next, Next::Stay);
}

fn px(v: i128) -> Coord {
    v * UNIT
}

/// A finite double as the library holds it.
fn number(v: f64) -> Double {
    let bits = v.to_bits();
    let (exponent, fraction) = ((bits >> 52) as u32 & 0x7ff, (bits & ((1 << 52) - 1)) as i128);
    let (m, shift) =
        if exponent == 0 { (fraction, 0) } else { (fraction + (1 << 52), exponent - 1) };
    Double { bits: if v < 0.0 { -m } else { m }, shift }
}

/// The double that the library holds.
fn value(d: Double) -> f64 {
    let e = d.shift as i32 - 1074;
    let power = if e < -1022 { 1 << d.shift } else { ((e + 1023) as u64) << 52 };
    d.bits as f64 * f64::from_bits(power)
}

fn cursor(s: &NormalState) -> (f64, f64) {
    (value(s.cx), value(s.cy))
}

/// A double of one or more as a coordinate, which holds it exactly.
fn at(v: f64) -> Coord {
    (v * UNIT as f64) as Coord
}

#[test]
fn keys_have_roles() {
    let keys = default_keys();
    assert_eq!(keys.role(keysyms::H), Some(HeldKeyRole::MoveLeft));
    assert_eq!(keys.role(keysyms::J), Some(HeldKeyRole::MoveDown));
    assert_eq!(keys.role(keysyms::K), Some(HeldKeyRole::MoveUp));
    assert_eq!(keys.role(keysyms::L), Some(HeldKeyRole::MoveRight));
    assert_eq!(keys.role(keysyms::SHIFT_L), Some(HeldKeyRole::SpeedModifier));
    assert_eq!(keys.role(keysyms::SHIFT_R), Some(HeldKeyRole::SpeedModifier));
    assert_eq!(keys.role(keysyms::M), None);
    assert_eq!(keys.buttons, [keysyms::M, keysyms::COMMA, keysyms::PERIOD]);
}

#[test]
fn configured_keys_are_folded_to_lower_case() {
    let mut config = Config::default();
    config.normal_move_keys =
        ["Left".to_string(), "S".to_string(), "".to_string(), "none".to_string()];
    config.speed_modifier_key = "Control_L".to_string();
    let keys = NormalKeys::new(&config, &|name: &str| match name {
        "Left" => 0xff51,
        "Control_L" => 0xffe3,
        _ => 0,
    });
    assert_eq!(keys.moves, [0xff51, 0x73, keysyms::K, keysyms::L]);
    assert_eq!(keys.modifiers, vec![0xffe3]);
}

#[test]
fn multiplier_has_to_be_positive() {
    for v in [5.0, 0.1, f64::from_bits(1), 1e300] {
        assert_eq!(value(speed_multiplier(number(v))), v);
    }
    for v in [0.0, -0.1, -5.0] {
        assert_eq!(value(speed_multiplier(number(v))), 2.0);
    }
}

#[test]
fn cursor_starts_in_the_middle() {
    let s = NormalState::new(&on_output(1, 50, 60, 801, 600));
    assert_eq!(cursor(&s), (400.5, 300.0));
    assert_eq!(s.last_sample, None);
    assert!(s.held.is_empty());
}

#[test]
fn pointer_monitor_is_found_by_motion() {
    let focused = on_output(1, 0, 0, 1920, 1080);
    let monitors = vec![on_output(1, 0, 0, 1920, 1080), on_output(2, 1920, -1080, 2560, 1080)];
    let at = |x: i128, y: i128, source| find_pointer_monitor(&focused, &monitors, (px(x), px(y), source));
    assert_eq!(at(5, 5, PointerPosSource::Motion), Some(0));
    assert_eq!(at(2000, -80, PointerPosSource::Motion), Some(1));
    assert_eq!(at(-1, 5, PointerPosSource::Motion), Some(0));
    assert_eq!(at(-2, 5, PointerPosSource::Motion), None);
    assert_eq!(at(1920, 0, PointerPosSource::Motion), Some(0));
    assert_eq!(at(1921, 0, PointerPosSource::Motion), Some(1));
    assert_eq!(at(5, 5, PointerPosSource::Enter), None);
    let beyond = vec![on_output(1, 0, 0, 1920, 1080), on_output(3, i32::MAX, 0, 10, 10)];
    let on_first = (px(5), px(5), PointerPosSource::Motion);
    assert_eq!(find_pointer_monitor(&focused, &beyond, on_first), Some(0));
    let entered = (px(5), px(5), PointerPosSource::Enter);
    assert_eq!(find_pointer_monitor(&focused, &beyond, entered), None);
    assert!(needs_retarget(&focused, &monitors[1]));
    assert!(!needs_retarget(&focused, &monitors[0]));
}

#[test]
fn motion_is_awaited_for_a_while() {
    let entered = Some((0, 0, PointerPosSource::Enter));
    assert!(awaits_motion(None, 0) && awaits_motion(entered, 24));
    assert!(!awaits_motion(None, 25) && !awaits_motion(entered, 25));
    assert!(!awaits_motion(Some((0, 0, PointerPosSource::Motion)), 0));
}

#[test]
fn cursor_on_a_single_pixel_stays_there() {
    let m = on_output(1, 0, 0, 1, 1);
    let mut s = NormalState::new(&m);
    assert_eq!(cursor(&s), (0.5, 0.5));
    hold(&mut s, &m, 38, keysyms::L);
    assert!(s.frame(&m, 220, 10_000_000, whole(1)));
    assert_eq!(cursor(&s), (0.0, 0.5));
}

#[test]
fn cursor_goes_where_the_pointer_is() {
    let focused = on_output(1, 0, 0, 1920, 1080);
    let mut s = NormalState::new(&focused);
    let sample = (px(100), px(200), PointerPosSource::Motion);
    assert_eq!(s.place(&focused, Some(&focused), sample), Some("surface-local"));
    assert_eq!(cursor(&s), (100.0, 200.0));
    assert_eq!(s.last_sample, Some((px(100), px(200))));
}

#[test]
fn cursor_moves_to_the_other_monitor() {
    let focused = on_output(1, 0, 0, 1920, 1080);
    let other = on_output(2, 1920, -1080, 2560, 1080);
    let mut s = NormalState::new(&focused);
    let sample = (px(2000), px(-80), PointerPosSource::Motion);
    assert_eq!(s.place(&focused, Some(&other), sample), Some("surface-local"));
    assert_eq!(cursor(&s), (80.0, 1000.0));
}

#[test]
fn pointer_arrival_is_read_with_the_offset() {
    let focused = on_output(2, 1920, -1080, 2560, 1080);
    let mut s = NormalState::new(&focused);
    let sample = (px(-1088), px(1638), PointerPosSource::Enter);
    assert_eq!(s.place(&focused, None, sample), Some("offset-adjusted-enter"));
    assert_eq!(cursor(&s), (832.0, 558.0));
    assert_eq!(s.last_sample, None);
}

#[test]
fn unusable_pointer_position_keeps_the_cursor() {
    let focused = on_output(1, 0, 0, 1000, 500);
    let small = on_output(2, 5000, 0, 300, 200);
    let mut s = NormalState::new(&focused);
    let sample = (px(-50), px(-50), PointerPosSource::Motion);
    assert_eq!(s.place(&focused, None, sample), None);
    assert_eq!(cursor(&s), (500.0, 250.0));
    assert_eq!(s.place(&focused, Some(&small), sample), None);
    assert_eq!(cursor(&s), (299.0, 199.0));
}

#[test]
fn positions_turn_with_the_output() {
    let at = |t| {
        let (name, x, y) = transformed_position(t, whole(10), whole(20), whole(99), whole(49));
        (name, value(x), value(y))
    };
    assert_eq!(at(Transform::Normal), ("Normal", 10.0, 20.0));
    assert_eq!(at(Transform::_90), ("_90", 20.0, 89.0));
    assert_eq!(at(Transform::_180), ("_180", 89.0, 29.0));
    assert_eq!(at(Transform::_270), ("_270", 29.0, 10.0));
    assert_eq!(at(Transform::Flipped), ("Flipped", 89.0, 20.0));
    assert_eq!(at(Transform::Flipped90), ("Flipped90", 29.0, 89.0));
    assert_eq!(at(Transform::Flipped180), ("Flipped180", 10.0, 29.0));
    assert_eq!(at(Transform::Flipped270), ("Flipped270", 20.0, 10.0));
}

#[test]
fn held_keys_move_the_cursor() {
    let m = on_output(1, 0, 0, 1000, 1000);
    let mut s = NormalState::new(&m);
    hold(&mut s, &m, 35, keysyms::H);
    assert!(s.steering());
    assert!(s.frame(&m, 220, 10_000_000, whole(5)));
    let left = 500.0 - 220.0 / 60.0 * 0.01 * 60.0;
    assert_eq!(cursor(&s), (left, 500.0));
    hold(&mut s, &m, 36, keysyms::J);
    assert!(s.frame(&m, 100, 10_000_000, whole(5)));
    let length = 100.0 / 60.0 * 0.01 * 60.0;
    assert_eq!(cursor(&s), (left - length, 500.0 + length));
}

#[test]
fn frames_agree_with_double_precision() {
    let mut seed = 7u64;
    let mut next = move |below: u64| {
        seed = seed.wrapping_mul(6364136223846793005).wrapping_add(1442695040888963407);
        (seed >> 33) % below
    };
    for round in 0..300 {
        let m = on_output(1, next(4000) as i32 - 2000, 0, 3840, 2160);
        let boosted = round % 3 == 0;
        let multiplier = 0.001 + next(1000) as f64 / 300.0;
        let right = round % 2 == 0;
        let mut s = NormalState::new(&m);
        hold(&mut s, &m, 1, if right { keysyms::L } else { keysyms::H });
        if boosted {
            hold(&mut s, &m, 2, keysyms::SHIFT_L);
        }
        let mut cx = 1920.0;
        for _ in 0..100 {
            let speed = 1 + next(2000) as u32;
            let nanos = next(60_000_000);
            let dt = (nanos as f64 / 1e9).min(1.0 / 20.0);
            let mut length = speed as f64 / 60.0 * dt * 60.0;
            if boosted {
                length *= multiplier;
            }
            cx = if right { (cx + length).min(3839.0) } else { f64::max(cx - length, 0.0) };
            assert!(s.frame(&m, speed, nanos, number(multiplier)));
            assert_eq!(value(s.cx), cx, "{speed} {nanos} {multiplier}");
            let step = s.key(&default_keys(), &m, &event(9, keysyms::M, KeyState::Pressed));
            let x = m.x as f64 + cx;
            assert!(
                x.abs() < 1.0
                    || step.effects[0] == Effect::Warp { x: at(x), y: px(m.y as i128 + 1080) }
            );
        }
    }
}

#[test]
fn whole_pixels_may_be_missed_by_rounding() {
    let m = on_output(1, 0, 0, 1000, 1000);
    for (speed, millis, length) in
        [(600, 45, 26.999999999999996), (750, 44, 32.99999999999999), (600, 50, 30.0)]
    {
        let mut s = NormalState::new(&m);
        s.cx = whole(0);
        hold(&mut s, &m, 1, keysyms::L);
        s.frame(&m, speed, millis * 1_000_000, whole(1));
        assert_eq!(value(s.cx), length);
        let step = s.key(&default_keys(), &m, &event(9, keysyms::M, KeyState::Pressed));
        assert_eq!(step.effects[0], Effect::Warp { x: at(length), y: px(500) });
    }
}

#[test]
fn long_frames_count_for_a_twentieth_of_a_second() {
    let m = on_output(1, 0, 0, 1000, 1000);
    let mut s = NormalState::new(&m);
    hold(&mut s, &m, 38, keysyms::L);
    assert!(s.frame(&m, 220, u64::MAX, whole(5)));
    assert_eq!(value(s.cx), 500.0 + 220.0 / 60.0 * 0.05 * 60.0);
}

#[test]
fn speed_modifier_makes_the_cursor_faster() {
    let m = on_output(1, 0, 0, 1000, 1000);
    let mut s = NormalState::new(&m);
    hold(&mut s, &m, 42, keysyms::SHIFT_L);
    assert!(!s.steering());
    assert!(!s.frame(&m, 220, 10_000_000, whole(5)));
    hold(&mut s, &m, 37, 0x4b);
    assert!(s.holds(HeldKeyRole::SpeedModifier) && s.holds(HeldKeyRole::MoveUp));
    assert!(s.frame(&m, 200, 10_000_000, whole(5)));
    assert_eq!(cursor(&s), (500.0, 490.0));
}

#[test]
fn cursor_stops_at_the_edges() {
    let m = on_output(1, 0, 0, 100, 100);
    for (sym, x, y) in [
        (keysyms::H, 0.0, 50.0),
        (keysyms::L, 99.0, 50.0),
        (keysyms::K, 50.0, 0.0),
        (keysyms::J, 50.0, 99.0),
    ] {
        let mut s = NormalState::new(&m);
        hold(&mut s, &m, 1, sym);
        assert!(s.frame(&m, u32::MAX, u64::MAX, number(f64::MAX)));
        assert_eq!(cursor(&s), (x, y));
        assert!(s.frame(&m, 220, 10_000_000, whole(1)));
        assert_eq!(cursor(&s), (x, y));
    }
}

#[test]
fn huge_multiplier_goes_to_the_edge() {
    let m = on_output(1, 0, 0, 100, 100);
    let mut s = NormalState::new(&m);
    hold(&mut s, &m, 42, keysyms::SHIFT_R);
    hold(&mut s, &m, 38, keysyms::L);
    assert!(s.frame(&m, u32::MAX, u64::MAX, number(f64::MAX)));
    assert_eq!(value(s.cx), 99.0);
}

#[test]
fn release_ends_what_the_press_began() {
    let m = on_output(1, 0, 0, 100, 100);
    let keys = default_keys();
    let mut s = NormalState::new(&m);
    hold(&mut s, &m, 35, keysyms::H);
    s.key(&keys, &m, &event(35, keysyms::H, KeyState::Repeated));
    assert!(s.holds(HeldKeyRole::MoveLeft));
    s.key(&keys, &m, &event(36, keysyms::H, KeyState::Released));
    assert!(s.holds(HeldKeyRole::MoveLeft));
    s.key(&keys, &m, &event(35, 0, KeyState::Released));
    assert!(!s.holds(HeldKeyRole::MoveLeft));
    assert!(!s.frame(&m, 220, 10_000_000, whole(1)));
}

#[test]
fn held_key_keeps_its_role() {
    let m = on_output(1, 0, 0, 100, 100);
    let mut s = NormalState::new(&m);
    hold(&mut s, &m, 35, keysyms::H);
    hold(&mut s, &m, 35, keysyms::L);
    assert!(s.holds(HeldKeyRole::MoveLeft) && !s.holds(HeldKeyRole::MoveRight));
    s.key(&default_keys(), &m, &event(50, 0x7a, KeyState::Pressed));
    assert_eq!(s.held.len(), 1);
}

#[test]
fn cursor_follows_the_pointer() {
    let m = on_output(1, 0, 0, 100, 100);
    let mut s = NormalState::new(&m);
    let motion = |x, y| Some((x, y, PointerPosSource::Motion));
    assert!(s.follow_pointer(&m, motion(px(10), px(20))));
    assert_eq!(cursor(&s), (10.0, 20.0));
    assert!(!s.follow_pointer(&m, motion(px(10), px(20))));
    assert!(!s.follow_pointer(&m, motion(px(10) + UNIT / 128, px(20))));
    assert!(s.follow_pointer(&m, motion(px(10) + UNIT / 64, px(20))));
    assert_eq!(value(s.cx), 10.015625);
    assert!(!s.follow_pointer(&m, motion(px(100), px(20))));
    assert_eq!(value(s.cx), 10.015625);
    assert_eq!(s.last_sample, Some((px(100), px(20))));
    assert!(!s.follow_pointer(&m, Some((px(1), px(1), PointerPosSource::Enter))));
    assert!(!s.follow_pointer(&m, None));
}

#[test]
fn direction_keys_go_before_the_pointer() {
    let m = on_output(1, 0, 0, 100, 100);
    let mut s = NormalState::new(&m);
    hold(&mut s, &m, 35, keysyms::H);
    assert!(!s.follow_pointer(&m, Some((px(10), px(20), PointerPosSource::Motion))));
    assert_eq!((cursor(&s), s.last_sample), ((50.0, 50.0), None));
}

#[test]
fn button_keys_click_at_the_cursor() {
    let m = on_output(1, 1000, -200, 100, 100);
    let keys = default_keys();
    let mut s = NormalState::new(&m);
    let warp = Effect::Warp { x: px(1050), y: px(-150) };
    let before = |button| {
        vec![
            warp,
            Effect::Flush,
            Effect::Roundtrip,
            Effect::DestroyOverlay,
            Effect::Click { button },
            Effect::Flush,
        ]
    };
    let left = s.key(&keys, &m, &event(50, 0x4d, KeyState::Pressed));
    assert_eq!(left.effects, before(1));
    let middle = s.key(&keys, &m, &event(51, keysyms::COMMA, KeyState::Pressed));
    assert_eq!(
        middle.effects,
        vec![
            warp,
            Effect::Click { button: 2 },
            Effect::Flush,
            Effect::Roundtrip,
            Effect::DestroyOverlay,
            Effect::Flush,
        ]
    );
    let right = s.key(&keys, &m, &event(52, keysyms::PERIOD, KeyState::Pressed));
    assert_eq!(right.effects, before(3));
    assert_eq!((left.next, middle.next, right.next), (Next::Leave, Next::Leave, Next::Leave));
}

#[test]
fn mode_keys_switch_modes() {
    let m = on_output(1, 0, 0, 100, 100);
    let keys = default_keys();
    let mut s = NormalState::new(&m);
    for (sym, next) in [
        (keysyms::ESCAPE, Next::Leave),
        (keysyms::X, Next::HintMode),
        (keysyms::G, Next::GridMode),
        (0x47, Next::GridMode),
    ] {
        let step = s.key(&keys, &m, &event(9, sym, KeyState::Pressed));
        assert_eq!(step.effects, vec![Effect::DestroyOverlay, Effect::Flush]);
        assert_eq!(step.next, next);
        let up = s.key(&keys, &m, &event(9, sym, KeyState::Released));
        assert!(up.effects.is_empty());
        assert_eq!(up.next, Next::Stay);
    }
}
