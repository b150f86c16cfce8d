use warpd_rs::areas::TargetArea;
use warpd_rs::config::Config;
use warpd_rs::fixed::UNIT;
use warpd_rs::grid::GridSelection;
use warpd_rs::hint::Hint;
use warpd_rs::input::keysyms;
use warpd_rs::modes::{
    choose_hints, grid_mode_key, hint_mode_key, hint_source, Effect, HintSource, Next, Step,
};
use warpd_rs::number::{ratio, whole, Double};
use warpd_rs::wayland::{KeyEvent, KeyState, Monitor, Transform};

const QUADRANT_KEYS: [u32; 4] = [keysyms::U, keysyms::I, keysyms::J, keysyms::K];

/// The double that the library holds.
fn value(d: Double) -> f64 {
    let e = d.shift as i32 - 1074;
    let power = if e < -1022 { 1 << d.shift } else { ((e + 1023) as u64) << 52 };
    d.bits as f64 * f64::from_bits(power)
}

fn shifted_screen() -> Monitor {
    Monitor {
        name: "DP-3".to_string(),
        x: 1000,
        y: -500,
        width: 800,
        height: 400,
        scale: 1,
        transform: Transform::Normal,
        output: 1,
    }
}

fn key_down(sym: u32) -> KeyEvent {
    KeyEvent { key: 5, sym, state: KeyState::Pressed, utf8: None }
}

fn orderly_end(step: &Step) {
    let destroyed: Vec<usize> = step
        .effects
        .iter()
        .enumerate()
        .filter(|(_, e)| **e == Effect::DestroyOverlay)
        .map(|(i, _)| i)
        .collect();
    assert_eq!(destroyed.len(), 1);
    assert_eq!(step.effects.last(), Some(&Effect::Flush));
    if let Some(Effect::Warp { .. }) = step.effects.first() {
        assert!(step.effects[..destroyed[0]].contains(&Effect::Roundtrip));
    }
}

#[test]
fn hint_sources_are_named_loosely() {
    assert_eq!(hint_source("grid"), HintSource::Grid);
    assert_eq!(hint_source("static"), HintSource::Grid);
    assert_eq!(hint_source(" StdIn\n"), HintSource::Stdin);
    assert_eq!(hint_source("DETECT"), HintSource::Detect);
    assert_eq!(hint_source(""), HintSource::Unknown);
    assert_eq!(hint_source("grids"), HintSource::Unknown);
}

#[test]
fn hints_fall_back_to_the_grid() {
    let monitor = shifted_screen();
    let config = Config::default();
    let grid = choose_hints(&monitor, &config, None);
    assert_eq!(grid.len(), 50);
    let off = vec![TargetArea { x: 0, y: 0, w: 10, h: 10 }];
    assert_eq!(choose_hints(&monitor, &config, Some(off)).len(), 50);
    assert_eq!(choose_hints(&monitor, &config, Some(vec![])).len(), 50);
    let on = vec![
        TargetArea { x: 0, y: 0, w: 10, h: 10 },
        TargetArea { x: 1100, y: -400, w: 60, h: 30 },
    ];
    let hints = choose_hints(&monitor, &config, Some(on));
    assert_eq!(hints.len(), 1);
    assert_eq!((hints[0].x, hints[0].y, hints[0].label.as_str()), (110, 101, "a"));
}

#[test]
fn selected_hint_is_clicked_after_the_overlay_went() {
    let hints = vec![Hint { x: 10, y: 20, w: 30, h: 41, label: "a".to_string() }];
    let mut typed = String::new();
    let step = hint_mode_key(&shifted_screen(), &key_down(0x61), &hints, &mut typed);
    assert_eq!(
        step.effects,
        vec![
            Effect::Warp { x: 1025 * UNIT, y: -460 * UNIT + UNIT / 2 },
            Effect::Flush,
            Effect::Roundtrip,
            Effect::DestroyOverlay,
            Effect::Click { button: 1 },
            Effect::Flush,
        ]
    );
    assert_eq!(step.next, Next::Leave);
    orderly_end(&step);
}

#[test]
fn cancelled_hint_mode_takes_the_overlay_away() {
    let mut typed = String::new();
    let step = hint_mode_key(&shifted_screen(), &key_down(keysyms::ESCAPE), &vec![], &mut typed);
    assert_eq!(step.effects, vec![Effect::DestroyOverlay, Effect::Flush]);
    assert_eq!(step.next, Next::Leave);
    orderly_end(&step);
}

#[test]
fn other_keys_redraw_the_hints() {
    let mut typed = String::new();
    let step = hint_mode_key(&shifted_screen(), &key_down(0x61), &vec![], &mut typed);
    assert_eq!(step.effects, vec![Effect::Redraw, Effect::Flush]);
    assert_eq!(step.next, Next::Stay);
}

#[test]
fn quadrant_keys_narrow_until_small() {
    let monitor = shifted_screen();
    let mut sel = GridSelection::new(&monitor);
    let min = whole(270);
    let step = grid_mode_key(&monitor, min, &QUADRANT_KEYS, keysyms::M, &key_down(keysyms::K), &mut sel);
    assert_eq!(step.effects, vec![Effect::Redraw, Effect::Flush]);
    assert_eq!(step.next, Next::Stay);
    assert_eq!((value(sel.x), value(sel.y)), (400.0, 200.0));
    assert_eq!((value(sel.w), value(sel.h)), (400.0, 200.0));
    let step = grid_mode_key(&monitor, min, &QUADRANT_KEYS, keysyms::M, &key_down(keysyms::U), &mut sel);
    assert_eq!(
        step.effects,
        vec![
            Effect::Warp { x: 1500 * UNIT, y: -250 * UNIT },
            Effect::Flush,
            Effect::Roundtrip,
            Effect::DestroyOverlay,
            Effect::Click { button: 1 },
            Effect::Flush,
        ]
    );
    assert_eq!(step.next, Next::Leave);
    orderly_end(&step);
}

#[test]
fn select_key_clicks_the_middle() {
    let monitor = shifted_screen();
    let mut sel = GridSelection::new(&monitor);
    let step = grid_mode_key(&monitor, whole(1), &QUADRANT_KEYS, keysyms::M, &key_down(keysyms::M), &mut sel);
    assert_eq!(
        step.effects,
        vec![
            Effect::Warp { x: 1400 * UNIT, y: -300 * UNIT },
            Effect::Click { button: 1 },
            Effect::Flush,
            Effect::Roundtrip,
            Effect::DestroyOverlay,
            Effect::Flush,
        ]
    );
    assert_eq!(step.next, Next::Leave);
    orderly_end(&step);
}

#[test]
fn escape_leaves_grid_mode() {
    let monitor = shifted_screen();
    let mut sel = GridSelection::new(&monitor);
    let step =
        grid_mode_key(&monitor, whole(1), &QUADRANT_KEYS, keysyms::M, &key_down(keysyms::ESCAPE), &mut sel);
    assert_eq!(step.effects, vec![Effect::DestroyOverlay, Effect::Flush]);
    assert_eq!(step.next, Next::Leave);
}

#[test]
fn grid_mode_ignores_other_keys_and_releases() {
    let monitor = shifted_screen();
    let before = GridSelection::new(&monitor);
    let mut sel = before;
    let up = KeyEvent { key: 5, sym: keysyms::ESCAPE, state: KeyState::Released, utf8: None };
    for event in [key_down(0x7a), up] {
        let step = grid_mode_key(&monitor, whole(1), &QUADRANT_KEYS, keysyms::M, &event, &mut sel);
        assert!(step.effects.is_empty());
        assert_eq!(step.next, Next::Stay);
        assert_eq!((sel.x, sel.y, sel.w, sel.h), (before.x, before.y, before.w, before.h));
    }
}

#[test]
fn tiny_cells_are_reached_in_the_end() {
    let min = ratio(1, 1_000_000_000);
    let mut monitor = shifted_screen();
    monitor.width = 1920;
    monitor.height = 1080;
    let mut sel = GridSelection::new(&monitor);
    for _ in 0..40 {
        let step = grid_mode_key(
            &monitor,
            min,
            &QUADRANT_KEYS,
            keysyms::M,
            &key_down(keysyms::I),
            &mut sel,
        );
        assert_eq!(step.next, Next::Stay);
    }
    let step =
        grid_mode_key(&monitor, min, &QUADRANT_KEYS, keysyms::M, &key_down(keysyms::I), &mut sel);
    assert_eq!(step.next, Next::Leave);
    assert_eq!((value(sel.w), value(sel.h)), (1920.0 / 2f64.powi(41), 1080.0 / 2f64.powi(41)));
    orderly_end(&step);
}

#[test]
fn every_size_above_zero_is_reached() {
    let monitor = shifted_screen();
    let mut sel = GridSelection::new(&monitor);
    let min = Double { bits: 1, shift: 0 };
    let mut presses = 0;
    loop {
        presses += 1;
        let step =
            grid_mode_key(&monitor, min, &QUADRANT_KEYS, keysyms::M, &key_down(keysyms::U), &mut sel);
        if step.next == Next::Leave {
            break;
        }
    }
    let (mut w, mut expected) = (800.0f64, 0);
    while w > 0.0 {
        w /= 2.0;
        expected += 1;
    }
    assert_eq!(presses, expected);
}

#[test]
fn deep_clicks_agree_with_double_precision() {
    let monitor = shifted_screen();
    let mut sel = GridSelection::new(&monitor);
    let (mut x, mut w) = (0.0, 800.0);
    for _ in 0..80 {
        grid_mode_key(&monitor, whole(0), &QUADRANT_KEYS, keysyms::M, &key_down(keysyms::K), &mut sel);
        w /= 2.0;
        x += w;
        let step =
            grid_mode_key(&monitor, whole(0), &QUADRANT_KEYS, keysyms::M, &key_down(keysyms::M), &mut sel);
        let at = 1000.0 + (x + w / 2.0);
        match step.effects[0] {
            Effect::Warp { x, .. } => assert_eq!(x, (at * UNIT as f64) as i128),
            _ => unreachable!(),
        }
    }
}
