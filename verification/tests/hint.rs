use warpd_rs::areas::TargetArea;
use warpd_rs::config::Config;
use warpd_rs::fixed::UNIT;
use warpd_rs::hint::{
    draw_hints, generate_hints, generate_hints_from_areas, generate_labels, is_grid_fitting,
    keysym_to_char, process_key, Hint, HintResult,
};
use warpd_rs::input::keysyms;
use warpd_rs::number::{whole, Double};
use warpd_rs::wayland::{KeyEvent, KeyState, Monitor, Transform};

/// A finite double as the library holds it.
fn number(v: f64) -> Double {
    let bits = v.to_bits();
    let (exponent, fraction) = ((bits >> 52) as u32 & 0x7ff, (bits & ((1 << 52) - 1)) as i128);
    let (m, shift) =
        if exponent == 0 { (fraction, 0) } else { (fraction + (1 << 52), exponent - 1) };
    Double { bits: if v < 0.0 { -m } else { m }, shift }
}

fn plain_screen(width: i32, height: i32) -> Monitor {
    Monitor {
        name: "eDP-1".to_string(),
        x: 0,
        y: 0,
        width,
        height,
        scale: 1,
        transform: Transform::Normal,
        output: 1,
    }
}

fn press(sym: u32) -> KeyEvent {
    KeyEvent { key: 30, sym, state: KeyState::Pressed, utf8: None }
}

fn three_hints() -> Vec<Hint> {
    ["ab", "ac", "b"]
        .iter()
        .enumerate()
        .map(|(i, label)| Hint {
            x: 10 * i as i32,
            y: 20,
            w: 5,
            h: 8,
            label: label.to_string(),
        })
        .collect()
}

fn fields(h: &Hint) -> (i32, i32, i32, i32, &str) {
    (h.x, h.y, h.w, h.h, h.label.as_str())
}

#[test]
fn labels_are_single_characters_first() {
    assert_eq!(generate_labels("ab", 4), vec!["a", "b", "aa", "ab"]);
}

#[test]
fn labels_end_with_the_pairs() {
    assert_eq!(generate_labels("ab", 100), vec!["a", "b", "aa", "ab", "ba", "bb"]);
    assert_eq!(generate_labels("äb", 3), vec!["ä", "b", "ää"]);
    assert_eq!(generate_labels("", 3), Vec::<String>::new());
}

#[test]
fn one_label_comes_even_when_none_is_wanted() {
    assert_eq!(generate_labels("ab", 0), vec!["a"]);
}

#[test]
fn labels_of_distinct_characters_are_distinct() {
    let labels = generate_labels("abcdefghijklmnopqrstuvwxyz", 702);
    assert_eq!(labels.len(), 702);
    let mut sorted = labels.clone();
    sorted.sort();
    sorted.dedup();
    assert_eq!(sorted.len(), 702);
}

#[test]
fn grid_of_hints_covers_the_monitor() {
    let hints = generate_hints(&plain_screen(1920, 1080), &Config::default());
    assert_eq!(hints.len(), 24 * 13);
    assert_eq!(fields(&hints[0]), (20, 26, 40, 28, "a"));
    assert_eq!(fields(&hints[1]), (100, 26, 40, 28, "b"));
    assert_eq!(fields(&hints[24]), (20, 106, 40, 28, "y"));
    assert_eq!(fields(&hints[26]), (180, 106, 40, 28, "aa"));
    for h in &hints {
        assert!(0 <= h.x && h.x + h.w <= 1920 && 0 <= h.y && h.y + h.h <= 1080);
    }
}

#[test]
fn gap_is_at_least_twenty_pixels() {
    let mut config = Config::default();
    config.hint_grid_gap = 3;
    config.hint_font_size = whole(4);
    let hints = generate_hints(&plain_screen(100, 40), &config);
    assert_eq!(hints.len(), 10);
    assert_eq!(fields(&hints[6]), (25, 27, 10, 7, "g"));
}

#[test]
fn box_sizes_agree_with_double_precision() {
    let mut config = Config::default();
    let area = vec![TargetArea { x: 0, y: 0, w: 10, h: 10 }];
    for tenths in 0..3000 {
        let font = tenths as f64 / 10.0;
        config.hint_font_size = number(font);
        let hint = &generate_hints_from_areas(&config, &area)[0];
        assert_eq!((hint.w, hint.h), ((font * 2.5) as i32, (font * 1.8) as i32), "{font}");
    }
    for font in [0.0, -16.0, -13.2, 1e6, 858993459.0, 1e9, 2e9, 5e9, 1e20, -1e9, -1e20, 1e308, -1e308, 1e-310] {
        config.hint_font_size = number(font);
        let hint = &generate_hints_from_areas(&config, &area)[0];
        assert_eq!((hint.w, hint.h), ((font * 2.5) as i32, (font * 1.8) as i32), "{font}");
    }
}

#[test]
fn gap_and_place_do_not_matter_below_twenty() {
    let mut config = Config::default();
    config.hint_font_size = whole(4);
    let mut moved = plain_screen(200, 100);
    moved.x = -700;
    moved.y = 55;
    config.hint_grid_gap = 20;
    let at_twenty = generate_hints(&plain_screen(200, 100), &config);
    for gap in [0, 1, 19] {
        config.hint_grid_gap = gap;
        let hints = generate_hints(&moved, &config);
        assert_eq!(hints.len(), at_twenty.len());
        for (a, b) in hints.iter().zip(&at_twenty) {
            assert_eq!(fields(a), fields(b));
        }
    }
}

#[test]
fn only_cells_with_a_hint_have_to_fit() {
    let mut config = Config::default();
    config.hint_font_size = number(-1e20);
    config.hint_grid_gap = 0x3fff_ffff;
    config.hint_chars = String::new();
    assert!(is_grid_fitting(&plain_screen(i32::MAX, 1080), &config));
    assert!(generate_hints(&plain_screen(i32::MAX, 1080), &config).is_empty());
    config.hint_chars = "a".to_string();
    assert!(!is_grid_fitting(&plain_screen(i32::MAX, 1080), &config));
    assert!(is_grid_fitting(&plain_screen(1080, 1080), &config));
}

#[test]
fn small_monitor_has_one_hint() {
    let hints = generate_hints(&plain_screen(10, 10), &Config::default());
    assert_eq!(hints.len(), 1);
    assert_eq!(fields(&hints[0]), (20, 26, 40, 28, "a"));
}

#[test]
fn hints_stop_with_the_labels() {
    let mut config = Config::default();
    config.hint_chars = "xy".to_string();
    let hints = generate_hints(&plain_screen(1920, 1080), &config);
    assert_eq!(hints.len(), 6);
    assert_eq!(hints[5].label, "yy");
}

#[test]
fn grids_that_cannot_be_placed_are_known() {
    let mut config = Config::default();
    assert!(is_grid_fitting(&plain_screen(1920, 1080), &config));
    assert!(is_grid_fitting(&plain_screen(0, -5), &config));
    assert!(!is_grid_fitting(&plain_screen(i32::MAX, i32::MAX), &config));
    config.hint_font_size = number(-1e20);
    config.hint_grid_gap = 0x3fff_ffff;
    assert!(is_grid_fitting(&plain_screen(1920, 1080), &config));
    assert!(!is_grid_fitting(&plain_screen(i32::MAX, 1080), &config));
}

#[test]
fn hints_sit_on_the_middle_of_areas() {
    let areas = vec![
        TargetArea { x: 100, y: 200, w: 60, h: 30 },
        TargetArea { x: -3, y: 0, w: 7, h: 9 },
    ];
    let hints = generate_hints_from_areas(&Config::default(), &areas);
    assert_eq!(hints.len(), 2);
    assert_eq!(fields(&hints[0]), (110, 201, 40, 28, "a"));
    assert_eq!(fields(&hints[1]), (-20, -10, 40, 28, "b"));
    assert!(generate_hints_from_areas(&Config::default(), &vec![]).is_empty());
}

#[test]
fn letters_of_either_case_are_typed() {
    assert_eq!(keysym_to_char(0x61), Some('a'));
    assert_eq!(keysym_to_char(0x7a), Some('z'));
    assert_eq!(keysym_to_char(0x41), Some('a'));
    assert_eq!(keysym_to_char(0x5a), Some('z'));
    assert_eq!(keysym_to_char(0x31), None);
    assert_eq!(keysym_to_char(keysyms::RETURN), None);
}

#[test]
fn typing_narrows_down_to_a_hint() {
    let hints = three_hints();
    let mut typed = String::new();
    assert_eq!(process_key(&press(0x61), &hints, &mut typed), HintResult::Continue);
    assert_eq!(typed, "a");
    let centre = HintResult::Selected { x: 25 * UNIT / 2, y: 24 * UNIT };
    assert_eq!(process_key(&press(0x43), &hints, &mut typed), centre);
    assert_eq!(typed, "ac");
}

#[test]
fn only_hint_left_is_selected_at_once() {
    let mut typed = String::new();
    let centre = HintResult::Selected { x: 45 * UNIT / 2, y: 24 * UNIT };
    assert_eq!(process_key(&press(0x62), &three_hints(), &mut typed), centre);
}

#[test]
fn letters_without_a_hint_are_dropped() {
    let mut typed = String::from("a");
    assert_eq!(process_key(&press(0x7a), &three_hints(), &mut typed), HintResult::Continue);
    assert_eq!(typed, "a");
    assert_eq!(process_key(&press(0x31), &three_hints(), &mut typed), HintResult::Continue);
    assert_eq!(typed, "a");
}

#[test]
fn backspace_takes_a_letter_back() {
    let hints = three_hints();
    let mut typed = String::new();
    process_key(&press(0x61), &hints, &mut typed);
    let back = press(keysyms::BACKSPACE);
    assert_eq!(process_key(&back, &hints, &mut typed), HintResult::Continue);
    assert_eq!(typed, "");
    assert_eq!(process_key(&back, &hints, &mut typed), HintResult::Continue);
    assert_eq!(typed, "");
}

#[test]
fn escape_cancels_and_releases_do_nothing() {
    let hints = three_hints();
    let mut typed = String::from("a");
    assert_eq!(process_key(&press(keysyms::ESCAPE), &hints, &mut typed), HintResult::Cancel);
    for state in [KeyState::Released, KeyState::Repeated] {
        let event = KeyEvent { key: 1, sym: keysyms::ESCAPE, state, utf8: None };
        assert_eq!(process_key(&event, &hints, &mut typed), HintResult::Continue);
    }
    assert_eq!(typed, "a");
}

#[test]
fn every_two_letter_label_can_be_typed() {
    let hints = generate_hints(&plain_screen(1920, 1080), &Config::default());
    for h in hints.iter().filter(|h| h.label.len() == 2) {
        let mut typed = String::new();
        let mut last = HintResult::Continue;
        for c in h.label.chars() {
            if let HintResult::Selected { .. } = last {
                break;
            }
            last = process_key(&press(c as u32), &hints, &mut typed);
        }
        assert_eq!(
            last,
            HintResult::Selected {
                x: h.x as i128 * UNIT + h.w as i128 * UNIT / 2,
                y: h.y as i128 * UNIT + h.h as i128 * UNIT / 2
            }
        );
    }
}

#[test]
fn typed_part_of_labels_is_dimmed() {
    let drawn = draw_hints(&three_hints(), "a");
    let parts: Vec<(usize, &str, &str)> =
        drawn.iter().map(|d| (d.index, d.dimmed.as_str(), d.bright.as_str())).collect();
    assert_eq!(parts, vec![(0, "a", "b"), (1, "a", "c")]);
    let all = draw_hints(&three_hints(), "");
    assert_eq!(all.len(), 3);
    assert_eq!((all[2].dimmed.as_str(), all[2].bright.as_str()), ("", "b"));
}

#[test]
fn cloned_hints_are_alike() {
    let h = &three_hints()[1];
    assert_eq!(fields(&h.clone()), fields(h));
}
