use warpd_rs::cli::{command, runtime_features_string, Command};
use warpd_rs::config::{
    config_places, first_loaded, is_color_divisible, parse_hex_color, Config, ConfigPlace,
    LoadOutcome,
};
use warpd_rs::number::whole;

#[test]
fn defaults_are_documented_ones() {
    let c = Config::default();
    assert_eq!(c.hint_source, "grid");
    assert_eq!(c.hint_chars, "abcdefghijklmnopqrstuvwxyz");
    assert_eq!(c.hint_bg_opacity, whole(1));
    assert_eq!(c.hint_font_size, whole(16));
    assert_eq!(c.hint_grid_gap, 80);
    assert_eq!(c.grid_min_size, whole(270));
    assert_eq!(c.grid_quadrant_keys, ["u", "i", "j", "k"]);
    assert_eq!(c.normal_move_keys, ["h", "j", "k", "l"]);
    assert_eq!(c.buttons, ["m", ",", "."]);
    assert_eq!(c.speed, 220);
    assert_eq!(c.speed_modifier_key, "SHIFT");
    assert_eq!(c.speed_modifier_multiplier, whole(5));
    assert_eq!(c.cursor_color, "#f38ba8");
}

#[test]
fn colours_read_from_hex() {
    assert_eq!(parse_hex_color("#1e1e2e"), (0x1e, 0x1e, 0x2e, 255));
    assert_eq!(parse_hex_color("#89B4fa80"), (0x89, 0xb4, 0xfa, 0x80));
    assert_eq!(parse_hex_color("cdd6f4"), (0xcd, 0xd6, 0xf4, 255));
    assert_eq!(parse_hex_color("###cdd6f4"), (0xcd, 0xd6, 0xf4, 255));
}

#[test]
fn unreadable_colours_are_black_and_opaque() {
    assert_eq!(parse_hex_color(""), (0, 0, 0, 255));
    assert_eq!(parse_hex_color("#fff"), (0, 0, 0, 255));
    assert_eq!(parse_hex_color("#gg11zz"), (0, 0x11, 0, 255));
    assert_eq!(parse_hex_color("#112233zz"), (0x11, 0x22, 0x33, 255));
    assert_eq!(parse_hex_color("#+f-f+g"), (15, 0, 0, 255));
}

#[test]
fn colours_are_cut_between_characters_only() {
    assert!(is_color_divisible("#1e1e2e"));
    assert!(is_color_divisible("#ééé"));
    assert!(!is_color_divisible("#aéab1"));
    assert!(!is_color_divisible("##1€2€"));
    assert!(is_color_divisible("#€"));
    assert!(!is_color_divisible("#00000é0"));
    assert_eq!(parse_hex_color("#ééé"), (0, 0, 0, 255));
}

#[test]
fn every_byte_survives_a_colour() {
    for v in 0..=255u8 {
        let text = format!("#{:02x}{:02X}{:02x}{:02X}", v, 255 - v, v ^ 0x5a, v);
        assert_eq!(parse_hex_color(&text), (v, 255 - v, v ^ 0x5a, v));
    }
}

#[test]
fn given_path_is_the_only_place() {
    assert_eq!(config_places(true, true, true, false), vec![ConfigPlace::Given]);
    assert_eq!(config_places(true, false, false, false), vec![ConfigPlace::Given]);
}

#[test]
fn configuration_directory_comes_before_home() {
    assert_eq!(
        config_places(false, true, true, false),
        vec![ConfigPlace::ConfigDir, ConfigPlace::HomeDir]
    );
    assert_eq!(config_places(false, true, true, true), vec![ConfigPlace::ConfigDir]);
    assert_eq!(config_places(false, true, false, false), vec![ConfigPlace::ConfigDir]);
    assert_eq!(config_places(false, false, true, false), vec![ConfigPlace::HomeDir]);
    assert_eq!(config_places(false, false, false, false), vec![]);
}

#[test]
fn first_good_configuration_counts() {
    assert_eq!(first_loaded(&vec![LoadOutcome::Missing, LoadOutcome::Loaded]), Some(1));
    assert_eq!(first_loaded(&vec![LoadOutcome::Loaded, LoadOutcome::Loaded]), Some(0));
    assert_eq!(first_loaded(&vec![LoadOutcome::Malformed, LoadOutcome::Unreadable]), None);
    assert_eq!(first_loaded(&vec![]), None);
}

#[test]
fn features_are_named() {
    assert_eq!(runtime_features_string(true), "opencv");
    assert_eq!(runtime_features_string(false), "none");
}

#[test]
fn first_flag_decides() {
    assert_eq!(command(true, true, true, true, true), Command::PrintVersion);
    assert_eq!(command(false, true, true, true, true), Command::HintMode);
    assert_eq!(command(false, false, true, true, true), Command::GridMode);
    assert_eq!(command(false, false, false, true, true), Command::NormalMode);
    assert_eq!(command(false, false, false, false, true), Command::GenerateConfig);
    assert_eq!(command(false, false, false, false, false), Command::Nothing);
}
