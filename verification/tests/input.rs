use warpd_rs::input::{
    binding_to_keysym, bindings_to_keysyms, keysym_with_name, keysyms, normalize_keysym,
    speed_modifier_keysyms, speed_modifiers_with_name, DEFAULT_BUTTON_KEYSYMS,
    DEFAULT_GRID_QUADRANT_KEYSYMS, SHIFT_KEYS,
};

/// A few names of the XKB library.
fn by_name(name: &str) -> u32 {
    match name {
        "Return" => keysyms::RETURN,
        "Tab" => keysyms::TAB,
        "Control_L" => 0xffe3,
        "\u{e4}" => 0xe4,
        _ => keysyms::NO_SYMBOL,
    }
}

fn never(name: &str) -> u32 {
    panic!("{name} was looked up")
}

#[test]
fn characters_stand_for_themselves() {
    assert_eq!(binding_to_keysym("h", &never), Some(keysyms::H));
    assert_eq!(binding_to_keysym(" H ", &never), Some(keysyms::H));
    assert_eq!(binding_to_keysym(",", &never), Some(keysyms::COMMA));
    assert_eq!(binding_to_keysym(".", &never), Some(keysyms::PERIOD));
}

#[test]
fn shift_keys_have_many_names() {
    for name in ["shift", "SHIFT", "Shift_L", "lshift", "left_shift"] {
        assert_eq!(binding_to_keysym(name, &never), Some(keysyms::SHIFT_L));
    }
    for name in ["shift_r", "RSHIFT", "right_shift"] {
        assert_eq!(binding_to_keysym(name, &never), Some(keysyms::SHIFT_R));
    }
}

#[test]
fn other_names_are_looked_up() {
    assert_eq!(binding_to_keysym(" Return ", &by_name), Some(keysyms::RETURN));
    assert_eq!(binding_to_keysym("\u{e4}", &by_name), Some(0xe4));
    assert_eq!(binding_to_keysym("return", &by_name), None);
    assert_eq!(binding_to_keysym("", &never), None);
    assert_eq!(binding_to_keysym(" \t", &never), None);
}

#[test]
fn names_are_resolved_by_what_was_found() {
    assert_eq!(keysym_with_name("Return", keysyms::RETURN), Some(keysyms::RETURN));
    assert_eq!(keysym_with_name("Return", 0), None);
    assert_eq!(keysym_with_name("", keysyms::RETURN), None);
    assert_eq!(keysym_with_name("q", keysyms::RETURN), Some(0x71));
}

#[test]
fn bad_bindings_fall_back() {
    let bindings = ["".to_string(), "nonsense".to_string(), "q".to_string(), "Tab".to_string()];
    assert_eq!(
        bindings_to_keysyms(&bindings, &DEFAULT_GRID_QUADRANT_KEYSYMS, &by_name),
        [keysyms::U, keysyms::I, 0x71, keysyms::TAB]
    );
    let none = [String::new(), String::new(), String::new()];
    assert_eq!(bindings_to_keysyms(&none, &DEFAULT_BUTTON_KEYSYMS, &never), DEFAULT_BUTTON_KEYSYMS);
}

#[test]
fn letters_are_folded_to_lower_case() {
    assert_eq!(normalize_keysym(0x41), 0x61);
    assert_eq!(normalize_keysym(0x5a), 0x7a);
    assert_eq!(normalize_keysym(0x40), 0x40);
    assert_eq!(normalize_keysym(0x5b), 0x5b);
    assert_eq!(normalize_keysym(keysyms::SHIFT_L), keysyms::SHIFT_L);
}

#[test]
fn speed_modifier_is_shift_unless_bound() {
    assert_eq!(speed_modifier_keysyms("SHIFT", &never), SHIFT_KEYS.to_vec());
    assert_eq!(speed_modifier_keysyms(" shift ", &never), SHIFT_KEYS.to_vec());
    assert_eq!(speed_modifier_keysyms("nonsense", &by_name), SHIFT_KEYS.to_vec());
    assert_eq!(speed_modifier_keysyms("Shift_R", &never), vec![keysyms::SHIFT_R]);
    assert_eq!(speed_modifier_keysyms("S", &never), vec![0x73]);
    assert_eq!(speed_modifier_keysyms(" Control_L", &by_name), vec![0xffe3]);
    assert_eq!(speed_modifiers_with_name("shift", 5), SHIFT_KEYS.to_vec());
    assert_eq!(speed_modifiers_with_name("Hyper", 5), vec![5]);
}
