//! Key bindings.
//!
//! Bindings that are neither single characters nor names of Shift keys are
//! names that only the XKB library knows. It is asked through `look_up`, which
//! gives the keysym of a name, or 0 for a name that it does not know.

pub mod keysyms;

use crate::text::{chars_of, lower, lowered, same, to_ascii_lowercase, to_lower, trim, trimmed};
use vstd::prelude::*;
use vstd::string::*;

verus! {

pub const DEFAULT_GRID_QUADRANT_KEYSYMS: [u32; 4] = [
    keysyms::U,
    keysyms::I,
    keysyms::J,
    keysyms::K,
];

pub const DEFAULT_NORMAL_MOVE_KEYSYMS: [u32; 4] = [
    keysyms::H,
    keysyms::J,
    keysyms::K,
    keysyms::L,
];

pub const DEFAULT_BUTTON_KEYSYMS: [u32; 3] = [keysyms::M, keysyms::COMMA, keysyms::PERIOD];

pub const SHIFT_KEYS: [u32; 2] = [keysyms::SHIFT_L, keysyms::SHIFT_R];

/// Whether the lower-case `name` is one of the left Shift key.
pub open spec fn names_left_shift(name: Seq<char>) -> bool {
    name == "shift"@ || name == "shift_l"@ || name == "lshift"@ || name == "left_shift"@
}

/// Whether the lower-case `name` is one of the right Shift key.
pub open spec fn names_right_shift(name: Seq<char>) -> bool {
    name == "shift_r"@ || name == "rshift"@ || name == "right_shift"@
}

/// The keysym that a binding has without a look at the names of the XKB
/// library. An ASCII character stands for itself, in lower case.
pub open spec fn plain_keysym(binding: Seq<char>) -> Option<u32> {
    let t = trimmed(binding);
    if t.len() == 1 && lower(t[0]) <= '\u{7f}' {
        Some(lower(t[0]) as u32)
    } else if names_left_shift(lowered(t)) {
        Some(keysyms::SHIFT_L)
    } else if names_right_shift(lowered(t)) {
        Some(keysyms::SHIFT_R)
    } else {
        None
    }
}

/// The keysym of a binding, where `named` is that of its name in the XKB
/// library.
pub open spec fn keysym_of(binding: Seq<char>, named: u32) -> Option<u32> {
    if trimmed(binding).len() == 0 {
        None
    } else if plain_keysym(binding) is Some {
        plain_keysym(binding)
    } else if named != keysyms::NO_SYMBOL {
        Some(named)
    } else {
        None
    }
}

fn to_plain_keysym(t: &str, Ghost(binding): Ghost<Seq<char>>) -> (r: Option<u32>)
    requires
        t@ == trimmed(binding),
    ensures
        r == plain_keysym(binding),
{
    let v: Vec<char> = chars_of(t);
    if v.len() == 1 {
        let c: char = to_lower(v[0]);
        if c <= '\u{7f}' {
            return Some(c as u32);
        }
    }
    let word: String = to_ascii_lowercase(t);
    let w: &str = word.as_str();
    if same(w, "shift") || same(w, "shift_l") || same(w, "lshift") || same(w, "left_shift") {
        Some(keysyms::SHIFT_L)
    } else if same(w, "shift_r") || same(w, "rshift") || same(w, "right_shift") {
        Some(keysyms::SHIFT_R)
    } else {
        None
    }
}

/// Whether a binding is a name to look up.
pub open spec fn needs_look_up(binding: Seq<char>) -> bool {
    trimmed(binding).len() > 0 && plain_keysym(binding) is None
}

/// Whether `look_up` can be asked about the binding, if it has to be.
pub open spec fn can_look_up<F: Fn(&str) -> u32>(look_up: F, binding: Seq<char>) -> bool {
    needs_look_up(binding) ==> forall|name: &str|
        name@ == trimmed(binding) ==> #[trigger] call_requires(look_up, (name,))
}

/// Whether `named` is what `look_up` gives for the binding without the blanks
/// around it. A binding that is no name is not looked up.
pub open spec fn looked_up<F: Fn(&str) -> u32>(
    look_up: F,
    binding: Seq<char>,
    named: u32,
) -> bool {
    needs_look_up(binding) ==> exists|name: &str|
        name@ == trimmed(binding) && #[trigger] call_ensures(look_up, (name,), named)
}

/// Whether `sym` is the keysym of a binding, as far as `look_up` tells.
pub open spec fn is_keysym_of<F: Fn(&str) -> u32>(
    look_up: F,
    binding: Seq<char>,
    sym: Option<u32>,
) -> bool {
    exists|named: u32| #[trigger]
        looked_up(look_up, binding, named) && sym == keysym_of(binding, named)
}

/// The keysym of a binding, where `named` is what the XKB library gave for its
/// name.
pub fn keysym_with_name(binding: &str, named: u32) -> (sym: Option<u32>)
    ensures
        sym == keysym_of(binding@, named),
{
    let t: String = trim(binding);
    if t.as_str().is_empty() {
        return None;
    }
    let plain: Option<u32> = to_plain_keysym(t.as_str(), Ghost(binding@));
    if plain.is_some() {
        return plain;
    }
    if named == keysyms::NO_SYMBOL {
        None
    } else {
        Some(named)
    }
}

/// The keysym of a binding (a single character or a key's name).
pub fn binding_to_keysym<F: Fn(&str) -> u32>(binding: &str, look_up: &F) -> (sym: Option<u32>)
    requires
        can_look_up(*look_up, binding@),
    ensures
        is_keysym_of(*look_up, binding@, sym),
{
    let t: String = trim(binding);
    let mut named: u32 = keysyms::NO_SYMBOL;
    if !t.as_str().is_empty() && to_plain_keysym(t.as_str(), Ghost(binding@)).is_none() {
        named = look_up(t.as_str());
    }
    assert(looked_up(*look_up, binding@, named));
    keysym_with_name(binding, named)
}

/// Whether `sym` is the keysym of a binding, or the fallback where it has none.
pub open spec fn is_resolved<F: Fn(&str) -> u32>(
    look_up: F,
    binding: Seq<char>,
    fallback: u32,
    sym: u32,
) -> bool {
    ||| is_keysym_of(look_up, binding, Some(sym))
    ||| is_keysym_of(look_up, binding, None) && sym == fallback
}

/// The keysyms of bindings, with a fallback for each that has none.
pub fn bindings_to_keysyms<const N: usize, F: Fn(&str) -> u32>(
    bindings: &[String; N],
    fallback: &[u32; N],
    look_up: &F,
) -> (resolved: [u32; N])
    requires
        forall|i: int| 0 <= i < N ==> can_look_up(*look_up, (#[trigger] bindings@[i])@),
    ensures
        forall|i: int|
            0 <= i < N ==> is_resolved(
                *look_up,
                bindings@[i]@,
                fallback@[i],
                #[trigger] resolved@[i],
            ),
{
    let mut resolved: [u32; N] = *fallback;
    let mut i: usize = 0;
    while i < N
        invariant
            i <= N,
            forall|j: int| 0 <= j < N ==> can_look_up(*look_up, (#[trigger] bindings@[j])@),
            forall|j: int|
                0 <= j < i ==> is_resolved(
                    *look_up,
                    bindings@[j]@,
                    fallback@[j],
                    #[trigger] resolved@[j],
                ),
            forall|j: int| i <= j < N ==> #[trigger] resolved@[j] == fallback@[j],
        decreases N - i,
    {
        assert(can_look_up(*look_up, bindings@[i as int]@));
        if let Some(sym) = binding_to_keysym(bindings[i].as_str(), look_up) {
            resolved[i] = sym;
        }
        i = i + 1;
    }
    resolved
}

/// The keysym of a letter in lower case, and any other as it is.
pub open spec fn normal_keysym(sym: u32) -> u32 {
    if 0x41 <= sym <= 0x5a {
        (sym + 32) as u32
    } else {
        sym
    }
}

/// The keysym of a letter in lower case, and any other as it is.
pub fn normalize_keysym(sym: u32) -> (r: u32)
    ensures
        r == normal_keysym(sym),
{
    if 0x41 <= sym && sym <= 0x5a {
        sym + 32
    } else {
        sym
    }
}

/// The keysyms that the speed modifier binding stands for: both Shift keys for
/// "shift" and for a binding that has no keysym.
pub open spec fn speed_modifiers(binding: Seq<char>, named: u32) -> Seq<u32> {
    let t = trimmed(binding);
    match keysym_of(t, named) {
        Some(sym) if lowered(t) != "shift"@ => seq![normal_keysym(sym)],
        _ => SHIFT_KEYS@,
    }
}

/// The keysyms that the speed modifier binding stands for, where `named` is what
/// the XKB library gave for its name.
pub fn speed_modifiers_with_name(binding: &str, named: u32) -> (syms: Vec<u32>)
    ensures
        syms@ == speed_modifiers(binding@, named),
{
    let t: String = trim(binding);
    let word: String = to_ascii_lowercase(t.as_str());
    let mut syms: Vec<u32> = Vec::new();
    if !same(word.as_str(), "shift") {
        if let Some(sym) = keysym_with_name(t.as_str(), named) {
            syms.push(normalize_keysym(sym));
            return syms;
        }
    }
    syms.push(SHIFT_KEYS[0]);
    syms.push(SHIFT_KEYS[1]);
    assert(syms@ =~= SHIFT_KEYS@);
    syms
}

/// Whether `syms` are the keysyms of the speed modifier binding, as far as
/// `look_up` tells.
pub open spec fn are_speed_modifiers<F: Fn(&str) -> u32>(
    look_up: F,
    binding: Seq<char>,
    syms: Seq<u32>,
) -> bool {
    exists|named: u32| #[trigger]
        looked_up(look_up, trimmed(binding), named) && syms == speed_modifiers(binding, named)
}

/// The keysyms that the speed modifier binding stands for.
pub fn speed_modifier_keysyms<F: Fn(&str) -> u32>(binding: &str, look_up: &F) -> (syms: Vec<u32>)
    requires
        can_look_up(*look_up, trimmed(binding@)),
    ensures
        are_speed_modifiers(*look_up, binding@, syms@),
{
    let t: String = trim(binding);
    let inner: String = trim(t.as_str());
    let mut named: u32 = keysyms::NO_SYMBOL;
    if !inner.as_str().is_empty() && to_plain_keysym(inner.as_str(), Ghost(t@)).is_none() {
        named = look_up(inner.as_str());
    }
    assert(looked_up(*look_up, trimmed(binding@), named));
    speed_modifiers_with_name(binding, named)
}

} // verus!
