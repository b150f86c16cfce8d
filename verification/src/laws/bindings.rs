//! What the words of the configuration mean.

use crate::input::{
    are_speed_modifiers, is_keysym_of, is_resolved, keysym_of, looked_up, normal_keysym,
    speed_modifiers, DEFAULT_BUTTON_KEYSYMS,
    DEFAULT_GRID_QUADRANT_KEYSYMS, DEFAULT_NORMAL_MOVE_KEYSYMS, SHIFT_KEYS,
};
use crate::laws::text::law_trimmed;
use crate::modes::source_of;
use crate::normal::is_bound_keysym;
use crate::text::{lowered, trimmed};
use vstd::prelude::*;

verus! {

/// Without a binding, h, j, k and l steer, m, the comma and the full stop click, and u,
/// i, j and k take the quadrants. Shift is the left and the right one.
pub proof fn law_default_keys()
    ensures
        DEFAULT_NORMAL_MOVE_KEYSYMS@ == seq![104u32, 106, 107, 108],
        DEFAULT_BUTTON_KEYSYMS@ == seq![109u32, 44, 46],
        DEFAULT_GRID_QUADRANT_KEYSYMS@ == seq![117u32, 105, 106, 107],
        SHIFT_KEYS@ == seq![0xffe1u32, 0xffe2],
{
    assert(DEFAULT_NORMAL_MOVE_KEYSYMS@ =~= seq![104u32, 106, 107, 108]);
    assert(DEFAULT_BUTTON_KEYSYMS@ =~= seq![109u32, 44, 46]);
    assert(DEFAULT_GRID_QUADRANT_KEYSYMS@ =~= seq![117u32, 105, 106, 107]);
    assert(SHIFT_KEYS@ =~= seq![0xffe1u32, 0xffe2]);
}

/// A keysym of one of the 26 capitals becomes that of the small letter. Every other
/// stays, and nothing is left to do a second time.
pub proof fn law_normal_keysyms(sym: u32)
    ensures
        65 <= sym <= 90 ==> normal_keysym(sym) == sym + 32,
        sym < 65 || sym > 90 ==> normal_keysym(sym) == sym,
        normal_keysym(normal_keysym(sym)) == normal_keysym(sym),
{
}

/// A binding of one ASCII character is that character, a capital as the small
/// letter. The words for the Shift keys, in any case, are these keys. Any other
/// word is the keysym that its name has, if it has one; blanks are no binding.
pub proof fn law_keysyms(binding: Seq<char>, named: u32)
    ensures
        ({
            let t = trimmed(binding);
            let word = lowered(t);
            let left = word == "shift"@ || word == "shift_l"@ || word == "lshift"@ || word
                == "left_shift"@;
            let right = word == "shift_r"@ || word == "rshift"@ || word == "right_shift"@;
            let character = t.len() == 1 && (t[0] as u32) < 128;
            let sym = keysym_of(binding, named);
            &&& t.len() == 0 ==> sym is None
            &&& character ==> sym == Some(
                if 65 <= t[0] as u32 && t[0] as u32 <= 90 {
                    (t[0] as u32 + 32) as u32
                } else {
                    t[0] as u32
                },
            )
            &&& left ==> sym == Some(0xffe1u32)
            &&& right ==> sym == Some(0xffe2u32)
            &&& t.len() > 0 && !character && !left && !right ==> sym == if named == 0 {
                None
            } else {
                Some(named)
            }
        }),
{
    reveal_strlit("shift");
    reveal_strlit("shift_l");
    reveal_strlit("lshift");
    reveal_strlit("left_shift");
    reveal_strlit("shift_r");
    reveal_strlit("rshift");
    reveal_strlit("right_shift");
    lemma_endings();
}

proof fn lemma_endings()
    ensures
        "shift"@.len() == 5,
        "shift_l"@.len() == 7,
        "shift_r"@.len() == 7,
        "shift_l"@[6] != "shift_r"@[6],
        "lshift"@.len() == 6,
        "rshift"@.len() == 6,
        "lshift"@[0] != "rshift"@[0],
        "left_shift"@.len() == 10,
        "right_shift"@.len() == 11,
{
    reveal_strlit("shift");
    reveal_strlit("shift_l");
    reveal_strlit("lshift");
    reveal_strlit("left_shift");
    reveal_strlit("shift_r");
    reveal_strlit("rshift");
    reveal_strlit("right_shift");
}

/// Whether `named` was given for a name.
pub open spec fn was_given<F: Fn(&str) -> u32>(look_up: F, text: Seq<char>, named: u32) -> bool {
    exists|name: &str| name@ == text && #[trigger] call_ensures(look_up, (name,), named)
}

/// A binding of one ASCII character, and one that names a Shift key, means that key
/// whatever is looked up. Any other word means what was given for the word without
/// the blanks around it. Blanks, and a word for which nothing was given, mean the
/// fallback.
pub proof fn law_resolved<F: Fn(&str) -> u32>(
    look_up: F,
    binding: Seq<char>,
    fallback: u32,
    sym: u32,
)
    requires
        is_resolved(look_up, binding, fallback, sym),
    ensures
        ({
            let t = trimmed(binding);
            let word = lowered(t);
            let left = word == "shift"@ || word == "shift_l"@ || word == "lshift"@ || word
                == "left_shift"@;
            let right = word == "shift_r"@ || word == "rshift"@ || word == "right_shift"@;
            let character = t.len() == 1 && (t[0] as u32) < 128;
            &&& t.len() == 0 ==> sym == fallback
            &&& character ==> sym == if 65 <= t[0] as u32 && t[0] as u32 <= 90 {
                (t[0] as u32 + 32) as u32
            } else {
                t[0] as u32
            }
            &&& left ==> sym == 0xffe1
            &&& right ==> sym == 0xffe2
            &&& t.len() > 0 && !character && !left && !right ==> (sym != 0 && was_given(
                look_up,
                t,
                sym,
            )) || (sym == fallback && was_given(look_up, t, 0))
        }),
{
    let found = if is_keysym_of(look_up, binding, Some(sym)) {
        Some(sym)
    } else {
        None
    };
    assert(is_keysym_of(look_up, binding, found));
    let named = choose|named: u32| #[trigger]
        looked_up(look_up, binding, named) && found == keysym_of(binding, named);
    law_keysyms(binding, named);
}

/// A key of normal mode is such a key, a capital as the small letter.
pub proof fn law_bound<F: Fn(&str) -> u32>(
    look_up: F,
    binding: Seq<char>,
    fallback: u32,
    sym: u32,
)
    requires
        is_bound_keysym(look_up, binding, fallback, sym),
    ensures
        sym < 65 || sym > 90,
        is_resolved(look_up, binding, fallback, sym) || (97 <= sym <= 122 && is_resolved(
            look_up,
            binding,
            fallback,
            (sym - 32) as u32,
        )),
{
    let raw = choose|raw: u32| #[trigger]
        is_resolved(look_up, binding, fallback, raw) && sym == normal_keysym(raw);
    assert(is_resolved(look_up, binding, fallback, raw));
    law_normal_keysyms(raw);
}

/// The speed modifier is both Shift keys where the binding says Shift, and else one
/// key or both of them, as the binding without the blanks around it has a keysym.
pub proof fn law_looked_up_modifiers<F: Fn(&str) -> u32>(
    look_up: F,
    binding: Seq<char>,
    syms: Seq<u32>,
)
    requires
        are_speed_modifiers(look_up, binding, syms),
    ensures
        ({
            let t = trimmed(binding);
            &&& syms.len() == 1 || (syms.len() == 2 && syms[0] == 0xffe1 && syms[1] == 0xffe2)
            &&& lowered(t) == "shift"@ || t.len() == 0 ==> syms.len() == 2
            &&& syms.len() == 1 ==> is_keysym_of(look_up, t, Some(syms[0])) || (97 <= syms[0] <= 122
                && is_keysym_of(look_up, t, Some((syms[0] - 32) as u32)))
            &&& syms.len() == 2 ==> lowered(t) == "shift"@ || is_keysym_of(look_up, t, None)
        }),
{
    let t = trimmed(binding);
    let named = choose|named: u32| #[trigger]
        looked_up(look_up, t, named) && syms == speed_modifiers(binding, named);
    law_speed_modifiers(binding, named);
    assert(looked_up(look_up, t, named));
    if let Some(sym) = keysym_of(t, named) {
        law_normal_keysyms(sym);
    }
    law_keysyms(t, named);
    law_trimmed(binding);
    if t.len() == 0 {
        law_trimmed(t);
        assert(trimmed(t).len() == 0);
    }
}

/// The speed modifier is one key, in lower case, or both Shift keys: these where the
/// binding says Shift, and where it has no keysym.
pub proof fn law_speed_modifiers(binding: Seq<char>, named: u32)
    ensures
        ({
            let t = trimmed(binding);
            let syms = speed_modifiers(binding, named);
            let sym = keysym_of(t, named);
            &&& lowered(t) == "shift"@ || sym is None ==> syms.len() == 2 && syms[0] == 0xffe1
                && syms[1] == 0xffe2
            &&& lowered(t) != "shift"@ && sym is Some ==> syms.len() == 1 && syms[0]
                == normal_keysym(sym->0)
        }),
{
}

/// The hints come from where the word says, in any case and with blanks around it;
/// a word that says nothing is known as such.
pub proof fn law_sources(setting: Seq<char>)
    ensures
        ({
            let word = lowered(trimmed(setting));
            &&& source_of(setting) is Stdin <==> word == "stdin"@
            &&& source_of(setting) is Detect <==> word == "detect"@
            &&& source_of(setting) is Grid <==> word == "grid"@ || word == "static"@
        }),
{
    reveal_strlit("stdin");
    reveal_strlit("detect");
    reveal_strlit("grid");
    reveal_strlit("static");
    assert("stdin"@.len() == 5 && "detect"@.len() == 6 && "grid"@.len() == 4 && "static"@.len()
        == 6);
    assert("detect"@[0] == 'd' && "static"@[0] == 's');
}

} // verus!
