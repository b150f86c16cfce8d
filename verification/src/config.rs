//! Configuration.

use crate::number::{one, whole, Double};
use vstd::prelude::*;
use vstd::string::*;
use vstd::utf8::is_continuation_byte;

verus! {

/// Everything that can be configured.
pub struct Config {
    /// Source of hint targets: "grid", "stdin", or "detect".
    pub hint_source: String,
    /// Characters used to generate hint labels (order matters).
    pub hint_chars: String,
    /// Background colour of hint boxes (CSS hex).
    pub hint_bgcolor: String,
    /// Opacity multiplier for hint background fill, zero to one.
    pub hint_bg_opacity: Double,
    /// Foreground / text colour of hint boxes.
    pub hint_fgcolor: String,
    /// Border radius in pixels for hint rounded-rect.
    pub hint_border_radius: Double,
    /// Font family used to render hint labels.
    pub hint_font: String,
    /// Font size in pixels for hint labels.
    pub hint_font_size: Double,
    /// Spacing between hint grid cells in pixels.
    pub hint_grid_gap: u32,
    pub grid_color: String,
    pub grid_border_size: u32,
    /// Font size in pixels for the grid quadrant labels.
    pub grid_font_size: Double,
    /// Width and height in pixels below which grid mode selects the centre.
    pub grid_min_size: Double,
    /// Quadrant selection keys for grid mode (TL, TR, BL, BR order).
    pub grid_quadrant_keys: [String; 4],
    /// Pixels per second in normal mode.
    pub speed: u32,
    pub acceleration: u32,
    /// Normal mode movement keys (left, down, up, right order).
    pub normal_move_keys: [String; 4],
    /// Key binding that boosts cursor speed when held.
    pub speed_modifier_key: String,
    /// Multiplier applied when the speed modifier is active.
    pub speed_modifier_multiplier: Double,
    pub cursor_color: String,
    pub cursor_size: u32,
    pub crosshair_line_width: u32,
    /// Keys of the mouse buttons (left, middle, right order).
    pub buttons: [String; 3],
}

impl Config {
    /// The fractional values are doubles.
    pub open spec fn wf(self) -> bool {
        &&& self.hint_bg_opacity.wf() && self.hint_border_radius.wf()
        &&& self.hint_font_size.wf() && self.grid_font_size.wf()
        &&& self.grid_min_size.wf() && self.speed_modifier_multiplier.wf()
    }
}

impl Default for Config {
    fn default() -> (c: Config)
        ensures
            c.wf(),
            c.hint_source@ == "grid"@,
            c.hint_chars@ == "abcdefghijklmnopqrstuvwxyz"@,
            c.hint_bgcolor@ == "#1e1e2e"@,
            c.hint_bg_opacity@ == 1 * one(),
            c.hint_fgcolor@ == "#cdd6f4"@,
            c.hint_border_radius@ == 4 * one(),
            c.hint_font@ == "monospace"@,
            c.hint_font_size@ == 16 * one(),
            c.hint_grid_gap == 80,
            c.grid_color@ == "#89b4fa"@,
            c.grid_border_size == 2,
            c.grid_font_size@ == 36 * one(),
            c.grid_min_size@ == 270 * one(),
            c.grid_quadrant_keys@[0]@ == "u"@,
            c.grid_quadrant_keys@[1]@ == "i"@,
            c.grid_quadrant_keys@[2]@ == "j"@,
            c.grid_quadrant_keys@[3]@ == "k"@,
            c.speed == 220,
            c.acceleration == 700,
            c.normal_move_keys@[0]@ == "h"@,
            c.normal_move_keys@[1]@ == "j"@,
            c.normal_move_keys@[2]@ == "k"@,
            c.normal_move_keys@[3]@ == "l"@,
            c.speed_modifier_key@ == "SHIFT"@,
            c.speed_modifier_multiplier@ == 5 * one(),
            c.cursor_color@ == "#f38ba8"@,
            c.cursor_size == 7,
            c.crosshair_line_width == 2,
            c.buttons@[0]@ == "m"@,
            c.buttons@[1]@ == ","@,
            c.buttons@[2]@ == "."@,
    {
        Config {
            hint_source: "grid".to_owned(),
            hint_chars: "abcdefghijklmnopqrstuvwxyz".to_owned(),
            hint_bgcolor: "#1e1e2e".to_owned(),
            hint_bg_opacity: whole(1),
            hint_fgcolor: "#cdd6f4".to_owned(),
            hint_border_radius: whole(4),
            hint_font: "monospace".to_owned(),
            hint_font_size: whole(16),
            hint_grid_gap: 80,
            grid_color: "#89b4fa".to_owned(),
            grid_border_size: 2,
            grid_font_size: whole(36),
            grid_min_size: whole(270),
            grid_quadrant_keys: ["u".to_owned(), "i".to_owned(), "j".to_owned(), "k".to_owned()],
            speed: 220,
            acceleration: 700,
            normal_move_keys: ["h".to_owned(), "j".to_owned(), "k".to_owned(), "l".to_owned()],
            speed_modifier_key: "SHIFT".to_owned(),
            speed_modifier_multiplier: whole(5),
            cursor_color: "#f38ba8".to_owned(),
            cursor_size: 7,
            crosshair_line_width: 2,
            buttons: ["m".to_owned(), ",".to_owned(), ".".to_owned()],
        }
    }
}

// ---------------------------------------------------------------------------
// Finding the configuration file
// ---------------------------------------------------------------------------

/// A place where a configuration file may be.
#[derive(Clone, Copy, Debug, PartialEq, Eq, Structural)]
pub enum ConfigPlace {
    /// The path given on the command line.
    Given,
    /// `warpd-rs/config.toml` in the user's configuration directory.
    ConfigDir,
    /// `.config/warpd-rs/config.toml` in the user's home directory.
    HomeDir,
}

/// What came of an attempt to load a configuration file.
#[derive(Clone, Copy, Debug, PartialEq, Eq, Structural)]
pub enum LoadOutcome {
    Missing,
    Unreadable,
    Malformed,
    Loaded,
}

/// The places to look for a configuration file, in order. A given path is the
/// only one; otherwise the two directories count as far as they are known, and
/// the second only if it leads to another path.
pub open spec fn search_order(
    given: bool,
    config_dir: bool,
    home_dir: bool,
    same_path: bool,
) -> Seq<ConfigPlace> {
    if given {
        seq![ConfigPlace::Given]
    } else if config_dir && home_dir && !same_path {
        seq![ConfigPlace::ConfigDir, ConfigPlace::HomeDir]
    } else if config_dir {
        seq![ConfigPlace::ConfigDir]
    } else if home_dir {
        seq![ConfigPlace::HomeDir]
    } else {
        Seq::empty()
    }
}

/// The places to look for a configuration file, in order.
pub fn config_places(given: bool, config_dir: bool, home_dir: bool, same_path: bool) -> (r: Vec<
    ConfigPlace,
>)
    ensures
        r@ == search_order(given, config_dir, home_dir, same_path),
{
    let mut r: Vec<ConfigPlace> = Vec::new();
    if given {
        r.push(ConfigPlace::Given);
        return r;
    }
    if config_dir {
        r.push(ConfigPlace::ConfigDir);
    }
    if home_dir && !(config_dir && same_path) {
        r.push(ConfigPlace::HomeDir);
    }
    r
}

/// The first attempt that loaded a configuration. Without one the defaults hold.
pub fn first_loaded(outcomes: &Vec<LoadOutcome>) -> (r: Option<usize>)
    ensures
        match r {
            Some(i) => i < outcomes.len() && outcomes[i as int] == LoadOutcome::Loaded
                && forall|j: int| 0 <= j < i ==> #[trigger] outcomes[j] != LoadOutcome::Loaded,
            None => forall|j: int|
                0 <= j < outcomes.len() ==> #[trigger] outcomes[j] != LoadOutcome::Loaded,
        },
{
    let mut i: usize = 0;
    while i < outcomes.len()
        invariant
            i <= outcomes.len(),
            forall|j: int| 0 <= j < i ==> #[trigger] outcomes[j] != LoadOutcome::Loaded,
        decreases outcomes.len() - i,
    {
        if outcomes[i] == LoadOutcome::Loaded {
            return Some(i);
        }
        i = i + 1;
    }
    None
}

// ---------------------------------------------------------------------------
// Colours
// ---------------------------------------------------------------------------

/// Bytes without the number signs that they begin with.
pub open spec fn without_signs(b: Seq<u8>) -> Seq<u8>
    decreases b.len(),
{
    if b.len() > 0 && b[0] == 0x23 {
        without_signs(b.drop_first())
    } else {
        b
    }
}

/// The value of a hexadecimal digit of either case.
pub open spec fn hex_digit(c: u8) -> Option<u8> {
    if 0x30 <= c <= 0x39 {
        Some((c - 0x30) as u8)
    } else if 0x41 <= c <= 0x46 {
        Some((c - 0x37) as u8)
    } else if 0x61 <= c <= 0x66 {
        Some((c - 0x57) as u8)
    } else {
        None
    }
}

/// The value of two hexadecimal digits, or of one after a plus sign.
pub open spec fn hex_pair(b: Seq<u8>, i: int) -> Option<u8> {
    match (hex_digit(b[i]), hex_digit(b[i + 1])) {
        (Some(hi), Some(lo)) => Some((16 * hi + lo) as u8),
        (None, Some(lo)) if b[i] == 0x2b => Some(lo),
        _ => None,
    }
}

pub open spec fn hex_pair_or(b: Seq<u8>, i: int, default: u8) -> u8 {
    match hex_pair(b, i) {
        Some(v) => v,
        None => default,
    }
}

/// The red, green, blue and alpha of a CSS hex colour, `RRGGBB` or `RRGGBBAA`
/// after number signs. What cannot be read counts as black and opaque.
pub open spec fn color_of(bytes: Seq<u8>) -> (u8, u8, u8, u8) {
    let b = without_signs(bytes);
    if b.len() == 6 {
        (hex_pair_or(b, 0, 0), hex_pair_or(b, 2, 0), hex_pair_or(b, 4, 0), 255)
    } else if b.len() == 8 {
        (hex_pair_or(b, 0, 0), hex_pair_or(b, 2, 0), hex_pair_or(b, 4, 0), hex_pair_or(b, 6, 255))
    } else {
        (0, 0, 0, 255)
    }
}

/// Whether no character lies across two pairs of bytes.
pub open spec fn pairs_whole(bytes: Seq<u8>) -> bool {
    let b = without_signs(bytes);
    b.len() == 6 || b.len() == 8 ==> {
        &&& !is_continuation_byte(b[2])
        &&& !is_continuation_byte(b[4])
        &&& b.len() == 8 ==> !is_continuation_byte(b[6])
    }
}

fn to_hex_digit(c: u8) -> (r: Option<u8>)
    ensures
        r == hex_digit(c),
        r matches Some(d) ==> d < 16,
{
    if 0x30 <= c && c <= 0x39 {
        Some(c - 0x30)
    } else if 0x41 <= c && c <= 0x46 {
        Some(c - 0x37)
    } else if 0x61 <= c && c <= 0x66 {
        Some(c - 0x57)
    } else {
        None
    }
}

fn to_hex_pair_or(b: &[u8], i: usize, default: u8) -> (r: u8)
    requires
        i + 2 <= b@.len(),
    ensures
        r == hex_pair_or(b@, i as int, default),
{
    match (to_hex_digit(b[i]), to_hex_digit(b[i + 1])) {
        (Some(hi), Some(lo)) => 16 * hi + lo,
        (None, Some(lo)) => if b[i] == 0x2b {
            lo
        } else {
            default
        },
        _ => default,
    }
}

/// The number of number signs that the bytes begin with.
fn leading_signs(all: &[u8]) -> (from: usize)
    ensures
        from <= all@.len(),
        all@.skip(from as int) == without_signs(all@),
{
    let ghost s = all@;
    let mut from: usize = 0;
    assert(s.skip(0) =~= s);
    while from < all.len() && all[from] == 0x23
        invariant
            from <= all@.len(),
            s == all@,
            without_signs(s) == without_signs(s.skip(from as int)),
        decreases all@.len() - from,
    {
        assert(s.skip(from as int).drop_first() =~= s.skip(from + 1));
        from = from + 1;
    }
    from
}

fn is_continuation(c: u8) -> (b: bool)
    ensures
        b == is_continuation_byte(c),
{
    0x80 <= c && c <= 0xbf
}

/// Whether [`parse_hex_color`] can take the colour apart: no character lies
/// across two pairs of bytes.
pub fn is_color_divisible(hex: &str) -> (b: bool)
    ensures
        b == pairs_whole(hex.spec_bytes()),
{
    let all: &[u8] = hex.as_bytes();
    let from: usize = leading_signs(all);
    let len: usize = all.len() - from;
    if len == 6 || len == 8 {
        if is_continuation(all[from + 2]) || is_continuation(all[from + 4]) {
            return false;
        }
        if len == 8 && is_continuation(all[from + 6]) {
            return false;
        }
    }
    true
}

/// Reads a CSS hex colour into red, green, blue and alpha.
pub fn parse_hex_color(hex: &str) -> (color: (u8, u8, u8, u8))
    requires
        pairs_whole(hex.spec_bytes()),
    ensures
        color == color_of(hex.spec_bytes()),
{
    let all: &[u8] = hex.as_bytes();
    let from: usize = leading_signs(all);
    let ghost b = without_signs(all@);
    assert(forall|i: int| 0 <= i < b.len() ==> #[trigger] b[i] == all@[from + i]);
    let len: usize = all.len() - from;
    if len == 6 || len == 8 {
        let r: u8 = to_hex_pair_or(all, from, 0);
        let g: u8 = to_hex_pair_or(all, from + 2, 0);
        let bl: u8 = to_hex_pair_or(all, from + 4, 0);
        let a: u8 = if len == 8 {
            to_hex_pair_or(all, from + 6, 255)
        } else {
            255
        };
        (r, g, bl, a)
    } else {
        (0, 0, 0, 255)
    }
}

/// The lower-case hexadecimal digit of a value below sixteen.
pub open spec fn hex_char(d: int) -> u8 {
    if d < 10 {
        (0x30 + d) as u8
    } else {
        (0x57 + d) as u8
    }
}

/// A byte as two hexadecimal digits.
pub open spec fn hex_bytes(v: u8) -> Seq<u8> {
    seq![hex_char(v as int / 16), hex_char(v as int % 16)]
}

/// Reading a colour in the form `#RRGGBBAA` or `#RRGGBB` gives the colour back,
/// the latter with full alpha.
pub proof fn law_color_round_trip(r: u8, g: u8, b: u8, a: u8)
    ensures
        color_of(seq![0x23u8] + hex_bytes(r) + hex_bytes(g) + hex_bytes(b) + hex_bytes(a)) == (
            r,
            g,
            b,
            a,
        ),
        color_of(seq![0x23u8] + hex_bytes(r) + hex_bytes(g) + hex_bytes(b)) == (r, g, b, 255u8),
{
    let six = hex_bytes(r) + hex_bytes(g) + hex_bytes(b);
    let eight = six + hex_bytes(a);
    let t6 = seq![0x23u8] + hex_bytes(r) + hex_bytes(g) + hex_bytes(b);
    let t8 = t6 + hex_bytes(a);
    assert(t6.drop_first() =~= six);
    assert(t8.drop_first() =~= eight);
    assert(without_signs(six) == six);
    assert(without_signs(eight) == eight);
}

} // verus!
