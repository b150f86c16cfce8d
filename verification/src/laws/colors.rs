//! What a colour's text means, and where the configuration is.

use crate::config::{
    color_of, hex_digit, pairs_whole, search_order, without_signs, ConfigPlace,
};
use vstd::prelude::*;

verus! {

/// The sixteen hexadecimal digits count from nought to fifteen, with capitals as
/// with small letters. No other byte is a digit.
pub proof fn law_hex_digits(c: u8)
    ensures
        ({
            let small = seq![
                0x30u8, 0x31, 0x32, 0x33, 0x34, 0x35, 0x36, 0x37, 0x38, 0x39, 0x61, 0x62, 0x63,
                0x64, 0x65, 0x66,
            ];
            let capital = seq![
                0x30u8, 0x31, 0x32, 0x33, 0x34, 0x35, 0x36, 0x37, 0x38, 0x39, 0x41, 0x42, 0x43,
                0x44, 0x45, 0x46,
            ];
            &&& hex_digit(c) matches Some(d) ==> d < 16 && (small[d as int] == c
                || capital[d as int] == c)
            &&& hex_digit(c) is None ==> forall|d: int|
                0 <= d < 16 ==> small[d] != c && capital[d] != c
        }),
{
}

/// Number signs before a colour do not count.
pub proof fn law_signs(bytes: Seq<u8>)
    ensures
        color_of(seq![0x23u8] + bytes) == color_of(bytes),
        pairs_whole(seq![0x23u8] + bytes) == pairs_whole(bytes),
{
    let all = seq![0x23u8] + bytes;
    assert(all.drop_first() =~= bytes);
    assert(without_signs(all) == without_signs(bytes));
}

/// Whether `v` is what two bytes say: sixteen times the first digit and the second,
/// just the second after a plus sign, and `otherwise` where they are no digits.
pub open spec fn says(v: u8, first: u8, second: u8, otherwise: u8) -> bool {
    match (hex_digit(first), hex_digit(second)) {
        (Some(hi), Some(lo)) => v == 16 * hi + lo,
        (None, Some(lo)) => v == if first == 0x2b {
            lo
        } else {
            otherwise
        },
        _ => v == otherwise,
    }
}

/// A colour of six bytes says red, green and blue in this order, two bytes each, and
/// is opaque; one of eight bytes says also alpha. What is no number is no light, and
/// as alpha opaque. Any other length is black and opaque.
pub proof fn law_channels(b: Seq<u8>)
    requires
        b.len() > 0 ==> b[0] != 0x23,
    ensures
        ({
            let (red, green, blue, alpha) = color_of(b);
            if b.len() == 6 || b.len() == 8 {
                &&& says(red, b[0], b[1], 0)
                &&& says(green, b[2], b[3], 0)
                &&& says(blue, b[4], b[5], 0)
                &&& b.len() == 6 ==> alpha == 255
                &&& b.len() == 8 ==> says(alpha, b[6], b[7], 255)
            } else {
                red == 0 && green == 0 && blue == 0 && alpha == 255
            }
        }),
{
    assert forall|c: u8| true implies (#[trigger] hex_digit(c) matches Some(d) ==> d < 16) by {
        law_hex_digits(c);
    }
}

/// A colour can be taken apart unless a byte that goes on a character begins a pair
/// behind the first.
pub proof fn law_divisible(b: Seq<u8>)
    requires
        b.len() > 0 ==> b[0] != 0x23,
    ensures
        pairs_whole(b) <==> !(b.len() == 6 || b.len() == 8) || forall|k: int|
            2 <= k < b.len() && k % 2 == 0 ==> !(0x80 <= #[trigger] b[k] && b[k] <= 0xbf),
{
}

/// A given path is the only place to look for the configuration. Else each of the
/// two directories that is known is looked at once, the configuration directory
/// first, and the other only where it is another one.
pub proof fn law_places(given: bool, config_dir: bool, home_dir: bool, same_path: bool)
    ensures
        ({
            let places = search_order(given, config_dir, home_dir, same_path);
            &&& places.contains(ConfigPlace::Given) <==> given
            &&& places.contains(ConfigPlace::ConfigDir) <==> !given && config_dir
            &&& places.contains(ConfigPlace::HomeDir) <==> !given && home_dir && !(config_dir
                && same_path)
            &&& places.no_duplicates()
            &&& places.contains(ConfigPlace::ConfigDir) ==> places[0] == ConfigPlace::ConfigDir
        }),
{
    let places = search_order(given, config_dir, home_dir, same_path);
    if given {
        assert(places[0] == ConfigPlace::Given);
    } else if config_dir {
        assert(places[0] == ConfigPlace::ConfigDir);
        if home_dir && !same_path {
            assert(places[1] == ConfigPlace::HomeDir);
        }
    } else if home_dir {
        assert(places[0] == ConfigPlace::HomeDir);
    }
}

} // verus!
