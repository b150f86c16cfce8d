//! Well-known XKB keysyms used throughout the modes.

use vstd::prelude::*;

verus! {

/// No key.
pub const NO_SYMBOL: u32 = 0;

pub const ESCAPE: u32 = 0xff1b;

pub const RETURN: u32 = 0xff0d;

pub const BACKSPACE: u32 = 0xff08;

pub const TAB: u32 = 0xff09;

// modifiers
pub const SHIFT_L: u32 = 0xffe1;

pub const SHIFT_R: u32 = 0xffe2;

// hjkl movement (normal mode)
pub const H: u32 = 0x68;

pub const J: u32 = 0x6a;

pub const K: u32 = 0x6b;

pub const L: u32 = 0x6c;

// grid quadrant selection
pub const U: u32 = 0x75;

pub const I: u32 = 0x69;

// mouse buttons (default bindings)
pub const M: u32 = 0x6d;

pub const COMMA: u32 = 0x2c;

pub const PERIOD: u32 = 0x2e;

// mode switches
pub const X: u32 = 0x78;

pub const G: u32 = 0x67;

pub const V: u32 = 0x76;

} // verus!
