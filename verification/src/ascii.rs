//! Names for the ASCII byte values the parser branches on.

use vstd::prelude::*;

verus! {

pub const TAB: u8 = 9;

pub const LF: u8 = 10;

pub const CR: u8 = 13;

pub const SP: u8 = 32;

pub const PLUS: u8 = 43;

pub const DASH: u8 = 45;

pub const SLASH: u8 = 47;

pub const D0: u8 = 48;

pub const D9: u8 = 57;

pub const COLON: u8 = 58;

pub const EQUALS: u8 = 61;

pub const UA: u8 = 65;

pub const UF: u8 = 70;

pub const UZ: u8 = 90;

pub const LA: u8 = 97;

pub const LF_LETTER: u8 = 102;

pub const LZ: u8 = 122;

} // verus!
