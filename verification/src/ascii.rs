//! The ASCII bytes that the protocol gives a meaning.

use vstd::prelude::*;

verus! {

/// Horizontal tab.
pub const TAB: u8 = 9;

/// Line feed.
pub const LF: u8 = 10;

/// Carriage return.
pub const CR: u8 = 13;

/// Space.
pub const SPACE: u8 = 32;

/// The digit zero.
pub const DIGIT_0: u8 = 48;

/// The digit nine.
pub const DIGIT_9: u8 = 57;

/// The upper case letter A.
pub const UPPER_A: u8 = 65;

/// The upper case letter Z.
pub const UPPER_Z: u8 = 90;

} // verus!
