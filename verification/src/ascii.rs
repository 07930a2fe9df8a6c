//! The ASCII bytes that the wire format and the command language are made of.

use vstd::prelude::*;

verus! {

/// Carriage return, the first byte of a line terminator.
pub const CR: u8 = 13;

/// Line feed, the second byte of a line terminator.
pub const LF: u8 = 10;

/// `+`, which starts a simple string and may start a number.
pub const PLUS: u8 = 43;

/// `-`, which starts an error and marks a negative number.
pub const MINUS: u8 = 45;

/// `:`, which starts an integer.
pub const COLON: u8 = 58;

/// `$`, which starts a bulk string.
pub const DOLLAR: u8 = 36;

/// `*`, which starts an array.
pub const STAR: u8 = 42;

/// The digit `0`.
pub const ZERO: u8 = 48;

/// The digit `9`.
pub const NINE: u8 = 57;

} // verus!
