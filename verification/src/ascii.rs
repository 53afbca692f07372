use vstd::prelude::*;

verus! {

/// The ASCII digit `0`.
pub const ZERO: u8 = 0x30;

/// The ASCII digit `9`.
pub const NINE: u8 = 0x39;

/// The sign `-` of a negative integer.
pub const MINUS: u8 = 0x2d;

/// The `:` between the length of a byte string and its bytes.
pub const COLON: u8 = 0x3a;

/// The tag `i` that opens an integer.
pub const INTEGER_TAG: u8 = 0x69;

/// The tag `l` that opens a list.
pub const LIST_TAG: u8 = 0x6c;

/// The tag `d` that opens a dictionary.
pub const DICT_TAG: u8 = 0x64;

/// The `e` that closes an integer, a list or a dictionary.
pub const END: u8 = 0x65;

/// The line feed that may follow the value at the end of a buffer.
pub const NEWLINE: u8 = 0x0a;

/// Whether `b` is one of the ASCII digits `0` to `9`.
pub open spec fn is_digit(b: u8) -> bool {
    ZERO <= b <= NINE
}

/// Tests whether a byte is an ASCII digit.
pub fn byte_is_digit(b: u8) -> (r: bool)
    ensures
        r == is_digit(b),
{
    ZERO <= b && b <= NINE
}

} // verus!
