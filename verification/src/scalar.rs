use vstd::prelude::*;
use vstd::slice::slice_to_vec;
use crate::ascii::{COLON, END, INTEGER_TAG, MINUS, ZERO};
use crate::cursor::{bytes_at, Cursor};
use crate::error::DecodeError;
use crate::number::{lemma_read_number_bounds, read_number, spec_read_number, NumberFault};

verus! {

/// The largest magnitude of a 64-bit integer that is not negative.
pub const MAX_MAGNITUDE: u64 = 0x7fff_ffff_ffff_ffff;

/// The largest magnitude of a negative 64-bit integer.
pub const MAX_NEGATIVE_MAGNITUDE: u64 = 0x8000_0000_0000_0000;

/// The largest magnitude that a 64-bit integer of the given sign can have.
pub open spec fn magnitude_limit(negative: bool) -> nat {
    if negative {
        MAX_NEGATIVE_MAGNITUDE as nat
    } else {
        MAX_MAGNITUDE as nat
    }
}

/// Decodes the integer `i` `-`? digit+ `e` that starts at offset `at`, and
/// gives its value and the offset behind its `e`.
///
/// The digits are read from left to right, and the first fault found is the
/// error: the buffer ending before the `e` is `UnexpectedEof`, a magnitude
/// beyond 64 bits is `IntegerOverflow`, and a missing `i`, an empty run of
/// digits, a leading zero, `-0` or a byte other than `e` behind the digits
/// is `MalformedInteger`.
pub open spec fn spec_parse_int(input: Seq<u8>, at: int) -> Result<(int, int), DecodeError> {
    if !(0 <= at < input.len()) {
        Err(DecodeError::UnexpectedEof(at as usize))
    } else if input[at] != INTEGER_TAG {
        Err(DecodeError::MalformedInteger(at as usize))
    } else {
        let negative = at + 1 < input.len() && input[at + 1] == MINUS;
        let digits = if negative {
            at + 2
        } else {
            at + 1
        };
        if digits >= input.len() {
            Err(DecodeError::UnexpectedEof(digits as usize))
        } else if negative && input[digits] == ZERO {
            Err(DecodeError::MalformedInteger(digits as usize))
        } else {
            match spec_read_number(input, digits, magnitude_limit(negative)) {
                Err((NumberFault::TooLarge, fault)) => Err(
                    DecodeError::IntegerOverflow(fault as usize),
                ),
                Err((_, fault)) => Err(DecodeError::MalformedInteger(fault as usize)),
                Ok((magnitude, end)) => {
                    if end >= input.len() {
                        Err(DecodeError::UnexpectedEof(end as usize))
                    } else if input[end] != END {
                        Err(DecodeError::MalformedInteger(end as usize))
                    } else if negative {
                        Ok((-magnitude, end + 1))
                    } else {
                        Ok((magnitude as int, end + 1))
                    }
                },
            }
        }
    }
}

/// Decodes the byte string digit+ `:` bytes that starts at offset `at`, and
/// gives its bytes and the offset behind them.
///
/// A length that is missing, has a leading zero, does not fit into `usize`
/// or is followed by a byte other than `:` is `MalformedLength`; the buffer
/// ending before the `:` or before the last of the bytes is `UnexpectedEof`.
pub open spec fn spec_parse_byte_string(input: Seq<u8>, at: int) -> Result<
    (Seq<u8>, int),
    DecodeError,
> {
    if !(0 <= at < input.len()) {
        Err(DecodeError::UnexpectedEof(at as usize))
    } else {
        match spec_read_number(input, at, usize::MAX as nat) {
            Err((_, fault)) => Err(DecodeError::MalformedLength(fault as usize)),
            Ok((length, end)) => {
                if end >= input.len() {
                    Err(DecodeError::UnexpectedEof(end as usize))
                } else if input[end] != COLON {
                    Err(DecodeError::MalformedLength(end as usize))
                } else {
                    match bytes_at(input, end + 1, length as int) {
                        Ok(bytes) => Ok((bytes, end + 1 + length)),
                        Err(e) => Err(e),
                    }
                }
            },
        }
    }
}

/// An integer that was decoded spans at least one byte, ends within the
/// buffer and fits into 64 bits; one that was not failed at an offset between
/// its start and the buffer's end.
pub proof fn lemma_parse_int_bounds(input: Seq<u8>, at: int)
    requires
        0 <= at <= input.len() <= usize::MAX,
    ensures
        match spec_parse_int(input, at) {
            Ok((n, end)) => at < end <= input.len() && i64::MIN <= n <= i64::MAX,
            Err(e) => e.offset() matches Some(o) && at <= o <= input.len(),
        },
{
    if at < input.len() && input[at] == INTEGER_TAG {
        let negative = at + 1 < input.len() && input[at + 1] == MINUS;
        let digits = if negative {
            at + 2
        } else {
            at + 1
        };
        if digits < input.len() {
            lemma_read_number_bounds(input, digits, magnitude_limit(negative));
        }
    }
}

/// A byte string that was decoded spans its bytes and at least a digit and
/// the `:` before them, and ends within the buffer; one that was not failed
/// at an offset between its start and the buffer's end.
pub proof fn lemma_parse_byte_string_bounds(input: Seq<u8>, at: int)
    requires
        0 <= at <= input.len() <= usize::MAX,
    ensures
        match spec_parse_byte_string(input, at) {
            Ok((bytes, end)) => at + 2 + bytes.len() <= end <= input.len(),
            Err(e) => e.offset() matches Some(o) && at <= o <= input.len(),
        },
{
    if at < input.len() {
        lemma_read_number_bounds(input, at, usize::MAX as nat);
    }
}

/// Decodes the integer at the cursor and moves behind its `e`; on an error
/// the cursor stays at the offset of the fault.
pub fn parse_int(cursor: &mut Cursor) -> (r: Result<i64, DecodeError>)
    ensures
        final(cursor).input() == old(cursor).input(),
        match r {
            Ok(n) => spec_parse_int(old(cursor).input(), old(cursor).offset()) == Ok::<
                (int, int),
                DecodeError,
            >((n as int, final(cursor).offset())),
            Err(e) => {
                &&& spec_parse_int(old(cursor).input(), old(cursor).offset()) == Err::<
                    (int, int),
                    DecodeError,
                >(e)
                &&& e.offset() matches Some(at) && final(cursor).offset() == at
            },
        },
{
    let start = cursor.position();
    match cursor.peek() {
        Err(e) => {
            return Err(e);
        },
        Ok(tag) => {
            if tag != INTEGER_TAG {
                return Err(DecodeError::MalformedInteger(start));
            }
        },
    }
    let _ = cursor.advance(1);
    let negative = match cursor.peek() {
        Ok(b) => b == MINUS,
        Err(_) => false,
    };
    if negative {
        let _ = cursor.advance(1);
    }
    let digits = cursor.position();
    match cursor.peek() {
        Err(e) => {
            return Err(e);
        },
        Ok(b) => {
            if negative && b == ZERO {
                return Err(DecodeError::MalformedInteger(digits));
            }
        },
    }
    let limit: u64 = if negative {
        MAX_NEGATIVE_MAGNITUDE
    } else {
        MAX_MAGNITUDE
    };
    let magnitude = match read_number(cursor, limit) {
        Ok(n) => n,
        Err(NumberFault::TooLarge) => {
            return Err(DecodeError::IntegerOverflow(cursor.position()));
        },
        Err(_) => {
            return Err(DecodeError::MalformedInteger(cursor.position()));
        },
    };
    let end = cursor.position();
    match cursor.peek() {
        Err(e) => {
            return Err(e);
        },
        Ok(b) => {
            if b != END {
                return Err(DecodeError::MalformedInteger(end));
            }
        },
    }
    let _ = cursor.advance(1);
    if !negative {
        Ok(magnitude as i64)
    } else if magnitude == limit {
        Ok(i64::MIN)
    } else {
        Ok(-(magnitude as i64))
    }
}

/// Decodes the byte string at the cursor and moves behind its last byte; on
/// an error the cursor stays at the offset of the fault.
pub fn parse_byte_string(cursor: &mut Cursor) -> (r: Result<Vec<u8>, DecodeError>)
    ensures
        final(cursor).input() == old(cursor).input(),
        match r {
            Ok(bytes) => spec_parse_byte_string(old(cursor).input(), old(cursor).offset()) == Ok::<
                (Seq<u8>, int),
                DecodeError,
            >((bytes@, final(cursor).offset())),
            Err(e) => {
                &&& spec_parse_byte_string(old(cursor).input(), old(cursor).offset()) == Err::<
                    (Seq<u8>, int),
                    DecodeError,
                >(e)
                &&& e.offset() matches Some(at) && final(cursor).offset() == at
            },
        },
{
    let start = cursor.position();
    if cursor.remaining() == 0 {
        return Err(DecodeError::UnexpectedEof(start));
    }
    let length = match read_number(cursor, usize::MAX as u64) {
        Ok(n) => n as usize,
        Err(_) => {
            return Err(DecodeError::MalformedLength(cursor.position()));
        },
    };
    let end = cursor.position();
    match cursor.peek() {
        Err(e) => {
            return Err(e);
        },
        Ok(b) => {
            if b != COLON {
                return Err(DecodeError::MalformedLength(end));
            }
        },
    }
    let _ = cursor.advance(1);
    let bytes = match cursor.slice(length) {
        Ok(bytes) => slice_to_vec(bytes),
        Err(e) => {
            return Err(e);
        },
    };
    let _ = cursor.advance(length);
    Ok(bytes)
}

} // verus!
