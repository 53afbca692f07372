use vstd::prelude::*;
use crate::error::DecodeError;

verus! {

/// The byte at offset `at` of `input`, or `UnexpectedEof` if `input` holds no
/// byte there.
pub open spec fn byte_at(input: Seq<u8>, at: int) -> Result<u8, DecodeError> {
    if 0 <= at < input.len() {
        Ok(input[at])
    } else {
        Err(DecodeError::UnexpectedEof(at as usize))
    }
}

/// The `n` bytes of `input` that start at offset `at`, or `UnexpectedEof` if
/// fewer than `n` bytes follow `at`.
pub open spec fn bytes_at(input: Seq<u8>, at: int, n: int) -> Result<Seq<u8>, DecodeError> {
    if 0 <= at && 0 <= n && at + n <= input.len() {
        Ok(input.subrange(at, at + n))
    } else {
        Err(DecodeError::UnexpectedEof(at as usize))
    }
}

/// A read position in an immutable byte buffer.
///
/// The position never lies beyond the end of the buffer, and every read is
/// checked against the buffer's length: a read that the buffer cannot serve
/// is an `UnexpectedEof` at the current position and moves nothing.
pub struct Cursor<'a> {
    buffer: &'a [u8],
    pos: usize,
}

impl<'a> Cursor<'a> {
    #[verifier::type_invariant]
    spec fn in_bounds(self) -> bool {
        self.pos <= self.buffer@.len()
    }

    /// The whole buffer that the cursor reads from.
    pub closed spec fn input(&self) -> Seq<u8> {
        self.buffer@
    }

    /// The offset of the next byte to be read.
    pub closed spec fn offset(&self) -> int {
        self.pos as int
    }

    /// A cursor at the start of `buffer`.
    pub fn new(buffer: &'a [u8]) -> (c: Cursor<'a>)
        ensures
            c.input() == buffer@,
            c.offset() == 0,
    {
        Cursor { buffer, pos: 0 }
    }

    /// The current offset, which is at most the buffer's length.
    pub fn position(&self) -> (p: usize)
        ensures
            p == self.offset(),
            p <= self.input().len() <= usize::MAX,
    {
        proof {
            use_type_invariant(self);
            vstd::slice::axiom_spec_len(self.buffer);
        }
        self.pos
    }

    /// The number of bytes between the current offset and the buffer's end.
    pub fn remaining(&self) -> (n: usize)
        ensures
            n == self.input().len() - self.offset(),
    {
        proof {
            use_type_invariant(self);
        }
        self.buffer.len() - self.pos
    }

    /// The byte at the current offset, without moving.
    pub fn peek(&self) -> (r: Result<u8, DecodeError>)
        ensures
            r == byte_at(self.input(), self.offset()),
    {
        if self.pos < self.buffer.len() {
            Ok(self.buffer[self.pos])
        } else {
            Err(DecodeError::UnexpectedEof(self.pos))
        }
    }

    /// Moves forward by `n` bytes, or fails and stays if fewer than `n`
    /// bytes remain.
    pub fn advance(&mut self, n: usize) -> (r: Result<(), DecodeError>)
        ensures
            final(self).input() == old(self).input(),
            r == match bytes_at(old(self).input(), old(self).offset(), n as int) {
                Ok(_) => Ok::<(), DecodeError>(()),
                Err(e) => Err(e),
            },
            final(self).offset() == if r is Ok {
                old(self).offset() + n
            } else {
                old(self).offset()
            },
    {
        proof {
            use_type_invariant(&*self);
        }
        if n <= self.buffer.len() - self.pos {
            self.pos = self.pos + n;
            Ok(())
        } else {
            Err(DecodeError::UnexpectedEof(self.pos))
        }
    }

    /// The next `n` bytes, without moving.
    pub fn slice(&self, n: usize) -> (r: Result<&'a [u8], DecodeError>)
        ensures
            match r {
                Ok(bytes) => bytes_at(self.input(), self.offset(), n as int) == Ok::<
                    Seq<u8>,
                    DecodeError,
                >(bytes@),
                Err(e) => bytes_at(self.input(), self.offset(), n as int) == Err::<
                    Seq<u8>,
                    DecodeError,
                >(e),
            },
    {
        proof {
            use_type_invariant(self);
        }
        if n <= self.buffer.len() - self.pos {
            Ok(&self.buffer[self.pos..self.pos + n])
        } else {
            Err(DecodeError::UnexpectedEof(self.pos))
        }
    }
}

} // verus!
