use vstd::prelude::*;

verus! {

/// Why a buffer could not be decoded, or why a field could not be read from a
/// decoded dictionary.
///
/// Every variant raised while decoding carries the byte offset at which the
/// decoder stood when it detected the failure.
#[derive(Debug, Clone, Copy, PartialEq, Eq)]
pub enum DecodeError {
    /// More bytes were needed than the buffer still held.
    UnexpectedEof(usize),
    /// An integer token violates the grammar: a byte that is not a digit, a
    /// misplaced sign, an empty digit run, a leading zero, or `-0`.
    MalformedInteger(usize),
    /// The magnitude of an integer does not fit into 64 bits.
    IntegerOverflow(usize),
    /// The length prefix of a byte string is missing, is not a plain decimal
    /// number, or does not fit into `usize`.
    MalformedLength(usize),
    /// The buffer ended inside a list.
    UnterminatedList(usize),
    /// The buffer ended inside a dictionary.
    UnterminatedDict(usize),
    /// A dictionary key does not start with the digit of a length prefix.
    NonByteStringKey(usize),
    /// Lists and dictionaries are nested more deeply than the decoder allows.
    NestingTooDeep(usize),
    /// The byte at the top level is not one that may stand there: the buffer
    /// does not start with the tag of the type asked for, or bytes follow the
    /// decoded value.
    UnexpectedTopLevelType(usize),
    /// A required field is absent from the dictionary.
    MissingField(&'static str),
    /// A field that should hold text is no byte string, or its bytes are not
    /// valid UTF-8.
    InvalidText,
}

impl DecodeError {
    /// The offset that the error carries, if it was raised while decoding.
    pub open spec fn spec_offset(&self) -> Option<usize> {
        match *self {
            DecodeError::UnexpectedEof(at) => Some(at),
            DecodeError::MalformedInteger(at) => Some(at),
            DecodeError::IntegerOverflow(at) => Some(at),
            DecodeError::MalformedLength(at) => Some(at),
            DecodeError::UnterminatedList(at) => Some(at),
            DecodeError::UnterminatedDict(at) => Some(at),
            DecodeError::NonByteStringKey(at) => Some(at),
            DecodeError::NestingTooDeep(at) => Some(at),
            DecodeError::UnexpectedTopLevelType(at) => Some(at),
            DecodeError::MissingField(_) => None,
            DecodeError::InvalidText => None,
        }
    }

    /// The byte offset at which decoding failed; `None` for the errors of the
    /// field accessors, which have no position in a buffer.
    #[verifier::when_used_as_spec(spec_offset)]
    pub fn offset(&self) -> (r: Option<usize>)
        ensures
            r == self.spec_offset(),
    {
        match self {
            DecodeError::UnexpectedEof(at) => Some(*at),
            DecodeError::MalformedInteger(at) => Some(*at),
            DecodeError::IntegerOverflow(at) => Some(*at),
            DecodeError::MalformedLength(at) => Some(*at),
            DecodeError::UnterminatedList(at) => Some(*at),
            DecodeError::UnterminatedDict(at) => Some(*at),
            DecodeError::NonByteStringKey(at) => Some(*at),
            DecodeError::NestingTooDeep(at) => Some(*at),
            DecodeError::UnexpectedTopLevelType(at) => Some(*at),
            DecodeError::MissingField(_) => None,
            DecodeError::InvalidText => None,
        }
    }

    /// A short description of the kind of error, without the offset.
    pub open spec fn spec_describe(&self) -> &'static str {
        match *self {
            DecodeError::UnexpectedEof(_) => "unexpected end of input",
            DecodeError::MalformedInteger(_) => "malformed integer",
            DecodeError::IntegerOverflow(_) => "integer does not fit into 64 bits",
            DecodeError::MalformedLength(_) => "malformed byte string length",
            DecodeError::UnterminatedList(_) => "unterminated list",
            DecodeError::UnterminatedDict(_) => "unterminated dictionary",
            DecodeError::NonByteStringKey(_) => "dictionary key is not a byte string",
            DecodeError::NestingTooDeep(_) => "nesting too deep",
            DecodeError::UnexpectedTopLevelType(_) => "unexpected byte at top level",
            DecodeError::MissingField(_) => "missing field",
            DecodeError::InvalidText => "field is not valid text",
        }
    }

    /// Names the kind of error in words, for a message to the user.
    #[verifier::when_used_as_spec(spec_describe)]
    pub fn describe(&self) -> (r: &'static str)
        ensures
            r == self.spec_describe(),
    {
        match self {
            DecodeError::UnexpectedEof(_) => "unexpected end of input",
            DecodeError::MalformedInteger(_) => "malformed integer",
            DecodeError::IntegerOverflow(_) => "integer does not fit into 64 bits",
            DecodeError::MalformedLength(_) => "malformed byte string length",
            DecodeError::UnterminatedList(_) => "unterminated list",
            DecodeError::UnterminatedDict(_) => "unterminated dictionary",
            DecodeError::NonByteStringKey(_) => "dictionary key is not a byte string",
            DecodeError::NestingTooDeep(_) => "nesting too deep",
            DecodeError::UnexpectedTopLevelType(_) => "unexpected byte at top level",
            DecodeError::MissingField(_) => "missing field",
            DecodeError::InvalidText => "field is not valid text",
        }
    }
}

} // verus!
