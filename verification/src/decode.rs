use vstd::prelude::*;
use crate::ascii::{byte_is_digit, is_digit, DICT_TAG, END, INTEGER_TAG, LIST_TAG, NEWLINE};
use crate::cursor::Cursor;
use crate::decode_lemmas::lemma_parse_value_bounds;
use crate::error::DecodeError;
use crate::scalar::{
    lemma_parse_byte_string_bounds, parse_byte_string, parse_int, spec_parse_byte_string,
    spec_parse_int,
};
use crate::value::{dict_insert, list_view, Bencode, Dict, Value};

verus! {

/// How many lists and dictionaries [`decode`] and [`parse_torrent_file`]
/// allow inside one another, the outermost included.
pub const MAX_DEPTH: usize = 128;

/// The error that a list reports when decoding one of its items failed with
/// `e`: a buffer that ends inside a list is an unterminated list.
pub open spec fn inside_list(e: DecodeError) -> DecodeError {
    match e {
        DecodeError::UnexpectedEof(at) => DecodeError::UnterminatedList(at),
        _ => e,
    }
}

/// The error that a dictionary reports when decoding one of its keys or
/// values failed with `e`: a buffer that ends inside a dictionary is an
/// unterminated dictionary.
pub open spec fn inside_dict(e: DecodeError) -> DecodeError {
    match e {
        DecodeError::UnexpectedEof(at) => DecodeError::UnterminatedDict(at),
        _ => e,
    }
}

/// Decodes the value that starts at offset `at`, where lists and
/// dictionaries may be nested `depth` deep, and gives the value and the
/// offset behind it.
///
/// The first byte decides the type: `i` an integer, `l` a list, `d` a
/// dictionary, and any other byte a byte string.
pub open spec fn spec_parse_value(input: Seq<u8>, at: int, depth: nat) -> Result<
    (Bencode, int),
    DecodeError,
>
    decreases depth, input.len() - at, 3nat,
{
    if !(0 <= at < input.len()) {
        Err(DecodeError::UnexpectedEof(at as usize))
    } else if input[at] == INTEGER_TAG {
        match spec_parse_int(input, at) {
            Ok((n, end)) => Ok((Bencode::Integer(n), end)),
            Err(e) => Err(e),
        }
    } else if input[at] == LIST_TAG {
        match spec_parse_list(input, at, depth) {
            Ok((items, end)) => Ok((Bencode::List(items), end)),
            Err(e) => Err(e),
        }
    } else if input[at] == DICT_TAG {
        match spec_parse_dict(input, at, depth) {
            Ok((entries, end)) => Ok((Bencode::Dict(entries), end)),
            Err(e) => Err(e),
        }
    } else {
        match spec_parse_byte_string(input, at) {
            Ok((bytes, end)) => Ok((Bencode::ByteString(bytes), end)),
            Err(e) => Err(e),
        }
    }
}

/// Decodes the list `l` value* `e` that starts at offset `at`, itself
/// counted in the `depth` levels of nesting allowed, and gives its items and
/// the offset behind its `e`.
pub open spec fn spec_parse_list(input: Seq<u8>, at: int, depth: nat) -> Result<
    (Seq<Bencode>, int),
    DecodeError,
>
    decreases depth, input.len() - at, 2nat,
{
    if !(0 <= at < input.len()) {
        Err(DecodeError::UnexpectedEof(at as usize))
    } else if input[at] != LIST_TAG {
        Err(DecodeError::UnexpectedTopLevelType(at as usize))
    } else if depth == 0 {
        Err(DecodeError::NestingTooDeep(at as usize))
    } else {
        spec_parse_list_items(input, at + 1, (depth - 1) as nat, Seq::empty())
    }
}

/// Decodes the rest of a list from offset `at` on, after the items `items`:
/// further items up to the closing `e`. The buffer ending before the `e` is
/// `UnterminatedList`.
///
/// A value spans at least one byte
/// ([`crate::decode_lemmas::lemma_parse_value_bounds`]), so the decoding
/// always moves on: the last branch is there for the definition to be
/// well-founded and is never taken.
pub open spec fn spec_parse_list_items(
    input: Seq<u8>,
    at: int,
    depth: nat,
    items: Seq<Bencode>,
) -> Result<(Seq<Bencode>, int), DecodeError>
    decreases depth, input.len() - at, 4nat,
{
    if !(0 <= at < input.len()) {
        Err(DecodeError::UnterminatedList(at as usize))
    } else if input[at] == END {
        Ok((items, at + 1))
    } else {
        match spec_parse_value(input, at, depth) {
            Err(e) => Err(inside_list(e)),
            Ok((item, next)) => {
                if at < next <= input.len() {
                    spec_parse_list_items(input, next, depth, items.push(item))
                } else {
                    Err(DecodeError::UnterminatedList(at as usize))
                }
            },
        }
    }
}

/// Decodes the dictionary `d` (byte string, value)* `e` that starts at
/// offset `at`, itself counted in the `depth` levels of nesting allowed, and
/// gives its entries and the offset behind its `e`.
pub open spec fn spec_parse_dict(input: Seq<u8>, at: int, depth: nat) -> Result<
    (Seq<(Seq<u8>, Bencode)>, int),
    DecodeError,
>
    decreases depth, input.len() - at, 2nat,
{
    if !(0 <= at < input.len()) {
        Err(DecodeError::UnexpectedEof(at as usize))
    } else if input[at] != DICT_TAG {
        Err(DecodeError::UnexpectedTopLevelType(at as usize))
    } else if depth == 0 {
        Err(DecodeError::NestingTooDeep(at as usize))
    } else {
        spec_parse_dict_entries(input, at + 1, (depth - 1) as nat, Seq::empty())
    }
}

/// Decodes the rest of a dictionary from offset `at` on, after the entries
/// `entries`: further keys, each with its value, up to the closing `e`. Each
/// pair is stored as [`dict_insert`] says, so of two values under one key
/// the later one stays. A key that does not start with a digit is
/// `NonByteStringKey`, and the buffer ending before the `e` is
/// `UnterminatedDict`.
///
/// A key and a value span at least one byte each
/// ([`crate::scalar::lemma_parse_byte_string_bounds`],
/// [`crate::decode_lemmas::lemma_parse_value_bounds`]), so the decoding
/// always moves on: the two last branches are there for the definition to be
/// well-founded and are never taken.
pub open spec fn spec_parse_dict_entries(
    input: Seq<u8>,
    at: int,
    depth: nat,
    entries: Seq<(Seq<u8>, Bencode)>,
) -> Result<(Seq<(Seq<u8>, Bencode)>, int), DecodeError>
    decreases depth, input.len() - at, 4nat,
{
    if !(0 <= at < input.len()) {
        Err(DecodeError::UnterminatedDict(at as usize))
    } else if input[at] == END {
        Ok((entries, at + 1))
    } else if !is_digit(input[at]) {
        Err(DecodeError::NonByteStringKey(at as usize))
    } else {
        match spec_parse_byte_string(input, at) {
            Err(e) => Err(inside_dict(e)),
            Ok((key, middle)) => {
                if at < middle <= input.len() {
                    match spec_parse_value(input, middle, depth) {
                        Err(e) => Err(inside_dict(e)),
                        Ok((value, next)) => {
                            if middle < next <= input.len() {
                                spec_parse_dict_entries(
                                    input,
                                    next,
                                    depth,
                                    dict_insert(entries, key, value),
                                )
                            } else {
                                Err(DecodeError::UnterminatedDict(at as usize))
                            }
                        },
                    }
                } else {
                    Err(DecodeError::UnterminatedDict(at as usize))
                }
            },
        }
    }
}

/// Whether the buffer may end as it does behind a top-level value that ends
/// before offset `at`: nothing may follow the value but one line feed that is
/// the buffer's last byte. The first byte that follows otherwise is an
/// `UnexpectedTopLevelType`.
pub open spec fn spec_expect_end(input: Seq<u8>, at: int) -> Result<(), DecodeError> {
    if at >= input.len() {
        Ok(())
    } else if input[at] == NEWLINE && at + 1 == input.len() {
        Ok(())
    } else {
        Err(DecodeError::UnexpectedTopLevelType(at as usize))
    }
}

/// The value that a whole buffer encodes: one value of any type from the
/// first byte on, nested at most [`MAX_DEPTH`] deep, and behind it what
/// [`spec_expect_end`] allows.
pub open spec fn spec_decode(input: Seq<u8>) -> Result<Bencode, DecodeError> {
    match spec_parse_value(input, 0, MAX_DEPTH as nat) {
        Err(e) => Err(e),
        Ok((value, end)) => match spec_expect_end(input, end) {
            Err(e) => Err(e),
            Ok(_) => Ok(value),
        },
    }
}

/// The entries of the dictionary that a whole metainfo buffer encodes: one
/// dictionary from the first byte on, nested at most [`MAX_DEPTH`] deep, and
/// behind it what [`spec_expect_end`] allows. An empty buffer is an
/// `UnexpectedEof`, and a first byte other than `d` an
/// `UnexpectedTopLevelType`.
pub open spec fn spec_parse_torrent_file(input: Seq<u8>) -> Result<
    Seq<(Seq<u8>, Bencode)>,
    DecodeError,
> {
    match spec_parse_dict(input, 0, MAX_DEPTH as nat) {
        Err(e) => Err(e),
        Ok((entries, end)) => match spec_expect_end(input, end) {
            Err(e) => Err(e),
            Ok(_) => Ok(entries),
        },
    }
}

/// Turns the error of an item into the error of the list around it.
fn list_error(e: DecodeError) -> (r: DecodeError)
    ensures
        r == inside_list(e),
{
    match e {
        DecodeError::UnexpectedEof(at) => DecodeError::UnterminatedList(at),
        _ => e,
    }
}

/// Turns the error of a key or a value into the error of the dictionary
/// around it.
fn dict_error(e: DecodeError) -> (r: DecodeError)
    ensures
        r == inside_dict(e),
{
    match e {
        DecodeError::UnexpectedEof(at) => DecodeError::UnterminatedDict(at),
        _ => e,
    }
}

/// Checks that nothing follows the cursor but at most one final line feed.
fn expect_end(cursor: &Cursor) -> (r: Result<(), DecodeError>)
    ensures
        r == spec_expect_end(cursor.input(), cursor.offset()),
{
    let at = cursor.position();
    match cursor.peek() {
        Err(_) => Ok(()),
        Ok(b) => {
            if b == NEWLINE && cursor.remaining() == 1 {
                Ok(())
            } else {
                Err(DecodeError::UnexpectedTopLevelType(at))
            }
        },
    }
}

/// Decodes the value at the cursor, of whatever type, and moves behind it;
/// lists and dictionaries may be nested `depth` deep. On an error the cursor
/// stays at the offset of the fault.
pub fn parse_value(cursor: &mut Cursor, depth: usize) -> (r: Result<Value, DecodeError>)
    ensures
        final(cursor).input() == old(cursor).input(),
        match r {
            Ok(value) => spec_parse_value(old(cursor).input(), old(cursor).offset(), depth as nat)
                == Ok::<(Bencode, int), DecodeError>((value@, final(cursor).offset())),
            Err(e) => {
                &&& spec_parse_value(old(cursor).input(), old(cursor).offset(), depth as nat)
                    == Err::<(Bencode, int), DecodeError>(e)
                &&& e.offset() matches Some(at) && final(cursor).offset() == at
            },
        },
    decreases depth, 1nat,
{
    let _ = cursor.position();
    let tag = match cursor.peek() {
        Ok(b) => b,
        Err(e) => {
            return Err(e);
        },
    };
    if tag == INTEGER_TAG {
        match parse_int(cursor) {
            Ok(n) => Ok(Value::Integer(n)),
            Err(e) => Err(e),
        }
    } else if tag == LIST_TAG {
        match parse_list(cursor, depth) {
            Ok(items) => Ok(Value::List(items)),
            Err(e) => Err(e),
        }
    } else if tag == DICT_TAG {
        match parse_dict(cursor, depth) {
            Ok(dict) => Ok(Value::Dict(dict)),
            Err(e) => Err(e),
        }
    } else {
        match parse_byte_string(cursor) {
            Ok(bytes) => Ok(Value::ByteString(bytes)),
            Err(e) => Err(e),
        }
    }
}

/// Decodes the list at the cursor and moves behind its `e`; the list itself
/// counts as one of the `depth` levels of nesting allowed. On an error the
/// cursor stays at the offset of the fault.
pub fn parse_list(cursor: &mut Cursor, depth: usize) -> (r: Result<Vec<Value>, DecodeError>)
    ensures
        final(cursor).input() == old(cursor).input(),
        match r {
            Ok(items) => spec_parse_list(old(cursor).input(), old(cursor).offset(), depth as nat)
                == Ok::<(Seq<Bencode>, int), DecodeError>(
                (list_view(items@), final(cursor).offset()),
            ),
            Err(e) => {
                &&& spec_parse_list(old(cursor).input(), old(cursor).offset(), depth as nat)
                    == Err::<(Seq<Bencode>, int), DecodeError>(e)
                &&& e.offset() matches Some(at) && final(cursor).offset() == at
            },
        },
    decreases depth, 0nat,
{
    let start = cursor.position();
    match cursor.peek() {
        Err(e) => {
            return Err(e);
        },
        Ok(tag) => {
            if tag != LIST_TAG {
                return Err(DecodeError::UnexpectedTopLevelType(start));
            }
        },
    }
    if depth == 0 {
        return Err(DecodeError::NestingTooDeep(start));
    }
    let _ = cursor.advance(1);
    let mut items: Vec<Value> = Vec::new();
    assert(list_view(items@) =~= Seq::<Bencode>::empty());
    loop
        invariant
            cursor.input() == old(cursor).input(),
            depth > 0,
            spec_parse_list(old(cursor).input(), old(cursor).offset(), depth as nat)
                == spec_parse_list_items(
                cursor.input(),
                cursor.offset(),
                (depth - 1) as nat,
                list_view(items@),
            ),
        decreases cursor.input().len() - cursor.offset(),
    {
        let at = cursor.position();
        match cursor.peek() {
            Err(_) => {
                return Err(DecodeError::UnterminatedList(at));
            },
            Ok(b) => {
                if b == END {
                    let _ = cursor.advance(1);
                    return Ok(items);
                }
            },
        }
        match parse_value(cursor, depth - 1) {
            Err(e) => {
                return Err(list_error(e));
            },
            Ok(item) => {
                proof {
                    lemma_parse_value_bounds(cursor.input(), at as int, (depth - 1) as nat);
                    assert(list_view(items@.push(item)) =~= list_view(items@).push(item@));
                }
                items.push(item);
            },
        }
    }
}

/// Decodes the dictionary at the cursor and moves behind its `e`; the
/// dictionary itself counts as one of the `depth` levels of nesting allowed.
/// Of two values under one key the later one stays. On an error the cursor
/// stays at the offset of the fault.
pub fn parse_dict(cursor: &mut Cursor, depth: usize) -> (r: Result<Dict, DecodeError>)
    ensures
        final(cursor).input() == old(cursor).input(),
        match r {
            Ok(dict) => spec_parse_dict(old(cursor).input(), old(cursor).offset(), depth as nat)
                == Ok::<(Seq<(Seq<u8>, Bencode)>, int), DecodeError>(
                (dict@, final(cursor).offset()),
            ),
            Err(e) => {
                &&& spec_parse_dict(old(cursor).input(), old(cursor).offset(), depth as nat)
                    == Err::<(Seq<(Seq<u8>, Bencode)>, int), DecodeError>(e)
                &&& e.offset() matches Some(at) && final(cursor).offset() == at
            },
        },
    decreases depth, 0nat,
{
    let start = cursor.position();
    match cursor.peek() {
        Err(e) => {
            return Err(e);
        },
        Ok(tag) => {
            if tag != DICT_TAG {
                return Err(DecodeError::UnexpectedTopLevelType(start));
            }
        },
    }
    if depth == 0 {
        return Err(DecodeError::NestingTooDeep(start));
    }
    let _ = cursor.advance(1);
    let mut dict = Dict::new();
    loop
        invariant
            cursor.input() == old(cursor).input(),
            depth > 0,
            spec_parse_dict(old(cursor).input(), old(cursor).offset(), depth as nat)
                == spec_parse_dict_entries(
                cursor.input(),
                cursor.offset(),
                (depth - 1) as nat,
                dict@,
            ),
        decreases cursor.input().len() - cursor.offset(),
    {
        let at = cursor.position();
        match cursor.peek() {
            Err(_) => {
                return Err(DecodeError::UnterminatedDict(at));
            },
            Ok(b) => {
                if b == END {
                    let _ = cursor.advance(1);
                    return Ok(dict);
                }
                if !byte_is_digit(b) {
                    return Err(DecodeError::NonByteStringKey(at));
                }
            },
        }
        let key = match parse_byte_string(cursor) {
            Ok(key) => key,
            Err(e) => {
                return Err(dict_error(e));
            },
        };
        let middle = cursor.position();
        proof {
            lemma_parse_byte_string_bounds(cursor.input(), at as int);
        }
        let value = match parse_value(cursor, depth - 1) {
            Ok(value) => value,
            Err(e) => {
                return Err(dict_error(e));
            },
        };
        proof {
            lemma_parse_value_bounds(cursor.input(), middle as int, (depth - 1) as nat);
        }
        dict.insert(key, value);
    }
}

/// Decodes a buffer that holds one value of any type.
///
/// The value must start at the first byte, and nothing may follow it but one
/// final line feed. Nothing of the value is returned unless all of the
/// buffer was decoded.
pub fn decode(buffer: &[u8]) -> (r: Result<Value, DecodeError>)
    ensures
        match r {
            Ok(value) => spec_decode(buffer@) == Ok::<Bencode, DecodeError>(value@),
            Err(e) => spec_decode(buffer@) == Err::<Bencode, DecodeError>(e),
        },
{
    let mut cursor = Cursor::new(buffer);
    let value = match parse_value(&mut cursor, MAX_DEPTH) {
        Ok(value) => value,
        Err(e) => {
            return Err(e);
        },
    };
    match expect_end(&cursor) {
        Ok(_) => Ok(value),
        Err(e) => Err(e),
    }
}

/// Decodes the buffer of a metainfo file, which holds one dictionary.
///
/// The dictionary must start at the first byte, and nothing may follow it
/// but one final line feed. Nothing of the dictionary is returned unless all
/// of the buffer was decoded.
pub fn parse_torrent_file(buffer: &[u8]) -> (r: Result<Dict, DecodeError>)
    ensures
        match r {
            Ok(dict) => spec_parse_torrent_file(buffer@) == Ok::<
                Seq<(Seq<u8>, Bencode)>,
                DecodeError,
            >(dict@),
            Err(e) => spec_parse_torrent_file(buffer@) == Err::<
                Seq<(Seq<u8>, Bencode)>,
                DecodeError,
            >(e),
        },
{
    let mut cursor = Cursor::new(buffer);
    let dict = match parse_dict(&mut cursor, MAX_DEPTH) {
        Ok(dict) => dict,
        Err(e) => {
            return Err(e);
        },
    };
    match expect_end(&cursor) {
        Ok(_) => Ok(dict),
        Err(e) => Err(e),
    }
}

} // verus!
