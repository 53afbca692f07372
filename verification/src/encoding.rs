use vstd::prelude::*;
use crate::ascii::{COLON, DICT_TAG, END, INTEGER_TAG, LIST_TAG, MINUS};
use crate::number::decimal_digits;
use crate::value::Bencode;

verus! {

/// The encoding of an integer: `i`, a `-` if it is negative, the digits of
/// its magnitude, and `e`.
pub open spec fn encode_integer(n: int) -> Seq<u8> {
    if n < 0 {
        seq![INTEGER_TAG, MINUS] + decimal_digits((-n) as nat) + seq![END]
    } else {
        seq![INTEGER_TAG] + decimal_digits(n as nat) + seq![END]
    }
}

/// The encoding of a byte string: the digits of its length, `:`, and its
/// bytes.
pub open spec fn encode_byte_string(bytes: Seq<u8>) -> Seq<u8> {
    decimal_digits(bytes.len()) + seq![COLON] + bytes
}

/// The encoding of a value. A list is `l`, the encodings of its items, and
/// `e`; a dictionary is `d`, for each entry the encodings of its key and of
/// its value, and `e`. The entries are written in the order in which the
/// dictionary holds them, each of them, whether or not its key occurs again.
pub open spec fn encode(value: Bencode) -> Seq<u8>
    decreases value,
{
    match value {
        Bencode::Integer(n) => encode_integer(n),
        Bencode::ByteString(bytes) => encode_byte_string(bytes),
        Bencode::List(items) => seq![LIST_TAG] + encode_items(items) + seq![END],
        Bencode::Dict(entries) => seq![DICT_TAG] + encode_entries(entries) + seq![END],
    }
}

/// The encodings of the items of a list, one after another.
pub open spec fn encode_items(items: Seq<Bencode>) -> Seq<u8>
    decreases items,
{
    if items.len() == 0 {
        Seq::empty()
    } else {
        encode(items.first()) + encode_items(items.drop_first())
    }
}

/// The encodings of the entries of a dictionary, one after another, each a
/// key and its value.
pub open spec fn encode_entries(entries: Seq<(Seq<u8>, Bencode)>) -> Seq<u8>
    decreases entries,
{
    if entries.len() == 0 {
        Seq::empty()
    } else {
        encode_byte_string(entries.first().0) + encode(entries.first().1) + encode_entries(
            entries.drop_first(),
        )
    }
}

/// Whether the bytes `encoded` stand in `input` from offset `at` on.
pub open spec fn stands_at(input: Seq<u8>, at: int, encoded: Seq<u8>) -> bool {
    &&& 0 <= at
    &&& at + encoded.len() <= input.len()
    &&& input.subrange(at, at + encoded.len()) == encoded
}

} // verus!
