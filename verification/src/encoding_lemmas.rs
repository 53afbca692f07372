use vstd::prelude::*;
use crate::ascii::{is_digit, COLON, DICT_TAG, END, INTEGER_TAG, LIST_TAG, MINUS, NEWLINE};
use crate::decode::{
    spec_decode, spec_parse_dict_entries, spec_parse_list_items, spec_parse_value, MAX_DEPTH,
};
use crate::decode_lemmas::{lemma_decoded_is_well_formed, lemma_parse_value_bounds};
use crate::encoding::{
    encode, encode_byte_string, encode_entries, encode_integer, encode_items, stands_at,
};
use crate::error::DecodeError;
use crate::number::{
    decimal_digits, lemma_decimal_digits, lemma_read_decimal_digits, lemma_read_number_bounds,
    lemma_read_number_is_decimal, spec_read_number,
};
use crate::scalar::{
    lemma_parse_byte_string_bounds, lemma_parse_int_bounds, magnitude_limit,
    spec_parse_byte_string, spec_parse_int,
};
use crate::value::{
    dict_get, dict_insert, find_key, insert_all, keys_distinct, last_under, lemma_find_key,
    lemma_insert_all_keeps_last, normalized_entries, normalized_items, Bencode,
};

verus! {

/// Where two byte sequences stand one after the other, each of them stands
/// at its place.
pub proof fn lemma_stands_at_split(input: Seq<u8>, at: int, first: Seq<u8>, second: Seq<u8>)
    requires
        stands_at(input, at, first + second),
    ensures
        stands_at(input, at, first),
        stands_at(input, at + first.len(), second),
{
    let both = first + second;
    assert(input.subrange(at, at + first.len()) =~= both.subrange(0, first.len() as int));
    assert(both.subrange(0, first.len() as int) =~= first);
    assert(input.subrange(at + first.len(), at + first.len() + second.len()) =~= both.subrange(
        first.len() as int,
        both.len() as int,
    ));
    assert(both.subrange(first.len() as int, both.len() as int) =~= second);
}

/// Where two byte sequences stand, the second behind the first, the two of
/// them stand as one.
pub proof fn lemma_stands_at_join(input: Seq<u8>, at: int, first: Seq<u8>, second: Seq<u8>)
    requires
        stands_at(input, at, first),
        stands_at(input, at + first.len(), second),
    ensures
        stands_at(input, at, first + second),
{
    let both = first + second;
    assert forall|i: int| 0 <= i < both.len() implies input.subrange(at, at + both.len())[i]
        == both[i] by {
        if i < first.len() {
            assert(input.subrange(at, at + first.len())[i] == first[i]);
        } else {
            assert(input.subrange(at + first.len(), at + first.len() + second.len())[i
                - first.len()] == second[i - first.len()]);
        }
    }
    assert(input.subrange(at, at + both.len()) =~= both);
}

/// An encoding is not empty, and its first byte tells the type of the
/// value: `i`, `l` or `d`, or the first digit of a byte string's length.
pub proof fn lemma_encode_starts_with_tag(value: Bencode)
    ensures
        encode(value).len() > 0,
        match value {
            Bencode::Integer(_) => encode(value)[0] == INTEGER_TAG,
            Bencode::ByteString(_) => is_digit(encode(value)[0]),
            Bencode::List(_) => encode(value)[0] == LIST_TAG,
            Bencode::Dict(_) => encode(value)[0] == DICT_TAG,
        },
{
    match value {
        Bencode::ByteString(bytes) => {
            lemma_decimal_digits(bytes.len());
            assert(encode(value)[0] == decimal_digits(bytes.len())[0]);
        },
        _ => {},
    }
}

/// An integer of 64 bits is decoded from its encoding, wherever in a buffer
/// the encoding stands.
pub proof fn lemma_parse_encoded_integer(input: Seq<u8>, at: int, n: int)
    requires
        i64::MIN <= n <= i64::MAX,
        stands_at(input, at, encode_integer(n)),
    ensures
        spec_parse_int(input, at) == Ok::<(int, int), DecodeError>(
            (n, at + encode_integer(n).len()),
        ),
{
    let encoded = encode_integer(n);
    let negative = n < 0;
    let magnitude = if negative {
        (-n) as nat
    } else {
        n as nat
    };
    let digits = decimal_digits(magnitude);
    let start = if negative {
        at + 2
    } else {
        at + 1
    };
    lemma_decimal_digits(magnitude);
    assert(input[at] == encoded[0]);
    assert(input[at + 1] == encoded[1]);
    assert(encoded[start - at] == digits[0]);
    assert(input[start + digits.len()] == encoded[start - at + digits.len()]);
    assert(input.subrange(start, start + digits.len()) =~= digits) by {
        assert forall|i: int| 0 <= i < digits.len() implies input.subrange(
            start,
            start + digits.len(),
        )[i] == digits[i] by {
            assert(input[start + i] == encoded[start - at + i]);
        }
    }
    lemma_read_decimal_digits(input, start, magnitude, magnitude_limit(negative));
}

/// A byte string whose length fits into `usize` is decoded from its
/// encoding, wherever in a buffer the encoding stands.
pub proof fn lemma_parse_encoded_byte_string(input: Seq<u8>, at: int, bytes: Seq<u8>)
    requires
        bytes.len() <= usize::MAX,
        stands_at(input, at, encode_byte_string(bytes)),
    ensures
        spec_parse_byte_string(input, at) == Ok::<(Seq<u8>, int), DecodeError>(
            (bytes, at + encode_byte_string(bytes).len()),
        ),
{
    let digits = decimal_digits(bytes.len());
    lemma_decimal_digits(bytes.len());
    lemma_stands_at_split(input, at, digits + seq![COLON], bytes);
    lemma_stands_at_split(input, at, digits, seq![COLON]);
    assert(input[at + digits.len()] == input.subrange(
        at + digits.len(),
        at + digits.len() + 1,
    )[0]);
    lemma_read_decimal_digits(input, at, bytes.len(), usize::MAX as nat);
}

/// A value whose numbers fit and that is nested no deeper than allowed is
/// decoded from its encoding, wherever in a buffer the encoding stands, as
/// dictionaries hold it.
pub proof fn lemma_parse_encoded_value(input: Seq<u8>, at: int, value: Bencode, depth: nat)
    requires
        value.fits(),
        value.nests_within(depth),
        stands_at(input, at, encode(value)),
    ensures
        spec_parse_value(input, at, depth) == Ok::<(Bencode, int), DecodeError>(
            (value.normalized(), at + encode(value).len()),
        ),
    decreases value,
{
    lemma_encode_starts_with_tag(value);
    assert(input[at] == encode(value)[0]);
    match value {
        Bencode::Integer(n) => {
            lemma_parse_encoded_integer(input, at, n);
        },
        Bencode::ByteString(bytes) => {
            lemma_parse_encoded_byte_string(input, at, bytes);
        },
        Bencode::List(items) => {
            let rest = encode_items(items) + seq![END];
            assert(encode(value) =~= seq![LIST_TAG] + rest);
            lemma_stands_at_split(input, at, seq![LIST_TAG], rest);
            lemma_parse_encoded_items(input, at + 1, items, (depth - 1) as nat, Seq::empty());
            assert(Seq::<Bencode>::empty() + normalized_items(items) =~= normalized_items(items));
        },
        Bencode::Dict(entries) => {
            let rest = encode_entries(entries) + seq![END];
            assert(encode(value) =~= seq![DICT_TAG] + rest);
            lemma_stands_at_split(input, at, seq![DICT_TAG], rest);
            lemma_parse_encoded_entries(input, at + 1, entries, (depth - 1) as nat, Seq::empty());
        },
    }
}

/// The rest of a list is decoded from the encodings of its items and the
/// closing `e`, after the items decoded before.
pub proof fn lemma_parse_encoded_items(
    input: Seq<u8>,
    at: int,
    items: Seq<Bencode>,
    depth: nat,
    before: Seq<Bencode>,
)
    requires
        forall|i: int| 0 <= i < items.len() ==> (#[trigger] items[i]).fits(),
        forall|i: int| 0 <= i < items.len() ==> (#[trigger] items[i]).nests_within(depth),
        stands_at(input, at, encode_items(items) + seq![END]),
    ensures
        spec_parse_list_items(input, at, depth, before) == Ok::<(Seq<Bencode>, int), DecodeError>(
            (before + normalized_items(items), at + encode_items(items).len() + 1),
        ),
    decreases items,
{
    let rest = encode_items(items) + seq![END];
    assert(input[at] == rest[0]);
    if items.len() == 0 {
        assert(before + normalized_items(items) =~= before);
    } else {
        let item = items.first();
        let others = items.drop_first();
        let after = encode_items(others) + seq![END];
        assert(rest =~= encode(item) + after);
        lemma_stands_at_split(input, at, encode(item), after);
        lemma_encode_starts_with_tag(item);
        assert(rest[0] == encode(item)[0]);
        lemma_parse_encoded_value(input, at, item, depth);
        assert forall|i: int| 0 <= i < others.len() implies (#[trigger] others[i]).fits()
            && others[i].nests_within(depth) by {
            assert(others[i] == items[i + 1]);
        }
        lemma_parse_encoded_items(
            input,
            at + encode(item).len(),
            others,
            depth,
            before.push(item.normalized()),
        );
        assert(before.push(item.normalized()) + normalized_items(others) =~= before
            + normalized_items(items)) by {
            assert forall|i: int| 0 <= i < others.len() implies normalized_items(others)[i]
                == normalized_items(items)[i + 1] by {
                assert(others[i] == items[i + 1]);
            }
        }
    }
}

/// The rest of a dictionary is decoded from the encodings of its entries and
/// the closing `e`, after the entries stored before.
pub proof fn lemma_parse_encoded_entries(
    input: Seq<u8>,
    at: int,
    entries: Seq<(Seq<u8>, Bencode)>,
    depth: nat,
    before: Seq<(Seq<u8>, Bencode)>,
)
    requires
        forall|i: int| 0 <= i < entries.len() ==> (#[trigger] entries[i]).0.len() <= usize::MAX,
        forall|i: int| 0 <= i < entries.len() ==> (#[trigger] entries[i]).1.fits(),
        forall|i: int| 0 <= i < entries.len() ==> (#[trigger] entries[i]).1.nests_within(depth),
        stands_at(input, at, encode_entries(entries) + seq![END]),
    ensures
        spec_parse_dict_entries(input, at, depth, before) == Ok::<
            (Seq<(Seq<u8>, Bencode)>, int),
            DecodeError,
        >(
            (
                insert_all(before, normalized_entries(entries)),
                at + encode_entries(entries).len() + 1,
            ),
        ),
    decreases entries,
{
    let rest = encode_entries(entries) + seq![END];
    assert(input[at] == rest[0]);
    if entries.len() > 0 {
        let key = entries.first().0;
        let value = entries.first().1;
        let others = entries.drop_first();
        let after = encode_entries(others) + seq![END];
        assert(rest =~= encode_byte_string(key) + (encode(value) + after));
        lemma_stands_at_split(input, at, encode_byte_string(key), encode(value) + after);
        lemma_stands_at_split(input, at + encode_byte_string(key).len(), encode(value), after);
        lemma_decimal_digits(key.len());
        assert(rest[0] == decimal_digits(key.len())[0]);
        lemma_parse_encoded_byte_string(input, at, key);
        lemma_parse_encoded_value(input, at + encode_byte_string(key).len(), value, depth);
        lemma_encode_starts_with_tag(value);
        assert forall|i: int| 0 <= i < others.len() implies (#[trigger] others[i]).0.len()
            <= usize::MAX && others[i].1.fits() && others[i].1.nests_within(depth) by {
            assert(others[i] == entries[i + 1]);
        }
        lemma_parse_encoded_entries(
            input,
            at + encode_byte_string(key).len() + encode(value).len(),
            others,
            depth,
            dict_insert(before, key, value.normalized()),
        );
        assert(normalized_entries(entries).first() == (key, value.normalized()));
        assert(normalized_entries(entries).drop_first() =~= normalized_entries(others)) by {
            assert forall|i: int| 0 <= i < others.len() implies normalized_entries(others)[i]
                == normalized_entries(entries)[i + 1] by {
                assert(others[i] == entries[i + 1]);
            }
        }
    }
}

/// A value whose numbers fit but that is nested deeper than allowed is
/// rejected as nested too deeply, wherever in a buffer its encoding stands.
pub proof fn lemma_parse_encoded_too_deep(input: Seq<u8>, at: int, value: Bencode, depth: nat)
    requires
        value.fits(),
        !value.nests_within(depth),
        stands_at(input, at, encode(value)),
    ensures
        spec_parse_value(input, at, depth) matches Err(DecodeError::NestingTooDeep(_)),
    decreases value,
{
    lemma_encode_starts_with_tag(value);
    assert(input[at] == encode(value)[0]);
    match value {
        Bencode::List(items) => {
            if depth > 0 {
                let rest = encode_items(items) + seq![END];
                assert(encode(value) =~= seq![LIST_TAG] + rest);
                lemma_stands_at_split(input, at, seq![LIST_TAG], rest);
                lemma_parse_encoded_items_too_deep(
                    input,
                    at + 1,
                    items,
                    (depth - 1) as nat,
                    Seq::empty(),
                );
            }
        },
        Bencode::Dict(entries) => {
            if depth > 0 {
                let rest = encode_entries(entries) + seq![END];
                assert(encode(value) =~= seq![DICT_TAG] + rest);
                lemma_stands_at_split(input, at, seq![DICT_TAG], rest);
                lemma_parse_encoded_entries_too_deep(
                    input,
                    at + 1,
                    entries,
                    (depth - 1) as nat,
                    Seq::empty(),
                );
            }
        },
        _ => {},
    }
}

/// The rest of a list with an item that is nested deeper than allowed is
/// rejected as nested too deeply.
pub proof fn lemma_parse_encoded_items_too_deep(
    input: Seq<u8>,
    at: int,
    items: Seq<Bencode>,
    depth: nat,
    before: Seq<Bencode>,
)
    requires
        forall|i: int| 0 <= i < items.len() ==> (#[trigger] items[i]).fits(),
        exists|i: int| 0 <= i < items.len() && !(#[trigger] items[i]).nests_within(depth),
        stands_at(input, at, encode_items(items) + seq![END]),
    ensures
        spec_parse_list_items(input, at, depth, before) matches Err(
            DecodeError::NestingTooDeep(_),
        ),
    decreases items,
{
    let deep = choose|i: int| 0 <= i < items.len() && !(#[trigger] items[i]).nests_within(depth);
    let rest = encode_items(items) + seq![END];
    let item = items.first();
    let others = items.drop_first();
    let after = encode_items(others) + seq![END];
    assert(rest =~= encode(item) + after);
    lemma_stands_at_split(input, at, encode(item), after);
    lemma_encode_starts_with_tag(item);
    assert(input[at] == rest[0]);
    assert(rest[0] == encode(item)[0]);
    if item.nests_within(depth) {
        lemma_parse_encoded_value(input, at, item, depth);
        assert(others[deep - 1] == items[deep]);
        assert forall|i: int| 0 <= i < others.len() implies (#[trigger] others[i]).fits() by {
            assert(others[i] == items[i + 1]);
        }
        lemma_parse_encoded_items_too_deep(
            input,
            at + encode(item).len(),
            others,
            depth,
            before.push(item.normalized()),
        );
    } else {
        lemma_parse_encoded_too_deep(input, at, item, depth);
    }
}

/// The rest of a dictionary with a value that is nested deeper than allowed
/// is rejected as nested too deeply.
pub proof fn lemma_parse_encoded_entries_too_deep(
    input: Seq<u8>,
    at: int,
    entries: Seq<(Seq<u8>, Bencode)>,
    depth: nat,
    before: Seq<(Seq<u8>, Bencode)>,
)
    requires
        forall|i: int| 0 <= i < entries.len() ==> (#[trigger] entries[i]).0.len() <= usize::MAX,
        forall|i: int| 0 <= i < entries.len() ==> (#[trigger] entries[i]).1.fits(),
        exists|i: int| 0 <= i < entries.len() && !(#[trigger] entries[i]).1.nests_within(depth),
        stands_at(input, at, encode_entries(entries) + seq![END]),
    ensures
        spec_parse_dict_entries(input, at, depth, before) matches Err(
            DecodeError::NestingTooDeep(_),
        ),
    decreases entries,
{
    let deep = choose|i: int|
        0 <= i < entries.len() && !(#[trigger] entries[i]).1.nests_within(depth);
    let rest = encode_entries(entries) + seq![END];
    let key = entries.first().0;
    let value = entries.first().1;
    let others = entries.drop_first();
    let after = encode_entries(others) + seq![END];
    assert(rest =~= encode_byte_string(key) + (encode(value) + after));
    lemma_stands_at_split(input, at, encode_byte_string(key), encode(value) + after);
    lemma_stands_at_split(input, at + encode_byte_string(key).len(), encode(value), after);
    lemma_decimal_digits(key.len());
    assert(input[at] == rest[0]);
    assert(rest[0] == decimal_digits(key.len())[0]);
    lemma_parse_encoded_byte_string(input, at, key);
    lemma_encode_starts_with_tag(value);
    if value.nests_within(depth) {
        lemma_parse_encoded_value(input, at + encode_byte_string(key).len(), value, depth);
        assert(others[deep - 1] == entries[deep]);
        assert forall|i: int| 0 <= i < others.len() implies (#[trigger] others[i]).0.len()
            <= usize::MAX && others[i].1.fits() by {
            assert(others[i] == entries[i + 1]);
        }
        lemma_parse_encoded_entries_too_deep(
            input,
            at + encode_byte_string(key).len() + encode(value).len(),
            others,
            depth,
            dict_insert(before, key, value.normalized()),
        );
    } else {
        lemma_parse_encoded_too_deep(input, at + encode_byte_string(key).len(), value, depth);
    }
}

/// An integer was decoded from nothing but its encoding.
pub proof fn lemma_parsed_integer_is_encoded(input: Seq<u8>, at: int)
    requires
        0 <= at <= input.len(),
    ensures
        spec_parse_int(input, at) matches Ok((n, end)) ==> {
            &&& stands_at(input, at, encode_integer(n))
            &&& end == at + encode_integer(n).len()
        },
{
    if let Ok((n, end)) = spec_parse_int(input, at) {
        let negative = input[at + 1] == MINUS;
        let start = if negative {
            at + 2
        } else {
            at + 1
        };
        let limit = magnitude_limit(negative);
        lemma_read_number_bounds(input, start, limit);
        lemma_read_number_is_decimal(input, start, limit);
        let magnitude = spec_read_number(input, start, limit)->Ok_0.0;
        let digits = decimal_digits(magnitude);
        let encoded = encode_integer(n);
        assert(input.subrange(start, end - 1) == digits);
        assert forall|i: int| 0 <= i < encoded.len() implies input.subrange(
            at,
            at + encoded.len(),
        )[i] == encoded[i] by {
            if start - at <= i < encoded.len() - 1 {
                assert(input.subrange(start, end - 1)[i - (start - at)] == digits[i - (start
                    - at)]);
            }
        }
        assert(input.subrange(at, at + encoded.len()) =~= encoded);
    }
}

/// A byte string was decoded from nothing but its encoding.
pub proof fn lemma_parsed_byte_string_is_encoded(input: Seq<u8>, at: int)
    requires
        0 <= at <= input.len(),
    ensures
        spec_parse_byte_string(input, at) matches Ok((bytes, end)) ==> {
            &&& bytes.len() <= usize::MAX
            &&& stands_at(input, at, encode_byte_string(bytes))
            &&& end == at + encode_byte_string(bytes).len()
        },
{
    if let Ok((bytes, end)) = spec_parse_byte_string(input, at) {
        lemma_read_number_bounds(input, at, usize::MAX as nat);
        lemma_read_number_is_decimal(input, at, usize::MAX as nat);
        let digits = decimal_digits(bytes.len());
        let colon = at + digits.len();
        assert(input.subrange(at, colon) == digits);
        assert(input.subrange(colon, colon + 1) =~= seq![COLON]);
        lemma_stands_at_join(input, at, digits, seq![COLON]);
        lemma_stands_at_join(input, at, digits + seq![COLON], bytes);
    }
}

/// A value was decoded from nothing but the encoding of a value: from one
/// whose numbers fit, that is nested no deeper than was allowed, and that is,
/// as dictionaries hold it, the value decoded.
pub proof fn lemma_parsed_value_is_encoded(input: Seq<u8>, at: int, depth: nat) -> (source:
    Bencode)
    requires
        0 <= at <= input.len() <= usize::MAX,
        spec_parse_value(input, at, depth) is Ok,
    ensures
        source.fits(),
        source.nests_within(depth),
        stands_at(input, at, encode(source)),
        spec_parse_value(input, at, depth) == Ok::<(Bencode, int), DecodeError>(
            (source.normalized(), at + encode(source).len()),
        ),
    decreases depth, input.len() - at, 3nat,
{
    let source = if input[at] == INTEGER_TAG {
        lemma_parse_int_bounds(input, at);
        lemma_parsed_integer_is_encoded(input, at);
        Bencode::Integer(spec_parse_int(input, at)->Ok_0.0)
    } else if input[at] == LIST_TAG {
        let items = lemma_parsed_items_are_encoded(
            input,
            at + 1,
            (depth - 1) as nat,
            Seq::empty(),
        );
        assert(input.subrange(at, at + 1) =~= seq![LIST_TAG]);
        lemma_stands_at_join(input, at, seq![LIST_TAG], encode_items(items) + seq![END]);
        assert(seq![LIST_TAG] + (encode_items(items) + seq![END]) =~= encode(
            Bencode::List(items),
        ));
        Bencode::List(items)
    } else if input[at] == DICT_TAG {
        let entries = lemma_parsed_entries_are_encoded(
            input,
            at + 1,
            (depth - 1) as nat,
            Seq::empty(),
        );
        assert(input.subrange(at, at + 1) =~= seq![DICT_TAG]);
        lemma_stands_at_join(input, at, seq![DICT_TAG], encode_entries(entries) + seq![END]);
        assert(seq![DICT_TAG] + (encode_entries(entries) + seq![END]) =~= encode(
            Bencode::Dict(entries),
        ));
        Bencode::Dict(entries)
    } else {
        lemma_parsed_byte_string_is_encoded(input, at);
        Bencode::ByteString(spec_parse_byte_string(input, at)->Ok_0.0)
    };
    lemma_parse_encoded_value(input, at, source, depth);
    source
}

/// The rest of a list was decoded from nothing but the encodings of items
/// and the closing `e`: of items whose numbers fit and that are nested no
/// deeper than was allowed.
pub proof fn lemma_parsed_items_are_encoded(
    input: Seq<u8>,
    at: int,
    depth: nat,
    before: Seq<Bencode>,
) -> (items: Seq<Bencode>)
    requires
        0 <= at <= input.len() <= usize::MAX,
        spec_parse_list_items(input, at, depth, before) is Ok,
    ensures
        forall|i: int| 0 <= i < items.len() ==> (#[trigger] items[i]).fits(),
        forall|i: int| 0 <= i < items.len() ==> (#[trigger] items[i]).nests_within(depth),
        stands_at(input, at, encode_items(items) + seq![END]),
    decreases depth, input.len() - at, 4nat,
{
    if input[at] == END {
        let items = Seq::<Bencode>::empty();
        assert(input.subrange(at, at + 1) =~= encode_items(items) + seq![END]);
        items
    } else {
        lemma_parse_value_bounds(input, at, depth);
        let item = lemma_parsed_value_is_encoded(input, at, depth);
        let next = at + encode(item).len();
        let others = lemma_parsed_items_are_encoded(
            input,
            next,
            depth,
            before.push(item.normalized()),
        );
        let items = seq![item] + others;
        assert(items.first() == item);
        assert(items.drop_first() =~= others);
        lemma_stands_at_join(input, at, encode(item), encode_items(others) + seq![END]);
        assert(encode(item) + (encode_items(others) + seq![END]) =~= encode_items(items)
            + seq![END]);
        assert forall|i: int| 0 <= i < items.len() implies (#[trigger] items[i]).fits()
            && items[i].nests_within(depth) by {
            if i > 0 {
                assert(items[i] == others[i - 1]);
            }
        }
        items
    }
}

/// The rest of a dictionary was decoded from nothing but the encodings of
/// entries and the closing `e`: of entries whose numbers fit and whose values
/// are nested no deeper than was allowed.
pub proof fn lemma_parsed_entries_are_encoded(
    input: Seq<u8>,
    at: int,
    depth: nat,
    before: Seq<(Seq<u8>, Bencode)>,
) -> (entries: Seq<(Seq<u8>, Bencode)>)
    requires
        0 <= at <= input.len() <= usize::MAX,
        spec_parse_dict_entries(input, at, depth, before) is Ok,
    ensures
        forall|i: int| 0 <= i < entries.len() ==> (#[trigger] entries[i]).0.len() <= usize::MAX,
        forall|i: int| 0 <= i < entries.len() ==> (#[trigger] entries[i]).1.fits(),
        forall|i: int| 0 <= i < entries.len() ==> (#[trigger] entries[i]).1.nests_within(depth),
        stands_at(input, at, encode_entries(entries) + seq![END]),
    decreases depth, input.len() - at, 4nat,
{
    if input[at] == END {
        let entries = Seq::<(Seq<u8>, Bencode)>::empty();
        assert(input.subrange(at, at + 1) =~= encode_entries(entries) + seq![END]);
        entries
    } else {
        lemma_parse_byte_string_bounds(input, at);
        lemma_parsed_byte_string_is_encoded(input, at);
        let (key, middle) = spec_parse_byte_string(input, at)->Ok_0;
        lemma_parse_value_bounds(input, middle, depth);
        let value = lemma_parsed_value_is_encoded(input, middle, depth);
        let next = middle + encode(value).len();
        let others = lemma_parsed_entries_are_encoded(
            input,
            next,
            depth,
            dict_insert(before, key, value.normalized()),
        );
        let entries = seq![(key, value)] + others;
        assert(entries.first() == (key, value));
        assert(entries.drop_first() =~= others);
        lemma_stands_at_join(input, middle, encode(value), encode_entries(others) + seq![END]);
        lemma_stands_at_join(
            input,
            at,
            encode_byte_string(key),
            encode(value) + (encode_entries(others) + seq![END]),
        );
        assert(encode_byte_string(key) + (encode(value) + (encode_entries(others) + seq![END]))
            =~= encode_entries(entries) + seq![END]);
        assert forall|i: int| 0 <= i < entries.len() implies (#[trigger] entries[i]).0.len()
            <= usize::MAX && entries[i].1.fits() && entries[i].1.nests_within(depth) by {
            if i > 0 {
                assert(entries[i] == others[i - 1]);
            }
        }
        entries
    }
}

/// Entries that share no key with one another nor with those stored before
/// are all stored, in their order, behind those.
pub proof fn lemma_insert_all_distinct(
    stored: Seq<(Seq<u8>, Bencode)>,
    entries: Seq<(Seq<u8>, Bencode)>,
)
    requires
        keys_distinct(stored + entries),
    ensures
        insert_all(stored, entries) == stored + entries,
    decreases entries.len(),
{
    let all = stored + entries;
    if entries.len() == 0 {
        assert(all =~= stored);
    } else {
        let first = entries.first();
        lemma_find_key(stored, first.0, 0);
        if find_key(stored, first.0, 0) < stored.len() {
            let i = find_key(stored, first.0, 0);
            assert(all[i] == stored[i]);
            assert(all[stored.len() as int] == first);
        }
        assert(stored.push(first) + entries.drop_first() =~= all);
        lemma_insert_all_distinct(stored.push(first), entries.drop_first());
    }
}

/// A value in which no dictionary holds a key twice is as dictionaries hold
/// it.
pub proof fn lemma_normalized_is_same(value: Bencode)
    requires
        value.keys_differ(),
    ensures
        value.normalized() == value,
    decreases value,
{
    match value {
        Bencode::List(items) => {
            assert forall|i: int| 0 <= i < items.len() implies normalized_items(items)[i]
                == items[i] by {
                lemma_normalized_is_same(items[i]);
            }
            assert(normalized_items(items) =~= items);
        },
        Bencode::Dict(entries) => {
            assert forall|i: int| 0 <= i < entries.len() implies normalized_entries(entries)[i]
                == entries[i] by {
                lemma_normalized_is_same(entries[i].1);
            }
            assert(normalized_entries(entries) =~= entries);
            assert(Seq::<(Seq<u8>, Bencode)>::empty() + entries =~= entries);
            lemma_insert_all_distinct(Seq::empty(), entries);
        },
        _ => {},
    }
}

/// Decoding undoes encoding, but that of several entries with one key a
/// dictionary keeps one: a value whose numbers fit and that is nested at most
/// [`MAX_DEPTH`] deep is, as dictionaries hold it, what the buffer that holds
/// its encoding decodes to.
pub proof fn lemma_decode_encoded(value: Bencode)
    requires
        value.fits(),
        value.nests_within(MAX_DEPTH as nat),
    ensures
        spec_decode(encode(value)) == Ok::<Bencode, DecodeError>(value.normalized()),
{
    let input = encode(value);
    assert(input.subrange(0, input.len() as int) =~= input);
    lemma_parse_encoded_value(input, 0, value, MAX_DEPTH as nat);
}

/// Decoding undoes encoding: a well-formed value that is nested at most
/// [`MAX_DEPTH`] deep is what the buffer that holds its encoding decodes to.
pub proof fn lemma_decode_encoded_well_formed(value: Bencode)
    requires
        value.well_formed(),
        value.nests_within(MAX_DEPTH as nat),
    ensures
        spec_decode(encode(value)) == Ok::<Bencode, DecodeError>(value),
{
    lemma_decode_encoded(value);
    lemma_normalized_is_same(value);
}

/// Decoding keeps every key of a dictionary, and of the values encoded under
/// a key the last: what is found under a key in the dictionary decoded is
/// the value of the last entry encoded with that key, as dictionaries hold
/// it.
pub proof fn lemma_decode_encoded_keeps_last(entries: Seq<(Seq<u8>, Bencode)>, key: Seq<u8>)
    requires
        Bencode::Dict(entries).fits(),
        Bencode::Dict(entries).nests_within(MAX_DEPTH as nat),
    ensures
        spec_decode(encode(Bencode::Dict(entries))) matches Ok(Bencode::Dict(stored))
            && dict_get(stored, key) == last_under(normalized_entries(entries), key),
{
    lemma_decode_encoded(Bencode::Dict(entries));
    lemma_insert_all_keeps_last(Seq::empty(), normalized_entries(entries), key);
}

/// A value that is nested deeper than [`MAX_DEPTH`] is not decoded from its
/// encoding: the buffer is rejected as nested too deeply.
pub proof fn lemma_decode_encoded_too_deep(value: Bencode)
    requires
        value.fits(),
        !value.nests_within(MAX_DEPTH as nat),
    ensures
        spec_decode(encode(value)) matches Err(DecodeError::NestingTooDeep(_)),
{
    let input = encode(value);
    assert(input.subrange(0, input.len() as int) =~= input);
    lemma_parse_encoded_too_deep(input, 0, value, MAX_DEPTH as nat);
}

/// Every integer of 64 bits is what its encoding decodes to.
pub proof fn lemma_decode_encoded_integer(n: int)
    requires
        i64::MIN <= n <= i64::MAX,
    ensures
        spec_decode(encode_integer(n)) == Ok::<Bencode, DecodeError>(Bencode::Integer(n)),
{
    lemma_decode_encoded(Bencode::Integer(n));
}

/// Every byte string whose length fits into `usize` is what its encoding,
/// the length, `:` and the bytes, decodes to.
pub proof fn lemma_decode_encoded_byte_string(bytes: Seq<u8>)
    requires
        bytes.len() <= usize::MAX,
    ensures
        spec_decode(encode_byte_string(bytes)) == Ok::<Bencode, DecodeError>(
            Bencode::ByteString(bytes),
        ),
{
    lemma_decode_encoded(Bencode::ByteString(bytes));
}

/// A buffer is decoded only if it holds nothing but the encoding of a value
/// and at most one line feed behind it: the encoding of a value whose
/// numbers fit, that is nested at most [`MAX_DEPTH`] deep, and that is, as
/// dictionaries hold it, the value decoded.
pub proof fn lemma_decoded_is_encoded(input: Seq<u8>) -> (source: Bencode)
    requires
        input.len() <= usize::MAX,
        spec_decode(input) is Ok,
    ensures
        source.fits(),
        source.nests_within(MAX_DEPTH as nat),
        spec_decode(input) == Ok::<Bencode, DecodeError>(source.normalized()),
        input == encode(source) || input == encode(source).push(NEWLINE),
{
    let source = lemma_parsed_value_is_encoded(input, 0, MAX_DEPTH as nat);
    let end = encode(source).len() as int;
    if end == input.len() {
        assert(input =~= input.subrange(0, end));
    } else {
        assert(input =~= input.subrange(0, end).push(NEWLINE));
    }
    source
}

/// What a buffer decodes to is decoded again from its own encoding.
pub proof fn lemma_decode_reencoded(input: Seq<u8>)
    requires
        input.len() <= usize::MAX,
    ensures
        spec_decode(input) matches Ok(value) ==> spec_decode(encode(value)) == Ok::<
            Bencode,
            DecodeError,
        >(value),
{
    lemma_decoded_is_well_formed(input);
    if let Ok(value) = spec_decode(input) {
        lemma_decode_encoded_well_formed(value);
    }
}

} // verus!
