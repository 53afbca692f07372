use vstd::prelude::*;
use crate::ascii::{is_digit, DICT_TAG, END, INTEGER_TAG, LIST_TAG};
use crate::decode::{
    spec_decode, spec_parse_dict, spec_parse_dict_entries, spec_parse_list,
    spec_parse_list_items, spec_parse_torrent_file, spec_parse_value, MAX_DEPTH,
};
use crate::error::DecodeError;
use crate::scalar::{
    lemma_parse_byte_string_bounds, lemma_parse_int_bounds, spec_parse_byte_string,
};
use crate::value::{
    dict_insert, keys_distinct, lemma_find_key, lemma_insert_keeps_keys_distinct, Bencode,
};

verus! {

/// A value that was decoded spans at least one byte and ends within the
/// buffer; where decoding failed, it did so at an offset between the start
/// of the value and the buffer's end.
pub proof fn lemma_parse_value_bounds(input: Seq<u8>, at: int, depth: nat)
    requires
        0 <= at <= input.len() <= usize::MAX,
    ensures
        match spec_parse_value(input, at, depth) {
            Ok((_, end)) => at < end <= input.len(),
            Err(e) => e.offset() matches Some(o) && at <= o <= input.len(),
        },
    decreases depth, input.len() - at, 3nat,
{
    if at < input.len() {
        if input[at] == INTEGER_TAG {
            lemma_parse_int_bounds(input, at);
        } else if input[at] == LIST_TAG {
            lemma_parse_list_bounds(input, at, depth);
        } else if input[at] == DICT_TAG {
            lemma_parse_dict_bounds(input, at, depth);
        } else {
            lemma_parse_byte_string_bounds(input, at);
        }
    }
}

/// What [`lemma_parse_value_bounds`] says of a value holds of a list.
pub proof fn lemma_parse_list_bounds(input: Seq<u8>, at: int, depth: nat)
    requires
        0 <= at <= input.len() <= usize::MAX,
    ensures
        match spec_parse_list(input, at, depth) {
            Ok((_, end)) => at < end <= input.len(),
            Err(e) => e.offset() matches Some(o) && at <= o <= input.len(),
        },
    decreases depth, input.len() - at, 2nat,
{
    if at < input.len() && input[at] == LIST_TAG && depth > 0 {
        lemma_parse_list_items_bounds(input, at + 1, (depth - 1) as nat, Seq::empty());
    }
}

/// What [`lemma_parse_value_bounds`] says of a value holds of the rest of a
/// list, but that the rest of a list may be its closing `e` alone.
pub proof fn lemma_parse_list_items_bounds(
    input: Seq<u8>,
    at: int,
    depth: nat,
    items: Seq<Bencode>,
)
    requires
        0 <= at <= input.len() <= usize::MAX,
    ensures
        match spec_parse_list_items(input, at, depth, items) {
            Ok((_, end)) => at < end <= input.len(),
            Err(e) => e.offset() matches Some(o) && at <= o <= input.len(),
        },
    decreases depth, input.len() - at, 4nat,
{
    if at < input.len() && input[at] != END {
        lemma_parse_value_bounds(input, at, depth);
        if let Ok((item, next)) = spec_parse_value(input, at, depth) {
            lemma_parse_list_items_bounds(input, next, depth, items.push(item));
        }
    }
}

/// What [`lemma_parse_value_bounds`] says of a value holds of a dictionary.
pub proof fn lemma_parse_dict_bounds(input: Seq<u8>, at: int, depth: nat)
    requires
        0 <= at <= input.len() <= usize::MAX,
    ensures
        match spec_parse_dict(input, at, depth) {
            Ok((_, end)) => at < end <= input.len(),
            Err(e) => e.offset() matches Some(o) && at <= o <= input.len(),
        },
    decreases depth, input.len() - at, 2nat,
{
    if at < input.len() && input[at] == DICT_TAG && depth > 0 {
        lemma_parse_dict_entries_bounds(input, at + 1, (depth - 1) as nat, Seq::empty());
    }
}

/// What [`lemma_parse_value_bounds`] says of a value holds of the rest of a
/// dictionary, but that the rest of a dictionary may be its closing `e`
/// alone.
pub proof fn lemma_parse_dict_entries_bounds(
    input: Seq<u8>,
    at: int,
    depth: nat,
    entries: Seq<(Seq<u8>, Bencode)>,
)
    requires
        0 <= at <= input.len() <= usize::MAX,
    ensures
        match spec_parse_dict_entries(input, at, depth, entries) {
            Ok((_, end)) => at < end <= input.len(),
            Err(e) => e.offset() matches Some(o) && at <= o <= input.len(),
        },
    decreases depth, input.len() - at, 4nat,
{
    if at < input.len() && input[at] != END && is_digit(input[at]) {
        lemma_parse_byte_string_bounds(input, at);
        if let Ok((key, middle)) = spec_parse_byte_string(input, at) {
            lemma_parse_value_bounds(input, middle, depth);
            if let Ok((value, next)) = spec_parse_value(input, middle, depth) {
                lemma_parse_dict_entries_bounds(
                    input,
                    next,
                    depth,
                    dict_insert(entries, key, value),
                );
            }
        }
    }
}

/// A value that was decoded is well-formed and nested no deeper than was
/// allowed.
pub proof fn lemma_parsed_value_is_well_formed(input: Seq<u8>, at: int, depth: nat)
    requires
        0 <= at <= input.len() <= usize::MAX,
    ensures
        spec_parse_value(input, at, depth) matches Ok((value, _)) ==> value.well_formed()
            && value.nests_within(depth),
    decreases depth, input.len() - at, 3nat,
{
    if at < input.len() {
        if input[at] == INTEGER_TAG {
            lemma_parse_int_bounds(input, at);
        } else if input[at] == LIST_TAG {
            if depth > 0 {
                lemma_parsed_items_are_well_formed(
                    input,
                    at + 1,
                    (depth - 1) as nat,
                    Seq::empty(),
                );
            }
        } else if input[at] == DICT_TAG {
            if depth > 0 {
                lemma_parsed_entries_are_well_formed(
                    input,
                    at + 1,
                    (depth - 1) as nat,
                    Seq::empty(),
                );
            }
        } else {
            lemma_parse_byte_string_bounds(input, at);
        }
    }
}

/// The items of a list that was decoded are well-formed and nested no deeper
/// than was allowed, if those decoded before were.
pub proof fn lemma_parsed_items_are_well_formed(
    input: Seq<u8>,
    at: int,
    depth: nat,
    items: Seq<Bencode>,
)
    requires
        0 <= at <= input.len() <= usize::MAX,
        forall|i: int| 0 <= i < items.len() ==> (#[trigger] items[i]).well_formed(),
        forall|i: int| 0 <= i < items.len() ==> (#[trigger] items[i]).nests_within(depth),
    ensures
        spec_parse_list_items(input, at, depth, items) matches Ok((all, _)) ==> {
            &&& forall|i: int| 0 <= i < all.len() ==> (#[trigger] all[i]).well_formed()
            &&& forall|i: int| 0 <= i < all.len() ==> (#[trigger] all[i]).nests_within(depth)
        },
    decreases depth, input.len() - at, 4nat,
{
    if at < input.len() && input[at] != END {
        lemma_parse_value_bounds(input, at, depth);
        lemma_parsed_value_is_well_formed(input, at, depth);
        if let Ok((item, next)) = spec_parse_value(input, at, depth) {
            lemma_parsed_items_are_well_formed(input, next, depth, items.push(item));
        }
    }
}

/// The entries of a dictionary that was decoded have keys that differ and
/// whose lengths fit into `usize`, and values that are well-formed and
/// nested no deeper than was allowed, if those decoded before had.
pub proof fn lemma_parsed_entries_are_well_formed(
    input: Seq<u8>,
    at: int,
    depth: nat,
    entries: Seq<(Seq<u8>, Bencode)>,
)
    requires
        0 <= at <= input.len() <= usize::MAX,
        keys_distinct(entries),
        forall|i: int| 0 <= i < entries.len() ==> (#[trigger] entries[i]).0.len() <= usize::MAX,
        forall|i: int| 0 <= i < entries.len() ==> (#[trigger] entries[i]).1.well_formed(),
        forall|i: int| 0 <= i < entries.len() ==> (#[trigger] entries[i]).1.nests_within(depth),
    ensures
        spec_parse_dict_entries(input, at, depth, entries) matches Ok((all, _)) ==> {
            &&& keys_distinct(all)
            &&& forall|i: int| 0 <= i < all.len() ==> (#[trigger] all[i]).0.len() <= usize::MAX
            &&& forall|i: int| 0 <= i < all.len() ==> (#[trigger] all[i]).1.well_formed()
            &&& forall|i: int| 0 <= i < all.len() ==> (#[trigger] all[i]).1.nests_within(depth)
        },
    decreases depth, input.len() - at, 4nat,
{
    if at < input.len() && input[at] != END && is_digit(input[at]) {
        lemma_parse_byte_string_bounds(input, at);
        if let Ok((key, middle)) = spec_parse_byte_string(input, at) {
            lemma_parse_value_bounds(input, middle, depth);
            lemma_parsed_value_is_well_formed(input, middle, depth);
            if let Ok((value, next)) = spec_parse_value(input, middle, depth) {
                let stored = dict_insert(entries, key, value);
                lemma_insert_keeps_keys_distinct(entries, key, value);
                lemma_find_key(entries, key, 0);
                assert forall|i: int| 0 <= i < stored.len() implies {
                    &&& (#[trigger] stored[i]).0.len() <= usize::MAX
                    &&& stored[i].1.well_formed()
                    &&& stored[i].1.nests_within(depth)
                } by {
                    if stored[i] != (key, value) {
                        assert(stored[i] == entries[i]);
                    }
                }
                lemma_parsed_entries_are_well_formed(input, next, depth, stored);
            }
        }
    }
}

/// What a buffer decodes to is well-formed and nested at most [`MAX_DEPTH`]
/// deep.
pub proof fn lemma_decoded_is_well_formed(input: Seq<u8>)
    requires
        input.len() <= usize::MAX,
    ensures
        spec_decode(input) matches Ok(value) ==> value.well_formed() && value.nests_within(
            MAX_DEPTH as nat,
        ),
        spec_parse_torrent_file(input) matches Ok(entries) ==> Bencode::Dict(
            entries,
        ).well_formed() && Bencode::Dict(entries).nests_within(MAX_DEPTH as nat),
{
    lemma_parsed_value_is_well_formed(input, 0, MAX_DEPTH as nat);
}

/// The buffer of a metainfo file is decoded as any buffer is, but that it
/// must hold a dictionary: a buffer that starts with another byte than `d` is
/// rejected for it.
pub proof fn lemma_parse_torrent_file_is_decode(input: Seq<u8>)
    ensures
        spec_parse_torrent_file(input) == if input.len() > 0 && input[0] != DICT_TAG {
            Err::<Seq<(Seq<u8>, Bencode)>, DecodeError>(DecodeError::UnexpectedTopLevelType(0))
        } else {
            match spec_decode(input) {
                Ok(value) => Ok(value->Dict_0),
                Err(e) => Err(e),
            }
        },
        input.len() > 0 && input[0] == DICT_TAG ==> (spec_decode(input) matches Ok(value)
            ==> value is Dict),
{
}

/// Where decoding a buffer fails, the error carries an offset, and that
/// offset lies within the buffer or at its end.
pub proof fn lemma_decode_error_is_within_buffer(input: Seq<u8>)
    requires
        input.len() <= usize::MAX,
    ensures
        spec_decode(input) matches Err(e) ==> e.offset() matches Some(at) && at <= input.len(),
        spec_parse_torrent_file(input) matches Err(e) ==> e.offset() matches Some(at) && at
            <= input.len(),
{
    lemma_parse_value_bounds(input, 0, MAX_DEPTH as nat);
    lemma_parse_dict_bounds(input, 0, MAX_DEPTH as nat);
}

/// A buffer that starts with more opening tags of lists than a value may be
/// nested deep is rejected as nested too deeply, at the first tag beyond the
/// limit and whatever follows it.
pub proof fn lemma_nesting_beyond_limit(input: Seq<u8>)
    requires
        input.len() > MAX_DEPTH,
        forall|i: int| 0 <= i <= MAX_DEPTH ==> input[i] == LIST_TAG,
    ensures
        spec_decode(input) == Err::<Bencode, DecodeError>(
            DecodeError::NestingTooDeep(MAX_DEPTH),
        ),
{
    lemma_opening_tags_exhaust_depth(input, 0);
}

/// Below `at` further opening tags of lists, as many as levels of nesting
/// are left, the next opening tag is one too many.
proof fn lemma_opening_tags_exhaust_depth(input: Seq<u8>, at: int)
    requires
        0 <= at <= MAX_DEPTH < input.len(),
        forall|i: int| 0 <= i <= MAX_DEPTH ==> input[i] == LIST_TAG,
    ensures
        spec_parse_value(input, at, (MAX_DEPTH - at) as nat) == Err::<(Bencode, int), DecodeError>(
            DecodeError::NestingTooDeep(MAX_DEPTH),
        ),
    decreases MAX_DEPTH - at,
{
    if at < MAX_DEPTH {
        lemma_opening_tags_exhaust_depth(input, at + 1);
    }
}

} // verus!
