use vstd::prelude::*;
use vstd::slice::slice_to_vec;
use vstd::utf8::{decode_utf8, encode_utf8, encode_utf8_decode_utf8, valid_utf8};
use crate::error::DecodeError;
use crate::value::{dict_get, entries_view, list_view, Bencode, Dict, Value};

verus! {

/// The key `announce`, under which a metainfo dictionary holds the URL of
/// its tracker.
pub open spec fn announce_key() -> Seq<u8> {
    seq![0x61u8, 0x6e, 0x6e, 0x6f, 0x75, 0x6e, 0x63, 0x65]
}

/// The key `pieces`, under which a metainfo dictionary holds the hashes of
/// its pieces one after another: binary data that is never text.
pub open spec fn pieces_key() -> Seq<u8> {
    seq![0x70u8, 0x69, 0x65, 0x63, 0x65, 0x73]
}

/// Calls `String::from_utf8`. The call succeeds on the byte sequences that
/// are valid UTF-8 and on no others, and the string it then gives is the one
/// that is encoded by the bytes handed in.
#[verifier::external_body]
fn string_from_utf8(bytes: Vec<u8>) -> (r: Option<String>)
    ensures
        r is Some <==> valid_utf8(bytes@),
        r matches Some(text) ==> encode_utf8(text@) == bytes@,
{
    match String::from_utf8(bytes) {
        Ok(text) => Some(text),
        Err(_) => None,
    }
}

/// Reads a byte string as UTF-8 text. Bytes that are not valid UTF-8 are an
/// `InvalidText`.
pub fn byte_string_to_string(byte_string: &[u8]) -> (r: Result<String, DecodeError>)
    ensures
        match r {
            Ok(text) => valid_utf8(byte_string@) && text@ == decode_utf8(byte_string@),
            Err(e) => !valid_utf8(byte_string@) && e == DecodeError::InvalidText,
        },
{
    match string_from_utf8(slice_to_vec(byte_string)) {
        Some(text) => {
            proof {
                encode_utf8_decode_utf8(text@);
            }
            Ok(text)
        },
        None => Err(DecodeError::InvalidText),
    }
}

/// The text of the field `key` of a dictionary: `None` if the dictionary has
/// no such field, and `InvalidText` if the field is no byte string or its
/// bytes are not valid UTF-8.
pub open spec fn spec_text_field(entries: Seq<(Seq<u8>, Bencode)>, key: Seq<u8>) -> Result<
    Option<Seq<char>>,
    DecodeError,
> {
    match dict_get(entries, key) {
        None => Ok(None),
        Some(Bencode::ByteString(bytes)) => {
            if valid_utf8(bytes) {
                Ok(Some(decode_utf8(bytes)))
            } else {
                Err(DecodeError::InvalidText)
            }
        },
        Some(_) => Err(DecodeError::InvalidText),
    }
}

/// The tracker's URL of a metainfo dictionary where it must be present: a
/// dictionary without the field `announce` is a `MissingField`.
pub open spec fn spec_require_announce(entries: Seq<(Seq<u8>, Bencode)>) -> Result<
    Seq<char>,
    DecodeError,
> {
    match spec_text_field(entries, announce_key()) {
        Ok(Some(text)) => Ok(text),
        Ok(None) => Err(DecodeError::MissingField("announce")),
        Err(e) => Err(e),
    }
}

/// Reads the field `key` of a dictionary as text, if the dictionary has it.
pub fn text_field(dict: &Dict, key: &[u8]) -> (r: Result<Option<String>, DecodeError>)
    ensures
        match r {
            Ok(Some(text)) => spec_text_field(dict@, key@) == Ok::<
                Option<Seq<char>>,
                DecodeError,
            >(Some(text@)),
            Ok(None) => spec_text_field(dict@, key@) == Ok::<Option<Seq<char>>, DecodeError>(
                None,
            ),
            Err(e) => spec_text_field(dict@, key@) == Err::<Option<Seq<char>>, DecodeError>(e),
        },
{
    match dict.get(key) {
        None => Ok(None),
        Some(Value::ByteString(bytes)) => match byte_string_to_string(bytes.as_slice()) {
            Ok(text) => Ok(Some(text)),
            Err(e) => Err(e),
        },
        Some(_) => Err(DecodeError::InvalidText),
    }
}

/// Reads the tracker's URL, the field `announce`, of a metainfo dictionary
/// that may do without one.
pub fn announce(dict: &Dict) -> (r: Result<Option<String>, DecodeError>)
    ensures
        match r {
            Ok(Some(text)) => spec_text_field(dict@, announce_key()) == Ok::<
                Option<Seq<char>>,
                DecodeError,
            >(Some(text@)),
            Ok(None) => spec_text_field(dict@, announce_key()) == Ok::<
                Option<Seq<char>>,
                DecodeError,
            >(None),
            Err(e) => spec_text_field(dict@, announce_key()) == Err::<
                Option<Seq<char>>,
                DecodeError,
            >(e),
        },
{
    let key: Vec<u8> = vec![0x61u8, 0x6e, 0x6e, 0x6f, 0x75, 0x6e, 0x63, 0x65];
    text_field(dict, key.as_slice())
}

/// Reads the tracker's URL, the field `announce`, of a metainfo dictionary
/// that must have one.
pub fn require_announce(dict: &Dict) -> (r: Result<String, DecodeError>)
    ensures
        match r {
            Ok(text) => spec_require_announce(dict@) == Ok::<Seq<char>, DecodeError>(text@),
            Err(e) => spec_require_announce(dict@) == Err::<Seq<char>, DecodeError>(e),
        },
{
    match announce(dict) {
        Ok(Some(text)) => Ok(text),
        Ok(None) => Err(DecodeError::MissingField("announce")),
        Err(e) => Err(e),
    }
}

/// What is shown for a field: the mathematical form of a [`Rendered`].
pub enum Shown {
    /// The text that a byte string holds.
    Text(Seq<char>),
    /// An integer.
    Number(int),
    /// The number of bytes of a byte string that is not shown as text.
    Binary(nat),
}

/// What is shown for a field of a dictionary.
#[derive(Debug, PartialEq, Eq)]
pub enum Rendered {
    /// The text that a byte string holds.
    Text(String),
    /// An integer.
    Number(i64),
    /// The number of bytes of a byte string that is not shown as text.
    Binary(usize),
}

impl View for Rendered {
    type V = Shown;

    open spec fn view(&self) -> Shown {
        match self {
            Rendered::Text(text) => Shown::Text(text@),
            Rendered::Number(n) => Shown::Number(*n as int),
            Rendered::Binary(len) => Shown::Binary(*len as nat),
        }
    }
}

/// One line of a display: the key of a field and what is shown for it.
#[derive(Debug, PartialEq, Eq)]
pub struct Line {
    /// The key under which the value was found.
    pub key: Vec<u8>,
    /// What is shown for the value.
    pub value: Rendered,
}

impl View for Line {
    type V = (Seq<u8>, Shown);

    open spec fn view(&self) -> (Seq<u8>, Shown) {
        (self.key@, self.value@)
    }
}

/// What a sequence of lines shows.
pub open spec fn lines_view(lines: Seq<Line>) -> Seq<(Seq<u8>, Shown)> {
    Seq::new(lines.len(), |i: int| lines[i]@)
}

/// What is shown for the byte string `bytes` under `key`: its text, but the
/// number of its bytes where the key is `pieces` or the bytes are not valid
/// UTF-8. The bytes under `pieces` are never read as text, valid or not.
pub open spec fn spec_render_bytes(key: Seq<u8>, bytes: Seq<u8>) -> Shown {
    if key == pieces_key() || !valid_utf8(bytes) {
        Shown::Binary(bytes.len())
    } else {
        Shown::Text(decode_utf8(bytes))
    }
}

/// The lines that display `item`, a value found under `key`: one line for an
/// integer or a byte string; for a list the lines of its items, each under
/// the list's key; for a dictionary the lines of its values, each under its
/// own key.
pub open spec fn spec_render_item(key: Seq<u8>, item: Bencode) -> Seq<(Seq<u8>, Shown)>
    decreases item, 0nat,
{
    match item {
        Bencode::Integer(n) => seq![(key, Shown::Number(n))],
        Bencode::ByteString(bytes) => seq![(key, spec_render_bytes(key, bytes))],
        Bencode::List(items) => spec_render_list(key, items, items.len()),
        Bencode::Dict(entries) => spec_render_dict(entries, entries.len()),
    }
}

/// The lines that display the first `n` items of a list found under `key`.
pub open spec fn spec_render_list(key: Seq<u8>, items: Seq<Bencode>, n: nat) -> Seq<
    (Seq<u8>, Shown),
>
    decreases items, n,
{
    if n == 0 || n > items.len() {
        Seq::empty()
    } else {
        spec_render_list(key, items, (n - 1) as nat) + spec_render_item(key, items[n - 1])
    }
}

/// The lines that display the first `n` entries of a dictionary.
pub open spec fn spec_render_dict(entries: Seq<(Seq<u8>, Bencode)>, n: nat) -> Seq<
    (Seq<u8>, Shown),
>
    decreases entries, n,
{
    if n == 0 || n > entries.len() {
        Seq::empty()
    } else {
        spec_render_dict(entries, (n - 1) as nat) + spec_render_item(
            entries[n - 1].0,
            entries[n - 1].1,
        )
    }
}

/// Tests whether a key is `pieces`.
fn is_pieces_key(key: &[u8]) -> (r: bool)
    ensures
        r == (key@ == pieces_key()),
{
    let same = key.len() == 6 && key[0] == 0x70 && key[1] == 0x69 && key[2] == 0x65 && key[3]
        == 0x63 && key[4] == 0x65 && key[5] == 0x73;
    proof {
        if same {
            assert(key@ =~= pieces_key());
        }
    }
    same
}

/// Decides what to show for a byte string found under `key`.
pub fn render_bytes(key: &[u8], bytes: &[u8]) -> (r: Rendered)
    ensures
        r@ == spec_render_bytes(key@, bytes@),
{
    if is_pieces_key(key) {
        Rendered::Binary(bytes.len())
    } else {
        match byte_string_to_string(bytes) {
            Ok(text) => Rendered::Text(text),
            Err(_) => Rendered::Binary(bytes.len()),
        }
    }
}

/// Appends to `lines` the lines that display `item`, a value found under
/// `key`.
fn render_into(key: &[u8], item: &Value, lines: &mut Vec<Line>)
    ensures
        lines_view(final(lines)@) == lines_view(old(lines)@) + spec_render_item(key@, item@),
    decreases item@,
{
    match item {
        Value::Integer(n) => {
            lines.push(Line { key: slice_to_vec(key), value: Rendered::Number(*n) });
        },
        Value::ByteString(bytes) => {
            let value = render_bytes(key, bytes.as_slice());
            lines.push(Line { key: slice_to_vec(key), value });
        },
        Value::List(items) => {
            let mut i: usize = 0;
            while i < items.len()
                invariant
                    0 <= i <= items@.len(),
                    item@ == Bencode::List(list_view(items@)),
                    lines_view(lines@) == lines_view(old(lines)@) + spec_render_list(
                        key@,
                        list_view(items@),
                        i as nat,
                    ),
                decreases items@.len() - i,
            {
                assert(list_view(items@)[i as int] == items@[i as int]@);
                assert(decreases_to!(item@ => item@->List_0));
                assert(decreases_to!(item@->List_0 => (item@->List_0)[i as int]));
                render_into(key, &items[i], lines);
                i = i + 1;
            }
        },
        Value::Dict(dict) => {
            let entries = dict.entries();
            let mut i: usize = 0;
            while i < entries.len()
                invariant
                    0 <= i <= entries@.len(),
                    item@ == Bencode::Dict(dict@),
                    entries_view(entries@) == dict@,
                    lines_view(lines@) == lines_view(old(lines)@) + spec_render_dict(
                        dict@,
                        i as nat,
                    ),
                decreases entries@.len() - i,
            {
                assert(dict@[i as int] == (entries@[i as int].0@, entries@[i as int].1@));
                assert(decreases_to!(item@ => item@->Dict_0));
                assert(decreases_to!(item@->Dict_0 => (item@->Dict_0)[i as int]));
                assert(decreases_to!((item@->Dict_0)[i as int] => (item@->Dict_0)[i as int].1));
                render_into(entries[i].0.as_slice(), &entries[i].1, lines);
                i = i + 1;
            }
        },
    }
}

/// The lines that display `item`, a value found under `key`.
pub fn render_item(key: &[u8], item: &Value) -> (lines: Vec<Line>)
    ensures
        lines_view(lines@) == spec_render_item(key@, item@),
{
    let mut lines: Vec<Line> = Vec::new();
    render_into(key, item, &mut lines);
    lines
}

/// The lines that display a dictionary: those of each of its values under
/// its own key, in the order of the entries.
pub fn render_dict(dict: &Dict) -> (lines: Vec<Line>)
    ensures
        lines_view(lines@) == spec_render_dict(dict@, dict@.len()),
{
    let entries = dict.entries();
    let mut lines: Vec<Line> = Vec::new();
    let mut i: usize = 0;
    while i < entries.len()
        invariant
            0 <= i <= entries@.len(),
            entries_view(entries@) == dict@,
            lines_view(lines@) == spec_render_dict(dict@, i as nat),
        decreases entries@.len() - i,
    {
        render_into(entries[i].0.as_slice(), &entries[i].1, &mut lines);
        i = i + 1;
    }
    lines
}

} // verus!
