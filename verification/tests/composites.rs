use torrent_parser::cursor::Cursor;
use torrent_parser::decode::{
    decode, parse_dict, parse_list, parse_torrent_file, parse_value, MAX_DEPTH,
};
use torrent_parser::error::DecodeError;
use torrent_parser::value::{Dict, Value};

fn text(s: &str) -> Value {
    Value::ByteString(s.as_bytes().to_vec())
}

fn dict_of(pairs: Vec<(&str, Value)>) -> Dict {
    let mut dict = Dict::new();
    for (key, value) in pairs {
        dict.insert(key.as_bytes().to_vec(), value);
    }
    dict
}

#[test]
fn decodes_a_list() {
    assert_eq!(
        decode(b"l4:spami42ee"),
        Ok(Value::List(vec![text("spam"), Value::Integer(42)]))
    );
}

#[test]
fn decodes_the_empty_list() {
    assert_eq!(decode(b"le"), Ok(Value::List(Vec::new())));
}

#[test]
fn decodes_a_dictionary() {
    let expected = dict_of(vec![("cow", text("moo")), ("spam", text("eggs"))]);
    assert_eq!(decode(b"d3:cow3:moo4:spam4:eggse"), Ok(Value::Dict(expected)));
}

#[test]
fn decodes_the_empty_dictionary() {
    assert_eq!(decode(b"de"), Ok(Value::Dict(Dict::new())));
}

#[test]
fn keeps_the_keys_of_a_dictionary_in_their_order() {
    let decoded = match decode(b"d1:zi1e1:ai2e1:mi3ee") {
        Ok(Value::Dict(dict)) => dict,
        other => panic!("no dictionary: {:?}", other),
    };
    let keys: Vec<&[u8]> = decoded.entries().iter().map(|entry| entry.0.as_slice()).collect();
    assert_eq!(keys, vec![&b"z"[..], &b"a"[..], &b"m"[..]]);
    assert_eq!(decoded.get(b"a"), Some(&Value::Integer(2)));
    assert_eq!(decoded.get(b"q"), None);
    assert_eq!(decoded.len(), 3);
}

#[test]
fn keeps_the_last_value_under_a_key() {
    let decoded = match decode(b"d1:ai1e1:bi2e1:ai3ee") {
        Ok(Value::Dict(dict)) => dict,
        other => panic!("no dictionary: {:?}", other),
    };
    assert_eq!(decoded.len(), 2);
    assert_eq!(decoded.get(b"a"), Some(&Value::Integer(3)));
    assert_eq!(decoded.entries()[0], (b"a".to_vec(), Value::Integer(3)));
    assert_eq!(decoded.entries()[1], (b"b".to_vec(), Value::Integer(2)));
}

#[test]
fn decodes_nested_values() {
    let inner = dict_of(vec![("x", Value::List(vec![Value::Integer(-1), text("")]))]);
    let expected = Value::List(vec![
        Value::List(Vec::new()),
        Value::Dict(inner),
        Value::Integer(0),
    ]);
    assert_eq!(decode(b"lled1:xli-1e0:eei0ee"), Ok(expected));
}

#[test]
fn rejects_a_key_that_is_no_byte_string() {
    assert_eq!(decode(b"di5ee"), Err(DecodeError::NonByteStringKey(1)));
    assert_eq!(decode(b"d1:ai1elee"), Err(DecodeError::NonByteStringKey(7)));
}

#[test]
fn rejects_a_key_with_a_malformed_length() {
    assert_eq!(decode(b"d01:ai1ee"), Err(DecodeError::MalformedLength(2)));
}

#[test]
fn rejects_a_key_without_a_value() {
    assert_eq!(decode(b"d1:ae"), Err(DecodeError::MalformedLength(4)));
}

#[test]
fn reports_an_unterminated_list() {
    assert_eq!(decode(b"l"), Err(DecodeError::UnterminatedList(1)));
    assert_eq!(decode(b"li1e"), Err(DecodeError::UnterminatedList(4)));
    assert_eq!(decode(b"li35"), Err(DecodeError::UnterminatedList(4)));
    assert_eq!(decode(b"l5:ab"), Err(DecodeError::UnterminatedList(3)));
}

#[test]
fn reports_an_unterminated_dictionary() {
    assert_eq!(decode(b"d"), Err(DecodeError::UnterminatedDict(1)));
    assert_eq!(decode(b"d1:a"), Err(DecodeError::UnterminatedDict(4)));
    assert_eq!(decode(b"d1:ai1e"), Err(DecodeError::UnterminatedDict(7)));
    assert_eq!(decode(b"d3:a"), Err(DecodeError::UnterminatedDict(3)));
}

#[test]
fn reports_the_innermost_composite_that_the_buffer_ends_in() {
    assert_eq!(decode(b"d1:al"), Err(DecodeError::UnterminatedList(5)));
    assert_eq!(decode(b"ld"), Err(DecodeError::UnterminatedDict(2)));
    assert_eq!(decode(b"ldei1e"), Err(DecodeError::UnterminatedList(6)));
}

#[test]
fn passes_on_the_fault_of_an_item() {
    assert_eq!(decode(b"li-0ee"), Err(DecodeError::MalformedInteger(3)));
    assert_eq!(decode(b"lxe"), Err(DecodeError::MalformedLength(1)));
    assert_eq!(decode(b"d1:ai03ee"), Err(DecodeError::MalformedInteger(6)));
}

#[test]
fn rejects_nesting_beyond_the_limit() {
    let buffer = vec![b'l'; 10_000];
    assert_eq!(decode(&buffer), Err(DecodeError::NestingTooDeep(MAX_DEPTH)));
}

#[test]
fn rejects_nested_dictionaries_beyond_the_limit() {
    let mut buffer = Vec::new();
    for _ in 0..10_000 {
        buffer.extend_from_slice(b"d1:a");
    }
    assert_eq!(decode(&buffer), Err(DecodeError::NestingTooDeep(4 * MAX_DEPTH)));
}

#[test]
fn accepts_nesting_up_to_the_limit() {
    let mut buffer = vec![b'l'; MAX_DEPTH];
    buffer.extend(vec![b'e'; MAX_DEPTH]);
    let mut expected = Value::List(Vec::new());
    for _ in 1..MAX_DEPTH {
        expected = Value::List(vec![expected]);
    }
    assert_eq!(decode(&buffer), Ok(expected));
}

#[test]
fn rejects_nesting_one_beyond_the_limit() {
    let mut buffer = vec![b'l'; MAX_DEPTH + 1];
    buffer.extend(vec![b'e'; MAX_DEPTH + 1]);
    assert_eq!(decode(&buffer), Err(DecodeError::NestingTooDeep(MAX_DEPTH)));
}

#[test]
fn counts_the_depth_that_the_caller_gives() {
    let buffer = b"llee";
    let mut cursor = Cursor::new(buffer);
    assert_eq!(parse_value(&mut cursor, 1), Err(DecodeError::NestingTooDeep(1)));
    assert_eq!(cursor.position(), 1);
    let mut cursor = Cursor::new(buffer);
    assert_eq!(
        parse_value(&mut cursor, 2),
        Ok(Value::List(vec![Value::List(Vec::new())]))
    );
    assert_eq!(cursor.position(), 4);
    let mut cursor = Cursor::new(b"i1e");
    assert_eq!(parse_value(&mut cursor, 0), Ok(Value::Integer(1)));
    let mut cursor = Cursor::new(b"le");
    assert_eq!(parse_list(&mut cursor, 0), Err(DecodeError::NestingTooDeep(0)));
    let mut cursor = Cursor::new(b"de");
    assert_eq!(parse_dict(&mut cursor, 0), Err(DecodeError::NestingTooDeep(0)));
}

#[test]
fn parse_list_wants_its_tag() {
    let mut cursor = Cursor::new(b"i1e");
    assert_eq!(parse_list(&mut cursor, 4), Err(DecodeError::UnexpectedTopLevelType(0)));
    let mut cursor = Cursor::new(b"");
    assert_eq!(parse_list(&mut cursor, 4), Err(DecodeError::UnexpectedEof(0)));
    let mut cursor = Cursor::new(b"li1ei2eex");
    assert_eq!(
        parse_list(&mut cursor, 4),
        Ok(vec![Value::Integer(1), Value::Integer(2)])
    );
    assert_eq!(cursor.position(), 8);
}

#[test]
fn parse_dict_wants_its_tag() {
    let mut cursor = Cursor::new(b"le");
    assert_eq!(parse_dict(&mut cursor, 4), Err(DecodeError::UnexpectedTopLevelType(0)));
    let mut cursor = Cursor::new(b"d1:ai1eex");
    assert_eq!(parse_dict(&mut cursor, 4), Ok(dict_of(vec![("a", Value::Integer(1))])));
    assert_eq!(cursor.position(), 8);
}

#[test]
fn accepts_one_final_line_feed() {
    assert_eq!(decode(b"i1e\n"), Ok(Value::Integer(1)));
    assert_eq!(parse_torrent_file(b"de\n"), Ok(Dict::new()));
}

#[test]
fn rejects_bytes_behind_the_value() {
    assert_eq!(decode(b"i1ei2e"), Err(DecodeError::UnexpectedTopLevelType(3)));
    assert_eq!(decode(b"i1e\n\n"), Err(DecodeError::UnexpectedTopLevelType(3)));
    assert_eq!(decode(b"i1e "), Err(DecodeError::UnexpectedTopLevelType(3)));
    assert_eq!(parse_torrent_file(b"dede"), Err(DecodeError::UnexpectedTopLevelType(2)));
    assert_eq!(parse_torrent_file(b"de\nx"), Err(DecodeError::UnexpectedTopLevelType(2)));
}

#[test]
fn a_metainfo_file_is_a_dictionary() {
    assert_eq!(parse_torrent_file(b"le"), Err(DecodeError::UnexpectedTopLevelType(0)));
    assert_eq!(parse_torrent_file(b"i1e"), Err(DecodeError::UnexpectedTopLevelType(0)));
    assert_eq!(parse_torrent_file(b"\n"), Err(DecodeError::UnexpectedTopLevelType(0)));
    assert_eq!(parse_torrent_file(b""), Err(DecodeError::UnexpectedEof(0)));
    assert_eq!(
        parse_torrent_file(b"d4:name3:abce"),
        Ok(dict_of(vec![("name", text("abc"))]))
    );
}

#[test]
fn an_empty_buffer_holds_no_value() {
    assert_eq!(decode(b""), Err(DecodeError::UnexpectedEof(0)));
}

#[test]
fn decoding_twice_gives_the_same() {
    let buffers: [&[u8]; 4] = [b"d1:ali1ei2eee", b"l", b"i-0e", b"5:ab"];
    for buffer in buffers {
        assert_eq!(decode(buffer), decode(buffer));
    }
}
