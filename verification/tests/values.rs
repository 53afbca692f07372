use torrent_parser::ascii::byte_is_digit;
use torrent_parser::cursor::Cursor;
use torrent_parser::error::DecodeError;
use torrent_parser::number::{read_number, NumberFault};
use torrent_parser::value::{bytes_equal, Dict, Value};

#[test]
fn a_new_dictionary_is_empty() {
    let dict = Dict::new();
    assert_eq!(dict.len(), 0);
    assert_eq!(dict.get(b"a"), None);
    assert!(dict.entries().is_empty());
}

#[test]
fn insert_appends_a_new_key() {
    let mut dict = Dict::new();
    dict.insert(b"b".to_vec(), Value::Integer(1));
    dict.insert(b"a".to_vec(), Value::Integer(2));
    dict.insert(b"".to_vec(), Value::Integer(3));
    assert_eq!(dict.len(), 3);
    assert_eq!(dict.entries()[0], (b"b".to_vec(), Value::Integer(1)));
    assert_eq!(dict.entries()[1], (b"a".to_vec(), Value::Integer(2)));
    assert_eq!(dict.entries()[2], (b"".to_vec(), Value::Integer(3)));
    assert_eq!(dict.get(b""), Some(&Value::Integer(3)));
}

#[test]
fn insert_replaces_the_value_of_a_key_in_its_place() {
    let mut dict = Dict::new();
    dict.insert(b"b".to_vec(), Value::Integer(1));
    dict.insert(b"a".to_vec(), Value::Integer(2));
    dict.insert(b"b".to_vec(), Value::ByteString(b"x".to_vec()));
    assert_eq!(dict.len(), 2);
    assert_eq!(dict.entries()[0], (b"b".to_vec(), Value::ByteString(b"x".to_vec())));
    assert_eq!(dict.entries()[1], (b"a".to_vec(), Value::Integer(2)));
    assert_eq!(dict.get(b"b"), Some(&Value::ByteString(b"x".to_vec())));
    assert_eq!(dict.get(b"a"), Some(&Value::Integer(2)));
}

#[test]
fn keys_are_told_apart_by_every_byte() {
    let mut dict = Dict::new();
    dict.insert(b"ab".to_vec(), Value::Integer(1));
    dict.insert(b"a".to_vec(), Value::Integer(2));
    dict.insert(b"aB".to_vec(), Value::Integer(3));
    dict.insert(vec![0x61, 0xff], Value::Integer(4));
    assert_eq!(dict.len(), 4);
    assert_eq!(dict.get(b"a"), Some(&Value::Integer(2)));
    assert_eq!(dict.get(b"ab"), Some(&Value::Integer(1)));
    assert_eq!(dict.get(&[0x61, 0xff]), Some(&Value::Integer(4)));
    assert_eq!(dict.get(b"abc"), None);
}

#[test]
fn compares_byte_strings() {
    assert!(bytes_equal(b"", b""));
    assert!(bytes_equal(b"abc", b"abc"));
    assert!(!bytes_equal(b"abc", b"abd"));
    assert!(!bytes_equal(b"abc", b"ab"));
    assert!(!bytes_equal(b"", b"a"));
}

#[test]
fn tells_digits_from_other_bytes() {
    for b in 0..=255u8 {
        assert_eq!(byte_is_digit(b), b.is_ascii_digit());
    }
}

#[test]
fn reads_a_number_up_to_the_limit() {
    let mut cursor = Cursor::new(b"255:");
    assert_eq!(read_number(&mut cursor, 255), Ok(255));
    assert_eq!(cursor.position(), 3);
    let mut cursor = Cursor::new(b"256:");
    assert_eq!(read_number(&mut cursor, 255), Err(NumberFault::TooLarge));
    assert_eq!(cursor.position(), 2);
    let mut cursor = Cursor::new(b"18446744073709551615");
    assert_eq!(read_number(&mut cursor, u64::MAX), Ok(u64::MAX));
    assert_eq!(cursor.position(), 20);
    let mut cursor = Cursor::new(b"18446744073709551616");
    assert_eq!(read_number(&mut cursor, u64::MAX), Err(NumberFault::TooLarge));
    assert_eq!(cursor.position(), 19);
    let mut cursor = Cursor::new(b"7");
    assert_eq!(read_number(&mut cursor, 0), Err(NumberFault::TooLarge));
    assert_eq!(cursor.position(), 0);
}

#[test]
fn reads_zero_and_rejects_a_leading_zero() {
    let mut cursor = Cursor::new(b"0");
    assert_eq!(read_number(&mut cursor, 0), Ok(0));
    assert_eq!(cursor.position(), 1);
    let mut cursor = Cursor::new(b"0x");
    assert_eq!(read_number(&mut cursor, 9), Ok(0));
    assert_eq!(cursor.position(), 1);
    let mut cursor = Cursor::new(b"007");
    assert_eq!(read_number(&mut cursor, 9), Err(NumberFault::LeadingZero));
    assert_eq!(cursor.position(), 1);
}

#[test]
fn reads_no_number_where_no_digit_stands() {
    let mut cursor = Cursor::new(b"x1");
    assert_eq!(read_number(&mut cursor, 9), Err(NumberFault::NoDigit));
    assert_eq!(cursor.position(), 0);
    let mut cursor = Cursor::new(b"");
    assert_eq!(read_number(&mut cursor, 9), Err(NumberFault::NoDigit));
    assert_eq!(cursor.position(), 0);
}

#[test]
fn an_error_of_the_decoder_carries_its_offset() {
    assert_eq!(DecodeError::UnexpectedEof(3).offset(), Some(3));
    assert_eq!(DecodeError::MalformedInteger(4).offset(), Some(4));
    assert_eq!(DecodeError::IntegerOverflow(5).offset(), Some(5));
    assert_eq!(DecodeError::MalformedLength(6).offset(), Some(6));
    assert_eq!(DecodeError::UnterminatedList(7).offset(), Some(7));
    assert_eq!(DecodeError::UnterminatedDict(8).offset(), Some(8));
    assert_eq!(DecodeError::NonByteStringKey(9).offset(), Some(9));
    assert_eq!(DecodeError::NestingTooDeep(10).offset(), Some(10));
    assert_eq!(DecodeError::UnexpectedTopLevelType(11).offset(), Some(11));
    assert_eq!(DecodeError::MissingField("announce").offset(), None);
    assert_eq!(DecodeError::InvalidText.offset(), None);
}

#[test]
fn an_error_describes_its_kind() {
    assert_eq!(DecodeError::UnexpectedEof(3).describe(), "unexpected end of input");
    assert_eq!(DecodeError::MalformedInteger(3).describe(), "malformed integer");
    assert_eq!(
        DecodeError::IntegerOverflow(3).describe(),
        "integer does not fit into 64 bits"
    );
    assert_eq!(DecodeError::MalformedLength(3).describe(), "malformed byte string length");
    assert_eq!(DecodeError::UnterminatedList(3).describe(), "unterminated list");
    assert_eq!(DecodeError::UnterminatedDict(3).describe(), "unterminated dictionary");
    assert_eq!(
        DecodeError::NonByteStringKey(3).describe(),
        "dictionary key is not a byte string"
    );
    assert_eq!(DecodeError::NestingTooDeep(3).describe(), "nesting too deep");
    assert_eq!(
        DecodeError::UnexpectedTopLevelType(3).describe(),
        "unexpected byte at top level"
    );
    assert_eq!(DecodeError::MissingField("announce").describe(), "missing field");
    assert_eq!(DecodeError::InvalidText.describe(), "field is not valid text");
}
