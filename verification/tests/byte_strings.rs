use torrent_parser::cursor::Cursor;
use torrent_parser::decode::decode;
use torrent_parser::error::DecodeError;
use torrent_parser::scalar::parse_byte_string;
use torrent_parser::value::Value;

#[test]
fn decodes_a_byte_string() {
    assert_eq!(decode(b"4:spam"), Ok(Value::ByteString(b"spam".to_vec())));
}

#[test]
fn decodes_the_empty_byte_string() {
    assert_eq!(decode(b"0:"), Ok(Value::ByteString(Vec::new())));
}

#[test]
fn keeps_bytes_that_are_no_text() {
    let buffer: [u8; 6] = [b'4', b':', 0xff, 0x00, 0xfe, b'e'];
    assert_eq!(decode(&buffer), Ok(Value::ByteString(vec![0xff, 0x00, 0xfe, b'e'])));
}

#[test]
fn byte_strings_of_every_short_length_decode_to_themselves() {
    for length in 0..300usize {
        let bytes: Vec<u8> = (0..length).map(|i| (i * 7 + 3) as u8).collect();
        let mut encoded = format!("{}:", length).into_bytes();
        encoded.extend_from_slice(&bytes);
        assert_eq!(decode(&encoded), Ok(Value::ByteString(bytes)));
    }
}

#[test]
fn reports_a_length_beyond_the_buffer() {
    assert_eq!(decode(b"5:ab"), Err(DecodeError::UnexpectedEof(2)));
}

#[test]
fn reports_a_length_without_its_colon() {
    assert_eq!(decode(b"3"), Err(DecodeError::UnexpectedEof(1)));
    assert_eq!(decode(b"12"), Err(DecodeError::UnexpectedEof(2)));
}

#[test]
fn rejects_a_length_with_a_leading_zero() {
    assert_eq!(decode(b"03:abc"), Err(DecodeError::MalformedLength(1)));
}

#[test]
fn rejects_a_length_that_is_no_number() {
    assert_eq!(decode(b"3x:abc"), Err(DecodeError::MalformedLength(1)));
    assert_eq!(decode(b"-3:abc"), Err(DecodeError::MalformedLength(0)));
}

#[test]
fn rejects_a_missing_length() {
    assert_eq!(decode(b":abc"), Err(DecodeError::MalformedLength(0)));
    assert_eq!(decode(b"x"), Err(DecodeError::MalformedLength(0)));
}

#[test]
fn rejects_a_length_that_does_not_fit() {
    assert_eq!(
        decode(b"99999999999999999999999999:abc"),
        Err(DecodeError::MalformedLength(19))
    );
}

#[test]
fn reports_the_largest_length_as_beyond_the_buffer() {
    let encoded = format!("{}:abc", usize::MAX);
    let colon = encoded.len() - 4;
    assert_eq!(decode(encoded.as_bytes()), Err(DecodeError::UnexpectedEof(colon + 1)));
}

#[test]
fn parse_byte_string_moves_the_cursor_behind_the_bytes() {
    let buffer = b"3:abc2:de";
    let mut cursor = Cursor::new(buffer);
    assert_eq!(parse_byte_string(&mut cursor), Ok(b"abc".to_vec()));
    assert_eq!(cursor.position(), 5);
    assert_eq!(parse_byte_string(&mut cursor), Ok(b"de".to_vec()));
    assert_eq!(cursor.position(), 9);
    assert_eq!(parse_byte_string(&mut cursor), Err(DecodeError::UnexpectedEof(9)));
}

#[test]
fn parse_byte_string_leaves_the_cursor_at_the_fault() {
    let buffer = b"5:ab";
    let mut cursor = Cursor::new(buffer);
    assert_eq!(parse_byte_string(&mut cursor), Err(DecodeError::UnexpectedEof(2)));
    assert_eq!(cursor.position(), 2);
}
