use torrent_parser::cursor::Cursor;
use torrent_parser::decode::decode;
use torrent_parser::error::DecodeError;
use torrent_parser::scalar::parse_int;
use torrent_parser::value::Value;

#[test]
fn decodes_a_positive_integer() {
    assert_eq!(decode(b"i42e"), Ok(Value::Integer(42)));
}

#[test]
fn decodes_a_negative_integer() {
    assert_eq!(decode(b"i-42e"), Ok(Value::Integer(-42)));
}

#[test]
fn decodes_zero() {
    assert_eq!(decode(b"i0e"), Ok(Value::Integer(0)));
}

#[test]
fn decodes_the_largest_integer() {
    assert_eq!(decode(b"i9223372036854775807e"), Ok(Value::Integer(i64::MAX)));
}

#[test]
fn decodes_the_smallest_integer() {
    assert_eq!(decode(b"i-9223372036854775808e"), Ok(Value::Integer(i64::MIN)));
}

#[test]
fn decodes_an_integer_wider_than_32_bits() {
    assert_eq!(decode(b"i4294967296e"), Ok(Value::Integer(4294967296)));
}

#[test]
fn integers_written_by_format_decode_to_themselves() {
    let samples: [i64; 12] = [
        0,
        1,
        -1,
        9,
        10,
        -10,
        99,
        100,
        1234567890,
        -987654321012,
        i64::MAX,
        i64::MIN,
    ];
    for n in samples {
        let encoded = format!("i{}e", n);
        assert_eq!(decode(encoded.as_bytes()), Ok(Value::Integer(n)));
    }
}

#[test]
fn rejects_negative_zero() {
    assert_eq!(decode(b"i-0e"), Err(DecodeError::MalformedInteger(2)));
}

#[test]
fn rejects_negative_zero_before_the_end_of_the_buffer() {
    assert_eq!(decode(b"i-0"), Err(DecodeError::MalformedInteger(2)));
}

#[test]
fn rejects_a_leading_zero() {
    assert_eq!(decode(b"i03e"), Err(DecodeError::MalformedInteger(2)));
    assert_eq!(decode(b"i00e"), Err(DecodeError::MalformedInteger(2)));
}

#[test]
fn rejects_a_negative_number_with_a_leading_zero() {
    assert_eq!(decode(b"i-03e"), Err(DecodeError::MalformedInteger(2)));
}

#[test]
fn rejects_an_empty_run_of_digits() {
    assert_eq!(decode(b"ie"), Err(DecodeError::MalformedInteger(1)));
    assert_eq!(decode(b"i-e"), Err(DecodeError::MalformedInteger(2)));
}

#[test]
fn rejects_a_byte_that_is_no_digit() {
    assert_eq!(decode(b"i3xe"), Err(DecodeError::MalformedInteger(2)));
    assert_eq!(decode(b"i+3e"), Err(DecodeError::MalformedInteger(1)));
}

#[test]
fn rejects_a_second_sign() {
    assert_eq!(decode(b"i--1e"), Err(DecodeError::MalformedInteger(2)));
    assert_eq!(decode(b"i1-e"), Err(DecodeError::MalformedInteger(2)));
}

#[test]
fn reports_an_integer_without_its_end() {
    assert_eq!(decode(b"i35"), Err(DecodeError::UnexpectedEof(3)));
}

#[test]
fn reports_a_buffer_that_ends_behind_the_tag_or_the_sign() {
    assert_eq!(decode(b"i"), Err(DecodeError::UnexpectedEof(1)));
    assert_eq!(decode(b"i-"), Err(DecodeError::UnexpectedEof(2)));
}

#[test]
fn reports_an_overflow_at_the_digit_that_causes_it() {
    assert_eq!(decode(b"i9223372036854775808e"), Err(DecodeError::IntegerOverflow(19)));
    assert_eq!(decode(b"i-9223372036854775809e"), Err(DecodeError::IntegerOverflow(20)));
    assert_eq!(decode(b"i92233720368547758070e"), Err(DecodeError::IntegerOverflow(20)));
}

#[test]
fn reports_an_overflow_before_a_later_fault() {
    assert_eq!(
        decode(b"i99999999999999999999999999x"),
        Err(DecodeError::IntegerOverflow(19))
    );
}

#[test]
fn reports_a_leading_zero_before_an_overflow() {
    assert_eq!(
        decode(b"i0999999999999999999999999e"),
        Err(DecodeError::MalformedInteger(2))
    );
}

#[test]
fn parse_int_moves_the_cursor_behind_the_end() {
    let buffer = b"i7ei8e";
    let mut cursor = Cursor::new(buffer);
    assert_eq!(parse_int(&mut cursor), Ok(7));
    assert_eq!(cursor.position(), 3);
    assert_eq!(parse_int(&mut cursor), Ok(8));
    assert_eq!(cursor.position(), 6);
    assert_eq!(parse_int(&mut cursor), Err(DecodeError::UnexpectedEof(6)));
    assert_eq!(cursor.position(), 6);
}

#[test]
fn parse_int_leaves_the_cursor_at_the_fault() {
    let buffer = b"i12x";
    let mut cursor = Cursor::new(buffer);
    assert_eq!(parse_int(&mut cursor), Err(DecodeError::MalformedInteger(3)));
    assert_eq!(cursor.position(), 3);
}

#[test]
fn parse_int_wants_the_tag() {
    let buffer = b"42e";
    let mut cursor = Cursor::new(buffer);
    assert_eq!(parse_int(&mut cursor), Err(DecodeError::MalformedInteger(0)));
    assert_eq!(cursor.position(), 0);
}
