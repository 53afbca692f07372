use torrent_parser::cursor::Cursor;
use torrent_parser::error::DecodeError;

#[test]
fn peek_reads_without_moving() {
    let buffer = b"ab";
    let cursor = Cursor::new(buffer);
    assert_eq!(cursor.peek(), Ok(b'a'));
    assert_eq!(cursor.peek(), Ok(b'a'));
    assert_eq!(cursor.position(), 0);
    assert_eq!(cursor.remaining(), 2);
}

#[test]
fn peek_at_the_end_is_an_error() {
    let mut cursor = Cursor::new(b"ab");
    assert_eq!(cursor.advance(2), Ok(()));
    assert_eq!(cursor.peek(), Err(DecodeError::UnexpectedEof(2)));
    let empty = Cursor::new(b"");
    assert_eq!(empty.peek(), Err(DecodeError::UnexpectedEof(0)));
}

#[test]
fn advance_moves_within_the_buffer() {
    let mut cursor = Cursor::new(b"abcd");
    assert_eq!(cursor.advance(3), Ok(()));
    assert_eq!(cursor.position(), 3);
    assert_eq!(cursor.peek(), Ok(b'd'));
    assert_eq!(cursor.advance(0), Ok(()));
    assert_eq!(cursor.position(), 3);
    assert_eq!(cursor.advance(1), Ok(()));
    assert_eq!(cursor.position(), 4);
    assert_eq!(cursor.remaining(), 0);
}

#[test]
fn advance_beyond_the_buffer_stays() {
    let mut cursor = Cursor::new(b"abcd");
    assert_eq!(cursor.advance(1), Ok(()));
    assert_eq!(cursor.advance(4), Err(DecodeError::UnexpectedEof(1)));
    assert_eq!(cursor.position(), 1);
    assert_eq!(cursor.advance(usize::MAX), Err(DecodeError::UnexpectedEof(1)));
    assert_eq!(cursor.position(), 1);
}

#[test]
fn slice_reads_without_moving() {
    let mut cursor = Cursor::new(b"abcd");
    assert_eq!(cursor.advance(1), Ok(()));
    assert_eq!(cursor.slice(2), Ok(&b"bc"[..]));
    assert_eq!(cursor.slice(3), Ok(&b"bcd"[..]));
    assert_eq!(cursor.slice(0), Ok(&b""[..]));
    assert_eq!(cursor.position(), 1);
}

#[test]
fn slice_beyond_the_buffer_is_an_error() {
    let mut cursor = Cursor::new(b"abcd");
    assert_eq!(cursor.advance(1), Ok(()));
    assert_eq!(cursor.slice(4), Err(DecodeError::UnexpectedEof(1)));
    assert_eq!(cursor.slice(usize::MAX), Err(DecodeError::UnexpectedEof(1)));
}
