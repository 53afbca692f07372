use torrent_parser::decode::{decode, parse_torrent_file};
use torrent_parser::value::{Dict, Value};

fn encode_bytes(bytes: &[u8], out: &mut Vec<u8>) {
    out.extend_from_slice(format!("{}:", bytes.len()).as_bytes());
    out.extend_from_slice(bytes);
}

fn encode(value: &Value, out: &mut Vec<u8>) {
    match value {
        Value::Integer(n) => out.extend_from_slice(format!("i{}e", n).as_bytes()),
        Value::ByteString(bytes) => encode_bytes(bytes, out),
        Value::List(items) => {
            out.push(b'l');
            for item in items {
                encode(item, out);
            }
            out.push(b'e');
        }
        Value::Dict(dict) => {
            out.push(b'd');
            for (key, item) in dict.entries() {
                encode_bytes(key, out);
                encode(item, out);
            }
            out.push(b'e');
        }
    }
}

fn encoded(value: &Value) -> Vec<u8> {
    let mut out = Vec::new();
    encode(value, &mut out);
    out
}

fn bytes(s: &[u8]) -> Value {
    Value::ByteString(s.to_vec())
}

fn sample_dict() -> Dict {
    let mut files = Dict::new();
    files.insert(b"length".to_vec(), Value::Integer(1 << 40));
    files.insert(
        b"path".to_vec(),
        Value::List(vec![bytes(b"dir"), bytes(b"file.bin")]),
    );
    let mut info = Dict::new();
    info.insert(b"piece length".to_vec(), Value::Integer(262144));
    info.insert(b"pieces".to_vec(), bytes(&[0xde, 0xad, 0xbe, 0xef, 0x00, 0x65, 0x3a]));
    info.insert(b"files".to_vec(), Value::List(vec![Value::Dict(files)]));
    info.insert(b"".to_vec(), Value::Dict(Dict::new()));
    let mut root = Dict::new();
    root.insert(b"info".to_vec(), Value::Dict(info));
    root.insert(b"announce".to_vec(), bytes(b"http://tracker.example/announce"));
    root.insert(b"creation date".to_vec(), Value::Integer(-1));
    root
}

#[test]
fn an_encoded_value_decodes_to_itself() {
    let samples = vec![
        Value::Integer(0),
        Value::Integer(i64::MIN),
        bytes(b""),
        bytes(b"i1e"),
        bytes(b"0123456789"),
        Value::List(Vec::new()),
        Value::List(vec![Value::List(vec![Value::List(Vec::new())]), bytes(b"e")]),
        Value::Dict(Dict::new()),
        Value::Dict(sample_dict()),
        Value::List(vec![Value::Dict(sample_dict()), Value::Dict(sample_dict())]),
    ];
    for value in samples {
        assert_eq!(decode(&encoded(&value)), Ok(value));
    }
}

#[test]
fn an_encoded_byte_string_of_eleven_bytes_starts_with_its_length() {
    assert_eq!(encoded(&bytes(b"hello world")), b"11:hello world".to_vec());
    assert_eq!(decode(b"11:hello world"), Ok(bytes(b"hello world")));
}

#[test]
fn an_encoded_dictionary_decodes_as_a_metainfo_file() {
    let buffer = encoded(&Value::Dict(sample_dict()));
    assert_eq!(parse_torrent_file(&buffer), Ok(sample_dict()));
}

#[test]
fn a_decoded_value_decodes_again_from_its_encoding() {
    let buffers: [&[u8]; 4] = [
        b"d1:bi1e1:ai2e1:bi3ee",
        b"ld1:ad1:ad1:aleeeee\n",
        b"l0:0:0:e",
        b"d0:0:0:i0ee",
    ];
    for buffer in buffers {
        let first = decode(buffer).unwrap();
        let again = decode(&encoded(&first));
        assert_eq!(again, Ok(first));
    }
}

#[test]
fn a_decoded_buffer_is_the_encoding_of_what_it_decodes_to() {
    let buffers: [&[u8]; 6] = [
        b"i-17e",
        b"0:",
        b"d1:bi1e1:ai2e1:cl1:xd1:y0:eee",
        b"ld1:ad1:ad1:aleeeee",
        b"l0:0:0:e",
        b"d8:announce3:url4:infod6:pieces3:\xff\x00eee",
    ];
    for buffer in buffers {
        let value = decode(buffer).unwrap();
        assert_eq!(encoded(&value), buffer.to_vec());
        let mut with_line_feed = buffer.to_vec();
        with_line_feed.push(b'\n');
        assert_eq!(decode(&with_line_feed), Ok(value));
    }
}

#[test]
fn a_repeated_key_is_all_that_decoding_drops() {
    let value = decode(b"d1:ai1e1:bi2e1:ai3ee").unwrap();
    assert_eq!(encoded(&value), b"d1:ai3e1:bi2ee".to_vec());
}
