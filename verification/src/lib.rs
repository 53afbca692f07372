//! A decoder for Bencode, the format of BitTorrent metainfo files, and a
//! reader of the fields of a decoded metainfo dictionary.
//!
//! [`decode::decode`] and [`decode::parse_torrent_file`] turn a buffer into a
//! [`value::Value`], or tell with a [`error::DecodeError`] what is wrong with
//! the buffer and where. What they return is defined on sequences of bytes by
//! the functions in [`decode`] and [`scalar`] whose names start with `spec_`.
//! [`encoding`] defines how a value is written, and [`encoding_lemmas`] shows
//! that the decoder accepts the encodings of values and nothing else, and
//! returns the value that was encoded. [`metainfo`] reads the fields of a
//! dictionary as text and lays them out for display.

pub mod ascii;
pub mod cursor;
pub mod decode;
pub mod decode_lemmas;
pub mod encoding;
pub mod encoding_lemmas;
pub mod error;
pub mod metainfo;
pub mod number;
pub mod scalar;
pub mod value;
