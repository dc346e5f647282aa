//! Tests of the record codec: round trips, framing, and error reporting.

use kvs::codec::{decode_command, encode_command, Command};
use kvs::error::KvsError;

#[test]
fn put_round_trip() {
    let cmd = Command::Put("key".to_string(), "value".to_string());
    let bytes = encode_command(&cmd);
    let (decoded, len) = decode_command(&bytes, 0).unwrap().unwrap();
    assert_eq!(decoded, cmd);
    assert_eq!(len, bytes.len());
}

#[test]
fn remove_round_trip() {
    let cmd = Command::Remove("key".to_string());
    let bytes = encode_command(&cmd);
    let (decoded, len) = decode_command(&bytes, 0).unwrap().unwrap();
    assert_eq!(decoded, cmd);
    assert_eq!(len, bytes.len());
}

#[test]
fn empty_strings_round_trip() {
    let cmd = Command::Put(String::new(), String::new());
    let bytes = encode_command(&cmd);
    assert_eq!(bytes.len(), 17);
    let (decoded, len) = decode_command(&bytes, 0).unwrap().unwrap();
    assert_eq!(decoded, cmd);
    assert_eq!(len, 17);
}

#[test]
fn unicode_round_trip() {
    let cmd = Command::Put("héllo".to_string(), "wörld — ₤".to_string());
    let bytes = encode_command(&cmd);
    let (decoded, len) = decode_command(&bytes, 0).unwrap().unwrap();
    assert_eq!(decoded, cmd);
    assert_eq!(len, bytes.len());
}

#[test]
fn record_lengths_are_exact() {
    // tag + two (8-byte length + UTF-8 bytes) items.
    let put = encode_command(&Command::Put("a".to_string(), "bc".to_string()));
    assert_eq!(put.len(), 1 + 8 + 1 + 8 + 2);
    // tag + one item.
    let remove = encode_command(&Command::Remove("abc".to_string()));
    assert_eq!(remove.len(), 1 + 8 + 3);
}

#[test]
fn concatenated_records_decode_in_sequence() {
    let first = Command::Put("k1".to_string(), "v1".to_string());
    let second = Command::Remove("k1".to_string());
    let mut bytes = encode_command(&first);
    let mut tail = encode_command(&second);
    let first_len = bytes.len();
    bytes.append(&mut tail);
    let (decoded, len) = decode_command(&bytes, 0).unwrap().unwrap();
    assert_eq!(decoded, first);
    assert_eq!(len, first_len);
    let (decoded2, len2) = decode_command(&bytes, len).unwrap().unwrap();
    assert_eq!(decoded2, second);
    assert_eq!(len + len2, bytes.len());
}

#[test]
fn end_of_input_at_record_boundary_is_not_an_error() {
    let bytes = encode_command(&Command::Remove("k".to_string()));
    let end = bytes.len();
    assert!(decode_command(&bytes, end).unwrap().is_none());
    let empty: Vec<u8> = Vec::new();
    assert!(decode_command(&empty, 0).unwrap().is_none());
}

#[test]
fn truncated_record_is_a_decode_error() {
    let mut bytes = encode_command(&Command::Put("key".to_string(), "value".to_string()));
    bytes.truncate(bytes.len() - 1);
    let err = decode_command(&bytes, 0).unwrap_err();
    assert!(matches!(err, KvsError::Decode(_)));
}

#[test]
fn unknown_tag_is_a_decode_error() {
    let bytes = vec![0xffu8, 0, 0, 0];
    let err = decode_command(&bytes, 0).unwrap_err();
    assert!(matches!(err, KvsError::Decode(_)));
}

#[test]
fn invalid_utf8_is_a_decode_error() {
    // tag Put, key of length 1 whose byte is not valid UTF-8, then nothing.
    let mut bytes = vec![0u8];
    bytes.extend_from_slice(&1u64.to_le_bytes());
    bytes.push(0xff);
    bytes.extend_from_slice(&0u64.to_le_bytes());
    let err = decode_command(&bytes, 0).unwrap_err();
    assert!(matches!(err, KvsError::Decode(_)));
}
