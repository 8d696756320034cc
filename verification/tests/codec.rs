use rusql::error::ErrorKind;
use rusql::row::{decode_row, encode_row, Row, EMAIL_SIZE, USERNAME_SIZE};
use rusql::ROW_SIZE;

#[test]
fn round_trip_basic() {
    let row = Row::new(1, b"alice".to_vec(), b"alice@x.com".to_vec());
    let bytes = encode_row(&row).unwrap();
    assert_eq!(bytes.len(), ROW_SIZE);
    let back = decode_row(&bytes).unwrap().unwrap();
    assert_eq!(back, Row::new(1, b"alice".to_vec(), b"alice@x.com".to_vec()));
}

#[test]
fn round_trip_extremes() {
    let row = Row::new(u32::MAX, vec![b'u'; USERNAME_SIZE], vec![b'e'; EMAIL_SIZE]);
    let bytes = encode_row(&row).unwrap();
    let back = decode_row(&bytes).unwrap().unwrap();
    assert_eq!(back.id, u32::MAX);
    assert_eq!(back.username, vec![b'u'; USERNAME_SIZE]);
    assert_eq!(back.email, vec![b'e'; EMAIL_SIZE]);

    let empty = Row::new(0, Vec::new(), Vec::new());
    let bytes = encode_row(&empty).unwrap();
    let back = decode_row(&bytes).unwrap().unwrap();
    assert_eq!(back, Row::new(0, Vec::new(), Vec::new()));
}

#[test]
fn encode_layout_is_bit_exact() {
    let row = Row::new(0x0403_0201, b"ab".to_vec(), b"c@d".to_vec());
    let bytes = encode_row(&row).unwrap();
    assert_eq!(bytes[0], 1);
    assert_eq!(&bytes[1..5], &[0x01, 0x02, 0x03, 0x04]);
    let mut username = vec![0u8; USERNAME_SIZE];
    username[..2].copy_from_slice(b"ab");
    assert_eq!(&bytes[5..5 + USERNAME_SIZE], &username[..]);
    let mut email = vec![0u8; EMAIL_SIZE];
    email[..3].copy_from_slice(b"c@d");
    assert_eq!(&bytes[37..37 + EMAIL_SIZE], &email[..]);
}

#[test]
fn encode_rejects_overwidth_username() {
    let row = Row::new(1, vec![b'u'; USERNAME_SIZE + 1], b"e@x.com".to_vec());
    let err = encode_row(&row).unwrap_err();
    assert_eq!(err.kind, ErrorKind::EncodingError);
}

#[test]
fn encode_rejects_overwidth_email() {
    let row = Row::new(1, b"u".to_vec(), vec![b'e'; EMAIL_SIZE + 1]);
    let err = encode_row(&row).unwrap_err();
    assert_eq!(err.kind, ErrorKind::EncodingError);
}

#[test]
fn unwritten_slot_decodes_to_no_row() {
    let slot = vec![0u8; ROW_SIZE];
    assert!(decode_row(&slot).unwrap().is_none());
}

#[test]
fn wrong_length_is_malformed() {
    let err = decode_row(&[1u8; 10]).unwrap_err();
    assert_eq!(err.kind, ErrorKind::DecodingError);
    let err = decode_row(&vec![1u8; ROW_SIZE + 1]).unwrap_err();
    assert_eq!(err.kind, ErrorKind::DecodingError);
}
