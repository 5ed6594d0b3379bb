use bmlite::driver::id_after;
use bmlite::exchange::{ack_bytes, body_length, body_payload, crc_verifies, is_ack, zero_bytes};
use bmlite::Error;

#[test]
fn acknowledgement_is_four_fixed_bytes() {
    assert_eq!(ack_bytes(), vec![0x7f, 0xff, 0x01, 0x7f]);
    assert!(is_ack(&[0x7f, 0xff, 0x01, 0x7f]));
    assert!(!is_ack(&[0x7f, 0xff, 0x01, 0x7e]));
    assert!(!is_ack(&[0x7f, 0x01, 0xff, 0x7f]));
    assert!(!is_ack(&[0, 0, 0, 0]));
    assert!(!is_ack(&[0x7f, 0xff, 0x01]));
    assert!(!is_ack(&[0x7f, 0xff, 0x01, 0x7f, 0]));
}

#[test]
fn zero_bytes_are_zero() {
    assert_eq!(zero_bytes(0), Vec::<u8>::new());
    assert_eq!(zero_bytes(4), vec![0, 0, 0, 0]);
    assert_eq!(zero_bytes(259).len(), 259);
}

#[test]
fn body_is_four_bytes_longer_than_the_header_says() {
    assert_eq!(body_length(&[0, 0, 15, 0]), 19);
    assert_eq!(body_length(&[0, 0, 0, 0]), 4);
    assert_eq!(body_length(&[9, 9, 255, 9]), 259);
}

#[test]
fn crc_of_a_body_is_checked() {
    let good = [
        0x09, 0x00, 0x01, 0x00, 0x01, 0x00, 0x01, 0x00, 0x01, 0x00, 0x01, 0x20, 0x01, 0x00, 0x00,
        0x83, 0xe1, 0x25, 0x90,
    ];
    assert!(crc_verifies(&good));
    let mut bad = good;
    bad[18] = 0x91;
    assert!(!crc_verifies(&bad));
    let mut bad = good;
    bad[0] = 0x08;
    assert!(!crc_verifies(&bad));
    assert!(crc_verifies(&[0, 0, 0, 0]));
    assert!(!crc_verifies(&[0, 0, 0]));
    assert!(crc_verifies(b"123456789\x26\x39\xf4\xcb"));
}

#[test]
fn payload_follows_the_sequence_fields() {
    assert_eq!(body_payload::<()>(vec![9, 0, 1, 0, 1, 0, 7, 8, 9]), Ok(vec![7, 8, 9]));
    assert_eq!(body_payload::<()>(vec![9, 0, 2, 3, 2, 3]), Ok(vec![]));
    assert_eq!(body_payload::<()>(vec![9, 0, 1, 0, 2, 0, 7]), Err(Error::UnexpectedResponse));
    assert_eq!(body_payload::<()>(vec![9, 0, 1, 0, 1, 1, 7]), Err(Error::UnexpectedResponse));
    assert_eq!(body_payload::<()>(vec![9, 0, 1, 0, 1]), Err(Error::UnexpectedResponse));
    assert_eq!(body_payload::<()>(vec![]), Err(Error::UnexpectedResponse));
}

#[test]
fn new_template_gets_the_id_after_the_count() {
    assert_eq!(id_after(0), 1);
    assert_eq!(id_after(8), 9);
    assert_eq!(id_after(0xfffe), 0xffff);
    assert_eq!(id_after(0xffff), 0);
    assert_eq!(id_after(0x1_0000), 1);
    assert_eq!(id_after(0xffff_ffff), 0);
}
