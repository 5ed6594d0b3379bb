use bmlite::codec::{as_u16, push_u16, push_u32};
use bmlite::commands::{capture_request, delete_all_request, extract_request, identify_request};
use bmlite::transport::{
    add_arg, add_arg_u16, add_arg_u32, add_arg_u8, create_transport_buffer, finalise, get_cmd,
    push_crc, set_cmd,
};

#[test]
fn as_u16_joins_high_and_low() {
    assert_eq!(as_u16(0x12, 0x34), 0x1234);
    assert_eq!(as_u16(0, 0), 0);
    assert_eq!(as_u16(0xff, 0xff), 0xffff);
    assert_eq!(as_u16(0x20, 0x01), 0x2001);
}

#[test]
fn push_u16_is_little_endian() {
    assert_eq!(push_u16(vec![9], 0x1234), vec![9, 0x34, 0x12]);
    assert_eq!(push_u16(Vec::new(), 0xff00), vec![0x00, 0xff]);
}

#[test]
fn push_u32_is_little_endian() {
    assert_eq!(push_u32(vec![9], 0x1234_5678), vec![9, 0x78, 0x56, 0x34, 0x12]);
    assert_eq!(push_u32(Vec::new(), 0xff00_0001), vec![0x01, 0x00, 0x00, 0xff]);
}

#[test]
fn buffer_starts_with_the_preamble() {
    assert_eq!(create_transport_buffer(), vec![1, 0, 0, 0, 0, 0, 1, 0, 1, 0]);
}

#[test]
fn set_cmd_appends_command_and_zero_count() {
    assert_eq!(
        set_cmd(create_transport_buffer(), 0x3004),
        vec![1, 0, 0, 0, 0, 0, 1, 0, 1, 0, 0x04, 0x30, 0, 0]
    );
}

#[test]
fn arguments_are_counted_and_appended() {
    let buf = set_cmd(create_transport_buffer(), 0x0002);
    let buf = add_arg(buf, 0x1004);
    assert_eq!(buf[12..], [1, 0, 0x04, 0x10, 0, 0]);
    let buf = add_arg_u8(buf, 0x0a0b, 0x7e);
    assert_eq!(buf[12..14], [2, 0]);
    assert_eq!(buf[18..], [0x0b, 0x0a, 2, 0, 0x7e, 0]);
    let buf = add_arg_u16(buf, 0x0006, 42);
    assert_eq!(buf[12..14], [3, 0]);
    assert_eq!(buf[24..], [0x06, 0x00, 2, 0, 42, 0]);
    let buf = add_arg_u32(buf, 0x5001, 0x0102_0304);
    assert_eq!(buf[12..14], [4, 0]);
    assert_eq!(buf[30..], [0x01, 0x50, 4, 0, 4, 3, 2, 1]);
    assert_eq!(buf[..12], [1, 0, 0, 0, 0, 0, 1, 0, 1, 0, 2, 0]);
}

#[test]
fn get_cmd_reads_the_command_field() {
    assert_eq!(get_cmd(&create_transport_buffer()), None);
    assert_eq!(get_cmd(&set_cmd(create_transport_buffer(), 0x4002)), Some(0x4002));
    assert_eq!(get_cmd(&[0, 0, 0, 0, 0, 0, 0, 0, 0, 0, 0x34]), None);
    assert_eq!(get_cmd(&[0, 0, 0, 0, 0, 0, 0, 0, 0, 0, 0x34, 0x12]), Some(0x1234));
}

#[test]
fn push_crc_covers_all_from_offset_four() {
    let buf = vec![0xaa, 0xbb, 0xcc, 0xdd, b'1', b'2', b'3', b'4', b'5', b'6', b'7', b'8', b'9'];
    let out = push_crc(buf.clone());
    assert_eq!(out[..13], buf[..]);
    assert_eq!(out[13..], [0x26, 0x39, 0xf4, 0xcb]);
    assert_eq!(push_crc(vec![1, 2, 3, 4]), vec![1, 2, 3, 4, 0, 0, 0, 0]);
}

#[test]
fn capture_frame_bytes() {
    assert_eq!(
        finalise(capture_request(0)),
        vec![
            0x01, 0x00, 0x0a, 0x00, 0x04, 0x00, 0x01, 0x00, 0x01, 0x00, 0x01, 0x00, 0x00, 0x00,
            0x52, 0x7c, 0x2b, 0x55
        ]
    );
}

#[test]
fn delete_all_frame_bytes() {
    assert_eq!(
        finalise(delete_all_request()),
        vec![
            0x01, 0x00, 0x12, 0x00, 0x0c, 0x00, 0x01, 0x00, 0x01, 0x00, 0x02, 0x40, 0x02, 0x00,
            0x09, 0x10, 0x00, 0x00, 0x07, 0x00, 0x00, 0x00, 0xb1, 0x2e, 0x45, 0x93
        ]
    );
}

#[test]
fn extract_and_identify_frame_bytes() {
    assert_eq!(
        finalise(extract_request()),
        vec![
            0x01, 0x00, 0x0e, 0x00, 0x08, 0x00, 0x01, 0x00, 0x01, 0x00, 0x05, 0x00, 0x01, 0x00,
            0x08, 0x00, 0x00, 0x00, 0x8e, 0xb5, 0x8d, 0xd0
        ]
    );
    assert_eq!(
        finalise(identify_request()),
        vec![
            0x01, 0x00, 0x0a, 0x00, 0x04, 0x00, 0x01, 0x00, 0x01, 0x00, 0x03, 0x00, 0x00, 0x00,
            0xd9, 0xb4, 0x22, 0xff
        ]
    );
}

/// A frame with `n` bytes of payload, of which the first four are a command
/// and a count.
fn frame_with_payload(n: usize) -> Vec<u8> {
    let mut buf = set_cmd(create_transport_buffer(), 0x0001);
    while buf.len() < 10 + n {
        let fill = (buf.len() % 251) as u8;
        buf.push(fill);
    }
    buf
}

#[test]
fn outer_length_is_inner_length_and_six() {
    for n in [4usize, 5, 16, 100, 248, 249] {
        let out = finalise(frame_with_payload(n));
        assert_eq!(out.len(), 10 + n + 4);
        assert_eq!(out[4] as usize, n);
        assert_eq!(out[2] as usize, out[4] as usize + 6);
        assert_eq!(out[3], 0);
        assert_eq!(out[5], 0);
        assert_eq!(out[..2], [1, 0]);
        assert_eq!(out[6..10], [1, 0, 1, 0]);
    }
}

#[test]
fn frame_ends_with_the_crc_of_its_body() {
    for n in [4usize, 9, 77, 249] {
        let out = finalise(frame_with_payload(n));
        let end = out.len();
        let crc = crc::crc32::checksum_ieee(&out[4..end - 4]);
        assert_eq!(out[end - 4..], crc.to_le_bytes());
    }
}

#[test]
fn empty_preamble_can_be_finalised() {
    let out = finalise(create_transport_buffer());
    assert_eq!(out[..10], [1, 0, 6, 0, 0, 0, 1, 0, 1, 0]);
    assert_eq!(out.len(), 14);
}
