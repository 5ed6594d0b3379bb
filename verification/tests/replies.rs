use bmlite::commands::{
    find_u32, has_arg, joined, read_code, read_count, read_done, read_identity, read_remaining,
    read_version, value_u32,
};
use bmlite::payload::Argument;
use bmlite::Error;

fn argument(tag: u16, value: &[u8]) -> Argument {
    Argument { tag, value: value.to_vec() }
}

/// A payload: command, count, arguments, and four bytes where the CRC stands.
fn payload(cmd: u16, args: &[(u16, &[u8])]) -> Vec<u8> {
    let mut out = Vec::new();
    out.extend_from_slice(&cmd.to_le_bytes());
    out.extend_from_slice(&(args.len() as u16).to_le_bytes());
    for (tag, value) in args {
        out.extend_from_slice(&tag.to_le_bytes());
        out.extend_from_slice(&(value.len() as u16).to_le_bytes());
        out.extend_from_slice(value);
    }
    out.extend_from_slice(&[0xc0, 0xc1, 0xc2, 0xc3]);
    out
}

const RESULT: u16 = 0x2001;
const COUNT: u16 = 0x2002;
const VERSION: u16 = 0x6003;
const MATCH: u16 = 0x000a;
const ID: u16 = 0x0006;
const UNEXPECTED: Error<()> = Error::UnexpectedResponse;

#[test]
fn value_is_a_number_of_one_to_eight_bytes() {
    assert_eq!(value_u32(&[]), None);
    assert_eq!(value_u32(&[7]), Some(7));
    assert_eq!(value_u32(&[0x34, 0x12]), Some(0x1234));
    assert_eq!(value_u32(&[1, 2, 3]), Some(0x030201));
    assert_eq!(value_u32(&[0x78, 0x56, 0x34, 0x12]), Some(0x1234_5678));
    assert_eq!(value_u32(&[0xff, 0xff, 0xff, 0xff]), Some(0xffff_ffff));
    assert_eq!(value_u32(&[1, 0, 0, 0, 9]), Some(1));
    assert_eq!(value_u32(&[1, 2, 3, 4, 5, 6, 7, 8]), Some(0x0403_0201));
    assert_eq!(value_u32(&[1, 2, 3, 4, 5, 6, 7, 8, 9]), None);
}

#[test]
fn arguments_are_found_by_tag() {
    let args = vec![argument(1, &[1]), argument(2, &[2, 0]), argument(1, &[3])];
    assert!(has_arg(&args, 1));
    assert!(has_arg(&args, 2));
    assert!(!has_arg(&args, 3));
    assert!(!has_arg(&Vec::new(), 1));
    assert_eq!(joined(&args, 1), vec![1, 3]);
    assert_eq!(joined(&args, 2), vec![2, 0]);
    assert_eq!(joined(&args, 3), Vec::<u8>::new());
    assert_eq!(find_u32::<()>(&args, 1), Ok(Some(3)));
    assert_eq!(find_u32::<()>(&args, 2), Ok(Some(2)));
    assert_eq!(find_u32::<()>(&args, 3), Ok(None));
}

#[test]
fn a_value_that_is_no_number_is_a_protocol_error() {
    let args = vec![argument(1, &[]), argument(1, &[3]), argument(2, &[0; 9])];
    assert_eq!(find_u32::<()>(&args, 1), Err(UNEXPECTED));
    assert_eq!(find_u32::<()>(&args, 2), Err(UNEXPECTED));
    assert_eq!(find_u32::<()>(&args, 3), Ok(None));
}

#[test]
fn version_is_read() {
    let p = payload(0x3004, &[(RESULT, &[0]), (VERSION, b"BM-Lite 1.0")]);
    assert_eq!(read_version::<()>(&p, 0x3004), Ok(b"BM-Lite 1.0".to_vec()));
    assert_eq!(read_version::<()>(&p, 0x3005), Err(UNEXPECTED));
    let p = payload(0x3004, &[(VERSION, b"x")]);
    assert_eq!(read_version::<()>(&p, 0x3004), Err(UNEXPECTED));
    let p = payload(0x3004, &[(RESULT, &[0])]);
    assert_eq!(read_version::<()>(&p, 0x3004), Err(UNEXPECTED));
    let p = payload(0x3004, &[(RESULT, &[]), (VERSION, b"x")]);
    assert_eq!(read_version::<()>(&p, 0x3004), Ok(b"x".to_vec()));
}

#[test]
fn result_code_is_the_low_byte() {
    let p = payload(1, &[(RESULT, &[0])]);
    assert_eq!(read_code::<()>(&p, 1), Ok(0));
    let p = payload(1, &[(COUNT, &[1]), (RESULT, &[0xab, 0xcd])]);
    assert_eq!(read_code::<()>(&p, 1), Ok(0xab));
    let p = payload(1, &[(COUNT, &[1])]);
    assert_eq!(read_code::<()>(&p, 1), Err(UNEXPECTED));
    let p = payload(1, &[(RESULT, &[])]);
    assert_eq!(read_code::<()>(&p, 1), Err(UNEXPECTED));
    assert_eq!(read_code::<()>(&[1, 0, 1, 0, 1], 1), Err(UNEXPECTED));
}

#[test]
fn remaining_defaults_to_zero_and_count_does_not() {
    let p = payload(2, &[(RESULT, &[0])]);
    assert_eq!(read_remaining::<()>(&p, 2), Ok(0));
    assert_eq!(read_count::<()>(&p, 2), Err(UNEXPECTED));
    let p = payload(2, &[(COUNT, &[3, 0, 0, 0]), (RESULT, &[0]), (COUNT, &[8, 1])]);
    assert_eq!(read_remaining::<()>(&p, 2), Ok(0x108));
    assert_eq!(read_count::<()>(&p, 2), Ok(0x108));
    let p = payload(2, &[(COUNT, &[3, 0, 0, 0])]);
    assert_eq!(read_remaining::<()>(&p, 2), Err(UNEXPECTED));
    assert_eq!(read_count::<()>(&p, 2), Err(UNEXPECTED));
    let p = payload(2, &[(COUNT, &[]), (RESULT, &[0])]);
    assert_eq!(read_remaining::<()>(&p, 2), Err(UNEXPECTED));
    assert_eq!(read_count::<()>(&p, 2), Err(UNEXPECTED));
}

#[test]
fn confirmation_needs_the_result() {
    assert_eq!(read_done::<()>(&payload(6, &[(RESULT, &[1])]), 6), Ok(0));
    assert_eq!(read_done::<()>(&payload(6, &[(COUNT, &[1])]), 6), Err(UNEXPECTED));
    assert_eq!(read_done::<()>(&payload(6, &[]), 6), Err(UNEXPECTED));
    assert_eq!(read_done::<()>(&payload(7, &[(RESULT, &[1])]), 6), Err(UNEXPECTED));
}

#[test]
fn identity_is_read() {
    let p = payload(3, &[(MATCH, &[1]), (ID, &[5, 0]), (RESULT, &[0])]);
    assert_eq!(read_identity::<()>(&p, 3), Ok(5));
    let p = payload(3, &[(MATCH, &[0]), (ID, &[5, 0]), (RESULT, &[0])]);
    assert_eq!(read_identity::<()>(&p, 3), Err(Error::NoMatch));
    let p = payload(3, &[(ID, &[5, 0]), (RESULT, &[0])]);
    assert_eq!(read_identity::<()>(&p, 3), Err(Error::NoMatch));
    let p = payload(3, &[(MATCH, &[1]), (RESULT, &[0])]);
    assert_eq!(read_identity::<()>(&p, 3), Ok(0xffff_ffff));
    let p = payload(3, &[(MATCH, &[1]), (ID, &[5, 0])]);
    assert_eq!(read_identity::<()>(&p, 3), Err(UNEXPECTED));
    let p = payload(3, &[(MATCH, &[]), (RESULT, &[0])]);
    assert_eq!(read_identity::<()>(&p, 3), Err(UNEXPECTED));
    let p = payload(3, &[(MATCH, &[0, 0, 0, 0, 1]), (RESULT, &[0])]);
    assert_eq!(read_identity::<()>(&p, 3), Err(Error::NoMatch));
}

#[test]
fn no_match_comes_before_all_else() {
    let p = payload(3, &[(MATCH, &[0])]);
    assert_eq!(read_identity::<()>(&p, 3), Err(Error::NoMatch));
    let p = payload(3, &[(MATCH, &[0]), (ID, &[0; 9])]);
    assert_eq!(read_identity::<()>(&p, 3), Err(Error::NoMatch));
    let p = payload(3, &[(MATCH, &[0]), (ID, &[]), (RESULT, &[0])]);
    assert_eq!(read_identity::<()>(&p, 3), Err(Error::NoMatch));
    let p = payload(3, &[(MATCH, &[1]), (MATCH, &[0, 0]), (ID, &[4, 0]), (RESULT, &[0])]);
    assert_eq!(read_identity::<()>(&p, 3), Err(Error::NoMatch));
    let p = payload(3, &[(ID, &[]), (RESULT, &[0])]);
    assert_eq!(read_identity::<()>(&p, 3), Err(Error::NoMatch));
}

#[test]
fn identity_needs_a_verdict_or_a_word_on_the_match() {
    let p = payload(3, &[]);
    assert_eq!(read_identity::<()>(&p, 3), Err(UNEXPECTED));
    let p = payload(3, &[(ID, &[5, 0])]);
    assert_eq!(read_identity::<()>(&p, 3), Err(UNEXPECTED));
    let p = payload(3, &[(COUNT, &[1]), (VERSION, b"x")]);
    assert_eq!(read_identity::<()>(&p, 3), Err(UNEXPECTED));
    let p = payload(3, &[(RESULT, &[0])]);
    assert_eq!(read_identity::<()>(&p, 3), Err(Error::NoMatch));
}

#[test]
fn a_match_needs_a_readable_id_where_one_is_named() {
    let p = payload(3, &[(MATCH, &[1]), (ID, &[]), (RESULT, &[0])]);
    assert_eq!(read_identity::<()>(&p, 3), Err(UNEXPECTED));
    let p = payload(3, &[(MATCH, &[1]), (ID, &[0; 9]), (RESULT, &[0])]);
    assert_eq!(read_identity::<()>(&p, 3), Err(UNEXPECTED));
    let p = payload(3, &[(MATCH, &[0; 9]), (RESULT, &[0])]);
    assert_eq!(read_identity::<()>(&p, 3), Err(UNEXPECTED));
    let p = payload(3, &[(MATCH, &[2]), (ID, &[1, 0]), (ID, &[9, 1]), (RESULT, &[0])]);
    assert_eq!(read_identity::<()>(&p, 3), Ok(0x109));
}
