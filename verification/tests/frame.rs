use msmp::frame::{frame_from_hex, FrameError};

#[test]
fn frame_from_hex_builds_header_and_body() {
    assert_eq!(frame_from_hex(2, 1, "5678"), Ok(vec![0x12, 0x02, 0x56, 0x78]));
}

#[test]
fn frame_from_hex_accepts_both_cases() {
    assert_eq!(frame_from_hex(0x0f, 0x0e, "aBcD"), Ok(vec![0xef, 0x02, 0xab, 0xcd]));
}

#[test]
fn frame_from_hex_empty_body() {
    assert_eq!(frame_from_hex(3, 4, ""), Ok(vec![0x43, 0x00]));
}

#[test]
fn frame_from_hex_longest_body() {
    let text = "ab".repeat(63);
    let frame = frame_from_hex(1, 2, &text).unwrap();
    assert_eq!(frame.len(), 65);
    assert_eq!(&frame[..2], &[0x21, 0x3f]);
    assert!(frame[2..].iter().all(|&b| b == 0xab));
}

#[test]
fn frame_from_hex_checks_source_first() {
    assert_eq!(frame_from_hex(0x10, 0x10, "zz"), Err(FrameError::InvalidSourceAddress));
}

#[test]
fn frame_from_hex_checks_destination() {
    assert_eq!(frame_from_hex(0x01, 0x10, "zz"), Err(FrameError::InvalidDestinationAddress));
}

#[test]
fn frame_from_hex_refuses_bad_hex() {
    assert_eq!(frame_from_hex(1, 2, "123"), Err(FrameError::InvalidHex));
    assert_eq!(frame_from_hex(1, 2, "zz"), Err(FrameError::InvalidHex));
    assert_eq!(frame_from_hex(1, 2, "\u{e9}1"), Err(FrameError::InvalidHex));
}

#[test]
fn frame_from_hex_refuses_long_body() {
    let text = "00".repeat(64);
    assert_eq!(frame_from_hex(1, 2, &text), Err(FrameError::BodyTooLong));
}
