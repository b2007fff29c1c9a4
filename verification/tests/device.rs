use msmp::device::{handle_packet, DeviceEvent, LampState};
use msmp::packet::PacketReader;

fn handle(raw: &[u8]) -> (bool, DeviceEvent) {
    handle_packet(&PacketReader::new(raw))
}

#[test]
fn lamp_on_and_off() {
    assert_eq!(handle(&[0x42, 0x01, b'H']), (true, DeviceEvent::Mnp004(Some(LampState::On))));
    assert_eq!(handle(&[0x42, 0x01, b'L']), (true, DeviceEvent::Mnp004(Some(LampState::Off))));
}

#[test]
fn lamp_other_byte() {
    assert_eq!(
        handle(&[0x42, 0x01, b'x']),
        (true, DeviceEvent::Mnp004(Some(LampState::Unknown(b'x'))))
    );
}

#[test]
fn lamp_frame_without_single_byte_body() {
    assert_eq!(handle(&[0x42, 0x02, b'H', b'L']), (true, DeviceEvent::Mnp004(None)));
    // The header announces one byte but the frame holds none.
    assert_eq!(handle(&[0x42, 0x01]), (true, DeviceEvent::Mnp004(None)));
}

#[test]
fn comproc_message_after_three_bytes() {
    let raw = [0x52, 0x08, 1, 2, 3, b'h', b'e', b'l', b'l', b'o'];
    assert_eq!(handle(&raw), (true, DeviceEvent::ComProc(Some(String::from("hello")))));
}

#[test]
fn comproc_without_message() {
    assert_eq!(handle(&[0x52, 0x03, 1, 2, 3]), (true, DeviceEvent::ComProc(None)));
    assert_eq!(handle(&[0x52, 0x05, 1, 2, 3, 0xff, 0xfe]), (true, DeviceEvent::ComProc(None)));
    assert_eq!(handle(&[0x52, 0x05, 1, 2, 3]), (true, DeviceEvent::ComProc(None)));
}

#[test]
fn local_frames_are_not_forwarded() {
    assert_eq!(handle(&[0xe2, 0x01, b'H']), (false, DeviceEvent::Other));
    assert_eq!(handle(&[0x12, 0x01, b'H']), (true, DeviceEvent::Other));
}

#[test]
fn comproc_message_in_two_byte_characters() {
    let raw = [0x52, 0x07, 1, 2, 3, 0xc3, 0xa9, 0xc3, 0xa0];
    assert_eq!(handle(&raw), (true, DeviceEvent::ComProc(Some(String::from("\u{e9}\u{e0}")))));
    // A lone continuation byte is not UTF-8.
    assert_eq!(handle(&[0x52, 0x04, 1, 2, 3, 0x80]), (true, DeviceEvent::ComProc(None)));
}
