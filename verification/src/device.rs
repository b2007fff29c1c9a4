//! What a received frame means to the devices on the bus, and whether it is
//! forwarded.
//!
//! Node 0x4 is the MNP004 lamp, which takes a one-byte body: 'H' switches it on
//! and 'L' off. Node 0x5 is the ComProc MCU, whose frames carry a text message
//! after three leading bytes. Frames for node 0xe stay here; all others are
//! forwarded.
use crate::packet::{PacketReader, body_fits, body_of, destination_of, length_of};
use vstd::prelude::*;

verus! {

/// The node that takes the lamp frames.
pub const MNP004_ADDRESS: u8 = 0x4;

/// The node that takes text messages.
pub const COMPROC_ADDRESS: u8 = 0x5;

/// The node whose frames are consumed here rather than forwarded.
pub const LOCAL_ADDRESS: u8 = 0xe;

/// The text that `bytes` encode as UTF-8, or `None` when they are not valid UTF-8.
pub open spec fn utf8_text(bytes: Seq<u8>) -> Option<Seq<char>> {
    if vstd::utf8::valid_utf8(bytes) {
        Some(vstd::utf8::decode_utf8(bytes))
    } else {
        None
    }
}

/// `core::str::from_utf8`, with the text copied into a `String`. The contract
/// claims what the function's documentation says: it succeeds exactly on
/// valid UTF-8 (no overlong forms, no surrogates, nothing above 0x10FFFF), and
/// the text is then the characters that the bytes encode.
#[verifier::external_body]
fn text_from_utf8(bytes: &[u8]) -> (text: Option<String>)
    ensures
        (match text {
            Some(t) => utf8_text(bytes@) == Some(t@),
            None => utf8_text(bytes@) is None,
        }),
{
    match core::str::from_utf8(bytes) {
        Ok(text) => Some(String::from(text)),
        Err(_) => None,
    }
}

/// The state that one lamp byte asks for.
#[derive(Debug, Clone, Copy, PartialEq, Eq, Structural)]
pub enum LampState {
    /// 'H'
    On,
    /// 'L'
    Off,
    /// Any other byte.
    Unknown(u8),
}

/// The lamp state that `byte` asks for.
pub open spec fn lamp_state_of(byte: u8) -> LampState {
    if byte == 0x48 {
        LampState::On
    } else if byte == 0x4c {
        LampState::Off
    } else {
        LampState::Unknown(byte)
    }
}

/// The lamp byte of a frame for the MNP004: present when the header announces
/// one body byte and the frame holds it.
pub open spec fn mnp004_lamp(raw: Seq<u8>) -> Option<LampState> {
    if length_of(raw) == 1 && body_fits(raw) {
        Some(lamp_state_of(raw[2]))
    } else {
        None
    }
}

/// The message of a frame for the ComProc MCU: the body after its first three
/// bytes, when the frame holds its whole body, the body is longer than three
/// bytes and the rest is UTF-8 text.
pub open spec fn comproc_text(raw: Seq<u8>) -> Option<Seq<char>> {
    if body_fits(raw) && length_of(raw) > 3 {
        utf8_text(body_of(raw).subrange(3, length_of(raw) as int))
    } else {
        None
    }
}

/// What a received frame means to a device.
#[derive(Debug, PartialEq, Eq)]
pub enum DeviceEvent {
    /// A frame for the MNP004 lamp, with the state that it asks for when it
    /// carries a single lamp byte.
    Mnp004(Option<LampState>),
    /// A frame for the ComProc MCU, with its text message when it has one.
    ComProc(Option<String>),
    /// A frame for another node.
    Other,
}

/// The lamp state that one byte asks for.
fn lamp_state(byte: u8) -> (state: LampState)
    ensures
        state == lamp_state_of(byte),
{
    if byte == 0x48 {
        LampState::On
    } else if byte == 0x4c {
        LampState::Off
    } else {
        LampState::Unknown(byte)
    }
}

/// Decides what a received frame means and whether it is forwarded: the first
/// component is `false` exactly for frames addressed to node 0xe.
pub fn handle_packet(packet: &PacketReader) -> (result: (bool, DeviceEvent))
    requires
        packet@.len() >= 3,
    ensures
        result.0 == (destination_of(packet@) != LOCAL_ADDRESS),
        destination_of(packet@) == MNP004_ADDRESS ==> result.1 == DeviceEvent::Mnp004(
            mnp004_lamp(packet@),
        ),
        destination_of(packet@) == COMPROC_ADDRESS ==> (match result.1 {
            DeviceEvent::ComProc(Some(message)) => comproc_text(packet@) == Some(message@),
            DeviceEvent::ComProc(None) => comproc_text(packet@) is None,
            _ => false,
        }),
        destination_of(packet@) != MNP004_ADDRESS && destination_of(packet@) != COMPROC_ADDRESS
            ==> result.1 == DeviceEvent::Other,
{
    let destination = packet.destination_address().value();
    let event = if destination == MNP004_ADDRESS {
        let mut lamp = None;
        if packet.message_length() == 1 {
            if let Ok(body) = packet.body() {
                lamp = Some(lamp_state(body[0]));
            }
        }
        DeviceEvent::Mnp004(lamp)
    } else if destination == COMPROC_ADDRESS {
        let mut message = None;
        if let Ok(body) = packet.body() {
            if body.len() > 3 {
                let text = &body[3..body.len()];
                proof {
                    assert(text@ == body_of(packet@).subrange(3, length_of(packet@) as int));
                }
                message = text_from_utf8(text);
            }
        }
        DeviceEvent::ComProc(message)
    } else {
        DeviceEvent::Other
    };
    (destination != LOCAL_ADDRESS, event)
}

/// Bytes below 0x80 are valid UTF-8 and spell one character each, the
/// character with the byte's value.
pub proof fn lemma_ascii_text(bytes: Seq<u8>)
    requires
        forall|i: int| 0 <= i < bytes.len() ==> #[trigger] bytes[i] < 0x80,
    ensures
        utf8_text(bytes) == Some(Seq::new(bytes.len(), |i: int| bytes[i] as char)),
    decreases bytes.len(),
{
    if bytes.len() > 0 {
        let first = bytes[0];
        assert(first < 0x80);
        assert(first & 0x7f == first) by (bit_vector)
            requires
                first < 0x80,
        ;
        let rest = bytes.subrange(1, bytes.len() as int);
        assert(vstd::utf8::pop_first_scalar(bytes) == rest);
        assert forall|i: int| 0 <= i < rest.len() implies #[trigger] rest[i] < 0x80 by {
            assert(rest[i] == bytes[i + 1]);
        }
        lemma_ascii_text(rest);
        assert(vstd::utf8::valid_utf8(bytes));
        assert(vstd::utf8::decode_utf8(bytes) =~= Seq::new(bytes.len(), |i: int| bytes[i] as char));
    } else {
        assert(vstd::utf8::decode_utf8(bytes) =~= Seq::<char>::empty());
        assert(Seq::new(bytes.len(), |i: int| bytes[i] as char) =~= Seq::<char>::empty());
    }
}

/// The message of a frame for the ComProc MCU is all of the frame's body
/// after its first three bytes, decoded as UTF-8: there is one exactly when
/// the frame holds the whole body its header announces, the body is longer
/// than three bytes, and the bytes after the first three are valid UTF-8;
/// when they are all below 0x80, the message has one character per byte.
pub proof fn lemma_comproc_message(raw: Seq<u8>)
    requires
        raw.len() >= 2,
    ensures
        ({
            let len = (raw[1] % 64) as int;
            let text = raw.subrange(5, 2 + len);
            &&& comproc_text(raw) is Some <==> (2 + len <= raw.len() && len > 3
                && vstd::utf8::valid_utf8(text))
            &&& comproc_text(raw) matches Some(message) ==> message == vstd::utf8::decode_utf8(text)
            &&& (2 + len <= raw.len() && len > 3 && forall|i: int| 5 <= i < 2 + len ==> #[trigger] raw[i] < 0x80)
                ==> comproc_text(raw) == Some(Seq::new((len - 3) as nat, |i: int| raw[5 + i] as char))
        }),
{
    let len = (raw[1] % 64) as int;
    let text = raw.subrange(5, 2 + len);
    if 2 + len <= raw.len() && len > 3 {
        assert(body_of(raw).subrange(3, length_of(raw) as int) =~= text);
        if forall|i: int| 5 <= i < 2 + len ==> #[trigger] raw[i] < 0x80 {
            assert forall|i: int| 0 <= i < text.len() implies #[trigger] text[i] < 0x80 by {
                assert(text[i] == raw[5 + i]);
            }
            lemma_ascii_text(text);
            assert(Seq::new(text.len(), |i: int| text[i] as char) =~= Seq::new((len - 3) as nat, |i: int| raw[5 + i] as char));
        }
    }
}

} // verus!
