//! Building a frame to send from its two addresses and a body written in hex.
use crate::packet::{
    body_fits, body_of, destination_of, length_of, message_type_of_code, source_of, type_code_of,
    Address, MessageType, PacketWriter,
};
use vstd::prelude::*;

verus! {

/// The value of one hexadecimal digit, upper or lower case.
pub open spec fn hex_digit(c: char) -> Option<u8> {
    let v = c as u32;
    if 0x30 <= v && v <= 0x39 {
        Some((v - 0x30) as u8)
    } else if 0x41 <= v && v <= 0x46 {
        Some((v - 0x41 + 10) as u8)
    } else if 0x61 <= v && v <= 0x66 {
        Some((v - 0x61 + 10) as u8)
    } else {
        None
    }
}

/// The bytes that a hex text spells: each pair of digits is one byte, the first
/// digit its high nibble. `None` unless the text is an even number of hex digits.
pub open spec fn hex_decoded(text: Seq<char>) -> Option<Seq<u8>> {
    if text.len() % 2 == 0 && forall|i: int| 0 <= i < text.len() ==> #[trigger] hex_digit(text[i]) is Some {
        Some(
            Seq::new(
                text.len() / 2,
                |k: int| (hex_digit(text[2 * k]).unwrap() * 16 + hex_digit(text[2 * k + 1]).unwrap()) as u8,
            ),
        )
    } else {
        None
    }
}

/// `hex::decode` on the text's bytes. The contract claims what its source shows:
/// it fails on an odd number of bytes or on any byte that is not a hex digit
/// (a character outside ASCII is never one), and otherwise turns each pair of
/// digits into one byte, high nibble first.
#[verifier::external_body]
fn decode_hex(text: &str) -> (bytes: Option<Vec<u8>>)
    ensures
        (match bytes {
            Some(b) => hex_decoded(text@) == Some(b@),
            None => hex_decoded(text@) is None,
        }),
{
    match hex::decode(text) {
        Ok(bytes) => Some(bytes),
        Err(_) => None,
    }
}

/// Why a frame could not be built.
#[derive(Debug, PartialEq, Eq, Structural)]
pub enum FrameError {
    InvalidSourceAddress,
    InvalidDestinationAddress,
    InvalidHex,
    BodyTooLong,
}

/// A normal frame from `source` to `destination` carrying `body`.
pub open spec fn frame_of(source: u8, destination: u8, body: Seq<u8>) -> Seq<u8> {
    seq![(destination * 16 + source) as u8, body.len() as u8] + body
}

/// The frame for the given addresses and hex body, or the first thing wrong
/// with them, checked in this order: source address, destination address,
/// hex text, body length (at most 63 bytes).
pub open spec fn framed(source: u8, destination: u8, text: Seq<char>) -> Result<Seq<u8>, FrameError> {
    if source > 0x0f {
        Err(FrameError::InvalidSourceAddress)
    } else if destination > 0x0f {
        Err(FrameError::InvalidDestinationAddress)
    } else {
        match hex_decoded(text) {
            None => Err(FrameError::InvalidHex),
            Some(body) => if body.len() > 0x3f {
                Err(FrameError::BodyTooLong)
            } else {
                Ok(frame_of(source, destination, body))
            },
        }
    }
}

/// Copies `source` into `target`, which has the same length.
fn copy_bytes(target: &mut [u8], source: &[u8])
    requires
        old(target)@.len() == source@.len(),
    ensures
        final(target)@ == source@,
{
    let mut i: usize = 0;
    while i < source.len()
        invariant
            target@.len() == source@.len(),
            i <= source@.len(),
            forall|k: int| 0 <= k < i ==> target@[k] == source@[k],
        decreases source@.len() - i,
    {
        target[i] = source[i];
        i = i + 1;
    }
    assert(target@ =~= source@);
}

/// The frame that carries `data`, a body written in hex, from `source` to
/// `destination` as a normal message.
pub fn frame_from_hex(source: u8, destination: u8, data: &str) -> (result: Result<Vec<u8>, FrameError>)
    ensures
        (match result {
            Ok(frame) => framed(source, destination, data@) == Ok::<Seq<u8>, FrameError>(frame@),
            Err(e) => framed(source, destination, data@) == Err::<Seq<u8>, FrameError>(e),
        }),
{
    let source_address = match Address::try_from(source) {
        Ok(address) => address,
        Err(_) => return Err(FrameError::InvalidSourceAddress),
    };
    let destination_address = match Address::try_from(destination) {
        Ok(address) => address,
        Err(_) => return Err(FrameError::InvalidDestinationAddress),
    };
    let body = match decode_hex(data) {
        Some(bytes) => bytes,
        None => return Err(FrameError::InvalidHex),
    };
    let length = body.len();
    if length > 0x3f {
        return Err(FrameError::BodyTooLong);
    }
    let mut frame: Vec<u8> = vec![0u8; length + 2];
    let mut writer = PacketWriter::new(frame.as_mut_slice());
    let _ = writer.set_source_address(source_address);
    let _ = writer.set_destination_address(destination_address);
    let _ = writer.set_message_length(length);
    let _ = writer.set_message_type(MessageType::Normal);
    let target = writer.body_mut();
    copy_bytes(target, body.as_slice());
    proof {
        assert(frame@ =~= frame_of(source, destination, body@));
    }
    Ok(frame)
}

/// Any two addresses up to 0x0f (0 and equal ones included) and a hex text
/// that spells at most 63 bytes give a frame, and that frame reads back as
/// what it was built from: the two addresses, a normal message, and the body
/// as its announced length and contents.
pub proof fn lemma_frame_reads_back(source: u8, destination: u8, text: Seq<char>, body: Seq<u8>)
    requires
        source <= 0x0f,
        destination <= 0x0f,
        hex_decoded(text) == Some(body),
        body.len() <= 0x3f,
    ensures
        framed(source, destination, text) is Ok,
        framed(source, destination, text) matches Ok(frame) && {
            &&& frame.len() == body.len() + 2
            &&& source_of(frame) == source
            &&& destination_of(frame) == destination
            &&& message_type_of_code(type_code_of(frame)) == MessageType::Normal
            &&& length_of(frame) == body.len()
            &&& body_fits(frame)
            &&& body_of(frame) == body
        },
{
    let frame = frame_of(source, destination, body);
    let first = (destination * 16 + source) as u8;
    assert(first % 16 == source && first / 16 == destination) by (nonlinear_arith)
        requires
            source <= 0x0f,
            destination <= 0x0f,
            first == (destination * 16 + source) as u8,
    ;
    assert(frame[0] == first);
    assert(frame[1] == body.len() as u8);
    assert(body_of(frame) =~= body);
}

/// A frame is refused exactly for an address above 0x0f, a text that is not
/// an even number of hex digits, or a body longer than 63 bytes; the source
/// address is looked at first, then the destination, the text and the length.
pub proof fn lemma_frame_refusals(source: u8, destination: u8, text: Seq<char>)
    ensures
        framed(source, destination, text) == Err::<Seq<u8>, FrameError>(
            FrameError::InvalidSourceAddress,
        ) <==> source > 0x0f,
        framed(source, destination, text) == Err::<Seq<u8>, FrameError>(
            FrameError::InvalidDestinationAddress,
        ) <==> source <= 0x0f && destination > 0x0f,
        framed(source, destination, text) == Err::<Seq<u8>, FrameError>(FrameError::InvalidHex)
            <==> source <= 0x0f && destination <= 0x0f && hex_decoded(text) is None,
        framed(source, destination, text) == Err::<Seq<u8>, FrameError>(FrameError::BodyTooLong)
            <==> source <= 0x0f && destination <= 0x0f && (hex_decoded(text) matches Some(b)
            && b.len() > 0x3f),
{
}

} // verus!
