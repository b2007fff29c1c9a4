//! The MSMP frame: a two-byte header followed by the message body.
//!
//! Byte 0 holds the destination address in its high nibble and the source
//! address in its low nibble. Byte 1 holds the message type in its two high
//! bits and the body length (0..=63) in its six low bits.
use vstd::prelude::*;

verus! {

// ---------------------------------------------------------------------------
// Header fields as functions of the raw bytes
// ---------------------------------------------------------------------------

/// Destination address: the high nibble of byte 0.
pub open spec fn destination_of(raw: Seq<u8>) -> u8 {
    raw[0] / 16
}

/// Source address: the low nibble of byte 0.
pub open spec fn source_of(raw: Seq<u8>) -> u8 {
    raw[0] % 16
}

/// Body length: the six low bits of byte 1.
pub open spec fn length_of(raw: Seq<u8>) -> nat {
    (raw[1] % 64) as nat
}

/// Message-type code: the two high bits of byte 1.
pub open spec fn type_code_of(raw: Seq<u8>) -> u8 {
    raw[1] / 64
}

/// The message type that a code in `0..=3` denotes.
pub open spec fn message_type_of_code(code: u8) -> MessageType {
    if code == 0 {
        MessageType::Normal
    } else {
        MessageType::Reserved(code)
    }
}

/// The byte value of a message type.
pub open spec fn code_of(message_type: MessageType) -> u8 {
    match message_type {
        MessageType::Normal => 0,
        MessageType::Reserved(value) => value,
    }
}

/// A message type that the header can hold (code `0..=3`).
pub open spec fn valid_message_type(message_type: MessageType) -> bool {
    code_of(message_type) <= 3 && (message_type is Reserved ==> code_of(message_type) >= 1)
}

/// The body that the header announces: the `length_of(raw)` bytes after the header.
pub open spec fn body_of(raw: Seq<u8>) -> Seq<u8> {
    raw.subrange(2, 2 + length_of(raw) as int)
}

/// The frame is long enough for the body that its header announces.
pub open spec fn body_fits(raw: Seq<u8>) -> bool {
    2 + length_of(raw) <= raw.len()
}

/// The bytes after writing destination address `address` into the header.
pub open spec fn with_destination(raw: Seq<u8>, address: u8) -> Seq<u8> {
    raw.update(0, (address * 16 + raw[0] % 16) as u8)
}

/// The bytes after writing source address `address` into the header.
pub open spec fn with_source(raw: Seq<u8>, address: u8) -> Seq<u8> {
    raw.update(0, ((raw[0] / 16) * 16 + address) as u8)
}

/// The bytes after writing body length `length` into the header.
pub open spec fn with_length(raw: Seq<u8>, length: nat) -> Seq<u8> {
    raw.update(1, ((raw[1] / 64) * 64 + length) as u8)
}

/// The bytes after writing a message type into the header: its code is shifted
/// into the two high bits of byte 1 (bits above those fall off the byte).
pub open spec fn with_message_type(raw: Seq<u8>, message_type: MessageType) -> Seq<u8> {
    raw.update(1, (raw[1] % 64 + (code_of(message_type) % 4) * 64) as u8)
}

// ---------------------------------------------------------------------------
// Address
// ---------------------------------------------------------------------------

/// A node address, `0x0..=0xf`.
#[derive(Debug, Clone, Copy)]
pub struct Address(u8);

impl View for Address {
    type V = u8;

    closed spec fn view(&self) -> u8 {
        self.0
    }
}

impl Address {
    #[verifier::type_invariant]
    spec fn fits_nibble(self) -> bool {
        self.0 <= 0x0f
    }

    /// Creates an address from a value; the value must be at most 0x0f.
    pub fn new(value: u8) -> (address: Self)
        requires
            value <= 0x0f,
        ensures
            address@ == value,
    {
        Address(value)
    }

    /// The address as a number.
    pub fn value(&self) -> (value: u8)
        ensures
            value == self@,
            value <= 0x0f,
    {
        proof {
            use_type_invariant(self);
        }
        self.0
    }
}

impl From<Address> for u8 {
    fn from(address: Address) -> (value: u8) {
        address.value()
    }
}

impl vstd::std_specs::convert::FromSpecImpl<Address> for u8 {
    open spec fn obeys_from_spec() -> bool {
        true
    }

    open spec fn from_spec(address: Address) -> u8 {
        address@
    }
}

/// The address with a given value (meaningful for values up to 0x0f).
pub closed spec fn address_of(value: u8) -> Address {
    Address(value)
}

impl TryFrom<u8> for Address {
    type Error = ();

    fn try_from(value: u8) -> (result: Result<Self, Self::Error>)
        ensures
            result is Err <==> value > 0x0f,
            result matches Ok(address) ==> address@ == value,
    {
        if value > 0x0f {
            Err(())
        } else {
            Ok(Address(value))
        }
    }
}

impl vstd::std_specs::convert::TryFromSpecImpl<u8> for Address {
    open spec fn obeys_try_from_spec() -> bool {
        true
    }

    open spec fn try_from_spec(value: u8) -> Result<Self, Self::Error> {
        if value > 0x0f {
            Err(())
        } else {
            Ok(address_of(value))
        }
    }
}

// ---------------------------------------------------------------------------
// Message type
// ---------------------------------------------------------------------------

/// The kind of a message: code 0 is a normal message, codes 1..=3 are reserved.
#[derive(Debug, Clone, Copy, PartialEq, Eq, Structural)]
pub enum MessageType {
    Normal,
    Reserved(u8),
}

impl TryFrom<u8> for MessageType {
    type Error = ();

    fn try_from(value: u8) -> (result: Result<Self, Self::Error>) {
        if value == 0 {
            Ok(MessageType::Normal)
        } else if value <= 3 {
            Ok(MessageType::Reserved(value))
        } else {
            Err(())
        }
    }
}

impl vstd::std_specs::convert::TryFromSpecImpl<u8> for MessageType {
    open spec fn obeys_try_from_spec() -> bool {
        true
    }

    open spec fn try_from_spec(value: u8) -> Result<Self, Self::Error> {
        if value <= 3 {
            Ok(message_type_of_code(value))
        } else {
            Err(())
        }
    }
}

impl From<MessageType> for u8 {
    fn from(message_type: MessageType) -> (value: u8) {
        match message_type {
            MessageType::Normal => 0,
            MessageType::Reserved(value) => value,
        }
    }
}

impl vstd::std_specs::convert::FromSpecImpl<MessageType> for u8 {
    open spec fn obeys_from_spec() -> bool {
        true
    }

    open spec fn from_spec(message_type: MessageType) -> u8 {
        code_of(message_type)
    }
}

/// The message type that a two-bit code denotes.
fn message_type_from_code(code: u8) -> (message_type: MessageType)
    requires
        code <= 3,
    ensures
        message_type == message_type_of_code(code),
{
    if code == 0 {
        MessageType::Normal
    } else {
        MessageType::Reserved(code)
    }
}

// ---------------------------------------------------------------------------
// Reading a frame
// ---------------------------------------------------------------------------

/// The text that `format!` makes of a frame description from its fields.
pub uninterp spec fn packet_text(
    destination: u8,
    source: u8,
    length: usize,
    message_type: MessageType,
    body: Seq<u8>,
) -> Seq<char>;

/// Calls `format!` on the fields of a frame (the addresses and the length in
/// decimal, the type and the body as `Debug` prints them); the text is named
/// `packet_text` of the arguments.
#[verifier::external_body]
fn format_packet(
    destination: u8,
    source: u8,
    length: usize,
    message_type: MessageType,
    body: &[u8],
) -> (text: String)
    ensures
        text@ == packet_text(destination, source, length, message_type, body@),
{
    format!(
        "Packet {{ destination_address: {}, source_address: {}, message_length: {}, message_type: {:?}, body: {:?} }}",
        destination,
        source,
        length,
        message_type,
        body
    )
}

/// A read-only view of a frame held in a byte slice.
pub struct PacketReader<'a> {
    raw: &'a [u8],
}

impl<'a> View for PacketReader<'a> {
    type V = Seq<u8>;

    closed spec fn view(&self) -> Seq<u8> {
        self.raw@
    }
}

impl<'a> PacketReader<'a> {
    /// Wraps `raw`, which must hold at least three bytes.
    pub fn new(raw: &'a [u8]) -> (reader: Self)
        requires
            raw@.len() >= 3,
        ensures
            reader@ == raw@,
    {
        PacketReader { raw }
    }

    /// Wraps `raw`, or reports `HeaderTooShort` when it holds fewer than three bytes.
    pub fn try_new(raw: &'a [u8]) -> (result: Result<Self, PacketError>)
        ensures
            result is Err <==> raw@.len() < 3,
            result matches Err(e) ==> e is HeaderTooShort,
            result matches Ok(reader) ==> reader@ == raw@,
    {
        if raw.len() < 3 {
            return Err(PacketError::HeaderTooShort);
        }
        Ok(PacketReader { raw })
    }

    /// The destination address: the high nibble of the first byte.
    pub fn destination_address(&self) -> (address: Address)
        requires
            self@.len() >= 1,
        ensures
            address@ == destination_of(self@),
    {
        let byte = self.raw[0];
        assert(byte >> 4 == byte / 16 && byte / 16 <= 0x0f) by (bit_vector);
        Address::new(byte >> 4)
    }

    /// The source address: the low nibble of the first byte.
    pub fn source_address(&self) -> (address: Address)
        requires
            self@.len() >= 1,
        ensures
            address@ == source_of(self@),
    {
        let byte = self.raw[0];
        assert(byte & 0x0f == byte % 16) by (bit_vector);
        Address::new(byte & 0x0f)
    }

    /// The body length that the header announces.
    pub fn message_length(&self) -> (length: usize)
        requires
            self@.len() >= 2,
        ensures
            length == length_of(self@),
    {
        let byte = self.raw[1];
        assert(byte & 0x3f == byte % 64) by (bit_vector);
        (byte & 0x3f) as usize
    }

    /// The message type that the header announces.
    pub fn message_type(&self) -> (message_type: MessageType)
        requires
            self@.len() >= 2,
        ensures
            message_type == message_type_of_code(type_code_of(self@)),
    {
        let byte = self.raw[1];
        assert(byte >> 6 == byte / 64 && byte / 64 <= 3) by (bit_vector);
        message_type_from_code(byte >> 6)
    }

    fn check_message_length(&self) -> (result: Result<(), PacketError>)
        requires
            self@.len() >= 2,
        ensures
            result is Ok <==> body_fits(self@),
            result matches Err(e) ==> e is InvalidLength,
    {
        let message_length = self.message_length();
        if message_length + 2 > self.raw.len() {
            return Err(PacketError::InvalidLength);
        }
        Ok(())
    }

    /// The body, when the frame is known to be long enough for it.
    pub fn body_unchecked(&self) -> (body: &[u8])
        requires
            self@.len() >= 2,
            body_fits(self@),
        ensures
            body@ == body_of(self@),
    {
        &self.raw[2..self.message_length() + 2]
    }

    /// A one-line description of the frame: its addresses, length, type and body.
    pub fn to_string(&self) -> (text: String)
        requires
            self@.len() >= 2,
            body_fits(self@),
        ensures
            text@ == packet_text(
                destination_of(self@),
                source_of(self@),
                length_of(self@) as usize,
                message_type_of_code(type_code_of(self@)),
                body_of(self@),
            ),
    {
        let destination = self.destination_address().value();
        let source = self.source_address().value();
        let length = self.message_length();
        let message_type = self.message_type();
        let body = self.body_unchecked();
        format_packet(destination, source, length, message_type, body)
    }

    /// The body, or `InvalidLength` when the frame is shorter than its header announces.
    pub fn body(&self) -> (result: Result<&[u8], PacketError>)
        requires
            self@.len() >= 2,
        ensures
            result is Ok <==> body_fits(self@),
            result matches Ok(body) ==> body@ == body_of(self@),
            result matches Err(e) ==> e is InvalidLength,
    {
        self.check_message_length()?;
        Ok(self.body_unchecked())
    }
}

// ---------------------------------------------------------------------------
// Writing a frame
// ---------------------------------------------------------------------------

/// Fills in the header and body of a frame in a caller's buffer.
pub struct PacketWriter<'a> {
    /// The caller's buffer, written in place.
    pub buffer: &'a mut [u8],
}

impl<'a> View for PacketWriter<'a> {
    type V = Seq<u8>;

    open spec fn view(&self) -> Seq<u8> {
        self.buffer@
    }
}

impl<'a> PacketWriter<'a> {
    /// Wraps the buffer that the frame is written into.
    pub fn new(buffer: &'a mut [u8]) -> (writer: Self)
        ensures
            writer@ == old(buffer)@,
            final(writer.buffer)@ == final(buffer)@,
            writer.buffer@ == old(buffer)@,
    {
        PacketWriter { buffer }
    }

    /// Writes the destination address into the high nibble of the first byte.
    pub fn set_destination_address(&mut self, address: Address) -> (result: Result<(), PacketError>)
        requires
            old(self)@.len() >= 1,
        ensures
            result is Ok,
            address@ <= 0x0f,
            final(self)@ == with_destination(old(self)@, address@),
            final(final(self).buffer)@ == final(old(self).buffer)@,
    {
        let value = address.value();
        let byte = self.buffer[0];
        let new_byte = (value << 4) | (byte & 0x0f);
        assert(new_byte == value * 16 + byte % 16) by (bit_vector)
            requires
                value <= 0x0f,
                new_byte == (value << 4) | (byte & 0x0f),
        ;
        self.buffer[0] = new_byte;
        Ok(())
    }

    /// Writes the source address into the low nibble of the first byte.
    pub fn set_source_address(&mut self, address: Address) -> (result: Result<(), PacketError>)
        requires
            old(self)@.len() >= 1,
        ensures
            result is Ok,
            address@ <= 0x0f,
            final(self)@ == with_source(old(self)@, address@),
            final(final(self).buffer)@ == final(old(self).buffer)@,
    {
        let value = address.value();
        let byte = self.buffer[0];
        let new_byte = value | (byte & 0xf0);
        assert(new_byte == (byte / 16) * 16 + value) by (bit_vector)
            requires
                value <= 0x0f,
                new_byte == value | (byte & 0xf0),
        ;
        self.buffer[0] = new_byte;
        Ok(())
    }

    /// The body length that the header currently announces.
    pub fn message_length(&self) -> (length: usize)
        requires
            self@.len() >= 2,
        ensures
            length == length_of(self@),
    {
        let byte = self.buffer[1];
        assert(byte & 0x3f == byte % 64) by (bit_vector);
        (byte & 0x3f) as usize
    }

    /// Writes the body length; lengths above 0x3f are refused with `InvalidLength`
    /// and leave the buffer as it was.
    pub fn set_message_length(&mut self, length: usize) -> (result: Result<(), PacketError>)
        requires
            length <= 0x3f ==> old(self)@.len() >= 2,
        ensures
            result is Ok <==> length <= 0x3f,
            result matches Err(e) ==> e is InvalidLength && final(self)@ == old(self)@,
            result is Ok ==> final(self)@ == with_length(old(self)@, length as nat),
            final(final(self).buffer)@ == final(old(self).buffer)@,
    {
        if length > 0x3f {
            return Err(PacketError::InvalidLength);
        }
        let byte = self.buffer[1];
        let low = length as u8;
        let new_byte = (byte & 0xc0) | low;
        assert(new_byte == (byte / 64) * 64 + low) by (bit_vector)
            requires
                low <= 0x3f,
                new_byte == (byte & 0xc0) | low,
        ;
        self.buffer[1] = new_byte;
        Ok(())
    }

    /// Writes the message type into the two high bits of the second byte.
    pub fn set_message_type(&mut self, message_type: MessageType) -> (result: Result<(), PacketError>)
        requires
            old(self)@.len() >= 2,
        ensures
            result is Ok,
            final(self)@ == with_message_type(old(self)@, message_type),
            final(final(self).buffer)@ == final(old(self).buffer)@,
    {
        let code: u8 = u8::from(message_type);
        let byte = self.buffer[1];
        let new_byte = (byte & 0x3f) | (code << 6);
        assert(new_byte == byte % 64 + (code % 4) * 64) by (bit_vector)
            requires
                new_byte == (byte & 0x3f) | (code << 6),
        ;
        self.buffer[1] = new_byte;
        Ok(())
    }

    /// The body area that the header currently announces, for the caller to fill.
    pub fn body_mut(&mut self) -> (body: &mut [u8])
        requires
            old(self)@.len() >= 2,
            body_fits(old(self)@),
        ensures
            body@ == body_of(old(self)@),
            final(self)@ == old(self)@.subrange(0, 2) + final(body)@ + old(self)@.subrange(
                2 + length_of(old(self)@) as int,
                old(self)@.len() as int,
            ),
            final(final(self).buffer)@ == final(old(self).buffer)@,
    {
        let message_length = self.message_length();
        let (_header, rest) = self.buffer.split_at_mut(2);
        let (body, _tail) = rest.split_at_mut(message_length);
        body
    }
}

// ---------------------------------------------------------------------------
// Errors
// ---------------------------------------------------------------------------

/// What can be wrong with a frame.
#[derive(Debug, PartialEq, Eq, Structural)]
pub enum PacketError {
    HeaderTooShort,
    InvalidHeader,
    InvalidLength,
}

// ---------------------------------------------------------------------------
// Laws
// ---------------------------------------------------------------------------

/// Writing the destination address and reading it back gives the address
/// written; the source address, the second header byte and the body stay.
pub proof fn lemma_destination_round_trip(raw: Seq<u8>, address: u8)
    requires
        raw.len() >= 2,
        address <= 0x0f,
    ensures
        destination_of(with_destination(raw, address)) == address,
        source_of(with_destination(raw, address)) == source_of(raw),
        with_destination(raw, address).subrange(1, raw.len() as int) == raw.subrange(
            1,
            raw.len() as int,
        ),
{
    let b = raw[0];
    let n = (address * 16 + b % 16) as u8;
    assert(n / 16 == address && n % 16 == b % 16) by (bit_vector)
        requires
            address <= 0x0f,
            n == (address * 16 + b % 16) as u8,
    ;
    assert(with_destination(raw, address).subrange(1, raw.len() as int) =~= raw.subrange(
        1,
        raw.len() as int,
    ));
}

/// Writing the source address and reading it back gives the address written;
/// the destination address, the second header byte and the body stay.
pub proof fn lemma_source_round_trip(raw: Seq<u8>, address: u8)
    requires
        raw.len() >= 2,
        address <= 0x0f,
    ensures
        source_of(with_source(raw, address)) == address,
        destination_of(with_source(raw, address)) == destination_of(raw),
        with_source(raw, address).subrange(1, raw.len() as int) == raw.subrange(
            1,
            raw.len() as int,
        ),
{
    let b = raw[0];
    let n = ((b / 16) * 16 + address) as u8;
    assert(n % 16 == address && n / 16 == b / 16) by (bit_vector)
        requires
            address <= 0x0f,
            n == ((b / 16) * 16 + address) as u8,
    ;
    assert(with_source(raw, address).subrange(1, raw.len() as int) =~= raw.subrange(
        1,
        raw.len() as int,
    ));
}

/// Writing the body length and reading it back gives the length written; the
/// message type, the first header byte and the body stay.
pub proof fn lemma_length_round_trip(raw: Seq<u8>, length: nat)
    requires
        raw.len() >= 2,
        length <= 0x3f,
    ensures
        length_of(with_length(raw, length)) == length,
        type_code_of(with_length(raw, length)) == type_code_of(raw),
        with_length(raw, length)[0] == raw[0],
        with_length(raw, length).subrange(2, raw.len() as int) == raw.subrange(2, raw.len() as int),
{
    let b = raw[1];
    let l = length as u8;
    let n = ((b / 64) * 64 + l) as u8;
    assert(n % 64 == l && n / 64 == b / 64) by (bit_vector)
        requires
            l <= 0x3f,
            n == ((b / 64) * 64 + l) as u8,
    ;
    assert(with_length(raw, length).subrange(2, raw.len() as int) =~= raw.subrange(
        2,
        raw.len() as int,
    ));
}

/// Writing a message type that the header can hold and reading it back gives
/// the type written; the body length, the first header byte and the body stay.
pub proof fn lemma_message_type_round_trip(raw: Seq<u8>, message_type: MessageType)
    requires
        raw.len() >= 2,
        valid_message_type(message_type),
    ensures
        message_type_of_code(type_code_of(with_message_type(raw, message_type))) == message_type,
        length_of(with_message_type(raw, message_type)) == length_of(raw),
        with_message_type(raw, message_type)[0] == raw[0],
        with_message_type(raw, message_type).subrange(2, raw.len() as int) == raw.subrange(
            2,
            raw.len() as int,
        ),
{
    let b = raw[1];
    let c = code_of(message_type);
    let n = (b % 64 + (c % 4) * 64) as u8;
    assert(n / 64 == c && n % 64 == b % 64) by (bit_vector)
        requires
            c <= 3,
            n == (b % 64 + (c % 4) * 64) as u8,
    ;
    assert(with_message_type(raw, message_type).subrange(2, raw.len() as int) =~= raw.subrange(
        2,
        raw.len() as int,
    ));
}

/// The body written after a header is the body that the header announces.
pub proof fn lemma_body_round_trip(header: Seq<u8>, body: Seq<u8>, rest: Seq<u8>)
    requires
        header.len() == 2,
        length_of(header) == body.len(),
    ensures
        body_fits(header + body + rest),
        body_of(header + body + rest) == body,
{
    let raw = header + body + rest;
    assert(raw[1] == header[1]);
    assert(body_of(raw) =~= body);
}

/// The byte value of a message type that the header can hold is its code, and
/// the code gives back the type, by `try_from` too.
pub proof fn lemma_message_type_code_round_trip(message_type: MessageType)
    requires
        valid_message_type(message_type),
    ensures
        message_type_of_code(code_of(message_type)) == message_type,
        <MessageType as vstd::std_specs::convert::TryFromSpec<u8>>::try_from_spec(
            code_of(message_type),
        ) == Ok::<MessageType, ()>(message_type),
{
}

/// An address made from a value up to 0x0f holds that value, so `try_from`
/// and `u8::from` undo each other.
pub proof fn lemma_address_round_trip(value: u8)
    requires
        value <= 0x0f,
    ensures
        address_of(value)@ == value,
{
}

/// Writing the four header fields, in the order a sender does, and reading
/// them back gives the values written; the body area stays.
pub proof fn lemma_header_round_trip(
    raw: Seq<u8>,
    source: u8,
    destination: u8,
    length: nat,
    message_type: MessageType,
)
    requires
        raw.len() >= 2,
        source <= 0x0f,
        destination <= 0x0f,
        length <= 0x3f,
        valid_message_type(message_type),
    ensures
        ({
            let written = with_message_type(
                with_length(with_destination(with_source(raw, source), destination), length),
                message_type,
            );
            &&& source_of(written) == source
            &&& destination_of(written) == destination
            &&& length_of(written) == length
            &&& message_type_of_code(type_code_of(written)) == message_type
            &&& written.subrange(2, raw.len() as int) == raw.subrange(2, raw.len() as int)
        }),
{
    let w1 = with_source(raw, source);
    lemma_source_round_trip(raw, source);
    let w2 = with_destination(w1, destination);
    lemma_destination_round_trip(w1, destination);
    let w3 = with_length(w2, length);
    lemma_length_round_trip(w2, length);
    let w4 = with_message_type(w3, message_type);
    lemma_message_type_round_trip(w3, message_type);
    assert(w4.subrange(2, raw.len() as int) =~= raw.subrange(2, raw.len() as int));
}

} // verus!
