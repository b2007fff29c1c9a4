//! Reassembling frames from a byte stream.
//!
//! A `ProtocolReader` collects a two-byte header, then the body that the header
//! announces. A 0x00 byte inside a body is a sync byte: everything received up
//! to and including the last sync byte is discarded, and what follows it is the
//! start of the next frame.
use crate::packet::{body_fits, body_of, length_of, PacketError, PacketReader};
use vstd::prelude::*;

verus! {

// ---------------------------------------------------------------------------
// Streams
// ---------------------------------------------------------------------------

/// Why a stream moved no bytes: it has none to give or take right now, or it
/// failed with an error of its own.
#[derive(Debug, PartialEq, Eq)]
pub enum StreamFailure<E> {
    WouldBlock,
    Other(E),
}

/// A source of bytes that may have nothing to give right now.
pub trait StreamReader: Sized {
    type StreamError;

    /// What one read may do: the stream before and after it, the contents of
    /// `data` before and after it, and its result. A stream that states
    /// nothing here promises nothing beyond the `ensures` of `read`.
    open spec fn reads(
        before: Self,
        after: Self,
        data_before: Seq<u8>,
        data_after: Seq<u8>,
        result: Result<usize, StreamFailure<Self::StreamError>>,
    ) -> bool {
        true
    }

    /// Reads up to `data.len()` bytes into the front of `data` and reports how many.
    fn read(&mut self, data: &mut [u8]) -> (result: Result<usize, StreamFailure<Self::StreamError>>)
        ensures
            final(data)@.len() == old(data)@.len(),
            result matches Ok(n) ==> n <= old(data)@.len(),
            Self::reads(*old(self), *final(self), old(data)@, final(data)@, result),
    ;
}

/// A sink of bytes that may accept only part of what it is given.
pub trait StreamWriter {
    type StreamError;

    /// Writes a prefix of `data` and reports its length.
    fn write(&mut self, data: &[u8]) -> (result: Result<usize, StreamFailure<Self::StreamError>>)
        ensures
            result matches Ok(n) ==> n <= data@.len(),
    ;
}

// ---------------------------------------------------------------------------
// Storage that a reader collects a frame in
// ---------------------------------------------------------------------------

/// A fixed-length byte buffer that a `ProtocolReader` writes frames into.
pub trait PacketBuffer {
    /// The buffer's contents.
    spec fn bytes(&self) -> Seq<u8>;

    fn as_bytes(&self) -> (bytes: &[u8])
        ensures
            bytes@ == self.bytes(),
    ;

    fn as_bytes_mut(&mut self) -> (bytes: &mut [u8])
        ensures
            bytes@ == old(self).bytes(),
            final(self).bytes() == final(bytes)@,
    ;
}

impl<const N: usize> PacketBuffer for [u8; N] {
    open spec fn bytes(&self) -> Seq<u8> {
        self@
    }

    fn as_bytes(&self) -> (bytes: &[u8]) {
        self.as_slice()
    }

    fn as_bytes_mut(&mut self) -> (bytes: &mut [u8]) {
        self
    }
}

// ---------------------------------------------------------------------------
// Streams over memory
// ---------------------------------------------------------------------------

/// A byte slice is a stream of its bytes: each read takes as many as fit from
/// its front.
impl<'a> StreamReader for &'a [u8] {
    type StreamError = ();

    /// As many bytes as fit are taken from the front of the slice into the
    /// front of `data`; the read never fails.
    open spec fn reads(
        before: Self,
        after: Self,
        data_before: Seq<u8>,
        data_after: Seq<u8>,
        result: Result<usize, StreamFailure<()>>,
    ) -> bool {
        let taken = if data_before.len() < before@.len() {
            data_before.len()
        } else {
            before@.len()
        };
        &&& result == Ok::<usize, StreamFailure<()>>(taken as usize)
        &&& data_after == before@.subrange(0, taken as int) + data_before.subrange(
            taken as int,
            data_before.len() as int,
        )
        &&& after@ == before@.subrange(taken as int, before@.len() as int)
    }

    fn read(&mut self, data: &mut [u8]) -> (result: Result<usize, StreamFailure<()>>) {
        let source: &'a [u8] = *self;
        let len = if data.len() < source.len() {
            data.len()
        } else {
            source.len()
        };
        let mut i: usize = 0;
        while i < len
            invariant
                len <= data@.len(),
                len <= source@.len(),
                i <= len,
                data@.len() == old(data)@.len(),
                forall|j: int| 0 <= j < i ==> data@[j] == source@[j],
                forall|j: int| i <= j < data@.len() ==> data@[j] == old(data)@[j],
            decreases len - i,
        {
            data[i] = source[i];
            i = i + 1;
        }
        assert(data@ =~= source@.subrange(0, len as int) + old(data)@.subrange(
            len as int,
            old(data)@.len() as int,
        ));
        *self = &source[len..source.len()];
        Ok(len)
    }
}

/// A stream writer that fills a byte slice from the front.
pub struct BufferStreamWriter<'a> {
    /// The caller's buffer, filled in place from the front.
    pub buffer: &'a mut [u8],
    /// How many bytes have been written.
    pub position: usize,
}

impl<'a> BufferStreamWriter<'a> {
    /// A writer at the front of `buffer`.
    pub fn new(buffer: &'a mut [u8]) -> (writer: Self)
        ensures
            writer.buffer@ == old(buffer)@,
            final(writer.buffer)@ == final(buffer)@,
            writer.position == 0,
    {
        BufferStreamWriter { buffer, position: 0 }
    }
}

impl<'a> StreamWriter for BufferStreamWriter<'a> {
    type StreamError = ();

    /// Copies as much of `data` as there is room for after what was written
    /// before. (The count never passes the buffer's end through this type's
    /// own functions; a buffer swapped for a shorter one has no room.)
    fn write(&mut self, data: &[u8]) -> (result: Result<usize, StreamFailure<()>>)
        ensures
            ({
                let before = old(self).buffer@;
                let at = old(self).position;
                let room: int = if at <= before.len() {
                    before.len() - at
                } else {
                    0
                };
                let n: int = if data@.len() < room {
                    data@.len() as int
                } else {
                    room
                };
                &&& result == Ok::<usize, StreamFailure<()>>(n as usize)
                &&& at <= before.len() ==> final(self).buffer@ == before.subrange(0, at as int)
                    + data@.subrange(0, n) + before.subrange(at + n, before.len() as int)
                &&& at > before.len() ==> final(self).buffer@ == before
                &&& final(self).position == at + n
                &&& final(final(self).buffer)@ == final(old(self).buffer)@
            }),
    {
        let room = if self.position <= self.buffer.len() {
            self.buffer.len() - self.position
        } else {
            0
        };
        let len = if data.len() < room {
            data.len()
        } else {
            room
        };
        let start = self.position;
        let end = start + len;
        let ghost before = self.buffer@;
        let mut i: usize = 0;
        while i < len
            invariant
                start + len == end,
                len > 0 ==> end <= self.buffer@.len(),
                len <= data@.len(),
                i <= len,
                self.buffer@.len() == before.len(),
                self.position == start,
                final(self.buffer)@ == final(old(self).buffer)@,
                forall|j: int| 0 <= j < i ==> self.buffer@[start + j] == data@[j],
                forall|j: int|
                    0 <= j < self.buffer@.len() && !(start <= j < start + i) ==> self.buffer@[j]
                        == before[j],
            decreases len - i,
        {
            self.buffer[start + i] = data[i];
            i = i + 1;
        }
        proof {
            if start <= before.len() {
                assert(self.buffer@ =~= before.subrange(0, start as int) + data@.subrange(
                    0,
                    len as int,
                ) + before.subrange(start + len, before.len() as int));
            } else {
                assert(self.buffer@ =~= before);
            }
        }
        self.position = start + len;
        Ok(len)
    }
}

impl<'a, const N: usize> PacketBuffer for &'a mut [u8; N] {
    open spec fn bytes(&self) -> Seq<u8> {
        (**self)@
    }

    fn as_bytes(&self) -> (bytes: &[u8]) {
        (**self).as_slice()
    }

    fn as_bytes_mut(&mut self) -> (bytes: &mut [u8]) {
        let array: &mut [u8; N] = &mut **self;
        array
    }
}

// ---------------------------------------------------------------------------
// Streams over `std::sync::mpsc` channels
// ---------------------------------------------------------------------------

/// `std::sync::mpsc::Receiver<T>`.
#[verifier::external_type_specification]
#[verifier::external_body]
#[verifier::reject_recursive_types(T)]
pub struct ExReceiver<T>(std::sync::mpsc::Receiver<T>);

/// `std::sync::mpsc::Sender<T>`.
#[verifier::external_type_specification]
#[verifier::external_body]
#[verifier::reject_recursive_types(T)]
pub struct ExSender<T>(std::sync::mpsc::Sender<T>);


/// What `try_recv` on a byte channel gave.
pub enum Received {
    Byte(u8),
    Empty,
    Disconnected,
}

/// Where a read from a byte channel stands after one `try_recv`.
pub enum ChannelRead {
    /// A byte was stored; ask for the next.
    Continue,
    /// The channel is empty after this many bytes: the read gives them.
    Done(usize),
    /// The channel is empty and nothing was read: the read would block.
    WouldBlock,
    /// The sending side is gone: the read fails.
    Disconnected,
}

/// Takes one outcome of `try_recv` into a read of a byte channel that has
/// stored `bytes_read` bytes so far: a byte is stored next, an empty channel
/// ends the read (or would block when nothing was read), and a channel whose
/// sender is gone fails it.
pub fn take_received(data: &mut [u8], bytes_read: usize, received: Received) -> (step: ChannelRead)
    requires
        bytes_read < old(data)@.len(),
    ensures
        match received {
            Received::Byte(byte) => {
                &&& step is Continue
                &&& final(data)@ == old(data)@.update(bytes_read as int, byte)
            },
            Received::Empty => {
                &&& final(data)@ == old(data)@
                &&& bytes_read == 0 ==> step is WouldBlock
                &&& bytes_read > 0 ==> step == ChannelRead::Done(bytes_read)
            },
            Received::Disconnected => final(data)@ == old(data)@ && step is Disconnected,
        },
{
    match received {
        Received::Byte(byte) => {
            data[bytes_read] = byte;
            ChannelRead::Continue
        },
        Received::Empty => {
            if bytes_read == 0 {
                ChannelRead::WouldBlock
            } else {
                ChannelRead::Done(bytes_read)
            }
        },
        Received::Disconnected => ChannelRead::Disconnected,
    }
}

/// Calls `std::sync::mpsc::Receiver::try_recv` and tells its outcomes apart.
/// What arrives depends on the other threads and is not stated.
#[verifier::external_body]
fn try_recv_byte(receiver: &std::sync::mpsc::Receiver<u8>) -> Received {
    match receiver.try_recv() {
        Ok(byte) => Received::Byte(byte),
        Err(std::sync::mpsc::TryRecvError::Empty) => Received::Empty,
        Err(std::sync::mpsc::TryRecvError::Disconnected) => Received::Disconnected,
    }
}

/// Calls `std::sync::mpsc::Sender::send` with `byte`. The first part is
/// `true` when the byte was sent, which depends on whether the receiver is
/// still there and is not stated; the second is the byte handed to `send`.
#[verifier::external_body]
fn send_byte(sender: &std::sync::mpsc::Sender<u8>, byte: u8) -> (result: (bool, Ghost<u8>))
    ensures
        result.1@ == byte,
{
    (sender.send(byte).is_ok(), Ghost(byte))
}

/// Sends `data` over a byte channel one byte at a time, in order, stopping at
/// the first byte that the channel refuses (its receiver is gone). Also gives
/// the bytes handed to the channel: all of `data` when every send went
/// through, or the bytes up to and including the refused one.
pub fn send_bytes(sender: &std::sync::mpsc::Sender<u8>, data: &[u8]) -> (result: (
    Result<usize, StreamFailure<()>>,
    Ghost<Seq<u8>>,
))
    ensures
        result.0 matches Ok(n) ==> n == data@.len() && result.1@ == data@,
        result.0 is Err ==> {
            &&& result.0 == Err::<usize, StreamFailure<()>>(StreamFailure::Other(()))
            &&& 1 <= result.1@.len() <= data@.len()
            &&& result.1@ == data@.subrange(0, result.1@.len() as int)
        },
        data@.len() == 0 ==> result.0 == Ok::<usize, StreamFailure<()>>(0),
{
    let ghost mut handed: Seq<u8> = Seq::empty();
    let mut i: usize = 0;
    while i < data.len()
        invariant
            i <= data@.len(),
            handed == data@.subrange(0, i as int),
        decreases data@.len() - i,
    {
        let (sent, byte) = send_byte(sender, data[i]);
        proof {
            handed = handed.push(byte@);
            assert(handed =~= data@.subrange(0, i + 1));
        }
        if !sent {
            return (Err(StreamFailure::Other(())), Ghost(handed));
        }
        i = i + 1;
    }
    assert(handed =~= data@);
    (Ok(i), Ghost(handed))
}

/// The first `count` outcomes in `outcomes` are bytes, and they are the first
/// `count` bytes of `data`, in order.
pub open spec fn stored_in_order(outcomes: Seq<Received>, data: Seq<u8>, count: int) -> bool {
    forall|i: int| 0 <= i < count ==> #[trigger] outcomes[i] == Received::Byte(data[i])
}

/// What a read from a byte channel did, given the outcomes of the `try_recv`
/// calls it made, in turn: each byte the channel gave is stored in `data`, in
/// order from the front, and the read asks again until `data` is full, the
/// channel is empty (the read then gives the bytes it has, or would block when
/// it has none), or its sender is gone (the read fails). Bytes of `data` past
/// those stored stay as they were.
pub open spec fn channel_read(
    outcomes: Seq<Received>,
    data_before: Seq<u8>,
    data_after: Seq<u8>,
    result: Result<usize, StreamFailure<()>>,
) -> bool {
    let len = data_before.len();
    &&& data_after.len() == len
    &&& match result {
        Ok(n) => {
            &&& stored_in_order(outcomes, data_after, n as int)
            &&& (outcomes.len() == n && n == len) || (outcomes.len() == n + 1 && 1 <= n < len
                && outcomes[n as int] is Empty)
            &&& data_after.subrange(n as int, len as int) == data_before.subrange(n as int, len as int)
        },
        Err(StreamFailure::WouldBlock) => {
            &&& 0 < len
            &&& outcomes == seq![Received::Empty]
            &&& data_after == data_before
        },
        Err(StreamFailure::Other(_)) => {
            &&& 1 <= outcomes.len() <= len
            &&& outcomes.last() is Disconnected
            &&& stored_in_order(outcomes, data_after, outcomes.len() - 1)
            &&& data_after.subrange(outcomes.len() - 1, len as int) == data_before.subrange(
                outcomes.len() - 1,
                len as int,
            )
        },
    }
}

/// Reads the bytes waiting in a byte channel into the front of `data`, one
/// `try_recv` at a time; also gives the outcomes of those calls, in turn.
pub fn receive_bytes(receiver: &std::sync::mpsc::Receiver<u8>, data: &mut [u8]) -> (result: (
    Result<usize, StreamFailure<()>>,
    Ghost<Seq<Received>>,
))
    ensures
        channel_read(result.1@, old(data)@, final(data)@, result.0),
{
    let ghost mut outcomes: Seq<Received> = Seq::empty();
    let mut bytes_read: usize = 0;
    let len = data.len();
    while bytes_read < len
        invariant
            len == data@.len(),
            data@.len() == old(data)@.len(),
            bytes_read <= len,
            outcomes.len() == bytes_read,
            stored_in_order(outcomes, data@, bytes_read as int),
            forall|j: int| bytes_read <= j < len ==> data@[j] == old(data)@[j],
        decreases len - bytes_read,
    {
        let outcome = try_recv_byte(receiver);
        proof {
            outcomes = outcomes.push(outcome);
        }
        match take_received(data, bytes_read, outcome) {
            ChannelRead::Continue => {
                bytes_read = bytes_read + 1;
            },
            ChannelRead::Done(_) => {
                assert(data@.subrange(bytes_read as int, len as int) =~= old(data)@.subrange(
                    bytes_read as int,
                    len as int,
                ));
                return (Ok(bytes_read), Ghost(outcomes));
            },
            ChannelRead::WouldBlock => {
                assert(data@ =~= old(data)@);
                assert(outcomes =~= seq![Received::Empty]);
                return (Err(StreamFailure::WouldBlock), Ghost(outcomes));
            },
            ChannelRead::Disconnected => {
                assert(data@.subrange(bytes_read as int, len as int) =~= old(data)@.subrange(
                    bytes_read as int,
                    len as int,
                ));
                return (Err(StreamFailure::Other(())), Ghost(outcomes));
            },
        }
    }
    assert(data@.subrange(bytes_read as int, len as int) =~= old(data)@.subrange(
        bytes_read as int,
        len as int,
    ));
    (Ok(bytes_read), Ghost(outcomes))
}

/// A read from a byte channel loses no byte: every byte that the channel
/// gave is in `data` at the place of its turn; only the channel's last answer
/// can end the read, and it ends before `data` is full only on the word that
/// the channel is empty or closed; a successful read counts exactly the bytes
/// the channel gave.
pub proof fn lemma_channel_read_loses_nothing(
    outcomes: Seq<Received>,
    data_before: Seq<u8>,
    data_after: Seq<u8>,
    result: Result<usize, StreamFailure<()>>,
)
    requires
        channel_read(outcomes, data_before, data_after, result),
    ensures
        outcomes.len() <= data_before.len(),
        forall|i: int|
            0 <= i < outcomes.len() ==> (#[trigger] outcomes[i] matches Received::Byte(b) ==> b
                == data_after[i]),
        forall|i: int| 0 <= i < outcomes.len() - 1 ==> #[trigger] outcomes[i] is Byte,
        outcomes.len() == data_before.len() || !(outcomes.last() is Byte),
        result matches Ok(n) ==> (n == outcomes.len() && (n == 0 || outcomes.last() is Byte)) || (
        n + 1 == outcomes.len() && outcomes.last() is Empty),
        result is Err ==> outcomes.len() >= 1 && !(outcomes.last() is Byte),
{
    match result {
        Ok(n) => {
            if outcomes.len() == n + 1 {
                assert(outcomes[n as int] is Empty);
            } else if n > 0 {
                assert(outcomes[n - 1] == Received::Byte(data_after[n - 1]));
            }
            assert forall|i: int| 0 <= i < outcomes.len() implies (#[trigger] outcomes[i] matches Received::Byte(b) ==> b
                == data_after[i]) by {
                if i < n {
                    assert(outcomes[i] == Received::Byte(data_after[i]));
                }
            }
            assert forall|i: int| 0 <= i < outcomes.len() - 1 implies #[trigger] outcomes[i] is Byte by {
                assert(outcomes[i] == Received::Byte(data_after[i]));
            }
        },
        Err(StreamFailure::WouldBlock) => {
            assert(outcomes[0] is Empty);
        },
        Err(StreamFailure::Other(_)) => {
            let k = outcomes.len() - 1;
            assert forall|i: int| 0 <= i < outcomes.len() implies (#[trigger] outcomes[i] matches Received::Byte(b) ==> b
                == data_after[i]) by {
                if i < k {
                    assert(outcomes[i] == Received::Byte(data_after[i]));
                }
            }
            assert forall|i: int| 0 <= i < outcomes.len() - 1 implies #[trigger] outcomes[i] is Byte by {
                assert(outcomes[i] == Received::Byte(data_after[i]));
            }
        },
    }
}

/// A byte channel is a stream: a read takes the bytes that are waiting, up to
/// `data.len()`, and would block when none is.
impl StreamReader for std::sync::mpsc::Receiver<u8> {
    type StreamError = ();

    /// A read gives at least one byte unless `data` is empty, when it gives
    /// none at once; bytes past those read stay as they were, and a read that
    /// would block leaves `data` as it was. Which bytes arrive, and whether
    /// the channel is empty or closed, is up to the sending side.
    open spec fn reads(
        before: Self,
        after: Self,
        data_before: Seq<u8>,
        data_after: Seq<u8>,
        result: Result<usize, StreamFailure<()>>,
    ) -> bool {
        &&& result matches Ok(n) ==> n >= 1 || data_before.len() == 0
        &&& result matches Ok(n) ==> data_after.subrange(n as int, data_before.len() as int)
            == data_before.subrange(n as int, data_before.len() as int)
        &&& data_before.len() == 0 ==> result == Ok::<usize, StreamFailure<()>>(0) && data_after
            == data_before
        &&& result matches Err(StreamFailure::WouldBlock) ==> data_after == data_before
    }

    fn read(&mut self, data: &mut [u8]) -> (result: Result<usize, StreamFailure<()>>)
        ensures
            result matches Ok(n) ==> n >= 1 || old(data)@.len() == 0,
            result matches Ok(n) ==> final(data)@.subrange(n as int, old(data)@.len() as int)
                == old(data)@.subrange(n as int, old(data)@.len() as int),
            old(data)@.len() == 0 ==> result == Ok::<usize, StreamFailure<()>>(0) && final(data)@
                == old(data)@,
            result matches Err(StreamFailure::WouldBlock) ==> final(data)@ == old(data)@,
    {
        let (result, _outcomes) = receive_bytes(self, data);
        assert(old(data)@.len() == 0 ==> final(data)@ =~= old(data)@);
        result
    }
}

/// A byte channel is a sink that takes every byte until its receiver is gone.
impl StreamWriter for std::sync::mpsc::Sender<u8> {
    type StreamError = ();

    fn write(&mut self, data: &[u8]) -> (result: Result<usize, StreamFailure<()>>)
        ensures
            result matches Ok(n) ==> n == data@.len(),
            result is Err ==> result == Err::<usize, StreamFailure<()>>(StreamFailure::Other(())),
            data@.len() == 0 ==> result == Ok::<usize, StreamFailure<()>>(0),
    {
        let (result, _handed) = send_bytes(self, data);
        result
    }
}

// ---------------------------------------------------------------------------
// The reader's model
// ---------------------------------------------------------------------------

/// Which part of a frame the reader is waiting for.
#[derive(Debug, Clone, Copy, PartialEq, Eq, Structural)]
pub enum ReaderState {
    Header,
    Data,
    Completed,
}

/// What a `ProtocolReader` holds: its state, how many bytes of the current
/// frame it has, and its buffer.
pub struct ReaderView {
    pub state: ReaderState,
    pub position: nat,
    pub bytes: Seq<u8>,
}

/// The end of the frame whose header starts `bytes`.
pub open spec fn frame_end(bytes: Seq<u8>) -> nat {
    length_of(bytes) + 2
}

/// The index of the last sync byte (0x00) in `s`, if any.
pub open spec fn last_sync(s: Seq<u8>) -> Option<nat>
    decreases s.len(),
{
    if s.len() == 0 {
        None
    } else if s.last() == 0 {
        Some((s.len() - 1) as nat)
    } else {
        last_sync(s.drop_last())
    }
}

/// No sync byte in `s`.
pub open spec fn sync_free(s: Seq<u8>) -> bool {
    forall|i: int| 0 <= i < s.len() ==> s[i] != 0
}

/// Where the next bytes go: the header area, or the rest of the announced frame.
pub open spec fn window_end(v: ReaderView) -> nat {
    if v.state is Data {
        frame_end(v.bytes)
    } else {
        2
    }
}

/// `after` is `before` with only `[start, end)` possibly changed.
pub open spec fn filled_between(before: Seq<u8>, start: nat, end: nat, after: Seq<u8>) -> bool {
    &&& after.len() == before.len()
    &&& after.subrange(0, start as int) == before.subrange(0, start as int)
    &&& after.subrange(end as int, after.len() as int) == before.subrange(
        end as int,
        before.len() as int,
    )
}

/// The state after `n` header bytes arrived at `v.position`; also whether the
/// read filled the header area.
pub open spec fn after_header_bytes(v: ReaderView, n: nat) -> (ReaderView, bool) {
    if v.position + n < 2 {
        (ReaderView { state: ReaderState::Header, position: n, bytes: v.bytes }, false)
    } else {
        (ReaderView { state: ReaderState::Data, position: 2, bytes: v.bytes }, true)
    }
}

/// The state after `n` body bytes arrived at `v.position` (they are already in
/// `v.bytes`); also whether the read got every byte it asked for.
pub open spec fn after_body_bytes(v: ReaderView, n: nat) -> (ReaderView, bool) {
    let end = frame_end(v.bytes);
    let new_position = v.position + n;
    let fresh = v.bytes.subrange(v.position as int, new_position as int);
    match last_sync(fresh) {
        Some(s) => if s + 1 < n {
            let kept = fresh.subrange(s + 1 as int, n as int);
            let bytes = kept + v.bytes.subrange(kept.len() as int, v.bytes.len() as int);
            (
                ReaderView {
                    state: if kept.len() < 2 {
                        ReaderState::Header
                    } else {
                        ReaderState::Data
                    },
                    position: kept.len(),
                    bytes,
                },
                false,
            )
        } else {
            (ReaderView { state: ReaderState::Header, position: 0, bytes: v.bytes }, false)
        },
        None => (
            ReaderView {
                state: if new_position == end {
                    ReaderState::Completed
                } else {
                    ReaderState::Data
                },
                position: new_position,
                bytes: v.bytes,
            },
            new_position == end,
        ),
    }
}

/// The state and flags after `n` bytes arrived into the reading window, the
/// buffer then being `received`.
pub open spec fn after_bytes(before: ReaderView, received: Seq<u8>, n: nat) -> (ReaderView, bool) {
    let v = ReaderView { bytes: received, ..before };
    if before.state is Data {
        after_body_bytes(v, n)
    } else {
        after_header_bytes(v, n)
    }
}

/// What holds of every reader between calls.
pub open spec fn reader_inv(v: ReaderView, capacity: nat) -> bool {
    &&& v.state is Header ==> v.position < 2
    &&& v.state is Data ==> 2 <= v.position <= v.bytes.len()
    &&& v.state is Completed ==> {
        &&& v.position == frame_end(v.bytes)
        &&& v.position <= capacity
        &&& v.position <= v.bytes.len()
    }
    &&& !(v.state is Header) ==> sync_free(v.bytes.subrange(2, v.position as int))
}

/// The states from which the next read can go ahead: a completed frame with a
/// body must be taken out before reading on, and a frame must not have more
/// bytes than its header announces.
pub open spec fn can_read(v: ReaderView, capacity: nat) -> bool {
    &&& v.state is Completed ==> v.position == 2
    &&& v.state is Data ==> (frame_end(v.bytes) > capacity || v.position <= frame_end(v.bytes))
}

/// What a step does once the stream answered `answer` and the buffer became
/// `received`: `Ok(n)` takes `n` bytes, `WouldBlock` counts as no bytes, and
/// a failure `Other(e)` fails the step with `ReaderError(e)`, leaving the state
/// and position as they were.
pub open spec fn step_taken<E>(
    before: ReaderView,
    received: Seq<u8>,
    answer: Result<usize, StreamFailure<E>>,
    after: ReaderView,
    result: Result<(bool, bool), ProtocolReaderError<E>>,
) -> bool {
    let n: nat = match answer {
        Ok(k) => k as nat,
        Err(_) => 0,
    };
    let next = after_bytes(before, received, n);
    let taken = after == next.0 && result == Ok::<(bool, bool), ProtocolReaderError<E>>(
        (next.0.state is Completed, next.1),
    );
    match answer {
        Ok(k) => before.position + k <= window_end(before) && taken,
        Err(StreamFailure::WouldBlock) => taken,
        Err(StreamFailure::Other(e)) => {
            &&& result == Err::<(bool, bool), ProtocolReaderError<E>>(ProtocolReaderError::ReaderError(e))
            &&& after == ReaderView { bytes: received, ..before }
        },
    }
}

/// One step of reading: the stream `stream_before` is asked once for the
/// bytes that are missing (or not at all when none is, or when the frame
/// cannot fit the buffer), becoming `stream_after`; the state becomes `after`
/// and the step gives `result`.
pub open spec fn read_step<R: StreamReader>(
    before: ReaderView,
    capacity: nat,
    after: ReaderView,
    stream_before: R,
    stream_after: R,
    result: Result<(bool, bool), ProtocolReaderError<R::StreamError>>,
) -> bool {
    let start = before.position;
    let end = window_end(before);
    if before.state is Data && frame_end(before.bytes) > capacity {
        &&& after == ReaderView { state: ReaderState::Header, position: 0, bytes: before.bytes }
        &&& result matches Err(ProtocolReaderError::InsufficientBuffer)
        &&& stream_after == stream_before
    } else if before.state is Data && start == end {
        &&& stream_after == stream_before
        &&& step_taken(before, before.bytes, Ok::<usize, StreamFailure<R::StreamError>>(0), after, result)
    } else {
        exists|received: Seq<u8>, answer: Result<usize, StreamFailure<R::StreamError>>|
            {
                &&& filled_between(before.bytes, start, end, received)
                &&& #[trigger] R::reads(
                    stream_before,
                    stream_after,
                    before.bytes.subrange(start as int, end as int),
                    received.subrange(start as int, end as int),
                    answer,
                )
                &&& step_taken(before, received, answer, after, result)
            }
    }
}

/// The result of `read` given the result of its last step.
pub open spec fn read_result<E>(step: Result<(bool, bool), ProtocolReaderError<E>>) -> Result<
    bool,
    ProtocolReaderError<E>,
> {
    match step {
        Ok((completed, _)) => Ok(completed),
        Err(e) => Err(e),
    }
}

/// A step after which `read` returns.
pub open spec fn final_step<E>(step: Result<(bool, bool), ProtocolReaderError<E>>) -> bool {
    match step {
        Ok((completed, fully)) => completed || !fully,
        Err(_) => true,
    }
}

/// The bytes of the new frame before `position` stay when only the window
/// from `position` on is filled.
proof fn lemma_window_keeps_prefix(before: ReaderView, capacity: nat, received: Seq<u8>)
    requires
        reader_inv(before, capacity),
        before.bytes.len() >= 2,
        filled_between(before.bytes, before.position, window_end(before), received),
    ensures
        !(before.state is Header) ==> received[1] == before.bytes[1],
        !(before.state is Header) ==> received.subrange(2, before.position as int)
            == before.bytes.subrange(2, before.position as int),
{
    let p = before.position;
    if !(before.state is Header) {
        assert(received.subrange(0, p as int)[1] == before.bytes.subrange(0, p as int)[1]);
        assert(received.subrange(2, p as int) =~= before.bytes.subrange(2, p as int)) by {
            assert forall|i: int| 0 <= i < p - 2 implies received.subrange(2, p as int)[i]
                == before.bytes.subrange(2, p as int)[i] by {
                assert(received.subrange(0, p as int)[i + 2] == before.bytes.subrange(0, p as int)[i + 2]);
            }
        }
    }
}

proof fn lemma_read_step_failed<R: StreamReader>(
    before: ReaderView,
    capacity: nat,
    stream_before: R,
    stream_after: R,
    received: Seq<u8>,
    answer: Result<usize, StreamFailure<R::StreamError>>,
    error: R::StreamError,
)
    requires
        reader_inv(before, capacity),
        can_read(before, capacity),
        before.bytes.len() >= 2,
        !(before.state is Data && frame_end(before.bytes) > capacity),
        !(before.state is Data && before.position == window_end(before)),
        filled_between(before.bytes, before.position, window_end(before), received),
        R::reads(
            stream_before,
            stream_after,
            before.bytes.subrange(before.position as int, window_end(before) as int),
            received.subrange(before.position as int, window_end(before) as int),
            answer,
        ),
        answer == Err::<usize, StreamFailure<R::StreamError>>(StreamFailure::Other(error)),
    ensures
        read_step(
            before,
            capacity,
            ReaderView { bytes: received, ..before },
            stream_before,
            stream_after,
            Err::<(bool, bool), _>(ProtocolReaderError::ReaderError(error)),
        ),
        reader_inv(ReaderView { bytes: received, ..before }, capacity),
{
    lemma_window_keeps_prefix(before, capacity, received);
}

proof fn lemma_read_step_received<R: StreamReader>(
    before: ReaderView,
    capacity: nat,
    stream_before: R,
    stream_after: R,
    received: Seq<u8>,
    answer: Result<usize, StreamFailure<R::StreamError>>,
    n: nat,
)
    requires
        !(before.state is Data && frame_end(before.bytes) > capacity),
        filled_between(before.bytes, before.position, window_end(before), received),
        before.state is Data && before.position == window_end(before) ==> {
            &&& received == before.bytes
            &&& stream_after == stream_before
            &&& answer == Ok::<usize, StreamFailure<R::StreamError>>(0)
        },
        !(before.state is Data && before.position == window_end(before)) ==> R::reads(
            stream_before,
            stream_after,
            before.bytes.subrange(before.position as int, window_end(before) as int),
            received.subrange(before.position as int, window_end(before) as int),
            answer,
        ),
        answer matches Ok(k) ==> n == k,
        answer matches Err(failure) ==> failure is WouldBlock && n == 0,
        before.position + n <= window_end(before),
    ensures
        read_step(
            before,
            capacity,
            after_bytes(before, received, n).0,
            stream_before,
            stream_after,
            Ok((after_bytes(before, received, n).0.state is Completed, after_bytes(before, received, n).1)),
        ),
{
}

/// Where the last sync byte is, and that none follows it.
pub proof fn lemma_last_sync(s: Seq<u8>)
    ensures
        match last_sync(s) {
            None => sync_free(s),
            Some(i) => i < s.len() && s[i as int] == 0 && sync_free(s.subrange(i + 1 as int, s.len() as int)),
        },
    decreases s.len(),
{
    if s.len() > 0 && s.last() != 0 {
        lemma_last_sync(s.drop_last());
        match last_sync(s.drop_last()) {
            None => {
                assert forall|i: int| 0 <= i < s.len() implies s[i] != 0 by {
                    if i < s.len() - 1 {
                        assert(s.drop_last()[i] == s[i]);
                    }
                }
            },
            Some(j) => {
                assert forall|i: int| 0 <= i < s.len() - (j + 1) implies #[trigger] s.subrange(j + 1 as int, s.len() as int)[i] != 0 by {
                    if i < s.len() - 1 - (j + 1) {
                        assert(s.drop_last().subrange(j + 1 as int, s.len() - 1)[i] == s[j + 1 + i]);
                    }
                }
            },
        }
    }
}

/// Every read step keeps the reader's invariant.
proof fn lemma_after_bytes_inv(before: ReaderView, capacity: nat, received: Seq<u8>, n: nat)
    requires
        reader_inv(before, capacity),
        can_read(before, capacity),
        before.bytes.len() >= 2,
        before.bytes.len() >= capacity,
        !(before.state is Data && frame_end(before.bytes) > capacity),
        filled_between(before.bytes, before.position, window_end(before), received),
        before.position + n <= window_end(before),
    ensures
        reader_inv(after_bytes(before, received, n).0, capacity),
        after_bytes(before, received, n).0.bytes.len() == before.bytes.len(),
{
    let v = ReaderView { bytes: received, ..before };
    if before.state is Data {
        let p = before.position;
        assert(received.subrange(0, p as int)[1] == before.bytes.subrange(0, p as int)[1]);
        let fresh = received.subrange(p as int, (p + n) as int);
        lemma_last_sync(fresh);
        assert(received.subrange(2, p as int) =~= before.bytes.subrange(2, p as int)) by {
            assert forall|i: int| 0 <= i < p - 2 implies received.subrange(2, p as int)[i]
                == before.bytes.subrange(2, p as int)[i] by {
                assert(received.subrange(0, p as int)[i + 2] == before.bytes.subrange(0, p as int)[i + 2]);
            }
        }
        match last_sync(fresh) {
            Some(s) => {
                if s + 1 < n {
                    let kept = fresh.subrange(s + 1 as int, n as int);
                    let bytes = kept + received.subrange(kept.len() as int, received.len() as int);
                    if kept.len() >= 2 {
                        assert(bytes.subrange(2, kept.len() as int) =~= kept.subrange(2, kept.len() as int));
                    }
                }
            },
            None => {
                assert(received.subrange(2, (p + n) as int) =~= received.subrange(2, p as int) + fresh);
            },
        }
    }
}

/// What `read` may do: one final step, or a step that completes the header
/// followed by a final step; the stream goes from `stream_before` to
/// `stream_after`.
pub open spec fn read_outcome<R: StreamReader>(
    before: ReaderView,
    capacity: nat,
    after: ReaderView,
    stream_before: R,
    stream_after: R,
    result: Result<bool, ProtocolReaderError<R::StreamError>>,
) -> bool {
    ||| exists|step: Result<(bool, bool), ProtocolReaderError<R::StreamError>>|
        {
            &&& #[trigger] read_step(before, capacity, after, stream_before, stream_after, step)
            &&& final_step(step)
            &&& result == read_result(step)
        }
    ||| exists|
        middle: ReaderView,
        stream_middle: R,
        step: Result<(bool, bool), ProtocolReaderError<R::StreamError>>,
    |
        {
            &&& #[trigger] read_step(
                before,
                capacity,
                middle,
                stream_before,
                stream_middle,
                Ok((false, true)),
            )
            &&& #[trigger] read_step(middle, capacity, after, stream_middle, stream_after, step)
            &&& final_step(step)
            &&& result == read_result(step)
        }
}

/// The body length that the header at the front of `bytes` announces.
fn announced_length(bytes: &[u8]) -> (length: usize)
    requires
        bytes@.len() >= 2,
    ensures
        length == length_of(bytes@),
{
    let byte = bytes[1];
    assert(byte & 0x3f == byte % 64) by (bit_vector);
    (byte & 0x3f) as usize
}

/// Whether reading stops after a step that reported whether a frame is
/// complete and whether the stream gave every byte asked for, and with what:
/// `Some(true)` once a frame is complete, `Some(false)` when the stream ran
/// short, and `None` when the next step should go ahead.
pub fn read_stop(completed: bool, fully_read: bool) -> (stop: Option<bool>)
    ensures
        stop is Some <==> final_step(Ok::<(bool, bool), ProtocolReaderError<()>>((completed, fully_read))),
        stop matches Some(done) ==> done == completed,
{
    if completed {
        Some(true)
    } else if !fully_read {
        Some(false)
    } else {
        None
    }
}

/// A step that is not final completes the header: the reader then waits for
/// the body with two bytes in hand.
proof fn lemma_continuing_step<R: StreamReader>(
    before: ReaderView,
    capacity: nat,
    after: ReaderView,
    stream_before: R,
    stream_after: R,
)
    requires
        read_step(before, capacity, after, stream_before, stream_after, Ok((false, true))),
    ensures
        !(before.state is Data),
        after.state is Data,
        after.position == 2,
{
    let start = before.position;
    let end = window_end(before);
    if before.state is Data && frame_end(before.bytes) > capacity {
    } else if before.state is Data && start == end {
        let _ = after_body_bytes(before, 0);
    } else {
        let (received, answer) = choose|received: Seq<u8>, answer: Result<usize, StreamFailure<R::StreamError>>|
            {
                &&& filled_between(before.bytes, start, end, received)
                &&& #[trigger] R::reads(
                    stream_before,
                    stream_after,
                    before.bytes.subrange(start as int, end as int),
                    received.subrange(start as int, end as int),
                    answer,
                )
                &&& step_taken(before, received, answer, after, Ok((false, true)))
            };
        let n: nat = match answer {
            Ok(k) => k as nat,
            Err(_) => 0,
        };
        let v = ReaderView { bytes: received, ..before };
        if before.state is Data {
            let fresh = received.subrange(start as int, (start + n) as int);
            let _ = after_body_bytes(v, n);
        }
    }
}

// ---------------------------------------------------------------------------
// Errors
// ---------------------------------------------------------------------------

/// Why reading a frame failed.
#[derive(Debug)]
pub enum ProtocolReaderError<ReaderError> {
    ReaderError(ReaderError),
    PacketError(PacketError),
    InsufficientBuffer,
}

impl From<PacketError> for ProtocolReaderError<()> {
    fn from(error: PacketError) -> (result: Self) {
        ProtocolReaderError::PacketError(error)
    }
}

impl vstd::std_specs::convert::FromSpecImpl<PacketError> for ProtocolReaderError<()> {
    open spec fn obeys_from_spec() -> bool {
        true
    }

    open spec fn from_spec(error: PacketError) -> Self {
        ProtocolReaderError::PacketError(error)
    }
}

// ---------------------------------------------------------------------------
// The reader
// ---------------------------------------------------------------------------

/// Collects one frame at a time from a stream into a buffer of `BUFFER_SIZE` bytes.
pub struct ProtocolReader<const BUFFER_SIZE: usize, T: PacketBuffer> {
    buffer: T,
    position: usize,
    state: ReaderState,
}

impl<const BUFFER_SIZE: usize, T: PacketBuffer> View for ProtocolReader<BUFFER_SIZE, T> {
    type V = ReaderView;

    closed spec fn view(&self) -> ReaderView {
        ReaderView { state: self.state, position: self.position as nat, bytes: self.buffer.bytes() }
    }
}

impl<const BUFFER_SIZE: usize> ProtocolReader<BUFFER_SIZE, [u8; BUFFER_SIZE]> {
    /// A reader with a zeroed buffer of its own, waiting for a header.
    pub fn new() -> (reader: Self)
        ensures
            reader@.state is Header,
            reader@.position == 0,
            reader@.bytes == Seq::new(BUFFER_SIZE as nat, |i: int| 0u8),
    {
        let reader = ProtocolReader { buffer: [0u8; BUFFER_SIZE], position: 0, state: ReaderState::Header };
        assert(reader@.bytes =~= Seq::new(BUFFER_SIZE as nat, |i: int| 0u8));
        reader
    }
}

/// Asks `reader` for bytes for `buffer[start..end]` and gives its answer.
/// Only that part of the buffer can change, as the stream's read says.
fn read_into<R: StreamReader, T: PacketBuffer>(buffer: &mut T, start: usize, end: usize, reader: &mut R) -> (result: Result<usize, StreamFailure<R::StreamError>>)
    requires
        start <= end <= old(buffer).bytes().len(),
    ensures
        filled_between(old(buffer).bytes(), start as nat, end as nat, final(buffer).bytes()),
        result matches Ok(n) ==> n <= end - start,
        R::reads(
            *old(reader),
            *final(reader),
            old(buffer).bytes().subrange(start as int, end as int),
            final(buffer).bytes().subrange(start as int, end as int),
            result,
        ),
{
    let bytes = buffer.as_bytes_mut();
    let ghost all = bytes@;
    let (head, rest) = bytes.split_at_mut(start);
    let (window, tail) = rest.split_at_mut(end - start);
    assert(window@ =~= all.subrange(start as int, end as int));
    let result = reader.read(window);
    proof {
        assert(final(bytes)@ == final(head)@ + (final(window)@ + final(tail)@));
        assert(final(bytes)@.subrange(0, start as int) =~= all.subrange(0, start as int));
        assert(final(bytes)@.subrange(end as int, all.len() as int) =~= all.subrange(
            end as int,
            all.len() as int,
        ));
        assert(final(bytes)@.subrange(start as int, end as int) =~= final(window)@);
    }
    result
}

impl<const BUFFER_SIZE: usize, T: PacketBuffer> ProtocolReader<BUFFER_SIZE, T> {
    /// A reader that collects frames in `buffer`, waiting for a header.
    pub fn new_with_buffer(buffer: T) -> (reader: Self)
        ensures
            reader@ == (ReaderView { state: ReaderState::Header, position: 0, bytes: buffer.bytes() }),
            reader.buffer() == buffer,
    {
        ProtocolReader { buffer, position: 0, state: ReaderState::Header }
    }

    /// Whether a frame is complete.
    pub fn is_completed(&self) -> (completed: bool)
        ensures
            completed == (self@.state is Completed),
    {
        self.state == ReaderState::Completed
    }

    /// How many bytes of the current frame the reader holds.
    pub fn position(&self) -> (position: usize)
        ensures
            position == self@.position,
    {
        self.position
    }

    /// The buffer the reader collects frames in.
    pub closed spec fn buffer(&self) -> T {
        self.buffer
    }

    /// Gives the buffer back.
    pub fn release(self) -> (buffer: T)
        ensures
            buffer == self.buffer(),
            buffer.bytes() == self@.bytes,
    {
        self.buffer
    }

    /// Reads from the stream until a frame is complete, the stream has no more
    /// bytes to give, or something fails. `Ok(true)` means `packet` now has a frame.
    pub fn read<R: StreamReader>(&mut self, reader: &mut R) -> (result: Result<
        bool,
        ProtocolReaderError<R::StreamError>,
    >)
        requires
            reader_inv(old(self)@, BUFFER_SIZE as nat),
            can_read(old(self)@, BUFFER_SIZE as nat),
            old(self)@.bytes.len() >= 2,
            old(self)@.bytes.len() >= BUFFER_SIZE,
        ensures
            reader_inv(final(self)@, BUFFER_SIZE as nat),
            final(self)@.bytes.len() == old(self)@.bytes.len(),
            read_outcome(old(self)@, BUFFER_SIZE as nat, final(self)@, *old(reader), *final(reader), result),
    {
        let ghost start = self@;
        let ghost stream_start = *reader;
        let ghost mut header_done = false;
        loop
            invariant
                reader_inv(self@, BUFFER_SIZE as nat),
                can_read(self@, BUFFER_SIZE as nat),
                self@.bytes.len() == start.bytes.len(),
                start == old(self)@,
                start.bytes.len() >= 2,
                start.bytes.len() >= BUFFER_SIZE,
                stream_start == *old(reader),
                !header_done ==> self@ == start && *reader == stream_start,
                header_done ==> read_step(start, BUFFER_SIZE as nat, self@, stream_start, *reader, Ok((false, true))),
                header_done ==> self@.state is Data && self@.position == 2,
            decreases (if header_done { 0nat } else { 1nat }),
        {
            let ghost before = self@;
            let ghost stream_before = *reader;
            let step = self.read_inner(reader);
            let ghost step_view = step;
            match step {
                Err(e) => {
                    proof {
                        assert(final_step(step_view));
                        assert(read_result(step_view) == Err::<bool, _>(e));
                    }
                    return Err(e);
                },
                Ok((completed, fully_read)) => {
                    if let Some(done) = read_stop(completed, fully_read) {
                        return Ok(done);
                    }
                    proof {
                        lemma_continuing_step(before, BUFFER_SIZE as nat, self@, stream_before, *reader);
                        header_done = true;
                    }
                },
            }
        }
    }

    /// The completed frame, if there is one: the first `position` bytes of the buffer.
    pub fn packet(&self) -> (packet: Option<PacketReader<'_>>)
        requires
            reader_inv(self@, BUFFER_SIZE as nat),
            self@.state is Completed ==> self@.position >= 3,
        ensures
            packet is Some <==> self@.state is Completed,
            packet matches Some(p) ==> p@ == self@.bytes.subrange(0, self@.position as int),
    {
        if self.state == ReaderState::Completed {
            Some(PacketReader::new(&self.buffer.as_bytes()[0..self.position]))
        } else {
            None
        }
    }

    /// Records that `n` header bytes arrived at the current position.
    fn accept_header_bytes(&mut self, n: usize) -> (fully_read: bool)
        requires
            !(old(self)@.state is Data),
            old(self)@.position + n <= 2,
        ensures
            (final(self)@, fully_read) == after_header_bytes(old(self)@, n as nat),
    {
        if self.position + n < 2 {
            self.state = ReaderState::Header;
            self.position = n;
            false
        } else {
            self.state = ReaderState::Data;
            self.position = 2;
            true
        }
    }

    /// Records that `n` body bytes arrived at the current position: finds the
    /// last sync byte among them and, if there is one, moves what follows it to
    /// the front of the buffer.
    fn accept_body_bytes(&mut self, end: usize, n: usize) -> (fully_read: bool)
        requires
            old(self)@.state is Data,
            end == frame_end(old(self)@.bytes),
            old(self)@.position + n <= end <= old(self)@.bytes.len(),
        ensures
            (final(self)@, fully_read) == after_body_bytes(old(self)@, n as nat),
    {
        let position = self.position;
        let new_position = position + n;
        let ghost fresh = self@.bytes.subrange(position as int, new_position as int);
        let sync = last_sync_in(self.buffer.as_bytes(), position, new_position);
        match sync {
            Some(sync_position) => {
                if sync_position + 1 < n {
                    let kept = n - (sync_position + 1);
                    let bytes = self.buffer.as_bytes_mut();
                    move_to_front(bytes, position + sync_position + 1, new_position);
                    proof {
                        assert(fresh.subrange(sync_position + 1, n as int) =~= old(self)@.bytes.subrange(
                            position + sync_position + 1,
                            new_position as int,
                        ));
                    }
                    self.position = kept;
                    self.state = if kept < 2 {
                        ReaderState::Header
                    } else {
                        ReaderState::Data
                    };
                    proof {
                        assert(self@.bytes =~= fresh.subrange(sync_position + 1, n as int)
                            + old(self)@.bytes.subrange(kept as int, old(self)@.bytes.len() as int));
                    }
                    false
                } else {
                    self.state = ReaderState::Header;
                    self.position = 0;
                    false
                }
            },
            None => {
                self.position = new_position;
                self.state = if new_position == end {
                    ReaderState::Completed
                } else {
                    ReaderState::Data
                };
                new_position == end
            },
        }
    }

    /// Whether the next read can go ahead (see `can_read`).
    pub fn is_ready(&self) -> (ready: bool)
        requires
            reader_inv(self@, BUFFER_SIZE as nat),
            self@.bytes.len() >= 2,
        ensures
            ready == can_read(self@, BUFFER_SIZE as nat),
    {
        match self.state {
            ReaderState::Header => true,
            ReaderState::Completed => self.position == 2,
            ReaderState::Data => {
                let end = announced_length(self.buffer.as_bytes()) + 2;
                end > BUFFER_SIZE || self.position <= end
            },
        }
    }

    /// How many bytes the next step asks the stream for: what is missing of
    /// the header, or of the frame; none when the frame cannot fit the buffer.
    pub fn bytes_to_read(&self) -> (count: usize)
        requires
            reader_inv(self@, BUFFER_SIZE as nat),
            can_read(self@, BUFFER_SIZE as nat),
            self@.bytes.len() >= 2,
        ensures
            self@.state is Data && frame_end(self@.bytes) > BUFFER_SIZE ==> count == 0,
            !(self@.state is Data && frame_end(self@.bytes) > BUFFER_SIZE) ==> count
                == window_end(self@) - self@.position,
    {
        match self.state {
            ReaderState::Header | ReaderState::Completed => 2 - self.position,
            ReaderState::Data => {
                let end = announced_length(self.buffer.as_bytes()) + 2;
                if end > BUFFER_SIZE {
                    0
                } else {
                    end - self.position
                }
            },
        }
    }

    /// Asks the stream once (or not at all when nothing is missing) and
    /// updates the state; reports whether a frame is complete and whether the
    /// stream gave every byte asked for.
    pub fn read_inner<R: StreamReader>(&mut self, reader: &mut R) -> (result: Result<
        (bool, bool),
        ProtocolReaderError<R::StreamError>,
    >)
        requires
            reader_inv(old(self)@, BUFFER_SIZE as nat),
            can_read(old(self)@, BUFFER_SIZE as nat),
            old(self)@.bytes.len() >= 2,
            old(self)@.bytes.len() >= BUFFER_SIZE,
        ensures
            read_step(old(self)@, BUFFER_SIZE as nat, final(self)@, *old(reader), *final(reader), result),
            reader_inv(final(self)@, BUFFER_SIZE as nat),
            final(self)@.bytes.len() == old(self)@.bytes.len(),
    {
        match self.state {
            ReaderState::Header | ReaderState::Completed => {
                let position = self.position;
                let answer = read_into(&mut self.buffer, position, 2, reader);
                let ghost received = self@.bytes;
                let ghost answer_view = answer;
                proof {
                    assert(window_end(old(self)@) == 2);
                    assert(self@ == ReaderView { bytes: received, ..old(self)@ });
                }
                let bytes_read = match answer {
                    Ok(bytes_read) => bytes_read,
                    Err(StreamFailure::WouldBlock) => 0,
                    Err(StreamFailure::Other(err)) => {
                        proof {
                            lemma_read_step_failed(
                                old(self)@,
                                BUFFER_SIZE as nat,
                                *old(reader),
                                *reader,
                                received,
                                answer_view,
                                err,
                            );
                        }
                        return Err(ProtocolReaderError::ReaderError(err));
                    },
                };
                let fully_read = self.accept_header_bytes(bytes_read);
                proof {
                    lemma_read_step_received(
                        old(self)@,
                        BUFFER_SIZE as nat,
                        *old(reader),
                        *reader,
                        received,
                        answer_view,
                        bytes_read as nat,
                    );
                    lemma_after_bytes_inv(old(self)@, BUFFER_SIZE as nat, received, bytes_read as nat);
                }
                Ok((self.state == ReaderState::Completed, fully_read))
            },
            ReaderState::Data => {
                let length = announced_length(self.buffer.as_bytes());
                let end = length + 2;
                if end > BUFFER_SIZE {
                    self.state = ReaderState::Header;
                    self.position = 0;
                    return Err(ProtocolReaderError::InsufficientBuffer);
                }
                let position = self.position;
                let bytes_to_read = end - position;
                let ghost mut answer_view: Result<usize, StreamFailure<R::StreamError>> = Ok(0);
                let bytes_read = if bytes_to_read == 0 {
                    0
                } else {
                    let answer = read_into(&mut self.buffer, position, end, reader);
                    let ghost received = self@.bytes;
                    proof {
                        answer_view = answer;
                    }
                    match answer {
                        Ok(bytes_read) => bytes_read,
                        Err(StreamFailure::WouldBlock) => 0,
                        Err(StreamFailure::Other(err)) => {
                            proof {
                                lemma_read_step_failed(
                                    old(self)@,
                                    BUFFER_SIZE as nat,
                                    *old(reader),
                                    *reader,
                                    received,
                                    answer_view,
                                    err,
                                );
                            }
                            return Err(ProtocolReaderError::ReaderError(err));
                        },
                    }
                };
                let ghost received = self@.bytes;
                proof {
                    if bytes_to_read == 0 {
                        assert(received.subrange(0, position as int) =~= old(self)@.bytes.subrange(0, position as int));
                        assert(received.subrange(end as int, received.len() as int) =~= old(self)@.bytes.subrange(end as int, received.len() as int));
                    }
                    assert(filled_between(old(self)@.bytes, old(self)@.position, end as nat, received));
                    assert(self@ == ReaderView { bytes: received, ..old(self)@ });
                    lemma_window_keeps_prefix(old(self)@, BUFFER_SIZE as nat, received);
                }
                let fully_read = self.accept_body_bytes(end, bytes_read);
                proof {
                    lemma_read_step_received(
                        old(self)@,
                        BUFFER_SIZE as nat,
                        *old(reader),
                        *reader,
                        received,
                        answer_view,
                        bytes_read as nat,
                    );
                    lemma_after_bytes_inv(old(self)@, BUFFER_SIZE as nat, received, bytes_read as nat);
                }
                Ok((self.state == ReaderState::Completed, fully_read))
            },
        }
    }
}

/// The index, relative to `start`, of the last 0x00 in `bytes[start..end]`.
fn last_sync_in(bytes: &[u8], start: usize, end: usize) -> (sync: Option<usize>)
    requires
        start <= end <= bytes@.len(),
    ensures
        match last_sync(bytes@.subrange(start as int, end as int)) {
            None => sync is None,
            Some(s) => sync == Some(s as usize) && s < end - start,
        },
{
    let mut i = end;
    while i > start
        invariant
            start <= i <= end <= bytes@.len(),
            last_sync(bytes@.subrange(start as int, end as int)) == last_sync(
                bytes@.subrange(start as int, i as int),
            ),
        decreases i - start,
    {
        let ghost s = bytes@.subrange(start as int, i as int);
        if bytes[i - 1] == 0 {
            assert(s.last() == 0);
            return Some(i - 1 - start);
        }
        assert(s.drop_last() =~= bytes@.subrange(start as int, i - 1));
        i = i - 1;
    }
    None
}

/// Copies `bytes[from..to]` to the front of `bytes`; the rest stays.
fn move_to_front(bytes: &mut [u8], from: usize, to: usize)
    requires
        0 < from <= to <= old(bytes)@.len(),
    ensures
        final(bytes)@ == old(bytes)@.subrange(from as int, to as int) + old(bytes)@.subrange(
            (to - from) as int,
            old(bytes)@.len() as int,
        ),
{
    let count = to - from;
    let mut i: usize = 0;
    while i < count
        invariant
            0 < from <= to <= old(bytes)@.len(),
            count == to - from,
            i <= count,
            bytes@.len() == old(bytes)@.len(),
            forall|j: int| 0 <= j < i ==> bytes@[j] == old(bytes)@[from + j],
            forall|j: int| i <= j < bytes@.len() ==> bytes@[j] == old(bytes)@[j],
        decreases count - i,
    {
        let b = bytes[from + i];
        bytes[i] = b;
        i = i + 1;
    }
    assert(bytes@ =~= old(bytes)@.subrange(from as int, to as int) + old(bytes)@.subrange(
        count as int,
        old(bytes)@.len() as int,
    ));
}

// ---------------------------------------------------------------------------
// Laws
// ---------------------------------------------------------------------------

/// Bytes without a sync byte have no last sync byte.
pub proof fn lemma_sync_free_no_last_sync(s: Seq<u8>)
    requires
        sync_free(s),
    ensures
        last_sync(s) is None,
{
    lemma_last_sync(s);
}

/// A completed frame is as long as its header announces, fits the buffer's
/// capacity, and has no sync byte in its body.
pub proof fn lemma_completed_frame(v: ReaderView, capacity: nat)
    requires
        reader_inv(v, capacity),
        v.state is Completed,
    ensures
        ({
            let frame = v.bytes.subrange(0, v.position as int);
            &&& frame.len() <= capacity
            &&& body_fits(frame)
            &&& body_of(frame) == v.bytes.subrange(2, v.position as int)
            &&& sync_free(body_of(frame))
        }),
{
    let frame = v.bytes.subrange(0, v.position as int);
    assert(frame[1] == v.bytes[1]);
    assert(body_of(frame) =~= v.bytes.subrange(2, v.position as int));
}

/// Body bytes without a sync byte are appended to the frame; the frame is
/// complete when they reach its announced end.
pub proof fn lemma_clean_body_bytes(v: ReaderView, n: nat)
    requires
        v.state is Data,
        v.position + n <= frame_end(v.bytes),
        sync_free(v.bytes.subrange(v.position as int, (v.position + n) as int)),
    ensures
        after_body_bytes(v, n) == (
            ReaderView {
                state: if v.position + n == frame_end(v.bytes) {
                    ReaderState::Completed
                } else {
                    ReaderState::Data
                },
                position: v.position + n,
                bytes: v.bytes,
            },
            v.position + n == frame_end(v.bytes),
        ),
{
    lemma_sync_free_no_last_sync(v.bytes.subrange(v.position as int, (v.position + n) as int));
}

/// A frame whose body holds no sync byte, received from a reader waiting for a
/// header, is complete once its header and then its body have arrived: the
/// buffer then starts with the frame.
pub proof fn lemma_frame_received(bytes: Seq<u8>)
    requires
        bytes.len() >= 2,
        frame_end(bytes) <= bytes.len(),
        sync_free(bytes.subrange(2, frame_end(bytes) as int)),
    ensures
        ({
            let start = ReaderView { state: ReaderState::Header, position: 0, bytes };
            let (header_read, header_full) = after_header_bytes(start, 2);
            let (body_read, body_full) = after_body_bytes(
                header_read,
                (frame_end(bytes) - 2) as nat,
            );
            &&& header_full
            &&& header_read == ReaderView { state: ReaderState::Data, position: 2, bytes }
            &&& body_full
            &&& body_read == ReaderView {
                state: ReaderState::Completed,
                position: frame_end(bytes),
                bytes,
            }
        }),
{
    let header_read = ReaderView { state: ReaderState::Data, position: 2, bytes };
    lemma_clean_body_bytes(header_read, (frame_end(bytes) - 2) as nat);
}

/// When body bytes hold a sync byte, everything up to and including the last
/// one is dropped: the reader keeps exactly the bytes after it, which hold no
/// sync byte, as the start of the next frame, and waits for more.
pub proof fn lemma_resync(v: ReaderView, n: nat, i: int)
    requires
        v.state is Data,
        v.position + n <= frame_end(v.bytes) <= v.bytes.len(),
        0 <= i < n,
        v.bytes[v.position + i] == 0,
    ensures
        ({
            let fresh = v.bytes.subrange(v.position as int, (v.position + n) as int);
            let (next, full) = after_body_bytes(v, n);
            let s = last_sync(fresh)->0;
            &&& !full
            &&& next.bytes.subrange(0, next.position as int) == fresh.subrange(s + 1 as int, n as int)
            &&& sync_free(next.bytes.subrange(0, next.position as int))
            &&& (next.state is Header <==> next.position < 2)
            &&& !(next.state is Completed)
        }),
{
    let fresh = v.bytes.subrange(v.position as int, (v.position + n) as int);
    assert(fresh[i] == 0);
    lemma_last_sync(fresh);
    if last_sync(fresh) is None {
        assert(!sync_free(fresh));
    }
    let s = last_sync(fresh)->0;
    if s + 1 < n {
        let kept = fresh.subrange(s + 1 as int, n as int);
        let bytes = kept + v.bytes.subrange(kept.len() as int, v.bytes.len() as int);
        assert(bytes.subrange(0, kept.len() as int) =~= kept);
    } else {
        assert(fresh.subrange(s + 1 as int, n as int) =~= Seq::<u8>::empty());
        assert(v.bytes.subrange(0, 0) =~= Seq::<u8>::empty());
    }
}

/// One step of reading from a byte slice holding `stream`: the bytes that fit
/// the window are taken from its front; gives the state, what is left of the
/// stream, and the step's result.
pub open spec fn slice_step(before: ReaderView, capacity: nat, stream: Seq<u8>) -> (
    ReaderView,
    Seq<u8>,
    Result<(bool, bool), ProtocolReaderError<()>>,
) {
    let start = before.position;
    let end = window_end(before);
    if before.state is Data && frame_end(before.bytes) > capacity {
        (
            ReaderView { state: ReaderState::Header, position: 0, bytes: before.bytes },
            stream,
            Err(ProtocolReaderError::InsufficientBuffer),
        )
    } else if before.state is Data && start == end {
        let next = after_bytes(before, before.bytes, 0);
        (next.0, stream, Ok((next.0.state is Completed, next.1)))
    } else {
        let wanted = end - start;
        let taken: nat = if wanted < stream.len() {
            wanted as nat
        } else {
            stream.len()
        };
        let received = before.bytes.subrange(0, start as int) + stream.subrange(0, taken as int)
            + before.bytes.subrange((start + taken) as int, before.bytes.len() as int);
        let next = after_bytes(before, received, taken);
        (next.0, stream.subrange(taken as int, stream.len() as int), Ok((next.0.state is Completed, next.1)))
    }
}

/// Reading from a byte slice holding `stream`, as `read` does: one step, and a
/// second one when the first completed the header and got all it asked for.
pub open spec fn slice_read(before: ReaderView, capacity: nat, stream: Seq<u8>) -> (
    ReaderView,
    Seq<u8>,
    Result<bool, ProtocolReaderError<()>>,
) {
    let first = slice_step(before, capacity, stream);
    if first.2 == Ok::<(bool, bool), ProtocolReaderError<()>>((false, true)) {
        let second = slice_step(first.0, capacity, first.1);
        (second.0, second.1, read_result(second.2))
    } else {
        (first.0, first.1, read_result(first.2))
    }
}

/// Reading one step from a byte slice is determined by the slice: the state,
/// what is left of the slice and the result are those of `slice_step`.
pub proof fn lemma_slice_step<'a>(
    before: ReaderView,
    capacity: nat,
    after: ReaderView,
    stream_before: &'a [u8],
    stream_after: &'a [u8],
    result: Result<(bool, bool), ProtocolReaderError<()>>,
)
    requires
        reader_inv(before, capacity),
        can_read(before, capacity),
        before.bytes.len() >= 2,
        before.bytes.len() >= capacity,
        read_step(before, capacity, after, stream_before, stream_after, result),
    ensures
        (after, stream_after@, result) == slice_step(before, capacity, stream_before@),
{
    let start = before.position;
    let end = window_end(before);
    if before.state is Data && frame_end(before.bytes) > capacity {
    } else if before.state is Data && start == end {
    } else {
        let (received, answer) = choose|received: Seq<u8>, answer: Result<usize, StreamFailure<()>>|
            {
                &&& filled_between(before.bytes, start, end, received)
                &&& #[trigger] <&'a [u8] as StreamReader>::reads(
                    stream_before,
                    stream_after,
                    before.bytes.subrange(start as int, end as int),
                    received.subrange(start as int, end as int),
                    answer,
                )
                &&& step_taken(before, received, answer, after, result)
            };
        let wanted = end - start;
        let taken: nat = if wanted < stream_before@.len() {
            wanted as nat
        } else {
            stream_before@.len()
        };
        let expected = before.bytes.subrange(0, start as int) + stream_before@.subrange(
            0,
            taken as int,
        ) + before.bytes.subrange((start + taken) as int, before.bytes.len() as int);
        let window = received.subrange(start as int, end as int);
        assert(window == stream_before@.subrange(0, taken as int) + before.bytes.subrange(
            start as int,
            end as int,
        ).subrange(taken as int, wanted as int));
        assert forall|i: int| 0 <= i < received.len() implies received[i] == expected[i] by {
            if i < start {
                assert(received.subrange(0, start as int)[i] == before.bytes.subrange(
                    0,
                    start as int,
                )[i]);
            } else if i < end {
                assert(window[i - start] == received[i]);
            } else {
                assert(received.subrange(end as int, received.len() as int)[i - end]
                    == before.bytes.subrange(end as int, before.bytes.len() as int)[i - end]);
            }
        }
        assert(received =~= expected);
    }
}

/// Reading from a byte slice is determined by the slice: `read` leaves the
/// state, the rest of the slice and the result of `slice_read`.
pub proof fn lemma_slice_read<'a>(
    before: ReaderView,
    capacity: nat,
    after: ReaderView,
    stream_before: &'a [u8],
    stream_after: &'a [u8],
    result: Result<bool, ProtocolReaderError<()>>,
)
    requires
        reader_inv(before, capacity),
        can_read(before, capacity),
        before.bytes.len() >= 2,
        before.bytes.len() >= capacity,
        read_outcome(before, capacity, after, stream_before, stream_after, result),
    ensures
        (after, stream_after@, result) == slice_read(before, capacity, stream_before@),
{
    if exists|step: Result<(bool, bool), ProtocolReaderError<()>>|
        {
            &&& #[trigger] read_step(before, capacity, after, stream_before, stream_after, step)
            &&& final_step(step)
            &&& result == read_result(step)
        } {
        let step = choose|step: Result<(bool, bool), ProtocolReaderError<()>>|
            {
                &&& #[trigger] read_step(before, capacity, after, stream_before, stream_after, step)
                &&& final_step(step)
                &&& result == read_result(step)
            };
        lemma_slice_step(before, capacity, after, stream_before, stream_after, step);
    } else {
        let (middle, stream_middle, step) = choose|
            middle: ReaderView,
            stream_middle: &'a [u8],
            step: Result<(bool, bool), ProtocolReaderError<()>>,
        |
            {
                &&& #[trigger] read_step(
                    before,
                    capacity,
                    middle,
                    stream_before,
                    stream_middle,
                    Ok((false, true)),
                )
                &&& #[trigger] read_step(middle, capacity, after, stream_middle, stream_after, step)
                &&& final_step(step)
                &&& result == read_result(step)
            };
        lemma_slice_step(before, capacity, middle, stream_before, stream_middle, Ok((false, true)));
        lemma_continuing_step(before, capacity, middle, stream_before, stream_middle);
        assert(middle.bytes.subrange(2, 2) =~= Seq::<u8>::empty());
        lemma_slice_step(middle, capacity, after, stream_middle, stream_after, step);
    }
}

/// A frame whose body holds no sync byte, at the front of a byte slice, is
/// received whole by one read of a reader waiting for a header when it fits the
/// buffer: the read completes the frame, the buffer starts with it, and every
/// byte after the frame stays in the slice.
pub proof fn lemma_slice_frame_received(
    buffer: Seq<u8>,
    capacity: nat,
    frame: Seq<u8>,
    rest: Seq<u8>,
)
    requires
        buffer.len() >= capacity,
        frame.len() >= 2,
        frame_end(frame) == frame.len(),
        frame.len() <= capacity,
        sync_free(frame.subrange(2, frame.len() as int)),
    ensures
        slice_read(
            ReaderView { state: ReaderState::Header, position: 0, bytes: buffer },
            capacity,
            frame + rest,
        ) == (
            ReaderView {
                state: ReaderState::Completed,
                position: frame.len(),
                bytes: frame + buffer.subrange(frame.len() as int, buffer.len() as int),
            },
            rest,
            Ok::<bool, ProtocolReaderError<()>>(true),
        ),
{
    let stream = frame + rest;
    let start = ReaderView { state: ReaderState::Header, position: 0, bytes: buffer };
    let header = buffer.subrange(0, 0) + stream.subrange(0, 2) + buffer.subrange(2, buffer.len() as int);
    let first = slice_step(start, capacity, stream);
    assert(first.0 == ReaderView { state: ReaderState::Data, position: 2, bytes: header });
    assert(first.1 == stream.subrange(2, stream.len() as int));
    assert(header[1] == frame[1]);
    assert(frame_end(header) == frame.len());
    let body_len = (frame.len() - 2) as nat;
    let left = stream.subrange(2, stream.len() as int);
    let received = header.subrange(0, 2) + left.subrange(0, body_len as int) + header.subrange(
        frame.len() as int,
        header.len() as int,
    );
    let whole = frame + buffer.subrange(frame.len() as int, buffer.len() as int);
    assert(received =~= whole);
    assert(left.subrange(body_len as int, left.len() as int) =~= rest);
    let data = ReaderView { state: ReaderState::Data, position: 2, bytes: whole };
    assert(whole.subrange(2, frame.len() as int) =~= frame.subrange(2, frame.len() as int));
    lemma_clean_body_bytes(data, body_len);
    if body_len == 0 {
        assert(header =~= whole);
        assert(left =~= rest);
    }
}

} // verus!
