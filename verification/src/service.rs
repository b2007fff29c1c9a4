//! Buffers, a send queue, and a service that relays frames.
//!
//! A `BufferPool` holds `BUFFER_COUNT` buffers of `BUFFER_SIZE` bytes. A buffer
//! is lent out as a `BufferRef` and keeps its contents when it is given back.
//! A `BufferManager` queues buffers for sending in the order they were
//! registered, and gives each buffer back to the pool once it is sent.
use crate::packet::PacketReader;
use crate::protocol::{
    can_read, frame_end, lemma_slice_read, reader_inv, slice_read, PacketBuffer, ProtocolReader,
    ProtocolReaderError, ReaderState, ReaderView,
};
use vstd::prelude::*;

verus! {

// ---------------------------------------------------------------------------
// Lent buffers
// ---------------------------------------------------------------------------

/// A buffer lent out by a `BufferPool`, with the index of its slot there.
pub struct BufferRef<const BUFFER_SIZE: usize, const BUFFER_COUNT: usize> {
    buffer_index: usize,
    buffer: [u8; BUFFER_SIZE],
}

impl<const BUFFER_SIZE: usize, const BUFFER_COUNT: usize> View for BufferRef<
    BUFFER_SIZE,
    BUFFER_COUNT,
> {
    type V = Seq<u8>;

    /// The buffer's contents.
    closed spec fn view(&self) -> Seq<u8> {
        self.buffer@
    }
}

impl<const BUFFER_SIZE: usize, const BUFFER_COUNT: usize> BufferRef<BUFFER_SIZE, BUFFER_COUNT> {
    /// The pool slot that the buffer belongs to.
    pub closed spec fn index(&self) -> nat {
        self.buffer_index as nat
    }

    /// The buffer always holds `BUFFER_SIZE` bytes.
    pub proof fn lemma_len(&self)
        ensures
            self@.len() == BUFFER_SIZE,
    {
    }
}

impl<const BUFFER_SIZE: usize, const BUFFER_COUNT: usize> PacketBuffer for BufferRef<
    BUFFER_SIZE,
    BUFFER_COUNT,
> {
    open spec fn bytes(&self) -> Seq<u8> {
        self@
    }

    fn as_bytes(&self) -> (bytes: &[u8]) {
        self.buffer.as_slice()
    }

    fn as_bytes_mut(&mut self) -> (bytes: &mut [u8]) {
        &mut self.buffer
    }
}

impl<const BUFFER_SIZE: usize, const BUFFER_COUNT: usize> core::ops::Deref for BufferRef<
    BUFFER_SIZE,
    BUFFER_COUNT,
> {
    type Target = [u8; BUFFER_SIZE];

    fn deref(&self) -> (bytes: &[u8; BUFFER_SIZE])
        ensures
            bytes@ == self@,
    {
        &self.buffer
    }
}

impl<const BUFFER_SIZE: usize, const BUFFER_COUNT: usize> core::ops::DerefMut for BufferRef<
    BUFFER_SIZE,
    BUFFER_COUNT,
> {
    fn deref_mut(&mut self) -> (bytes: &mut [u8; BUFFER_SIZE])
        ensures
            bytes@ == old(self)@,
            final(self)@ == final(bytes)@,
            final(self).index() == old(self).index(),
    {
        &mut self.buffer
    }
}

impl<const BUFFER_SIZE: usize, const BUFFER_COUNT: usize> AsRef<[u8]> for BufferRef<
    BUFFER_SIZE,
    BUFFER_COUNT,
> {
    fn as_ref(&self) -> (bytes: &[u8])
        ensures
            bytes@ == self@,
    {
        self.buffer.as_slice()
    }
}

impl<const BUFFER_SIZE: usize, const BUFFER_COUNT: usize> AsMut<[u8]> for BufferRef<
    BUFFER_SIZE,
    BUFFER_COUNT,
> {
    fn as_mut(&mut self) -> (bytes: &mut [u8])
        ensures
            bytes@ == old(self)@,
            final(self)@ == final(bytes)@,
            final(self).index() == old(self).index(),
    {
        &mut self.buffer
    }
}

// ---------------------------------------------------------------------------
// The pool
// ---------------------------------------------------------------------------

/// `BUFFER_COUNT` buffers of `BUFFER_SIZE` bytes, each either in the pool or lent out.
pub struct BufferPool<const BUFFER_SIZE: usize, const BUFFER_COUNT: usize> {
    slots: Vec<Option<[u8; BUFFER_SIZE]>>,
}

/// The contents of a slot that is in the pool, `None` for one that is lent out.
pub open spec fn slot_view<const N: usize>(slot: Option<[u8; N]>) -> Option<Seq<u8>> {
    match slot {
        Some(buffer) => Some(buffer@),
        None => None,
    }
}

/// The first of the first `n` slots that is in the pool.
pub open spec fn first_free_in(slots: Seq<Option<Seq<u8>>>, n: nat) -> Option<nat>
    decreases n,
{
    if n == 0 {
        None
    } else {
        match first_free_in(slots, (n - 1) as nat) {
            Some(i) => Some(i),
            None => if slots[n - 1] is Some {
                Some((n - 1) as nat)
            } else {
                None
            },
        }
    }
}

/// The first slot that is in the pool.
pub open spec fn first_free(slots: Seq<Option<Seq<u8>>>) -> Option<nat> {
    first_free_in(slots, slots.len())
}

/// The slots after `buffer` is given back: it fills its own slot when that
/// slot is lent out, and is dropped otherwise.
pub open spec fn given_back(slots: Seq<Option<Seq<u8>>>, index: nat, bytes: Seq<u8>) -> Seq<
    Option<Seq<u8>>,
> {
    if index < slots.len() && slots[index as int] is None {
        slots.update(index as int, Some(bytes))
    } else {
        slots
    }
}

/// Looking at more slots does not change a first free slot already found,
/// and the first free slot is in the pool and before every other one.
proof fn lemma_first_free_in(slots: Seq<Option<Seq<u8>>>, n: nat, m: nat)
    requires
        n <= m <= slots.len(),
    ensures
        first_free_in(slots, n) matches Some(i) ==> first_free_in(slots, m) == Some(i),
        first_free_in(slots, m) matches Some(i) ==> i < m && slots[i as int] is Some,
        first_free_in(slots, m) is None ==> forall|j: int| 0 <= j < m ==> slots[j] is None,
    decreases m,
{
    if m > 0 {
        if n < m {
            lemma_first_free_in(slots, n, (m - 1) as nat);
        } else {
            lemma_first_free_in(slots, (m - 1) as nat, (m - 1) as nat);
        }
    }
}

/// With no slot in the pool among the first `n`, none of them is found.
proof fn lemma_none_free_below(slots: Seq<Option<Seq<u8>>>, n: nat)
    requires
        n <= slots.len(),
        forall|j: int| 0 <= j < n ==> slots[j] is None,
    ensures
        first_free_in(slots, n) is None,
    decreases n,
{
    if n > 0 {
        lemma_none_free_below(slots, (n - 1) as nat);
    }
}

/// The first slot in the pool is a slot, and is in the pool.
pub proof fn lemma_first_free_in_pool(slots: Seq<Option<Seq<u8>>>)
    ensures
        first_free(slots) matches Some(i) ==> i < slots.len() && slots[i as int] is Some,
{
    lemma_first_free_in(slots, slots.len(), slots.len());
}

impl<const BUFFER_SIZE: usize, const BUFFER_COUNT: usize> View for BufferPool<
    BUFFER_SIZE,
    BUFFER_COUNT,
> {
    type V = Seq<Option<Seq<u8>>>;

    closed spec fn view(&self) -> Seq<Option<Seq<u8>>> {
        self.slots@.map_values(|slot: Option<[u8; BUFFER_SIZE]>| slot_view(slot))
    }
}

impl<const BUFFER_SIZE: usize, const BUFFER_COUNT: usize> BufferPool<BUFFER_SIZE, BUFFER_COUNT> {
    /// A pool whose buffers are all in it and all zero.
    pub fn new() -> (pool: Self)
        ensures
            pool@ == Seq::new(
                BUFFER_COUNT as nat,
                |i: int| Some(Seq::new(BUFFER_SIZE as nat, |j: int| 0u8)),
            ),
    {
        let mut slots: Vec<Option<[u8; BUFFER_SIZE]>> = Vec::new();
        let ghost zeros = Seq::new(BUFFER_SIZE as nat, |j: int| 0u8);
        let mut i: usize = 0;
        while i < BUFFER_COUNT
            invariant
                i <= BUFFER_COUNT,
                zeros == Seq::new(BUFFER_SIZE as nat, |j: int| 0u8),
                slots@.len() == i,
                forall|k: int| 0 <= k < i ==> slot_view(#[trigger] slots@[k]) == Some(zeros),
            decreases BUFFER_COUNT - i,
        {
            let buffer = [0u8; BUFFER_SIZE];
            assert(buffer@ =~= zeros);
            slots.push(Some(buffer));
            i = i + 1;
        }
        let pool = BufferPool { slots };
        assert(pool@ =~= Seq::new(BUFFER_COUNT as nat, |k: int| Some(zeros)));
        pool
    }

    /// Lends out the first buffer that is in the pool, if any.
    pub fn get_buffer(&mut self) -> (buffer: Option<BufferRef<BUFFER_SIZE, BUFFER_COUNT>>)
        requires
            old(self)@.len() == BUFFER_COUNT,
        ensures
            final(self)@.len() == BUFFER_COUNT,
            buffer is None <==> first_free(old(self)@) is None,
            buffer is None ==> final(self)@ == old(self)@,
            buffer matches Some(b) ==> {
                &&& first_free(old(self)@) == Some(b.index())
                &&& old(self)@[b.index() as int] == Some(b@)
                &&& final(self)@ == old(self)@.update(b.index() as int, None)
            },
    {
        let mut i: usize = 0;
        while i < BUFFER_COUNT
            invariant
                i <= BUFFER_COUNT,
                self.slots@.len() == BUFFER_COUNT,
                self@ == old(self)@,
                self@.len() == BUFFER_COUNT,
                first_free_in(old(self)@, i as nat) is None,
            decreases BUFFER_COUNT - i,
        {
            let slot = self.slots[i];
            match slot {
                Some(buffer) => {
                    proof {
                        assert(first_free_in(old(self)@, (i + 1) as nat) == Some(i as nat));
                        lemma_first_free_in(old(self)@, (i + 1) as nat, BUFFER_COUNT as nat);
                    }
                    self.slots.set(i, None);
                    assert(self@ =~= old(self)@.update(i as int, None));
                    return Some(BufferRef { buffer_index: i, buffer });
                },
                None => {
                    i = i + 1;
                },
            }
        }
        None
    }

    /// Takes a lent buffer back into its slot.
    pub fn return_buffer(&mut self, buffer: BufferRef<BUFFER_SIZE, BUFFER_COUNT>)
        requires
            old(self)@.len() == BUFFER_COUNT,
        ensures
            final(self)@ == given_back(old(self)@, buffer.index(), buffer@),
    {
        let index = buffer.buffer_index;
        if index < BUFFER_COUNT && self.slots[index].is_none() {
            self.slots.set(index, Some(buffer.buffer));
            assert(self@ =~= old(self)@.update(index as int, Some(buffer@)));
        }
    }
}

// ---------------------------------------------------------------------------
// The send queue
// ---------------------------------------------------------------------------

/// The slot `k` places after `start` on a ring of `count` slots.
pub open spec fn ring_slot(start: nat, k: nat, count: nat) -> nat {
    if start + k >= count {
        (start + k - count) as nat
    } else {
        start + k
    }
}

/// Lends buffers out of a pool and sends registered buffers in the order in
/// which they were registered.
pub struct BufferManager<const BUFFER_SIZE: usize, const BUFFER_COUNT: usize> {
    buffer_pool: BufferPool<BUFFER_SIZE, BUFFER_COUNT>,
    send_buffers: Vec<Option<BufferRef<BUFFER_SIZE, BUFFER_COUNT>>>,
    send_buffer_index: usize,
    queued: Ghost<nat>,
}

impl<const BUFFER_SIZE: usize, const BUFFER_COUNT: usize> BufferManager<BUFFER_SIZE, BUFFER_COUNT> {
    /// The registered buffers sit in consecutive slots of the ring, starting
    /// at the one to be sent next.
    pub closed spec fn wf(&self) -> bool {
        &&& self.buffer_pool@.len() == BUFFER_COUNT
        &&& self.send_buffers@.len() == BUFFER_COUNT
        &&& BUFFER_COUNT > 0 ==> self.send_buffer_index < BUFFER_COUNT
        &&& BUFFER_COUNT == 0 ==> self.send_buffer_index == 0
        &&& self.queued@ <= BUFFER_COUNT
        &&& forall|k: nat|
            k < BUFFER_COUNT ==> (#[trigger] self.send_buffers@[ring_slot(
                self.send_buffer_index as nat,
                k,
                BUFFER_COUNT as nat,
            ) as int] is Some <==> k < self.queued@)
    }

    /// The buffers waiting to be sent, the next one first.
    pub closed spec fn queue(&self) -> Seq<BufferRef<BUFFER_SIZE, BUFFER_COUNT>> {
        Seq::new(
            self.queued@,
            |k: int|
                self.send_buffers@[ring_slot(
                    self.send_buffer_index as nat,
                    k as nat,
                    BUFFER_COUNT as nat,
                ) as int]->0,
        )
    }

    /// The slots of the pool.
    pub closed spec fn pool(&self) -> Seq<Option<Seq<u8>>> {
        self.buffer_pool@
    }

    /// A manager with an empty queue that lends from `buffer_pool`.
    pub fn new(buffer_pool: BufferPool<BUFFER_SIZE, BUFFER_COUNT>) -> (manager: Self)
        requires
            buffer_pool@.len() == BUFFER_COUNT,
        ensures
            manager.wf(),
            manager.queue() == Seq::<BufferRef<BUFFER_SIZE, BUFFER_COUNT>>::empty(),
            manager.pool() == buffer_pool@,
    {
        let mut send_buffers: Vec<Option<BufferRef<BUFFER_SIZE, BUFFER_COUNT>>> = Vec::new();
        let mut i: usize = 0;
        while i < BUFFER_COUNT
            invariant
                i <= BUFFER_COUNT,
                send_buffers@.len() == i,
                forall|k: int| 0 <= k < i ==> send_buffers@[k] is None,
            decreases BUFFER_COUNT - i,
        {
            send_buffers.push(None);
            i = i + 1;
        }
        let manager = BufferManager {
            buffer_pool,
            send_buffers,
            send_buffer_index: 0,
            queued: Ghost(0),
        };
        assert(manager.queue() =~= Seq::<BufferRef<BUFFER_SIZE, BUFFER_COUNT>>::empty());
        manager
    }

    /// The first free slot of the ring after the registered buffers.
    fn find_next_send_buffer_index(&self) -> (index: Option<usize>)
        requires
            self.wf(),
        ensures
            index == (if self.queued@ < BUFFER_COUNT {
                Some(
                    ring_slot(self.send_buffer_index as nat, self.queued@, BUFFER_COUNT as nat) as usize,
                )
            } else {
                None
            }),
    {
        let start = self.send_buffer_index;
        let mut i: usize = 0;
        while i < BUFFER_COUNT
            invariant
                self.wf(),
                start == self.send_buffer_index,
                i <= BUFFER_COUNT,
                i <= self.queued@,
            decreases BUFFER_COUNT - i,
        {
            // The slot `i` places after the next one to send, without a modulo.
            let index = if i >= BUFFER_COUNT - start {
                i - (BUFFER_COUNT - start)
            } else {
                start + i
            };
            assert(index == ring_slot(start as nat, i as nat, BUFFER_COUNT as nat));
            if self.send_buffers[index].is_none() {
                return Some(index);
            }
            i = i + 1;
        }
        None
    }

    /// The buffer to be sent next, if any.
    fn get_send_buffer(&self) -> (buffer: Option<&BufferRef<BUFFER_SIZE, BUFFER_COUNT>>)
        requires
            self.wf(),
            BUFFER_COUNT > 0,
        ensures
            buffer is Some <==> self.queue().len() > 0,
            buffer matches Some(b) ==> *b == self.queue()[0],
    {
        assert(ring_slot(self.send_buffer_index as nat, 0, BUFFER_COUNT as nat) == self.send_buffer_index);
        self.send_buffers[self.send_buffer_index].as_ref()
    }

    /// Drops the buffer to be sent next from the queue, giving it back to the
    /// pool, and moves on to the next slot of the ring.
    pub fn next_buffer(&mut self)
        requires
            old(self).wf(),
            BUFFER_COUNT > 0,
        ensures
            final(self).wf(),
            old(self).queue().len() == 0 ==> {
                &&& final(self).queue() == old(self).queue()
                &&& final(self).pool() == old(self).pool()
            },
            old(self).queue().len() > 0 ==> {
                &&& final(self).queue() == old(self).queue().drop_first()
                &&& final(self).pool() == given_back(
                    old(self).pool(),
                    old(self).queue()[0].index(),
                    old(self).queue()[0]@,
                )
            },
    {
        let index = self.send_buffer_index;
        assert(ring_slot(index as nat, 0, BUFFER_COUNT as nat) == index);
        let mut taken: Option<BufferRef<BUFFER_SIZE, BUFFER_COUNT>> = None;
        std::mem::swap(&mut taken, &mut self.send_buffers[index]);
        match taken {
            Some(buffer) => {
                self.buffer_pool.return_buffer(buffer);
            },
            None => {},
        }
        self.send_buffer_index = if index + 1 >= BUFFER_COUNT {
            0
        } else {
            index + 1
        };
        proof {
            let old_queued = old(self).queued@;
            self.queued = Ghost(if old_queued > 0 { (old_queued - 1) as nat } else { 0 });
            let next = self.send_buffer_index as nat;
            assert forall|k: nat| k < BUFFER_COUNT implies (#[trigger] self.send_buffers@[ring_slot(
                next,
                k,
                BUFFER_COUNT as nat,
            ) as int] is Some <==> k < self.queued@) by {
                if k + 1 < BUFFER_COUNT {
                    assert(ring_slot(next, k, BUFFER_COUNT as nat) == ring_slot(
                        index as nat,
                        k + 1,
                        BUFFER_COUNT as nat,
                    ));
                    assert(old(self).send_buffers@[ring_slot(index as nat, k + 1, BUFFER_COUNT as nat) as int] is Some
                        <==> k + 1 < old_queued);
                } else {
                    assert(ring_slot(next, k, BUFFER_COUNT as nat) == index);
                }
            }
            if old_queued > 0 {
                assert forall|k: int| 0 <= k < self.queued@ implies #[trigger] self.queue()[k]
                    == old(self).queue().drop_first()[k] by {
                    assert(ring_slot(next, k as nat, BUFFER_COUNT as nat) == ring_slot(
                        index as nat,
                        (k + 1) as nat,
                        BUFFER_COUNT as nat,
                    ));
                }
                assert(self.queue() =~= old(self).queue().drop_first());
            } else {
                assert(self.queue() =~= old(self).queue());
            }
        }
    }

    /// Lends out the first buffer that is in the pool, if any.
    pub fn allocate_send_buffer(&mut self) -> (buffer: Option<BufferRef<BUFFER_SIZE, BUFFER_COUNT>>)
        requires
            old(self).wf(),
        ensures
            final(self).wf(),
            final(self).queue() == old(self).queue(),
            buffer is None <==> first_free(old(self).pool()) is None,
            buffer is None ==> final(self).pool() == old(self).pool(),
            buffer matches Some(b) ==> {
                &&& first_free(old(self).pool()) == Some(b.index())
                &&& old(self).pool()[b.index() as int] == Some(b@)
                &&& final(self).pool() == old(self).pool().update(b.index() as int, None)
            },
    {
        self.buffer_pool.get_buffer()
    }

    /// Gives a lent buffer back to the pool without sending it.
    pub fn return_buffer(&mut self, buffer: BufferRef<BUFFER_SIZE, BUFFER_COUNT>)
        requires
            old(self).wf(),
        ensures
            final(self).wf(),
            final(self).queue() == old(self).queue(),
            final(self).pool() == given_back(old(self).pool(), buffer.index(), buffer@),
    {
        self.buffer_pool.return_buffer(buffer);
    }

    /// Queues `buffer` for sending after the buffers already queued; when the
    /// queue is full the buffer is handed back in `Err`.
    pub fn register_buffer_to_send(&mut self, buffer: BufferRef<BUFFER_SIZE, BUFFER_COUNT>) -> (result: Result<(), BufferRef<BUFFER_SIZE, BUFFER_COUNT>>)
        requires
            old(self).wf(),
        ensures
            final(self).wf(),
            final(self).pool() == old(self).pool(),
            result is Ok <==> old(self).queue().len() < BUFFER_COUNT,
            result is Ok ==> final(self).queue() == old(self).queue().push(buffer),
            result matches Err(b) ==> b == buffer && final(self).queue() == old(self).queue(),
    {
        match self.find_next_send_buffer_index() {
            Some(send_buffer_index) => {
                let ghost start = self.send_buffer_index as nat;
                let ghost old_queued = self.queued@;
                self.send_buffers.set(send_buffer_index, Some(buffer));
                proof {
                    self.queued = Ghost(old_queued + 1);
                    assert forall|k: nat| k < BUFFER_COUNT implies (#[trigger] self.send_buffers@[ring_slot(
                        start,
                        k,
                        BUFFER_COUNT as nat,
                    ) as int] is Some <==> k < self.queued@) by {
                        if k != old_queued {
                            assert(ring_slot(start, k, BUFFER_COUNT as nat) != ring_slot(
                                start,
                                old_queued,
                                BUFFER_COUNT as nat,
                            ));
                        }
                    }
                    assert forall|k: int| 0 <= k < old_queued implies #[trigger] self.queue()[k]
                        == old(self).queue()[k] by {
                        assert(ring_slot(start, k as nat, BUFFER_COUNT as nat) != ring_slot(
                            start,
                            old_queued,
                            BUFFER_COUNT as nat,
                        ));
                    }
                    assert(self.queue() =~= old(self).queue().push(buffer));
                }
                Ok(())
            },
            None => Err(buffer),
        }
    }

    /// Whether a buffer is waiting to be sent.
    pub fn has_data_to_send(&self) -> (result: bool)
        requires
            self.wf(),
            BUFFER_COUNT > 0,
        ensures
            result == (self.queue().len() > 0),
    {
        assert(ring_slot(self.send_buffer_index as nat, 0, BUFFER_COUNT as nat) == self.send_buffer_index);
        self.send_buffers[self.send_buffer_index].is_some()
    }
}

// ---------------------------------------------------------------------------
// The service
// ---------------------------------------------------------------------------

/// Why a service step failed.
#[derive(Debug)]
pub enum ServiceError<WriterError> {
    NoBuffer,
    Protocol(ProtocolReaderError<()>),
    Writer(WriterError),
}

/// The result of taking in data, given what the reader reported.
pub open spec fn received_result(read: Result<bool, ProtocolReaderError<()>>) -> Result<
    (),
    ServiceError<()>,
> {
    match read {
        Ok(_) => Ok(()),
        Err(e) => Err(ServiceError::Protocol(e)),
    }
}

/// Receives frames into pool buffers and sends queued buffers.
///
/// One round of the service: data that came in is handed to
/// `put_received_data`; a frame that is then complete is taken with
/// `take_received_packet` and, once the caller has decided, handed to
/// `finish_received_packet` to be forwarded or given back; the bytes of the
/// buffer at the head of the send queue are `data_to_send`, and what the sink
/// took of them is reported with `data_sent`.
pub struct Service<const BUFFER_SIZE: usize, const BUFFER_COUNT: usize> {
    buffer_manager: BufferManager<BUFFER_SIZE, BUFFER_COUNT>,
    reader: Option<ProtocolReader<BUFFER_SIZE, BufferRef<BUFFER_SIZE, BUFFER_COUNT>>>,
    bytes_sent: usize,
}

impl<const BUFFER_SIZE: usize, const BUFFER_COUNT: usize> Service<BUFFER_SIZE, BUFFER_COUNT> {
    /// The state of the frame being received, if a buffer is taken for it.
    pub closed spec fn reader(&self) -> Option<ReaderView> {
        match self.reader {
            Some(reader) => Some(reader@),
            None => None,
        }
    }

    /// The buffer the frame is being received in.
    pub closed spec fn reader_buffer(&self) -> BufferRef<BUFFER_SIZE, BUFFER_COUNT> {
        self.reader->0.buffer()
    }

    /// The state that received data goes into: the frame in progress, or a
    /// fresh one in the first buffer in the pool.
    pub open spec fn receiving_state(&self) -> ReaderView {
        match self.reader() {
            Some(r) => r,
            None => ReaderView {
                state: ReaderState::Header,
                position: 0,
                bytes: self.manager().pool()[first_free(self.manager().pool())->0 as int]->0,
            },
        }
    }

    /// The pool once a buffer is taken for the frame in progress, if none is.
    pub open spec fn pool_after_taking_reader_buffer(&self) -> Seq<Option<Seq<u8>>> {
        match self.reader() {
            Some(_) => self.manager().pool(),
            None => self.manager().pool().update(first_free(self.manager().pool())->0 as int, None),
        }
    }

    /// The buffers and the send queue.
    pub closed spec fn manager(&self) -> BufferManager<BUFFER_SIZE, BUFFER_COUNT> {
        self.buffer_manager
    }

    /// How many bytes of the buffer at the head of the queue are sent.
    pub closed spec fn bytes_sent(&self) -> nat {
        self.bytes_sent as nat
    }

    /// The manager is well formed, the reader keeps its invariant in a buffer
    /// of `BUFFER_SIZE` bytes, and the head of the queue is partly sent.
    pub closed spec fn wf(&self) -> bool {
        &&& self.buffer_manager.wf()
        &&& self.reader matches Some(reader) ==> {
            &&& reader_inv(reader@, BUFFER_SIZE as nat)
            &&& reader@.bytes.len() == BUFFER_SIZE
        }
        &&& self.buffer_manager.queue().len() == 0 ==> self.bytes_sent == 0
        &&& self.buffer_manager.queue().len() > 0 ==> self.bytes_sent < frame_end(
            self.buffer_manager.queue()[0]@,
        )
    }

    /// A service with no frame in progress and nothing to send.
    pub fn new(buffer_pool: BufferPool<BUFFER_SIZE, BUFFER_COUNT>) -> (service: Self)
        requires
            buffer_pool@.len() == BUFFER_COUNT,
        ensures
            service.wf(),
            service.reader() is None,
            service.manager().queue().len() == 0,
            service.manager().pool() == buffer_pool@,
            service.bytes_sent() == 0,
    {
        Service { buffer_manager: BufferManager::new(buffer_pool), reader: None, bytes_sent: 0 }
    }

    /// Makes sure a buffer is taken from the pool for the frame being received.
    fn ensure_reader(&mut self) -> (result: Result<(), ServiceError<()>>)
        requires
            old(self).wf(),
        ensures
            final(self).wf(),
            final(self).manager().queue() == old(self).manager().queue(),
            final(self).bytes_sent() == old(self).bytes_sent(),
            old(self).reader() is Some ==> {
                &&& result is Ok
                &&& final(self).reader() == old(self).reader()
                &&& final(self).reader_buffer() == old(self).reader_buffer()
                &&& final(self).manager().pool() == old(self).manager().pool()
            },
            old(self).reader() is None ==> match first_free(old(self).manager().pool()) {
                None => {
                    &&& result matches Err(ServiceError::NoBuffer)
                    &&& final(self).reader() is None
                    &&& final(self).manager().pool() == old(self).manager().pool()
                },
                Some(i) => {
                    &&& result is Ok
                    &&& final(self).reader() == Some(
                        ReaderView {
                            state: ReaderState::Header,
                            position: 0,
                            bytes: old(self).manager().pool()[i as int]->0,
                        },
                    )
                    &&& final(self).manager().pool() == old(self).manager().pool().update(
                        i as int,
                        None,
                    )
                },
            },
    {
        if self.reader.is_none() {
            match self.buffer_manager.allocate_send_buffer() {
                Some(buffer) => {
                    proof {
                        buffer.lemma_len();
                    }
                    self.reader = Some(ProtocolReader::new_with_buffer(buffer));
                },
                None => {
                    return Err(ServiceError::NoBuffer);
                },
            }
        }
        Ok(())
    }

    /// Whether received data can be fed in (see `can_read`).
    pub fn is_ready_to_receive(&self) -> (ready: bool)
        requires
            self.wf(),
            BUFFER_SIZE >= 2,
        ensures
            ready == (self.reader() matches Some(r) ==> can_read(r, BUFFER_SIZE as nat)),
    {
        match &self.reader {
            Some(reader) => reader.is_ready(),
            None => true,
        }
    }

    /// Whether the frame at the head of the send queue fits its buffer.
    pub fn can_send(&self) -> (fits: bool)
        requires
            self.wf(),
            BUFFER_COUNT > 0,
            BUFFER_SIZE >= 3,
        ensures
            fits == (self.manager().queue().len() > 0 ==> frame_end(self.manager().queue()[0]@)
                <= BUFFER_SIZE),
    {
        match self.buffer_manager.get_send_buffer() {
            Some(buffer) => {
                proof {
                    buffer.lemma_len();
                }
                PacketReader::new(buffer.as_bytes()).message_length() + 2 <= BUFFER_SIZE
            },
            None => true,
        }
    }

    /// Feeds received bytes to the frame being received, taking a buffer
    /// from the pool for it first when there is none.
    pub fn put_received_data(&mut self, data: &[u8]) -> (result: Result<(), ServiceError<()>>)
        requires
            old(self).wf(),
            BUFFER_SIZE >= 2,
            old(self).reader() matches Some(r) ==> can_read(r, BUFFER_SIZE as nat),
        ensures
            final(self).wf(),
            final(self).manager().queue() == old(self).manager().queue(),
            final(self).bytes_sent() == old(self).bytes_sent(),
            old(self).reader() is None && first_free(old(self).manager().pool()) is None ==> {
                &&& result matches Err(ServiceError::NoBuffer)
                &&& final(self).reader() is None
                &&& final(self).manager().pool() == old(self).manager().pool()
            },
            old(self).reader() is Some || first_free(old(self).manager().pool()) is Some ==> {
                &&& final(self).reader() == Some(
                    slice_read(old(self).receiving_state(), BUFFER_SIZE as nat, data@).0,
                )
                &&& result == received_result(
                    slice_read(old(self).receiving_state(), BUFFER_SIZE as nat, data@).2,
                )
                &&& final(self).manager().pool() == old(self).pool_after_taking_reader_buffer()
            },
    {
        proof {
            lemma_first_free_in_pool(old(self).manager().pool());
        }
        self.ensure_reader()?;
        let ghost started = self.reader()->0;
        let mut reader = self.reader.take().unwrap();
        let mut stream: &[u8] = data;
        let read = reader.read(&mut stream);
        let ghost read_view = read;
        self.reader = Some(reader);
        proof {
            let start = old(self).receiving_state();
            assert(started == start);
            lemma_slice_read(start, BUFFER_SIZE as nat, self.reader()->0, data, stream, read_view);
        }
        let result = match read {
            Ok(_) => Ok(()),
            Err(e) => Err(ServiceError::Protocol(e)),
        };
        proof {
            assert(result == received_result(read_view));
        }
        result
    }

    /// The complete frame that was received, with the length of the frame; the
    /// buffer it is in leaves the reader with it.
    pub fn take_received_packet(&mut self) -> (packet: Option<(BufferRef<BUFFER_SIZE, BUFFER_COUNT>, usize)>)
        requires
            old(self).wf(),
        ensures
            final(self).wf(),
            final(self).manager() == old(self).manager(),
            final(self).bytes_sent() == old(self).bytes_sent(),
            packet is Some <==> (old(self).reader() matches Some(r) && r.state is Completed),
            packet is None ==> final(self).reader() == old(self).reader(),
            packet matches Some((buffer, length)) ==> {
                &&& final(self).reader() is None
                &&& buffer == old(self).reader_buffer()
                &&& buffer@ == old(self).reader()->0.bytes
                &&& length == old(self).reader()->0.position
                &&& length == frame_end(buffer@)
                &&& length <= BUFFER_SIZE
            },
    {
        let completed = match &self.reader {
            Some(reader) => reader.is_completed(),
            None => false,
        };
        if completed {
            let reader = self.reader.take().unwrap();
            let length = reader.position();
            let buffer = reader.release();
            Some((buffer, length))
        } else {
            None
        }
    }

    /// Forwards a received frame's buffer (queues it for sending) or gives it
    /// back to the pool; a buffer that finds the queue full goes back too.
    pub fn finish_received_packet(&mut self, buffer: BufferRef<BUFFER_SIZE, BUFFER_COUNT>, forward: bool)
        requires
            old(self).wf(),
        ensures
            final(self).wf(),
            final(self).reader() == old(self).reader(),
            final(self).bytes_sent() == old(self).bytes_sent(),
            forward && old(self).manager().queue().len() < BUFFER_COUNT ==> {
                &&& final(self).manager().queue() == old(self).manager().queue().push(buffer)
                &&& final(self).manager().pool() == old(self).manager().pool()
            },
            !(forward && old(self).manager().queue().len() < BUFFER_COUNT) ==> {
                &&& final(self).manager().queue() == old(self).manager().queue()
                &&& final(self).manager().pool() == given_back(
                    old(self).manager().pool(),
                    buffer.index(),
                    buffer@,
                )
            },
    {
        if forward {
            match self.buffer_manager.register_buffer_to_send(buffer) {
                Ok(()) => {},
                Err(buffer) => {
                    self.buffer_manager.return_buffer(buffer);
                },
            }
        } else {
            self.buffer_manager.return_buffer(buffer);
        }
    }

    /// The bytes of the buffer at the head of the queue that are still to be
    /// sent, up to the end of the frame it holds.
    pub fn data_to_send(&self) -> (data: Option<&[u8]>)
        requires
            self.wf(),
            BUFFER_COUNT > 0,
            BUFFER_SIZE >= 3,
            self.manager().queue().len() > 0 ==> frame_end(self.manager().queue()[0]@)
                <= BUFFER_SIZE,
        ensures
            data is Some <==> self.manager().queue().len() > 0,
            data matches Some(d) ==> d@ == self.manager().queue()[0]@.subrange(
                self.bytes_sent() as int,
                frame_end(self.manager().queue()[0]@) as int,
            ),
    {
        match self.buffer_manager.get_send_buffer() {
            Some(buffer) => {
                proof {
                    buffer.lemma_len();
                }
                let bytes = buffer.as_bytes();
                let bytes_to_send = PacketReader::new(bytes).message_length() + 2;
                Some(&bytes[self.bytes_sent..bytes_to_send])
            },
            None => None,
        }
    }

    /// Records that the sink took `sent` more bytes of the head of the queue;
    /// once its whole frame is sent, the buffer goes back to the pool.
    pub fn data_sent(&mut self, sent: usize)
        requires
            old(self).wf(),
            BUFFER_COUNT > 0,
            BUFFER_SIZE >= 3,
            old(self).manager().queue().len() > 0,
            old(self).bytes_sent() + sent <= frame_end(old(self).manager().queue()[0]@),
        ensures
            final(self).wf(),
            final(self).reader() == old(self).reader(),
            old(self).bytes_sent() + sent < frame_end(old(self).manager().queue()[0]@) ==> {
                &&& final(self).bytes_sent() == old(self).bytes_sent() + sent
                &&& final(self).manager() == old(self).manager()
            },
            old(self).bytes_sent() + sent == frame_end(old(self).manager().queue()[0]@) ==> {
                &&& final(self).bytes_sent() == 0
                &&& final(self).manager().queue() == old(self).manager().queue().drop_first()
                &&& final(self).manager().pool() == given_back(
                    old(self).manager().pool(),
                    old(self).manager().queue()[0].index(),
                    old(self).manager().queue()[0]@,
                )
            },
    {
        let bytes_to_send = match self.buffer_manager.get_send_buffer() {
            Some(buffer) => {
                proof {
                    buffer.lemma_len();
                }
                PacketReader::new(buffer.as_bytes()).message_length() + 2
            },
            None => 0,
        };
        self.bytes_sent = self.bytes_sent + sent;
        if self.bytes_sent == bytes_to_send {
            self.buffer_manager.next_buffer();
            self.bytes_sent = 0;
        }
    }

    /// Whether a buffer is waiting to be sent.
    pub fn has_data_to_send(&self) -> (result: bool)
        requires
            self.wf(),
            BUFFER_COUNT > 0,
        ensures
            result == (self.manager().queue().len() > 0),
    {
        self.buffer_manager.has_data_to_send()
    }

    /// The buffer manager, for a caller that fills and queues buffers of its own.
    /// The service stays well formed when the caller leaves the manager well
    /// formed and only adds to the send queue.
    pub fn buffer_manager_mut(&mut self) -> (manager: &mut BufferManager<BUFFER_SIZE, BUFFER_COUNT>)
        ensures
            *manager == old(self).manager(),
            old(self).wf() ==> manager.wf(),
            final(self).manager() == *final(manager),
            final(self).reader() == old(self).reader(),
            final(self).bytes_sent() == old(self).bytes_sent(),
            old(self).wf() && final(manager).wf() && old(self).manager().queue().is_prefix_of(
                final(manager).queue(),
            ) ==> final(self).wf(),
    {
        &mut self.buffer_manager
    }
}

// ---------------------------------------------------------------------------
// Laws
// ---------------------------------------------------------------------------

/// Lending a buffer and giving it back unchanged leaves the pool as it was;
/// with new contents, the slot holds the new contents.
pub proof fn lemma_lend_and_give_back(slots: Seq<Option<Seq<u8>>>, i: nat, bytes: Seq<u8>)
    requires
        i < slots.len(),
        slots[i as int] is Some,
    ensures
        given_back(slots.update(i as int, None), i, bytes) == slots.update(i as int, Some(bytes)),
        given_back(slots.update(i as int, None), i, slots[i as int]->0) == slots,
{
    assert(slots.update(i as int, None).update(i as int, Some(slots[i as int]->0)) =~= slots);
    assert(slots.update(i as int, None).update(i as int, Some(bytes)) =~= slots.update(
        i as int,
        Some(bytes),
    ));
}

/// The pool lends its first free slot; a slot given back before it, or the
/// same slot, is lent out next.
pub proof fn lemma_given_back_lent_next(slots: Seq<Option<Seq<u8>>>, i: nat, bytes: Seq<u8>)
    requires
        i < slots.len(),
        slots[i as int] is None,
        forall|j: int| 0 <= j < i ==> slots[j] is None,
    ensures
        first_free(given_back(slots, i, bytes)) == Some(i),
        given_back(slots, i, bytes)[i as int] == Some(bytes),
{
    let after = given_back(slots, i, bytes);
    lemma_none_free_below(after, i);
    assert(first_free_in(after, i + 1) == Some(i));
    lemma_first_free_in(after, i + 1, slots.len());
}

/// The pool lends only a buffer that is in it: a slot that is lent out is not
/// lent again until it is given back, so no two buffers out at once share an
/// index.
pub proof fn lemma_lent_slot_not_lent_again(slots: Seq<Option<Seq<u8>>>, j: nat)
    requires
        j < slots.len(),
        slots[j as int] is None,
    ensures
        first_free(slots) != Some(j),
{
    lemma_first_free_in(slots, slots.len(), slots.len());
}

/// Registering a buffer does not change which buffer is sent next, and the
/// new buffer is sent after every buffer registered before it: buffers leave
/// the queue in the order in which they were registered.
pub proof fn lemma_send_order<T>(queue: Seq<T>, registered: T)
    ensures
        queue.len() > 0 ==> queue.push(registered)[0] == queue[0],
        queue.len() > 0 ==> queue.push(registered).drop_first() == queue.drop_first().push(
            registered,
        ),
        queue.len() == 0 ==> queue.push(registered)[0] == registered,
        queue.push(registered).last() == registered,
{
    if queue.len() > 0 {
        assert(queue.push(registered).drop_first() =~= queue.drop_first().push(registered));
    }
}

/// A received frame that is forwarded is sent byte for byte: the bytes that
/// are sent of its buffer, up to the end that its header announces, are the
/// frame that was received, and they fit the buffer.
pub proof fn lemma_forwarded_frame_sent_whole(v: ReaderView, capacity: nat)
    requires
        reader_inv(v, capacity),
        v.state is Completed,
    ensures
        v.bytes.subrange(0, frame_end(v.bytes) as int) == v.bytes.subrange(0, v.position as int),
        frame_end(v.bytes) <= capacity,
{
}

impl<const BUFFER_SIZE: usize, const BUFFER_COUNT: usize> Service<BUFFER_SIZE, BUFFER_COUNT> {
    /// Sending starts at the first byte of each queued frame and never passes
    /// its end; nothing is half sent while the queue is empty.
    pub proof fn lemma_send_progress(&self)
        requires
            self.wf(),
        ensures
            self.manager().queue().len() == 0 ==> self.bytes_sent() == 0,
            self.manager().queue().len() > 0 ==> self.bytes_sent() < frame_end(
                self.manager().queue()[0]@,
            ),
    {
    }

    /// The frame being received holds the reader's invariant in a buffer of
    /// `BUFFER_SIZE` bytes.
    pub proof fn lemma_receiving(&self)
        requires
            self.wf(),
        ensures
            self.reader() matches Some(r) ==> reader_inv(r, BUFFER_SIZE as nat) && r.bytes.len()
                == BUFFER_SIZE,
            self.manager().wf(),
    {
    }
}

} // verus!
