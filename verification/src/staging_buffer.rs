//! The staging buffer: a fixed-capacity byte ring with one producer and one
//! consumer, and the mathematical model its contracts are stated over.

use vstd::prelude::*;

verus! {

/// Capacity in bytes of a buffer made by [`StagingBuffer::new`].
pub const STAGING_BUFFER_MAX_SIZE: usize = 1048576;

/// Why a reservation did not hand out an offset.
#[derive(Debug, Clone, Copy, PartialEq, Eq, Structural)]
pub enum ReserveError {
    /// The request is larger than the whole buffer and can never succeed.
    OverCapacityRequest,
    /// Not enough contiguous free space right now; the consumer has to
    /// advance before the same request can succeed.
    Stalled,
}

/// One operation of the producer or of the consumer on a buffer.
pub enum RingOp {
    /// A reservation attempt for so many bytes.
    Reserve(nat),
    /// A copy of bytes into storage at an offset.
    Write(nat, Seq<u8>),
    /// The publication of so many reserved bytes.
    Finish(nat),
    /// A look for readable bytes.
    Peek,
    /// The release of so many readable bytes.
    Consume(nat),
}

/// Mathematical model of a staging buffer.
pub struct RingModel {
    pub storage: Seq<u8>,
    pub producer_pos: nat,
    pub consumer_pos: nat,
    pub end_of_recorded_space: nat,
    pub min_free_space: nat,
    pub id: u64,
}

impl RingModel {
    pub open spec fn capacity(self) -> nat {
        self.storage.len()
    }

    /// The producer has started a new lap while the consumer is still in the
    /// previous one.
    pub open spec fn wrapped(self) -> bool {
        self.producer_pos < self.consumer_pos
    }

    pub open spec fn wf(self) -> bool {
        &&& self.producer_pos <= self.capacity()
        &&& self.consumer_pos <= self.capacity()
        &&& self.end_of_recorded_space <= self.capacity()
        &&& if self.wrapped() {
            &&& self.consumer_pos <= self.end_of_recorded_space
            &&& self.producer_pos + self.min_free_space <= self.consumer_pos
        } else {
            self.producer_pos + self.min_free_space <= self.capacity()
        }
    }

    /// The state of a freshly made buffer of `capacity` zero bytes.
    pub open spec fn fresh(id: u64, capacity: nat) -> RingModel {
        RingModel {
            storage: Seq::new(capacity, |i: int| 0u8),
            producer_pos: 0,
            consumer_pos: 0,
            end_of_recorded_space: capacity,
            min_free_space: 0,
            id,
        }
    }

    /// The committed bytes that have not been consumed yet, oldest first:
    /// what is left of the old lap, then the new lap.
    pub open spec fn pending(self) -> Seq<u8> {
        if self.wrapped() {
            self.storage.subrange(self.consumer_pos as int, self.end_of_recorded_space as int)
                + self.storage.subrange(0, self.producer_pos as int)
        } else {
            self.storage.subrange(self.consumer_pos as int, self.producer_pos as int)
        }
    }

    /// Number of committed bytes that lie contiguously at `consumer_pos`.
    pub open spec fn readable_len(self) -> nat {
        if self.wrapped() {
            (self.end_of_recorded_space - self.consumer_pos) as nat
        } else {
            (self.producer_pos - self.consumer_pos) as nat
        }
    }

    /// The free-space estimate recomputed against the consumer's position,
    /// wrapping to a new lap where the tail of this one is too short.
    pub open spec fn refreshed(self, n_bytes: nat) -> RingModel {
        if self.consumer_pos <= self.producer_pos {
            let tail = (self.capacity() - self.producer_pos) as nat;
            if tail > n_bytes {
                RingModel { min_free_space: tail, ..self }
            } else if self.consumer_pos != 0 {
                RingModel {
                    end_of_recorded_space: self.producer_pos,
                    producer_pos: 0,
                    min_free_space: self.consumer_pos,
                    ..self
                }
            } else {
                RingModel {
                    end_of_recorded_space: self.producer_pos,
                    min_free_space: tail,
                    ..self
                }
            }
        } else {
            RingModel {
                min_free_space: (self.consumer_pos - self.producer_pos) as nat,
                ..self
            }
        }
    }

    /// State after one reservation attempt for `n_bytes`: unchanged where
    /// the request is empty, is rejected, or fits the cached estimate.
    pub open spec fn after_reserve(self, n_bytes: nat) -> RingModel {
        if n_bytes == 0 || n_bytes > self.capacity() || n_bytes < self.min_free_space {
            self
        } else {
            self.refreshed(n_bytes)
        }
    }

    /// A reservation of `n_bytes` at `producer_pos` is in hand: the free
    /// space is never used up to its last byte, and an empty reservation
    /// needs none.
    pub open spec fn reserved(self, n_bytes: nat) -> bool {
        n_bytes == 0 || n_bytes < self.min_free_space
    }

    /// `[pos, pos + len)` lies inside the space a reservation can hand out.
    pub open spec fn in_free_space(self, pos: nat, len: nat) -> bool {
        self.producer_pos <= pos && pos + len <= self.producer_pos + self.min_free_space
    }

    /// State after `data` was copied into storage at `pos`.
    pub open spec fn after_write(self, pos: nat, data: Seq<u8>) -> RingModel {
        RingModel {
            storage: Seq::new(
                self.storage.len(),
                |i: int|
                    if pos <= i < pos + data.len() {
                        data[i - pos]
                    } else {
                        self.storage[i]
                    },
            ),
            ..self
        }
    }

    /// State after the producer published `n_bytes`.
    pub open spec fn after_finish(self, n_bytes: nat) -> RingModel {
        RingModel {
            min_free_space: (self.min_free_space - n_bytes) as nat,
            producer_pos: self.producer_pos + n_bytes,
            ..self
        }
    }

    /// State after the consumer looked for readable bytes: an exhausted old
    /// lap sends the consumer back to offset 0.
    pub open spec fn after_peek(self) -> RingModel {
        if self.wrapped() && self.end_of_recorded_space <= self.consumer_pos {
            RingModel { consumer_pos: 0, ..self }
        } else {
            self
        }
    }

    /// Offset `i` holds a committed byte that the consumer has not released.
    pub open spec fn unconsumed_at(self, i: int) -> bool {
        if self.wrapped() {
            self.consumer_pos <= i < self.end_of_recorded_space || 0 <= i < self.producer_pos
        } else {
            self.consumer_pos <= i < self.producer_pos
        }
    }

    /// Offset `i` lies in the space that a reservation can hand out.
    pub open spec fn free_at(self, i: int) -> bool {
        self.producer_pos <= i < self.producer_pos + self.min_free_space
    }

    /// The protocol lets `op` happen in this state.
    pub open spec fn admits(self, op: RingOp) -> bool {
        match op {
            RingOp::Reserve(_) => true,
            RingOp::Write(pos, data) => self.in_free_space(pos, data.len()),
            RingOp::Finish(n) => self.reserved(n),
            RingOp::Peek => true,
            RingOp::Consume(n) => n <= self.readable_len(),
        }
    }

    /// State after `op`.
    pub open spec fn step(self, op: RingOp) -> RingModel {
        match op {
            RingOp::Reserve(n) => self.after_reserve(n),
            RingOp::Write(pos, data) => self.after_write(pos, data),
            RingOp::Finish(n) => self.after_finish(n),
            RingOp::Peek => self.after_peek(),
            RingOp::Consume(n) => self.after_consume(n),
        }
    }

    /// The bytes that `op` publishes: those of the reserved space that a
    /// finish commits.
    pub open spec fn emitted_by(self, op: RingOp) -> Seq<u8> {
        match op {
            RingOp::Finish(n) => self.storage.subrange(
                self.producer_pos as int,
                (self.producer_pos + n) as int,
            ),
            _ => Seq::empty(),
        }
    }

    /// The bytes that `op` hands to the sink: those that the consumer read at
    /// its position before it released them.
    pub open spec fn delivered_by(self, op: RingOp) -> Seq<u8> {
        match op {
            RingOp::Consume(n) => self.storage.subrange(
                self.consumer_pos as int,
                (self.consumer_pos + n) as int,
            ),
            _ => Seq::empty(),
        }
    }

    /// Every operation of `ops` is admitted in the state it meets.
    pub open spec fn admits_all(self, ops: Seq<RingOp>) -> bool
        decreases ops.len(),
    {
        ops.len() > 0 ==> self.admits(ops[0]) && self.step(ops[0]).admits_all(ops.drop_first())
    }

    /// State after all of `ops`, in order.
    pub open spec fn run(self, ops: Seq<RingOp>) -> RingModel
        decreases ops.len(),
    {
        if ops.len() == 0 {
            self
        } else {
            self.step(ops[0]).run(ops.drop_first())
        }
    }

    /// All bytes published in the course of `ops`, in order.
    pub open spec fn emitted(self, ops: Seq<RingOp>) -> Seq<u8>
        decreases ops.len(),
    {
        if ops.len() == 0 {
            Seq::empty()
        } else {
            self.emitted_by(ops[0]) + self.step(ops[0]).emitted(ops.drop_first())
        }
    }

    /// All bytes handed to the sink in the course of `ops`, in order.
    pub open spec fn delivered(self, ops: Seq<RingOp>) -> Seq<u8>
        decreases ops.len(),
    {
        if ops.len() == 0 {
            Seq::empty()
        } else {
            self.delivered_by(ops[0]) + self.step(ops[0]).delivered(ops.drop_first())
        }
    }

    /// The run of bytes that the next drain hands to the sink.
    pub open spec fn next_run(self) -> Seq<u8> {
        self.pending().take(self.after_peek().readable_len() as int)
    }

    /// State after one drain: a peek, then a consume of all that it reported.
    pub open spec fn drained(self) -> RingModel {
        self.after_peek().after_consume(self.after_peek().readable_len())
    }

    /// State after the consumer released `n_bytes`.
    pub open spec fn after_consume(self, n_bytes: nat) -> RingModel {
        RingModel { consumer_pos: self.consumer_pos + n_bytes, ..self }
    }
}

/// A fixed-capacity byte ring bound to one producer and one consumer.
pub struct StagingBuffer {
    storage: Vec<u8>,
    consumer_pos: usize,
    producer_pos: usize,
    end_of_recorded_space: usize,
    min_free_space: usize,
    buffer_id: u64,
}

impl View for StagingBuffer {
    type V = RingModel;

    closed spec fn view(&self) -> RingModel {
        RingModel {
            storage: self.storage@,
            producer_pos: self.producer_pos as nat,
            consumer_pos: self.consumer_pos as nat,
            end_of_recorded_space: self.end_of_recorded_space as nat,
            min_free_space: self.min_free_space as nat,
            id: self.buffer_id,
        }
    }
}

impl StagingBuffer {
    pub open spec fn wf(&self) -> bool {
        self@.wf()
    }

    /// A buffer of [`STAGING_BUFFER_MAX_SIZE`] bytes for the producer `id`.
    pub fn new(id: u64) -> (r: StagingBuffer)
        ensures
            r.wf(),
            r@ == RingModel::fresh(id, STAGING_BUFFER_MAX_SIZE as nat),
    {
        StagingBuffer::with_capacity(id, STAGING_BUFFER_MAX_SIZE)
    }

    /// A buffer of `capacity` bytes for the producer `id`.
    pub fn with_capacity(id: u64, capacity: usize) -> (r: StagingBuffer)
        ensures
            r.wf(),
            r@ == RingModel::fresh(id, capacity as nat),
    {
        let r = StagingBuffer {
            storage: vec![0u8; capacity],
            consumer_pos: 0,
            producer_pos: 0,
            end_of_recorded_space: capacity,
            min_free_space: 0,
            buffer_id: id,
        };
        assert(r@.storage =~= RingModel::fresh(id, capacity as nat).storage);
        r
    }

    /// Tries to reserve `n_bytes` of contiguous free space and returns the
    /// offset at which they start. Nothing is committed yet. The attempt looks
    /// at the consumer's position once: `Stalled` means that the consumer has
    /// to advance before the request can be met. An empty request is granted
    /// at the producer's position and changes nothing.
    pub fn reserve_producer_space(&mut self, n_bytes: usize) -> (r: Result<usize, ReserveError>)
        requires
            old(self).wf(),
        ensures
            final(self).wf(),
            final(self)@ == old(self)@.after_reserve(n_bytes as nat),
            final(self)@.pending() == old(self)@.pending(),
            match r {
                Ok(pos) => {
                    &&& n_bytes <= old(self)@.capacity()
                    &&& final(self)@.reserved(n_bytes as nat)
                    &&& pos == final(self)@.producer_pos
                    &&& final(self)@.in_free_space(pos as nat, n_bytes as nat)
                    &&& pos + n_bytes <= final(self)@.capacity()
                },
                Err(ReserveError::OverCapacityRequest) => n_bytes > old(self)@.capacity(),
                Err(ReserveError::Stalled) => {
                    &&& n_bytes <= old(self)@.capacity()
                    &&& !final(self)@.reserved(n_bytes as nat)
                },
            },
    {
        proof {
            lemma_reserve_keeps_pending(self@, n_bytes as nat);
        }
        if n_bytes > self.storage.len() {
            Err(ReserveError::OverCapacityRequest)
        } else if n_bytes == 0 || n_bytes < self.min_free_space {
            Ok(self.producer_pos)
        } else {
            self.reserve_space_internal(n_bytes)
        }
    }

    /// The slow path of a reservation: recomputes the free space against the
    /// consumer's position, and starts a new lap at offset 0 where the tail
    /// of the current one is too short and the consumer has left offset 0.
    fn reserve_space_internal(&mut self, n_bytes: usize) -> (r: Result<usize, ReserveError>)
        requires
            old(self).wf(),
            0 < n_bytes <= old(self)@.capacity(),
        ensures
            final(self).wf(),
            final(self)@ == old(self)@.refreshed(n_bytes as nat),
            match r {
                Ok(pos) => final(self)@.reserved(n_bytes as nat) && pos == final(self)@.producer_pos,
                Err(e) => e == ReserveError::Stalled && !final(self)@.reserved(n_bytes as nat),
            },
    {
        let cached_consumer_pos: usize = self.consumer_pos;
        if cached_consumer_pos <= self.producer_pos {
            self.min_free_space = self.storage.len() - self.producer_pos;
            if self.min_free_space <= n_bytes {
                self.end_of_recorded_space = self.producer_pos;
                if cached_consumer_pos != 0 {
                    self.producer_pos = 0;
                    self.min_free_space = cached_consumer_pos;
                }
            }
        } else {
            self.min_free_space = cached_consumer_pos - self.producer_pos;
        }
        if self.min_free_space > n_bytes {
            Ok(self.producer_pos)
        } else {
            Err(ReserveError::Stalled)
        }
    }

    /// Copies `data` into storage at `pos`, inside the space a reservation
    /// handed out. The bytes stay invisible to the consumer until
    /// [`StagingBuffer::finish_reservation`].
    pub fn write_storage(&mut self, pos: usize, data: &[u8])
        requires
            old(self).wf(),
            old(self)@.in_free_space(pos as nat, data@.len()),
        ensures
            final(self).wf(),
            final(self)@ == old(self)@.after_write(pos as nat, data@),
            final(self)@.pending() == old(self)@.pending(),
    {
        proof {
            lemma_write_keeps_pending(self@, pos as nat, data@);
        }
        let ghost before = self@;
        let mut i: usize = 0;
        while i < data.len()
            invariant
                i <= data.len(),
                pos + data.len() <= self.storage.len(),
                self.storage@.len() == before.storage.len(),
                self.producer_pos == before.producer_pos,
                self.consumer_pos == before.consumer_pos,
                self.end_of_recorded_space == before.end_of_recorded_space,
                self.min_free_space == before.min_free_space,
                self.buffer_id == before.id,
                forall|k: int|
                    0 <= k < self.storage@.len() ==> self.storage@[k] == if pos <= k < pos + i {
                        data@[k - pos]
                    } else {
                        before.storage[k]
                    },
            decreases data.len() - i,
        {
            self.storage.set(pos + i, data[i]);
            i = i + 1;
        }
        assert(self@.storage =~= before.after_write(pos as nat, data@).storage);
    }

    /// Commits the first `n_bytes` of the reserved space: the consumer can
    /// read them from now on.
    pub fn finish_reservation(&mut self, n_bytes: usize)
        requires
            old(self).wf(),
            old(self)@.reserved(n_bytes as nat),
        ensures
            final(self).wf(),
            final(self)@ == old(self)@.after_finish(n_bytes as nat),
            final(self)@.pending() == old(self)@.pending() + old(self)@.storage.subrange(
                old(self)@.producer_pos as int,
                (old(self)@.producer_pos + n_bytes) as int,
            ),
    {
        proof {
            lemma_finish_appends(self@, n_bytes as nat);
        }
        assert(self.producer_pos + n_bytes <= self.storage.len());
        self.min_free_space = self.min_free_space - n_bytes;
        self.producer_pos = self.producer_pos + n_bytes;
    }

    /// Returns offset and length of the next contiguous run of committed
    /// bytes; the length is 0 exactly when nothing is pending.
    pub fn peek(&mut self) -> (r: (usize, usize))
        requires
            old(self).wf(),
        ensures
            final(self).wf(),
            final(self)@ == old(self)@.after_peek(),
            final(self)@.pending() == old(self)@.pending(),
            r.0 == final(self)@.consumer_pos,
            r.1 == final(self)@.readable_len(),
            r.0 + r.1 <= final(self)@.capacity(),
            r.1 <= final(self)@.pending().len(),
            final(self)@.storage.subrange(r.0 as int, r.0 + r.1) == final(self)@.pending().take(
                r.1 as int,
            ),
            r.1 == 0 <==> final(self)@.pending().len() == 0,
    {
        proof {
            lemma_peek_reads_oldest(self@);
        }
        let cached_producer_pos: usize = self.producer_pos;
        if cached_producer_pos < self.consumer_pos {
            if self.end_of_recorded_space > self.consumer_pos {
                return (self.consumer_pos, self.end_of_recorded_space - self.consumer_pos);
            }
            self.consumer_pos = 0;
        }
        (self.consumer_pos, cached_producer_pos - self.consumer_pos)
    }

    /// Releases the first `n_bytes` of the run that [`StagingBuffer::peek`]
    /// reported: the producer may write there again.
    pub fn consume(&mut self, n_bytes: usize)
        requires
            old(self).wf(),
            n_bytes <= old(self)@.readable_len(),
        ensures
            final(self).wf(),
            final(self)@ == old(self)@.after_consume(n_bytes as nat),
            final(self)@.pending() == old(self)@.pending().skip(n_bytes as int),
    {
        proof {
            lemma_consume_drops_oldest(self@, n_bytes as nat);
        }
        self.consumer_pos = self.consumer_pos + n_bytes;
    }

    /// A copy of the `len` bytes of storage that start at `pos`.
    pub fn read_storage(&self, pos: usize, len: usize) -> (r: Vec<u8>)
        requires
            self.wf(),
            pos + len <= self@.capacity(),
        ensures
            r@ == self@.storage.subrange(pos as int, pos + len),
    {
        let mut out: Vec<u8> = Vec::new();
        let mut i: usize = 0;
        while i < len
            invariant
                i <= len,
                pos + len <= self.storage.len(),
                out@ == self.storage@.subrange(pos as int, pos + i),
            decreases len - i,
        {
            out.push(self.storage[pos + i]);
            i = i + 1;
            assert(self.storage@.subrange(pos as int, pos + i) =~= self.storage@.subrange(
                pos as int,
                pos + i - 1,
            ).push(self.storage@[pos + i - 1]));
        }
        assert(out@ =~= self@.storage.subrange(pos as int, pos + len));
        out
    }

    pub fn get_id(&self) -> (r: u64)
        ensures
            r == self@.id,
    {
        self.buffer_id
    }

    pub fn capacity(&self) -> (r: usize)
        ensures
            r == self@.capacity(),
    {
        self.storage.len()
    }

    pub fn producer_pos(&self) -> (r: usize)
        ensures
            r == self@.producer_pos,
    {
        self.producer_pos
    }

    pub fn consumer_pos(&self) -> (r: usize)
        ensures
            r == self@.consumer_pos,
    {
        self.consumer_pos
    }

    pub fn end_of_recorded_space(&self) -> (r: usize)
        ensures
            r == self@.end_of_recorded_space,
    {
        self.end_of_recorded_space
    }

    /// The cached lower bound on the contiguous free bytes at `producer_pos`.
    pub fn min_free_space(&self) -> (r: usize)
        ensures
            r == self@.min_free_space,
    {
        self.min_free_space
    }
}

/// A reservation attempt keeps the state well formed and never touches the
/// bytes that are committed and not yet consumed.
pub proof fn lemma_reserve_keeps_pending(m: RingModel, n_bytes: nat)
    requires
        m.wf(),
    ensures
        m.after_reserve(n_bytes).wf(),
        m.after_reserve(n_bytes).pending() == m.pending(),
        m.after_reserve(n_bytes).storage == m.storage,
{
    let a = m.after_reserve(n_bytes);
    assert(a.pending() =~= m.pending());
}

/// Mutual exclusion of space: whatever is written into the space that a
/// reservation can hand out leaves every pending byte as it was.
pub proof fn lemma_write_keeps_pending(m: RingModel, pos: nat, data: Seq<u8>)
    requires
        m.wf(),
        m.in_free_space(pos, data.len()),
    ensures
        m.after_write(pos, data).wf(),
        m.after_write(pos, data).pending() == m.pending(),
        m.after_write(pos, data).storage.subrange(pos as int, (pos + data.len()) as int) == data,
{
    let a = m.after_write(pos, data);
    assert(a.pending() =~= m.pending());
    assert(a.storage.subrange(pos as int, (pos + data.len()) as int) =~= data);
}

/// Publishing appends exactly the published bytes behind everything that
/// was pending before.
pub proof fn lemma_finish_appends(m: RingModel, n_bytes: nat)
    requires
        m.wf(),
        m.reserved(n_bytes),
    ensures
        m.after_finish(n_bytes).wf(),
        m.after_finish(n_bytes).pending() == m.pending() + m.storage.subrange(
            m.producer_pos as int,
            (m.producer_pos + n_bytes) as int,
        ),
{
    let a = m.after_finish(n_bytes);
    assert(a.pending() =~= m.pending() + m.storage.subrange(
        m.producer_pos as int,
        (m.producer_pos + n_bytes) as int,
    ));
}

/// A peek changes nothing that is pending, and the run it reports is the
/// oldest part of it.
pub proof fn lemma_peek_reads_oldest(m: RingModel)
    requires
        m.wf(),
    ensures
        m.after_peek().wf(),
        m.after_peek().pending() == m.pending(),
        m.after_peek().consumer_pos + m.after_peek().readable_len() <= m.capacity(),
        m.after_peek().readable_len() <= m.pending().len(),
        m.after_peek().storage.subrange(
            m.after_peek().consumer_pos as int,
            (m.after_peek().consumer_pos + m.after_peek().readable_len()) as int,
        ) == m.pending().take(m.after_peek().readable_len() as int),
        m.after_peek().readable_len() == 0 <==> m.pending().len() == 0,
{
    let a = m.after_peek();
    assert(a.pending() =~= m.pending());
    assert(a.storage.subrange(a.consumer_pos as int, (a.consumer_pos + a.readable_len()) as int)
        =~= m.pending().take(a.readable_len() as int));
}

/// Wraparound: while bytes of the old lap remain, a drain hands over exactly
/// those, up to the recorded end, and every byte of the new lap stays
/// pending behind them.
pub proof fn lemma_old_lap_drains_first(m: RingModel)
    requires
        m.wf(),
        m.wrapped(),
        m.consumer_pos < m.end_of_recorded_space,
    ensures
        m.after_peek() == m,
        m.next_run() == m.storage.subrange(
            m.consumer_pos as int,
            m.end_of_recorded_space as int,
        ),
        m.drained().pending() == m.storage.subrange(0, m.producer_pos as int),
        m.drained().producer_pos == m.producer_pos,
{
    lemma_drain_takes_oldest(m);
    assert(m.next_run() =~= m.storage.subrange(
        m.consumer_pos as int,
        m.end_of_recorded_space as int,
    ));
    assert(m.drained().pending() =~= m.storage.subrange(0, m.producer_pos as int));
}

/// A drain hands over the oldest pending bytes and leaves the rest pending,
/// in order: nothing is lost and nothing is handed over twice.
pub proof fn lemma_drain_takes_oldest(m: RingModel)
    requires
        m.wf(),
    ensures
        m.drained().wf(),
        m.next_run() + m.drained().pending() == m.pending(),
        m.next_run().len() == 0 <==> m.pending().len() == 0,
{
    lemma_peek_reads_oldest(m);
    lemma_consume_drops_oldest(m.after_peek(), m.after_peek().readable_len());
    assert(m.next_run() + m.drained().pending() =~= m.pending());
}

/// Mutual exclusion of space: no offset that a reservation can hand out
/// holds a byte that the consumer has not released, and none lies in the
/// run that a peek reports.
pub proof fn lemma_free_space_is_disjoint(m: RingModel, i: int)
    requires
        m.wf(),
        m.free_at(i),
    ensures
        !m.unconsumed_at(i),
        0 <= i < m.capacity(),
        !(m.after_peek().consumer_pos <= i < m.after_peek().consumer_pos
            + m.after_peek().readable_len()),
{
}

/// The same at every instant: whatever admitted operations a fresh buffer
/// has gone through, its free space holds no unreleased byte.
pub proof fn lemma_free_space_stays_disjoint(id: u64, capacity: nat, ops: Seq<RingOp>, i: int)
    requires
        RingModel::fresh(id, capacity).admits_all(ops),
        RingModel::fresh(id, capacity).run(ops).free_at(i),
    ensures
        !RingModel::fresh(id, capacity).run(ops).unconsumed_at(i),
{
    lemma_run_conserves(RingModel::fresh(id, capacity), ops);
    lemma_free_space_is_disjoint(RingModel::fresh(id, capacity).run(ops), i);
}

/// A reservation may be repeated: the same request, made again before
/// anything else happens, finds the state it left and gets the same answer.
pub proof fn lemma_reserve_is_idempotent(m: RingModel, n_bytes: nat)
    requires
        m.wf(),
    ensures
        m.after_reserve(n_bytes).after_reserve(n_bytes) == m.after_reserve(n_bytes),
{
}

/// A request for the whole capacity or more never gets space, in any state.
pub proof fn lemma_whole_capacity_never_fits(m: RingModel, n_bytes: nat)
    requires
        m.wf(),
        0 < n_bytes,
        n_bytes >= m.capacity(),
    ensures
        !m.after_reserve(n_bytes).reserved(n_bytes),
{
}

/// Once the consumer has caught up, a request below the capacity gets space
/// at once, or at the attempt after the consumer's next peek.
pub proof fn lemma_drained_buffer_admits(m: RingModel, n_bytes: nat)
    requires
        m.wf(),
        m.pending().len() == 0,
        0 < n_bytes < m.capacity(),
    ensures
        ({
            let first = m.after_peek().after_reserve(n_bytes);
            first.reserved(n_bytes) || first.after_peek().after_reserve(n_bytes).reserved(n_bytes)
        }),
{
}

/// Each admitted operation keeps the state well formed, and what was pending
/// plus what it publishes is what it hands over plus what is pending after.
pub proof fn lemma_step_conserves(m: RingModel, op: RingOp)
    requires
        m.wf(),
        m.admits(op),
    ensures
        m.step(op).wf(),
        m.pending() + m.emitted_by(op) == m.delivered_by(op) + m.step(op).pending(),
{
    match op {
        RingOp::Reserve(n) => {
            lemma_reserve_keeps_pending(m, n);
        },
        RingOp::Write(pos, data) => {
            lemma_write_keeps_pending(m, pos, data);
        },
        RingOp::Finish(n) => {
            lemma_finish_appends(m, n);
        },
        RingOp::Peek => {
            lemma_peek_reads_oldest(m);
        },
        RingOp::Consume(n) => {
            lemma_consume_drops_oldest(m, n);
        },
    }
    assert(m.pending() + m.emitted_by(op) =~= m.delivered_by(op) + m.step(op).pending());
}

/// First in, first out, nothing lost and nothing twice: over any admitted
/// sequence of operations, the bytes pending at the start followed by the
/// bytes published are the bytes handed to the sink followed by the bytes
/// still pending, in this order. A wraparound changes nothing of it.
pub proof fn lemma_run_conserves(m: RingModel, ops: Seq<RingOp>)
    requires
        m.wf(),
        m.admits_all(ops),
    ensures
        m.run(ops).wf(),
        m.pending() + m.emitted(ops) == m.delivered(ops) + m.run(ops).pending(),
    decreases ops.len(),
{
    if ops.len() == 0 {
        assert(m.pending() + m.emitted(ops) =~= m.delivered(ops) + m.run(ops).pending());
    } else {
        let next = m.step(ops[0]);
        let rest = ops.drop_first();
        lemma_step_conserves(m, ops[0]);
        lemma_run_conserves(next, rest);
        assert(m.pending() + m.emitted(ops) =~= (m.pending() + m.emitted_by(ops[0])) + next.emitted(
            rest,
        ));
        assert(m.delivered(ops) + m.run(ops).pending() =~= m.delivered_by(ops[0]) + (
        next.delivered(rest) + next.run(rest).pending()));
        assert((m.delivered_by(ops[0]) + next.pending()) + next.emitted(rest) =~= m.delivered_by(
            ops[0],
        ) + (next.pending() + next.emitted(rest)));
    }
}

/// A buffer that starts empty hands to the sink a prefix of what was
/// published, and holds the rest.
pub proof fn lemma_fresh_run_is_fifo(id: u64, capacity: nat, ops: Seq<RingOp>)
    requires
        RingModel::fresh(id, capacity).admits_all(ops),
    ensures
        ({
            let m = RingModel::fresh(id, capacity);
            m.emitted(ops) == m.delivered(ops) + m.run(ops).pending()
        }),
{
    let m = RingModel::fresh(id, capacity);
    lemma_run_conserves(m, ops);
    assert(m.pending() =~= Seq::<u8>::empty());
    assert(m.pending() + m.emitted(ops) =~= m.emitted(ops));
}

/// Consuming drops exactly the oldest bytes.
pub proof fn lemma_consume_drops_oldest(m: RingModel, n_bytes: nat)
    requires
        m.wf(),
        n_bytes <= m.readable_len(),
    ensures
        m.after_consume(n_bytes).wf(),
        m.after_consume(n_bytes).pending() == m.pending().skip(n_bytes as int),
{
    let a = m.after_consume(n_bytes);
    assert(a.pending() =~= m.pending().skip(n_bytes as int));
}

} // verus!
