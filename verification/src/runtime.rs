//! The registry of staging buffers, the drain step of the background
//! consumer, and the facade that turns a message into a published record.

use crate::staging_buffer::{ReserveError, RingModel, StagingBuffer};
use vstd::prelude::*;
use vstd::string::*;
use vstd::utf8::*;

verus! {

/// Severity of a record, most severe first.
#[derive(Debug, Clone, Copy, PartialEq, Eq, Structural)]
pub enum Level {
    Error,
    Warn,
    Info,
    Debug,
    Trace,
}

impl Level {
    /// Position in the order of severities: 1 for `Error`, 5 for `Trace`.
    pub open spec fn rank(self) -> nat {
        match self {
            Level::Error => 1,
            Level::Warn => 2,
            Level::Info => 3,
            Level::Debug => 4,
            Level::Trace => 5,
        }
    }
}

/// What the sink receives for one drained run of bytes.
#[derive(Debug, PartialEq, Eq)]
pub enum SinkRecord {
    /// The run decoded as text.
    Text(String),
    /// The run was not valid text; a placeholder is forwarded in its place.
    InvalidData,
}

impl SinkRecord {
    /// This record is what `bytes` are forwarded as.
    pub open spec fn renders(self, bytes: Seq<u8>) -> bool {
        match self {
            SinkRecord::Text(s) => valid_utf8(bytes) && s@ == decode_utf8(bytes),
            SinkRecord::InvalidData => !valid_utf8(bytes),
        }
    }

    /// The line that the sink prints for this record.
    pub fn to_line(&self) -> (r: String)
        ensures
            match *self {
                SinkRecord::Text(s) => r@ == s@,
                SinkRecord::InvalidData => r@ == "Invalid data"@,
            },
    {
        match self {
            SinkRecord::Text(s) => s.clone(),
            SinkRecord::InvalidData => String::from_str("Invalid data"),
        }
    }
}

/// `String::from_utf8` of std: `Some` exactly for bytes that are valid UTF-8,
/// and then the string whose characters those bytes encode.
#[verifier::external_body]
fn decode_text(bytes: Vec<u8>) -> (r: Option<String>)
    ensures
        r.is_some() <==> valid_utf8(bytes@),
        r.is_some() ==> r.unwrap()@ == decode_utf8(bytes@),
{
    String::from_utf8(bytes).ok()
}

/// Turns a drained run into what the sink receives: the text, or the
/// placeholder where the bytes are not valid text.
pub fn render(bytes: Vec<u8>) -> (r: SinkRecord)
    ensures
        r.renders(bytes@),
{
    match decode_text(bytes) {
        Some(text) => SinkRecord::Text(text),
        None => SinkRecord::InvalidData,
    }
}

/// The buffer visited `t` visits after `start` in a round over `count`
/// buffers.
pub open spec fn round_index(start: nat, t: nat, count: nat) -> nat {
    if start + t < count {
        start + t
    } else {
        (start + t - count) as nat
    }
}

/// The runs that the first `k` visits of a round from `start` hand to the
/// sink, in the order of the visits; a buffer with nothing pending adds none.
pub open spec fn pass_runs(views: Seq<RingModel>, start: nat, k: nat) -> Seq<Seq<u8>>
    decreases k,
{
    if k == 0 {
        Seq::empty()
    } else {
        let earlier = pass_runs(views, start, (k - 1) as nat);
        let run = views[round_index(start, (k - 1) as nat, views.len()) as int].next_run();
        if run.len() == 0 {
            earlier
        } else {
            earlier.push(run)
        }
    }
}

/// Every buffer after one drain of it.
pub open spec fn all_drained(views: Seq<RingModel>) -> Seq<RingModel> {
    Seq::new(views.len(), |i: int| views[i].drained())
}

/// The registry: every live staging buffer, in the order of registration.
/// A producer addresses its buffer by the handle it got at registration.
pub struct LoggerInternal {
    thread_buffer: Vec<StagingBuffer>,
}

impl View for LoggerInternal {
    type V = Seq<RingModel>;

    closed spec fn view(&self) -> Seq<RingModel> {
        self.thread_buffer@.map_values(|b: StagingBuffer| b@)
    }
}

impl LoggerInternal {
    pub open spec fn wf(&self) -> bool {
        forall|i: int| 0 <= i < self@.len() ==> (#[trigger] self@[i]).wf()
    }

    pub fn new() -> (r: LoggerInternal)
        ensures
            r.wf(),
            r@ == Seq::<RingModel>::empty(),
    {
        let r = LoggerInternal { thread_buffer: Vec::new() };
        assert(r@ =~= Seq::<RingModel>::empty());
        r
    }

    /// Number of registered buffers.
    pub fn len(&self) -> (r: usize)
        ensures
            r == self@.len(),
    {
        self.thread_buffer.len()
    }

    /// Registers `buffer` behind all earlier ones and returns its handle.
    pub fn append_log_buffer(&mut self, buffer: StagingBuffer) -> (handle: usize)
        requires
            old(self).wf(),
            buffer.wf(),
        ensures
            final(self).wf(),
            final(self)@ == old(self)@.push(buffer@),
            handle == old(self)@.len(),
    {
        let handle = self.thread_buffer.len();
        self.thread_buffer.push(buffer);
        assert(self@ =~= old(self)@.push(buffer@));
        handle
    }

    /// Reserves `n_bytes` in the buffer behind `handle`.
    pub fn reserve_alloc(&mut self, handle: usize, n_bytes: usize) -> (r: Result<
        usize,
        ReserveError,
    >)
        requires
            old(self).wf(),
            handle < old(self)@.len(),
        ensures
            final(self).wf(),
            final(self)@ == old(self)@.update(
                handle as int,
                old(self)@[handle as int].after_reserve(n_bytes as nat),
            ),
            match r {
                Ok(pos) => {
                    &&& n_bytes <= old(self)@[handle as int].capacity()
                    &&& final(self)@[handle as int].reserved(n_bytes as nat)
                    &&& pos == final(self)@[handle as int].producer_pos
                    &&& final(self)@[handle as int].in_free_space(pos as nat, n_bytes as nat)
                },
                Err(ReserveError::OverCapacityRequest) => n_bytes > old(self)@[handle as int].capacity(),
                Err(ReserveError::Stalled) => {
                    &&& n_bytes <= old(self)@[handle as int].capacity()
                    &&& !final(self)@[handle as int].reserved(n_bytes as nat)
                },
            },
    {
        assert(old(self)@[handle as int].wf());
        let r = self.thread_buffer[handle].reserve_producer_space(n_bytes);
        assert(self@ =~= old(self)@.update(
            handle as int,
            old(self)@[handle as int].after_reserve(n_bytes as nat),
        ));
        r
    }

    /// Copies `data` into the reserved space of the buffer behind `handle`.
    pub fn write_alloc(&mut self, handle: usize, pos: usize, data: &[u8])
        requires
            old(self).wf(),
            handle < old(self)@.len(),
            old(self)@[handle as int].in_free_space(pos as nat, data@.len()),
        ensures
            final(self).wf(),
            final(self)@ == old(self)@.update(
                handle as int,
                old(self)@[handle as int].after_write(pos as nat, data@),
            ),
    {
        assert(old(self)@[handle as int].wf());
        self.thread_buffer[handle].write_storage(pos, data);
        assert(self@ =~= old(self)@.update(
            handle as int,
            old(self)@[handle as int].after_write(pos as nat, data@),
        ));
    }

    /// Publishes `n_bytes` of the buffer behind `handle`.
    pub fn finish_alloc(&mut self, handle: usize, n_bytes: usize)
        requires
            old(self).wf(),
            handle < old(self)@.len(),
            old(self)@[handle as int].reserved(n_bytes as nat),
        ensures
            final(self).wf(),
            final(self)@ == old(self)@.update(
                handle as int,
                old(self)@[handle as int].after_finish(n_bytes as nat),
            ),
    {
        assert(old(self)@[handle as int].wf());
        self.thread_buffer[handle].finish_reservation(n_bytes);
        assert(self@ =~= old(self)@.update(
            handle as int,
            old(self)@[handle as int].after_finish(n_bytes as nat),
        ));
    }

    /// One visit of the background consumer: drains the buffer at `cursor`
    /// and returns what goes to the sink, if anything, with the cursor of
    /// the next visit. The bytes are released whatever they decode to.
    pub fn drain_step(&mut self, cursor: usize) -> (r: (Option<SinkRecord>, usize))
        requires
            old(self).wf(),
            cursor < old(self)@.len(),
        ensures
            final(self).wf(),
            final(self)@ == old(self)@.update(cursor as int, old(self)@[cursor as int].drained()),
            r.1 == (cursor + 1) % (old(self)@.len() as int),
            r.0.is_none() <==> old(self)@[cursor as int].pending().len() == 0,
            r.0.is_some() ==> r.0.unwrap().renders(old(self)@[cursor as int].next_run()),
    {
        let ghost before = self@[cursor as int];
        assert(before.wf());
        proof {
            crate::staging_buffer::lemma_drain_takes_oldest(before);
        }
        let count = self.thread_buffer.len();
        let (peek_pos, peek_bytes) = self.thread_buffer[cursor].peek();
        let mut forwarded: Option<SinkRecord> = None;
        if peek_bytes > 0 {
            let run = self.thread_buffer[cursor].read_storage(peek_pos, peek_bytes);
            forwarded = Some(render(run));
            self.thread_buffer[cursor].consume(peek_bytes);
        } else {
            assert(before.drained() == before.after_peek());
        }
        assert(self@ =~= old(self)@.update(cursor as int, before.drained()));
        (forwarded, (cursor + 1) % count)
    }

    /// One round of the background consumer: visits every buffer once,
    /// from `start` on and round again to where it started, and returns
    /// what goes to the sink, in the order of the visits.
    pub fn drain_pass(&mut self, start: usize) -> (records: Vec<SinkRecord>)
        requires
            old(self).wf(),
            old(self)@.len() == 0 || start < old(self)@.len(),
        ensures
            final(self).wf(),
            final(self)@ == all_drained(old(self)@),
            records@.len() == pass_runs(old(self)@, start as nat, old(self)@.len()).len(),
            forall|t: int|
                0 <= t < records@.len() ==> (#[trigger] records@[t]).renders(
                    pass_runs(old(self)@, start as nat, old(self)@.len())[t],
                ),
    {
        let ghost before = self@;
        let count = self.thread_buffer.len();
        let mut records: Vec<SinkRecord> = Vec::new();
        let mut visited: usize = 0;
        let mut i: usize = start;
        while visited < count
            invariant
                self.wf(),
                before == old(self)@,
                self@.len() == count,
                before.len() == count,
                visited <= count,
                count == 0 || start < count,
                visited < count ==> i == round_index(start as nat, visited as nat, count as nat),
                forall|j: int|
                    0 <= j < count ==> #[trigger] self@[j] == if (start <= j < start + visited) || (j
                        + count < start + visited) {
                        before[j].drained()
                    } else {
                        before[j]
                    },
                records@.len() == pass_runs(before, start as nat, visited as nat).len(),
                forall|t: int|
                    0 <= t < records@.len() ==> (#[trigger] records@[t]).renders(
                        pass_runs(before, start as nat, visited as nat)[t],
                    ),
            decreases count - visited,
        {
            let ghost earlier = pass_runs(before, start as nat, visited as nat);
            let ghost here = self@;
            assert(here[i as int] == before[i as int]);
            assert(before[i as int].wf());
            proof {
                crate::staging_buffer::lemma_drain_takes_oldest(before[i as int]);
            }
            let (forwarded, next) = self.drain_step(i);
            proof {
                if i + 1 < count {
                    vstd::arithmetic::div_mod::lemma_small_mod((i + 1) as nat, count as nat);
                } else {
                    vstd::arithmetic::div_mod::lemma_mod_self_0(count as int);
                }
            }
            match forwarded {
                Some(record) => {
                    records.push(record);
                },
                None => {},
            }
            visited = visited + 1;
            i = next;
            assert(pass_runs(before, start as nat, visited as nat) == if before[round_index(
                start as nat,
                (visited - 1) as nat,
                count as nat,
            ) as int].next_run().len() == 0 {
                earlier
            } else {
                earlier.push(
                    before[round_index(start as nat, (visited - 1) as nat, count as nat) as int].next_run(),
                )
            });
        }
        assert(self@ =~= all_drained(before));
        records
    }
}

/// The facade in front of the registry: filters by level and publishes a
/// message as one record.
pub struct Logger;

impl Logger {
    /// Records up to `Info` are let through.
    pub fn enabled(&self, level: Level) -> (r: bool)
        ensures
            r == (level.rank() <= Level::Info.rank()),
    {
        match level {
            Level::Error | Level::Warn | Level::Info => true,
            Level::Debug | Level::Trace => false,
        }
    }

    /// State of a buffer after `bytes` were offered to it as one record.
    pub open spec fn after_log(m: RingModel, bytes: Seq<u8>) -> RingModel {
        let r = m.after_reserve(bytes.len());
        if r.reserved(bytes.len()) {
            r.after_write(r.producer_pos, bytes).after_finish(bytes.len())
        } else {
            r
        }
    }

    /// Publishes `message` in the buffer behind `handle` where the level is
    /// enabled: reserve, copy, finish. A record that does not fit right now
    /// is not written, and the reservation's error is returned.
    pub fn log(
        &self,
        internal: &mut LoggerInternal,
        handle: usize,
        level: Level,
        message: &str,
    ) -> (r: Result<(), ReserveError>)
        requires
            old(internal).wf(),
            handle < old(internal)@.len(),
        ensures
            final(internal).wf(),
            level.rank() > Level::Info.rank() ==> r.is_ok() && final(internal)@ == old(internal)@,
            level.rank() <= Level::Info.rank() ==> {
                let before = old(internal)@[handle as int];
                let bytes = message.spec_bytes();
                &&& final(internal)@ == old(internal)@.update(
                    handle as int,
                    Logger::after_log(before, bytes),
                )
                &&& match r {
                    Ok(_) => {
                        &&& bytes.len() <= before.capacity()
                        &&& before.after_reserve(bytes.len()).reserved(bytes.len())
                        &&& final(internal)@[handle as int].pending() == before.pending() + bytes
                    },
                    Err(ReserveError::OverCapacityRequest) => bytes.len() > before.capacity(),
                    Err(ReserveError::Stalled) => {
                        &&& bytes.len() <= before.capacity()
                        &&& !before.after_reserve(bytes.len()).reserved(bytes.len())
                        &&& final(internal)@[handle as int].pending() == before.pending()
                    },
                }
            },
    {
        if !self.enabled(level) {
            return Ok(());
        }
        let ghost before = internal@[handle as int];
        assert(before.wf());
        let bytes = message.as_bytes();
        proof {
            lemma_log_appends(before, bytes@);
        }
        match internal.reserve_alloc(handle, bytes.len()) {
            Ok(pos) => {
                internal.write_alloc(handle, pos, bytes);
                internal.finish_alloc(handle, bytes.len());
                assert(internal@ =~= old(internal)@.update(
                    handle as int,
                    Logger::after_log(before, bytes@),
                ));
                Ok(())
            },
            Err(e) => Err(e),
        }
    }

    /// Nothing is held back by the facade, so there is nothing to flush.
    pub fn flush(&self) {
    }
}

/// A record that is accepted lands behind everything pending, byte for byte;
/// one that is not accepted changes nothing that is pending.
pub proof fn lemma_log_appends(m: RingModel, bytes: Seq<u8>)
    requires
        m.wf(),
    ensures
        Logger::after_log(m, bytes).wf(),
        m.after_reserve(bytes.len()).reserved(bytes.len()) ==> Logger::after_log(m, bytes).pending()
            == m.pending() + bytes,
        !m.after_reserve(bytes.len()).reserved(bytes.len()) ==> Logger::after_log(m, bytes).pending()
            == m.pending(),
{
    let n = bytes.len();
    let r = m.after_reserve(n);
    crate::staging_buffer::lemma_reserve_keeps_pending(m, n);
    if r.reserved(n) {
        let w = r.after_write(r.producer_pos, bytes);
        crate::staging_buffer::lemma_write_keeps_pending(r, r.producer_pos, bytes);
        crate::staging_buffer::lemma_finish_appends(w, n);
    }
}

} // verus!
