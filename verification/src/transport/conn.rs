//! Per-connection outbound queue.
//!
//! A [`Connection`] owns the outbound half of one WebSocket session: a queue of
//! pre-encoded frames shared by reference, a byte-bounded drop-head policy at
//! enqueue time, a controlled-delay (CoDel) freshness check at dequeue time, and
//! a flush that gathers whole frames into one vectored write at a time.
//!
//! The socket itself is not held here. A flush alternates two calls:
//! [`Connection::flush_gather`] moves the next batch of frames out of the queue,
//! the caller writes the slices, and [`Connection::flush_apply`] takes the
//! outcome of that write and says what to do next.
use std::collections::VecDeque;
use std::sync::Arc;
use vstd::prelude::*;

verus! {

/// Lifecycle of a connection as seen by the transport.
#[derive(Debug, Clone, Copy, PartialEq, Eq, Structural)]
pub enum ConnState {
    /// HTTP upgrade in progress; no WebSocket frames have flowed yet.
    Handshaking,
    /// Upgrade complete; frames flow in both directions.
    Open,
    /// A close handshake is underway; remaining writes are drained.
    Closing,
}

/// Outcome of a whole flush.
#[derive(Debug, Clone, Copy, PartialEq, Eq, Structural)]
pub enum WriteStatus {
    /// The outbound queue is empty; clear writable interest.
    Drained,
    /// The socket's send buffer is full and data remains queued.
    WouldBlock,
    /// The peer is gone; close the connection.
    Closed,
}

/// Outcome of draining the bytes that precede the first frame.
#[derive(Debug, Clone, Copy, PartialEq, Eq, Structural)]
pub enum DrainStatus {
    /// The socket is drained for now and no handshake flight is pending.
    Drained,
    /// A TLS handshake flight is only partly written: arm writable interest.
    NeedsWrite,
    /// End of stream or a hard error; close the connection.
    Closed,
}

/// Error surfaced by the queue and read paths.
#[derive(Debug, PartialEq)]
pub enum ConnError {
    /// The outbound queue is over its high-water mark. The queue evicts rather
    /// than rejects, so nothing in this crate produces this variant.
    Backpressure,
    /// The peer closed with nothing buffered, or the socket failed.
    Closed,
    /// A fatal WebSocket protocol violation; close with status 1002.
    Protocol(&'static str),
}

/// CoDel time-in-queue parameters. A `target_ns` of `0` disables the check.
#[derive(Debug, Clone, Copy, PartialEq, Eq, Structural)]
pub struct CodelParams {
    /// Acceptable standing time in queue, in nanoseconds.
    pub target_ns: u64,
    /// Window over which the minimum time in queue is tracked, in nanoseconds.
    pub interval_ns: u64,
}

impl CodelParams {
    /// 5 ms target, 100 ms interval.
    pub fn standard() -> (p: CodelParams)
        ensures
            p.target_ns == 5_000_000,
            p.interval_ns == 100_000_000,
    {
        CodelParams { target_ns: 5_000_000, interval_ns: 100_000_000 }
    }

    /// The disabled overlay: every queued frame is sent regardless of its age.
    pub fn disabled() -> (p: CodelParams)
        ensures
            p.target_ns == 0,
            p.interval_ns == 100_000_000,
    {
        CodelParams { target_ns: 0, interval_ns: 100_000_000 }
    }

    /// Whether the overlay is active.
    pub fn enabled(&self) -> (on: bool)
        ensures
            on == (self.target_ns != 0),
    {
        self.target_ns != 0
    }

    /// The age above which a frame is stale: twice the target, saturating.
    pub open spec fn stale_after(self) -> int {
        if 2 * self.target_ns > u64::MAX {
            u64::MAX as int
        } else {
            2 * self.target_ns
        }
    }
}

/// `a + b`, capped at the largest `u64`.
pub open spec fn sat_add(a: u64, b: u64) -> u64 {
    if a + b > u64::MAX {
        u64::MAX
    } else {
        (a + b) as u64
    }
}

/// Time spent in the queue by a frame stamped `enqueued`, seen at `now`.
pub open spec fn sojourn(now: u64, enqueued: u64) -> u64 {
    if now >= enqueued {
        (now - enqueued) as u64
    } else {
        0
    }
}

/// CoDel control state of one connection.
#[derive(Debug, Clone, Copy, PartialEq, Eq, Structural)]
pub struct CodelState {
    /// Minimum time in queue seen in the current interval.
    pub interval_min: Option<u64>,
    /// Time at which the current interval ends; `0` before the first sample.
    pub interval_end: u64,
    /// Whether stale frames are currently dropped.
    pub overloaded: bool,
}

impl CodelState {
    /// The state before the first sample.
    pub open spec fn initial() -> CodelState {
        CodelState { interval_min: None, interval_end: 0, overloaded: false }
    }

    /// The smallest sample of the current interval once `s` has joined it.
    pub open spec fn min_with(self, s: u64) -> u64 {
        match self.interval_min {
            Some(m) => if m <= s { m } else { s },
            None => s,
        }
    }

    /// The end of the interval that a sample taken at `now` falls in.
    pub open spec fn open_end(self, codel: CodelParams, now: u64) -> u64 {
        if self.interval_end == 0 {
            sat_add(now, codel.interval_ns)
        } else {
            self.interval_end
        }
    }

    /// The state after one dequeue sample `s` taken at `now`: inside the interval
    /// only the minimum moves; at its end the overloaded flag is decided from the
    /// minimum and a fresh interval starts with this sample.
    pub open spec fn noted(self, codel: CodelParams, now: u64, s: u64) -> CodelState {
        if now >= self.open_end(codel, now) {
            CodelState {
                interval_min: Some(s),
                interval_end: sat_add(now, codel.interval_ns),
                overloaded: self.min_with(s) > codel.target_ns,
            }
        } else {
            CodelState {
                interval_min: Some(self.min_with(s)),
                interval_end: self.open_end(codel, now),
                overloaded: self.overloaded,
            }
        }
    }

    /// The state after finding the queue empty at `now`: an interval that has run
    /// out ends the overloaded regime.
    pub open spec fn aged(self, codel: CodelParams, now: u64) -> CodelState {
        if self.interval_end != 0 && now >= self.interval_end {
            CodelState {
                interval_min: None,
                interval_end: sat_add(now, codel.interval_ns),
                overloaded: false,
            }
        } else {
            self
        }
    }

    /// Folds one dequeue sample into the current interval.
    pub fn note_interval(&mut self, codel: CodelParams, now_ns: u64, sojourn: u64)
        ensures
            *final(self) == old(self).noted(codel, now_ns, sojourn),
    {
        let interval: u64 = codel.interval_ns;
        let target: u64 = codel.target_ns;
        if self.interval_end == 0 {
            self.interval_end = now_ns.saturating_add(interval);
        }
        let min: u64 = match self.interval_min {
            Some(m) => if m <= sojourn { m } else { sojourn },
            None => sojourn,
        };
        self.interval_min = Some(min);
        if now_ns >= self.interval_end {
            self.overloaded = min > target;
            self.interval_min = Some(sojourn);
            self.interval_end = now_ns.saturating_add(interval);
        }
    }

    /// Ages the overloaded flag of an empty queue.
    pub fn age_empty(&mut self, codel: CodelParams, now_ns: u64)
        ensures
            *final(self) == old(self).aged(codel, now_ns),
    {
        if self.interval_end != 0 && now_ns >= self.interval_end {
            self.overloaded = false;
            self.interval_min = None;
            self.interval_end = now_ns.saturating_add(codel.interval_ns);
        }
    }
}

impl Default for CodelState {
    fn default() -> (s: CodelState)
        ensures
            s == CodelState::initial(),
    {
        CodelState { interval_min: None, interval_end: 0, overloaded: false }
    }
}

/// A queued frame: its encoded bytes and the time it was enqueued, in
/// nanoseconds since the owning worker's epoch.
pub type OutFrame = (Arc<[u8]>, u64);

/// Most slices handed to one vectored write.
pub const WRITEV_MAX_SLICES: usize = 1024;

/// Most payload bytes handed to one vectored write on a plain socket.
pub const WRITEV_MAX_BYTES: usize = 262_144;

/// Most plaintext bytes handed to one TLS write.
pub const TLS_BATCH_MAX_BYTES: usize = 61_440;

/// Encoded length of a frame.
pub open spec fn frame_len(f: OutFrame) -> nat {
    f.0@.len()
}

/// Encoded length of all frames together.
pub open spec fn total_len(frames: Seq<OutFrame>) -> nat
    decreases frames.len(),
{
    if frames.len() == 0 {
        0
    } else {
        frame_len(frames[0]) + total_len(frames.drop_first())
    }
}

/// The bytes of all frames, in order.
pub open spec fn wire(frames: Seq<OutFrame>) -> Seq<u8>
    decreases frames.len(),
{
    if frames.len() == 0 {
        Seq::empty()
    } else {
        frames[0].0@ + wire(frames.drop_first())
    }
}

pub proof fn lemma_wire_len(frames: Seq<OutFrame>)
    ensures
        wire(frames).len() == total_len(frames),
    decreases frames.len(),
{
    if frames.len() > 0 {
        lemma_wire_len(frames.drop_first());
    }
}

pub proof fn lemma_total_concat(a: Seq<OutFrame>, b: Seq<OutFrame>)
    ensures
        total_len(a + b) == total_len(a) + total_len(b),
    decreases a.len(),
{
    if a.len() == 0 {
        assert(a + b =~= b);
    } else {
        assert((a + b).drop_first() =~= a.drop_first() + b);
        lemma_total_concat(a.drop_first(), b);
    }
}

pub proof fn lemma_wire_concat(a: Seq<OutFrame>, b: Seq<OutFrame>)
    ensures
        wire(a + b) =~= wire(a) + wire(b),
    decreases a.len(),
{
    if a.len() == 0 {
        assert(a + b =~= b);
    } else {
        assert((a + b).drop_first() =~= a.drop_first() + b);
        lemma_wire_concat(a.drop_first(), b);
    }
}

pub proof fn lemma_total_one(f: OutFrame)
    ensures
        total_len(seq![f]) == frame_len(f),
{
    assert(seq![f].drop_first() =~= Seq::<OutFrame>::empty());
    assert(total_len(seq![f].drop_first()) == 0);
}

pub proof fn lemma_total_push(a: Seq<OutFrame>, f: OutFrame)
    ensures
        total_len(a.push(f)) == total_len(a) + frame_len(f),
{
    assert(a.push(f) =~= a + seq![f]);
    lemma_total_concat(a, seq![f]);
    lemma_total_one(f);
}

pub proof fn lemma_total_remove(a: Seq<OutFrame>, i: int)
    requires
        0 <= i < a.len(),
    ensures
        total_len(a.remove(i)) + frame_len(a[i]) == total_len(a),
{
    assert(a =~= a.take(i) + (seq![a[i]] + a.skip(i + 1)));
    assert(a.remove(i) =~= a.take(i) + a.skip(i + 1));
    lemma_total_concat(a.take(i), seq![a[i]] + a.skip(i + 1));
    lemma_total_concat(seq![a[i]], a.skip(i + 1));
    lemma_total_concat(a.take(i), a.skip(i + 1));
    lemma_total_one(a[i]);
}

pub proof fn lemma_total_member(a: Seq<OutFrame>, i: int)
    requires
        0 <= i < a.len(),
    ensures
        frame_len(a[i]) <= total_len(a),
{
    lemma_total_remove(a, i);
}

/// `frames` without the `k` oldest ones behind the first `locked`.
pub open spec fn drop_head(frames: Seq<OutFrame>, locked: nat, k: nat) -> Seq<OutFrame> {
    frames.take(locked as int) + frames.skip((locked + k) as int)
}

/// `k` is the number of evictions that makes room for `flen` bytes: the least
/// number after which the frame fits under `high_water`, or all that can go.
pub open spec fn evictions_for(
    frames: Seq<OutFrame>,
    locked: nat,
    flen: nat,
    high_water: nat,
    k: nat,
) -> bool {
    &&& k == 0 || locked + k <= frames.len()
    &&& total_len(drop_head(frames, locked, k)) + flen <= high_water || locked + k >= frames.len()
    &&& k > 0 ==> total_len(drop_head(frames, locked, (k - 1) as nat)) + flen > high_water
}

proof fn lemma_drop_head_shrinks(frames: Seq<OutFrame>, locked: nat, a: nat, b: nat)
    requires
        a <= b,
        locked + b <= frames.len(),
    ensures
        total_len(drop_head(frames, locked, b)) <= total_len(drop_head(frames, locked, a)),
{
    let l = frames.take(locked as int);
    let x = frames.skip((locked + a) as int);
    let y = frames.skip((locked + b) as int);
    assert(x =~= x.take(b - a) + y);
    lemma_total_concat(x.take(b - a), y);
    lemma_total_concat(l, x);
    lemma_total_concat(l, y);
}

/// The number of evictions is determined by the queue, the frame and the cap.
pub proof fn lemma_evictions_unique(
    frames: Seq<OutFrame>,
    locked: nat,
    flen: nat,
    high_water: nat,
    a: nat,
    b: nat,
)
    requires
        evictions_for(frames, locked, flen, high_water, a),
        evictions_for(frames, locked, flen, high_water, b),
    ensures
        a == b,
{
    if a < b {
        lemma_drop_head_shrinks(frames, locked, a, (b - 1) as nat);
    }
    if b < a {
        lemma_drop_head_shrinks(frames, locked, b, (a - 1) as nat);
    }
}

/// Outcome of one pass of the freshness check.
pub struct CodelRun {
    /// How many leading frames are dropped.
    pub dropped: nat,
    /// The control state afterwards.
    pub state: CodelState,
}

/// The freshness check on a queue: every leading frame is sampled; while the
/// queue is overloaded a stale one is dropped unless it is the last one left. A
/// locked front is sampled and kept.
pub open spec fn codel_run(
    frames: Seq<OutFrame>,
    locked: bool,
    codel: CodelParams,
    state: CodelState,
    now: u64,
) -> CodelRun
    decreases frames.len(),
{
    if codel.target_ns == 0 {
        CodelRun { dropped: 0, state }
    } else if frames.len() == 0 {
        CodelRun { dropped: 0, state: state.aged(codel, now) }
    } else {
        let age = sojourn(now, frames[0].1);
        let noted = state.noted(codel, now, age);
        if !locked && noted.overloaded && age > codel.stale_after() && frames.len() > 1 {
            let rest = codel_run(frames.drop_first(), locked, codel, noted, now);
            CodelRun { dropped: rest.dropped + 1, state: rest.state }
        } else {
            CodelRun { dropped: 0, state: noted }
        }
    }
}

/// The check never empties a queue and never drops a locked front.
pub proof fn codel_keeps_the_newest(
    frames: Seq<OutFrame>,
    locked: bool,
    codel: CodelParams,
    state: CodelState,
    now: u64,
)
    ensures
        frames.len() > 0 ==> codel_run(frames, locked, codel, state, now).dropped < frames.len(),
        codel_run(frames, locked, codel, state, now).dropped <= frames.len(),
        locked ==> codel_run(frames, locked, codel, state, now).dropped == 0,
        codel.target_ns == 0 ==> codel_run(frames, locked, codel, state, now) == (CodelRun {
            dropped: 0,
            state,
        }),
    decreases frames.len(),
{
    if codel.target_ns != 0 && frames.len() > 1 {
        let noted = state.noted(codel, now, sojourn(now, frames[0].1));
        codel_keeps_the_newest(frames.drop_first(), locked, codel, noted, now);
    }
}

/// Every frame that the check drops is older than twice the target.
pub proof fn codel_drops_only_stale(
    frames: Seq<OutFrame>,
    locked: bool,
    codel: CodelParams,
    state: CodelState,
    now: u64,
    i: int,
)
    requires
        0 <= i < codel_run(frames, locked, codel, state, now).dropped,
    ensures
        i < frames.len(),
        sojourn(now, frames[i].1) > codel.stale_after(),
    decreases frames.len(),
{
    codel_keeps_the_newest(frames, locked, codel, state, now);
    if i > 0 {
        let noted = state.noted(codel, now, sojourn(now, frames[0].1));
        codel_drops_only_stale(frames.drop_first(), locked, codel, noted, now, i - 1);
    }
}

/// The result of gathering one batch.
pub struct Gathered {
    /// The frames moved out of the queue.
    pub batch: Seq<OutFrame>,
    /// The frames left in the queue.
    pub rest: Seq<OutFrame>,
    /// The freshness state afterwards.
    pub state: CodelState,
    /// How many frames the freshness check dropped on the way.
    pub dropped: nat,
}

/// Gathers frames from the front of `rest` behind `batch`, whose unwritten part
/// is `bytes` long. The first frame always joins; a later one only while the
/// batch has fewer than [`WRITEV_MAX_SLICES`] frames and stays within
/// `max_bytes`. Each time a frame has joined, the frames behind it are checked
/// for freshness.
pub open spec fn gather(
    batch: Seq<OutFrame>,
    bytes: nat,
    rest: Seq<OutFrame>,
    cursor: nat,
    codel: CodelParams,
    state: CodelState,
    dropped: nat,
    max_bytes: nat,
    now: u64,
) -> Gathered
    decreases rest.len(),
{
    if rest.len() == 0 {
        Gathered { batch, rest, state, dropped }
    } else {
        let take = unwritten(batch.len() == 0, rest[0], cursor);
        if batch.len() > 0 && (batch.len() >= WRITEV_MAX_SLICES || bytes + take > max_bytes) {
            Gathered { batch, rest, state, dropped }
        } else {
            let behind = rest.drop_first();
            let run = codel_run(behind, false, codel, state, now);
            if run.dropped <= behind.len() {
                gather(
                    batch.push(rest[0]),
                    bytes + take,
                    behind.skip(run.dropped as int),
                    cursor,
                    codel,
                    run.state,
                    dropped + run.dropped,
                    max_bytes,
                    now,
                )
            } else {
                Gathered { batch, rest, state, dropped }
            }
        }
    }
}

/// The part of `f` that is not on the wire yet; only the first frame of a batch
/// can be partly written.
pub open spec fn unwritten(first: bool, f: OutFrame, cursor: nat) -> nat {
    if first && cursor <= frame_len(f) {
        (frame_len(f) - cursor) as nat
    } else if first {
        0
    } else {
        frame_len(f)
    }
}

/// How many whole frames of `batch` a write of `n` bytes completes, the first
/// `cursor` bytes being on the wire already.
pub open spec fn completed(batch: Seq<OutFrame>, cursor: nat, n: nat) -> nat
    decreases batch.len(),
{
    if batch.len() == 0 || n < unwritten(true, batch[0], cursor) {
        0
    } else {
        1 + completed(batch.drop_first(), 0, (n - unwritten(true, batch[0], cursor)) as nat)
    }
}

/// Where in the first incomplete frame a write of `n` bytes stops; `0` when it
/// completes every frame.
pub open spec fn cursor_after(batch: Seq<OutFrame>, cursor: nat, n: nat) -> nat
    decreases batch.len(),
{
    if batch.len() == 0 {
        0
    } else if n < unwritten(true, batch[0], cursor) {
        cursor + n
    } else {
        cursor_after(batch.drop_first(), 0, (n - unwritten(true, batch[0], cursor)) as nat)
    }
}

/// Outcome of handing one batch to the socket.
#[derive(Debug, Clone, Copy, PartialEq, Eq, Structural)]
pub enum BatchOutcome {
    /// The socket took this many bytes.
    Wrote(usize),
    /// The send buffer is full.
    WouldBlock,
    /// The call was interrupted before anything was written.
    Interrupted,
    /// The socket failed.
    Failed,
}

/// What a flush does next.
#[derive(Debug, Clone, Copy, PartialEq, Eq, Structural)]
pub enum FlushNext {
    /// Gather and write the next batch.
    Again,
    /// Stop with this status.
    Done(WriteStatus),
}

/// The state of a connection, as contracts see it.
pub struct ConnModel {
    pub state: ConnState,
    /// The gathered batch whose write has not been applied yet.
    pub in_flight: Seq<OutFrame>,
    /// The frames waiting in the queue.
    pub queued: Seq<OutFrame>,
    /// How much of the oldest frame is on the wire.
    pub cursor: nat,
    pub high_water: nat,
    pub codel: CodelParams,
    pub codel_state: CodelState,
    pub codel_dropped: nat,
    pub drophead_dropped: nat,
    pub writable_armed: bool,
    /// Bytes held for a fragmented inbound message.
    pub reassembly: nat,
    /// Bytes held for an incomplete inbound frame.
    pub frame_buffer: nat,
    /// Bytes that the TLS session has taken and may not have put on the wire yet.
    pub tls_unflushed: nat,
    /// The accounted total at the last time the change was taken.
    pub reported: nat,
    /// The outbound total at the last time its change was taken.
    pub reported_out: nat,
}

impl ConnModel {
    /// A connection that has just been accepted.
    pub open spec fn fresh(high_water: nat, codel: CodelParams) -> ConnModel {
        ConnModel {
            state: ConnState::Handshaking,
            in_flight: Seq::empty(),
            queued: Seq::empty(),
            cursor: 0,
            high_water,
            codel,
            codel_state: CodelState::initial(),
            codel_dropped: 0,
            drophead_dropped: 0,
            writable_armed: false,
            reassembly: 0,
            frame_buffer: 0,
            tls_unflushed: 0,
            reported: 0,
            reported_out: 0,
        }
    }

    /// Every frame that is not completely written, oldest first.
    pub open spec fn pending(self) -> Seq<OutFrame> {
        self.in_flight + self.queued
    }

    /// The bytes the peer has yet to receive if nothing more is dropped.
    pub open spec fn unsent(self) -> Seq<u8> {
        wire(self.pending()).skip(self.cursor as int)
    }

    /// Bytes of all pending frames; a partly written frame counts whole.
    pub open spec fn out_bytes(self) -> nat {
        total_len(self.pending())
    }

    /// Bytes that the peer is still owed: all pending frames, and what the TLS
    /// session has not put on the wire.
    pub open spec fn outbound(self) -> nat {
        self.out_bytes() + self.tls_unflushed
    }

    /// There is something to write: a queued frame, or what the TLS session holds.
    pub open spec fn owes(self) -> bool {
        self.queued.len() > 0 || self.tls_unflushed > 0
    }

    /// Bytes this connection holds on behalf of its worker's budget.
    pub open spec fn accounted(self) -> nat {
        self.outbound() + self.reassembly + self.frame_buffer
    }

    /// Frames ever queued that are pending or were dropped uncollected.
    pub open spec fn frame_count(self) -> nat {
        self.pending().len() + self.codel_dropped + self.drophead_dropped
    }

    /// The front is partly written and may not be removed.
    pub open spec fn locked(self) -> nat {
        if self.cursor > 0 {
            1
        } else {
            0
        }
    }

    pub open spec fn valid(self) -> bool {
        &&& self.cursor > 0 ==> self.pending().len() > 0 && self.cursor < frame_len(
            self.pending()[0],
        )
        &&& self.accounted() <= isize::MAX
        &&& self.reported <= isize::MAX
        &&& self.reported_out <= isize::MAX
        &&& self.frame_count() <= u64::MAX
    }

    /// There is room for `frames` more frames of `bytes` bytes together.
    pub open spec fn room(self, bytes: nat, frames: nat) -> bool {
        &&& self.accounted() + bytes <= isize::MAX
        &&& self.frame_count() + frames <= u64::MAX
    }

    /// How many frames are evicted when a frame of `flen` bytes is queued.
    pub open spec fn evicted(self, flen: nat) -> nat {
        choose|k: nat| evictions_for(self.queued, self.locked(), flen, self.high_water, k)
    }

    /// The model after `f` has been queued.
    pub open spec fn enqueued(self, f: OutFrame) -> ConnModel {
        let k = self.evicted(frame_len(f));
        ConnModel {
            queued: drop_head(self.queued, self.locked(), k).push(f),
            drophead_dropped: self.drophead_dropped + k,
            ..self
        }
    }

    /// `after` is this model with a frame of the given bytes queued at `now`.
    pub open spec fn sent(self, bytes: Seq<u8>, now: u64, after: ConnModel) -> bool {
        exists|f: Arc<[u8]>| f@ == bytes && after == #[trigger] self.enqueued((f, now))
    }

    /// The model after the freshness check on the queue.
    pub open spec fn codel_checked(self, front_locked: bool, now: u64) -> ConnModel {
        let run = codel_run(self.queued, front_locked, self.codel, self.codel_state, now);
        ConnModel {
            queued: self.queued.skip(run.dropped as int),
            codel_state: run.state,
            codel_dropped: self.codel_dropped + run.dropped,
            ..self
        }
    }

    /// The model after the freshness check and the gather of one batch.
    pub open spec fn batch_gathered(self, max_bytes: nat, now: u64) -> ConnModel {
        let m = self.codel_checked(self.cursor > 0, now);
        let g = gather(
            Seq::empty(),
            0,
            m.queued,
            m.cursor,
            m.codel,
            m.codel_state,
            0,
            max_bytes,
            now,
        );
        ConnModel {
            in_flight: g.batch,
            queued: g.rest,
            codel_state: g.state,
            codel_dropped: m.codel_dropped + g.dropped,
            ..m
        }
    }

    /// The model after `n` bytes of the batch in flight went out.
    pub open spec fn written(self, n: nat) -> ConnModel {
        let k = completed(self.in_flight, self.cursor, n);
        ConnModel {
            in_flight: Seq::empty(),
            queued: self.in_flight.skip(k as int) + self.queued,
            cursor: cursor_after(self.in_flight, self.cursor, n),
            ..self
        }
    }

    /// The model after the TLS session took `taken` more bytes: while it has
    /// something left to write they count as owed, and nothing does once it has not.
    pub open spec fn tls_noted(self, taken: nat, wants_write: bool) -> ConnModel {
        ConnModel {
            tls_unflushed: if wants_write {
                self.tls_unflushed + taken
            } else {
                0
            },
            ..self
        }
    }

    /// The model with the batch in flight back at the front of the queue.
    pub open spec fn restored(self) -> ConnModel {
        ConnModel { in_flight: Seq::empty(), queued: self.pending(), ..self }
    }
}

/// Pushes an unwritten batch back to the front of the queue.
pub fn restore_batch(out: &mut VecDeque<OutFrame>, batch: &mut Vec<OutFrame>)
    ensures
        final(out)@ == old(batch)@ + old(out)@,
        final(batch)@ == Seq::<OutFrame>::empty(),
{
    restore_tail(out, batch, 0);
}

/// Pushes the frames of `batch` from index `from` on back to the front of the
/// queue and forgets the others.
fn restore_tail(out: &mut VecDeque<OutFrame>, batch: &mut Vec<OutFrame>, from: usize)
    requires
        from <= old(batch)@.len(),
    ensures
        final(out)@ == old(batch)@.skip(from as int) + old(out)@,
        final(batch)@ == Seq::<OutFrame>::empty(),
{
    let ghost all = batch@;
    while batch.len() > from
        invariant
            from <= batch@.len() <= all.len(),
            batch@ == all.take(batch@.len() as int),
            out@ == all.skip(batch@.len() as int) + old(out)@,
        decreases batch@.len(),
    {
        let ghost n = batch@.len();
        match batch.pop() {
            Some(frame) => {
                out.push_front(frame);
                assert(seq![frame] + (all.skip(n as int) + old(out)@) =~= all.skip(n - 1) + old(
                    out,
                )@);
            },
            None => {},
        }
    }
    batch.clear();
}

/// A single non-blocking WebSocket connection.
pub struct Connection {
    /// Current lifecycle state.
    state: ConnState,
    /// Pending outbound frames, oldest first.
    out: VecDeque<OutFrame>,
    /// How much of the oldest pending frame is on the wire.
    out_cursor: usize,
    /// Bytes of all pending frames.
    out_bytes: usize,
    /// Byte cap that enqueueing keeps to by evicting.
    high_water: usize,
    codel: CodelParams,
    codel_state: CodelState,
    /// Frames dropped for staleness since the count was last taken.
    codel_dropped: u64,
    /// Frames evicted by drop-head since the count was last taken.
    drophead_dropped: u64,
    /// The batch that the current write covers.
    writev_batch: Vec<OutFrame>,
    /// Whether the poll registration holds writable interest.
    writable_armed: bool,
    reassembly_bytes: usize,
    frame_buffer_bytes: usize,
    /// Bytes that the TLS session has taken and may not have put on the wire yet.
    tls_unflushed: usize,
    /// Change of the accounted total since it was last taken.
    inflight_delta: i64,
    /// Change of the outbound total since it was last taken.
    outbound_delta: i64,
    reported: Ghost<nat>,
    reported_out: Ghost<nat>,
}

impl View for Connection {
    type V = ConnModel;

    closed spec fn view(&self) -> ConnModel {
        ConnModel {
            state: self.state,
            in_flight: self.writev_batch@,
            queued: self.out@,
            cursor: self.out_cursor as nat,
            high_water: self.high_water as nat,
            codel: self.codel,
            codel_state: self.codel_state,
            codel_dropped: self.codel_dropped as nat,
            drophead_dropped: self.drophead_dropped as nat,
            writable_armed: self.writable_armed,
            reassembly: self.reassembly_bytes as nat,
            frame_buffer: self.frame_buffer_bytes as nat,
            tls_unflushed: self.tls_unflushed as nat,
            reported: self.reported@,
            reported_out: self.reported_out@,
        }
    }
}

impl Connection {
    /// The counters agree with the frames they count.
    pub closed spec fn wf(&self) -> bool {
        &&& self@.valid()
        &&& self.out_bytes == self@.out_bytes()
        &&& self.inflight_delta == self@.accounted() - self@.reported
        &&& self.outbound_delta == self@.outbound() - self@.reported_out
    }

    /// A connection that has just been accepted: nothing queued, CoDel disabled.
    pub fn new(high_water: usize) -> (c: Connection)
        ensures
            c.wf(),
            c@.valid(),
            c@ == ConnModel::fresh(
                high_water as nat,
                CodelParams { target_ns: 0, interval_ns: 100_000_000 },
            ),
    {
        let c = Connection {
            state: ConnState::Handshaking,
            out: VecDeque::new(),
            out_cursor: 0,
            out_bytes: 0,
            high_water,
            codel: CodelParams::disabled(),
            codel_state: CodelState::default(),
            codel_dropped: 0,
            drophead_dropped: 0,
            writev_batch: Vec::new(),
            writable_armed: false,
            reassembly_bytes: 0,
            frame_buffer_bytes: 0,
            tls_unflushed: 0,
            inflight_delta: 0,
            outbound_delta: 0,
            reported: Ghost(0nat),
            reported_out: Ghost(0nat),
        };
        assert(c@.pending() =~= Seq::<OutFrame>::empty());
        c
    }

    /// Queues a pre-encoded frame for sending, evicting the oldest droppable
    /// frames as far as needed to stay under the high-water mark.
    ///
    /// The frame that is partly on the wire is never evicted. A frame that does
    /// not fit even then is queued all the same, so that every frame stays
    /// deliverable. Returns how many frames were evicted.
    pub fn queue(&mut self, frame: Arc<[u8]>, now_ns: u64) -> (dropped: usize)
        requires
            old(self).wf(),
            old(self)@.in_flight.len() == 0,
            old(self)@.room(frame@.len(), 1),
        ensures
            final(self).wf(),
            final(self)@.valid(),
            evictions_for(
                old(self)@.queued,
                old(self)@.locked(),
                frame@.len(),
                old(self)@.high_water,
                dropped as nat,
            ),
            dropped == old(self)@.evicted(frame@.len()),
            final(self)@ == old(self)@.enqueued((frame, now_ns)),
            final(self)@.accounted() <= old(self)@.accounted() + frame@.len(),
            final(self)@.frame_count() == old(self)@.frame_count() + 1,
    {
        let flen: usize = frame.len();
        let mut dropped: usize = 0;
        let locked: usize = if self.out_cursor > 0 { 1 } else { 0 };
        let ghost q0 = self@.queued;
        proof {
            assert(self@.pending() =~= q0);
            assert(self.out.len() == q0.len());
            assert(drop_head(q0, locked as nat, 0) =~= q0);
        }
        while self.out_bytes + flen > self.high_water && self.out.len() > locked
            invariant
                self.wf(),
                self@.in_flight.len() == 0,
                q0 == old(self)@.queued,
                locked == old(self)@.locked(),
                flen == frame@.len(),
                old(self)@.accounted() + flen <= isize::MAX,
                self@.accounted() <= old(self)@.accounted(),
                old(self)@.frame_count() < u64::MAX,
                self@.frame_count() == old(self)@.frame_count(),
                dropped == 0 || locked + dropped <= q0.len(),
                dropped <= q0.len() <= usize::MAX,
                dropped > 0 ==> total_len(drop_head(q0, locked as nat, (dropped - 1) as nat)) + flen
                    > old(self)@.high_water,
                self@ == (ConnModel {
                    queued: drop_head(q0, locked as nat, dropped as nat),
                    drophead_dropped: old(self)@.drophead_dropped + dropped as nat,
                    ..old(self)@
                }),
            decreases self@.queued.len(),
        {
            let ghost q = self@.queued;
            assert(self@.pending() =~= q);
            assert(locked + dropped <= q0.len() && q.len() == q0.len() - dropped) by {
                if dropped == 0 {
                    assert(q =~= q0);
                }
            }
            assert(drop_head(q0, locked as nat, (dropped + 1) as nat) =~= q.remove(locked as int));
            match self.out.remove(locked) {
                Some(victim) => {
                    proof {
                        lemma_total_remove(q, locked as int);
                    }
                    self.out_bytes = self.out_bytes - victim.0.len();
                    self.inflight_delta = self.inflight_delta - victim.0.len() as i64;
                    self.outbound_delta = self.outbound_delta - victim.0.len() as i64;
                    assert(self@.pending() =~= self@.queued);
                    self.drophead_dropped = self.drophead_dropped + 1;
                    dropped = dropped + 1;
                },
                None => {},
            }
        }
        let ghost q = self@.queued;
        proof {
            assert(self@.pending() =~= q);
            lemma_total_push(q, (frame, now_ns));
            if locked + dropped >= q0.len() && dropped > 0 {
                assert(locked + dropped == q0.len());
            }
            assert(evictions_for(
                old(self)@.queued,
                old(self)@.locked(),
                flen as nat,
                old(self)@.high_water,
                dropped as nat,
            ));
            lemma_evictions_unique(
                q0,
                locked as nat,
                flen as nat,
                self@.high_water,
                dropped as nat,
                old(self)@.evicted(flen as nat),
            );
        }
        self.out_bytes = self.out_bytes + flen;
        self.inflight_delta = self.inflight_delta + flen as i64;
        self.outbound_delta = self.outbound_delta + flen as i64;
        self.out.push_back((frame, now_ns));
        assert(self@.pending() =~= q.push((frame, now_ns)));
        dropped
    }

    /// Whether `frames` more frames of `bytes` bytes together can be queued.
    pub fn has_room(&self, bytes: usize, frames: u64) -> (b: bool)
        requires
            self.wf(),
        ensures
            b == self@.room(bytes as nat, frames as nat),
    {
        let held: usize = self.accounted_bytes();
        let count: u128 = self.out.len() as u128 + self.writev_batch.len() as u128
            + self.codel_dropped as u128 + self.drophead_dropped as u128;
        bytes <= isize::MAX as usize - held && count
            + frames as u128 <= u64::MAX as u128
    }

    /// The freshness check, run before a frame joins a write batch.
    ///
    /// `front_locked` says that the partly written frame is still the queue's
    /// front; once the gather has taken it, the frames behind it are checked as
    /// usual.
    pub fn codel_dequeue(&mut self, front_locked: bool, now_ns: u64)
        requires
            old(self).wf(),
            old(self)@.cursor > 0 && !front_locked ==> old(self)@.in_flight.len() > 0,
        ensures
            final(self).wf(),
            final(self)@.valid(),
            final(self)@ == old(self)@.codel_checked(front_locked, now_ns),
            final(self)@.frame_count() == old(self)@.frame_count(),
            final(self)@.out_bytes() <= old(self)@.out_bytes(),
    {
        let ghost m0 = self@;
        proof {
            codel_keeps_the_newest(m0.queued, front_locked, m0.codel, m0.codel_state, now_ns);
            assert(m0.queued.skip(0) =~= m0.queued);
        }
        if !self.codel.enabled() {
            return;
        }
        let two_target: u64 = if self.codel.target_ns > u64::MAX / 2 {
            u64::MAX
        } else {
            self.codel.target_ns * 2
        };
        let ghost mut d: nat = 0;
        loop
            invariant
                self.wf(),
                m0 == old(self)@,
                m0.codel.target_ns != 0,
                two_target == m0.codel.stale_after(),
                m0.cursor > 0 && !front_locked ==> m0.in_flight.len() > 0,
                d <= m0.queued.len(),
                m0.queued.len() > 0 ==> d < m0.queued.len(),
                front_locked ==> d == 0,
                self@ == (ConnModel {
                    queued: m0.queued.skip(d as int),
                    codel_state: self@.codel_state,
                    codel_dropped: m0.codel_dropped + d,
                    ..m0
                }),
                self@.frame_count() == m0.frame_count(),
                self@.out_bytes() <= m0.out_bytes(),
                codel_run(m0.queued, front_locked, m0.codel, m0.codel_state, now_ns) == (CodelRun {
                    dropped: d + codel_run(
                        self@.queued,
                        front_locked,
                        m0.codel,
                        self@.codel_state,
                        now_ns,
                    ).dropped,
                    state: codel_run(
                        self@.queued,
                        front_locked,
                        m0.codel,
                        self@.codel_state,
                        now_ns,
                    ).state,
                }),
            decreases self@.queued.len(),
        {
            let ghost q = self@.queued;
            let ghost infl = self@.in_flight;
            if self.out.len() == 0 {
                self.codel_state.age_empty(self.codel, now_ns);
                assert(m0.queued.skip(d as int) =~= m0.queued.skip(
                    codel_run(m0.queued, front_locked, m0.codel, m0.codel_state, now_ns).dropped as int,
                ));
                return;
            }
            let enqueue_ns: u64 = self.out[0].1;
            let sojourn: u64 = now_ns.saturating_sub(enqueue_ns);
            self.codel_state.note_interval(self.codel, now_ns, sojourn);
            if front_locked {
                return;
            }
            if self.codel_state.overloaded && sojourn > two_target && self.out.len() > 1 {
                match self.out.pop_front() {
                    Some(victim) => {
                        proof {
                            assert(self.out@ =~= q.drop_first());
                            assert(q.drop_first() =~= m0.queued.skip(d as int + 1));
                            lemma_total_concat(infl, q);
                            lemma_total_concat(infl, q.drop_first());
                        }
                        self.out_bytes = self.out_bytes - victim.0.len();
                        self.inflight_delta = self.inflight_delta - victim.0.len() as i64;
                        self.outbound_delta = self.outbound_delta - victim.0.len() as i64;
                        self.codel_dropped = self.codel_dropped + 1;
                        proof {
                            d = d + 1;
                            if infl.len() > 0 {
                                assert((infl + q.drop_first())[0] == (infl + q)[0]);
                            }
                        }
                    },
                    None => {},
                }
            } else {
                return;
            }
        }
    }

    /// Runs the freshness check and moves the next batch of frames out of the
    /// queue, at most [`WRITEV_MAX_SLICES`] of them and at most `max_bytes`
    /// unwritten bytes beyond the first. Returns `false` when the queue is empty:
    /// the flush is then complete with [`WriteStatus::Drained`].
    pub fn flush_gather(&mut self, max_bytes: usize, now_ns: u64) -> (has_batch: bool)
        requires
            old(self).wf(),
            old(self)@.in_flight.len() == 0,
        ensures
            final(self).wf(),
            final(self)@.valid(),
            final(self)@ == old(self)@.batch_gathered(max_bytes as nat, now_ns),
            has_batch == (final(self)@.in_flight.len() > 0),
            has_batch <==> old(self)@.queued.len() > 0,
            final(self)@.frame_count() == old(self)@.frame_count(),
            final(self)@.out_bytes() <= old(self)@.out_bytes(),
    {
        let ghost m0 = self@;
        let locked: bool = self.out_cursor > 0;
        self.codel_dequeue(locked, now_ns);
        let ghost m = self@;
        proof {
            codel_keeps_the_newest(m0.queued, locked, m0.codel, m0.codel_state, now_ns);
            assert(m.in_flight =~= Seq::<OutFrame>::empty());
            if locked {
                assert(m.queued =~= m0.queued);
            }
        }
        let mut batch_bytes: usize = 0;
        let mut more: bool = true;
        while more && self.out.len() > 0
            invariant
                self.wf(),
                m.in_flight == Seq::<OutFrame>::empty(),
                m.queued.len() > 0 ==> self@.pending().len() > 0,
                self@.in_flight.len() == 0 ==> self@ == m && batch_bytes == 0,
                self@.in_flight.len() == 0 ==> more,
                batch_bytes <= total_len(self@.in_flight),
                self@ == (ConnModel {
                    in_flight: self@.in_flight,
                    queued: self@.queued,
                    codel_state: self@.codel_state,
                    codel_dropped: self@.codel_dropped,
                    ..m
                }),
                m.codel_dropped <= self@.codel_dropped,
                self@.frame_count() == m.frame_count(),
                self@.out_bytes() <= m.out_bytes(),
                gather(
                    Seq::empty(),
                    0,
                    m.queued,
                    m.cursor,
                    m.codel,
                    m.codel_state,
                    0,
                    max_bytes as nat,
                    now_ns,
                ) == gather(
                    self@.in_flight,
                    batch_bytes as nat,
                    self@.queued,
                    m.cursor,
                    m.codel,
                    self@.codel_state,
                    (self@.codel_dropped - m.codel_dropped) as nat,
                    max_bytes as nat,
                    now_ns,
                ),
                !more ==> gather(
                    self@.in_flight,
                    batch_bytes as nat,
                    self@.queued,
                    m.cursor,
                    m.codel,
                    self@.codel_state,
                    (self@.codel_dropped - m.codel_dropped) as nat,
                    max_bytes as nat,
                    now_ns,
                ) == (Gathered {
                    batch: self@.in_flight,
                    rest: self@.queued,
                    state: self@.codel_state,
                    dropped: (self@.codel_dropped - m.codel_dropped) as nat,
                }),
            decreases self@.queued.len(), (if more { 1int } else { 0int }),
        {
            let ghost q = self@.queued;
            let ghost infl = self@.in_flight;
            let first: bool = self.writev_batch.len() == 0;
            let flen: usize = self.out[0].0.len();
            proof {
                lemma_total_concat(infl, q);
                lemma_total_member(q, 0);
                if first {
                    assert(self@.pending() =~= q);
                }
            }
            let take: usize = flen - if first { self.out_cursor } else { 0 };
            assert(take == unwritten(infl.len() == 0, q[0], m.cursor));
            if !first && (self.writev_batch.len() >= WRITEV_MAX_SLICES || batch_bytes + take
                > max_bytes) {
                more = false;
            } else {
                match self.out.pop_front() {
                    Some(frame) => {
                        batch_bytes = batch_bytes + take;
                        self.writev_batch.push(frame);
                        proof {
                            assert(self.out@ =~= q.drop_first());
                            assert(self@.pending() =~= infl + q);
                            lemma_total_push(infl, q[0]);
                            codel_keeps_the_newest(
                                q.drop_first(),
                                false,
                                m.codel,
                                self@.codel_state,
                                now_ns,
                            );
                        }
                        self.codel_dequeue(false, now_ns);
                    },
                    None => {},
                }
            }
        }
        self.writev_batch.len() > 0
    }

    /// Applies the outcome of writing the batch in flight.
    ///
    /// A write of `n > 0` bytes completes whole frames from the front and leaves
    /// the cursor inside the first incomplete one; what is not complete goes back
    /// to the front of the queue and the flush goes on. Every other outcome puts
    /// the batch back untouched: an interrupted call is tried again, a full send
    /// buffer ends the flush with [`WriteStatus::WouldBlock`], a zero-length write
    /// or a failure with [`WriteStatus::Closed`].
    pub fn flush_apply(&mut self, outcome: BatchOutcome) -> (next: FlushNext)
        requires
            old(self).wf(),
            old(self)@.in_flight.len() > 0,
        ensures
            final(self).wf(),
            final(self)@.valid(),
            final(self)@.in_flight.len() == 0,
            match outcome {
                BatchOutcome::Wrote(n) => if n > 0 {
                    &&& next == FlushNext::Again
                    &&& final(self)@ == old(self)@.written(n as nat)
                } else {
                    &&& next == FlushNext::Done(WriteStatus::Closed)
                    &&& final(self)@ == old(self)@.restored()
                },
                BatchOutcome::WouldBlock => {
                    &&& next == FlushNext::Done(WriteStatus::WouldBlock)
                    &&& final(self)@ == old(self)@.restored()
                },
                BatchOutcome::Interrupted => {
                    &&& next == FlushNext::Again
                    &&& final(self)@ == old(self)@.restored()
                },
                BatchOutcome::Failed => {
                    &&& next == FlushNext::Done(WriteStatus::Closed)
                    &&& final(self)@ == old(self)@.restored()
                },
            },
    {
        let ghost m0 = self@;
        match outcome {
            BatchOutcome::Wrote(n) => {
                if n == 0 {
                    restore_batch(&mut self.out, &mut self.writev_batch);
                    assert(self@.pending() =~= m0.pending());
                    return FlushNext::Done(WriteStatus::Closed);
                }
                self.complete_write(n);
                FlushNext::Again
            },
            BatchOutcome::WouldBlock => {
                restore_batch(&mut self.out, &mut self.writev_batch);
                assert(self@.pending() =~= m0.pending());
                FlushNext::Done(WriteStatus::WouldBlock)
            },
            BatchOutcome::Interrupted => {
                restore_batch(&mut self.out, &mut self.writev_batch);
                assert(self@.pending() =~= m0.pending());
                FlushNext::Again
            },
            BatchOutcome::Failed => {
                restore_batch(&mut self.out, &mut self.writev_batch);
                assert(self@.pending() =~= m0.pending());
                FlushNext::Done(WriteStatus::Closed)
            },
        }
    }

    /// Applies the outcome of handing the batch in flight to a TLS session, as
    /// [`Connection::flush_apply`] does, and bills what the session has taken and not
    /// put on the wire. `wants_write` says whether it has ciphertext left to write.
    pub fn flush_apply_tls(&mut self, outcome: BatchOutcome, wants_write: bool) -> (next: FlushNext)
        requires
            old(self).wf(),
            old(self)@.in_flight.len() > 0,
            outcome matches BatchOutcome::Wrote(n) ==> old(self)@.accounted() + n <= isize::MAX,
        ensures
            final(self).wf(),
            final(self)@.valid(),
            final(self)@.in_flight.len() == 0,
            match outcome {
                BatchOutcome::Wrote(n) => if n > 0 {
                    &&& next == FlushNext::Again
                    &&& final(self)@ == old(self)@.written(n as nat).tls_noted(
                        n as nat,
                        wants_write,
                    )
                } else {
                    &&& next == FlushNext::Done(WriteStatus::Closed)
                    &&& final(self)@ == old(self)@.restored().tls_noted(0, wants_write)
                },
                BatchOutcome::WouldBlock => {
                    &&& next == FlushNext::Done(WriteStatus::WouldBlock)
                    &&& final(self)@ == old(self)@.restored().tls_noted(0, wants_write)
                },
                BatchOutcome::Interrupted => {
                    &&& next == FlushNext::Again
                    &&& final(self)@ == old(self)@.restored().tls_noted(0, wants_write)
                },
                BatchOutcome::Failed => {
                    &&& next == FlushNext::Done(WriteStatus::Closed)
                    &&& final(self)@ == old(self)@.restored().tls_noted(0, wants_write)
                },
            },
    {
        let ghost m0 = self@;
        let taken: usize = match outcome {
            BatchOutcome::Wrote(n) => n,
            _ => 0,
        };
        let next: FlushNext = self.flush_apply(outcome);
        proof {
            if taken > 0 {
                lemma_written_len(m0, taken as nat);
            } else {
                restore_undoes_gather(m0);
            }
        }
        self.note_tls(taken, wants_write);
        next
    }

    /// Takes the frames that a write of `n` bytes completes out of the batch and
    /// puts the others back. Completed frames leave the byte counters at their
    /// full lengths.
    fn complete_write(&mut self, n: usize)
        requires
            old(self).wf(),
            old(self)@.in_flight.len() > 0,
        ensures
            final(self).wf(),
            final(self)@ == old(self)@.written(n as nat),
    {
        let ghost m0 = self@;
        let ghost batch = self@.in_flight;
        let ghost c0 = self@.cursor;
        let start_cursor: usize = self.out_cursor;
        let mut left: usize = n;
        let mut gone: usize = 0;
        let mut idx: usize = 0;
        let mut more: bool = true;
        proof {
            assert(batch.skip(0) =~= batch);
            assert(batch.take(0) =~= Seq::<OutFrame>::empty());
            assert((batch + m0.queued)[0] == batch[0]);
            lemma_total_concat(batch, m0.queued);
        }
        while more && idx < self.writev_batch.len()
            invariant
                *self == *old(self),
                self.writev_batch@ == batch,
                start_cursor == c0,
                idx <= batch.len(),
                batch.len() > 0,
                c0 == 0 || c0 < frame_len(batch[0]),
                gone == total_len(batch.take(idx as int)),
                total_len(batch) <= isize::MAX,
                completed(batch, c0, n as nat) == idx + completed(
                    batch.skip(idx as int),
                    if idx == 0 { c0 } else { 0 },
                    left as nat,
                ),
                cursor_after(batch, c0, n as nat) == cursor_after(
                    batch.skip(idx as int),
                    if idx == 0 { c0 } else { 0 },
                    left as nat,
                ),
                !more ==> idx < batch.len() && left < unwritten(
                    true,
                    batch[idx as int],
                    if idx == 0 { c0 } else { 0 },
                ),
            decreases batch.len() - idx, (if more { 1int } else { 0int }),
        {
            let ghost rest = batch.skip(idx as int);
            assert(rest[0] == batch[idx as int]);
            assert(rest.drop_first() =~= batch.skip(idx + 1));
            let flen: usize = self.writev_batch[idx].0.len();
            let rem: usize = flen - if idx == 0 { start_cursor } else { 0 };
            if left < rem {
                more = false;
            } else {
                proof {
                    assert(batch.take(idx + 1) =~= batch.take(idx as int).push(batch[idx as int]));
                    lemma_total_push(batch.take(idx as int), batch[idx as int]);
                    assert(batch =~= batch.take(idx + 1) + batch.skip(idx + 1));
                    lemma_total_concat(batch.take(idx + 1), batch.skip(idx + 1));
                }
                left = left - rem;
                gone = gone + flen;
                idx = idx + 1;
            }
        }
        proof {
            if idx == batch.len() {
                assert(batch.skip(idx as int) =~= Seq::<OutFrame>::empty());
            } else {
                assert(batch.skip(idx as int)[0] == batch[idx as int]);
            }
            assert(batch =~= batch.take(idx as int) + batch.skip(idx as int));
            lemma_total_concat(batch.take(idx as int), batch.skip(idx as int));
            lemma_total_concat(batch.skip(idx as int), m0.queued);
        }
        self.out_cursor = if idx == self.writev_batch.len() {
            0
        } else if idx == 0 {
            start_cursor + left
        } else {
            left
        };
        restore_tail(&mut self.out, &mut self.writev_batch, idx);
        self.out_bytes = self.out_bytes - gone;
        self.inflight_delta = self.inflight_delta - gone as i64;
        self.outbound_delta = self.outbound_delta - gone as i64;
        proof {
            assert(self@.pending() =~= batch.skip(idx as int) + m0.queued);
            if idx < batch.len() {
                assert(self@.pending()[0] == batch[idx as int]);
            }
        }
    }

    /// Number of slices in the batch in flight.
    pub fn batch_len(&self) -> (n: usize)
        ensures
            n == self@.in_flight.len(),
    {
        self.writev_batch.len()
    }

    /// The unwritten bytes of frame `i` of the batch in flight.
    pub fn batch_slice(&self, i: usize) -> (r: &[u8])
        requires
            self.wf(),
            i < self@.in_flight.len(),
        ensures
            r@ == self@.in_flight[i as int].0@.skip(if i == 0 { self@.cursor as int } else { 0 }),
    {
        let start: usize = if i == 0 { self.out_cursor } else { 0 };
        let s: &[u8] = &self.writev_batch[i].0;
        assert(self@.pending()[0] == self@.in_flight[0]);
        &s[start..s.len()]
    }

    /// Appends the unwritten bytes of the whole batch in flight to `buf`.
    pub fn batch_bytes(&self, buf: &mut Vec<u8>)
        requires
            self.wf(),
            self@.in_flight.len() > 0,
        ensures
            final(buf)@ == old(buf)@ + wire(self@.in_flight).skip(self@.cursor as int),
    {
        let ghost batch = self@.in_flight;
        let ghost c = self@.cursor as int;
        let mut i: usize = 0;
        proof {
            assert(self@.pending()[0] == batch[0]);
            assert(batch.take(1) =~= seq![batch[0]]);
            assert(batch.take(0) =~= Seq::<OutFrame>::empty());
        }
        while i < self.writev_batch.len()
            invariant
                self.wf(),
                batch == self@.in_flight,
                c == self@.cursor,
                batch == self.writev_batch@,
                batch.len() > 0,
                c <= frame_len(batch[0]),
                i <= batch.len(),
                i == 0 ==> buf@ == old(buf)@,
                i > 0 ==> buf@ == old(buf)@ + wire(batch.take(i as int)).skip(c),
                i > 0 ==> c <= wire(batch.take(i as int)).len(),
            decreases batch.len() - i,
        {
            let ghost had = buf@;
            buf.extend_from_slice(self.batch_slice(i));
            proof {
                let before = batch.take(i as int);
                let one = seq![batch[i as int]];
                assert(batch.take(i + 1) =~= before + one);
                lemma_wire_concat(before, one);
                assert(one.drop_first() =~= Seq::<OutFrame>::empty());
                assert(wire(one.drop_first()) =~= Seq::<u8>::empty());
                assert(wire(one) =~= batch[i as int].0@);
                if i == 0 {
                    assert(before =~= Seq::<OutFrame>::empty());
                    assert(wire(batch.take(1)) =~= batch[0].0@);
                } else {
                    assert(batch[i as int].0@.skip(0) =~= batch[i as int].0@);
                    assert(buf@ =~= old(buf)@ + (wire(before).skip(c) + wire(one)));
                    assert((wire(before) + wire(one)).skip(c) =~= wire(before).skip(c) + wire(one));
                }
            }
            i = i + 1;
        }
        assert(batch.take(i as int) =~= batch);
    }

    /// Installs this connection's CoDel parameters.
    pub fn set_codel(&mut self, codel: CodelParams)
        requires
            old(self).wf(),
        ensures
            final(self).wf(),
            final(self)@ == (ConnModel { codel, ..old(self)@ }),
    {
        self.codel = codel;
    }

    /// Frames dropped for staleness since the count was last taken.
    pub fn codel_dropped(&self) -> (n: u64)
        ensures
            n == self@.codel_dropped,
    {
        self.codel_dropped
    }

    /// Takes and resets the count of frames dropped for staleness.
    pub fn take_codel_dropped(&mut self) -> (n: u64)
        requires
            old(self).wf(),
        ensures
            final(self).wf(),
            n == old(self)@.codel_dropped,
            final(self)@ == (ConnModel { codel_dropped: 0, ..old(self)@ }),
    {
        let n: u64 = self.codel_dropped;
        self.codel_dropped = 0;
        n
    }

    /// Frames evicted by drop-head since the count was last taken.
    pub fn drophead_dropped(&self) -> (n: u64)
        ensures
            n == self@.drophead_dropped,
    {
        self.drophead_dropped
    }

    /// Takes and resets the count of frames evicted by drop-head.
    pub fn take_drophead_dropped(&mut self) -> (n: u64)
        requires
            old(self).wf(),
        ensures
            final(self).wf(),
            n == old(self)@.drophead_dropped,
            final(self)@ == (ConnModel { drophead_dropped: 0, ..old(self)@ }),
    {
        let n: u64 = self.drophead_dropped;
        self.drophead_dropped = 0;
        n
    }

    /// Takes the change of the accounted total since the last call.
    pub fn take_inflight_delta(&mut self) -> (d: i64)
        requires
            old(self).wf(),
        ensures
            final(self).wf(),
            d == old(self)@.accounted() - old(self)@.reported,
            final(self)@ == (ConnModel { reported: old(self)@.accounted(), ..old(self)@ }),
    {
        let d: i64 = self.inflight_delta;
        self.inflight_delta = 0;
        self.reported = Ghost(self@.accounted());
        d
    }

    /// Takes the change of the outbound total since the last call.
    pub fn take_outbound_delta(&mut self) -> (d: i64)
        requires
            old(self).wf(),
        ensures
            final(self).wf(),
            d == old(self)@.outbound() - old(self)@.reported_out,
            final(self)@ == (ConnModel { reported_out: old(self)@.outbound(), ..old(self)@ }),
    {
        let d: i64 = self.outbound_delta;
        self.outbound_delta = 0;
        self.reported_out = Ghost(self@.outbound());
        d
    }

    /// Bills `n` bytes held for a fragmented inbound message in place of what was
    /// billed before.
    pub fn set_reassembly_bytes(&mut self, n: usize)
        requires
            old(self).wf(),
            old(self)@.accounted() - old(self)@.reassembly + n <= isize::MAX,
        ensures
            final(self).wf(),
            final(self)@ == (ConnModel { reassembly: n as nat, ..old(self)@ }),
    {
        assert(self@.accounted() <= isize::MAX);
        self.inflight_delta = self.inflight_delta + (n as i64 - self.reassembly_bytes as i64);
        self.reassembly_bytes = n;
    }

    /// Bytes billed for a fragmented inbound message.
    pub fn reassembly_bytes(&self) -> (n: usize)
        ensures
            n == self@.reassembly,
    {
        self.reassembly_bytes
    }

    /// Bills `n` bytes held for an incomplete inbound frame in place of what was
    /// billed before.
    pub fn set_frame_buffer_bytes(&mut self, n: usize)
        requires
            old(self).wf(),
            old(self)@.accounted() - old(self)@.frame_buffer + n <= isize::MAX,
        ensures
            final(self).wf(),
            final(self)@ == (ConnModel { frame_buffer: n as nat, ..old(self)@ }),
    {
        assert(self@.accounted() <= isize::MAX);
        self.inflight_delta = self.inflight_delta + (n as i64 - self.frame_buffer_bytes as i64);
        self.frame_buffer_bytes = n;
    }

    /// Bytes billed for an incomplete inbound frame.
    pub fn frame_buffer_bytes(&self) -> (n: usize)
        ensures
            n == self@.frame_buffer,
    {
        self.frame_buffer_bytes
    }

    /// Bills what the TLS session has taken of the queue: `taken` more bytes while it
    /// has ciphertext left to write, and nothing once it has none.
    pub fn note_tls(&mut self, taken: usize, wants_write: bool)
        requires
            old(self).wf(),
            wants_write ==> old(self)@.accounted() + taken <= isize::MAX,
        ensures
            final(self).wf(),
            final(self)@.valid(),
            final(self)@ == old(self)@.tls_noted(taken as nat, wants_write),
    {
        let n: usize = if wants_write {
            self.tls_unflushed + taken
        } else {
            0
        };
        let change: i64 = n as i64 - self.tls_unflushed as i64;
        self.inflight_delta = self.inflight_delta + change;
        self.outbound_delta = self.outbound_delta + change;
        self.tls_unflushed = n;
        assert(self@.pending() == old(self)@.pending());
    }

    /// Bytes billed for what the TLS session has not put on the wire.
    pub fn tls_unflushed(&self) -> (n: usize)
        ensures
            n == self@.tls_unflushed,
    {
        self.tls_unflushed
    }

    /// Whether there is anything to write.
    pub fn owes(&self) -> (b: bool)
        ensures
            b == self@.owes(),
    {
        self.out.len() > 0 || self.tls_unflushed > 0
    }

    /// Everything this connection holds against its worker's byte budget.
    pub fn accounted_bytes(&self) -> (n: usize)
        requires
            self.wf(),
        ensures
            n == self@.accounted(),
            n <= isize::MAX,
    {
        assert(self@.accounted() <= isize::MAX);
        self.out_bytes + self.tls_unflushed + self.reassembly_bytes + self.frame_buffer_bytes
    }

    /// Bytes owed to the peer: queued frames and what the TLS session has not put on
    /// the wire, inbound buffers left out.
    pub fn outbound_bytes(&self) -> (n: usize)
        requires
            self.wf(),
        ensures
            n == self@.outbound(),
    {
        assert(self@.accounted() <= isize::MAX);
        self.out_bytes + self.tls_unflushed
    }

    /// Total bytes of all pending frames.
    pub fn out_bytes(&self) -> (n: usize)
        requires
            self.wf(),
        ensures
            n == self@.out_bytes(),
    {
        self.out_bytes
    }

    /// Whether any outbound frame is still queued.
    pub fn has_pending_writes(&self) -> (b: bool)
        ensures
            b == (self@.queued.len() > 0),
    {
        self.out.len() > 0
    }

    /// Whether the poll registration currently holds writable interest.
    pub fn writable_armed(&self) -> (b: bool)
        ensures
            b == self@.writable_armed,
    {
        self.writable_armed
    }

    /// Records whether the poll registration holds writable interest.
    pub fn set_writable_armed(&mut self, armed: bool)
        requires
            old(self).wf(),
        ensures
            final(self).wf(),
            final(self)@ == (ConnModel { writable_armed: armed, ..old(self)@ }),
    {
        self.writable_armed = armed;
    }

    /// The byte cap that enqueueing keeps to.
    pub fn high_water(&self) -> (n: usize)
        ensures
            n == self@.high_water,
    {
        self.high_water
    }

    /// Current lifecycle state.
    pub fn state(&self) -> (s: ConnState)
        ensures
            s == self@.state,
    {
        self.state
    }

    /// Moves the connection to another lifecycle state.
    pub fn set_state(&mut self, state: ConnState)
        requires
            old(self).wf(),
        ensures
            final(self).wf(),
            final(self)@ == (ConnModel { state, ..old(self)@ }),
    {
        self.state = state;
    }

    /// Number of frames currently queued.
    pub fn queued_len(&self) -> (n: usize)
        ensures
            n == self@.queued.len(),
    {
        self.out.len()
    }

    /// How much of the oldest frame is on the wire.
    pub fn out_cursor(&self) -> (n: usize)
        ensures
            n == self@.cursor,
    {
        self.out_cursor
    }

    /// The queued frame at position `i`, oldest first.
    pub fn queued_frame(&self, i: usize) -> (f: &[u8])
        requires
            i < self@.queued.len(),
        ensures
            f@ == self@.queued[i as int].0@,
    {
        &self.out[i].0
    }

    /// The first byte of the oldest queued frame.
    pub fn peek_front_byte(&self) -> (b: u8)
        requires
            self@.queued.len() > 0,
            self@.queued[0].0@.len() > 0,
        ensures
            b == self@.queued[0].0@[0],
    {
        self.queued_frame(0)[0]
    }

    /// The first byte of the newest queued frame.
    pub fn peek_back_byte(&self) -> (b: u8)
        requires
            self@.queued.len() > 0,
            self@.queued.last().0@.len() > 0,
        ensures
            b == self@.queued.last().0@[0],
    {
        self.queued_frame(self.out.len() - 1)[0]
    }

    /// Whether stale frames are currently dropped on dequeue.
    pub fn is_overloaded(&self) -> (b: bool)
        ensures
            b == self@.codel_state.overloaded,
    {
        self.codel_state.overloaded
    }

    /// The accounted total stays within what a machine can address.
    pub proof fn wf_is_valid(&self)
        requires
            self.wf(),
        ensures
            self@.valid(),
    {
    }
}

proof fn lemma_completed(batch: Seq<OutFrame>, cursor: nat, n: nat)
    requires
        batch.len() > 0 ==> cursor <= frame_len(batch[0]),
        batch.len() == 0 ==> cursor == 0,
    ensures
        completed(batch, cursor, n) <= batch.len(),
        completed(batch, cursor, n) == batch.len() ==> cursor_after(batch, cursor, n) == 0,
        completed(batch, cursor, n) < batch.len() ==> cursor_after(batch, cursor, n) < frame_len(
            batch[completed(batch, cursor, n) as int],
        ),
        cursor + n <= total_len(batch) ==> wire(batch.skip(completed(batch, cursor, n) as int)).skip(
            cursor_after(batch, cursor, n) as int,
        ) =~= wire(batch).skip((cursor + n) as int),
    decreases batch.len(),
{
    lemma_wire_len(batch);
    if batch.len() == 0 {
        assert(batch.skip(0) =~= batch);
    } else {
        let first = frame_len(batch[0]);
        let rem = (first - cursor) as nat;
        if n < rem {
            assert(batch.skip(0) =~= batch);
        } else {
            let rest = batch.drop_first();
            lemma_completed(rest, 0, (n - rem) as nat);
            lemma_wire_len(rest);
            let k = completed(rest, 0, (n - rem) as nat);
            assert(batch.skip(k as int + 1) =~= rest.skip(k as int));
            if cursor + n <= total_len(batch) {
                assert(wire(batch).skip((cursor + n) as int) =~= wire(rest).skip((n - rem) as int));
            }
        }
    }
}

/// Writing takes bytes off the front of the unsent stream and nothing else: the
/// peer receives every pending byte once and in order, however the writes fall
/// across frame boundaries.
pub proof fn write_conserves_stream(m: ConnModel, n: nat)
    requires
        m.valid(),
        m.in_flight.len() > 0,
        m.cursor + n <= total_len(m.in_flight),
    ensures
        m.unsent() == m.unsent().take(n as int) + m.written(n).unsent(),
        m.written(n).valid(),
        m.written(n).out_bytes() <= m.out_bytes(),
{
    let k = completed(m.in_flight, m.cursor, n);
    let left = m.in_flight.skip(k as int);
    assert(m.pending()[0] == m.in_flight[0]);
    lemma_completed(m.in_flight, m.cursor, n);
    lemma_wire_concat(m.in_flight, m.queued);
    lemma_wire_concat(left, m.queued);
    lemma_wire_len(m.in_flight);
    lemma_wire_len(left);
    lemma_wire_len(m.queued);
    let w = m.written(n);
    assert(w.pending() =~= left + m.queued);
    lemma_total_concat(left, m.queued);
    lemma_total_concat(m.in_flight, m.queued);
    assert(m.in_flight =~= m.in_flight.take(k as int) + left);
    lemma_total_concat(m.in_flight.take(k as int), left);
    if k < m.in_flight.len() {
        assert(w.pending()[0] == m.in_flight[k as int]);
        lemma_total_member(left, 0);
    }
    assert(w.unsent() =~= wire(left).skip(w.cursor as int) + wire(m.queued));
    assert(m.unsent().skip(n as int) =~= wire(m.in_flight).skip((m.cursor + n) as int) + wire(
        m.queued,
    ));
    assert(m.unsent() =~= m.unsent().take(n as int) + m.unsent().skip(n as int));
}

/// A write never lengthens what is pending.
proof fn lemma_written_len(m: ConnModel, n: nat)
    requires
        m.valid(),
        m.in_flight.len() > 0,
    ensures
        m.written(n).out_bytes() <= m.out_bytes(),
{
    let k = completed(m.in_flight, m.cursor, n);
    let left = m.in_flight.skip(k as int);
    assert(m.pending()[0] == m.in_flight[0]);
    lemma_completed(m.in_flight, m.cursor, n);
    assert(m.written(n).pending() =~= left + m.queued);
    lemma_total_concat(left, m.queued);
    lemma_total_concat(m.in_flight, m.queued);
    assert(m.in_flight =~= m.in_flight.take(k as int) + left);
    lemma_total_concat(m.in_flight.take(k as int), left);
}

/// Bytes that pass from the queue to a TLS session with ciphertext left to write are
/// still owed: what is unsent and what the session holds add up to the same, and the
/// connection owes something until the session has nothing left to write.
pub proof fn the_tls_session_loses_nothing(m: ConnModel, n: nat)
    requires
        m.valid(),
        m.in_flight.len() > 0,
        m.cursor + n <= total_len(m.in_flight),
    ensures
        ({
            let w = m.written(n).tls_noted(n, true);
            &&& w.unsent().len() + w.tls_unflushed == m.unsent().len() + m.tls_unflushed
            &&& n > 0 ==> w.owes() && w.outbound() > 0
        }),
        !m.written(n).tls_noted(n, false).owes() <==> m.written(n).queued.len() == 0,
{
    write_conserves_stream(m, n);
    let w = m.written(n).tls_noted(n, true);
    assert(w.pending() == m.written(n).pending());
    lemma_wire_concat(m.in_flight, m.queued);
    lemma_wire_len(m.in_flight);
}

/// Putting a batch back undoes the gather: the same frames are pending in the
/// same order, with the same bytes unsent.
pub proof fn restore_undoes_gather(m: ConnModel)
    requires
        m.valid(),
    ensures
        m.restored().pending() == m.pending(),
        m.restored().unsent() == m.unsent(),
        m.restored().accounted() == m.accounted(),
        m.restored().valid(),
{
    assert(m.restored().pending() =~= m.pending());
}

proof fn lemma_gather_counts(
    batch: Seq<OutFrame>,
    bytes: nat,
    rest: Seq<OutFrame>,
    cursor: nat,
    codel: CodelParams,
    state: CodelState,
    dropped: nat,
    max_bytes: nat,
    now: u64,
)
    requires
        batch.len() <= WRITEV_MAX_SLICES,
    ensures
        ({
            let g = gather(batch, bytes, rest, cursor, codel, state, dropped, max_bytes, now);
            &&& batch.len() <= g.batch.len() <= WRITEV_MAX_SLICES
            &&& rest.len() > 0 && batch.len() == 0 ==> g.batch.len() > 0
            &&& g.batch.len() + g.rest.len() + g.dropped == batch.len() + rest.len() + dropped
            &&& forall|i: int| 0 <= i < batch.len() ==> g.batch[i] == batch[i]
            &&& rest.len() > 0 && batch.len() == 0 ==> g.batch[0] == rest[0]
        }),
    decreases rest.len(),
{
    if rest.len() > 0 {
        let take = unwritten(batch.len() == 0, rest[0], cursor);
        if batch.len() > 0 && (batch.len() >= WRITEV_MAX_SLICES || bytes + take > max_bytes) {
        } else {
            let behind = rest.drop_first();
            codel_keeps_the_newest(behind, false, codel, state, now);
            let run = codel_run(behind, false, codel, state, now);
            let more = batch.push(rest[0]);
            lemma_gather_counts(
                more,
                bytes + take,
                behind.skip(run.dropped as int),
                cursor,
                codel,
                run.state,
                dropped + run.dropped,
                max_bytes,
                now,
            );
            let g = gather(batch, bytes, rest, cursor, codel, state, dropped, max_bytes, now);
            assert(more[batch.len() as int] == rest[0]);
            assert forall|i: int| 0 <= i < batch.len() implies g.batch[i] == batch[i] by {
                assert(more[i] == batch[i]);
            }
        }
    }
}

proof fn lemma_gather_newest(
    batch: Seq<OutFrame>,
    bytes: nat,
    rest: Seq<OutFrame>,
    cursor: nat,
    codel: CodelParams,
    state: CodelState,
    dropped: nat,
    max_bytes: nat,
    now: u64,
)
    requires
        rest.len() > 0,
    ensures
        ({
            let g = gather(batch, bytes, rest, cursor, codel, state, dropped, max_bytes, now);
            (g.batch + g.rest).last() == rest.last()
        }),
    decreases rest.len(),
{
    let take = unwritten(batch.len() == 0, rest[0], cursor);
    if batch.len() > 0 && (batch.len() >= WRITEV_MAX_SLICES || bytes + take > max_bytes) {
    } else {
        let behind = rest.drop_first();
        codel_keeps_the_newest(behind, false, codel, state, now);
        let run = codel_run(behind, false, codel, state, now);
        let next = behind.skip(run.dropped as int);
        if next.len() > 0 {
            lemma_gather_newest(
                batch.push(rest[0]),
                bytes + take,
                next,
                cursor,
                codel,
                run.state,
                dropped + run.dropped,
                max_bytes,
                now,
            );
            assert(next.last() == rest.last());
        } else {
            assert(rest.len() == 1);
        }
    }
}

proof fn lemma_gather_disabled(
    batch: Seq<OutFrame>,
    bytes: nat,
    rest: Seq<OutFrame>,
    cursor: nat,
    codel: CodelParams,
    state: CodelState,
    dropped: nat,
    max_bytes: nat,
    now: u64,
)
    requires
        codel.target_ns == 0,
    ensures
        ({
            let g = gather(batch, bytes, rest, cursor, codel, state, dropped, max_bytes, now);
            g.batch + g.rest == batch + rest
        }),
    decreases rest.len(),
{
    if rest.len() > 0 {
        let take = unwritten(batch.len() == 0, rest[0], cursor);
        if batch.len() > 0 && (batch.len() >= WRITEV_MAX_SLICES || bytes + take > max_bytes) {
        } else {
            let behind = rest.drop_first();
            assert(behind.skip(0) =~= behind);
            lemma_gather_disabled(
                batch.push(rest[0]),
                bytes + take,
                behind,
                cursor,
                codel,
                state,
                dropped,
                max_bytes,
                now,
            );
            assert(batch.push(rest[0]) + behind =~= batch + rest);
        }
    }
}

proof fn lemma_gather_bytes(
    batch: Seq<OutFrame>,
    bytes: nat,
    rest: Seq<OutFrame>,
    cursor: nat,
    codel: CodelParams,
    state: CodelState,
    dropped: nat,
    max_bytes: nat,
    now: u64,
)
    requires
        batch.len() > 0,
        total_len(batch) == bytes + cursor,
    ensures
        ({
            let g = gather(batch, bytes, rest, cursor, codel, state, dropped, max_bytes, now);
            g.batch == batch || total_len(g.batch) <= max_bytes + cursor
        }),
    decreases rest.len(),
{
    if rest.len() > 0 {
        let take = unwritten(false, rest[0], cursor);
        if batch.len() >= WRITEV_MAX_SLICES || bytes + take > max_bytes {
        } else {
            let behind = rest.drop_first();
            codel_keeps_the_newest(behind, false, codel, state, now);
            let run = codel_run(behind, false, codel, state, now);
            lemma_total_push(batch, rest[0]);
            lemma_gather_bytes(
                batch.push(rest[0]),
                bytes + take,
                behind.skip(run.dropped as int),
                cursor,
                codel,
                run.state,
                dropped + run.dropped,
                max_bytes,
                now,
            );
        }
    }
}

proof fn lemma_batch_bytes(m: ConnModel, c: ConnModel, max_bytes: nat, now: u64)
    requires
        m.valid(),
        m.in_flight.len() == 0,
        c == m.codel_checked(m.cursor > 0, now),
        c.queued.len() > 0,
        m.cursor > 0 ==> c.queued == m.queued,
    ensures
        ({
            let g = m.batch_gathered(max_bytes, now);
            g.in_flight.len() > 1 ==> total_len(g.in_flight) <= max_bytes + m.cursor
        }),
{
    assert(m.pending() =~= m.queued);
    let none = Seq::<OutFrame>::empty();
    let first = c.queued[0];
    let behind = c.queued.drop_first();
    codel_keeps_the_newest(behind, false, c.codel, c.codel_state, now);
    let run = codel_run(behind, false, c.codel, c.codel_state, now);
    assert(none.push(first) =~= seq![first]);
    lemma_total_one(first);
    lemma_gather_bytes(
        none.push(first),
        unwritten(true, first, m.cursor),
        behind.skip(run.dropped as int),
        c.cursor,
        c.codel,
        run.state,
        run.dropped,
        max_bytes,
        now,
    );
}

/// Gathering a batch respects both limits, keeps the partly written front first,
/// keeps the newest frame, and accounts for every frame: what is no longer
/// pending was counted as dropped for staleness. With CoDel disabled nothing is
/// dropped at all.
pub proof fn gather_keeps_what_matters(m: ConnModel, max_bytes: nat, now: u64)
    requires
        m.valid(),
        m.in_flight.len() == 0,
    ensures
        ({
            let g = m.batch_gathered(max_bytes, now);
            &&& g.in_flight.len() > 0 <==> m.queued.len() > 0
            &&& g.in_flight.len() <= WRITEV_MAX_SLICES
            &&& g.in_flight.len() > 1 ==> total_len(g.in_flight) <= max_bytes + m.cursor
            &&& m.cursor > 0 ==> g.pending()[0] == m.pending()[0]
            &&& m.queued.len() > 0 ==> g.pending().last() == m.pending().last()
            &&& g.pending().len() + g.codel_dropped == m.pending().len() + m.codel_dropped
            &&& m.codel.target_ns == 0 ==> g.pending() == m.pending() && g.unsent() == m.unsent()
        }),
{
    let locked = m.cursor > 0;
    codel_keeps_the_newest(m.queued, locked, m.codel, m.codel_state, now);
    let c = m.codel_checked(locked, now);
    assert(m.pending() =~= m.queued);
    let none = Seq::<OutFrame>::empty();
    lemma_gather_counts(none, 0, c.queued, c.cursor, c.codel, c.codel_state, 0, max_bytes, now);
    if c.queued.len() > 0 {
        lemma_gather_newest(none, 0, c.queued, c.cursor, c.codel, c.codel_state, 0, max_bytes, now);
    }
    let g = m.batch_gathered(max_bytes, now);
    if m.codel.target_ns == 0 {
        assert(c.queued =~= m.queued);
        lemma_gather_disabled(
            none,
            0,
            c.queued,
            c.cursor,
            c.codel,
            c.codel_state,
            0,
            max_bytes,
            now,
        );
        assert(none + c.queued =~= c.queued);
    }
    if locked {
        assert(c.queued =~= m.queued);
    }
    if c.queued.len() > 0 {
        lemma_batch_bytes(m, c, max_bytes, now);
    }
}

/// A queued frame is always kept, the partly written front is never evicted, and
/// afterwards the queue is within its high-water mark unless only what cannot be
/// evicted is left.
pub proof fn queue_bounds_and_keeps(m: ConnModel, f: OutFrame, k: nat)
    requires
        m.valid(),
        m.in_flight.len() == 0,
        evictions_for(m.queued, m.locked(), frame_len(f), m.high_water, k),
    ensures
        ({
            let q = drop_head(m.queued, m.locked(), k).push(f);
            &&& q.last() == f
            &&& m.cursor > 0 ==> q[0] == m.queued[0]
            &&& total_len(q) <= m.high_water || q.len() <= m.locked() + 1
        }),
{
    assert(m.pending() =~= m.queued);
    lemma_total_push(drop_head(m.queued, m.locked(), k), f);
    if k == 0 {
        assert(drop_head(m.queued, m.locked(), 0) =~= m.queued);
    }
}

/// A worker that adds every change it takes to a running total keeps that total
/// equal to what the connection holds.
pub proof fn taken_changes_track_the_total(m: ConnModel, total: int)
    requires
        total == m.reported,
    ensures
        total + (m.accounted() - m.reported) == m.accounted(),
        (ConnModel { reported: m.accounted(), ..m }).reported == m.accounted(),
        (ConnModel { reported: m.accounted(), ..m }).accounted() == m.accounted(),
{
}

/// Some number of evictions makes room for a frame.
proof fn lemma_evictions_exist(
    frames: Seq<OutFrame>,
    locked: nat,
    flen: nat,
    high_water: nat,
    k: nat,
) -> (found: nat)
    requires
        k == 0 || locked + k <= frames.len(),
        k > 0 ==> total_len(drop_head(frames, locked, (k - 1) as nat)) + flen > high_water,
    ensures
        evictions_for(frames, locked, flen, high_water, found),
    decreases frames.len() - k,
{
    if total_len(drop_head(frames, locked, k)) + flen <= high_water || locked + k >= frames.len() {
        k
    } else {
        lemma_evictions_exist(frames, locked, flen, high_water, k + 1)
    }
}

/// What queueing a frame does. The frame is last in the queue; what goes is counted,
/// and is the oldest behind a partly written front; nothing goes for a frame that
/// fits, and where something does, one frame fewer would not have been enough.
/// Nothing else about the connection changes.
pub proof fn queueing_evicts_no_more_than_it_must(m: ConnModel, f: OutFrame)
    requires
        m.in_flight.len() == 0,
        m.cursor > 0 ==> m.queued.len() > 0,
    ensures
        ({
            let after = m.enqueued(f);
            let gone = after.drophead_dropped - m.drophead_dropped;
            let front: int = if m.cursor > 0 {
                1
            } else {
                0
            };
            &&& after.queued.last() == f
            &&& 0 <= gone
            &&& after.queued.len() == m.queued.len() - gone + 1
            &&& forall|i: int| 0 <= i < front ==> #[trigger] after.queued[i] == m.queued[i]
            &&& forall|i: int|
                front <= i < after.queued.len() - 1 ==> #[trigger] after.queued[i] == m.queued[i
                    + gone]
            &&& m.out_bytes() + frame_len(f) <= m.high_water ==> gone == 0
            &&& gone == 0 ==> after.out_bytes() == m.out_bytes() + frame_len(f)
            &&& after.out_bytes() <= m.high_water || after.queued.len() == front + 1
            &&& gone > 0 ==> after.out_bytes() + frame_len(m.queued[front + gone - 1])
                > m.high_water
            &&& after == (ConnModel {
                queued: after.queued,
                drophead_dropped: after.drophead_dropped,
                ..m
            })
        }),
{
    let flen = frame_len(f);
    let locked = m.locked();
    let found = lemma_evictions_exist(m.queued, locked, flen, m.high_water, 0);
    let k = m.evicted(flen);
    assert(evictions_for(m.queued, locked, flen, m.high_water, k));
    assert(m.pending() =~= m.queued);
    let after = m.enqueued(f);
    let left = drop_head(m.queued, locked, k);
    assert(after.pending() =~= left.push(f));
    lemma_total_push(left, f);
    assert(drop_head(m.queued, locked, 0) =~= m.queued);
    if k > 0 {
        let one_fewer = drop_head(m.queued, locked, (k - 1) as nat);
        assert(one_fewer[locked as int] == m.queued[locked + k - 1]);
        assert(one_fewer.remove(locked as int) =~= left);
        lemma_total_remove(one_fewer, locked as int);
    }
    if m.out_bytes() + flen <= m.high_water {
        if k > 0 {
            lemma_drop_head_shrinks(m.queued, locked, 0, (k - 1) as nat);
        }
    }
}

/// What a connection is billed for is every byte that it holds: those of its pending
/// frames, what its TLS session has not written, and what it holds of a message and
/// of a frame that are not complete.
pub proof fn every_byte_is_billed(m: ConnModel)
    ensures
        m.out_bytes() == wire(m.in_flight).len() + wire(m.queued).len(),
        m.outbound() == m.out_bytes() + m.tls_unflushed,
        m.accounted() == m.out_bytes() + m.tls_unflushed + m.reassembly + m.frame_buffer,
{
    lemma_total_concat(m.in_flight, m.queued);
    lemma_wire_len(m.in_flight);
    lemma_wire_len(m.queued);
}

proof fn lemma_gather_fills(
    batch: Seq<OutFrame>,
    bytes: nat,
    rest: Seq<OutFrame>,
    cursor: nat,
    codel: CodelParams,
    state: CodelState,
    dropped: nat,
    max_bytes: nat,
    now: u64,
)
    requires
        batch.len() > 0,
        total_len(batch) == bytes + cursor,
    ensures
        ({
            let g = gather(batch, bytes, rest, cursor, codel, state, dropped, max_bytes, now);
            g.rest.len() > 0 ==> g.batch.len() >= WRITEV_MAX_SLICES || total_len(g.batch) - cursor
                + frame_len(g.rest[0]) > max_bytes
        }),
    decreases rest.len(),
{
    if rest.len() > 0 {
        let take = unwritten(false, rest[0], cursor);
        if batch.len() >= WRITEV_MAX_SLICES || bytes + take > max_bytes {
        } else {
            let behind = rest.drop_first();
            codel_keeps_the_newest(behind, false, codel, state, now);
            let run = codel_run(behind, false, codel, state, now);
            lemma_total_push(batch, rest[0]);
            lemma_gather_fills(
                batch.push(rest[0]),
                bytes + take,
                behind.skip(run.dropped as int),
                cursor,
                codel,
                run.state,
                dropped + run.dropped,
                max_bytes,
                now,
            );
        }
    }
}

/// A batch takes all that it may: where frames are left behind, it has 1024 of them
/// or the next one would take what is to be written over the limit.
pub proof fn batches_are_filled(m: ConnModel, max_bytes: nat, now: u64)
    requires
        m.valid(),
        m.in_flight.len() == 0,
    ensures
        ({
            let g = m.batch_gathered(max_bytes, now);
            &&& g.in_flight.len() <= 1024
            &&& g.queued.len() > 0 ==> g.in_flight.len() == 1024 || total_len(g.in_flight)
                - m.cursor + frame_len(g.queued[0]) > max_bytes
        }),
{
    gather_keeps_what_matters(m, max_bytes, now);
    let locked = m.cursor > 0;
    codel_keeps_the_newest(m.queued, locked, m.codel, m.codel_state, now);
    let c = m.codel_checked(locked, now);
    assert(m.pending() =~= m.queued);
    if locked {
        assert(c.queued =~= m.queued);
    }
    if c.queued.len() > 0 {
        let first = c.queued[0];
        let behind = c.queued.drop_first();
        codel_keeps_the_newest(behind, false, c.codel, c.codel_state, now);
        let run = codel_run(behind, false, c.codel, c.codel_state, now);
        let none = Seq::<OutFrame>::empty();
        assert(none.push(first) =~= seq![first]);
        lemma_total_one(first);
        lemma_gather_fills(
            none.push(first),
            unwritten(true, first, c.cursor),
            behind.skip(run.dropped as int),
            c.cursor,
            c.codel,
            run.state,
            run.dropped,
            max_bytes,
            now,
        );
    }
}

/// `part` is `whole` without some of its items, the others in their order.
pub open spec fn thinned(part: Seq<OutFrame>, whole: Seq<OutFrame>, at: Seq<int>) -> bool {
    &&& at.len() == part.len()
    &&& forall|i: int| 0 <= i < at.len() ==> 0 <= #[trigger] at[i] < whole.len() && part[i] == whole[at[i]]
    &&& forall|i: int, j: int| 0 <= i < j < at.len() ==> #[trigger] at[i] < #[trigger] at[j]
}

proof fn lemma_gather_order(
    batch: Seq<OutFrame>,
    bytes: nat,
    rest: Seq<OutFrame>,
    cursor: nat,
    codel: CodelParams,
    state: CodelState,
    dropped: nat,
    max_bytes: nat,
    now: u64,
) -> (at: Seq<int>)
    ensures
        ({
            let g = gather(batch, bytes, rest, cursor, codel, state, dropped, max_bytes, now);
            thinned(g.batch + g.rest, batch + rest, at)
        }),
    decreases rest.len(),
{
    let all = batch + rest;
    let same = Seq::new(all.len(), |i: int| i);
    if rest.len() > 0 {
        let take = unwritten(batch.len() == 0, rest[0], cursor);
        if batch.len() > 0 && (batch.len() >= WRITEV_MAX_SLICES || bytes + take > max_bytes) {
            same
        } else {
            let behind = rest.drop_first();
            codel_keeps_the_newest(behind, false, codel, state, now);
            let run = codel_run(behind, false, codel, state, now);
            let more = batch.push(rest[0]);
            let next = behind.skip(run.dropped as int);
            let inner = lemma_gather_order(
                more,
                bytes + take,
                next,
                cursor,
                codel,
                run.state,
                dropped + run.dropped,
                max_bytes,
                now,
            );
            let g = gather(batch, bytes, rest, cursor, codel, state, dropped, max_bytes, now);
            let at = Seq::new(
                inner.len(),
                |i: int|
                    if inner[i] < more.len() {
                        inner[i]
                    } else {
                        inner[i] + run.dropped
                    },
            );
            assert forall|i: int| 0 <= i < at.len() implies 0 <= #[trigger] at[i] < all.len()
                && (g.batch + g.rest)[i] == all[at[i]] by {
                assert(0 <= inner[i] < (more + next).len());
                assert((more + next)[inner[i]] == all[at[i]]);
            }
            assert forall|i: int, j: int| 0 <= i < j < at.len() implies #[trigger] at[i]
                < #[trigger] at[j] by {
                assert(inner[i] < inner[j]);
            }
            at
        }
    } else {
        same
    }
}

/// Gathering changes no frame and no order: what is in flight and what is still
/// queued are the frames that were queued, in their order, without those dropped.
pub proof fn gathering_keeps_the_order(m: ConnModel, max_bytes: nat, now: u64)
    requires
        m.valid(),
        m.in_flight.len() == 0,
    ensures
        exists|at: Seq<int>| #[trigger]
            thinned(m.batch_gathered(max_bytes, now).pending(), m.queued, at),
{
    let locked = m.cursor > 0;
    codel_keeps_the_newest(m.queued, locked, m.codel, m.codel_state, now);
    let c = m.codel_checked(locked, now);
    let d = c.codel_dropped - m.codel_dropped;
    let none = Seq::<OutFrame>::empty();
    let inner = lemma_gather_order(
        none,
        0,
        c.queued,
        c.cursor,
        c.codel,
        c.codel_state,
        0,
        max_bytes,
        now,
    );
    assert(none + c.queued =~= c.queued);
    let at = Seq::new(inner.len(), |i: int| inner[i] + d);
    let kept = m.batch_gathered(max_bytes, now).pending();
    assert forall|i: int| 0 <= i < at.len() implies 0 <= #[trigger] at[i] < m.queued.len() && kept[i]
        == m.queued[at[i]] by {
        assert(0 <= inner[i] < c.queued.len());
        assert(c.queued[inner[i]] == m.queued[inner[i] + d]);
    }
    assert forall|i: int, j: int| 0 <= i < j < at.len() implies #[trigger] at[i] < #[trigger] at[j] by {
        assert(inner[i] < inner[j]);
    }
    assert(thinned(kept, m.queued, at));
}

/// The freshness check stops only where it must: once it is done with a queue that it
/// holds overloaded, the front is fresh, or is the last frame, or is locked.
pub proof fn codel_drops_all_that_is_stale(
    frames: Seq<OutFrame>,
    locked: bool,
    codel: CodelParams,
    state: CodelState,
    now: u64,
)
    requires
        codel.target_ns > 0,
        frames.len() > 0,
    ensures
        ({
            let run = codel_run(frames, locked, codel, state, now);
            let left = frames.skip(run.dropped as int);
            run.state.overloaded ==> locked || left.len() == 1 || now - left[0].1 <= 2
                * codel.target_ns
        }),
        ({
            let run = codel_run(frames, locked, codel, state, now);
            forall|i: int|
                0 <= i < run.dropped ==> now - (#[trigger] frames[i]).1 > 2 * codel.target_ns || (2
                    * codel.target_ns > u64::MAX && now - frames[i].1 > u64::MAX)
        }),
    decreases frames.len(),
{
    let run = codel_run(frames, locked, codel, state, now);
    codel_keeps_the_newest(frames, locked, codel, state, now);
    let age = sojourn(now, frames[0].1);
    let noted = state.noted(codel, now, age);
    if !locked && noted.overloaded && age > codel.stale_after() && frames.len() > 1 {
        let rest = frames.drop_first();
        codel_drops_all_that_is_stale(rest, locked, codel, noted, now);
        let inner = codel_run(rest, locked, codel, noted, now);
        assert(rest.skip(inner.dropped as int) =~= frames.skip(run.dropped as int));
        assert forall|i: int| 0 <= i < run.dropped implies now - (#[trigger] frames[i]).1 > 2
            * codel.target_ns || (2 * codel.target_ns > u64::MAX && now - frames[i].1 > u64::MAX) by {
            if i > 0 {
                assert(frames[i] == rest[i - 1]);
            }
        }
    } else {
        assert(frames.skip(0) =~= frames);
    }
}

/// The control state after each of the samples, which are pairs of a time and a time
/// in queue.
pub open spec fn all_noted(
    state: CodelState,
    codel: CodelParams,
    samples: Seq<(u64, u64)>,
) -> CodelState
    decreases samples.len(),
{
    if samples.len() == 0 {
        state
    } else {
        all_noted(state, codel, samples.drop_last()).noted(
            codel,
            samples.last().0,
            samples.last().1,
        )
    }
}

/// What the samples of one interval come to while it is open.
proof fn lemma_open_interval(state: CodelState, codel: CodelParams, samples: Seq<(u64, u64)>)
    requires
        state.interval_end == 0,
        state.interval_min is None,
        samples.len() > 0,
        codel.interval_ns > 0,
        samples[0].0 + codel.interval_ns <= u64::MAX,
        forall|i: int|
            0 <= i < samples.len() ==> (#[trigger] samples[i]).0 < samples[0].0 + codel.interval_ns,
    ensures
        ({
            let after = all_noted(state, codel, samples);
            &&& after.overloaded == state.overloaded
            &&& after.interval_end == samples[0].0 + codel.interval_ns
            &&& after.interval_min matches Some(m) && (forall|i: int|
                0 <= i < samples.len() ==> m <= (#[trigger] samples[i]).1) && exists|i: int|
                0 <= i < samples.len() && (#[trigger] samples[i]).1 == m
        }),
    decreases samples.len(),
{
    let rest = samples.drop_last();
    let after = all_noted(state, codel, samples);
    if rest.len() > 0 {
        assert forall|i: int| 0 <= i < rest.len() implies (#[trigger] rest[i]).0 < rest[0].0
            + codel.interval_ns by {
            assert(rest[i] == samples[i]);
        }
        lemma_open_interval(state, codel, rest);
        let before = all_noted(state, codel, rest);
        let old_min = before.interval_min->0;
        let m = after.interval_min->0;
        let k = choose|i: int| 0 <= i < rest.len() && (#[trigger] rest[i]).1 == old_min;
        assert(samples[samples.len() - 1].0 < samples[0].0 + codel.interval_ns);
        assert forall|i: int| 0 <= i < samples.len() implies m <= (#[trigger] samples[i]).1 by {
            if i < rest.len() {
                assert(rest[i] == samples[i]);
            }
        }
        if m == old_min {
            assert(samples[k].1 == m);
        } else {
            assert(samples[samples.len() - 1].1 == m);
        }
    } else {
        assert(rest =~= Seq::<(u64, u64)>::empty());
        assert(samples[0].0 < samples[0].0 + codel.interval_ns);
        assert(samples[0].1 == after.interval_min->0);
    }
}

/// An interval decides whether the queue is overloaded. Until it ends nothing
/// changes; the sample that ends it makes the queue overloaded exactly where every
/// sample since it began, and that one, stood in the queue longer than the target. A
/// single frame that did not is enough to end the dropping.
pub proof fn an_interval_decides(
    state: CodelState,
    codel: CodelParams,
    samples: Seq<(u64, u64)>,
    last: (u64, u64),
)
    requires
        state.interval_end == 0,
        state.interval_min is None,
        samples.len() > 0,
        codel.interval_ns > 0,
        samples[0].0 + codel.interval_ns <= u64::MAX,
        forall|i: int|
            0 <= i < samples.len() ==> (#[trigger] samples[i]).0 < samples[0].0 + codel.interval_ns,
        last.0 >= samples[0].0 + codel.interval_ns,
    ensures
        all_noted(state, codel, samples).overloaded == state.overloaded,
        all_noted(state, codel, samples.push(last)).overloaded <==> last.1 > codel.target_ns && (
        forall|i: int| 0 <= i < samples.len() ==> (#[trigger] samples[i]).1 > codel.target_ns),
        last.0 + codel.interval_ns <= u64::MAX ==> all_noted(
            state,
            codel,
            samples.push(last),
        ).interval_end == last.0 + codel.interval_ns,
{
    lemma_open_interval(state, codel, samples);
    let open = all_noted(state, codel, samples);
    let m = open.interval_min->0;
    let k = choose|i: int| 0 <= i < samples.len() && (#[trigger] samples[i]).1 == m;
    assert(samples.push(last).drop_last() =~= samples);
    assert(samples.push(last).last() == last);
    if all_noted(state, codel, samples.push(last)).overloaded {
        assert forall|i: int| 0 <= i < samples.len() implies (#[trigger] samples[i]).1
            > codel.target_ns by {}
    } else {
        assert(samples[k].1 == m);
    }
}

/// An empty queue is never overloaded for longer than the interval that is running.
pub proof fn an_empty_queue_recovers(state: CodelState, codel: CodelParams, now: u64)
    requires
        state.interval_end != 0,
    ensures
        now >= state.interval_end ==> !state.aged(codel, now).overloaded && state.aged(
            codel,
            now,
        ).interval_min is None,
        now < state.interval_end ==> state.aged(codel, now) == state,
{
}

/// A connection that has just been accepted shakes hands, holds nothing, owes nothing
/// and has no writable interest, and keeps the limits it was given.
pub proof fn fresh_connections_hold_nothing(high_water: nat, codel: CodelParams)
    ensures
        ({
            let m = ConnModel::fresh(high_water, codel);
            &&& m.valid()
            &&& m.state == ConnState::Handshaking
            &&& m.unsent().len() == 0
            &&& m.accounted() == 0
            &&& m.outbound() == 0
            &&& m.frame_count() == 0
            &&& !m.owes()
            &&& !m.writable_armed
            &&& m.reported == 0 && m.reported_out == 0
            &&& m.high_water == high_water
            &&& m.codel == codel
            &&& !m.codel_state.overloaded
            &&& m.codel_state.interval_min is None
            &&& m.codel_state.interval_end == 0
        }),
{
    let m = ConnModel::fresh(high_water, codel);
    assert(m.pending() =~= Seq::<OutFrame>::empty());
    assert(wire(m.pending()).len() == 0);
}

} // verus!
