//! The hand-off of a connection to the REST plane.
//!
//! The worker has already read the request head, and for TLS decrypted it; those
//! bytes are replayed before anything else. A TLS session is then driven further:
//! every record of a read is processed, plaintext that does not fit the reader's
//! buffer waits for the next read, and ciphertext that the socket does not take
//! waits for the next write.
use crate::transport::tls::{self, PullError, TlsSession};
use rustls::server::ServerConnection;
use vstd::prelude::*;

verus! {

/// Bytes that are handed out in order, a part at a time.
pub struct Replay {
    buf: Vec<u8>,
    pos: usize,
}

impl View for Replay {
    type V = Seq<u8>;

    /// The bytes that have not been handed out.
    closed spec fn view(&self) -> Seq<u8> {
        self.buf@.skip(self.pos as int)
    }
}

/// The smaller of two numbers.
pub open spec fn min(a: int, b: int) -> int {
    if a <= b {
        a
    } else {
        b
    }
}

impl Replay {
    pub closed spec fn wf(&self) -> bool {
        self.pos <= self.buf@.len()
    }

    pub fn new(bytes: Vec<u8>) -> (r: Replay)
        ensures
            r.wf(),
            r@ == bytes@,
    {
        let r = Replay { buf: bytes, pos: 0 };
        assert(r@ =~= bytes@);
        r
    }

    /// Whether everything has been handed out.
    pub fn is_empty(&self) -> (b: bool)
        requires
            self.wf(),
        ensures
            b == (self@.len() == 0),
    {
        self.pos >= self.buf.len()
    }

    /// The bytes that have not been handed out.
    pub fn pending(&self) -> (s: &[u8])
        requires
            self.wf(),
        ensures
            s@ == self@,
    {
        let all: &[u8] = self.buf.as_slice();
        assert(all@.subrange(self.pos as int, all@.len() as int) =~= self@);
        &all[self.pos..all.len()]
    }

    /// Hands out as much as fits in `room`; the memory is released with the last
    /// byte.
    pub fn take(&mut self, room: usize) -> (r: Vec<u8>)
        requires
            old(self).wf(),
        ensures
            final(self).wf(),
            r@ == old(self)@.take(min(room as int, old(self)@.len() as int)),
            final(self)@ == old(self)@.skip(min(room as int, old(self)@.len() as int)),
    {
        let ghost before = self@;
        let left: usize = self.buf.len() - self.pos;
        let n: usize = if left <= room { left } else { room };
        let mut out: Vec<u8> = Vec::new();
        let all: &[u8] = self.buf.as_slice();
        let part: &[u8] = &all[self.pos..self.pos + n];
        out.extend_from_slice(part);
        assert(out@ =~= before.take(n as int));
        self.pos = self.pos + n;
        assert(self@ =~= before.skip(n as int));
        if self.pos >= self.buf.len() {
            self.buf = Vec::new();
            self.pos = 0;
            assert(self@ =~= Seq::<u8>::empty());
        }
        out
    }

    /// Marks `n` bytes as handed out.
    pub fn advance(&mut self, n: usize)
        requires
            old(self).wf(),
            n <= old(self)@.len(),
        ensures
            final(self).wf(),
            final(self)@ == old(self)@.skip(n as int),
    {
        let ghost before = self@;
        assert(self.pos + n <= self.buf.len());
        self.pos = self.pos + n;
        assert(self@ =~= before.skip(n as int));
    }

    /// Adds bytes behind those that wait.
    pub fn push(&mut self, bytes: &[u8])
        requires
            old(self).wf(),
        ensures
            final(self).wf(),
            final(self)@ == old(self)@ + bytes@,
    {
        let ghost before = self@;
        self.buf.extend_from_slice(bytes);
        assert(self@ =~= before + bytes@);
    }
}

/// Outcome of a call on the socket or the TLS session.
#[derive(Debug, Clone, Copy, PartialEq, Eq, Structural)]
pub enum RestEvent {
    /// It is ready, or bytes moved, or all records were processed.
    Ready,
    /// Nothing moved: the end of the stream, or nothing was there.
    Zero,
    /// Not ready; the task is woken when it is.
    Pending,
    /// The call would block.
    WouldBlock,
    /// The call was interrupted.
    Interrupted,
    Failed,
}

/// Where a read of the TLS stream stands: the call to make next, or the end.
#[derive(Debug, Clone, Copy, PartialEq, Eq, Structural)]
pub enum RestRead {
    /// Pull plaintext that the session already holds.
    PullHeld,
    /// Wait for the socket to be readable.
    AwaitReadable,
    /// Read ciphertext.
    ReadSocket,
    /// Process every record that was read.
    Decrypt,
    /// Pull plaintext once more.
    PullLast,
    /// Register for the next readability.
    Register,
    /// The read is over, with whatever was delivered.
    Done,
    /// The task is woken when the socket is readable.
    Pending,
    /// As pending, and the task is to be polled again at once.
    WakeAndPending,
    Failed,
}

impl RestRead {
    /// The next state; `delivered` says whether the event brought plaintext that
    /// the reader has now received part of.
    pub open spec fn stepped(self, ev: RestEvent, delivered: bool) -> RestRead {
        match (self, ev) {
            (RestRead::PullHeld, RestEvent::Ready) => RestRead::Done,
            (RestRead::PullHeld, RestEvent::Zero) => RestRead::AwaitReadable,
            (RestRead::PullHeld, RestEvent::WouldBlock) => RestRead::AwaitReadable,
            (RestRead::AwaitReadable, RestEvent::Pending) => RestRead::Pending,
            (RestRead::AwaitReadable, RestEvent::Ready) => RestRead::ReadSocket,
            (RestRead::ReadSocket, RestEvent::Zero) => RestRead::Done,
            (RestRead::ReadSocket, RestEvent::Ready) => RestRead::Decrypt,
            (RestRead::ReadSocket, RestEvent::WouldBlock) => RestRead::Register,
            (RestRead::Decrypt, RestEvent::Ready) => if delivered {
                RestRead::Done
            } else {
                RestRead::PullLast
            },
            (RestRead::PullLast, RestEvent::Zero) => RestRead::Done,
            (RestRead::PullLast, RestEvent::Ready) => RestRead::Done,
            (RestRead::PullLast, RestEvent::WouldBlock) => RestRead::Register,
            (RestRead::Register, RestEvent::Pending) => RestRead::Pending,
            (RestRead::Register, RestEvent::Ready) => RestRead::WakeAndPending,
            (RestRead::Done, _) => self,
            (RestRead::Pending, _) => self,
            (RestRead::WakeAndPending, _) => self,
            _ => RestRead::Failed,
        }
    }

    /// The next state.
    pub fn step(self, ev: RestEvent, delivered: bool) -> (next: RestRead)
        ensures
            next == self.stepped(ev, delivered),
    {
        match self {
            RestRead::PullHeld => match ev {
                RestEvent::Ready => RestRead::Done,
                RestEvent::Zero | RestEvent::WouldBlock => RestRead::AwaitReadable,
                _ => RestRead::Failed,
            },
            RestRead::AwaitReadable => match ev {
                RestEvent::Pending => RestRead::Pending,
                RestEvent::Ready => RestRead::ReadSocket,
                _ => RestRead::Failed,
            },
            RestRead::ReadSocket => match ev {
                RestEvent::Zero => RestRead::Done,
                RestEvent::Ready => RestRead::Decrypt,
                RestEvent::WouldBlock => RestRead::Register,
                _ => RestRead::Failed,
            },
            RestRead::Decrypt => match ev {
                RestEvent::Ready => if delivered {
                    RestRead::Done
                } else {
                    RestRead::PullLast
                },
                _ => RestRead::Failed,
            },
            RestRead::PullLast => match ev {
                RestEvent::Zero | RestEvent::Ready => RestRead::Done,
                RestEvent::WouldBlock => RestRead::Register,
                _ => RestRead::Failed,
            },
            RestRead::Register => match ev {
                RestEvent::Pending => RestRead::Pending,
                RestEvent::Ready => RestRead::WakeAndPending,
                _ => RestRead::Failed,
            },
            RestRead::Done => RestRead::Done,
            RestRead::Pending => RestRead::Pending,
            RestRead::WakeAndPending => RestRead::WakeAndPending,
            RestRead::Failed => RestRead::Failed,
        }
    }
}

/// The buffers of a TLS stream on the REST plane.
pub struct RestBuffers {
    /// The request bytes that the worker read.
    pub prefix: Replay,
    /// Plaintext that no reader had room for.
    pub plain: Replay,
    /// Ciphertext that the socket has not taken.
    pub out: Replay,
}

impl RestBuffers {
    pub open spec fn wf(&self) -> bool {
        self.prefix.wf() && self.plain.wf() && self.out.wf()
    }

    /// Everything that a reader has yet to receive, in order.
    pub open spec fn unread(&self) -> Seq<u8> {
        self.prefix@ + self.plain@
    }

    pub fn new(prefix: Vec<u8>) -> (b: RestBuffers)
        ensures
            b.wf(),
            b.prefix@ == prefix@,
            b.plain@.len() == 0,
            b.out@.len() == 0,
    {
        RestBuffers {
            prefix: Replay::new(prefix),
            plain: Replay::new(Vec::new()),
            out: Replay::new(Vec::new()),
        }
    }

    /// What a read with room for `room` bytes gets without any call: the replayed
    /// request first, then waiting plaintext. Nothing means that the session has
    /// to be asked.
    pub fn deliver(&mut self, room: usize) -> (r: Option<Vec<u8>>)
        requires
            old(self).wf(),
        ensures
            final(self).wf(),
            final(self).out == old(self).out,
            match r {
                None => {
                    &&& old(self).prefix@.len() == 0
                    &&& old(self).plain@.len() == 0 || room == 0
                    &&& final(self).unread() == old(self).unread()
                },
                Some(bytes) => {
                    &&& bytes@ + final(self).unread() == old(self).unread()
                    &&& bytes@.len() <= room
                    &&& old(self).prefix@.len() == 0 ==> bytes@.len() == min(
                        room as int,
                        old(self).plain@.len() as int,
                    ) && bytes@.len() > 0
                    &&& old(self).prefix@.len() > 0 ==> bytes@.len() == min(
                        room as int,
                        old(self).prefix@.len() as int,
                    )
                },
            },
    {
        let ghost b0 = *self;
        if !self.prefix.is_empty() {
            let r: Vec<u8> = self.prefix.take(room);
            assert(r@ + self.unread() =~= b0.unread());
            return Some(r);
        }
        if self.plain.is_empty() || room == 0 {
            return None;
        }
        let r: Vec<u8> = self.plain.take(room);
        assert(r@ + self.unread() =~= b0.unread());
        Some(r)
    }

    /// Keeps plaintext that the session produced.
    pub fn keep_plaintext(&mut self, bytes: &[u8])
        requires
            old(self).wf(),
        ensures
            final(self).wf(),
            final(self).unread() == old(self).unread() + bytes@,
            final(self).out == old(self).out,
            final(self).prefix == old(self).prefix,
    {
        let ghost b0 = *self;
        self.plain.push(bytes);
        assert(self.unread() =~= b0.unread() + bytes@);
    }
}

/// Where a flush of the TLS stream stands.
#[derive(Debug, Clone, Copy, PartialEq, Eq, Structural)]
pub enum RestFlush {
    /// Wait for the socket to be writable.
    AwaitWritable,
    /// Write waiting ciphertext.
    WriteSocket,
    /// Take more ciphertext from the session.
    PullCiphertext,
    /// Everything is written.
    Done,
    /// The task is woken when the socket is writable.
    Pending,
    /// The socket took nothing.
    WriteZero,
    Failed,
}

impl RestBuffers {
    /// The state that the buffers call for: waiting ciphertext goes first, then
    /// what the session still holds.
    pub open spec fn flush_next(&self, wants_write: bool) -> RestFlush {
        if self.out@.len() > 0 {
            RestFlush::AwaitWritable
        } else if wants_write {
            RestFlush::PullCiphertext
        } else {
            RestFlush::Done
        }
    }

    /// The first state of a flush.
    pub fn begin_flush(&self, wants_write: bool) -> (s: RestFlush)
        requires
            self.wf(),
        ensures
            s == self.flush_next(wants_write),
    {
        if !self.out.is_empty() {
            RestFlush::AwaitWritable
        } else if wants_write {
            RestFlush::PullCiphertext
        } else {
            RestFlush::Done
        }
    }

    /// Takes the outcome of the socket becoming writable.
    pub fn on_writable(&self, ev: RestEvent) -> (s: RestFlush)
        ensures
            s == (match ev {
                RestEvent::Ready => RestFlush::WriteSocket,
                RestEvent::Pending => RestFlush::Pending,
                _ => RestFlush::Failed,
            }),
    {
        match ev {
            RestEvent::Ready => RestFlush::WriteSocket,
            RestEvent::Pending => RestFlush::Pending,
            _ => RestFlush::Failed,
        }
    }

    /// Takes the outcome of writing ciphertext: `n` bytes went out when it is
    /// ready. A blocked or interrupted write is tried again once the socket is
    /// writable.
    pub fn on_written(&mut self, ev: RestEvent, n: usize, wants_write: bool) -> (s: RestFlush)
        requires
            old(self).wf(),
            n <= old(self).out@.len(),
        ensures
            final(self).wf(),
            final(self).prefix == old(self).prefix,
            final(self).plain == old(self).plain,
            match ev {
                RestEvent::Ready => {
                    &&& final(self).out@ == old(self).out@.skip(n as int)
                    &&& s == final(self).flush_next(wants_write)
                },
                RestEvent::WouldBlock | RestEvent::Interrupted => {
                    &&& final(self).out == old(self).out
                    &&& s == RestFlush::AwaitWritable
                },
                RestEvent::Zero => final(self).out == old(self).out && s == RestFlush::WriteZero,
                _ => final(self).out == old(self).out && s == RestFlush::Failed,
            },
    {
        match ev {
            RestEvent::Ready => {
                self.out.advance(n);
                self.begin_flush(wants_write)
            },
            RestEvent::WouldBlock => RestFlush::AwaitWritable,
            RestEvent::Interrupted => RestFlush::AwaitWritable,
            RestEvent::Zero => RestFlush::WriteZero,
            _ => RestFlush::Failed,
        }
    }

    /// Takes the ciphertext that the session produced: none ends the flush.
    pub fn on_ciphertext(&mut self, ev: RestEvent, bytes: &[u8]) -> (s: RestFlush)
        requires
            old(self).wf(),
        ensures
            final(self).wf(),
            final(self).prefix == old(self).prefix,
            final(self).plain == old(self).plain,
            match ev {
                RestEvent::Ready => {
                    &&& final(self).out@ == old(self).out@ + bytes@
                    &&& s == RestFlush::AwaitWritable
                },
                RestEvent::Zero => final(self).out == old(self).out && s == RestFlush::Done,
                _ => final(self).out == old(self).out && s == RestFlush::Failed,
            },
    {
        match ev {
            RestEvent::Ready => {
                self.out.push(bytes);
                RestFlush::AwaitWritable
            },
            RestEvent::Zero => RestFlush::Done,
            _ => RestFlush::Failed,
        }
    }
}

/// Where the processing of received TLS records stands.
#[derive(Debug, Clone, Copy, PartialEq, Eq, Structural)]
pub enum RecordDrain {
    /// Feed the next part of the ciphertext to the session.
    Ingest,
    /// Let the session process what it has.
    Process,
    /// Pull the plaintext of this round.
    Pull,
    /// Every record is processed, or the peer has closed its side.
    Done,
    /// A record was not valid.
    Invalid,
    Failed,
}

impl RecordDrain {
    /// The next state; `left` says whether ciphertext is left to feed.
    pub open spec fn stepped(self, ev: RestEvent, left: bool) -> RecordDrain {
        let next_round = if left {
            RecordDrain::Ingest
        } else {
            RecordDrain::Done
        };
        match (self, ev) {
            (RecordDrain::Ingest, RestEvent::Zero) => RecordDrain::Done,
            (RecordDrain::Ingest, RestEvent::Ready) => RecordDrain::Process,
            (RecordDrain::Process, RestEvent::Ready) => RecordDrain::Pull,
            (RecordDrain::Process, _) => RecordDrain::Invalid,
            (RecordDrain::Pull, RestEvent::Zero) => RecordDrain::Done,
            (RecordDrain::Pull, RestEvent::Ready) => RecordDrain::Pull,
            (RecordDrain::Pull, RestEvent::WouldBlock) => next_round,
            (RecordDrain::Done, _) => self,
            (RecordDrain::Invalid, _) => self,
            _ => RecordDrain::Failed,
        }
    }

    /// Takes the outcome of the call that the state asked for; plaintext of a pull
    /// is kept in `buffers`.
    pub fn step(self, ev: RestEvent, left: bool, bytes: &[u8], buffers: &mut RestBuffers) -> (next:
        RecordDrain)
        requires
            old(buffers).wf(),
        ensures
            next == self.stepped(ev, left),
            final(buffers).wf(),
            final(buffers).out == old(buffers).out,
            final(buffers).unread() == (if self == RecordDrain::Pull && ev == RestEvent::Ready {
                old(buffers).unread() + bytes@
            } else {
                old(buffers).unread()
            }),
    {
        match self {
            RecordDrain::Ingest => match ev {
                RestEvent::Zero => RecordDrain::Done,
                RestEvent::Ready => RecordDrain::Process,
                _ => RecordDrain::Failed,
            },
            RecordDrain::Process => match ev {
                RestEvent::Ready => RecordDrain::Pull,
                _ => RecordDrain::Invalid,
            },
            RecordDrain::Pull => match ev {
                RestEvent::Zero => RecordDrain::Done,
                RestEvent::Ready => {
                    buffers.keep_plaintext(bytes);
                    RecordDrain::Pull
                },
                RestEvent::WouldBlock => if left {
                    RecordDrain::Ingest
                } else {
                    RecordDrain::Done
                },
                _ => RecordDrain::Failed,
            },
            RecordDrain::Done => RecordDrain::Done,
            RecordDrain::Invalid => RecordDrain::Invalid,
            RecordDrain::Failed => RecordDrain::Failed,
        }
    }
}

/// As long as ciphertext is left, processing goes on unless the peer has closed
/// or something failed: no record of a read is left behind.
pub proof fn no_record_is_left_behind(s: RecordDrain, ev: RestEvent)
    requires
        s == RecordDrain::Ingest || s == RecordDrain::Process || s == RecordDrain::Pull,
    ensures
        s.stepped(ev, true) == RecordDrain::Done ==> ev == RestEvent::Zero,
{
}

/// Most plaintext taken out of a session at a time.
pub const PULL_BYTES: usize = 16_384;

/// How the processing of received ciphertext came to its end.
#[derive(Debug, Clone, Copy, PartialEq, Eq, Structural)]
pub enum Drained {
    /// All of it was fed, and every whole record was processed.
    All,
    /// The peer has closed its side; what follows that does not count.
    Closed,
}

/// Why the processing of received ciphertext failed.
#[derive(Debug)]
pub enum DrainError {
    /// The session refused more ciphertext.
    Feed(std::io::Error),
    /// A record was not valid.
    Invalid(rustls::Error),
    /// The plaintext could not be taken out.
    Pull(std::io::Error),
}

/// What processing `ciphertext` does: the session before and after it, and all that a
/// reader has yet to receive before and after it.
///
/// Only the ciphertext is fed, from its front and in order. No plaintext is lost: what
/// was waiting or held stays in front, in order, and new plaintext follows it. Each
/// ending comes with the state of the session that it stands for.
pub open spec fn drained(
    before: TlsSession,
    unread_before: Seq<u8>,
    ciphertext: Seq<u8>,
    r: Result<Drained, DrainError>,
    after: TlsSession,
    unread_after: Seq<u8>,
) -> bool {
    &&& exists|n: int|
        0 <= n <= ciphertext.len() && after.fed == before.fed + #[trigger] ciphertext.take(n)
    &&& (unread_before + before.held).is_prefix_of(unread_after + after.held)
    &&& after.cut_short == before.cut_short
    &&& before.closed ==> after.closed
    &&& before.broken ==> after.broken
    &&& match r {
        Ok(Drained::All) => {
            &&& after.fed == before.fed + ciphertext
            &&& ciphertext.len() > 0 ==> after.held.len() == 0 && !after.closed
                && !after.broken && !after.cut_short
        },
        Ok(Drained::Closed) => after.closed && ((after.held.len() == 0 && !after.broken) || (after
            == before && unread_after == unread_before)),
        Err(DrainError::Invalid(_)) => after.broken,
        Err(DrainError::Pull(_)) => after.held.len() == 0 && !after.closed && !after.broken
            && after.cut_short,
        Err(DrainError::Feed(_)) => (after.held.len() == 0 && !after.closed && !after.broken) || (
        after == before && unread_after == unread_before && !(after.closed && after.held.len()
            == 0)),
    }
    &&& ciphertext.len() == 0 ==> r == Ok::<Drained, DrainError>(Drained::All) && after == before
        && unread_after == unread_before
    &&& ciphertext.len() > 0 && before.closed && before.held.len() == 0 ==> r == Ok::<
        Drained,
        DrainError,
    >(Drained::Closed) && after == before && unread_after == unread_before
}

/// Processes every TLS record of received ciphertext and keeps the plaintext.
///
/// One read of the socket can bring several records, and the session takes in only a
/// part of it at a time, so that it is fed until nothing is left. A record that is not
/// whole yet waits in the session for the next read. The plaintext is taken out after
/// each part, so that the session has room for the next.
pub fn drain_tls_records(
    tls: &mut ServerConnection,
    ciphertext: &[u8],
    buffers: &mut RestBuffers,
) -> (r: Result<Drained, DrainError>)
    requires
        old(buffers).wf(),
    ensures
        final(buffers).wf(),
        final(buffers).out == old(buffers).out,
        drained(
            tls::session_of(*old(tls)),
            old(buffers).unread(),
            ciphertext@,
            r,
            tls::session_of(*final(tls)),
            final(buffers).unread(),
        ),
        ciphertext@.len() == 0 ==> *final(tls) == *old(tls) && *final(buffers) == *old(buffers),
{
    let ghost s0 = tls::session_of(*tls);
    let ghost u0 = buffers.unread();
    let ghost c = ciphertext@;
    if ciphertext.len() == 0 {
        assert(c.take(0) =~= Seq::<u8>::empty());
        assert(s0.fed + c.take(0) =~= s0.fed);
        assert(s0.fed + c =~= s0.fed);
        return Ok(Drained::All);
    }
    let mut at: usize = 0;
    let mut state: RecordDrain = RecordDrain::Ingest;
    let mut closed: bool = false;
    let mut failure: Option<DrainError> = None;
    proof {
        assert(c.take(0) =~= Seq::<u8>::empty());
        assert(s0.fed + c.take(0) =~= s0.fed);
    }
    while state == RecordDrain::Ingest || state == RecordDrain::Process || state
        == RecordDrain::Pull
        invariant
            c == ciphertext@,
            0 < c.len(),
            at <= ciphertext.len(),
            closed ==> state == RecordDrain::Done,
            s0 == tls::session_of(*old(tls)),
            u0 == old(buffers).unread(),
            buffers.wf(),
            buffers.out == old(buffers).out,
            tls::session_of(*tls).fed == s0.fed + c.take(at as int),
            (u0 + s0.held).is_prefix_of(buffers.unread() + tls::session_of(*tls).held),
            tls::session_of(*tls).cut_short == s0.cut_short,
            s0.closed ==> tls::session_of(*tls).closed,
            s0.broken ==> tls::session_of(*tls).broken,
            s0.closed && s0.held.len() == 0 ==> {
                &&& tls::session_of(*tls) == s0
                &&& buffers.unread() == u0
                &&& state == RecordDrain::Ingest || (state == RecordDrain::Done && closed)
            },
            ({
                let s = tls::session_of(*tls);
                match state {
                    RecordDrain::Ingest => at < c.len() && if at == 0 {
                        s == s0 && buffers.unread() == u0
                    } else {
                        s.held.len() == 0 && !s.closed && !s.broken
                    },
                    RecordDrain::Process => at > 0,
                    RecordDrain::Pull => at > 0 && !s.broken,
                    RecordDrain::Done => if closed {
                        s.closed && ((s.held.len() == 0 && !s.broken) || (s == s0
                            && buffers.unread() == u0))
                    } else {
                        &&& at == c.len()
                        &&& s.held.len() == 0
                        &&& !s.closed
                        &&& !s.broken
                        &&& !s.cut_short
                    },
                    RecordDrain::Invalid => s.broken && (failure matches Some(
                        DrainError::Invalid(_),
                    )),
                    RecordDrain::Failed => match failure {
                        Some(DrainError::Feed(_)) => (s.held.len() == 0 && !s.closed
                            && !s.broken) || (s == s0 && buffers.unread() == u0 && !(s.closed
                            && s.held.len() == 0)),
                        Some(DrainError::Pull(_)) => s.held.len() == 0 && !s.closed && !s.broken
                            && s.cut_short,
                        _ => false,
                    },
                }
            }),
        decreases
            c.len() - at,
            (match state {
                RecordDrain::Process => 3int,
                RecordDrain::Pull => 2int,
                RecordDrain::Ingest => 1int,
                _ => 0int,
            }),
            tls::session_of(*tls).held.len(),
    {
        let ghost s = tls::session_of(*tls);
        let ghost u = buffers.unread();
        let mut bytes: Vec<u8> = Vec::new();
        let ev: RestEvent = match state {
            RecordDrain::Ingest => {
                let all: &[u8] = ciphertext;
                match tls::feed(tls, &all[at..all.len()]) {
                    Ok(n) => {
                        proof {
                            let rest = c.subrange(at as int, c.len() as int);
                            assert(c.take(at + n) =~= c.take(at as int) + rest.take(n as int));
                            assert(s0.fed + c.take(at + n) =~= s0.fed + c.take(at as int)
                                + rest.take(n as int));
                            if n == 0 {
                                assert(s.fed + rest.take(0) =~= s.fed);
                            }
                        }
                        at = at + n;
                        if n == 0 {
                            RestEvent::Zero
                        } else {
                            RestEvent::Ready
                        }
                    },
                    Err(e) => {
                        failure = Some(DrainError::Feed(e));
                        RestEvent::Failed
                    },
                }
            },
            RecordDrain::Process => match tls::process(tls) {
                Ok(()) => RestEvent::Ready,
                Err(e) => {
                    failure = Some(DrainError::Invalid(e));
                    RestEvent::Failed
                },
            },
            _ => match tls::pull(tls, PULL_BYTES) {
                Ok(b) => {
                    bytes = b;
                    if bytes.len() == 0 {
                        RestEvent::Zero
                    } else {
                        RestEvent::Ready
                    }
                },
                Err(PullError::Blocked) => RestEvent::WouldBlock,
                Err(PullError::Failed(e)) => {
                    failure = Some(DrainError::Pull(e));
                    RestEvent::Failed
                },
            },
        };
        if ev == RestEvent::Zero {
            closed = true;
        }
        let ghost was = state;
        state = state.step(ev, at < ciphertext.len(), bytes.as_slice(), buffers);
        proof {
            let s1 = tls::session_of(*tls);
            let all = u + s.held;
            if was == RecordDrain::Pull {
                assert(s.held =~= bytes@ + s1.held || bytes@.len() == 0);
                assert(buffers.unread() + s1.held =~= all);
            } else {
                assert(all.is_prefix_of(buffers.unread() + s1.held)) by {
                    assert((u + s1.held).take(all.len() as int) =~= all);
                }
            }
            let start = u0 + s0.held;
            let end = buffers.unread() + s1.held;
            assert(start =~= end.take(start.len() as int)) by {
                assert(start =~= all.take(start.len() as int));
                assert(all =~= end.take(all.len() as int));
            }
        }
    }
    assert(c.take(c.len() as int) =~= c);
    match state {
        RecordDrain::Done => if closed {
            Ok(Drained::Closed)
        } else {
            Ok(Drained::All)
        },
        _ => match failure {
            Some(e) => Err(e),
            None => Ok(Drained::Closed),
        },
    }
}

/// Takes held plaintext out of a session and keeps it for the reader: at most
/// [`PULL_BYTES`] of it. Where none is held, says whether the peer has closed its side or
/// there may be more, or fails.
pub fn pull_plaintext(tls: &mut ServerConnection, buffers: &mut RestBuffers) -> (r: Result<
    RestEvent,
    std::io::Error,
>)
    requires
        old(buffers).wf(),
    ensures
        final(buffers).wf(),
        final(buffers).out == old(buffers).out,
        ({
            let s0 = tls::session_of(*old(tls));
            let s1 = tls::session_of(*final(tls));
            let n = min(s0.held.len() as int, PULL_BYTES as int);
            &&& s1 == (TlsSession { held: s0.held.skip(n), ..s0 })
            &&& final(buffers).unread() == old(buffers).unread() + s0.held.take(n)
            &&& match r {
                Ok(ev) => ev == (if n > 0 {
                    RestEvent::Ready
                } else if s0.closed {
                    RestEvent::Zero
                } else {
                    RestEvent::WouldBlock
                }) && (n > 0 || s0.closed || !s0.cut_short),
                Err(_) => n == 0 && !s0.closed && s0.cut_short,
            }
        }),
{
    let ghost u0 = buffers.unread();
    match tls::pull(tls, PULL_BYTES) {
        Ok(bytes) => {
            buffers.keep_plaintext(bytes.as_slice());
            if bytes.len() == 0 {
                Ok(RestEvent::Zero)
            } else {
                Ok(RestEvent::Ready)
            }
        },
        Err(e) => {
            assert(u0 + Seq::<u8>::empty() =~= u0);
            match e {
                PullError::Blocked => Ok(RestEvent::WouldBlock),
                PullError::Failed(e) => Err(e),
            }
        },
    }
}

/// Ciphertext may come in any number of parts: two drains that go through to their ends
/// do what one drain of both parts does. All of it is fed, and nothing is lost.
pub proof fn drains_add_up(
    s0: TlsSession,
    u0: Seq<u8>,
    first: Seq<u8>,
    s1: TlsSession,
    u1: Seq<u8>,
    second: Seq<u8>,
    s2: TlsSession,
    u2: Seq<u8>,
)
    requires
        drained(s0, u0, first, Ok(Drained::All), s1, u1),
        drained(s1, u1, second, Ok(Drained::All), s2, u2),
    ensures
        drained(s0, u0, first + second, Ok(Drained::All), s2, u2),
{
    let c = first + second;
    assert(s0.fed + c =~= s0.fed + first + second);
    assert(c.take(c.len() as int) =~= c);
    let start = u0 + s0.held;
    let mid = u1 + s1.held;
    let end = u2 + s2.held;
    assert(start =~= end.take(start.len() as int)) by {
        assert(start =~= mid.take(start.len() as int));
        assert(mid =~= end.take(mid.len() as int));
    }
    if c.len() == 0 {
        assert(first =~= Seq::<u8>::empty());
        assert(second =~= Seq::<u8>::empty());
    }
    if s0.closed && s0.held.len() == 0 && c.len() > 0 {
        if first.len() == 0 {
            assert(s1 == s0);
        }
    }
}

/// A read that is told to wait has always registered to be woken: it waited for
/// readability last.
pub proof fn waiting_reads_are_registered(s: RestRead, ev: RestEvent, delivered: bool)
    requires
        s.stepped(ev, delivered) == RestRead::Pending,
        s != RestRead::Pending,
    ensures
        ev == RestEvent::Pending,
        s == RestRead::AwaitReadable || s == RestRead::Register,
{
}

/// A read ends only with something to show: plaintext was delivered or pulled, or the
/// stream is at its end. It never ends while the socket has merely nothing more, and a
/// socket that became readable while the read was registering polls it again.
pub proof fn reads_end_with_a_reason(s: RestRead, ev: RestEvent, delivered: bool)
    requires
        s != RestRead::Done,
    ensures
        s.stepped(ev, delivered) == RestRead::Done <==> {
            ||| s == RestRead::PullHeld && ev == RestEvent::Ready
            ||| s == RestRead::Decrypt && ev == RestEvent::Ready && delivered
            ||| s == RestRead::PullLast && (ev == RestEvent::Ready || ev == RestEvent::Zero)
            ||| s == RestRead::ReadSocket && ev == RestEvent::Zero
        },
        s.stepped(ev, delivered) == RestRead::WakeAndPending && s != RestRead::WakeAndPending ==> s
            == RestRead::Register && ev == RestEvent::Ready,
        s == RestRead::Register && ev == RestEvent::Ready ==> s.stepped(ev, delivered)
            == RestRead::WakeAndPending,
{
}

/// What a reader has held back goes first, then the socket is read and all that it
/// brought is decrypted before plaintext is pulled again; a call that would block
/// leads to registering.
pub proof fn reads_go_in_order(s: RestRead, ev: RestEvent, delivered: bool)
    ensures
        ({
            let next = s.stepped(ev, delivered);
            &&& next == RestRead::AwaitReadable ==> s == RestRead::PullHeld && (ev
                == RestEvent::Zero || ev == RestEvent::WouldBlock)
            &&& next == RestRead::ReadSocket ==> s == RestRead::AwaitReadable && ev
                == RestEvent::Ready
            &&& next == RestRead::Decrypt ==> s == RestRead::ReadSocket && ev == RestEvent::Ready
            &&& next == RestRead::PullLast ==> s == RestRead::Decrypt && !delivered
            &&& next == RestRead::Register ==> (s == RestRead::ReadSocket || s
                == RestRead::PullLast) && ev == RestEvent::WouldBlock
            &&& s == RestRead::PullHeld && (ev == RestEvent::Zero || ev == RestEvent::WouldBlock)
                ==> next == RestRead::AwaitReadable
            &&& s == RestRead::AwaitReadable && ev == RestEvent::Ready ==> next
                == RestRead::ReadSocket
            &&& s == RestRead::ReadSocket && ev == RestEvent::Ready ==> next == RestRead::Decrypt
            &&& s == RestRead::Decrypt && ev == RestEvent::Ready && !delivered ==> next
                == RestRead::PullLast
            &&& (s == RestRead::ReadSocket || s == RestRead::PullLast) && ev
                == RestEvent::WouldBlock ==> next == RestRead::Register
            &&& ev == RestEvent::Failed && s != RestRead::Done && s != RestRead::Pending && s
                != RestRead::WakeAndPending ==> next == RestRead::Failed
        }),
{
}

/// Records are fed, processed and pulled in turn: every round ends with all of its
/// plaintext pulled, and the next begins exactly where ciphertext is left. A record
/// that is not valid is told apart from a failure.
pub proof fn rounds_go_in_turn(s: RecordDrain, ev: RestEvent, left: bool)
    ensures
        ({
            let next = s.stepped(ev, left);
            &&& s == RecordDrain::Ingest && ev == RestEvent::Ready ==> next == RecordDrain::Process
            &&& s == RecordDrain::Ingest && ev == RestEvent::Zero ==> next == RecordDrain::Done
            &&& s == RecordDrain::Process ==> next == (if ev == RestEvent::Ready {
                RecordDrain::Pull
            } else {
                RecordDrain::Invalid
            })
            &&& s == RecordDrain::Pull && ev == RestEvent::Ready ==> next == RecordDrain::Pull
            &&& s == RecordDrain::Pull && ev == RestEvent::WouldBlock ==> (next
                == RecordDrain::Ingest <==> left)
            &&& s == RecordDrain::Pull && ev == RestEvent::WouldBlock ==> (next
                == RecordDrain::Done <==> !left)
            &&& s == RecordDrain::Pull && ev == RestEvent::Zero ==> next == RecordDrain::Done
            &&& next == RecordDrain::Invalid && s != next ==> s == RecordDrain::Process
            &&& s != RecordDrain::Process && ev == RestEvent::Failed && s != RecordDrain::Done && s
                != RecordDrain::Invalid ==> next == RecordDrain::Failed
        }),
{
}

/// A flush goes on for as long as there is ciphertext: what the socket has not taken
/// goes before what the session still owes, and it is done only with neither.
pub proof fn flushes_leave_nothing(b: RestBuffers, wants_write: bool)
    ensures
        b.flush_next(wants_write) == RestFlush::Done <==> b.out@.len() == 0 && !wants_write,
        b.flush_next(wants_write) == RestFlush::AwaitWritable <==> b.out@.len() > 0,
        b.flush_next(wants_write) == RestFlush::PullCiphertext <==> b.out@.len() == 0 && wants_write,
{
}

} // verus!
