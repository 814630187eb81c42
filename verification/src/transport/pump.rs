//! The order in which a connection's socket and TLS session are driven.
//!
//! Each machine here says which call comes next and takes the outcome of that
//! call; the calls themselves are the caller's. A plain connection only reads its
//! socket. A TLS connection ingests ciphertext, writes what the session owes the
//! peer, and then pulls plaintext.
use crate::transport::buffer::Buffer;
use crate::transport::conn::{BatchOutcome, ConnError, DrainStatus, WriteStatus};
use crate::transport::frame::{self, Frame, ParseError};
use vstd::prelude::*;

verus! {

/// Outcome of one non-blocking call on the socket or the TLS session.
#[derive(Debug, Clone, Copy, PartialEq, Eq, Structural)]
pub enum IoEvent {
    /// Some bytes moved.
    Moved,
    /// A read found the end of the stream.
    Eof,
    /// The call would block.
    WouldBlock,
    /// The call was interrupted before anything moved.
    Interrupted,
    /// The call failed, or the session rejected what it was given.
    Failed,
}

/// What a [`ReadPump`] does next.
#[derive(Debug, Clone, Copy, PartialEq, Eq, Structural)]
pub enum ReadPhase {
    /// Read the plain socket.
    Socket,
    /// Read ciphertext from the socket into the session and process it.
    TlsIn,
    /// Write the session's pending ciphertext to the socket.
    TlsOut,
    /// Read decrypted plaintext from the session.
    Plaintext,
    /// Everything available has been read.
    End,
    /// The connection is gone.
    Gone,
}

/// What the bytes being read are for.
#[derive(Debug, Clone, Copy, PartialEq, Eq, Structural)]
pub enum ReadFor {
    /// The request head: the end of the stream ends the connection at once.
    Head,
    /// WebSocket frames: what arrived before the end of the stream still counts.
    Frames,
}

/// Reads everything a connection has available.
#[derive(Debug, Clone, Copy, PartialEq, Eq, Structural)]
pub struct ReadPump {
    pub purpose: ReadFor,
    pub phase: ReadPhase,
    /// The stream has ended.
    pub eof: bool,
    /// A TLS flight is only partly written.
    pub flight_blocked: bool,
}

impl ReadPump {
    /// The phase that follows the ingestion of ciphertext or a ciphertext write.
    pub open spec fn after_ciphertext(wants_write: bool) -> ReadPhase {
        if wants_write {
            ReadPhase::TlsOut
        } else {
            ReadPhase::Plaintext
        }
    }

    /// The pump after `ev`, the session then saying whether it has ciphertext to
    /// write.
    pub open spec fn stepped(self, ev: IoEvent, wants_write: bool) -> ReadPump {
        let gone = ReadPump { phase: ReadPhase::Gone, ..self };
        match (self.phase, ev) {
            (ReadPhase::Socket, IoEvent::Moved) => self,
            (ReadPhase::Socket, IoEvent::Interrupted) => self,
            (ReadPhase::Socket, IoEvent::WouldBlock) => ReadPump { phase: ReadPhase::End, ..self },
            (ReadPhase::Socket, IoEvent::Eof) => match self.purpose {
                ReadFor::Head => gone,
                ReadFor::Frames => ReadPump { phase: ReadPhase::End, eof: true, ..self },
            },
            (ReadPhase::TlsIn, IoEvent::Moved) => self,
            (ReadPhase::TlsIn, IoEvent::Interrupted) => self,
            (ReadPhase::TlsIn, IoEvent::WouldBlock) => ReadPump {
                phase: Self::after_ciphertext(wants_write),
                ..self
            },
            (ReadPhase::TlsIn, IoEvent::Eof) => match self.purpose {
                ReadFor::Head => gone,
                ReadFor::Frames => ReadPump {
                    phase: Self::after_ciphertext(wants_write),
                    eof: true,
                    ..self
                },
            },
            (ReadPhase::TlsOut, IoEvent::Moved) => ReadPump {
                phase: Self::after_ciphertext(wants_write),
                ..self
            },
            (ReadPhase::TlsOut, IoEvent::Eof) => ReadPump {
                phase: Self::after_ciphertext(wants_write),
                ..self
            },
            (ReadPhase::TlsOut, IoEvent::WouldBlock) => ReadPump {
                phase: ReadPhase::Plaintext,
                flight_blocked: true,
                ..self
            },
            (ReadPhase::Plaintext, IoEvent::Moved) => self,
            (ReadPhase::Plaintext, IoEvent::Interrupted) => self,
            (ReadPhase::Plaintext, IoEvent::Eof) => ReadPump { phase: ReadPhase::End, ..self },
            (ReadPhase::Plaintext, IoEvent::WouldBlock) => ReadPump {
                phase: ReadPhase::End,
                ..self
            },
            (ReadPhase::Plaintext, IoEvent::Failed) => match self.purpose {
                ReadFor::Head => gone,
                ReadFor::Frames => ReadPump { phase: ReadPhase::End, eof: true, ..self },
            },
            (ReadPhase::End, _) => self,
            _ => gone,
        }
    }

    /// Whether the bytes of the event belong to the connection's buffer.
    pub open spec fn keeps_bytes(self, ev: IoEvent) -> bool {
        ev == IoEvent::Moved && (self.phase == ReadPhase::Socket || self.phase
            == ReadPhase::Plaintext)
    }

    /// A pump at its first call.
    pub fn new(purpose: ReadFor, tls: bool) -> (p: ReadPump)
        ensures
            p == (ReadPump {
                purpose,
                phase: if tls {
                    ReadPhase::TlsIn
                } else {
                    ReadPhase::Socket
                },
                eof: false,
                flight_blocked: false,
            }),
    {
        ReadPump {
            purpose,
            phase: if tls {
                ReadPhase::TlsIn
            } else {
                ReadPhase::Socket
            },
            eof: false,
            flight_blocked: false,
        }
    }

    /// Takes the outcome of the call that the phase asked for. `chunk` holds the
    /// bytes that a socket or plaintext read delivered; they are appended to
    /// `buf`.
    pub fn step(&mut self, buf: &mut Buffer, ev: IoEvent, chunk: &[u8], wants_write: bool)
        ensures
            *final(self) == old(self).stepped(ev, wants_write),
            final(buf)@ == (if old(self).keeps_bytes(ev) {
                old(buf)@ + chunk@
            } else {
                old(buf)@
            }),
    {
        let after: ReadPhase = if wants_write {
            ReadPhase::TlsOut
        } else {
            ReadPhase::Plaintext
        };
        match self.phase {
            ReadPhase::Socket => match ev {
                IoEvent::Moved => buf.extend_from_slice(chunk),
                IoEvent::Interrupted => {},
                IoEvent::WouldBlock => self.phase = ReadPhase::End,
                IoEvent::Eof => match self.purpose {
                    ReadFor::Head => self.phase = ReadPhase::Gone,
                    ReadFor::Frames => {
                        self.eof = true;
                        self.phase = ReadPhase::End;
                    },
                },
                IoEvent::Failed => self.phase = ReadPhase::Gone,
            },
            ReadPhase::TlsIn => match ev {
                IoEvent::Moved => {},
                IoEvent::Interrupted => {},
                IoEvent::WouldBlock => self.phase = after,
                IoEvent::Eof => match self.purpose {
                    ReadFor::Head => self.phase = ReadPhase::Gone,
                    ReadFor::Frames => {
                        self.eof = true;
                        self.phase = after;
                    },
                },
                IoEvent::Failed => self.phase = ReadPhase::Gone,
            },
            ReadPhase::TlsOut => match ev {
                IoEvent::Moved => self.phase = after,
                IoEvent::Eof => self.phase = after,
                IoEvent::WouldBlock => {
                    self.flight_blocked = true;
                    self.phase = ReadPhase::Plaintext;
                },
                IoEvent::Interrupted => self.phase = ReadPhase::Gone,
                IoEvent::Failed => self.phase = ReadPhase::Gone,
            },
            ReadPhase::Plaintext => match ev {
                IoEvent::Moved => buf.extend_from_slice(chunk),
                IoEvent::Interrupted => {},
                IoEvent::Eof => self.phase = ReadPhase::End,
                IoEvent::WouldBlock => self.phase = ReadPhase::End,
                IoEvent::Failed => match self.purpose {
                    ReadFor::Head => self.phase = ReadPhase::Gone,
                    ReadFor::Frames => {
                        self.eof = true;
                        self.phase = ReadPhase::End;
                    },
                },
            },
            ReadPhase::End => {},
            ReadPhase::Gone => {},
        }
    }

    /// What reading the request head came to, once the pump is through.
    pub fn head_status(&self) -> (s: DrainStatus)
        requires
            self.phase == ReadPhase::End || self.phase == ReadPhase::Gone,
        ensures
            s == (if self.phase == ReadPhase::Gone {
                DrainStatus::Closed
            } else if self.flight_blocked {
                DrainStatus::NeedsWrite
            } else {
                DrainStatus::Drained
            }),
    {
        if self.phase == ReadPhase::Gone {
            DrainStatus::Closed
        } else if self.flight_blocked {
            DrainStatus::NeedsWrite
        } else {
            DrainStatus::Drained
        }
    }

    /// The frames that reading brought in, once the pump is through. Whole frames
    /// leave `scratch`; an incomplete one stays for the next read.
    pub fn read_frames(&self, scratch: &mut Buffer, max_payload: usize) -> (r: Result<
        Vec<Frame>,
        ConnError,
    >)
        requires
            self.phase == ReadPhase::End || self.phase == ReadPhase::Gone,
        ensures
            self.phase == ReadPhase::Gone ==> r == Err::<Vec<Frame>, _>(ConnError::Closed),
            self.phase == ReadPhase::Gone ==> final(scratch)@ == old(scratch)@,
            self.phase == ReadPhase::End ==> frames_result(
                old(scratch)@,
                max_payload as nat,
                self.eof,
                r,
                final(scratch)@,
            ),
    {
        if self.phase == ReadPhase::Gone {
            return Err(ConnError::Closed);
        }
        take_frames(scratch, max_payload, self.eof)
    }
}

/// How a receive buffer splits: the whole frames at its front and what is left.
pub struct Split {
    pub frames: Seq<frame::FrameModel>,
    pub rest: Seq<u8>,
}

/// The whole frames at the front of `buf`, up to the first that is incomplete or
/// refused.
pub open spec fn split_frames(buf: Seq<u8>, max_payload: nat) -> Split
    decreases buf.len(),
{
    match frame::parsed(buf, max_payload) {
        frame::Parsed::Whole { frame, used } => if 0 < used <= buf.len() {
            let later = split_frames(buf.skip(used as int), max_payload);
            Split { frames: seq![frame] + later.frames, rest: later.rest }
        } else {
            Split { frames: Seq::empty(), rest: buf }
        },
        _ => Split { frames: Seq::empty(), rest: buf },
    }
}

/// The result of parsing all of `buf`: the frames if what is left is merely
/// incomplete, the violation otherwise. At the end of the stream no frames means
/// that the peer is gone.
pub open spec fn frames_result(
    buf: Seq<u8>,
    max_payload: nat,
    eof: bool,
    r: Result<Vec<Frame>, ConnError>,
    left: Seq<u8>,
) -> bool {
    let split = split_frames(buf, max_payload);
    &&& left == split.rest
    &&& match frame::parsed(split.rest, max_payload) {
        frame::Parsed::Protocol(m) => r == Err::<Vec<Frame>, _>(ConnError::Protocol(m)),
        frame::Parsed::TooLarge => r == Err::<Vec<Frame>, _>(ConnError::Protocol("frame too large")),
        _ => if eof && split.frames.len() == 0 {
            r == Err::<Vec<Frame>, _>(ConnError::Closed)
        } else {
            r matches Ok(v) && frame_views(v@) == split.frames
        },
    }
}

/// The views of a sequence of frames.
pub open spec fn frame_views(v: Seq<Frame>) -> Seq<frame::FrameModel> {
    Seq::new(v.len(), |i: int| v[i]@)
}

/// Parses every whole frame off the front of `scratch`.
pub fn take_frames(scratch: &mut Buffer, max_payload: usize, eof: bool) -> (r: Result<
    Vec<Frame>,
    ConnError,
>)
    ensures
        frames_result(old(scratch)@, max_payload as nat, eof, r, final(scratch)@),
{
    let ghost buf = scratch@;
    let ghost max = max_payload as nat;
    let mut frames: Vec<Frame> = Vec::new();
    assert(frame_views(frames@) + split_frames(buf, max).frames =~= split_frames(buf, max).frames);
    loop
        invariant
            buf == old(scratch)@,
            max == max_payload,
            split_frames(buf, max).rest == split_frames(scratch@, max).rest,
            split_frames(buf, max).frames == frame_views(frames@) + split_frames(
                scratch@,
                max,
            ).frames,
        decreases scratch@.len(),
    {
        let ghost now = scratch@;
        match frame::parse(scratch, max_payload) {
            Ok(f) => {
                let ghost had = frame_views(frames@);
                frames.push(f);
                proof {
                    let later = split_frames(scratch@, max);
                    assert(split_frames(now, max).frames =~= seq![f@] + later.frames);
                    assert(frame_views(frames@) =~= had + seq![f@]);
                    assert(had + (seq![f@] + later.frames) =~= frame_views(frames@) + later.frames);
                }
            },
            Err(e) => {
                proof {
                    assert(split_frames(now, max).frames =~= Seq::<frame::FrameModel>::empty());
                    assert(split_frames(buf, max).frames =~= frame_views(frames@));
                }
                match e {
                    ParseError::Incomplete => {
                        if eof && frames.len() == 0 {
                            return Err(ConnError::Closed);
                        }
                        return Ok(frames);
                    },
                    ParseError::Protocol(m) => return Err(ConnError::Protocol(m)),
                    ParseError::TooLarge => return Err(ConnError::Protocol("frame too large")),
                }
            },
        }
    }
}

/// What stays in the buffer is its tail.
pub proof fn lemma_rest_is_shorter(buf: Seq<u8>, max_payload: nat)
    ensures
        split_frames(buf, max_payload).rest.len() <= buf.len(),
    decreases buf.len(),
{
    match frame::parsed(buf, max_payload) {
        frame::Parsed::Whole { frame, used } => if 0 < used <= buf.len() {
            lemma_rest_is_shorter(buf.skip(used as int), max_payload);
        },
        _ => {},
    }
}

/// A blocked TLS flight is never lost: whatever follows it, reading the head ends
/// with a request for writable interest or with the connection gone, never as if
/// the flight had gone out.
pub proof fn blocked_flight_is_reported(p: ReadPump, ev: IoEvent, wants_write: bool)
    requires
        p.flight_blocked,
    ensures
        p.stepped(ev, wants_write).flight_blocked,
        p.stepped(ev, wants_write).phase == ReadPhase::End ==> p.stepped(
            ev,
            wants_write,
        ).flight_blocked,
{
}

/// Bytes that have arrived are never reordered or dropped by parsing: a frame
/// that one read leaves incomplete is parsed as if all of it had come at once.
pub proof fn frames_survive_split_reads(a: Seq<u8>, b: Seq<u8>, max_payload: nat)
    requires
        frame::parsed(split_frames(a, max_payload).rest, max_payload) is Incomplete,
    ensures
        ({
            let first = split_frames(a, max_payload);
            let second = split_frames(first.rest + b, max_payload);
            &&& split_frames(a + b, max_payload).frames == first.frames + second.frames
            &&& split_frames(a + b, max_payload).rest == second.rest
        }),
    decreases a.len(),
{
    let first = split_frames(a, max_payload);
    let second = split_frames(first.rest + b, max_payload);
    match frame::parsed(a, max_payload) {
        frame::Parsed::Whole { frame, used } => {
            frame::parsed_frames_are_well_formed(a, max_payload);
            frame::parse_ignores_what_follows(a, b, max_payload);
            let next = a.skip(used as int);
            assert((a + b).skip(used as int) =~= next + b);
            frames_survive_split_reads(next, b, max_payload);
            let later = split_frames(next, max_payload);
            assert(seq![frame] + (later.frames + second.frames) =~= first.frames + second.frames);
        },
        _ => {
            assert(first.frames + second.frames =~= second.frames);
        },
    }
}

/// What draining the session's ciphertext comes to after one write.
#[derive(Debug, Clone, Copy, PartialEq, Eq, Structural)]
pub enum CiphertextNext {
    /// Write again.
    Again,
    /// Nothing is left to write.
    Through,
    /// The flush ends here.
    Stop(WriteStatus),
}

/// Takes the outcome of writing pending ciphertext during a TLS flush.
pub fn ciphertext_step(ev: IoEvent, wants_write: bool) -> (next: CiphertextNext)
    ensures
        next == (match ev {
            IoEvent::WouldBlock => CiphertextNext::Stop(WriteStatus::WouldBlock),
            IoEvent::Interrupted => CiphertextNext::Stop(WriteStatus::Closed),
            IoEvent::Failed => CiphertextNext::Stop(WriteStatus::Closed),
            _ => if wants_write {
                CiphertextNext::Again
            } else {
                CiphertextNext::Through
            },
        }),
{
    match ev {
        IoEvent::WouldBlock => CiphertextNext::Stop(WriteStatus::WouldBlock),
        IoEvent::Interrupted => CiphertextNext::Stop(WriteStatus::Closed),
        IoEvent::Failed => CiphertextNext::Stop(WriteStatus::Closed),
        IoEvent::Moved | IoEvent::Eof => if wants_write {
            CiphertextNext::Again
        } else {
            CiphertextNext::Through
        },
    }
}

/// Where a TLS flush stands.
#[derive(Debug, Clone, Copy, PartialEq, Eq, Structural)]
pub enum TlsFlush {
    /// Ciphertext of an earlier flush is written first.
    Before,
    /// Queued frames are encrypted and written batch by batch.
    Batches,
    /// Ciphertext of the last batches is written.
    After,
    /// The flush is over.
    Done(WriteStatus),
}

impl TlsFlush {
    /// The phase once pending ciphertext is through.
    pub open spec fn through(self) -> TlsFlush {
        match self {
            TlsFlush::Before => TlsFlush::Batches,
            TlsFlush::After => TlsFlush::Done(WriteStatus::Drained),
            _ => self,
        }
    }

    /// The phase after a ciphertext step.
    pub fn on_ciphertext(self, next: CiphertextNext) -> (p: TlsFlush)
        requires
            self is Before || self is After,
        ensures
            p == (match next {
                CiphertextNext::Again => self,
                CiphertextNext::Through => self.through(),
                CiphertextNext::Stop(s) => TlsFlush::Done(s),
            }),
    {
        match next {
            CiphertextNext::Again => self,
            CiphertextNext::Through => match self {
                TlsFlush::Before => TlsFlush::Batches,
                _ => TlsFlush::Done(WriteStatus::Drained),
            },
            CiphertextNext::Stop(s) => TlsFlush::Done(s),
        }
    }

    /// The phase after the batches ended with `status`: only a drained queue goes
    /// on to the remaining ciphertext.
    pub fn on_batches(self, status: WriteStatus, wants_write: bool) -> (p: TlsFlush)
        ensures
            p == (if status != WriteStatus::Drained {
                TlsFlush::Done(status)
            } else if wants_write {
                TlsFlush::After
            } else {
                TlsFlush::Done(WriteStatus::Drained)
            }),
    {
        if status != WriteStatus::Drained {
            TlsFlush::Done(status)
        } else if wants_write {
            TlsFlush::After
        } else {
            TlsFlush::Done(WriteStatus::Drained)
        }
    }
}

/// Where the write of one TLS batch stands.
#[derive(Debug, Clone, Copy, PartialEq, Eq, Structural)]
pub enum TlsBatch {
    /// Pending ciphertext goes out first, to make room in the session.
    MakeRoom,
    /// The batch is handed to the session.
    Encrypt,
    /// The session took this many bytes; its ciphertext goes out.
    Send(usize),
    /// The write is over.
    Done(BatchOutcome),
}

impl TlsBatch {
    /// The outcome of a batch that an event ends before the session took it.
    pub open spec fn refused(ev: IoEvent) -> BatchOutcome {
        match ev {
            IoEvent::WouldBlock => BatchOutcome::WouldBlock,
            IoEvent::Interrupted => BatchOutcome::Interrupted,
            _ => BatchOutcome::Failed,
        }
    }

    /// The state after `ev`; `taken` is what the session took of the batch when
    /// the event is an encryption.
    pub open spec fn stepped(self, ev: IoEvent, taken: usize, wants_write: bool) -> TlsBatch {
        let moved = ev == IoEvent::Moved || ev == IoEvent::Eof;
        match self {
            TlsBatch::MakeRoom => if !moved {
                TlsBatch::Done(Self::refused(ev))
            } else if wants_write {
                self
            } else {
                TlsBatch::Encrypt
            },
            TlsBatch::Encrypt => if !moved {
                TlsBatch::Done(Self::refused(ev))
            } else if wants_write {
                TlsBatch::Send(taken)
            } else {
                TlsBatch::Done(BatchOutcome::Wrote(taken))
            },
            TlsBatch::Send(n) => if ev == IoEvent::WouldBlock {
                TlsBatch::Done(BatchOutcome::Wrote(n))
            } else if !moved {
                TlsBatch::Done(Self::refused(ev))
            } else if wants_write {
                self
            } else {
                TlsBatch::Done(BatchOutcome::Wrote(n))
            },
            TlsBatch::Done(o) => self,
        }
    }

    /// Takes the outcome of the call that the state asked for.
    ///
    /// A blocked socket before the encryption refuses the batch whole; after it,
    /// the ciphertext stays with the session and the bytes count as written, so
    /// that nothing is ever encrypted twice.
    pub fn step(self, ev: IoEvent, taken: usize, wants_write: bool) -> (next: TlsBatch)
        ensures
            next == self.stepped(ev, taken, wants_write),
    {
        let moved: bool = ev == IoEvent::Moved || ev == IoEvent::Eof;
        let refused: BatchOutcome = match ev {
            IoEvent::WouldBlock => BatchOutcome::WouldBlock,
            IoEvent::Interrupted => BatchOutcome::Interrupted,
            _ => BatchOutcome::Failed,
        };
        match self {
            TlsBatch::MakeRoom => if !moved {
                TlsBatch::Done(refused)
            } else if wants_write {
                self
            } else {
                TlsBatch::Encrypt
            },
            TlsBatch::Encrypt => if !moved {
                TlsBatch::Done(refused)
            } else if wants_write {
                TlsBatch::Send(taken)
            } else {
                TlsBatch::Done(BatchOutcome::Wrote(taken))
            },
            TlsBatch::Send(n) => if ev == IoEvent::WouldBlock {
                TlsBatch::Done(BatchOutcome::Wrote(n))
            } else if !moved {
                TlsBatch::Done(refused)
            } else if wants_write {
                self
            } else {
                TlsBatch::Done(BatchOutcome::Wrote(n))
            },
            TlsBatch::Done(o) => self,
        }
    }
}

/// A read goes on for as long as there is something to read: it stays with a source
/// while bytes come or the call is only interrupted, and leaves it for anything else.
pub proof fn reading_goes_on_until_it_blocks(p: ReadPump, ev: IoEvent, wants_write: bool)
    requires
        p.phase == ReadPhase::Socket || p.phase == ReadPhase::TlsIn || p.phase
            == ReadPhase::Plaintext,
    ensures
        ev == IoEvent::Moved || ev == IoEvent::Interrupted <==> p.stepped(ev, wants_write) == p,
        ev == IoEvent::WouldBlock ==> {
            let after = p.stepped(ev, wants_write);
            &&& p.phase != ReadPhase::TlsIn ==> after == (ReadPump { phase: ReadPhase::End, ..p })
            &&& p.phase == ReadPhase::TlsIn && wants_write ==> after == (ReadPump {
                phase: ReadPhase::TlsOut,
                ..p
            })
            &&& p.phase == ReadPhase::TlsIn && !wants_write ==> after == (ReadPump {
                phase: ReadPhase::Plaintext,
                ..p
            })
        },
{
}

/// A connection is given up exactly for a failure that leaves nothing to read, for
/// the end of the stream in a request head, and for a handshake write that was
/// interrupted. While frames are read, the end of the stream and a broken record only
/// end the reading, so that what came before still counts.
pub proof fn only_losses_end_the_connection(p: ReadPump, ev: IoEvent, wants_write: bool)
    requires
        p.phase != ReadPhase::Gone,
    ensures
        ({
            let after = p.stepped(ev, wants_write);
            let reading = p.phase == ReadPhase::Socket || p.phase == ReadPhase::TlsIn;
            &&& after.phase == ReadPhase::Gone <==> {
                ||| ev == IoEvent::Failed && (reading || p.phase == ReadPhase::TlsOut)
                ||| ev == IoEvent::Failed && p.phase == ReadPhase::Plaintext && p.purpose
                    == ReadFor::Head
                ||| ev == IoEvent::Eof && reading && p.purpose == ReadFor::Head
                ||| ev == IoEvent::Interrupted && p.phase == ReadPhase::TlsOut
            }
            &&& after.eof <==> p.eof || (p.purpose == ReadFor::Frames && ((ev == IoEvent::Eof
                && reading) || (ev == IoEvent::Failed && p.phase == ReadPhase::Plaintext)))
            &&& after.flight_blocked <==> p.flight_blocked || (p.phase == ReadPhase::TlsOut && ev
                == IoEvent::WouldBlock)
            &&& after.purpose == p.purpose
        }),
{
}

/// A TLS read always ends with its plaintext: it is pulled after the ciphertext was
/// read, and the ciphertext that the session owes is written first unless the socket
/// takes no more.
pub proof fn plaintext_is_pulled_last(p: ReadPump, ev: IoEvent, wants_write: bool)
    ensures
        ({
            let after = p.stepped(ev, wants_write);
            &&& after.phase == ReadPhase::End && p.phase != ReadPhase::End ==> p.phase
                == ReadPhase::Socket || p.phase == ReadPhase::Plaintext
            &&& after.phase == ReadPhase::Plaintext && p.phase == ReadPhase::TlsIn ==> !wants_write
            &&& after.phase == ReadPhase::Plaintext && p.phase == ReadPhase::TlsOut ==> !wants_write
                || after.flight_blocked
            &&& p.phase == ReadPhase::TlsOut && (ev == IoEvent::Moved || ev == IoEvent::Eof)
                ==> after.phase == (if wants_write {
                ReadPhase::TlsOut
            } else {
                ReadPhase::Plaintext
            })
            &&& p.keeps_bytes(ev) <==> ev == IoEvent::Moved && (p.phase == ReadPhase::Socket
                || p.phase == ReadPhase::Plaintext)
        }),
{
}

/// Frames that a client encodes come out of a buffer one by one, whatever follows
/// them, and what is left never begins with a whole frame.
pub proof fn whole_frames_come_out(
    f: frame::FrameModel,
    mask: Seq<u8>,
    tail: Seq<u8>,
    max_payload: nat,
)
    requires
        mask.len() == 4,
        f.payload.len() <= max_payload,
        f.payload.len() <= u64::MAX,
        frame::well_formed_frame(f.fin, f.opcode, f.payload),
    ensures
        ({
            let wire = frame::client_frame(f.fin, f.opcode, f.payload, mask);
            let all = split_frames(wire + tail, max_payload);
            &&& all.frames == seq![f] + split_frames(tail, max_payload).frames
            &&& all.rest == split_frames(tail, max_payload).rest
        }),
        !(frame::parsed(split_frames(tail, max_payload).rest, max_payload) is Whole),
{
    let wire = frame::client_frame(f.fin, f.opcode, f.payload, mask);
    frame::parse_inverts_client_encoding(f.fin, f.opcode, f.payload, mask, tail, max_payload);
    assert((wire + tail).skip(wire.len() as int) =~= tail);
    lemma_rest_is_no_frame(tail, max_payload);
}

proof fn lemma_rest_is_no_frame(buf: Seq<u8>, max_payload: nat)
    ensures
        !(frame::parsed(split_frames(buf, max_payload).rest, max_payload) is Whole),
    decreases buf.len(),
{
    if frame::parsed(buf, max_payload) is Whole {
        frame::parsed_frames_are_well_formed(buf, max_payload);
        let used = frame::parsed(buf, max_payload)->used;
        lemma_rest_is_no_frame(buf.skip(used as int), max_payload);
    }
}

/// What arrived before the end of the stream still counts: the peer is reported gone
/// only where the stream ended without a whole frame; a violation is reported in
/// place of the frames before it, and an oversized frame as a violation.
pub proof fn frames_before_the_end_count(
    buf: Seq<u8>,
    max_payload: nat,
    eof: bool,
    r: Result<Vec<Frame>, ConnError>,
    left: Seq<u8>,
)
    requires
        frames_result(buf, max_payload, eof, r, left),
    ensures
        ({
            let next = frame::parsed(left, max_payload);
            let frames = split_frames(buf, max_payload).frames;
            &&& r == Err::<Vec<Frame>, _>(ConnError::Closed) <==> eof && frames.len() == 0 && !(
            next is Protocol) && !(next is TooLarge)
            &&& r is Ok <==> !(next is Protocol) && !(next is TooLarge) && !(eof && frames.len()
                == 0)
            &&& r matches Ok(v) ==> v@.len() == frames.len() && forall|i: int|
                0 <= i < frames.len() ==> (#[trigger] v@[i])@ == frames[i]
            &&& next matches frame::Parsed::Protocol(m) ==> r == Err::<Vec<Frame>, _>(
                ConnError::Protocol(m),
            )
            &&& next is TooLarge ==> r == Err::<Vec<Frame>, _>(
                ConnError::Protocol("frame too large"),
            )
        }),
{
    if let Ok(v) = r {
        let frames = split_frames(buf, max_payload).frames;
        assert forall|i: int| 0 <= i < frames.len() implies (#[trigger] v@[i])@ == frames[i] by {
            assert(frame_views(v@)[i] == v@[i]@);
        }
    }
}

/// A batch is encrypted at most once. Until the session has taken it, a socket that
/// blocks refuses it whole; once the session has, the bytes it took are what was
/// written, however much of the ciphertext the socket takes, unless the socket fails.
pub proof fn batches_are_encrypted_once(s: TlsBatch, ev: IoEvent, taken: usize, wants_write: bool)
    ensures
        ({
            let after = s.stepped(ev, taken, wants_write);
            &&& s matches TlsBatch::Send(n) ==> {
                ||| after == s
                ||| after == TlsBatch::Done(BatchOutcome::Wrote(n))
                ||| after == TlsBatch::Done(BatchOutcome::Interrupted) && ev == IoEvent::Interrupted
                ||| after == TlsBatch::Done(BatchOutcome::Failed) && ev == IoEvent::Failed
            }
            &&& s is Send && ev == IoEvent::WouldBlock ==> after is Done && after->Done_0 is Wrote
            &&& (s is MakeRoom || s is Encrypt) && ev == IoEvent::WouldBlock ==> after
                == TlsBatch::Done(BatchOutcome::WouldBlock)
            &&& after is Send && s != after ==> s is Encrypt && after == TlsBatch::Send(taken)
                && wants_write
            &&& after is Encrypt && s != after ==> s is MakeRoom && !wants_write
            &&& s is Encrypt && (ev == IoEvent::Moved || ev == IoEvent::Eof) && !wants_write
                ==> after == TlsBatch::Done(BatchOutcome::Wrote(taken))
            &&& s is MakeRoom && (ev == IoEvent::Moved || ev == IoEvent::Eof) && wants_write
                ==> after == s
            &&& s is Done ==> after == s
            &&& ev == IoEvent::Failed && !(s is Done) ==> after == TlsBatch::Done(
                BatchOutcome::Failed,
            )
        }),
{
}

} // verus!
