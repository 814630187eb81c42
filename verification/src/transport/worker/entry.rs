//! One connection as the worker holds it: its outbound queue, its inbound
//! buffers, its session, and what each inbound frame asks for.
use crate::text;
use crate::transport::buffer::Buffer;
use crate::transport::conn::{CodelParams, ConnModel, ConnState, Connection};
use crate::transport::fanout::{self, SocketId};
use crate::transport::frame::{self, Frame, FrameModel, OpCode};
use vstd::prelude::*;
use vstd::utf8::{decode_utf8, decode_utf8_encode_utf8, encode_utf8, valid_utf8};

verus! {

/// An established session.
pub struct Session {
    pub app_id: String,
    pub socket_id: SocketId,
    /// The negotiated protocol version.
    pub version: u8,
    /// The channels the session is subscribed to.
    pub subscribed: Vec<String>,
    /// The channels whose presence the session takes part in.
    pub presence: Vec<String>,
    /// The channels under which the session is indexed for delivery.
    pub subs: Vec<String>,
    /// A unit of the cluster-wide capacity was taken for this session.
    pub cluster_admitted: bool,
}

impl Session {
    /// A session that has just been admitted.
    pub fn new(app_id: String, socket_id: SocketId, version: u8, cluster_admitted: bool) -> (s:
        Session)
        ensures
            s.app_id == app_id,
            s.socket_id == socket_id,
            s.version == version,
            s.cluster_admitted == cluster_admitted,
            s.subscribed@ == Seq::<String>::empty(),
            s.presence@ == Seq::<String>::empty(),
            s.subs@ == Seq::<String>::empty(),
    {
        Session {
            app_id,
            socket_id,
            version,
            subscribed: Vec::new(),
            presence: Vec::new(),
            subs: Vec::new(),
            cluster_admitted,
        }
    }
}

/// A connection that waits for the lookup of its app.
pub struct PendingEstablish {
    pub key: String,
    pub version: u8,
    /// Tells this wait from later ones in the same slot.
    pub gen: u64,
}

/// A fragmented message in progress.
pub enum Fragment {
    /// A text message: what has arrived of it.
    Text(Vec<u8>),
    /// A binary message, which is ignored.
    Binary,
    /// A text message that outgrew the limit: nothing is held of it.
    Oversize,
}

/// A fragmented message as contracts see it.
pub enum FragModel {
    Idle,
    Text(Seq<u8>),
    Binary,
    Oversize,
}

/// The view of the fragmentation state.
pub open spec fn frag_view(f: Option<Fragment>) -> FragModel {
    match f {
        None => FragModel::Idle,
        Some(Fragment::Text(b)) => FragModel::Text(b@),
        Some(Fragment::Binary) => FragModel::Binary,
        Some(Fragment::Oversize) => FragModel::Oversize,
    }
}

impl FragModel {
    /// The bytes held for the message.
    pub open spec fn held(self) -> nat {
        match self {
            FragModel::Text(b) => b.len(),
            _ => 0,
        }
    }
}

/// The state that the first fragment of a text message opens.
pub open spec fn opened(payload: Seq<u8>, max_message_bytes: nat) -> FragModel {
    if payload.len() > max_message_bytes {
        FragModel::Oversize
    } else {
        FragModel::Text(payload)
    }
}

/// What an inbound frame comes to.
pub enum Verdict {
    /// Nothing to do yet.
    Wait,
    /// A text message is complete.
    Message(Seq<u8>),
    /// A ping to answer.
    Pong(Seq<u8>),
    /// A protocol violation to close for.
    Fail { code: u16, reason: Seq<char> },
    /// A close to echo with this code.
    Echo(u16),
}

/// The code that answers a close: the peer's own where it has one that may be
/// sent, otherwise 1000.
pub open spec fn echo_code(payload: Seq<u8>) -> u16 {
    let code = payload[0] * 256 + payload[1];
    if payload.len() >= 2 && 1000 <= code <= 4999 && code != 1005 && code != 1006 && code != 1015 {
        code as u16
    } else {
        1000
    }
}

/// What a frame comes to in a fragmentation state, and the state after it.
pub open spec fn frame_verdict(frag: FragModel, f: FrameModel, max_message_bytes: nat) -> (
    FragModel,
    Verdict,
) {
    let interleaved = Verdict::Fail {
        code: 1002,
        reason: "data frame interleaved with a fragmented message"@,
    };
    match f.opcode {
        OpCode::Text => if !(frag is Idle) {
            (FragModel::Idle, interleaved)
        } else if !f.fin {
            (opened(f.payload, max_message_bytes), Verdict::Wait)
        } else {
            (FragModel::Idle, Verdict::Message(f.payload))
        },
        OpCode::Binary => if frag is Text || frag is Oversize {
            (FragModel::Idle, interleaved)
        } else if !f.fin {
            (FragModel::Binary, Verdict::Wait)
        } else {
            (frag, Verdict::Wait)
        },
        OpCode::Continuation => match frag {
            FragModel::Idle => (
                FragModel::Idle,
                Verdict::Fail {
                    code: 1002,
                    reason: "continuation frame without a fragmented message"@,
                },
            ),
            FragModel::Text(held) => if held.len() + f.payload.len() > max_message_bytes {
                (
                    if f.fin {
                        FragModel::Idle
                    } else {
                        FragModel::Oversize
                    },
                    Verdict::Wait,
                )
            } else if f.fin {
                (FragModel::Idle, Verdict::Message(held + f.payload))
            } else {
                (FragModel::Text(held + f.payload), Verdict::Wait)
            },
            _ => (
                if f.fin {
                    FragModel::Idle
                } else {
                    frag
                },
                Verdict::Wait,
            ),
        },
        OpCode::Ping => (frag, Verdict::Pong(f.payload)),
        OpCode::Pong => (frag, Verdict::Wait),
        OpCode::Close => (frag, Verdict::Echo(echo_code(f.payload))),
    }
}

/// What the caller does after an inbound frame.
pub enum FrameStep {
    /// Go on with the next frame.
    Next,
    /// Go on; what was queued is flushed once the batch is through.
    Queued,
    /// Decode and handle this text message, then go on.
    Deliver(String),
    /// Flush, then go on unless the flush closes the connection.
    FlushThenNext,
    /// Flush and close.
    FlushThenClose,
    /// Close.
    Close,
}

/// A close frame with a code and a reason.
pub open spec fn close_frame(code: u16, reason: Seq<char>) -> Seq<u8> {
    frame::server_frame(
        true,
        OpCode::Close,
        seq![(code / 256) as u8, (code % 256) as u8] + encode_utf8(reason),
    )
}

/// The state that the first fragment of a text message opens: what it carries, or
/// the ignoring state when it is already over the limit.
pub fn open_text_fragment(payload: &[u8], max_message_bytes: usize) -> (f: Fragment)
    ensures
        frag_view(Some(f)) == opened(payload@, max_message_bytes as nat),
{
    if payload.len() > max_message_bytes {
        return Fragment::Oversize;
    }
    let mut buf: Vec<u8> = Vec::new();
    buf.extend_from_slice(payload);
    assert(buf@ =~= payload@);
    Fragment::Text(buf)
}

/// The status code that answers a close frame.
pub fn echo_close_code(payload: &[u8]) -> (code: u16)
    ensures
        code == echo_code(payload@),
{
    if payload.len() >= 2 {
        let code: u16 = payload[0] as u16 * 256 + payload[1] as u16;
        if 1000 <= code && code <= 4999 && code != 1005 && code != 1006 && code != 1015 {
            return code;
        }
    }
    1000
}

/// A connection of the worker.
pub struct Entry {
    pub conn: Connection,
    /// Bytes received and not parsed yet.
    pub inbuf: Buffer,
    pub session: Option<Session>,
    pub fragment: Option<Fragment>,
    pub pending_establish: Option<PendingEstablish>,
}

/// A connection as contracts see it.
pub struct EntryModel {
    pub conn: ConnModel,
    pub inbuf: Seq<u8>,
    pub session: Option<Session>,
    pub fragment: FragModel,
    pub pending_establish: Option<PendingEstablish>,
}

impl EntryModel {
    /// A connection that has just been accepted.
    pub open spec fn fresh(high_water: nat, codel: CodelParams) -> EntryModel {
        EntryModel {
            conn: ConnModel::fresh(high_water, codel),
            inbuf: Seq::empty(),
            session: None,
            fragment: FragModel::Idle,
            pending_establish: None,
        }
    }

    /// The outbound queue is between writes and the held fragment is billed.
    pub open spec fn valid(self) -> bool {
        &&& self.conn.valid()
        &&& self.conn.in_flight.len() == 0
        &&& self.conn.reassembly == self.fragment.held()
    }

    /// The connection has a session and frames flow on it.
    pub open spec fn open(self) -> bool {
        self.session is Some && self.conn.state == ConnState::Open
    }
}

impl View for Entry {
    type V = EntryModel;

    open spec fn view(&self) -> EntryModel {
        EntryModel {
            conn: self.conn@,
            inbuf: self.inbuf@,
            session: self.session,
            fragment: frag_view(self.fragment),
            pending_establish: self.pending_establish,
        }
    }
}

impl Entry {
    /// The outbound queue is between writes and the held fragment is billed.
    pub open spec fn wf(&self) -> bool {
        &&& self.conn.wf()
        &&& self.conn@.valid()
        &&& self.conn@.in_flight.len() == 0
        &&& self.conn@.reassembly == frag_view(self.fragment).held()
    }

    /// A connection that has just been accepted.
    pub fn new(high_water: usize, codel: CodelParams) -> (e: Entry)
        ensures
            e.wf(),
            e@ == EntryModel::fresh(high_water as nat, codel),
            e.conn@.pending().len() == 0,
            e.conn@.accounted() == 0,
    {
        let mut conn = Connection::new(high_water);
        conn.set_codel(codel);
        proof {
            conn.wf_is_valid();
            assert(conn@.pending() =~= Seq::empty());
        }
        Entry {
            conn,
            inbuf: Buffer::new(),
            session: None,
            fragment: None,
            pending_establish: None,
        }
    }

    /// Replaces the fragmentation state and bills what it holds.
    pub fn set_fragment(&mut self, fragment: Option<Fragment>)
        requires
            old(self).wf(),
            old(self).conn@.accounted() - old(self).conn@.reassembly + frag_view(fragment).held()
                <= isize::MAX,
        ensures
            final(self).wf(),
            final(self).fragment == fragment,
            final(self).conn@ == (ConnModel {
                reassembly: frag_view(fragment).held(),
                ..old(self).conn@
            }),
            final(self).inbuf == old(self).inbuf,
            final(self).session == old(self).session,
            final(self).pending_establish == old(self).pending_establish,
    {
        let n: usize = match &fragment {
            Some(Fragment::Text(buf)) => buf.len(),
            _ => 0,
        };
        self.conn.set_reassembly_bytes(n);
        self.fragment = fragment;
        proof {
            self.conn.wf_is_valid();
        }
    }

    /// Queues a frame of the given bytes.
    fn queue_bytes(&mut self, bytes: Buffer, now_ns: u64)
        requires
            old(self).wf(),
            old(self).conn@.room(bytes@.len(), 1),
        ensures
            final(self).wf(),
            old(self).conn@.sent(bytes@, now_ns, final(self).conn@),
            final(self).conn@.accounted() <= old(self).conn@.accounted() + bytes@.len(),
            final(self).conn@.frame_count() == old(self).conn@.frame_count() + 1,
            final(self).fragment == old(self).fragment,
            final(self).inbuf == old(self).inbuf,
            final(self).session == old(self).session,
            final(self).pending_establish == old(self).pending_establish,
    {
        let f = fanout::share(bytes.as_slice());
        let _dropped: usize = self.conn.queue(f, now_ns);
        assert(self.conn@ == old(self).conn@.enqueued((f, now_ns)));
    }

    /// Queues a text frame.
    pub fn queue_text(&mut self, text: &str, now_ns: u64)
        requires
            old(self).wf(),
            old(self).conn@.room(fanout::text_frame(text@).len(), 1),
        ensures
            final(self).wf(),
            old(self).conn@.sent(fanout::text_frame(text@), now_ns, final(self).conn@),
            final(self).conn@.accounted() <= old(self).conn@.accounted() + fanout::text_frame(
                text@,
            ).len(),
            final(self).conn@.frame_count() == old(self).conn@.frame_count() + 1,
            final(self).fragment == old(self).fragment,
            final(self).inbuf == old(self).inbuf,
            final(self).session == old(self).session,
            final(self).pending_establish == old(self).pending_establish,
    {
        let mut out: Buffer = Buffer::new();
        frame::encode_text(&mut out, text.as_bytes());
        assert(out@ =~= fanout::text_frame(text@));
        self.queue_bytes(out, now_ns);
    }

    /// Queues a close frame.
    pub fn queue_close_frame(&mut self, code: u16, reason: &str, now_ns: u64)
        requires
            old(self).wf(),
            old(self).conn@.room(close_frame(code, reason@).len(), 1),
        ensures
            final(self).wf(),
            old(self).conn@.sent(close_frame(code, reason@), now_ns, final(self).conn@),
            final(self).conn@.accounted() <= old(self).conn@.accounted() + close_frame(
                code,
                reason@,
            ).len(),
            final(self).conn@.frame_count() == old(self).conn@.frame_count() + 1,
            final(self).fragment == old(self).fragment,
            final(self).inbuf == old(self).inbuf,
            final(self).session == old(self).session,
            final(self).pending_establish == old(self).pending_establish,
    {
        let mut body: Vec<u8> = Vec::new();
        body.push((code / 256) as u8);
        body.push((code % 256) as u8);
        body.extend_from_slice(reason.as_bytes());
        assert(body@ =~= seq![(code / 256) as u8, (code % 256) as u8] + encode_utf8(reason@));
        let mut out: Buffer = Buffer::new();
        frame::encode(&mut out, true, OpCode::Close, body.as_slice());
        assert(out@ =~= close_frame(code, reason@));
        self.queue_bytes(out, now_ns);
    }
}

/// The bound on the size of a close frame.
pub proof fn lemma_close_frame_len(code: u16, reason: Seq<char>)
    requires
        reason.len() <= 48,
    ensures
        close_frame(code, reason).len() <= 210,
{
    text::lemma_utf8_len(reason);
}

/// What a frame leads to: what to do next, and the outbound queue afterwards.
pub open spec fn verdict_applied(
    verdict: Verdict,
    has_session: bool,
    before: ConnModel,
    now: u64,
    step: FrameStep,
    after: ConnModel,
) -> bool {
    match verdict {
        Verdict::Wait => step is Next && after == before,
        Verdict::Pong(p) => step is FlushThenNext && before.sent(
            frame::server_frame(true, OpCode::Pong, p),
            now,
            after,
        ),
        Verdict::Fail { code, reason } => step is FlushThenClose && before.sent(
            close_frame(code, reason),
            now,
            after,
        ),
        Verdict::Echo(code) => step is FlushThenClose && before.sent(
            close_frame(code, Seq::empty()),
            now,
            after,
        ),
        Verdict::Message(m) => if !valid_utf8(m) {
            step is FlushThenClose && before.sent(
                close_frame(1007, "invalid UTF-8 in a text message"@),
                now,
                after,
            )
        } else if !has_session {
            step is Close && after == before
        } else {
            &&& after == before
            &&& step matches FrameStep::Deliver(t) && t@ == decode_utf8(m)
        },
    }
}

/// A frame that a connection took: the connection before it, what the caller was
/// told, and the connection after it.
pub struct FrameTaken {
    pub before: EntryModel,
    pub frame: FrameModel,
    pub now_ns: u64,
    pub step: FrameStep,
    pub after: EntryModel,
}

impl FrameTaken {
    /// What the frame comes to was done: the fragmentation state has moved on, what it
    /// holds is billed, and the step and the outbound queue are as they follow.
    pub open spec fn follows(self, max_message_bytes: nat) -> bool {
        let v = frame_verdict(self.before.fragment, self.frame, max_message_bytes);
        &&& self.after.fragment == v.0
        &&& verdict_applied(
            v.1,
            self.before.session is Some,
            ConnModel { reassembly: v.0.held(), ..self.before.conn },
            self.now_ns,
            self.step,
            self.after.conn,
        )
    }

    /// The caller was told to close the connection.
    pub open spec fn closes(self) -> bool {
        self.step is FlushThenClose || self.step is Close
    }

    /// A close frame with this code was queued, and the caller was told to flush it
    /// and close.
    pub open spec fn closes_with(self, code: u16) -> bool {
        &&& self.step is FlushThenClose
        &&& exists|reason: Seq<char>|
            (ConnModel {
                reassembly: self.after.fragment.held(),
                ..self.before.conn
            }).sent(#[trigger] close_frame(code, reason), self.now_ns, self.after.conn)
    }
}

impl Entry {
    /// Takes one inbound frame.
    ///
    /// Text messages are reassembled from their fragments and delivered when
    /// complete; one that outgrows `max_message_bytes` is dropped without being
    /// held. Binary messages are ignored. A ping is answered, a close is echoed,
    /// and a violation of the framing rules closes the connection.
    pub fn on_frame(&mut self, f: Frame, max_message_bytes: usize, now_ns: u64) -> (step: FrameStep)
        requires
            old(self).wf(),
            old(self).conn@.room(f@.payload.len() + 256, 1),
        ensures
            final(self).wf(),
            (FrameTaken {
                before: old(self)@,
                frame: f@,
                now_ns,
                step,
                after: final(self)@,
            }).follows(max_message_bytes as nat),
            old(self).fragment is None && f@.opcode == OpCode::Text && f@.fin ==> {
                &&& final(self).fragment is None
                &&& valid_utf8(f@.payload) && old(self).session is Some ==> (step matches
                    FrameStep::Deliver(t) && encode_utf8(t@) == f@.payload) && final(self).conn@
                    == old(self).conn@
            },
            final(self).conn@.accounted() <= old(self).conn@.accounted() + f@.payload.len() + 256,
            final(self).conn@.frame_count() <= old(self).conn@.frame_count() + 1,
            final(self).inbuf == old(self).inbuf,
            final(self).session == old(self).session,
            final(self).pending_establish == old(self).pending_establish,
    {
        proof {
            if valid_utf8(f@.payload) {
                decode_utf8_encode_utf8(f@.payload);
            }
            reveal_strlit("data frame interleaved with a fragmented message");
            reveal_strlit("continuation frame without a fragmented message");
            lemma_close_frame_len(1002, "data frame interleaved with a fragmented message"@);
            lemma_close_frame_len(1002, "continuation frame without a fragmented message"@);
        }
        match f.opcode {
            OpCode::Text => {
                if self.fragment.is_some() {
                    return self.fail(
                        1002,
                        "data frame interleaved with a fragmented message",
                        now_ns,
                    );
                }
                if !f.fin {
                    let opened_with = open_text_fragment(f.payload.as_slice(), max_message_bytes);
                    self.set_fragment(Some(opened_with));
                    FrameStep::Next
                } else {
                    self.deliver(f.payload, now_ns)
                }
            },
            OpCode::Binary => {
                let open: bool = match &self.fragment {
                    Some(Fragment::Text(_)) => true,
                    Some(Fragment::Oversize) => true,
                    _ => false,
                };
                if open {
                    return self.fail(
                        1002,
                        "data frame interleaved with a fragmented message",
                        now_ns,
                    );
                }
                if !f.fin && self.fragment.is_none() {
                    self.set_fragment(Some(Fragment::Binary));
                }
                FrameStep::Next
            },
            OpCode::Continuation => self.on_continuation(
                f.payload,
                f.fin,
                max_message_bytes,
                now_ns,
            ),
            OpCode::Ping => {
                let mut out: Buffer = Buffer::new();
                frame::encode(&mut out, true, OpCode::Pong, f.payload.as_slice());
                assert(out@ =~= frame::server_frame(true, OpCode::Pong, f@.payload));
                self.queue_bytes(out, now_ns);
                FrameStep::FlushThenNext
            },
            OpCode::Pong => FrameStep::Next,
            OpCode::Close => {
                let code: u16 = echo_close_code(f.payload.as_slice());
                proof {
                    reveal_strlit("");
                    assert(""@ =~= Seq::<char>::empty());
                    lemma_close_frame_len(code, ""@);
                }
                self.queue_close_frame(code, "", now_ns);
                FrameStep::FlushThenClose
            },
        }
    }

    fn on_continuation(
        &mut self,
        payload: Vec<u8>,
        fin: bool,
        max_message_bytes: usize,
        now_ns: u64,
    ) -> (step: FrameStep)
        requires
            old(self).wf(),
            old(self).conn@.room(payload@.len() + 256, 1),
        ensures
            final(self).wf(),
            ({
                let v = frame_verdict(
                    frag_view(old(self).fragment),
                    FrameModel { fin, opcode: OpCode::Continuation, payload: payload@ },
                    max_message_bytes as nat,
                );
                &&& frag_view(final(self).fragment) == v.0
                &&& verdict_applied(
                    v.1,
                    old(self).session is Some,
                    ConnModel { reassembly: v.0.held(), ..old(self).conn@ },
                    now_ns,
                    step,
                    final(self).conn@,
                )
            }),
            final(self).conn@.accounted() <= old(self).conn@.accounted() + payload@.len() + 256,
            final(self).conn@.frame_count() <= old(self).conn@.frame_count() + 1,
            final(self).inbuf == old(self).inbuf,
            final(self).session == old(self).session,
            final(self).pending_establish == old(self).pending_establish,
    {
        proof {
            reveal_strlit("continuation frame without a fragmented message");
            lemma_close_frame_len(1002, "continuation frame without a fragmented message"@);
        }
        let ghost m0 = self.conn@;
        let taken: Option<Fragment> = self.take_fragment();
        match taken {
            None => self.fail(1002, "continuation frame without a fragmented message", now_ns),
            Some(Fragment::Binary) => {
                if !fin {
                    self.set_fragment(Some(Fragment::Binary));
                }
                FrameStep::Next
            },
            Some(Fragment::Oversize) => {
                if !fin {
                    self.set_fragment(Some(Fragment::Oversize));
                }
                FrameStep::Next
            },
            Some(Fragment::Text(buf)) => {
                let mut buf: Vec<u8> = buf;
                let ghost held = buf@;
                let assembled: usize = buf.len().saturating_add(payload.len());
                if assembled > max_message_bytes {
                    if !fin {
                        self.set_fragment(Some(Fragment::Oversize));
                    }
                    return FrameStep::Next;
                }
                buf.extend_from_slice(payload.as_slice());
                assert(buf@ =~= held + payload@);
                if fin {
                    self.deliver(buf, now_ns)
                } else {
                    self.set_fragment(Some(Fragment::Text(buf)));
                    FrameStep::Next
                }
            },
        }
    }

    /// Takes the fragmentation state out; nothing is billed for it any more.
    pub fn take_fragment(&mut self) -> (f: Option<Fragment>)
        requires
            old(self).wf(),
        ensures
            final(self).wf(),
            f == old(self).fragment,
            final(self).fragment is None,
            final(self).conn@ == (ConnModel { reassembly: 0, ..old(self).conn@ }),
            final(self).inbuf == old(self).inbuf,
            final(self).session == old(self).session,
            final(self).pending_establish == old(self).pending_establish,
    {
        self.conn.set_reassembly_bytes(0);
        proof {
            self.conn.wf_is_valid();
        }
        self.fragment.take()
    }

    /// Closes for a violation of the framing rules.
    fn fail(&mut self, code: u16, reason: &str, now_ns: u64) -> (step: FrameStep)
        requires
            old(self).wf(),
            old(self).conn@.room(256, 1),
            close_frame(code, reason@).len() <= 256,
        ensures
            final(self).wf(),
            step is FlushThenClose,
            final(self).fragment is None,
            (ConnModel { reassembly: 0, ..old(self).conn@ }).sent(
                close_frame(code, reason@),
                now_ns,
                final(self).conn@,
            ),
            final(self).conn@.accounted() <= old(self).conn@.accounted() + 256,
            final(self).conn@.frame_count() == old(self).conn@.frame_count() + 1,
            final(self).inbuf == old(self).inbuf,
            final(self).session == old(self).session,
            final(self).pending_establish == old(self).pending_establish,
    {
        self.set_fragment(None);
        self.queue_close_frame(code, reason, now_ns);
        FrameStep::FlushThenClose
    }

    /// Delivers a complete text message, which must be valid UTF-8.
    fn deliver(&mut self, payload: Vec<u8>, now_ns: u64) -> (step: FrameStep)
        requires
            old(self).wf(),
            old(self).fragment is None,
            old(self).conn@.room(256, 1),
        ensures
            final(self).wf(),
            verdict_applied(
                Verdict::Message(payload@),
                old(self).session is Some,
                old(self).conn@,
                now_ns,
                step,
                final(self).conn@,
            ),
            final(self).fragment is None,
            final(self).conn@.accounted() <= old(self).conn@.accounted() + 256,
            final(self).conn@.frame_count() <= old(self).conn@.frame_count() + 1,
            final(self).inbuf == old(self).inbuf,
            final(self).session == old(self).session,
            final(self).pending_establish == old(self).pending_establish,
    {
        match text::utf8_text(payload.as_slice()) {
            None => {
                proof {
                    reveal_strlit("invalid UTF-8 in a text message");
                    lemma_close_frame_len(1007, "invalid UTF-8 in a text message"@);
                }
                self.fail(1007, "invalid UTF-8 in a text message", now_ns)
            },
            Some(t) => {
                if self.session.is_none() {
                    FrameStep::Close
                } else {
                    FrameStep::Deliver(t)
                }
            },
        }
    }

    /// Takes one inbound frame of an echo worker: data frames go back as they
    /// came, a ping is answered, a close closes.
    pub fn on_echo_frame(&mut self, f: Frame, now_ns: u64) -> (step: FrameStep)
        requires
            old(self).wf(),
            old(self).conn@.room(f@.payload.len() + 256, 1),
        ensures
            final(self).wf(),
            match f@.opcode {
                OpCode::Close => step is Close && final(self).conn@ == old(self).conn@,
                OpCode::Pong => step is Next && final(self).conn@ == old(self).conn@,
                OpCode::Ping => step is Queued && old(self).conn@.sent(
                    frame::server_frame(true, OpCode::Pong, f@.payload),
                    now_ns,
                    final(self).conn@,
                ),
                _ => step is Queued && old(self).conn@.sent(
                    frame::server_frame(f@.fin, f@.opcode, f@.payload),
                    now_ns,
                    final(self).conn@,
                ),
            },
            final(self).fragment == old(self).fragment,
            final(self).inbuf == old(self).inbuf,
            final(self).session == old(self).session,
            final(self).pending_establish == old(self).pending_establish,
    {
        let (fin, opcode) = match f.opcode {
            OpCode::Pong => return FrameStep::Next,
            OpCode::Close => return FrameStep::Close,
            OpCode::Ping => (true, OpCode::Pong),
            other => (f.fin, other),
        };
        let mut out: Buffer = Buffer::new();
        frame::encode(&mut out, fin, opcode, f.payload.as_slice());
        assert(out@ =~= frame::server_frame(fin, opcode, f@.payload));
        self.queue_bytes(out, now_ns);
        FrameStep::Queued
    }
}

/// A data frame that the open message, or the lack of one, does not admit: a
/// continuation of nothing, a text frame while any message is open, or a binary
/// frame while a text message is.
pub open spec fn out_of_place(frag: FragModel, opcode: OpCode) -> bool {
    match opcode {
        OpCode::Continuation => frag is Idle,
        OpCode::Text => !(frag is Idle),
        OpCode::Binary => frag is Text || frag is Oversize,
        _ => false,
    }
}

/// A message that was never begun cannot be continued, and one that is open
/// admits no other data frame: a frame out of place, and no other, closes the
/// connection with 1002.
pub proof fn fragments_never_interleave(frag: FragModel, f: FrameModel, max_message_bytes: nat)
    ensures
        ({
            let verdict = frame_verdict(frag, f, max_message_bytes).1;
            &&& verdict is Fail <==> out_of_place(frag, f.opcode)
            &&& verdict matches Verdict::Fail { code, .. } ==> code == 1002
        }),
{
}

/// Whatever a peer sends, no more than the limit is ever held for a message.
pub proof fn held_bytes_are_bounded(frag: FragModel, f: FrameModel, max_message_bytes: nat)
    requires
        frag.held() <= max_message_bytes,
    ensures
        frame_verdict(frag, f, max_message_bytes).0.held() <= max_message_bytes,
{
}

/// Control frames between the fragments of a message leave it as it is.
pub proof fn control_frames_keep_the_message(frag: FragModel, f: FrameModel, max_message_bytes: nat)
    requires
        f.opcode.control(),
    ensures
        frame_verdict(frag, f, max_message_bytes).0 == frag,
{
}

/// A text message in one frame is delivered as it came: with no message open, a
/// final text frame, of whatever length, hands over the text whose UTF-8 form is
/// its payload, queues nothing and leaves nothing open. Where the payload is not
/// UTF-8 the connection is closed with 1007, and where there is no session yet it is
/// closed without a word.
pub proof fn whole_messages_are_delivered(t: FrameTaken, max_message_bytes: nat)
    requires
        t.follows(max_message_bytes),
        t.before.valid(),
        t.before.fragment is Idle,
        t.frame.opcode == OpCode::Text,
        t.frame.fin,
    ensures
        t.after.fragment is Idle,
        !valid_utf8(t.frame.payload) ==> t.closes_with(1007),
        valid_utf8(t.frame.payload) ==> t.after.conn == t.before.conn,
        valid_utf8(t.frame.payload) && t.before.session is None ==> t.step is Close,
        valid_utf8(t.frame.payload) && t.before.session is Some ==> (t.step matches
            FrameStep::Deliver(text) && encode_utf8(text@) == t.frame.payload),
{
    if valid_utf8(t.frame.payload) {
        decode_utf8_encode_utf8(t.frame.payload);
    }
}

/// A message is delivered only when it is complete, and then in full: the bytes that
/// are handed over are those held for it followed by those of the final frame, and
/// they fit the limit unless the message came in one frame. Nothing but a text
/// message is ever delivered.
pub proof fn deliveries_are_complete_messages(t: FrameTaken, max_message_bytes: nat)
    requires
        t.follows(max_message_bytes),
        t.before.valid(),
        t.step is Deliver,
    ensures
        t.frame.fin,
        t.after.fragment is Idle,
        t.before.session is Some,
        t.after.conn == (ConnModel { reassembly: 0, ..t.before.conn }),
        t.step matches FrameStep::Deliver(text) && match t.frame.opcode {
            OpCode::Text => t.before.fragment is Idle && encode_utf8(text@) == t.frame.payload,
            OpCode::Continuation => t.before.fragment matches FragModel::Text(held) && encode_utf8(
                text@,
            ) == held + t.frame.payload && held.len() + t.frame.payload.len() <= max_message_bytes,
            _ => false,
        },
{
    let m = frame_verdict(t.before.fragment, t.frame, max_message_bytes).1->Message_0;
    decode_utf8_encode_utf8(m);
}

/// A ping is answered with a pong of the same payload, which is flushed at once, and
/// a pong asks for nothing; neither touches the message that is open.
pub proof fn pings_are_answered(t: FrameTaken, max_message_bytes: nat)
    requires
        t.follows(max_message_bytes),
        t.before.valid(),
    ensures
        t.frame.opcode == OpCode::Ping ==> {
            &&& t.step is FlushThenNext
            &&& t.after.fragment == t.before.fragment
            &&& t.before.conn.sent(
                frame::server_frame(true, OpCode::Pong, t.frame.payload),
                t.now_ns,
                t.after.conn,
            )
        },
        t.frame.opcode == OpCode::Pong ==> {
            &&& t.step is Next
            &&& t.after.fragment == t.before.fragment
            &&& t.after.conn == t.before.conn
        },
{
    assert((ConnModel { reassembly: t.before.fragment.held(), ..t.before.conn }) == t.before.conn);
}

/// A close is answered with a close and ends the connection. The answer carries the
/// peer's own code, read big-endian, where that is between 1000 and 4999 and none of
/// those that must not be sent (1005, 1006 and 1015); else it carries 1000.
pub proof fn closes_are_echoed(t: FrameTaken, max_message_bytes: nat)
    requires
        t.follows(max_message_bytes),
        t.frame.opcode == OpCode::Close,
    ensures
        t.step is FlushThenClose,
        ({
            let p = t.frame.payload;
            let c = p[0] * 256 + p[1];
            let own = p.len() >= 2 && c >= 1000 && c < 5000 && c != 1005 && c != 1006 && c != 1015;
            &&& own ==> t.closes_with(c as u16) && echo_code(p) == c
            &&& !own ==> t.closes_with(1000) && echo_code(p) == 1000
        }),
{
}

/// A frame out of place closes with 1002; a binary message is passed over whole,
/// in one frame or in many: nothing is held, queued or delivered for it, and its
/// final frame leaves nothing open.
pub proof fn binary_messages_are_passed_over(t: FrameTaken, max_message_bytes: nat)
    requires
        t.follows(max_message_bytes),
        t.before.valid(),
        t.frame.opcode == OpCode::Binary || t.frame.opcode == OpCode::Continuation,
        t.frame.opcode == OpCode::Binary ==> t.before.fragment is Idle,
        t.frame.opcode == OpCode::Continuation ==> t.before.fragment is Binary,
    ensures
        t.step is Next,
        t.after.conn == t.before.conn,
        t.frame.fin ==> t.after.fragment is Idle,
        !t.frame.fin ==> t.after.fragment is Binary,
{
    assert((ConnModel { reassembly: 0, ..t.before.conn }) == t.before.conn);
}

/// A close frame reads back as one: a final unmasked close frame whose payload is
/// the code, big-endian, and then the reason.
pub proof fn close_frames_read_back(code: u16, reason: Seq<char>)
    requires
        encode_utf8(reason).len() <= 123,
    ensures
        ({
            let wire = close_frame(code, reason);
            &&& wire[0] == 0x88
            &&& wire[1] == 2 + encode_utf8(reason).len()
            &&& wire.len() == 2 + wire[1]
            &&& wire[2] * 256 + wire[3] == code
            &&& wire.skip(4) == encode_utf8(reason)
        }),
{
    let p = seq![(code / 256) as u8, (code % 256) as u8] + encode_utf8(reason);
    frame::server_frames_read_back(true, OpCode::Close, p, Seq::empty());
    let wire = close_frame(code, reason);
    assert(wire + Seq::<u8>::empty() =~= wire);
    assert(p.len() == 2 + encode_utf8(reason).len());
    assert(wire.subrange(2, 2 + p.len() as int) == p);
    assert(wire[2] == wire.subrange(2, 2 + p.len() as int)[0]);
    assert(wire[3] == wire.subrange(2, 2 + p.len() as int)[1]);
    assert(wire.skip(4) =~= wire.subrange(2, 2 + p.len() as int).skip(2));
    assert(p.skip(2) =~= encode_utf8(reason));
    frame::opcodes_are_registered(OpCode::Close, (wire[0] % 128) as u8);
}

/// The frames of one connection in the order they were taken, from a connection that
/// holds no more than the limit. Between two frames the outbound queue may change;
/// the fragmentation state and what is billed for it carry over. Nothing is taken
/// after the caller was told to close.
pub open spec fn frame_run(run: Seq<FrameTaken>, max_message_bytes: nat) -> bool {
    &&& run.len() > 0 ==> run[0].before.fragment.held() <= max_message_bytes
        && run[0].before.conn.reassembly == run[0].before.fragment.held()
    &&& forall|i: int| 0 <= i < run.len() ==> (#[trigger] run[i]).follows(max_message_bytes)
    &&& forall|i: int, j: int|
        0 <= i && j == i + 1 && j < run.len() ==> {
            &&& (#[trigger] run[j]).before.fragment == (#[trigger] run[i]).after.fragment
            &&& run[j].before.conn.reassembly == run[i].after.conn.reassembly
            &&& !run[i].closes()
        }
}

/// Over a whole run of frames, what is billed for reassembly is what the open text
/// message holds, and never more than the limit.
pub proof fn runs_hold_within_the_limit(run: Seq<FrameTaken>, max_message_bytes: nat, i: int)
    requires
        frame_run(run, max_message_bytes),
        0 <= i < run.len(),
    ensures
        run[i].before.conn.reassembly == run[i].before.fragment.held(),
        run[i].before.fragment.held() <= max_message_bytes,
        run[i].after.conn.reassembly == run[i].after.fragment.held(),
        run[i].after.fragment.held() <= max_message_bytes,
    decreases i,
{
    if i > 0 {
        runs_hold_within_the_limit(run, max_message_bytes, i - 1);
        assert(run[i].before.fragment == run[i - 1].after.fragment);
    }
    assert(run[i].follows(max_message_bytes));
    held_bytes_are_bounded(run[i].before.fragment, run[i].frame, max_message_bytes);
}

/// A run of frames ends at the first frame that is out of place, with a close frame
/// of code 1002. Otherwise only a close from the peer ends it, or a complete text
/// message that is not UTF-8 or comes before there is a session.
pub proof fn runs_end_at_a_frame_out_of_place(
    run: Seq<FrameTaken>,
    max_message_bytes: nat,
    i: int,
)
    requires
        frame_run(run, max_message_bytes),
        0 <= i < run.len(),
    ensures
        out_of_place(run[i].before.fragment, run[i].frame.opcode) ==> run[i].closes_with(1002) && i
            == run.len() - 1,
        run[i].closes() <==> {
            ||| out_of_place(run[i].before.fragment, run[i].frame.opcode)
            ||| run[i].frame.opcode == OpCode::Close
            ||| frame_verdict(
                run[i].before.fragment,
                run[i].frame,
                max_message_bytes,
            ).1 matches Verdict::Message(m) && (!valid_utf8(m) || run[i].before.session is None)
        },
{
    assert(run[i].follows(max_message_bytes));
    fragments_never_interleave(run[i].before.fragment, run[i].frame, max_message_bytes);
    if i < run.len() - 1 {
        assert(run[i + 1].before.fragment == run[i].after.fragment);
    }
}

/// The payload bytes of the data frames among the first `n` of a run.
pub open spec fn data_bytes(run: Seq<FrameTaken>, n: int) -> nat
    decreases n,
{
    if n <= 0 {
        0
    } else if run[n - 1].frame.opcode.control() {
        data_bytes(run, n - 1)
    } else {
        data_bytes(run, n - 1) + run[n - 1].frame.payload.len()
    }
}

/// A run that is one fragmented text message: its first fragment, continuations up
/// to the final one, and pings and pongs between them.
pub open spec fn one_text_message(run: Seq<FrameTaken>) -> bool {
    &&& run.len() >= 2
    &&& run[0].before.fragment is Idle
    &&& run[0].frame.opcode == OpCode::Text
    &&& !run[0].frame.fin
    &&& forall|i: int|
        0 < i < run.len() ==> {
            let f = (#[trigger] run[i]).frame;
            ||| f.opcode == OpCode::Ping && i < run.len() - 1
            ||| f.opcode == OpCode::Pong && i < run.len() - 1
            ||| f.opcode == OpCode::Continuation && (f.fin <==> i == run.len() - 1)
        }
}

/// A fragmented text message over the limit is dropped: nothing is delivered, the
/// connection is not closed, and after the final fragment nothing is open or held.
pub proof fn text_over_the_limit_is_dropped(run: Seq<FrameTaken>, max_message_bytes: nat, i: int)
    requires
        frame_run(run, max_message_bytes),
        one_text_message(run),
        data_bytes(run, run.len() as int) > max_message_bytes,
        0 <= i < run.len(),
    ensures
        run[i].step is Next || run[i].step is FlushThenNext,
        run.last().after.fragment is Idle,
        run.last().after.conn.reassembly == 0,
{
    let last = run.len() - 1;
    lemma_text_so_far(run, max_message_bytes, last);
    assert(run[last].before.fragment == run[last - 1].after.fragment);
    assert(run[last].follows(max_message_bytes));
    if i < last {
        lemma_text_so_far(run, max_message_bytes, i + 1);
    }
}

/// What is open after the first `n` frames of a text message.
proof fn lemma_text_so_far(run: Seq<FrameTaken>, max_message_bytes: nat, n: int)
    requires
        frame_run(run, max_message_bytes),
        one_text_message(run),
        1 <= n < run.len(),
    ensures
        run[n - 1].step is Next || run[n - 1].step is FlushThenNext,
        if data_bytes(run, n) > max_message_bytes {
            run[n - 1].after.fragment is Oversize
        } else {
            run[n - 1].after.fragment matches FragModel::Text(b) && b.len() == data_bytes(run, n)
        },
    decreases n,
{
    assert(run[n - 1].follows(max_message_bytes));
    if n == 1 {
        assert(data_bytes(run, 0) == 0);
        assert(data_bytes(run, 1) == run[0].frame.payload.len());
    } else {
        lemma_text_so_far(run, max_message_bytes, n - 1);
        assert(run[n - 1].before.fragment == run[n - 2].after.fragment);
    }
}

/// The state after the continuations `parts` of an open message, none of them
/// final.
pub open spec fn continued(frag: FragModel, parts: Seq<Seq<u8>>, max_message_bytes: nat) -> FragModel
    decreases parts.len(),
{
    if parts.len() == 0 {
        frag
    } else {
        frame_verdict(
            continued(frag, parts.drop_last(), max_message_bytes),
            FrameModel { fin: false, opcode: OpCode::Continuation, payload: parts.last() },
            max_message_bytes,
        ).0
    }
}

/// The bytes of all parts, in order.
pub open spec fn joined(parts: Seq<Seq<u8>>) -> Seq<u8>
    decreases parts.len(),
{
    if parts.len() == 0 {
        Seq::empty()
    } else {
        joined(parts.drop_last()) + parts.last()
    }
}

/// A text message arrives the same however it is cut into fragments, as long as
/// all of it is within the limit.
pub proof fn fragmentation_is_invisible(
    head: Seq<u8>,
    parts: Seq<Seq<u8>>,
    tail: Seq<u8>,
    max_message_bytes: nat,
)
    requires
        (head + joined(parts) + tail).len() <= max_message_bytes,
    ensures
        ({
            let open = continued(
                frame_verdict(
                    FragModel::Idle,
                    FrameModel { fin: false, opcode: OpCode::Text, payload: head },
                    max_message_bytes,
                ).0,
                parts,
                max_message_bytes,
            );
            let last = frame_verdict(
                open,
                FrameModel { fin: true, opcode: OpCode::Continuation, payload: tail },
                max_message_bytes,
            );
            &&& last.0 is Idle
            &&& last.1 == Verdict::Message(head + joined(parts) + tail)
        }),
{
    lemma_continued(head, parts, max_message_bytes);
}

/// A text message within the limit comes to the same in one frame as in any number
/// of fragments.
pub proof fn one_frame_or_many(
    head: Seq<u8>,
    parts: Seq<Seq<u8>>,
    tail: Seq<u8>,
    max_message_bytes: nat,
)
    requires
        (head + joined(parts) + tail).len() <= max_message_bytes,
    ensures
        frame_verdict(
            FragModel::Idle,
            FrameModel { fin: true, opcode: OpCode::Text, payload: head + joined(parts) + tail },
            max_message_bytes,
        ) == frame_verdict(
            continued(
                frame_verdict(
                    FragModel::Idle,
                    FrameModel { fin: false, opcode: OpCode::Text, payload: head },
                    max_message_bytes,
                ).0,
                parts,
                max_message_bytes,
            ),
            FrameModel { fin: true, opcode: OpCode::Continuation, payload: tail },
            max_message_bytes,
        ),
        frame_verdict(
            FragModel::Idle,
            FrameModel { fin: true, opcode: OpCode::Text, payload: head + joined(parts) + tail },
            max_message_bytes,
        ) == (FragModel::Idle, Verdict::Message(head + joined(parts) + tail)),
{
    fragmentation_is_invisible(head, parts, tail, max_message_bytes);
}

proof fn lemma_continued(head: Seq<u8>, parts: Seq<Seq<u8>>, max_message_bytes: nat)
    requires
        head.len() + joined(parts).len() <= max_message_bytes,
    ensures
        continued(FragModel::Text(head), parts, max_message_bytes) == FragModel::Text(
            head + joined(parts),
        ),
    decreases parts.len(),
{
    if parts.len() == 0 {
        assert(head + joined(parts) =~= head);
    } else {
        lemma_continued(head, parts.drop_last(), max_message_bytes);
        assert(head + joined(parts.drop_last()) + parts.last() =~= head + joined(parts));
    }
}

} // verus!
