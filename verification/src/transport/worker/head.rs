//! What the worker does with a request head, with what it read, and with the
//! outcome of a flush.
use crate::text;
use crate::transport::conn::{ConnError, ConnModel, ConnState, WriteStatus};
use crate::transport::frame::Frame;
use crate::transport::handshake::{self, HeadKind, HeadResult};
use crate::transport::pump::{self, ReadPhase, ReadPump};
use crate::transport::worker::entry::{Entry, EntryModel};
use crate::transport::worker::establish::Refusal;
use vstd::prelude::*;
use vstd::utf8::encode_utf8;

verus! {

/// What becomes of a connection.
#[derive(Debug, Clone, Copy, PartialEq, Eq, Structural)]
pub enum Action {
    Keep,
    Close,
}

/// What the caller does after a request head was looked at.
pub enum HeadStep {
    /// Nothing yet: bring the poll interest in line and wait.
    Wait,
    /// The upgrade is answered; the session for this path comes next.
    Upgraded(String),
    /// Hand the connection to the REST plane with these bytes.
    Handoff(Vec<u8>),
    /// Flush and close.
    FlushThenClose,
    /// Close.
    Close,
}

/// The bytes of the handshake response to a key.
pub open spec fn upgrade_bytes(key: Seq<char>) -> Seq<u8> {
    encode_utf8(handshake::switching_protocols(handshake::accept_value(key)))
}

/// What a head comes to on a connection, and the connection after it.
pub open spec fn head_applied(
    head: HeadKind,
    rest_plane: bool,
    now: u64,
    before: EntryModel,
    step: HeadStep,
    after: EntryModel,
) -> bool {
    match head {
        HeadKind::NeedMore => step is Wait && after == before,
        HeadKind::WsUpgrade { key, path } => if before.conn.room(upgrade_bytes(key).len(), 1) {
            &&& step matches HeadStep::Upgraded(p) && p@ == path
            &&& after == (EntryModel { conn: after.conn, inbuf: Seq::empty(), ..before })
            &&& (ConnModel { state: ConnState::Open, ..before.conn }).sent(
                upgrade_bytes(key),
                now,
                after.conn,
            )
        } else {
            step is Close && after == before
        },
        HeadKind::Rest { consumed } => if rest_plane {
            &&& after == before
            &&& step matches HeadStep::Handoff(b) && b@ == before.inbuf
        } else {
            step is Close && after == before
        },
        HeadKind::TooManyHeaders => if before.conn.room(
            encode_utf8(handshake::too_many_fields_text()).len(),
            1,
        ) {
            &&& step is FlushThenClose
            &&& after == (EntryModel { conn: after.conn, ..before })
            &&& before.conn.sent(encode_utf8(handshake::too_many_fields_text()), now, after.conn)
        } else {
            step is Close && after == before
        },
        HeadKind::Bad(m) => step is Close && after == before,
    }
}

impl Entry {
    /// Acts on a classified request head. An upgrade is answered at once, for
    /// whatever path; what was received so far is then dropped and the connection
    /// is open. A response that the connection cannot hold closes it.
    pub fn on_head(&mut self, head: HeadResult, rest_plane: bool, now_ns: u64) -> (step: HeadStep)
        requires
            old(self).wf(),
        ensures
            final(self).wf(),
            head_applied(head@, rest_plane, now_ns, old(self)@, step, final(self)@),
            final(self).conn@.reported == old(self).conn@.reported,
            final(self).conn@.reported_out == old(self).conn@.reported_out,
    {
        match head {
            HeadResult::NeedMore => HeadStep::Wait,
            HeadResult::WsUpgrade { key, path } => {
                let response: Vec<u8> = handshake::accept_response(key.as_str());
                if !self.conn.has_room(response.len(), 1) {
                    return HeadStep::Close;
                }
                let ghost m0 = self.conn@;
                self.conn.set_state(ConnState::Open);
                let ghost m1 = self.conn@;
                proof {
                    assert(m1.pending() == m0.pending());
                }
                let f = crate::transport::fanout::share(response.as_slice());
                let _dropped: usize = self.conn.queue(f, now_ns);
                assert(self.conn@ == m1.enqueued((f, now_ns)));
                self.inbuf.clear();
                assert(self.inbuf@ =~= Seq::<u8>::empty());
                HeadStep::Upgraded(path)
            },
            HeadResult::Rest { consumed } => {
                if rest_plane {
                    let mut bytes: Vec<u8> = Vec::new();
                    bytes.extend_from_slice(self.inbuf.as_slice());
                    assert(bytes@ =~= self.inbuf@);
                    HeadStep::Handoff(bytes)
                } else {
                    HeadStep::Close
                }
            },
            HeadResult::TooManyHeaders => {
                let response: Vec<u8> = handshake::header_fields_too_large_response();
                if !self.conn.has_room(response.len(), 1) {
                    return HeadStep::Close;
                }
                let ghost m0 = self.conn@;
                let f = crate::transport::fanout::share(response.as_slice());
                let _dropped: usize = self.conn.queue(f, now_ns);
                assert(self.conn@ == m0.enqueued((f, now_ns)));
                HeadStep::FlushThenClose
            },
            HeadResult::Bad(_) => HeadStep::Close,
        }
    }

    /// Parses what a finished read brought in and bills what stays in the buffer.
    pub fn take_frames(&mut self, pump: &ReadPump, max_payload: usize) -> (r: Result<
        Vec<Frame>,
        ConnError,
    >)
        requires
            old(self).wf(),
            pump.phase == ReadPhase::End || pump.phase == ReadPhase::Gone,
            old(self).conn@.accounted() - old(self).conn@.frame_buffer + old(self).inbuf@.len()
                <= isize::MAX,
        ensures
            final(self).wf(),
            final(self).conn@ == (ConnModel {
                frame_buffer: final(self).inbuf@.len(),
                ..old(self).conn@
            }),
            final(self).inbuf@.len() <= old(self).inbuf@.len(),
            pump.phase == ReadPhase::Gone ==> r == Err::<Vec<Frame>, _>(ConnError::Closed),
            pump.phase == ReadPhase::Gone ==> final(self).inbuf@ == old(self).inbuf@,
            pump.phase == ReadPhase::End ==> pump::frames_result(
                old(self).inbuf@,
                max_payload as nat,
                pump.eof,
                r,
                final(self).inbuf@,
            ),
            final(self).session == old(self).session,
            final(self).fragment == old(self).fragment,
            final(self).pending_establish == old(self).pending_establish,
    {
        proof {
            pump::lemma_rest_is_shorter(self.inbuf@, max_payload as nat);
        }
        let r = pump.read_frames(&mut self.inbuf, max_payload);
        self.conn.set_frame_buffer_bytes(self.inbuf.len());
        proof {
            self.conn.wf_is_valid();
        }
        r
    }

    /// Records the poll interest after a flush. `registered` says whether the
    /// registration that the status asks for succeeded.
    pub fn after_flush(&mut self, status: WriteStatus, registered: bool) -> (action: Action)
        requires
            old(self).wf(),
            status == WriteStatus::Drained ==> !old(self).conn@.owes(),
        ensures
            final(self).wf(),
            action == flush_action(status, registered),
            final(self)@ == after_flush_of(old(self)@, status, registered),
            action == Action::Keep && final(self).conn@.owes() ==> final(self).conn@.writable_armed,
    {
        let ghost m0 = self.conn@;
        let action: Action = match status {
            WriteStatus::Closed => Action::Close,
            WriteStatus::Drained => {
                if !registered {
                    Action::Close
                } else {
                    self.conn.set_writable_armed(false);
                    Action::Keep
                }
            },
            WriteStatus::WouldBlock => {
                if !registered {
                    Action::Close
                } else {
                    self.conn.set_writable_armed(true);
                    Action::Keep
                }
            },
        };
        proof {
            assert(self.conn@.pending() == m0.pending());
            self.conn.wf_is_valid();
        }
        action
    }

    /// What a connection in its handshake needs from the poll: what it owes and a TLS
    /// flight that is only partly written (`tls_wants_write`; never on a plain
    /// connection) both have to be written.
    pub fn handshake_interest(&self, tls_wants_write: bool) -> (plan: InterestPlan)
        ensures
            plan == (if self.conn@.owes() || tls_wants_write {
                InterestPlan::Flush
            } else if self.conn@.writable_armed {
                InterestPlan::ReadOnly
            } else {
                InterestPlan::Keep
            }),
    {
        if self.conn.owes() || tls_wants_write {
            InterestPlan::Flush
        } else if self.conn.writable_armed() {
            InterestPlan::ReadOnly
        } else {
            InterestPlan::Keep
        }
    }
}

/// What becomes of a connection after a flush: it stays unless the socket is closed or
/// the registration failed.
pub open spec fn flush_action(status: WriteStatus, registered: bool) -> Action {
    if status != WriteStatus::Closed && registered {
        Action::Keep
    } else {
        Action::Close
    }
}

/// A connection after a flush: where it stays, it holds writable interest exactly when
/// the socket took no more.
pub open spec fn after_flush_of(
    e: EntryModel,
    status: WriteStatus,
    registered: bool,
) -> EntryModel {
    EntryModel {
        conn: ConnModel {
            writable_armed: if flush_action(status, registered) == Action::Keep {
                status == WriteStatus::WouldBlock
            } else {
                e.conn.writable_armed
            },
            ..e.conn
        },
        ..e
    }
}

/// How the poll interest of a connection in its handshake changes.
#[derive(Debug, Clone, Copy, PartialEq, Eq, Structural)]
pub enum InterestPlan {
    /// Flush what is queued and arm by the outcome.
    Flush,
    /// Drop writable interest.
    ReadOnly,
    /// Leave the registration alone.
    Keep,
}

/// The app key of an upgrade path, or the refusal of a path without one.
pub fn require_app_key(app_key: Option<String>) -> (r: Result<String, Refusal>)
    ensures
        match app_key {
            Some(k) => r == Ok::<String, Refusal>(k),
            None => r == Err::<String, _>(Refusal::PathNotFound),
        },
{
    match app_key {
        Some(k) => Ok(k),
        None => Err(Refusal::PathNotFound),
    }
}

/// What a request head leads to. An upgrade opens the connection, forgets the head and
/// queues the 101 that grants this key, for this path. A request for the REST plane
/// hands over every byte that was read, and is closed where there is no such plane. A
/// head with too many fields is told so and closed; a broken one is closed without a
/// word; an incomplete one waits.
pub proof fn heads_lead_on(
    head: HeadKind,
    rest_plane: bool,
    now: u64,
    before: EntryModel,
    step: HeadStep,
    after: EntryModel,
)
    requires
        head_applied(head, rest_plane, now, before, step, after),
        before.conn.accounted() + 0x1_0000 <= isize::MAX,
        before.conn.frame_count() < u64::MAX,
    ensures
        match head {
            HeadKind::NeedMore => step is Wait && after == before,
            HeadKind::WsUpgrade { key, path } => {
                let answer = encode_utf8(
                    handshake::switching_protocols(handshake::accept_value(key)),
                );
                answer.len() <= 0x1_0000 ==> {
                    &&& step matches HeadStep::Upgraded(p) && p@ == path
                    &&& after.conn.state == ConnState::Open
                    &&& after.conn.queued.len() > 0
                    &&& after.conn.queued.last().0@ == answer
                    &&& after.conn.queued.last().1 == now
                    &&& after.inbuf.len() == 0
                }
            },
            HeadKind::Rest { consumed } => {
                &&& after == before
                &&& rest_plane ==> (step matches HeadStep::Handoff(b) && b@ == before.inbuf)
                &&& !rest_plane ==> step is Close
            },
            HeadKind::TooManyHeaders => {
                &&& step is FlushThenClose
                &&& after.conn.queued.len() > 0
                &&& after.conn.queued.last().0@ == encode_utf8(handshake::too_many_fields_text())
                &&& after.inbuf == before.inbuf
            },
            HeadKind::Bad(_) => step is Close && after == before,
        },
{
    reveal_strlit(
        "HTTP/1.1 431 Request Header Fields Too Large\r\nContent-Type: application/json\r\nContent-Length: 43\r\nConnection: close\r\n\r\n{\"error\":\"Request header fields too large\"}",
    );
    text::lemma_utf8_len(handshake::too_many_fields_text());
}

/// A connection stays after a flush unless its socket is gone or could not be
/// registered, and it then has writable interest exactly where the flush was blocked.
pub proof fn flushes_keep_what_they_can(e: EntryModel, status: WriteStatus, registered: bool)
    ensures
        flush_action(status, registered) == Action::Close <==> status == WriteStatus::Closed
            || !registered,
        flush_action(status, registered) == Action::Keep ==> (after_flush_of(
            e,
            status,
            registered,
        ).conn.writable_armed <==> status == WriteStatus::WouldBlock),
        after_flush_of(e, status, registered).conn.queued == e.conn.queued,
        after_flush_of(e, status, registered).session == e.session,
{
}

} // verus!
