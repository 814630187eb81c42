//! A worker: its connections, their timers and their subscriptions.
use crate::transport::conn::{CodelParams, ConnState};
use crate::transport::timer::{self, Kind, TimerWheel, WheelModel};
use crate::transport::worker::entry::{self, EntryModel, PendingEstablish, Session};
use crate::transport::worker::establish::Admission;
use crate::transport::worker::index::{self, SubIndex, SubKey};
use crate::transport::worker::mail;
use crate::transport::worker::table::{self, Table, TableModel};
use vstd::prelude::*;

verus! {

/// The state of one worker.
pub struct Worker {
    pub table: Table,
    pub wheel: TimerWheel,
    pub index: SubIndex,
    /// Tells the waits for app lookups apart.
    pub next_gen: u64,
}

/// The wheel with an absolute handshake deadline armed, if one is given.
pub open spec fn handshake_armed(w: WheelModel, key: usize, deadline: Option<u64>) -> WheelModel {
    match deadline {
        None => w,
        Some(d) => w.handshake_set(key, d),
    }
}

/// `now + secs`, in milliseconds and capped.
pub open spec fn lifetime_deadline(now_ms: u64, secs: u64) -> u64 {
    timer::deadline_after(
        now_ms,
        if secs * 1000 > u64::MAX {
            u64::MAX
        } else {
            (secs * 1000) as u64
        },
    )
}

/// The wheel with the absolute lifetime deadline armed, unless the lifetime is
/// unlimited.
pub open spec fn lifetime_armed(w: WheelModel, key: usize, now_ms: u64, secs: u64) -> WheelModel {
    if secs == 0 {
        w
    } else {
        w.lifetime_set(key, lifetime_deadline(now_ms, secs))
    }
}

/// The wheel without the handshake deadline of a connection.
pub open spec fn handshake_cleared(w: WheelModel, key: usize) -> WheelModel {
    WheelModel { handshake: w.handshake.remove(key), ..w }
}

/// The wheel of a session that has just been established. One that waited for its
/// app starts its activity timeout anew.
pub open spec fn established_wheel(
    w: WheelModel,
    key: usize,
    waited: bool,
    now_ms: u64,
    lifetime_secs: u64,
) -> WheelModel {
    if waited {
        handshake_cleared(
            lifetime_armed(
                w.scheduled(key, timer::deadline_after(now_ms, w.activity_timeout_ms), Kind::Idle),
                key,
                now_ms,
                lifetime_secs,
            ),
            key,
        )
    } else {
        lifetime_armed(handshake_cleared(w, key), key, now_ms, lifetime_secs)
    }
}

impl Worker {
    pub open spec fn wf(&self) -> bool {
        &&& self.table.wf()
        &&& self.table@.valid()
        &&& self.wheel@.valid()
        &&& self.index.wf()
    }

    /// A worker without connections.
    pub fn new(activity_timeout_secs: u32, pong_timeout_secs: u32) -> (w: Worker)
        ensures
            w.wf(),
            w.table@.conns == Map::<usize, EntryModel>::empty(),
            w.table@.inflight == 0,
            w.table@.outbound == 0,
            w.table@.codel_total == 0,
            w.table@.drophead_total == 0,
            w.wheel@ == WheelModel::fresh(
                (activity_timeout_secs * 1000) as u64,
                (pong_timeout_secs * 1000) as u64,
            ),
            w.index.keys() == Set::<SubKey>::empty(),
            w.next_gen == 0,
    {
        Worker {
            table: Table::new(),
            wheel: TimerWheel::with_timeouts(activity_timeout_secs, pong_timeout_secs),
            index: SubIndex::new(),
            next_gen: 0,
        }
    }

    /// Adds an accepted connection. Its handshake deadline, if there is one, runs
    /// from now whatever the peer sends.
    pub fn accept(
        &mut self,
        high_water: usize,
        codel: CodelParams,
        handshake_deadline: Option<u64>,
    ) -> (key: usize)
        requires
            old(self).wf(),
        ensures
            final(self).wf(),
            !old(self).table@.conns.dom().contains(key),
            final(self).table@ == (TableModel {
                conns: old(self).table@.conns.insert(
                    key,
                    EntryModel::fresh(high_water as nat, codel),
                ),
                ..old(self).table@
            }),
            final(self).table@.conns[key].conn.accounted() == 0,
            final(self).wheel@ == handshake_armed(old(self).wheel@, key, handshake_deadline),
            final(self).index == old(self).index,
            final(self).next_gen == old(self).next_gen,
    {
        let key: usize = self.table.accept(high_water, codel);
        if let Some(d) = handshake_deadline {
            self.wheel.arm_handshake(key, d);
        }
        key
    }

    /// Removes a connection: its timers, its share of the byte totals, its
    /// subscriptions and the counts of its session. Returns the session, if there
    /// was one, for its closing hooks.
    pub fn remove(&mut self, key: usize, admission: &mut Admission) -> (closed: Option<Session>)
        requires
            old(self).wf(),
            old(self).table@.conns.dom().contains(key) ==> match old(
                self,
            ).table@.conns[key].session {
                Some(s) => old(admission)@.node > 0 && old(admission)@.of(s.app_id@) > 0,
                None => true,
            },
        ensures
            final(self).wf(),
            final(self).wheel@ == old(self).wheel@.without(key),
            final(self).next_gen == old(self).next_gen,
            final(self).table@.codel_total == old(self).table@.codel_total,
            final(self).table@.drophead_total == old(self).table@.drophead_total,
            final(self).table@.conns == old(self).table@.conns.remove(key),
            closed == (if old(self).table@.conns.dom().contains(key) {
                old(self).table@.conns[key].session
            } else {
                None
            }),
            closed matches Some(s) ==> old(admission)@.one_more(final(admission)@, s.app_id@),
            closed is None ==> final(admission)@ == old(admission)@,
            forall|k: SubKey| #[trigger]
                final(self).index.get(k) == (match closed {
                    Some(s) => index::deindexed(s, old(self).index.get(k), k),
                    None => old(self).index.get(k),
                }),
            old(self).table@.settled() ==> final(self).table@.settled(),
    {
        let ghost m0 = self.table@.conns;
        self.wheel.remove(key);
        match self.table.take_out(key) {
            None => {
                assert(m0.remove(key) =~= m0);
                None
            },
            Some(e) => {
                match e.session {
                    None => None,
                    Some(session) => {
                        index::deindex_connection(&session, &mut self.index);
                        admission.release(session.app_id.as_str());
                        Some(session)
                    },
                }
            },
        }
    }

    /// Takes a plain-HTTP connection out for the REST plane: no timer of it stays
    /// and its share of the byte totals leaves with it.
    pub fn handoff_rest(&mut self, key: usize) -> (found: bool)
        requires
            old(self).wf(),
        ensures
            final(self).wf(),
            found == old(self).table@.conns.dom().contains(key),
            final(self).wheel@ == old(self).wheel@.without(key),
            final(self).table@.conns == old(self).table@.conns.remove(key),
            final(self).table@.codel_total == old(self).table@.codel_total,
            final(self).table@.drophead_total == old(self).table@.drophead_total,
            final(self).index == old(self).index,
            final(self).next_gen == old(self).next_gen,
            old(self).table@.settled() ==> final(self).table@.settled(),
    {
        let ghost m0 = self.table@.conns;
        self.wheel.remove(key);
        let taken = self.table.take_out(key);
        proof {
            if taken is None {
                assert(m0.remove(key) =~= m0);
            }
        }
        taken.is_some()
    }

    /// Queues a ping on an open session; says whether it was queued.
    pub fn queue_ping(&mut self, key: usize, text: &str, now_ns: u64) -> (queued: bool)
        requires
            old(self).wf(),
            old(self).table@.conns.dom().contains(key) ==> old(self).table@.conns[key].conn.room(
                crate::transport::fanout::text_frame(text@).len(),
                1,
            ),
        ensures
            final(self).wf(),
            final(self).wheel == old(self).wheel,
            final(self).index == old(self).index,
            final(self).next_gen == old(self).next_gen,
            queued == (old(self).table@.conns.dom().contains(key) && old(
                self,
            ).table@.conns[key].open()),
            !queued ==> final(self).table@ == old(self).table@,
            queued ==> {
                let e0 = old(self).table@.conns[key];
                let e1 = final(self).table@.conns[key];
                &&& final(self).table@ == (TableModel {
                    conns: old(self).table@.conns.insert(key, e1),
                    ..old(self).table@
                })
                &&& e1 == (EntryModel { conn: e1.conn, ..e0 })
                &&& e0.conn.sent(
                    crate::transport::fanout::text_frame(text@),
                    now_ns,
                    e1.conn,
                )
            },
    {
        let ghost t0 = self.table@;
        match self.table.entry(key) {
            None => false,
            Some(e) => {
                if e.session.is_none() || e.conn.state() != ConnState::Open {
                    assert(t0.conns.insert(key, e@) =~= t0.conns);
                    return false;
                }
                e.queue_text(text, now_ns);
                true
            },
        }
    }

    /// Queues a close frame; says whether there is such a connection.
    pub fn send_close_reply(&mut self, key: usize, code: u16, reason: &str, now_ns: u64) -> (found:
        bool)
        requires
            old(self).wf(),
            old(self).table@.conns.dom().contains(key) ==> old(self).table@.conns[key].conn.room(
                entry::close_frame(code, reason@).len(),
                1,
            ),
        ensures
            final(self).wf(),
            final(self).wheel == old(self).wheel,
            final(self).index == old(self).index,
            final(self).next_gen == old(self).next_gen,
            found == old(self).table@.conns.dom().contains(key),
            !found ==> final(self).table@ == old(self).table@,
            found ==> {
                let e0 = old(self).table@.conns[key];
                let e1 = final(self).table@.conns[key];
                &&& only_conn_changed(old(self).table@, key, final(self).table@)
                &&& e0.conn.sent(entry::close_frame(code, reason@), now_ns, e1.conn)
            },
    {
        match self.table.entry(key) {
            None => false,
            Some(e) => {
                e.queue_close_frame(code, reason, now_ns);
                true
            },
        }
    }

    /// Queues an error message and then the close frame that repeats its code and
    /// reason; says whether there is such a connection.
    pub fn queue_error_close(
        &mut self,
        key: usize,
        text: &str,
        code: u16,
        reason: &str,
        now_ns: u64,
    ) -> (found: bool)
        requires
            old(self).wf(),
            old(self).table@.conns.dom().contains(key) ==> old(self).table@.conns[key].conn.room(
                mail::text_and_close_len(text@, code, reason@),
                2,
            ),
        ensures
            final(self).wf(),
            final(self).wheel == old(self).wheel,
            final(self).index == old(self).index,
            final(self).next_gen == old(self).next_gen,
            found == old(self).table@.conns.dom().contains(key),
            !found ==> final(self).table@ == old(self).table@,
            found ==> {
                let e0 = old(self).table@.conns[key];
                let e1 = final(self).table@.conns[key];
                &&& only_conn_changed(old(self).table@, key, final(self).table@)
                &&& mail::text_and_close(e0.conn, text@, code, reason@, now_ns, e1.conn)
            },
    {
        match self.table.entry(key) {
            None => false,
            Some(e) => {
                e.queue_reject(text, code, reason, now_ns);
                true
            },
        }
    }

    /// Lets a connection wait for the lookup of its app and returns the number of
    /// this wait.
    pub fn park(&mut self, key: usize, app_key: String, version: u8) -> (gen: Option<u64>)
        requires
            old(self).wf(),
        ensures
            final(self).wf(),
            final(self).wheel == old(self).wheel,
            final(self).index == old(self).index,
            old(self).table@.conns.dom().contains(key) ==> {
                &&& gen == Some(old(self).next_gen)
                &&& final(self).next_gen == vstd::wrapping::u64_specs::wrapping_add(
                    old(self).next_gen,
                    1,
                )
                &&& final(self).table@ == (TableModel {
                    conns: old(self).table@.conns.insert(
                        key,
                        EntryModel {
                            pending_establish: Some(
                                PendingEstablish {
                                    key: app_key,
                                    version,
                                    gen: old(self).next_gen,
                                },
                            ),
                            ..old(self).table@.conns[key]
                        },
                    ),
                    ..old(self).table@
                })
            },
            !old(self).table@.conns.dom().contains(key) ==> {
                &&& gen is None
                &&& final(self).next_gen == old(self).next_gen
                &&& final(self).table@ == old(self).table@
            },
    {
        let gen: u64 = self.next_gen;
        match self.table.entry(key) {
            None => None,
            Some(e) => {
                e.pending_establish = Some(PendingEstablish { key: app_key, version, gen });
                self.next_gen = gen.wrapping_add(1);
                Some(gen)
            },
        }
    }

    /// Ends the wait of a connection whose app lookup has completed. A connection
    /// that is gone, or whose slot now belongs to another wait, is left alone.
    pub fn resume(&mut self, token: usize, gen: u64) -> (pending: Option<PendingEstablish>)
        requires
            old(self).wf(),
        ensures
            final(self).wf(),
            final(self).wheel == old(self).wheel,
            final(self).index == old(self).index,
            final(self).next_gen == old(self).next_gen,
            waits(old(self).table@, token, gen) ==> {
                &&& pending == old(self).table@.conns[token].pending_establish
                &&& final(self).table@ == (TableModel {
                    conns: old(self).table@.conns.insert(
                        token,
                        EntryModel { pending_establish: None, ..old(self).table@.conns[token] },
                    ),
                    ..old(self).table@
                })
            },
            !waits(old(self).table@, token, gen) ==> {
                &&& pending is None
                &&& final(self).table@ == old(self).table@
            },
    {
        let ghost t0 = self.table@;
        match self.table.entry(token) {
            None => None,
            Some(e) => {
                let mine: bool = match &e.pending_establish {
                    Some(p) => p.gen == gen,
                    None => false,
                };
                if mine {
                    e.pending_establish.take()
                } else {
                    assert(t0.conns.insert(token, e@) =~= t0.conns);
                    None
                }
            },
        }
    }

    /// Gives a connection its session: the established notice is queued, the
    /// handshake deadline is cleared and the lifetime runs from now.
    pub fn establish(
        &mut self,
        key: usize,
        session: Session,
        notice: &str,
        waited: bool,
        now_ns: u64,
        lifetime_secs: u64,
    )
        requires
            old(self).wf(),
            old(self).table@.conns.dom().contains(key),
            old(self).table@.conns[key].conn.room(
                crate::transport::fanout::text_frame(notice@).len(),
                1,
            ),
        ensures
            final(self).wf(),
            final(self).index == old(self).index,
            final(self).next_gen == old(self).next_gen,
            ({
                let e0 = old(self).table@.conns[key];
                let e1 = final(self).table@.conns[key];
                &&& final(self).table@ == (TableModel {
                    conns: old(self).table@.conns.insert(key, e1),
                    ..old(self).table@
                })
                &&& e1 == (EntryModel { conn: e1.conn, session: Some(session), ..e0 })
                &&& e0.conn.sent(
                    crate::transport::fanout::text_frame(notice@),
                    now_ns,
                    e1.conn,
                )
            }),
            final(self).wheel@ == established_wheel(
                old(self).wheel@,
                key,
                waited,
                now_ns / 1_000_000,
                lifetime_secs,
            ),
    {
        if let Some(e) = self.table.entry(key) {
            e.queue_text(notice, now_ns);
            e.session = Some(session);
        }
        let now_ms: u64 = now_ns / 1_000_000;
        if waited {
            self.wheel.touch(key, now_ms);
            self.arm_lifetime(key, now_ms, lifetime_secs);
            self.wheel.clear_handshake(key);
        } else {
            self.wheel.clear_handshake(key);
            self.arm_lifetime(key, now_ms, lifetime_secs);
        }
    }

    /// Arms the lifetime deadline of a connection, unless the lifetime is
    /// unlimited.
    pub fn arm_lifetime(&mut self, key: usize, now_ms: u64, lifetime_secs: u64)
        requires
            old(self).wheel@.valid(),
        ensures
            final(self).wheel@.valid(),
            final(self).wheel@ == lifetime_armed(old(self).wheel@, key, now_ms, lifetime_secs),
            final(self).table == old(self).table,
            final(self).index == old(self).index,
            final(self).next_gen == old(self).next_gen,
    {
        if lifetime_secs > 0 {
            let span: u64 = match lifetime_secs.checked_mul(1000) {
                Some(ms) => ms,
                None => u64::MAX,
            };
            self.wheel.arm_lifetime(key, now_ms.saturating_add(span));
        }
    }

    /// Whether a connection whose handshake deadline passed is to be removed: it
    /// is there and has no session. Otherwise only the deadline is cleared.
    pub fn on_handshake_timeout(&mut self, key: usize) -> (reap: bool)
        requires
            old(self).wf(),
        ensures
            final(self).wf(),
            final(self).table == old(self).table,
            final(self).index == old(self).index,
            final(self).next_gen == old(self).next_gen,
            reap == (old(self).table@.conns.dom().contains(key) && old(
                self,
            ).table@.conns[key].session is None),
            final(self).wheel@ == (if reap {
                old(self).wheel@
            } else {
                handshake_cleared(old(self).wheel@, key)
            }),
    {
        let pre_session: bool = match self.table.get(key) {
            Some(e) => e.session.is_none(),
            None => false,
        };
        if !pre_session {
            self.wheel.clear_handshake(key);
        }
        pre_session
    }
}

/// The connection under `key` waits for the lookup numbered `gen`.
pub open spec fn waits(t: TableModel, key: usize, gen: u64) -> bool {
    t.conns.dom().contains(key) && match t.conns[key].pending_establish {
        Some(p) => p.gen == gen,
        None => false,
    }
}

/// Only the outbound state of one connection differs.
pub open spec fn only_conn_changed(t0: TableModel, key: usize, t1: TableModel) -> bool {
    let e1 = t1.conns[key];
    &&& t1 == (TableModel { conns: t0.conns.insert(key, e1), ..t0 })
    &&& e1 == (EntryModel { conn: e1.conn, ..t0.conns[key] })
}

/// A lookup that completes after its connection went away, or after the slot was
/// taken by another connection's wait, touches nothing.
pub proof fn late_lookups_are_ignored(t: TableModel, key: usize, gen: u64, newer: u64)
    requires
        gen != newer,
        waits(t, key, newer),
    ensures
        !waits(t, key, gen),
{
}

/// The deadlines of a connection that is established: its handshake no longer has one,
/// its lifetime ends so many seconds from now where it is limited, and where it had
/// waited for its app it counts as active now. No other connection's deadlines change.
pub proof fn establishing_sets_the_deadlines(
    w: WheelModel,
    key: usize,
    waited: bool,
    now_ms: u64,
    lifetime_secs: u64,
    other: usize,
)
    requires
        other != key,
    ensures
        ({
            let e = established_wheel(w, key, waited, now_ms, lifetime_secs);
            &&& !e.handshake.dom().contains(key)
            &&& lifetime_secs == 0 ==> e.lifetime == w.lifetime
            &&& lifetime_secs > 0 && now_ms + lifetime_secs * 1000 <= u64::MAX
                ==> e.lifetime.dom().contains(key) && e.lifetime[key] == now_ms + lifetime_secs
                * 1000
            &&& lifetime_secs > 0 && now_ms + lifetime_secs * 1000 > u64::MAX
                ==> e.lifetime.dom().contains(key) && e.lifetime[key] == u64::MAX
            &&& waited && now_ms + w.activity_timeout_ms <= u64::MAX ==> e.live.dom().contains(key)
                && e.live[key] == (timer::Timer {
                deadline_ms: (now_ms + w.activity_timeout_ms) as u64,
                kind: Kind::Idle,
            })
            &&& !waited ==> e.live == w.live
            &&& e.live.dom().contains(other) <==> w.live.dom().contains(other)
            &&& e.lifetime.dom().contains(other) <==> w.lifetime.dom().contains(other)
            &&& e.handshake.dom().contains(other) <==> w.handshake.dom().contains(other)
            &&& w.live.dom().contains(other) ==> e.live[other] == w.live[other]
            &&& w.lifetime.dom().contains(other) ==> e.lifetime[other] == w.lifetime[other]
            &&& w.handshake.dom().contains(other) ==> e.handshake[other] == w.handshake[other]
            &&& e.activity_timeout_ms == w.activity_timeout_ms
            &&& e.pong_timeout_ms == w.pong_timeout_ms
        }),
{
}

/// An answer is taken up only by the wait that it is for: the connection is still
/// there, still waits, and waits with the same number.
pub proof fn answers_find_their_wait(t: TableModel, key: usize, gen: u64)
    ensures
        waits(t, key, gen) <==> t.conns.dom().contains(key) && (
        t.conns[key].pending_establish matches Some(p) && p.gen == gen),
{
}

} // verus!
