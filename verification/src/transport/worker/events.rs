//! The decisions of the worker's event loop.
//!
//! The loop polls, accepts, reads and flushes; what each of these means for the
//! worker's state, and what comes next, is decided here.
use crate::transport::conn::{ConnState, WriteStatus};
use crate::transport::fanout::WorkerSlot;
use crate::transport::timer::{self, Kind, WheelModel};
use crate::transport::worker::deliver;
use crate::transport::worker::entry::{EntryModel, Session};
use crate::transport::worker::establish::Admission;
use crate::transport::worker::head::{self, Action};
use crate::transport::worker::index::{self, SubKey};
use crate::transport::worker::shed;
use crate::transport::worker::state::Worker;
use crate::transport::worker::table::{self, TableModel};
use vstd::prelude::*;

verus! {

/// How many outbound bytes a connection may have queued before its oldest frames
/// are evicted, unless configured otherwise.
pub const DEFAULT_HIGH_WATER: usize = 4_194_304;

/// The longest payload of one inbound frame: what an event may hold, and no less
/// than a mebibyte.
pub fn frame_ceiling(max_event_payload_bytes: usize) -> (n: usize)
    ensures
        n == if max_event_payload_bytes > 1_048_576 {
            max_event_payload_bytes
        } else {
            1_048_576
        },
{
    if max_event_payload_bytes > 1_048_576 {
        max_event_payload_bytes
    } else {
        1_048_576
    }
}

/// Counters of what the loop has done.
#[derive(Debug, Clone, Copy, PartialEq, Eq, Structural)]
pub struct LoopCounters {
    /// Connections visited by the selective mailbox drain.
    pub selective_drain_visits: u64,
    /// Polls that did not wait.
    pub poll_zero_timeouts: u64,
}

/// Connections visited by the selective mailbox drain so far.
pub fn percore_selective_drain_visits(c: &LoopCounters) -> (n: u64)
    ensures
        n == c.selective_drain_visits,
{
    c.selective_drain_visits
}

/// Polls so far that did not wait.
pub fn percore_poll_zero_timeouts(c: &LoopCounters) -> (n: u64)
    ensures
        n == c.poll_zero_timeouts,
{
    c.poll_zero_timeouts
}

/// Subscriptions that a worker's delivery index records.
pub fn percore_local_subs_len(w: &Worker) -> (n: u64)
    requires
        w.wf(),
    ensures
        n == w.index.keys().len() % 0x1_0000_0000_0000_0000,
{
    w.index.len()
}

impl LoopCounters {
    pub fn new() -> (c: LoopCounters)
        ensures
            c.selective_drain_visits == 0,
            c.poll_zero_timeouts == 0,
    {
        LoopCounters { selective_drain_visits: 0, poll_zero_timeouts: 0 }
    }

    /// How long the next poll may wait, in milliseconds: not at all after an
    /// iteration that did something, otherwise 50 ms. Queued output alone does not
    /// shorten the wait.
    pub fn poll_timeout_ms(&mut self, did_work: bool) -> (ms: u64)
        ensures
            ms == (if did_work {
                0u64
            } else {
                50u64
            }),
            final(self).selective_drain_visits == old(self).selective_drain_visits,
            final(self).poll_zero_timeouts == (if did_work {
                vstd::wrapping::u64_specs::wrapping_add(old(self).poll_zero_timeouts, 1)
            } else {
                old(self).poll_zero_timeouts
            }),
    {
        if did_work {
            self.poll_zero_timeouts = self.poll_zero_timeouts.wrapping_add(1);
            0
        } else {
            50
        }
    }
}

/// How often binding the listener is tried on an address in use.
pub const BIND_TRIES: u32 = 10;

/// How long is waited after each of these tries, in milliseconds.
pub const BIND_WAIT_MS: u64 = 25;

/// What follows a failed try to bind the listener.
#[derive(Debug, Clone, Copy, PartialEq, Eq, Structural)]
pub struct BindStep {
    /// How long to wait first, in milliseconds.
    pub wait_ms: u64,
    /// Whether to try again then; if not, binding has failed.
    pub again: bool,
}

/// What follows after `tries` tries to bind of which the last failed. A server that is
/// being replaced may hold the address a moment longer, so that an address in use is
/// waited for after each try, ten times in all. Any other failure is final at once.
pub fn bind_next(tries: u32, in_use: bool) -> (step: BindStep)
    ensures
        step == (if in_use {
            BindStep { wait_ms: 25, again: tries < 10 }
        } else {
            BindStep { wait_ms: 0, again: false }
        }),
{
    if in_use {
        BindStep { wait_ms: BIND_WAIT_MS, again: tries < BIND_TRIES }
    } else {
        BindStep { wait_ms: 0, again: false }
    }
}

/// What a poll reported for a connection.
#[derive(Debug, Clone, Copy, PartialEq, Eq, Structural)]
pub struct Readiness {
    pub error: bool,
    pub read_closed: bool,
    pub write_closed: bool,
    pub readable: bool,
    pub writable: bool,
}

/// What the loop does for a connection that the poll reported.
#[derive(Debug, Clone, Copy, PartialEq, Eq, Structural)]
pub enum EventPlan {
    /// The connection is gone already.
    Skip,
    /// Remove the connection.
    Remove,
    /// Read, then write, as far as reported.
    Handle { read: bool, write: bool },
}

/// The absolute time at which a connection accepted now must have finished its
/// handshake; none on an echo worker or without a timeout.
pub fn handshake_deadline(liveness: bool, timeout_ms: u64, now_ms: u64) -> (d: Option<u64>)
    ensures
        d == (if liveness && timeout_ms > 0 {
            Some(timer::deadline_after(now_ms, timeout_ms))
        } else {
            None::<u64>
        }),
{
    if liveness && timeout_ms > 0 {
        Some(now_ms.saturating_add(timeout_ms))
    } else {
        None
    }
}

impl Worker {
    /// What to do for a connection that the poll reported. A hang-up or an error
    /// wins over everything else.
    pub fn event_plan(&self, key: usize, r: Readiness) -> (plan: EventPlan)
        requires
            self.wf(),
        ensures
            plan == (if !self.table@.conns.dom().contains(key) {
                EventPlan::Skip
            } else if r.error || r.read_closed || r.write_closed {
                EventPlan::Remove
            } else {
                EventPlan::Handle { read: r.readable, write: r.writable }
            }),
    {
        if self.table.get(key).is_none() {
            EventPlan::Skip
        } else if r.error || r.read_closed || r.write_closed {
            EventPlan::Remove
        } else {
            EventPlan::Handle { read: r.readable, write: r.writable }
        }
    }

    /// Folds everything that a connection has accumulated: its byte changes, its
    /// staleness drops and its evictions.
    pub fn fold(&mut self, key: usize)
        requires
            old(self).wf(),
        ensures
            final(self).wf(),
            final(self).wheel == old(self).wheel,
            final(self).index == old(self).index,
            final(self).next_gen == old(self).next_gen,
            !old(self).table@.conns.dom().contains(key) ==> final(self).table@ == old(self).table@,
            old(self).table@.conns.dom().contains(key) ==> {
                let e0 = old(self).table@.conns[key];
                &&& final(self).table@.conns == old(self).table@.conns.insert(key, folded(e0))
                &&& final(self).table@.codel_total == vstd::wrapping::u64_specs::wrapping_add(
                    old(self).table@.codel_total,
                    e0.conn.codel_dropped as u64,
                )
                &&& final(self).table@.drophead_total == vstd::wrapping::u64_specs::wrapping_add(
                    old(self).table@.drophead_total,
                    e0.conn.drophead_dropped as u64,
                )
            },
    {
        let ghost m0 = self.table@.conns;
        self.table.fold_delta(key);
        let ghost m1 = self.table@.conns;
        self.table.fold_codel(key);
        let ghost m2 = self.table@.conns;
        self.table.fold_drophead(key);
        proof {
            if m0.dom().contains(key) {
                assert(m1.dom().contains(key));
                assert(m2.dom().contains(key));
                assert(self.table@.conns =~= m0.insert(key, folded(m0[key])));
            } else {
                assert(!m1.dom().contains(key));
            }
        }
    }

    /// Settles a connection after it was read, written or drained: everything it
    /// accumulated is folded, and it is removed if it is to close.
    pub fn settle(&mut self, key: usize, action: Action, admission: &mut Admission) -> (closed:
        Option<Session>)
        requires
            old(self).wf(),
            old(self).table@.conns.dom().contains(key) ==> match old(
                self,
            ).table@.conns[key].session {
                Some(s) => old(admission)@.node > 0 && old(admission)@.of(s.app_id@) > 0,
                None => true,
            },
        ensures
            final(self).wf(),
            final(self).next_gen == old(self).next_gen,
            action == Action::Keep ==> {
                &&& closed is None
                &&& final(admission)@ == old(admission)@
                &&& final(self).wheel == old(self).wheel
                &&& final(self).index == old(self).index
                &&& final(self).table@.conns == (if old(self).table@.conns.dom().contains(key) {
                    old(self).table@.conns.insert(key, folded(old(self).table@.conns[key]))
                } else {
                    old(self).table@.conns
                })
            },
            action == Action::Close ==> {
                &&& closed == (if old(self).table@.conns.dom().contains(key) {
                    old(self).table@.conns[key].session
                } else {
                    None
                })
                &&& final(self).table@.conns == old(self).table@.conns.remove(key)
                &&& final(self).wheel@ == old(self).wheel@.without(key)
                &&& closed matches Some(s) ==> old(admission)@.one_more(
                    final(admission)@,
                    s.app_id@,
                )
                &&& closed is None ==> final(admission)@ == old(admission)@
                &&& forall|k: SubKey| #[trigger]
                    final(self).index.get(k) == (match closed {
                        Some(s) => index::deindexed(s, old(self).index.get(k), k),
                        None => old(self).index.get(k),
                    })
            },
            ({
                let t = final(self).table@;
                let (c, d) = match old(self).table@.conns.dom().contains(key) {
                    true => (
                        old(self).table@.conns[key].conn.codel_dropped as u64,
                        old(self).table@.conns[key].conn.drophead_dropped as u64,
                    ),
                    false => (0u64, 0u64),
                };
                &&& t.codel_total == vstd::wrapping::u64_specs::wrapping_add(
                    old(self).table@.codel_total,
                    c,
                )
                &&& t.drophead_total == vstd::wrapping::u64_specs::wrapping_add(
                    old(self).table@.drophead_total,
                    d,
                )
            }),
    {
        let ghost m0 = self.table@.conns;
        self.fold(key);
        match action {
            Action::Keep => None,
            Action::Close => {
                let closed = self.remove(key, admission);
                assert(self.table@.conns =~= m0.remove(key));
                closed
            },
        }
    }

    /// Brings the delivery index in line with the channels that a connection's
    /// session is in; nothing happens without a session.
    pub fn reconcile(&mut self, key: usize)
        requires
            old(self).wf(),
        ensures
            final(self).wf(),
            final(self).wheel == old(self).wheel,
            final(self).next_gen == old(self).next_gen,
            final(self).table@.inflight == old(self).table@.inflight,
            final(self).table@.outbound == old(self).table@.outbound,
            match session_at(old(self).table@, key) {
                None => {
                    &&& final(self).table@ == old(self).table@
                    &&& final(self).index == old(self).index
                },
                Some(s0) => {
                    &&& forall|k: SubKey| #[trigger]
                        final(self).index.get(k) == index::reconciled(
                            s0,
                            key,
                            old(self).index.get(k),
                            k,
                        )
                    &&& session_at(final(self).table@, key) matches Some(s1) && {
                        &&& s1.subscribed == s0.subscribed
                        &&& s1.app_id == s0.app_id
                        &&& s1.socket_id == s0.socket_id
                        &&& s1.version == s0.version
                        &&& s1.presence == s0.presence
                        &&& s1.cluster_admitted == s0.cluster_admitted
                        &&& forall|c: Seq<char>| #[trigger]
                            crate::transport::worker::mail::names(s1.subs@).contains(c)
                                <==> crate::transport::worker::mail::names(
                                s0.subscribed@,
                            ).contains(c)
                        &&& final(self).table@ == (TableModel {
                            conns: old(self).table@.conns.insert(
                                key,
                                EntryModel {
                                    session: Some(s1),
                                    ..old(self).table@.conns[key]
                                },
                            ),
                            ..old(self).table@
                        })
                    }
                },
            },
    {
        let ghost t0 = self.table@;
        match self.table.entry(key) {
            None => {},
            Some(e) => {
                match e.session.take() {
                    None => {
                        assert(t0.conns.insert(key, e@) =~= t0.conns);
                    },
                    Some(s) => {
                        let mut session: Session = s;
                        index::reconcile_membership(&mut session, key, &mut self.index);
                        e.session = Some(session);
                    },
                }
            },
        }
    }

    /// The connections that a round of the selective mailbox drain visits: each
    /// marked one once, as long as its session is open. Every visit is counted.
    pub fn dirty_targets(&self, marked: &Vec<usize>, counters: &mut LoopCounters) -> (targets: Vec<
        usize,
    >)
        requires
            self.wf(),
        ensures
            targets@ == targets_of(self.table@, marked@),
            final(counters).poll_zero_timeouts == old(counters).poll_zero_timeouts,
            final(counters).selective_drain_visits == (old(counters).selective_drain_visits
                + targets@.len()) % 0x1_0000_0000_0000_0000,
    {
        let mut out: Vec<usize> = Vec::new();
        let mut i: usize = 0;
        assert(marked@.take(0) =~= Seq::<usize>::empty());
        while i < marked.len()
            invariant
                self.wf(),
                i <= marked@.len(),
                out@ == targets_of(self.table@, marked@.take(i as int)),
                counters.poll_zero_timeouts == old(counters).poll_zero_timeouts,
                counters.selective_drain_visits == (old(counters).selective_drain_visits
                    + out@.len()) % 0x1_0000_0000_0000_0000,
            decreases marked@.len() - i,
        {
            let key: usize = marked[i];
            proof {
                assert(marked@.take(i + 1).drop_last() =~= marked@.take(i as int));
                assert(marked@.take(i + 1).last() == key);
            }
            let open: bool = match self.table.get(key) {
                Some(e) => e.session.is_some() && e.conn.state() == ConnState::Open,
                None => false,
            };
            if open && !deliver::has_key(&out, key) {
                out.push(key);
                counters.selective_drain_visits = counters.selective_drain_visits.wrapping_add(1);
            }
            i = i + 1;
        }
        assert(marked@.take(i as int) =~= marked@);
        out
    }

    /// What follows from an idle ping: without a session to ping the liveness
    /// timer is dropped; after a flush that failed the connection closes;
    /// otherwise the pong deadline is armed.
    pub fn after_ping(&mut self, key: usize, queued: bool, flush: Action, now_ms: u64) -> (action:
        Action)
        requires
            old(self).wf(),
        ensures
            final(self).wf(),
            final(self).table == old(self).table,
            final(self).index == old(self).index,
            final(self).next_gen == old(self).next_gen,
            action == (if queued {
                flush
            } else {
                Action::Keep
            }),
            final(self).wheel@ == (if !queued {
                (WheelModel { live: old(self).wheel@.live.remove(key), ..old(self).wheel@ })
            } else if flush == Action::Close {
                old(self).wheel@
            } else {
                old(self).wheel@.scheduled(
                    key,
                    timer::deadline_after(now_ms, old(self).wheel@.pong_timeout_ms),
                    Kind::Pong,
                )
            }),
    {
        if !queued {
            self.wheel.clear_liveness(key);
            return Action::Keep;
        }
        match flush {
            Action::Close => Action::Close,
            Action::Keep => {
                self.wheel.mark_ping_sent(key, now_ms);
                Action::Keep
            },
        }
    }
}

/// A connection with everything it accumulated folded away.
pub open spec fn folded(e: EntryModel) -> EntryModel {
    let r = table::reported(e);
    EntryModel {
        conn: crate::transport::conn::ConnModel {
            codel_dropped: 0,
            drophead_dropped: 0,
            ..r.conn
        },
        ..r
    }
}

/// The session of a connection, if both exist.
pub open spec fn session_at(t: TableModel, key: usize) -> Option<Session> {
    if t.conns.dom().contains(key) {
        t.conns[key].session
    } else {
        None
    }
}

/// The open sessions among `marked`, each once, in order of first mention.
pub open spec fn targets_of(t: TableModel, marked: Seq<usize>) -> Seq<usize>
    decreases marked.len(),
{
    if marked.len() == 0 {
        Seq::empty()
    } else {
        let before = targets_of(t, marked.drop_last());
        let k = marked.last();
        if t.conns.dom().contains(k) && t.conns[k].open() && !before.contains(k) {
            before.push(k)
        } else {
            before
        }
    }
}

/// The close code and reason of a connection whose ping went unanswered.
pub fn pong_timeout_close() -> (r: (u16, &'static str))
    ensures
        r.0 == 4201,
        r.1@
            == "Pong reply not received: ping was sent to the client, but no reply was received"@,
{
    (4201, "Pong reply not received: ping was sent to the client, but no reply was received")
}

/// The close code and reason of a connection that reached its maximum lifetime.
pub fn lifetime_close() -> (r: (u16, &'static str))
    ensures
        r.0 == 4202,
        r.1@ == "Closed after inactivity"@,
{
    (4202, "Closed after inactivity")
}

/// The close code and reason of a connection on a server that shuts down.
pub fn shutdown_close() -> (r: (u16, &'static str))
    ensures
        r.0 == 4200,
        r.1@ == "Server is shutting down; please reconnect"@,
{
    (4200, "Server is shutting down; please reconnect")
}

/// The graceful end of a worker.
#[derive(Debug, Clone, Copy, PartialEq, Eq, Structural)]
pub struct Shutdown {
    pub started: bool,
    /// When the drain ends whatever is still queued; none ends it at once.
    pub deadline_ms: Option<u64>,
}

impl Shutdown {
    pub fn new() -> (s: Shutdown)
        ensures
            !s.started,
            s.deadline_ms is None,
    {
        Shutdown { started: false, deadline_ms: None }
    }

    /// The worker may stop: nothing is owed to any peer, or the grace period is over.
    pub open spec fn exit_allowed(self, outbound_bytes: u64, now_ms: u64) -> bool {
        outbound_bytes == 0 || self.grace_over(now_ms)
    }

    /// The grace period, if there is one, is over.
    pub open spec fn grace_over(self, now_ms: u64) -> bool {
        match self.deadline_ms {
            Some(d) => now_ms >= d,
            None => true,
        }
    }

    /// Starts the drain if it has not started; says whether it did, in which case
    /// every connection is told to reconnect.
    pub fn begin(&mut self, now_ms: u64, grace_ms: u64) -> (first: bool)
        ensures
            first == !old(self).started,
            final(self).started,
            final(self).deadline_ms == (if !first {
                old(self).deadline_ms
            } else if grace_ms > 0 {
                Some(timer::deadline_after(now_ms, grace_ms))
            } else {
                None
            }),
    {
        if self.started {
            return false;
        }
        self.started = true;
        self.deadline_ms = if grace_ms > 0 {
            Some(now_ms.saturating_add(grace_ms))
        } else {
            None
        };
        true
    }

    /// Whether the worker may stop: nothing is owed to any peer, or the grace
    /// period is over. What peers have yet to send does not hold it up.
    pub fn may_exit(&self, outbound_bytes: u64, now_ms: u64) -> (b: bool)
        ensures
            b == self.exit_allowed(outbound_bytes, now_ms),
    {
        if outbound_bytes == 0 {
            return true;
        }
        match self.deadline_ms {
            Some(d) => now_ms >= d,
            None => true,
        }
    }
}

/// The broadcast inbox of a worker and the flag it shares with the sink.
pub struct BroadcastWiring {
    pub slot: WorkerSlot,
    /// Some inbox was found full.
    pub inbox_full: bool,
}

impl BroadcastWiring {
    /// Updates the flags once the inbox has been drained: it has headroom again,
    /// and the budget bit follows the bytes in flight.
    pub fn after_drain(&mut self, inflight: u64, budget: u64)
        ensures
            !final(self).inbox_full,
            final(self).slot@ == (crate::transport::fanout::SlotModel {
                budget_saturated: shed::pressure_after(
                    old(self).slot@.budget_saturated,
                    inflight,
                    budget,
                ),
                ..old(self).slot@
            }),
    {
        let ghost s0 = self.slot@;
        self.inbox_full = false;
        let mut bit: bool = self.slot.budget_saturated;
        shed::update_budget_pressure(&mut bit, inflight, budget);
        self.slot.budget_saturated = bit;
        assert(self.slot@.inbox =~= s0.inbox);
    }
}

/// While any connection owes its peer something, in a queued frame or in its TLS
/// session, a worker whose connections are all folded in does not stop before the
/// grace period is over.
pub proof fn the_drain_waits_for_what_is_owed(t: TableModel, s: Shutdown, key: usize, now_ms: u64)
    requires
        t.valid(),
        t.settled(),
        table::sum_of(table::owed(t.conns)) <= u64::MAX,
        t.conns.dom().contains(key),
        t.conns[key].conn.outbound() > 0,
        !s.grace_over(now_ms),
    ensures
        !s.exit_allowed(t.outbound, now_ms),
{
    table::settled_totals_are_exact(t);
    let owed = table::owed(t.conns);
    assert(owed.dom() =~= t.conns.dom());
    table::lemma_sum_remove(owed, key);
}

/// Flushing a connection and settling it restores its writable interest, whatever the
/// socket took: the connection owes nothing, has interest, or is gone. Where it was the
/// only one without, every connection that owes something has interest again.
pub proof fn flushing_restores_interest(
    t: TableModel,
    after: TableModel,
    key: usize,
    status: WriteStatus,
    registered: bool,
    lost: Set<usize>,
)
    requires
        t.conns.dom().contains(key),
        t.interest_held_but(lost),
        status == WriteStatus::Drained ==> !t.conns[key].conn.owes(),
        after.conns == (match head::flush_action(status, registered) {
            Action::Keep => t.conns.insert(
                key,
                folded(head::after_flush_of(t.conns[key], status, registered)),
            ),
            Action::Close => t.conns.remove(key),
        }),
    ensures
        after.interest_held_but(lost.remove(key)),
        lost == set![key] ==> after.interest_held(),
{
    assert forall|k: usize| #[trigger]
        after.conns.dom().contains(k) && !lost.remove(key).contains(k) implies table::interested(
        after.conns[k],
    ) by {
        if k != key {
            assert(t.conns.dom().contains(k));
        }
    }
    if lost == set![key] {
        assert(lost.remove(key) =~= Set::empty());
    }
}

/// Flushing and settling every connection that lost its writable interest, one after
/// the other, leaves none without: `tables` are the table before the first, between
/// each two and after the last.
pub proof fn a_pass_restores_interest(tables: Seq<TableModel>, keys: Seq<usize>, lost: Set<usize>)
    requires
        tables.len() == keys.len() + 1,
        tables[0].interest_held_but(lost),
        forall|k: usize| #[trigger] lost.contains(k) ==> keys.contains(k),
        forall|i: int|
            0 <= i < keys.len() ==> serviced(#[trigger] tables[i], keys[i], tables[i + 1]),
    ensures
        tables.last().interest_held(),
{
    lemma_pass(tables, keys, lost, keys.len() as int);
    let end = tables.last();
    assert forall|k: usize| #[trigger] end.conns.dom().contains(k) implies table::interested(
        end.conns[k],
    ) by {
        assert(keys.take(keys.len() as int) =~= keys);
    }
}

/// A connection was flushed and settled, and nothing was done on any other.
pub open spec fn serviced(t: TableModel, key: usize, after: TableModel) -> bool {
    &&& t.same_but(key, after)
    &&& after.conns.dom().contains(key) ==> table::interested(after.conns[key])
}

proof fn lemma_pass(tables: Seq<TableModel>, keys: Seq<usize>, lost: Set<usize>, n: int)
    requires
        tables.len() == keys.len() + 1,
        0 <= n <= keys.len(),
        tables[0].interest_held_but(lost),
        forall|i: int|
            0 <= i < keys.len() ==> serviced(#[trigger] tables[i], keys[i], tables[i + 1]),
    ensures
        forall|k: usize| #[trigger]
            tables[n].conns.dom().contains(k) && !(lost.contains(k) && !keys.take(n).contains(k))
                ==> table::interested(tables[n].conns[k]),
    decreases n,
{
    if n > 0 {
        lemma_pass(tables, keys, lost, n - 1);
        assert(serviced(tables[n - 1], keys[n - 1], tables[n - 1 + 1]));
        assert forall|k: usize| #[trigger]
            tables[n].conns.dom().contains(k) && !(lost.contains(k) && !keys.take(n).contains(
                k,
            )) implies table::interested(tables[n].conns[k]) by {
            if k != keys[n - 1] {
                assert(tables[n - 1].conns.dom().contains(k));
                if keys.take(n).contains(k) {
                    let j = choose|j: int| 0 <= j < n && keys.take(n)[j] == k;
                    assert(keys.take(n - 1)[j] == k);
                }
            }
        }
    }
}

/// Folding leaves nothing to fold.
pub proof fn folding_is_idempotent(e: EntryModel)
    ensures
        folded(folded(e)) == folded(e),
{
    assert(folded(e).conn.pending() == e.conn.pending());
}

/// A worker that is shutting down stops once nothing is owed, or once its grace period
/// is over; without a grace period it stops at once.
pub proof fn shutdowns_end(s: Shutdown, outbound_bytes: u64, now_ms: u64, later_ms: u64)
    requires
        now_ms <= later_ms,
    ensures
        outbound_bytes == 0 ==> s.exit_allowed(outbound_bytes, now_ms),
        s.deadline_ms is None ==> s.exit_allowed(outbound_bytes, now_ms),
        s.deadline_ms matches Some(d) ==> outbound_bytes > 0 ==> (s.exit_allowed(
            outbound_bytes,
            now_ms,
        ) <==> now_ms >= d),
        s.exit_allowed(outbound_bytes, now_ms) ==> s.exit_allowed(outbound_bytes, later_ms),
{
}

/// The connections to look at again are those marked that are still open, each once,
/// in the order in which they were first marked.
pub proof fn marked_connections_are_visited_once(t: TableModel, marked: Seq<usize>)
    ensures
        targets_of(t, marked).no_duplicates(),
        forall|k: usize| targets_of(t, marked).contains(k) <==> marked.contains(k)
            && t.conns.dom().contains(k) && t.conns[k].open(),
    decreases marked.len(),
{
    if marked.len() > 0 {
        let rest = marked.drop_last();
        let last = marked.last();
        let before = targets_of(t, rest);
        let now = targets_of(t, marked);
        marked_connections_are_visited_once(t, rest);
        assert(marked =~= rest.push(last));
        assert forall|k: usize| now.contains(k) <==> marked.contains(k) && t.conns.dom().contains(k)
            && t.conns[k].open() by {
            assert(before.contains(k) <==> rest.contains(k) && t.conns.dom().contains(k)
                && t.conns[k].open());
            if before.contains(k) {
                let i = choose|i: int| 0 <= i < before.len() && before[i] == k;
                assert(now[i] == k);
            }
            if rest.contains(k) {
                let i = choose|i: int| 0 <= i < rest.len() && rest[i] == k;
                assert(marked[i] == k);
            }
            if k == last {
                assert(marked[marked.len() - 1] == k);
                if now != before {
                    assert(now[now.len() - 1] == k);
                }
            }
            if marked.contains(k) && k != last {
                let i = choose|i: int| 0 <= i < marked.len() && marked[i] == k;
                assert(rest[i] == k);
            }
            if now.contains(k) && k != last {
                let i = choose|i: int| 0 <= i < now.len() && now[i] == k;
                assert(before[i] == k);
            }
        }
    }
}

} // verus!
