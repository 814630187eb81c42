//! Per-worker timer wheel for connection liveness.
//!
//! After `activity_timeout` seconds without inbound traffic the server pings; a
//! ping unanswered for `pong_timeout` seconds closes the connection with 4201.
//! Two further deadlines are absolute: the maximum lifetime (4202), armed when a
//! session is established, and the handshake deadline, armed at accept. Neither
//! is moved by activity.
//!
//! The timeline is an index in deadline order that may hold superseded entries;
//! the side tables say which deadline of a connection is current. An entry fires
//! only when its side table still names it.
//! Asking what is due visits the entries that have come due and no others.
use std::collections::{HashMap, VecDeque};
use vstd::prelude::*;

verus! {

broadcast use vstd::std_specs::hash::group_hash_axioms;

/// A connection within a worker.
pub type ConnId = usize;

/// What is due for a connection.
#[derive(Debug, Clone, Copy, PartialEq, Eq, Structural)]
pub enum Due {
    /// Idle for the activity timeout: send a ping.
    Ping(ConnId),
    /// A ping went unanswered for the pong timeout: close with 4201.
    Close4201(ConnId),
    /// The connection reached its maximum lifetime: close with 4202.
    Close4202(ConnId),
    /// The handshake did not complete in time.
    HandshakeTimeout(ConnId),
}

/// Which deadline a timeline entry records.
#[derive(Debug, Clone, Copy, PartialEq, Eq, Structural)]
pub enum Kind {
    /// Fires a ping.
    Idle,
    /// Fires the 4201 close.
    Pong,
    /// Fires the 4202 close; absolute.
    Lifetime,
    /// Fires the handshake timeout; absolute.
    Handshake,
}

/// The current liveness timer of a connection.
#[derive(Debug, Clone, Copy, PartialEq, Eq, Structural)]
pub struct Timer {
    pub deadline_ms: u64,
    pub kind: Kind,
}

/// One timeline entry.
#[derive(Debug, Clone, Copy, PartialEq, Eq, Structural)]
pub struct Slot {
    pub deadline_ms: u64,
    pub conn: ConnId,
    pub kind: Kind,
}

/// A wheel as contracts see it.
pub struct WheelModel {
    pub activity_timeout_ms: u64,
    pub pong_timeout_ms: u64,
    /// Entries in deadline order, equal deadlines in the order of scheduling.
    pub timeline: Seq<Slot>,
    pub live: Map<ConnId, Timer>,
    pub lifetime: Map<ConnId, u64>,
    pub handshake: Map<ConnId, u64>,
}

/// `now + timeout`, capped at the largest `u64`.
pub open spec fn deadline_after(now_ms: u64, timeout_ms: u64) -> u64 {
    if now_ms + timeout_ms > u64::MAX {
        u64::MAX
    } else {
        (now_ms + timeout_ms) as u64
    }
}

/// The number of leading entries of a timeline that are due at `now_ms`.
pub open spec fn expired_count(timeline: Seq<Slot>, now_ms: u64) -> nat
    decreases timeline.len(),
{
    if timeline.len() == 0 {
        0
    } else if timeline.last().deadline_ms <= now_ms {
        timeline.len()
    } else {
        expired_count(timeline.drop_last(), now_ms)
    }
}

/// The entries are in deadline order.
pub open spec fn in_order(timeline: Seq<Slot>) -> bool {
    forall|i: int, j: int|
        0 <= i <= j < timeline.len() ==> (#[trigger] timeline[i]).deadline_ms <= (
        #[trigger] timeline[j]).deadline_ms
}

impl WheelModel {
    /// A wheel on which nothing is armed.
    pub open spec fn fresh(activity_timeout_ms: u64, pong_timeout_ms: u64) -> WheelModel {
        WheelModel {
            activity_timeout_ms,
            pong_timeout_ms,
            timeline: Seq::empty(),
            live: Map::empty(),
            lifetime: Map::empty(),
            handshake: Map::empty(),
        }
    }

    /// The timeline is in deadline order and holds no entry twice.
    pub open spec fn valid(self) -> bool {
        &&& in_order(self.timeline)
        &&& self.timeline.no_duplicates()
    }

    /// The timeline with `slot` in it: where it already is, or else behind every
    /// entry that is not later.
    pub open spec fn with_slot(self, slot: Slot) -> Seq<Slot> {
        if self.timeline.contains(slot) {
            self.timeline
        } else {
            self.timeline.insert(expired_count(self.timeline, slot.deadline_ms) as int, slot)
        }
    }

    /// The wheel with the absolute lifetime deadline of `conn` armed.
    pub open spec fn lifetime_set(self, conn: ConnId, deadline_ms: u64) -> WheelModel {
        WheelModel {
            timeline: self.with_slot(Slot { deadline_ms, conn, kind: Kind::Lifetime }),
            lifetime: self.lifetime.insert(conn, deadline_ms),
            ..self
        }
    }

    /// The wheel with the absolute handshake deadline of `conn` armed.
    pub open spec fn handshake_set(self, conn: ConnId, deadline_ms: u64) -> WheelModel {
        WheelModel {
            timeline: self.with_slot(Slot { deadline_ms, conn, kind: Kind::Handshake }),
            handshake: self.handshake.insert(conn, deadline_ms),
            ..self
        }
    }

    /// The wheel with the liveness timer of `conn` replaced.
    pub open spec fn scheduled(self, conn: ConnId, deadline_ms: u64, kind: Kind) -> WheelModel {
        WheelModel {
            timeline: self.with_slot(Slot { deadline_ms, conn, kind }),
            live: self.live.insert(conn, Timer { deadline_ms, kind }),
            ..self
        }
    }

    /// The side table still names this entry.
    pub open spec fn current(self, slot: Slot) -> bool {
        match slot.kind {
            Kind::Lifetime => self.lifetime.dom().contains(slot.conn) && self.lifetime[slot.conn]
                == slot.deadline_ms,
            Kind::Handshake => self.handshake.dom().contains(slot.conn)
                && self.handshake[slot.conn] == slot.deadline_ms,
            _ => self.live.dom().contains(slot.conn) && self.live[slot.conn] == (Timer {
                deadline_ms: slot.deadline_ms,
                kind: slot.kind,
            }),
        }
    }

    /// What the current ones of `slots` fire, in order.
    pub open spec fn fired(self, slots: Seq<Slot>) -> Seq<Due>
        decreases slots.len(),
    {
        if slots.len() == 0 {
            Seq::empty()
        } else if self.current(slots.last()) {
            self.fired(slots.drop_last()).push(due_of(slots.last()))
        } else {
            self.fired(slots.drop_last())
        }
    }

    /// The entries that are due at `now_ms`.
    pub open spec fn expired(self, now_ms: u64) -> Seq<Slot> {
        self.timeline.take(expired_count(self.timeline, now_ms) as int)
    }

    /// The wheel without the entries that are due at `now_ms`.
    pub open spec fn advanced(self, now_ms: u64) -> WheelModel {
        WheelModel {
            timeline: self.timeline.skip(expired_count(self.timeline, now_ms) as int),
            ..self
        }
    }

    /// The wheel without any deadline of `conn`.
    pub open spec fn without(self, conn: ConnId) -> WheelModel {
        WheelModel {
            live: self.live.remove(conn),
            lifetime: self.lifetime.remove(conn),
            handshake: self.handshake.remove(conn),
            ..self
        }
    }
}

/// What an entry fires.
pub open spec fn due_of(slot: Slot) -> Due {
    match slot.kind {
        Kind::Idle => Due::Ping(slot.conn),
        Kind::Pong => Due::Close4201(slot.conn),
        Kind::Lifetime => Due::Close4202(slot.conn),
        Kind::Handshake => Due::HandshakeTimeout(slot.conn),
    }
}

/// The connection that something is due for.
pub open spec fn due_conn(d: Due) -> ConnId {
    match d {
        Due::Ping(c) => c,
        Due::Close4201(c) => c,
        Due::Close4202(c) => c,
        Due::HandshakeTimeout(c) => c,
    }
}

proof fn lemma_expired_count(timeline: Seq<Slot>, now_ms: u64)
    requires
        in_order(timeline),
    ensures
        expired_count(timeline, now_ms) <= timeline.len(),
        forall|i: int|
            0 <= i < expired_count(timeline, now_ms) ==> (#[trigger] timeline[i]).deadline_ms
                <= now_ms,
        forall|i: int|
            expired_count(timeline, now_ms) <= i < timeline.len() ==> (
            #[trigger] timeline[i]).deadline_ms > now_ms,
    decreases timeline.len(),
{
    if timeline.len() > 0 && timeline.last().deadline_ms > now_ms {
        let shorter = timeline.drop_last();
        assert forall|i: int, j: int| 0 <= i <= j < shorter.len() implies (
        #[trigger] shorter[i]).deadline_ms <= (#[trigger] shorter[j]).deadline_ms by {
            assert(shorter[i] == timeline[i] && shorter[j] == timeline[j]);
        }
        lemma_expired_count(shorter, now_ms);
        let n = expired_count(timeline, now_ms);
        assert forall|i: int| 0 <= i < n implies (#[trigger] timeline[i]).deadline_ms <= now_ms by {
            assert(shorter[i] == timeline[i]);
        }
        assert forall|i: int| n <= i < timeline.len() implies (#[trigger] timeline[i]).deadline_ms
            > now_ms by {
            if i < shorter.len() {
                assert(shorter[i] == timeline[i]);
            }
        }
    }
}

/// Putting an entry in keeps the timeline valid and every other entry in it.
proof fn lemma_with_slot(w: WheelModel, slot: Slot)
    requires
        w.valid(),
    ensures
        in_order(w.with_slot(slot)),
        w.with_slot(slot).no_duplicates(),
        forall|s: Slot| #[trigger]
            w.with_slot(slot).contains(s) <==> w.timeline.contains(s) || s == slot,
{
    let t = w.timeline;
    let u = w.with_slot(slot);
    lemma_expired_count(t, slot.deadline_ms);
    if !t.contains(slot) {
        let n = expired_count(t, slot.deadline_ms) as int;
        assert forall|i: int| 0 <= i < u.len() implies #[trigger] u[i] == (if i < n {
            t[i]
        } else if i == n {
            slot
        } else {
            t[i - 1]
        }) by {}
        assert forall|i: int, j: int| 0 <= i <= j < u.len() implies (
        #[trigger] u[i]).deadline_ms <= (#[trigger] u[j]).deadline_ms by {
            assert(i < n ==> u[i] == t[i]);
            assert(i > n ==> u[i] == t[i - 1]);
            assert(j < n ==> u[j] == t[j]);
            assert(j > n ==> u[j] == t[j - 1]);
        }
        assert forall|i: int, j: int| 0 <= i < u.len() && 0 <= j < u.len() && i != j implies u[i]
            != u[j] by {
            assert(i < n ==> u[i] == t[i]);
            assert(i > n ==> u[i] == t[i - 1]);
            assert(j < n ==> u[j] == t[j]);
            assert(j > n ==> u[j] == t[j - 1]);
        }
        assert forall|s: Slot| #[trigger] u.contains(s) <==> t.contains(s) || s == slot by {
            if t.contains(s) {
                let i = choose|i: int| 0 <= i < t.len() && t[i] == s;
                assert(u[if i < n { i } else { i + 1 }] == s);
            }
            assert(u[n] == slot);
            if u.contains(s) && s != slot {
                let i = choose|i: int| 0 <= i < u.len() && u[i] == s;
                assert(t[if i < n { i } else { i - 1 }] == s);
            }
        }
    }
}

/// Advancing keeps the timeline valid and exactly the entries that are later.
proof fn lemma_advanced(w: WheelModel, now_ms: u64)
    requires
        w.valid(),
    ensures
        w.advanced(now_ms).valid(),
        forall|s: Slot| #[trigger]
            w.advanced(now_ms).timeline.contains(s) <==> w.timeline.contains(s) && s.deadline_ms
                > now_ms,
{
    let t = w.timeline;
    let n = expired_count(t, now_ms) as int;
    lemma_expired_count(t, now_ms);
    let u = t.skip(n);
    assert forall|i: int| 0 <= i < u.len() implies #[trigger] u[i] == t[i + n] by {}
    assert forall|s: Slot| #[trigger] u.contains(s) <==> t.contains(s) && s.deadline_ms > now_ms by {
        if u.contains(s) {
            let i = choose|i: int| 0 <= i < u.len() && u[i] == s;
            assert(t[i + n] == s);
        }
        if t.contains(s) && s.deadline_ms > now_ms {
            let i = choose|i: int| 0 <= i < t.len() && t[i] == s;
            assert(u[i - n] == s);
        }
    }
}

/// Per-worker timer wheel.
pub struct TimerWheel {
    activity_timeout_ms: u64,
    pong_timeout_ms: u64,
    timeline: VecDeque<Slot>,
    live: HashMap<ConnId, Timer>,
    lifetime: HashMap<ConnId, u64>,
    handshake: HashMap<ConnId, u64>,
}

impl View for TimerWheel {
    type V = WheelModel;

    closed spec fn view(&self) -> WheelModel {
        WheelModel {
            activity_timeout_ms: self.activity_timeout_ms,
            pong_timeout_ms: self.pong_timeout_ms,
            timeline: self.timeline@,
            live: self.live@,
            lifetime: self.lifetime@,
            handshake: self.handshake@,
        }
    }
}

impl TimerWheel {
    /// A wheel with the default timeouts: 120 s idle, 30 s pong.
    pub fn new() -> (w: TimerWheel)
        ensures
            w@.valid(),
            w@ == WheelModel::fresh(120_000, 30_000),
    {
        TimerWheel::with_timeouts(120, 30)
    }

    /// A wheel with timeouts given in seconds.
    pub fn with_timeouts(activity_timeout_secs: u32, pong_timeout_secs: u32) -> (w: TimerWheel)
        ensures
            w@.valid(),
            w@ == WheelModel::fresh(
                (activity_timeout_secs * 1000) as u64,
                (pong_timeout_secs * 1000) as u64,
            ),
    {
        TimerWheel {
            activity_timeout_ms: activity_timeout_secs as u64 * 1000,
            pong_timeout_ms: pong_timeout_secs as u64 * 1000,
            timeline: VecDeque::new(),
            live: HashMap::new(),
            lifetime: HashMap::new(),
            handshake: HashMap::new(),
        }
    }

    /// Records inbound activity on `conn`: its idle deadline becomes the activity
    /// timeout from now. A pong deadline that was armed is superseded, so a pong
    /// in time cancels the close. Absolute deadlines stay.
    pub fn touch(&mut self, conn: ConnId, now_ms: u64)
        requires
            old(self)@.valid(),
        ensures
            final(self)@.valid(),
            final(self)@ == old(self)@.scheduled(
                conn,
                deadline_after(now_ms, old(self)@.activity_timeout_ms),
                Kind::Idle,
            ),
    {
        let deadline_ms: u64 = now_ms.saturating_add(self.activity_timeout_ms);
        self.schedule(conn, deadline_ms, Kind::Idle);
    }

    /// Arms the pong deadline of `conn` after a ping was sent.
    pub fn mark_ping_sent(&mut self, conn: ConnId, now_ms: u64)
        requires
            old(self)@.valid(),
        ensures
            final(self)@.valid(),
            final(self)@ == old(self)@.scheduled(
                conn,
                deadline_after(now_ms, old(self)@.pong_timeout_ms),
                Kind::Pong,
            ),
    {
        let deadline_ms: u64 = now_ms.saturating_add(self.pong_timeout_ms);
        self.schedule(conn, deadline_ms, Kind::Pong);
    }

    /// Arms the absolute lifetime deadline of `conn`.
    pub fn arm_lifetime(&mut self, conn: ConnId, deadline_ms: u64)
        requires
            old(self)@.valid(),
        ensures
            final(self)@.valid(),
            final(self)@ == old(self)@.lifetime_set(conn, deadline_ms),
    {
        self.lifetime.insert(conn, deadline_ms);
        self.insert_slot(Slot { deadline_ms, conn, kind: Kind::Lifetime });
    }

    /// Arms the absolute handshake deadline of `conn`.
    pub fn arm_handshake(&mut self, conn: ConnId, deadline_ms: u64)
        requires
            old(self)@.valid(),
        ensures
            final(self)@.valid(),
            final(self)@ == old(self)@.handshake_set(conn, deadline_ms),
    {
        self.handshake.insert(conn, deadline_ms);
        self.insert_slot(Slot { deadline_ms, conn, kind: Kind::Handshake });
    }

    /// Cancels the handshake deadline of `conn`.
    pub fn clear_handshake(&mut self, conn: ConnId)
        requires
            old(self)@.valid(),
        ensures
            final(self)@.valid(),
            final(self)@ == (WheelModel {
                handshake: old(self)@.handshake.remove(conn),
                ..old(self)@
            }),
    {
        self.handshake.remove(&conn);
    }

    /// Cancels the liveness timer of `conn`.
    pub fn clear_liveness(&mut self, conn: ConnId)
        requires
            old(self)@.valid(),
        ensures
            final(self)@.valid(),
            final(self)@ == (WheelModel { live: old(self)@.live.remove(conn), ..old(self)@ }),
    {
        self.live.remove(&conn);
    }

    /// Drops every deadline of `conn`, so that a later connection with the same
    /// identifier is not matched against an old one.
    pub fn remove(&mut self, conn: ConnId)
        requires
            old(self)@.valid(),
        ensures
            final(self)@.valid(),
            final(self)@ == old(self)@.without(conn),
    {
        self.live.remove(&conn);
        self.lifetime.remove(&conn);
        self.handshake.remove(&conn);
    }

    /// Everything that has come due at `now_ms`, in deadline order and each once.
    pub fn due(&mut self, now_ms: u64) -> (out: Vec<Due>)
        requires
            old(self)@.valid(),
        ensures
            final(self)@.valid(),
            final(self)@ == old(self)@.advanced(now_ms),
            out@ == old(self)@.fired(old(self)@.expired(now_ms)),
            forall|i: int, j: int| 0 <= i < j < out@.len() ==> out@[i] != out@[j],
    {
        let ghost m0 = self@;
        let ghost t = m0.timeline;
        let mut out: Vec<Due> = Vec::new();
        let ghost mut i: int = 0;
        proof {
            lemma_expired_count(t, now_ms);
            assert(t.take(0) =~= Seq::<Slot>::empty());
            assert(t.skip(0) =~= t);
        }
        while self.timeline.len() > 0 && self.timeline[0].deadline_ms <= now_ms
            invariant
                0 <= i <= expired_count(t, now_ms) <= t.len(),
                t == m0.timeline,
                m0.valid(),
                self@ == (WheelModel { timeline: t.skip(i), ..m0 }),
                out@ == m0.fired(t.take(i)),
            decreases t.len() - i,
        {
            proof {
                lemma_expired_count(t, now_ms);
                assert(t.skip(i)[0] == t[i]);
                assert(t.skip(i).drop_first() =~= t.skip(i + 1));
                assert(t.take(i + 1).drop_last() =~= t.take(i));
                assert(t.take(i + 1).last() == t[i]);
            }
            match self.timeline.pop_front() {
                Some(slot) => {
                    assert(self.timeline@ =~= t.skip(i + 1));
                    if self.is_current(slot) {
                        out.push(
                            match slot.kind {
                                Kind::Idle => Due::Ping(slot.conn),
                                Kind::Pong => Due::Close4201(slot.conn),
                                Kind::Lifetime => Due::Close4202(slot.conn),
                                Kind::Handshake => Due::HandshakeTimeout(slot.conn),
                            },
                        );
                    }
                    proof {
                        i = i + 1;
                    }
                },
                None => {},
            }
        }
        proof {
            lemma_expired_count(t, now_ms);
            if i < expired_count(t, now_ms) {
                assert(t.skip(i)[0] == t[i]);
            }
            lemma_advanced(m0, now_ms);
            due_is_fired_once(m0, now_ms);
        }
        out
    }

    /// Whether the side table still names `slot`.
    fn is_current(&self, slot: Slot) -> (b: bool)
        ensures
            b == self@.current(slot),
    {
        match slot.kind {
            Kind::Lifetime => match self.lifetime.get(&slot.conn) {
                Some(d) => *d == slot.deadline_ms,
                None => false,
            },
            Kind::Handshake => match self.handshake.get(&slot.conn) {
                Some(d) => *d == slot.deadline_ms,
                None => false,
            },
            Kind::Idle | Kind::Pong => match self.live.get(&slot.conn) {
                Some(t) => t.deadline_ms == slot.deadline_ms && t.kind == slot.kind,
                None => false,
            },
        }
    }

    /// The number of entries that are not later than `at_ms`, by bisection.
    fn expired_len(&self, at_ms: u64) -> (n: usize)
        requires
            self@.valid(),
        ensures
            n == expired_count(self@.timeline, at_ms),
            n <= self@.timeline.len(),
    {
        let ghost t = self@.timeline;
        let mut lo: usize = 0;
        let mut hi: usize = self.timeline.len();
        while lo < hi
            invariant
                t == self.timeline@,
                in_order(t),
                lo <= hi <= t.len(),
                forall|i: int| 0 <= i < lo ==> (#[trigger] t[i]).deadline_ms <= at_ms,
                forall|i: int| hi <= i < t.len() ==> (#[trigger] t[i]).deadline_ms > at_ms,
            decreases hi - lo,
        {
            let mid: usize = lo + (hi - lo) / 2;
            if self.timeline[mid].deadline_ms <= at_ms {
                lo = mid + 1;
            } else {
                hi = mid;
            }
        }
        proof {
            lemma_expired_count(t, at_ms);
            let c = expired_count(t, at_ms) as int;
            if c < lo {
                assert(t[c].deadline_ms <= at_ms);
            } else if lo < c {
                assert(t[lo as int].deadline_ms > at_ms);
            }
        }
        lo
    }

    /// Whether the timeline holds `slot`, given that `n` entries are not later.
    fn holds(&self, slot: Slot, n: usize) -> (b: bool)
        requires
            self@.valid(),
            n == expired_count(self@.timeline, slot.deadline_ms),
        ensures
            b == self@.timeline.contains(slot),
    {
        let ghost t = self@.timeline;
        proof {
            lemma_expired_count(t, slot.deadline_ms);
        }
        let mut k: usize = n;
        while k > 0 && self.timeline[k - 1].deadline_ms == slot.deadline_ms
            invariant
                t == self.timeline@,
                k <= n <= t.len(),
                forall|j: int| k <= j < n ==> t[j] != slot,
            decreases k,
        {
            let s: Slot = self.timeline[k - 1];
            if s.conn == slot.conn && s.kind == slot.kind {
                assert(t[k - 1] == slot);
                return true;
            }
            k = k - 1;
        }
        proof {
            assert forall|j: int| 0 <= j < t.len() implies t[j] != slot by {
                if j < k {
                    assert(t[j].deadline_ms <= t[k - 1].deadline_ms);
                } else if j >= n {
                    assert(t[j].deadline_ms > slot.deadline_ms);
                }
            }
        }
        false
    }

    fn insert_slot(&mut self, slot: Slot)
        requires
            old(self)@.valid(),
        ensures
            final(self)@.valid(),
            final(self)@ == (WheelModel { timeline: old(self)@.with_slot(slot), ..old(self)@ }),
    {
        let ghost m0 = self@;
        proof {
            lemma_expired_count(m0.timeline, slot.deadline_ms);
            lemma_with_slot(m0, slot);
        }
        let n: usize = self.expired_len(slot.deadline_ms);
        if !self.holds(slot, n) {
            self.timeline.insert(n, slot);
        }
    }

    /// Replaces the liveness timer of `conn`; an older timeline entry is left to
    /// be skipped when its time comes.
    fn schedule(&mut self, conn: ConnId, deadline_ms: u64, kind: Kind)
        requires
            old(self)@.valid(),
        ensures
            final(self)@.valid(),
            final(self)@ == old(self)@.scheduled(conn, deadline_ms, kind),
    {
        self.live.insert(conn, Timer { deadline_ms, kind });
        self.insert_slot(Slot { deadline_ms, conn, kind });
    }
}

impl Default for TimerWheel {
    fn default() -> (w: TimerWheel)
        ensures
            w@.valid(),
            w@ == WheelModel::fresh(120_000, 30_000),
    {
        TimerWheel::new()
    }
}

proof fn lemma_fired_from(w: WheelModel, slots: Seq<Slot>, d: Due) -> (i: int)
    requires
        w.fired(slots).contains(d),
    ensures
        0 <= i < slots.len(),
        w.current(slots[i]),
        d == due_of(slots[i]),
    decreases slots.len(),
{
    if slots.len() == 0 {
        0
    } else {
        let before = w.fired(slots.drop_last());
        if w.current(slots.last()) && d == due_of(slots.last()) {
            slots.len() - 1
        } else {
            let all = w.fired(slots);
            let k = choose|k: int| 0 <= k < all.len() && all[k] == d;
            if w.current(slots.last()) {
                assert(k < before.len());
            }
            assert(before[k] == d);
            lemma_fired_from(w, slots.drop_last(), d)
        }
    }
}

proof fn lemma_fired_contains(w: WheelModel, slots: Seq<Slot>, i: int)
    requires
        0 <= i < slots.len(),
        w.current(slots[i]),
    ensures
        w.fired(slots).contains(due_of(slots[i])),
    decreases slots.len(),
{
    if i == slots.len() - 1 {
        assert(w.fired(slots).last() == due_of(slots[i]));
    } else {
        lemma_fired_contains(w, slots.drop_last(), i);
        let before = w.fired(slots.drop_last());
        let k = choose|k: int| 0 <= k < before.len() && before[k] == due_of(slots[i]);
        assert(w.fired(slots)[k] == before[k]);
    }
}

/// Nothing fires before its deadline, and only what the side tables name: a
/// connection is due only while the deadline behind it is armed and has passed.
pub proof fn due_is_never_early(w: WheelModel, now_ms: u64, d: Due)
    requires
        w.valid(),
        w.fired(w.expired(now_ms)).contains(d),
    ensures
        match d {
            Due::Ping(c) => w.live.dom().contains(c) && w.live[c].kind == Kind::Idle
                && w.live[c].deadline_ms <= now_ms,
            Due::Close4201(c) => w.live.dom().contains(c) && w.live[c].kind == Kind::Pong
                && w.live[c].deadline_ms <= now_ms,
            Due::Close4202(c) => w.lifetime.dom().contains(c) && w.lifetime[c] <= now_ms,
            Due::HandshakeTimeout(c) => w.handshake.dom().contains(c) && w.handshake[c] <= now_ms,
        },
{
    lemma_expired_count(w.timeline, now_ms);
    let i = lemma_fired_from(w, w.expired(now_ms), d);
    assert(w.expired(now_ms)[i] == w.timeline[i]);
}

/// A deadline that is armed, current and past does fire.
pub proof fn due_is_complete(w: WheelModel, now_ms: u64, i: int)
    requires
        w.valid(),
        0 <= i < w.timeline.len(),
        w.timeline[i].deadline_ms <= now_ms,
        w.current(w.timeline[i]),
    ensures
        w.fired(w.expired(now_ms)).contains(due_of(w.timeline[i])),
{
    lemma_expired_count(w.timeline, now_ms);
    assert(w.expired(now_ms)[i] == w.timeline[i]);
    lemma_fired_contains(w, w.expired(now_ms), i);
}

/// What fires, fires once.
pub proof fn due_is_fired_once(w: WheelModel, now_ms: u64)
    requires
        w.valid(),
    ensures
        w.fired(w.expired(now_ms)).no_duplicates(),
{
    let e = w.expired(now_ms);
    lemma_expired_count(w.timeline, now_ms);
    assert forall|i: int, j: int| 0 <= i < e.len() && 0 <= j < e.len() && i != j implies e[i]
        != e[j] by {
        assert(e[i] == w.timeline[i] && e[j] == w.timeline[j]);
    }
    lemma_fired_once(w, e);
}

proof fn lemma_fired_once(w: WheelModel, slots: Seq<Slot>)
    requires
        slots.no_duplicates(),
    ensures
        w.fired(slots).no_duplicates(),
    decreases slots.len(),
{
    if slots.len() > 0 {
        let init = slots.drop_last();
        assert forall|i: int, j: int| 0 <= i < init.len() && 0 <= j < init.len() && i
            != j implies init[i] != init[j] by {
            assert(init[i] == slots[i] && init[j] == slots[j]);
        }
        lemma_fired_once(w, init);
        let before = w.fired(init);
        let last = slots.last();
        if w.current(last) && before.contains(due_of(last)) {
            let k = lemma_fired_from(w, init, due_of(last));
            assert(init[k] == slots[k]);
            assert(slots[k] == last);
        }
        if w.current(last) {
            let all = w.fired(slots);
            assert(all == before.push(due_of(last)));
            assert forall|i: int, j: int| 0 <= i < all.len() && 0 <= j < all.len() && i
                != j implies all[i] != all[j] by {
                if i < before.len() && j < before.len() {
                    assert(before[i] != before[j]);
                } else if i < before.len() {
                    assert(before.contains(before[i]));
                } else {
                    assert(before.contains(before[j]));
                }
            }
        }
    }
}

/// After activity a connection is neither pinged nor closed for silence before
/// the activity timeout has run from that moment, and at that time it is pinged.
pub proof fn activity_defers_the_ping(w: WheelModel, conn: ConnId, now_ms: u64, later_ms: u64)
    requires
        w.valid(),
    ensures
        ({
            let deadline = deadline_after(now_ms, w.activity_timeout_ms);
            let t = w.scheduled(conn, deadline, Kind::Idle);
            let out = t.fired(t.expired(later_ms));
            &&& later_ms < deadline ==> !out.contains(Due::Ping(conn))
            &&& !out.contains(Due::Close4201(conn))
            &&& later_ms >= deadline ==> out.contains(Due::Ping(conn))
        }),
{
    let deadline = deadline_after(now_ms, w.activity_timeout_ms);
    let slot = Slot { deadline_ms: deadline, conn, kind: Kind::Idle };
    let t = w.scheduled(conn, deadline, Kind::Idle);
    let out = t.fired(t.expired(later_ms));
    lemma_with_slot(w, slot);
    assert(t.timeline.contains(slot));
    let pos = choose|i: int| 0 <= i < t.timeline.len() && t.timeline[i] == slot;
    if out.contains(Due::Ping(conn)) {
        due_is_never_early(t, later_ms, Due::Ping(conn));
    }
    if out.contains(Due::Close4201(conn)) {
        due_is_never_early(t, later_ms, Due::Close4201(conn));
    }
    if later_ms >= deadline {
        due_is_complete(t, later_ms, pos);
    }
}

/// A removed connection never fires again.
pub proof fn removal_cancels_everything(w: WheelModel, conn: ConnId, now_ms: u64, d: Due)
    requires
        w.valid(),
        due_conn(d) == conn,
    ensures
        !w.without(conn).fired(w.without(conn).expired(now_ms)).contains(d),
{
    let r = w.without(conn);
    if r.fired(r.expired(now_ms)).contains(d) {
        due_is_never_early(r, now_ms, d);
    }
}

/// Activity and pings leave the absolute deadlines where they are.
pub proof fn activity_keeps_absolute_deadlines(
    w: WheelModel,
    conn: ConnId,
    deadline_ms: u64,
    kind: Kind,
)
    ensures
        w.scheduled(conn, deadline_ms, kind).lifetime == w.lifetime,
        w.scheduled(conn, deadline_ms, kind).handshake == w.handshake,
{
}

/// One call on a wheel.
pub enum WheelCall {
    Touch(ConnId, u64),
    PingSent(ConnId, u64),
    ArmLifetime(ConnId, u64),
    ArmHandshake(ConnId, u64),
    ClearHandshake(ConnId),
    ClearLiveness(ConnId),
    Remove(ConnId),
    Due(u64),
}

impl WheelModel {
    /// The wheel after a call.
    pub open spec fn called(self, call: WheelCall) -> WheelModel {
        match call {
            WheelCall::Touch(c, now_ms) => self.scheduled(
                c,
                deadline_after(now_ms, self.activity_timeout_ms),
                Kind::Idle,
            ),
            WheelCall::PingSent(c, now_ms) => self.scheduled(
                c,
                deadline_after(now_ms, self.pong_timeout_ms),
                Kind::Pong,
            ),
            WheelCall::ArmLifetime(c, deadline_ms) => self.lifetime_set(c, deadline_ms),
            WheelCall::ArmHandshake(c, deadline_ms) => self.handshake_set(c, deadline_ms),
            WheelCall::ClearHandshake(c) => WheelModel {
                handshake: self.handshake.remove(c),
                ..self
            },
            WheelCall::ClearLiveness(c) => WheelModel { live: self.live.remove(c), ..self },
            WheelCall::Remove(c) => self.without(c),
            WheelCall::Due(now_ms) => self.advanced(now_ms),
        }
    }

    /// The wheel after a history of calls.
    pub open spec fn after(self, calls: Seq<WheelCall>) -> WheelModel
        decreases calls.len(),
    {
        if calls.len() == 0 {
            self
        } else {
            self.after(calls.drop_last()).called(calls.last())
        }
    }

    /// What the wheel gives out at `now_ms`.
    pub open spec fn due_at(self, now_ms: u64) -> Seq<Due> {
        self.fired(self.expired(now_ms))
    }
}

/// The deadline that a call arms.
pub open spec fn armed_by(
    call: WheelCall,
    activity_timeout_ms: u64,
    pong_timeout_ms: u64,
) -> Option<Slot> {
    match call {
        WheelCall::Touch(conn, now_ms) => Some(
            Slot {
                deadline_ms: deadline_after(now_ms, activity_timeout_ms),
                conn,
                kind: Kind::Idle,
            },
        ),
        WheelCall::PingSent(conn, now_ms) => Some(
            Slot { deadline_ms: deadline_after(now_ms, pong_timeout_ms), conn, kind: Kind::Pong },
        ),
        WheelCall::ArmLifetime(conn, deadline_ms) => Some(
            Slot { deadline_ms, conn, kind: Kind::Lifetime },
        ),
        WheelCall::ArmHandshake(conn, deadline_ms) => Some(
            Slot { deadline_ms, conn, kind: Kind::Handshake },
        ),
        _ => None,
    }
}

/// A call ends a deadline that was armed before it: it replaces or cancels the
/// deadlines of that connection and sort, or it is a `due` that gives it out.
pub open spec fn ends(call: WheelCall, slot: Slot) -> bool {
    match call {
        WheelCall::Touch(c, _) | WheelCall::PingSent(c, _) | WheelCall::ClearLiveness(c) => c
            == slot.conn && (slot.kind == Kind::Idle || slot.kind == Kind::Pong),
        WheelCall::ArmLifetime(c, _) => c == slot.conn && slot.kind == Kind::Lifetime,
        WheelCall::ArmHandshake(c, _) | WheelCall::ClearHandshake(c) => c == slot.conn
            && slot.kind == Kind::Handshake,
        WheelCall::Remove(c) => c == slot.conn,
        WheelCall::Due(now_ms) => slot.deadline_ms <= now_ms,
    }
}

/// Call `k` of a history arms `slot`, and no later call ends it.
pub open spec fn pending_since(
    calls: Seq<WheelCall>,
    activity_timeout_ms: u64,
    pong_timeout_ms: u64,
    slot: Slot,
    k: int,
) -> bool {
    &&& 0 <= k < calls.len()
    &&& armed_by(calls[k], activity_timeout_ms, pong_timeout_ms) == Some(slot)
    &&& forall|j: int| k < j < calls.len() ==> !ends(#[trigger] calls[j], slot)
}

/// Some call of a history arms `slot`, and no later call ends it.
pub open spec fn pending(
    calls: Seq<WheelCall>,
    activity_timeout_ms: u64,
    pong_timeout_ms: u64,
    slot: Slot,
) -> bool {
    exists|k: int| pending_since(calls, activity_timeout_ms, pong_timeout_ms, slot, k)
}

/// One call later, what is pending is what the call armed, and what was pending
/// and the call did not end.
proof fn lemma_pending_step(calls: Seq<WheelCall>, a: u64, p: u64, slot: Slot)
    requires
        calls.len() > 0,
    ensures
        pending(calls, a, p, slot) <==> armed_by(calls.last(), a, p) == Some(slot) || (pending(
            calls.drop_last(),
            a,
            p,
            slot,
        ) && !ends(calls.last(), slot)),
{
    let before = calls.drop_last();
    let last = calls.len() - 1;
    if pending(calls, a, p, slot) {
        let k = choose|k: int| pending_since(calls, a, p, slot, k);
        if k < last {
            assert forall|j: int| k < j < before.len() implies !ends(
                #[trigger] before[j],
                slot,
            ) by {
                assert(before[j] == calls[j]);
            }
            assert(pending_since(before, a, p, slot, k));
            assert(!ends(calls[last], slot));
        }
    }
    if armed_by(calls.last(), a, p) == Some(slot) {
        assert(pending_since(calls, a, p, slot, last));
    } else if pending(before, a, p, slot) && !ends(calls.last(), slot) {
        let k = choose|k: int| pending_since(before, a, p, slot, k);
        assert forall|j: int| k < j < calls.len() implies !ends(#[trigger] calls[j], slot) by {
            if j < last {
                assert(before[j] == calls[j]);
            }
        }
        assert(pending_since(calls, a, p, slot, k));
    }
}

/// One call keeps a wheel valid, and decides which entries are in the timeline and
/// current after it.
proof fn lemma_called(w: WheelModel, call: WheelCall, slot: Slot)
    requires
        w.valid(),
    ensures
        w.called(call).valid(),
        w.called(call).activity_timeout_ms == w.activity_timeout_ms,
        w.called(call).pong_timeout_ms == w.pong_timeout_ms,
        w.called(call).timeline.contains(slot) && w.called(call).current(slot) <==> armed_by(
            call,
            w.activity_timeout_ms,
            w.pong_timeout_ms,
        ) == Some(slot) || (w.timeline.contains(slot) && w.current(slot) && !ends(call, slot)),
{
    match armed_by(call, w.activity_timeout_ms, w.pong_timeout_ms) {
        Some(s) => {
            lemma_with_slot(w, s);
        },
        None => {
            if let WheelCall::Due(now_ms) = call {
                lemma_advanced(w, now_ms);
            }
        },
    }
}

proof fn lemma_after(w: WheelModel, calls: Seq<WheelCall>)
    requires
        w.valid(),
        w.timeline.len() == 0,
    ensures
        w.after(calls).valid(),
        w.after(calls).activity_timeout_ms == w.activity_timeout_ms,
        w.after(calls).pong_timeout_ms == w.pong_timeout_ms,
        forall|slot: Slot| #[trigger]
            w.after(calls).timeline.contains(slot) && w.after(calls).current(slot) <==> pending(
                calls,
                w.activity_timeout_ms,
                w.pong_timeout_ms,
                slot,
            ),
    decreases calls.len(),
{
    let a = w.activity_timeout_ms;
    let p = w.pong_timeout_ms;
    if calls.len() == 0 {
        assert forall|slot: Slot| !pending(calls, a, p, slot) by {}
    } else {
        let before = w.after(calls.drop_last());
        lemma_after(w, calls.drop_last());
        lemma_called(before, calls.last(), arbitrary());
        assert forall|slot: Slot| #[trigger]
            w.after(calls).timeline.contains(slot) && w.after(calls).current(slot) <==> pending(
            calls,
            a,
            p,
            slot,
        ) by {
            lemma_called(before, calls.last(), slot);
            lemma_pending_step(calls, a, p, slot);
        }
    }
}

/// After any history of calls on a fresh wheel, `due` gives out exactly what is
/// pending and has come due, each once: a ping where the last liveness call for
/// the connection was activity and the activity timeout has run, the 4201 close
/// where it was a ping and the pong timeout has run, the absolute deadlines where
/// they were armed last and have passed, and none of them where the connection was
/// removed since or an earlier `due` gave it out.
pub proof fn due_is_what_is_pending(
    activity_timeout_ms: u64,
    pong_timeout_ms: u64,
    calls: Seq<WheelCall>,
    now_ms: u64,
)
    ensures
        ({
            let out = WheelModel::fresh(activity_timeout_ms, pong_timeout_ms).after(calls).due_at(
                now_ms,
            );
            &&& out.no_duplicates()
            &&& forall|d: Due| #[trigger]
                out.contains(d) <==> exists|slot: Slot| #[trigger]
                    pending(calls, activity_timeout_ms, pong_timeout_ms, slot) && slot.deadline_ms
                        <= now_ms && due_of(slot) == d
        }),
{
    let w0 = WheelModel::fresh(activity_timeout_ms, pong_timeout_ms);
    let w = w0.after(calls);
    let out = w.due_at(now_ms);
    lemma_after(w0, calls);
    lemma_expired_count(w.timeline, now_ms);
    due_is_fired_once(w, now_ms);
    assert forall|d: Due| #[trigger]
        out.contains(d) <==> exists|slot: Slot| #[trigger]
            pending(calls, activity_timeout_ms, pong_timeout_ms, slot) && slot.deadline_ms
                <= now_ms && due_of(slot) == d by {
        if out.contains(d) {
            let i = lemma_fired_from(w, w.expired(now_ms), d);
            let slot = w.expired(now_ms)[i];
            assert(slot == w.timeline[i]);
            assert(w.timeline.contains(slot));
            assert(pending(calls, activity_timeout_ms, pong_timeout_ms, slot));
        }
        if exists|slot: Slot| #[trigger]
            pending(calls, activity_timeout_ms, pong_timeout_ms, slot) && slot.deadline_ms
                <= now_ms && due_of(slot) == d {
            let slot = choose|slot: Slot| #[trigger]
                pending(calls, activity_timeout_ms, pong_timeout_ms, slot) && slot.deadline_ms
                    <= now_ms && due_of(slot) == d;
            assert(w.timeline.contains(slot));
            let i = choose|i: int| 0 <= i < w.timeline.len() && w.timeline[i] == slot;
            due_is_complete(w, now_ms, i);
        }
    }
}

/// The lifetime deadline of a connection, armed by call `k` of a history and
/// neither armed again nor removed since: `due` gives the 4202 close out exactly
/// where the deadline has come and no `due` since `k` was at or past it, whatever
/// other calls came between. So it is never early, comes with the first `due` that
/// reaches the deadline, and never comes again.
pub proof fn lifetime_fires_exactly_once(
    activity_timeout_ms: u64,
    pong_timeout_ms: u64,
    calls: Seq<WheelCall>,
    k: int,
    conn: ConnId,
    deadline_ms: u64,
    now_ms: u64,
)
    requires
        0 <= k < calls.len(),
        calls[k] == WheelCall::ArmLifetime(conn, deadline_ms),
        forall|j: int|
            k < j < calls.len() ==> (#[trigger] calls[j]) != WheelCall::Remove(conn) && !(
            calls[j] matches WheelCall::ArmLifetime(c, _) && c == conn),
    ensures
        ({
            let out = WheelModel::fresh(activity_timeout_ms, pong_timeout_ms).after(calls).due_at(
                now_ms,
            );
            &&& out.no_duplicates()
            &&& out.contains(Due::Close4202(conn)) <==> deadline_ms <= now_ms && forall|j: int|
                k < j < calls.len() ==> !((#[trigger] calls[j]) matches WheelCall::Due(n)
                    && deadline_ms <= n)
        }),
{
    let a = activity_timeout_ms;
    let p = pong_timeout_ms;
    let out = WheelModel::fresh(a, p).after(calls).due_at(now_ms);
    let d = Due::Close4202(conn);
    let own = Slot { deadline_ms, conn, kind: Kind::Lifetime };
    due_is_what_is_pending(a, p, calls, now_ms);
    if out.contains(d) {
        let slot = choose|slot: Slot| #[trigger]
            pending(calls, a, p, slot) && slot.deadline_ms <= now_ms && due_of(slot) == d;
        let i = choose|i: int| pending_since(calls, a, p, slot, i);
        assert(slot.conn == conn && slot.kind == Kind::Lifetime);
        assert(calls[i] == WheelCall::ArmLifetime(conn, slot.deadline_ms));
        if i < k {
            assert(!ends(calls[k], slot));
        }
        assert(i == k);
        assert forall|j: int| k < j < calls.len() implies !((
        #[trigger] calls[j]) matches WheelCall::Due(n) && deadline_ms <= n) by {
            assert(!ends(calls[j], slot));
        }
    }
    if deadline_ms <= now_ms && forall|j: int|
        k < j < calls.len() ==> !((#[trigger] calls[j]) matches WheelCall::Due(n) && deadline_ms
            <= n) {
        assert forall|j: int| k < j < calls.len() implies !ends(#[trigger] calls[j], own) by {}
        assert(pending_since(calls, a, p, own, k));
        assert(pending(calls, a, p, own));
        assert(out.contains(d));
    }
}

/// Arming a lifetime changes nothing else: left out of a history, every other thing
/// that `due` gives out is as it was.
pub proof fn lifetime_leaves_the_rest_alone(
    activity_timeout_ms: u64,
    pong_timeout_ms: u64,
    calls: Seq<WheelCall>,
    k: int,
    conn: ConnId,
    deadline_ms: u64,
    now_ms: u64,
    d: Due,
)
    requires
        0 <= k < calls.len(),
        calls[k] == WheelCall::ArmLifetime(conn, deadline_ms),
        d != Due::Close4202(conn),
    ensures
        ({
            let w = WheelModel::fresh(activity_timeout_ms, pong_timeout_ms);
            w.after(calls).due_at(now_ms).contains(d) <==> w.after(calls.remove(k)).due_at(
                now_ms,
            ).contains(d)
        }),
{
    let a = activity_timeout_ms;
    let p = pong_timeout_ms;
    let w = WheelModel::fresh(a, p);
    let rest = calls.remove(k);
    let out = w.after(calls).due_at(now_ms);
    let other = w.after(rest).due_at(now_ms);
    due_is_what_is_pending(a, p, calls, now_ms);
    due_is_what_is_pending(a, p, rest, now_ms);
    assert forall|slot: Slot| due_of(slot) == d implies (#[trigger] pending(calls, a, p, slot)
        <==> pending(rest, a, p, slot)) by {
        if pending(calls, a, p, slot) {
            let i = choose|i: int| pending_since(calls, a, p, slot, i);
            let at = if i < k {
                i
            } else {
                i - 1
            };
            assert(i != k);
            assert forall|j: int| at < j < rest.len() implies !ends(#[trigger] rest[j], slot) by {
                assert(rest[j] == calls[if j < k { j } else { j + 1 }]);
            }
            assert(pending_since(rest, a, p, slot, at));
        }
        if pending(rest, a, p, slot) {
            let i = choose|i: int| pending_since(rest, a, p, slot, i);
            let at = if i < k {
                i
            } else {
                i + 1
            };
            assert(calls[at] == rest[i]);
            assert forall|j: int| at < j < calls.len() implies !ends(#[trigger] calls[j], slot) by {
                if j != k {
                    assert(calls[j] == rest[if j < k { j } else { j - 1 }]);
                }
            }
            assert(pending_since(calls, a, p, slot, at));
        }
    }
    if out.contains(d) {
        let slot = choose|slot: Slot| #[trigger]
            pending(calls, a, p, slot) && slot.deadline_ms <= now_ms && due_of(slot) == d;
        assert(pending(rest, a, p, slot));
    }
    if other.contains(d) {
        let slot = choose|slot: Slot| #[trigger]
            pending(rest, a, p, slot) && slot.deadline_ms <= now_ms && due_of(slot) == d;
        assert(pending(calls, a, p, slot));
    }
}

/// A deadline is a timeout from now, and never before now; it stays at the end of
/// time where it would run past it.
pub proof fn deadlines_run_from_now(now_ms: u64, timeout_ms: u64)
    ensures
        now_ms + timeout_ms <= u64::MAX ==> deadline_after(now_ms, timeout_ms) - now_ms
            == timeout_ms,
        now_ms + timeout_ms > u64::MAX ==> deadline_after(now_ms, timeout_ms) == u64::MAX,
        deadline_after(now_ms, timeout_ms) >= now_ms,
{
}

/// What is due comes out in the order of the deadlines: it is what the timeline holds
/// up to now, without what is no longer current.
pub proof fn due_comes_in_order(w: WheelModel, now_ms: u64)
    requires
        w.valid(),
    ensures
        w.expired(now_ms) == w.timeline.filter(|s: Slot| s.deadline_ms <= now_ms),
        w.advanced(now_ms).timeline == w.timeline.filter(|s: Slot| s.deadline_ms > now_ms),
        w.due_at(now_ms) == w.expired(now_ms).filter(|s: Slot| w.current(s)).map_values(
            |s: Slot| due_of(s),
        ),
{
    lemma_expired_count(w.timeline, now_ms);
    let n = expired_count(w.timeline, now_ms) as int;
    let past = |s: Slot| s.deadline_ms <= now_ms;
    let future = |s: Slot| s.deadline_ms > now_ms;
    let a = w.timeline.take(n);
    let b = w.timeline.skip(n);
    assert(w.timeline =~= a + b);
    assert forall|i: int| 0 <= i < a.len() implies #[trigger] past(a[i]) by {
        assert(a[i] == w.timeline[i]);
    }
    assert forall|i: int| 0 <= i < b.len() implies #[trigger] future(b[i]) by {
        assert(b[i] == w.timeline[n + i]);
    }
    lemma_filter_all(a, past);
    lemma_filter_none(b, past);
    lemma_filter_all(b, future);
    lemma_filter_none(a, future);
    Seq::filter_distributes_over_add(a, b, past);
    Seq::filter_distributes_over_add(a, b, future);
    assert(a + Seq::<Slot>::empty() =~= a);
    assert(Seq::<Slot>::empty() + b =~= b);
    lemma_fired_is_filter(w, w.expired(now_ms));
}

proof fn lemma_filter_all(s: Seq<Slot>, keep: spec_fn(Slot) -> bool)
    requires
        forall|i: int| 0 <= i < s.len() ==> #[trigger] keep(s[i]),
    ensures
        s.filter(keep) == s,
    decreases s.len(),
{
    reveal(Seq::filter);
    if s.len() > 0 {
        let init = s.drop_last();
        assert forall|i: int| 0 <= i < init.len() implies #[trigger] keep(init[i]) by {
            assert(init[i] == s[i]);
        }
        lemma_filter_all(init, keep);
        assert(keep(s[s.len() - 1]));
        assert(init.push(s.last()) =~= s);
    } else {
        assert(s.filter(keep) =~= s);
    }
}

proof fn lemma_filter_none(s: Seq<Slot>, keep: spec_fn(Slot) -> bool)
    requires
        forall|i: int| 0 <= i < s.len() ==> !#[trigger] keep(s[i]),
    ensures
        s.filter(keep) == Seq::<Slot>::empty(),
    decreases s.len(),
{
    reveal(Seq::filter);
    if s.len() > 0 {
        let init = s.drop_last();
        assert forall|i: int| 0 <= i < init.len() implies !#[trigger] keep(init[i]) by {
            assert(init[i] == s[i]);
        }
        lemma_filter_none(init, keep);
        assert(!keep(s[s.len() - 1]));
    } else {
        assert(s.filter(keep) =~= Seq::<Slot>::empty());
    }
}

proof fn lemma_fired_is_filter(w: WheelModel, slots: Seq<Slot>)
    ensures
        w.fired(slots) == slots.filter(|s: Slot| w.current(s)).map_values(|s: Slot| due_of(s)),
    decreases slots.len(),
{
    reveal(Seq::filter);
    let keep = |s: Slot| w.current(s);
    let write = |s: Slot| due_of(s);
    if slots.len() > 0 {
        lemma_fired_is_filter(w, slots.drop_last());
        assert(w.fired(slots) =~= slots.filter(keep).map_values(write));
    } else {
        assert(w.fired(slots) =~= slots.filter(keep).map_values(write));
    }
}

} // verus!
