//! What the loop does when a deadline passes, and how a worker ends.
use crate::json::{self, Json, JsonModel};
use crate::ordered::held;
use crate::text;
use crate::transport::fanout;
use crate::transport::timer::{Due, WheelModel};
use crate::transport::worker::entry::{self, EntryModel, Session};
use crate::transport::worker::establish::{Admission, Counts};
use crate::transport::worker::events;
use crate::transport::worker::index::{self, SubIndex, SubKey};
use crate::transport::worker::mail;
use crate::transport::worker::state::{self, Worker};
use crate::transport::worker::table::{self, sum_of, TableModel};
use vstd::prelude::*;

verus! {

/// The error message for a connection that has agreed on no protocol version.
pub open spec fn raw_error(code: u16, message: Seq<char>) -> JsonModel {
    JsonModel::Object(
        seq![
            (
                "data"@,
                JsonModel::Object(
                    seq![
                        ("code"@, JsonModel::Number(text::decimal(code as nat))),
                        ("message"@, JsonModel::Text(message)),
                    ],
                ),
            ),
            ("event"@, JsonModel::Text("pusher:error"@)),
        ],
    )
}

/// The text of an error message: as encoded for the connection's protocol
/// version, or as plain JSON where it has none yet.
pub fn error_text(encoded: Option<String>, code: u16, message: &str) -> (r: String)
    ensures
        r@ == match encoded {
            Some(t) => t@,
            None => raw_error(code, message@).text(),
        },
{
    if let Some(t) = encoded {
        return t;
    }
    let mut data: Vec<(String, Json)> = Vec::new();
    assert(json::field_models(data@) =~= Seq::<(Seq<char>, JsonModel)>::empty());
    json::push_field(&mut data, "code", Json::Number(text::decimal_text(code as u64)));
    json::push_text(&mut data, "message", message);
    let mut fields: Vec<(String, Json)> = Vec::new();
    assert(json::field_models(fields@) =~= Seq::<(Seq<char>, JsonModel)>::empty());
    json::push_field(&mut fields, "data", Json::Object(data));
    json::push_text(&mut fields, "event", "pusher:error");
    let v: Json = Json::Object(fields);
    proof {
        let want = raw_error(code, message@)->Object_0;
        assert(json::field_models(data@) =~= want[0].1->Object_0);
        assert(v@->Object_0 =~= want);
    }
    v.to_text()
}

/// What follows from a deadline that passed.
#[derive(Debug, Clone, Copy, PartialEq, Eq, Structural)]
pub enum DueStep {
    /// Nothing was there to do.
    Nothing,
    /// A deadline that no longer mattered was cleared.
    Cleared,
    /// A ping is queued: flush it, and close the connection if that fails.
    FlushPing(usize),
    /// A close frame is queued: flush it and remove the connection.
    FlushThenRemove(usize),
    /// Remove the connection.
    Remove(usize),
}

/// The connection can hold what a deadline may make the worker queue.
pub open spec fn due_room(t: TableModel, due: Due, ping: Seq<char>, lifetime: Seq<char>) -> bool {
    match due {
        Due::Ping(key) => t.conns.dom().contains(key) ==> t.conns[key].conn.room(
            fanout::text_frame(ping).len(),
            1,
        ),
        Due::Close4201(key) => t.conns.dom().contains(key) ==> t.conns[key].conn.room(
            entry::close_frame(
                4201,
                "Pong reply not received: ping was sent to the client, but no reply was received"@,
            ).len(),
            1,
        ),
        Due::Close4202(key) => t.conns.dom().contains(key) ==> t.conns[key].conn.room(
            mail::text_and_close_len(lifetime, 4202, "Closed after inactivity"@),
            2,
        ),
        Due::HandshakeTimeout(key) => true,
    }
}

impl DueStep {
    /// Whether the loop has done something worth polling again for at once.
    pub fn is_work(self) -> (b: bool)
        ensures
            b == !(self is Nothing),
    {
        match self {
            DueStep::Nothing => false,
            _ => true,
        }
    }
}

impl Worker {
    /// Acts on a deadline that passed. `ping` is the ping message and `lifetime`
    /// the error message of a connection that has lived too long, both as
    /// encoded for the connection.
    pub fn on_due(&mut self, due: Due, ping: &str, lifetime: &str, now_ns: u64) -> (step: DueStep)
        requires
            old(self).wf(),
            due_room(old(self).table@, due, ping@, lifetime@),
        ensures
            final(self).wf(),
            final(self).index == old(self).index,
            final(self).next_gen == old(self).next_gen,
            match due {
                Due::Ping(key) => {
                    let t0 = old(self).table@;
                    let t1 = final(self).table@;
                    if t0.conns.dom().contains(key) && t0.conns[key].open() {
                        &&& step == DueStep::FlushPing(key)
                        &&& final(self).wheel == old(self).wheel
                        &&& state::only_conn_changed(t0, key, t1)
                        &&& t0.conns[key].conn.sent(
                            fanout::text_frame(ping@),
                            now_ns,
                            t1.conns[key].conn,
                        )
                    } else {
                        &&& step == DueStep::Nothing
                        &&& t1 == t0
                        &&& final(self).wheel@ == (WheelModel {
                            live: old(self).wheel@.live.remove(key),
                            ..old(self).wheel@
                        })
                    }
                },
                Due::Close4201(key) => {
                    let t0 = old(self).table@;
                    let t1 = final(self).table@;
                    &&& step == DueStep::FlushThenRemove(key)
                    &&& final(self).wheel == old(self).wheel
                    &&& if t0.conns.dom().contains(key) {
                        &&& state::only_conn_changed(t0, key, t1)
                        &&& t0.conns[key].conn.sent(
                            entry::close_frame(
                                4201,
                                "Pong reply not received: ping was sent to the client, but no reply was received"@,
                            ),
                            now_ns,
                            t1.conns[key].conn,
                        )
                    } else {
                        t1 == t0
                    }
                },
                Due::Close4202(key) => {
                    let t0 = old(self).table@;
                    let t1 = final(self).table@;
                    &&& step == DueStep::FlushThenRemove(key)
                    &&& final(self).wheel == old(self).wheel
                    &&& if t0.conns.dom().contains(key) {
                        &&& state::only_conn_changed(t0, key, t1)
                        &&& mail::text_and_close(
                            t0.conns[key].conn,
                            lifetime@,
                            4202,
                            "Closed after inactivity"@,
                            now_ns,
                            t1.conns[key].conn,
                        )
                    } else {
                        t1 == t0
                    }
                },
                Due::HandshakeTimeout(key) => {
                    let t0 = old(self).table@;
                    &&& final(self).table == old(self).table
                    &&& if t0.conns.dom().contains(key) && t0.conns[key].session is None {
                        &&& step == DueStep::Remove(key)
                        &&& final(self).wheel@ == old(self).wheel@
                    } else {
                        &&& step == DueStep::Cleared
                        &&& final(self).wheel@ == state::handshake_cleared(old(self).wheel@, key)
                    }
                },
            },
    {
        match due {
            Due::Ping(key) => {
                if self.queue_ping(key, ping, now_ns) {
                    DueStep::FlushPing(key)
                } else {
                    self.wheel.clear_liveness(key);
                    DueStep::Nothing
                }
            },
            Due::Close4201(key) => {
                let (code, reason) = events::pong_timeout_close();
                self.send_close_reply(key, code, reason, now_ns);
                DueStep::FlushThenRemove(key)
            },
            Due::Close4202(key) => {
                let (code, reason) = events::lifetime_close();
                self.queue_error_close(key, lifetime, code, reason, now_ns);
                DueStep::FlushThenRemove(key)
            },
            Due::HandshakeTimeout(key) => {
                if self.on_handshake_timeout(key) {
                    DueStep::Remove(key)
                } else {
                    DueStep::Cleared
                }
            },
        }
    }
}

/// One for each connection with a session of the app.
pub open spec fn app_marks(m: Map<usize, EntryModel>, app: Seq<char>) -> Map<usize, nat> {
    m.map_values(
        |e: EntryModel|
            match e.session {
                Some(s) => if s.app_id@ == app {
                    1nat
                } else {
                    0nat
                },
                None => 0nat,
            },
    )
}

/// One for each connection with a session.
pub open spec fn node_marks(m: Map<usize, EntryModel>) -> Map<usize, nat> {
    m.map_values(
        |e: EntryModel|
            match e.session {
                Some(s) => 1nat,
                None => 0nat,
            },
    )
}

/// Sessions of the app among the connections.
pub open spec fn app_sessions(m: Map<usize, EntryModel>, app: Seq<char>) -> nat {
    sum_of(app_marks(m, app))
}

/// Sessions among the connections.
pub open spec fn node_sessions(m: Map<usize, EntryModel>) -> nat {
    sum_of(node_marks(m))
}

/// Every session of the worker was counted when it was admitted.
pub open spec fn counted(c: Counts, m: Map<usize, EntryModel>) -> bool {
    &&& c.node >= node_sessions(m)
    &&& forall|app: Seq<char>| #[trigger] c.of(app) >= app_sessions(m, app)
}

/// The counts without the sessions of the worker.
pub open spec fn counts_without(before: Counts, m: Map<usize, EntryModel>, after: Counts) -> bool {
    &&& after.node == before.node - node_sessions(m)
    &&& forall|app: Seq<char>| #[trigger] after.of(app) == before.of(app) - app_sessions(m, app)
}

proof fn lemma_marks_remove(m: Map<usize, EntryModel>, k: usize, app: Seq<char>)
    requires
        m.dom().finite(),
        m.dom().contains(k),
    ensures
        app_sessions(m, app) == app_sessions(m.remove(k), app) + app_marks(m, app)[k],
        node_sessions(m) == node_sessions(m.remove(k)) + node_marks(m)[k],
{
    let a = app_marks(m, app);
    let n = node_marks(m);
    assert(a.dom() =~= m.dom());
    assert(n.dom() =~= m.dom());
    table::lemma_sum_remove(a, k);
    table::lemma_sum_remove(n, k);
    assert(a.remove(k) =~= app_marks(m.remove(k), app));
    assert(n.remove(k) =~= node_marks(m.remove(k)));
}

/// `keys` lists exactly the connections, in ascending order.
pub open spec fn lists(m: Map<usize, EntryModel>, keys: Seq<usize>) -> bool {
    &&& forall|k: usize| #[trigger] keys.contains(k) <==> m.dom().contains(k)
    &&& forall|a: int, b: int| 0 <= a < b < keys.len() ==> keys[a] < keys[b]
}

/// The sessions of the listed connections, in that order.
pub open spec fn sessions_at(m: Map<usize, EntryModel>, keys: Seq<usize>) -> Seq<Session>
    decreases keys.len(),
{
    if keys.len() == 0 {
        Seq::empty()
    } else {
        let rest = sessions_at(m, keys.drop_last());
        match m[keys.last()].session {
            Some(s) => rest.push(s),
            None => rest,
        }
    }
}

/// The wheel without any deadline of the listed connections.
pub open spec fn without_all(w: WheelModel, keys: Seq<usize>) -> WheelModel
    decreases keys.len(),
{
    if keys.len() == 0 {
        w
    } else {
        without_all(w, keys.drop_last()).without(keys.last())
    }
}

/// What closing the sessions one after the other leaves under a key.
pub open spec fn all_deindexed(
    closed: Seq<Session>,
    before: Option<(usize, u8)>,
    k: SubKey,
) -> Option<(usize, u8)>
    decreases closed.len(),
{
    if closed.len() == 0 {
        before
    } else {
        index::deindexed(closed.last(), all_deindexed(closed.drop_last(), before, k), k)
    }
}

/// The index after the sessions were closed one after the other.
pub open spec fn index_after(before: SubIndex, closed: Seq<Session>, after: SubIndex) -> bool {
    forall|k: SubKey| #[trigger] after.get(k) == all_deindexed(closed, before.get(k), k)
}

/// Removing the listed connections closes these sessions and leaves this wheel.
pub open spec fn removed_in_order(
    m: Map<usize, EntryModel>,
    w: WheelModel,
    keys: Seq<usize>,
    closed: Seq<Session>,
    after: WheelModel,
) -> bool {
    &&& lists(m, keys)
    &&& closed == sessions_at(m, keys)
    &&& after == without_all(w, keys)
}

impl Worker {
    /// Removes every connection, as a worker does when it stops, and returns the
    /// sessions for their closing hooks.
    pub fn remove_all(&mut self, admission: &mut Admission) -> (closed: Vec<Session>)
        requires
            old(self).wf(),
            counted(old(admission)@, old(self).table@.conns),
        ensures
            final(self).wf(),
            final(self).table@.conns == Map::<usize, EntryModel>::empty(),
            final(self).table@.inflight == 0,
            final(self).table@.outbound == 0,
            final(self).table@.codel_total == old(self).table@.codel_total,
            final(self).table@.drophead_total == old(self).table@.drophead_total,
            counts_without(old(admission)@, old(self).table@.conns, final(admission)@),
            closed@.len() == node_sessions(old(self).table@.conns),
            exists|keys: Seq<usize>| #[trigger]
                removed_in_order(
                    old(self).table@.conns,
                    old(self).wheel@,
                    keys,
                    closed@,
                    final(self).wheel@,
                ),
            index_after(old(self).index, closed@, final(self).index),
            final(self).next_gen == old(self).next_gen,
    {
        let keys: Vec<usize> = self.table.keys();
        let ghost all = self.table@.conns;
        let ghost start = admission@;
        let mut closed: Vec<Session> = Vec::new();
        let mut i: usize = 0;
        while i < keys.len()
            invariant
                self.wf(),
                i <= keys@.len(),
                forall|k: usize| #[trigger] keys@.contains(k) <==> all.dom().contains(k),
                forall|a: int, b: int| 0 <= a < b < keys@.len() ==> keys@[a] < keys@[b],
                forall|k: usize| #[trigger]
                    self.table@.conns.dom().contains(k) <==> all.dom().contains(k)
                        && !keys@.take(i as int).contains(k),
                counted(admission@, self.table@.conns),
                counts_left(start, all, admission@, self.table@.conns),
                closed@.len() + node_sessions(self.table@.conns) == node_sessions(all),
                self.table@.codel_total == old(self).table@.codel_total,
                self.table@.drophead_total == old(self).table@.drophead_total,
                forall|k: usize| #[trigger]
                    self.table@.conns.dom().contains(k) ==> self.table@.conns[k] == all[k],
                closed@ == sessions_at(all, keys@.take(i as int)),
                self.wheel@ == without_all(old(self).wheel@, keys@.take(i as int)),
                index_after(old(self).index, closed@, self.index),
                self.next_gen == old(self).next_gen,
            decreases keys@.len() - i,
        {
            let ghost m = self.table@.conns;
            let ghost done = closed@;
            let ghost index0 = self.index;
            let ghost c = admission@;
            let key: usize = keys[i];
            proof {
                assert(keys@.contains(key)) by {
                    assert(keys@[i as int] == key);
                }
                assert(!keys@.take(i as int).contains(key)) by {
                    if keys@.take(i as int).contains(key) {
                        let j = choose|j: int|
                            0 <= j < i && keys@.take(i as int)[j] == key;
                        assert(keys@[j] < keys@[i as int]);
                    }
                }
                assert(m.dom().contains(key));
                if let Some(s) = m[key].session {
                    lemma_marks_remove(m, key, s.app_id@);
                    assert(c.of(s.app_id@) >= app_sessions(m, s.app_id@));
                }
            }
            match self.remove(key, admission) {
                Some(s) => closed.push(s),
                None => {},
            }
            proof {
                assert(self.table@.conns == m.remove(key));
                lemma_step(start, all, c, m, admission@, key);
                assert(keys@.take(i + 1) =~= keys@.take(i as int).push(key));
                assert(keys@.take(i + 1).drop_last() =~= keys@.take(i as int));
                assert forall|k: SubKey| #[trigger]
                    self.index.get(k) == all_deindexed(closed@, old(self).index.get(k), k) by {
                    assert(index0.get(k) == all_deindexed(done, old(self).index.get(k), k));
                    if m[key].session is Some {
                        assert(closed@.drop_last() =~= done);
                    }
                }
                assert forall|k: usize| #[trigger]
                    self.table@.conns.dom().contains(k) <==> all.dom().contains(k)
                        && !keys@.take(i + 1).contains(k) by {
                    let before = keys@.take(i as int);
                    let now = keys@.take(i + 1);
                    assert(now[i as int] == key);
                    if before.contains(k) {
                        let j = choose|j: int| 0 <= j < before.len() && before[j] == k;
                        assert(now[j] == k);
                    }
                    if now.contains(k) && k != key {
                        let j = choose|j: int| 0 <= j < now.len() && now[j] == k;
                        assert(before[j] == k);
                    }
                    assert(m.dom().contains(k) <==> all.dom().contains(k) && !before.contains(k));
                }
            }
            i = i + 1;
        }
        proof {
            assert(keys@.take(i as int) =~= keys@);
            assert(removed_in_order(all, old(self).wheel@, keys@, closed@, self.wheel@));
            let left = self.table@.conns;
            assert(left =~= Map::<usize, EntryModel>::empty()) by {
                assert forall|k: usize| !left.dom().contains(k) by {
                    if left.dom().contains(k) {
                        assert(all.dom().contains(k));
                        assert(keys@.contains(k));
                    }
                }
            }
            table::empty_table_holds_nothing(self.table@);
            assert(node_marks(left).dom() =~= left.dom());
            assert forall|app: Seq<char>| #[trigger]
                admission@.of(app) == start.of(app) - app_sessions(all, app) by {
                assert(app_marks(left, app).dom() =~= left.dom());
                assert(admission@.of(app) + app_sessions(all, app) == start.of(app) + app_sessions(
                    left,
                    app,
                ));
            }
        }
        closed
    }
}

/// The counts have gone down by as many sessions as have left the connections.
spec fn counts_left(
    start: Counts,
    all: Map<usize, EntryModel>,
    now: Counts,
    left: Map<usize, EntryModel>,
) -> bool {
    &&& now.node + node_sessions(all) == start.node + node_sessions(left)
    &&& forall|app: Seq<char>| #[trigger]
        now.of(app) + app_sessions(all, app) == start.of(app) + app_sessions(left, app)
}

proof fn lemma_step(
    start: Counts,
    all: Map<usize, EntryModel>,
    c0: Counts,
    m: Map<usize, EntryModel>,
    c1: Counts,
    key: usize,
)
    requires
        m.dom().finite(),
        m.dom().contains(key),
        counted(c0, m),
        counts_left(start, all, c0, m),
        match m[key].session {
            Some(s) => c0.one_more(c1, s.app_id@),
            None => c1 == c0,
        },
    ensures
        counted(c1, m.remove(key)),
        counts_left(start, all, c1, m.remove(key)),
        node_sessions(m) == node_sessions(m.remove(key)) + if m[key].session is Some {
            1nat
        } else {
            0nat
        },
{
    let left = m.remove(key);
    lemma_marks_remove(m, key, Seq::empty());
    assert forall|app: Seq<char>|
        #![trigger c1.of(app)]
        c1.of(app) >= app_sessions(left, app) && c1.of(app) + app_sessions(all, app) == start.of(app)
            + app_sessions(left, app) by {
        lemma_marks_remove(m, key, app);
        assert(c0.of(app) >= app_sessions(m, app));
        assert(c0.of(app) + app_sessions(all, app) == start.of(app) + app_sessions(m, app));
    }
}

/// A worker that stops leaves no count behind: where all the sessions of an app
/// were its own, the app's count returns to zero.
pub proof fn stopping_returns_the_counts(
    before: Counts,
    m: Map<usize, EntryModel>,
    after: Counts,
    app: Seq<char>,
)
    requires
        counts_without(before, m, after),
        before.of(app) == app_sessions(m, app),
    ensures
        after.of(app) == 0,
{
    assert(after.of(app) == before.of(app) - app_sessions(m, app));
}

/// The plain error message is a `pusher:error` event that carries the code as a number
/// and the message as a text, and nothing else.
pub proof fn plain_errors_say_what_they_are(code: u16, message: Seq<char>)
    ensures
        ({
            let fields = raw_error(code, message)->Object_0;
            &&& raw_error(code, message) is Object
            &&& fields.len() == 2
            &&& held(fields, "event"@) == Some(JsonModel::Text("pusher:error"@))
            &&& held(fields, "data"@) matches Some(JsonModel::Object(data)) && data.len() == 2
                && held(data, "code"@) == Some(JsonModel::Number(text::decimal(code as nat)))
                && held(data, "message"@) == Some(JsonModel::Text(message))
        }),
{
    reveal_strlit("event");
    reveal_strlit("data");
    reveal_strlit("code");
    reveal_strlit("message");
    assert("event"@.len() == 5 && "data"@.len() == 4);
    assert("code"@.len() == 4 && "message"@.len() == 7);
    reveal_with_fuel(held, 3);
}

/// Some connection has the session.
pub open spec fn has_session(m: Map<usize, EntryModel>, s: Session) -> bool {
    exists|k: usize| m.dom().contains(k) && (#[trigger] m[k]).session == Some(s)
}

/// A worker that stops leaves nothing behind: no deadline of a connection it had, and
/// every session it had is handed back, each from its own connection.
pub proof fn stopping_leaves_no_deadline(
    m: Map<usize, EntryModel>,
    w: WheelModel,
    keys: Seq<usize>,
    closed: Seq<Session>,
    after: WheelModel,
    k: usize,
)
    requires
        removed_in_order(m, w, keys, closed, after),
    ensures
        m.dom().contains(k) ==> !after.live.dom().contains(k) && !after.lifetime.dom().contains(k)
            && !after.handshake.dom().contains(k),
        !m.dom().contains(k) ==> (after.live.dom().contains(k) <==> w.live.dom().contains(k)) && (
        after.lifetime.dom().contains(k) <==> w.lifetime.dom().contains(k)) && (
        after.handshake.dom().contains(k) <==> w.handshake.dom().contains(k)),
        m.dom().contains(k) ==> (m[k].session matches Some(s) ==> closed.contains(s)),
        forall|i: int| 0 <= i < closed.len() ==> has_session(m, #[trigger] closed[i]),
{
    lemma_without_all(w, keys, k);
    lemma_sessions_at(m, keys);
    assert(keys.contains(k) <==> m.dom().contains(k));
    assert forall|i: int| 0 <= i < closed.len() implies has_session(m, #[trigger] closed[i]) by {
        assert(closed[i] == sessions_at(m, keys)[i]);
        let a = choose|a: int|
            0 <= a < keys.len() && m[#[trigger] keys[a]].session == Some(closed[i]);
        assert(keys.contains(keys[a]));
        assert(m.dom().contains(keys[a]) && m[keys[a]].session == Some(closed[i]));
    }
}

proof fn lemma_without_all(w: WheelModel, keys: Seq<usize>, k: usize)
    ensures
        ({
            let after = without_all(w, keys);
            &&& after.live.dom().contains(k) <==> w.live.dom().contains(k) && !keys.contains(k)
            &&& after.lifetime.dom().contains(k) <==> w.lifetime.dom().contains(k)
                && !keys.contains(k)
            &&& after.handshake.dom().contains(k) <==> w.handshake.dom().contains(k)
                && !keys.contains(k)
        }),
    decreases keys.len(),
{
    if keys.len() > 0 {
        let rest = keys.drop_last();
        lemma_without_all(w, rest, k);
        assert(keys =~= rest.push(keys.last()));
        if rest.contains(k) {
            let i = choose|i: int| 0 <= i < rest.len() && rest[i] == k;
            assert(keys[i] == k);
        }
        if k == keys.last() {
            assert(keys[keys.len() - 1] == k);
        }
        if keys.contains(k) && k != keys.last() {
            let i = choose|i: int| 0 <= i < keys.len() && keys[i] == k;
            assert(rest[i] == k);
        }
    }
}

proof fn lemma_sessions_at(m: Map<usize, EntryModel>, keys: Seq<usize>)
    ensures
        forall|a: int|
            0 <= a < keys.len() ==> (m[#[trigger] keys[a]].session matches Some(s) ==> sessions_at(
                m,
                keys,
            ).contains(s)),
        forall|i: int|
            0 <= i < sessions_at(m, keys).len() ==> exists|a: int|
                0 <= a < keys.len() && m[#[trigger] keys[a]].session == Some(
                    #[trigger] sessions_at(m, keys)[i],
                ),
    decreases keys.len(),
{
    if keys.len() > 0 {
        let rest = keys.drop_last();
        let before = sessions_at(m, rest);
        let now = sessions_at(m, keys);
        lemma_sessions_at(m, rest);
        assert forall|a: int| 0 <= a < keys.len() implies (m[#[trigger] keys[a]].session matches
            Some(s) ==> now.contains(s)) by {
            if let Some(s) = m[keys[a]].session {
                if a < rest.len() {
                    assert(rest[a] == keys[a]);
                    assert(before.contains(s));
                    let i = choose|i: int| 0 <= i < before.len() && before[i] == s;
                    assert(now[i] == s);
                } else {
                    assert(now[now.len() - 1] == s);
                }
            }
        }
        assert forall|i: int| 0 <= i < now.len() implies exists|a: int|
            0 <= a < keys.len() && m[#[trigger] keys[a]].session == Some(#[trigger] now[i]) by {
            if i < before.len() {
                assert(before[i] == now[i]);
                let a = choose|a: int|
                    0 <= a < rest.len() && m[#[trigger] rest[a]].session == Some(before[i]);
                assert(m[keys[a]].session == Some(now[i]));
            } else {
                assert(m[keys[keys.len() - 1]].session == Some(now[i]));
            }
        }
    }
}

/// A worker that stops takes exactly its own sessions out of the index: nothing of a
/// session that is handed back can be looked up, and what belongs to none of them is
/// as it was.
pub proof fn stopping_clears_the_index(
    before: SubIndex,
    closed: Seq<Session>,
    after: SubIndex,
    k: SubKey,
)
    requires
        index_after(before, closed, after),
    ensures
        (exists|i: int| 0 <= i < closed.len() && #[trigger] subscribes(closed[i], k)) ==> after.get(
            k,
        ) is None,
        (forall|i: int| 0 <= i < closed.len() ==> !#[trigger] subscribes(closed[i], k))
            ==> after.get(k) == before.get(k),
{
    assert(after.get(k) == all_deindexed(closed, before.get(k), k));
    lemma_all_deindexed(closed, before.get(k), k);
}

/// The key is one of the session's: its app, its socket id, and a channel that it is
/// subscribed to or indexed under.
pub open spec fn subscribes(s: Session, k: SubKey) -> bool {
    &&& k.app == s.app_id@
    &&& k.sid == s.socket_id
    &&& mail::names(s.subscribed@).contains(k.channel) || mail::names(s.subs@).contains(k.channel)
}

proof fn lemma_all_deindexed(closed: Seq<Session>, before: Option<(usize, u8)>, k: SubKey)
    ensures
        (exists|i: int| 0 <= i < closed.len() && #[trigger] subscribes(closed[i], k))
            ==> all_deindexed(closed, before, k) is None,
        (forall|i: int| 0 <= i < closed.len() ==> !#[trigger] subscribes(closed[i], k))
            ==> all_deindexed(closed, before, k) == before,
    decreases closed.len(),
{
    if closed.len() > 0 {
        let rest = closed.drop_last();
        lemma_all_deindexed(rest, before, k);
        if exists|i: int| 0 <= i < closed.len() && #[trigger] subscribes(closed[i], k) {
            let i = choose|i: int| 0 <= i < closed.len() && #[trigger] subscribes(closed[i], k);
            if i < rest.len() {
                assert(subscribes(rest[i], k));
            }
        }
        if forall|i: int| 0 <= i < closed.len() ==> !#[trigger] subscribes(closed[i], k) {
            assert forall|i: int| 0 <= i < rest.len() implies !#[trigger] subscribes(rest[i], k) by {
                assert(!subscribes(closed[i], k));
            }
            assert(!subscribes(closed[closed.len() - 1], k));
        }
    }
}

/// What a stopping worker gives back is exactly what its sessions took, on the node and
/// for each app: with it what others took is all that is left.
pub proof fn stopping_gives_back_its_share(
    before: Counts,
    m: Map<usize, EntryModel>,
    after: Counts,
    app: Seq<char>,
    node_others: nat,
    app_others: nat,
)
    requires
        counts_without(before, m, after),
        before.node == node_sessions(m) + node_others,
        before.of(app) == app_sessions(m, app) + app_others,
    ensures
        after.node == node_others,
        after.of(app) == app_others,
{
}

} // verus!
