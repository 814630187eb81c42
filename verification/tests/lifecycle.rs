//! From the accept of a connection to its end.
use pylon::transport::buffer::Buffer;
use pylon::transport::conn::{CodelParams, ConnError, ConnState, WriteStatus};
use pylon::transport::fanout::{encode_frame, BroadcastMsg, SocketId};
use pylon::transport::frame::{encode, Frame, OpCode};
use pylon::transport::handshake::HeadResult;
use pylon::transport::pump::{IoEvent, ReadFor, ReadPump};
use pylon::transport::timer::Due;
use pylon::transport::worker::due::{error_text, DueStep};
use pylon::transport::worker::entry::{echo_close_code, Entry, FrameStep, Session};
use pylon::transport::worker::establish::{lookup_outcome, Admission, Admitted, Lookup, Refusal};
use pylon::transport::worker::events::{
    bind_next, frame_ceiling, handshake_deadline, percore_local_subs_len, percore_poll_zero_timeouts,
    percore_selective_drain_visits, BindStep, EventPlan, LoopCounters, Readiness, Shutdown,
};
use pylon::transport::worker::head::{Action, HeadStep, InterestPlan};
use pylon::transport::worker::index::{deindex_connection, reconcile_membership, SubIndex};
use pylon::transport::worker::mail::{DrainPlan, MailEvent};
use pylon::transport::worker::open::OpenStep;
use pylon::transport::worker::shed::{
    effective_budget, shed_band, should_skip, update_budget_pressure, ShedBand,
};
use pylon::transport::worker::state::Worker;
use std::sync::Arc;

fn sid(n: u64) -> SocketId {
    SocketId { hi: n, lo: 0 }
}

fn session(app: &str, id: SocketId) -> Session {
    Session::new(app.to_string(), id, 7, false)
}

fn worker() -> Worker {
    Worker::new(120, 30)
}

fn accept(w: &mut Worker) -> usize {
    w.accept(1 << 20, CodelParams::disabled(), None)
}

/// Accepts and establishes a connection.
fn established(w: &mut Worker, admission: &mut Admission, app: &str, id: SocketId) -> usize {
    let key = accept(w);
    w.table.entry(key).unwrap().conn.set_state(ConnState::Open);
    admission.finish_establish(app, 0, 0, false).unwrap();
    w.establish(key, session(app, id), "hello", false, 0, 0);
    key
}

fn close_frame(code: u16, reason: &str) -> Vec<u8> {
    let mut body = code.to_be_bytes().to_vec();
    body.extend_from_slice(reason.as_bytes());
    let mut out = Buffer::new();
    encode(&mut out, true, OpCode::Close, &body);
    out.as_slice().to_vec()
}

fn queued(e: &Entry) -> Vec<Vec<u8>> {
    (0..e.conn.queued_len())
        .map(|i| e.conn.queued_frame(i).to_vec())
        .collect()
}

#[test]
fn local_admission_checks_come_in_order() {
    let mut a = Admission::new();
    assert_eq!(a.finish_establish("x", 0, 2, false), Ok(Admitted::Done));
    assert_eq!(a.finish_establish("x", 2, 2, false), Ok(Admitted::AskCluster));
    assert_eq!(a.node_conns(), 2);
    assert_eq!(a.app_conns("x"), 2);
    assert_eq!(
        a.finish_establish("y", 0, 2, false),
        Err(Refusal::ServerOverCapacity),
        "the node is full"
    );
    assert_eq!(
        a.finish_establish("y", 0, 0, true),
        Err(Refusal::ServerOverCapacity),
        "the node is under memory pressure"
    );
    assert_eq!(
        a.finish_establish("x", 2, 0, false),
        Err(Refusal::OverCapacity),
        "the app is full"
    );
    assert_eq!(a.node_conns(), 2, "a refusal takes no count");
    assert_eq!(a.app_conns("y"), 0);
}

#[test]
fn releasing_undoes_the_admission() {
    let mut a = Admission::new();
    a.finish_establish("x", 1, 1, false).unwrap();
    a.release("x");
    assert_eq!(a.node_conns(), 0);
    assert_eq!(a.app_conns("x"), 0);
    assert_eq!(a.finish_establish("x", 1, 1, false), Ok(Admitted::AskCluster));
}

#[test]
fn the_cluster_has_the_last_word() {
    let mut a = Admission::new();
    a.finish_establish("x", 5, 0, false).unwrap();
    assert_eq!(a.apply_cluster_verdict("x", Some(true)), Ok(true));
    assert_eq!(a.apply_cluster_verdict("x", None), Ok(false));
    assert_eq!(a.app_conns("x"), 1);
    assert_eq!(
        a.apply_cluster_verdict("x", Some(false)),
        Err(Refusal::OverCapacity)
    );
    assert_eq!(a.app_conns("x"), 0, "a refusal gives the counts back");
    assert_eq!(a.node_conns(), 0);
}

#[test]
fn every_refusal_has_its_code() {
    assert_eq!(Refusal::AppNotFound.code(), 4001);
    assert_eq!(Refusal::AppDisabled.code(), 4003);
    assert_eq!(Refusal::OverCapacity.code(), 4004);
    assert_eq!(Refusal::PathNotFound.code(), 4005);
    assert_eq!(Refusal::ServerOverCapacity.code(), 4100);
    assert_eq!(Refusal::BackendUnavailable.code(), 4103);
    assert_eq!(lookup_outcome(Lookup::Found(9)), Ok(9));
    assert_eq!(lookup_outcome(Lookup::Disabled), Err(Refusal::AppDisabled));
    assert_eq!(lookup_outcome(Lookup::NotFound), Err(Refusal::AppNotFound));
    assert_eq!(
        lookup_outcome(Lookup::Failed),
        Err(Refusal::BackendUnavailable)
    );
}

#[test]
fn a_session_opens_by_its_path_and_app() {
    let mut w = worker();
    let key = accept(&mut w);
    assert_eq!(
        w.open_session(key, None, 7, None),
        OpenStep::Refuse(Refusal::PathNotFound)
    );
    assert_eq!(
        w.open_session(key, Some("k".to_string()), 7, Some(Lookup::Found(3))),
        OpenStep::Admit(3)
    );
    assert_eq!(
        w.open_session(key, Some("k".to_string()), 7, Some(Lookup::NotFound)),
        OpenStep::Refuse(Refusal::AppNotFound)
    );
    assert_eq!(
        w.open_session(key, Some("k".to_string()), 7, None),
        OpenStep::Wait {
            app_key: "k".to_string(),
            gen: 0
        }
    );
    assert_eq!(
        w.open_session(key + 1, Some("k".to_string()), 7, None),
        OpenStep::Gone
    );
}

#[test]
fn a_late_lookup_finds_nobody() {
    let mut w = worker();
    let mut admission = Admission::new();
    let key = accept(&mut w);
    w.open_session(key, Some("first".to_string()), 7, None);
    w.remove(key, &mut admission);
    assert!(w.resolve(key, 0, Lookup::Found(0)).is_none());

    let again = accept(&mut w);
    assert_eq!(again, key, "the slot is used again");
    w.open_session(again, Some("second".to_string()), 8, None);
    assert!(
        w.resolve(key, 0, Lookup::Found(0)).is_none(),
        "the answer to the first wait does not reach the second"
    );
    let r = w.resolve(key, 1, Lookup::Disabled).unwrap();
    assert_eq!(r.pending.key, "second");
    assert_eq!(r.pending.version, 8);
    assert_eq!(r.outcome, Err(Refusal::AppDisabled));
    assert!(w.resolve(key, 1, Lookup::Found(0)).is_none());
}

#[test]
fn errors_without_a_version_are_raw_json() {
    assert_eq!(
        error_text(None, 4005, "Path \"x\" not found"),
        "{\"data\":{\"code\":4005,\"message\":\"Path \\\"x\\\" not found\"},\"event\":\"pusher:error\"}"
    );
    assert_eq!(error_text(Some("coded".to_string()), 1, "m"), "coded");
}

#[test]
fn deadlines_lead_to_their_steps() {
    let mut w = worker();
    let mut admission = Admission::new();
    let key = established(&mut w, &mut admission, "app", sid(1));
    let before = w.table.get(key).unwrap().conn.queued_len();
    assert_eq!(w.on_due(Due::Ping(key), "ping", "old", 0), DueStep::FlushPing(key));
    assert_eq!(
        w.on_due(Due::Close4201(key), "ping", "old", 0),
        DueStep::FlushThenRemove(key)
    );
    assert_eq!(
        w.on_due(Due::Close4202(key), "ping", "old", 0),
        DueStep::FlushThenRemove(key)
    );
    assert_eq!(
        w.on_due(Due::HandshakeTimeout(key), "ping", "old", 0),
        DueStep::Cleared,
        "an established connection outlives its handshake deadline"
    );
    let frames = queued(w.table.get(key).unwrap());
    assert_eq!(frames[before], encode_frame("ping").to_vec());
    assert_eq!(
        frames[before + 1],
        close_frame(
            4201,
            "Pong reply not received: ping was sent to the client, but no reply was received"
        )
    );
    assert_eq!(frames[before + 2], encode_frame("old").to_vec());
    assert_eq!(frames[before + 3], close_frame(4202, "Closed after inactivity"));

    let silent = accept(&mut w);
    assert_eq!(
        w.on_due(Due::HandshakeTimeout(silent), "", "", 0),
        DueStep::Remove(silent)
    );
    assert_eq!(w.on_due(Due::Ping(silent), "", "", 0), DueStep::Nothing);
    assert!(!DueStep::Nothing.is_work());
    assert!(DueStep::Remove(silent).is_work());
}

#[test]
fn stopping_gives_every_count_back() {
    let mut w = worker();
    let mut admission = Admission::new();
    admission.finish_establish("elsewhere", 0, 0, false).unwrap();
    let a = established(&mut w, &mut admission, "a", sid(1));
    accept(&mut w);
    established(&mut w, &mut admission, "b", sid(2));
    w.index.insert("a", "c", sid(1), a, 7);
    w.table.entry(a).unwrap().session.as_mut().unwrap().subs = vec!["c".to_string()];
    for key in w.table.keys() {
        w.table.fold_delta(key);
    }
    assert!(w.table.inflight_bytes() > 0);

    let closed = w.remove_all(&mut admission);
    let ids: Vec<u64> = closed.iter().map(|s| s.socket_id.hi).collect();
    assert_eq!(ids, vec![1, 2]);
    assert!(w.table.keys().is_empty());
    assert_eq!(w.table.inflight_bytes(), 0);
    assert_eq!(w.table.outbound_bytes(), 0);
    assert_eq!(percore_local_subs_len(&w), 0);
    assert_eq!(admission.node_conns(), 1);
    assert_eq!(admission.app_conns("elsewhere"), 1);
    assert_eq!(admission.app_conns("a"), 0);
}

#[test]
fn mail_stops_at_the_first_close() {
    let mut w = worker();
    let mut admission = Admission::new();
    let key = established(&mut w, &mut admission, "app", sid(1));
    let e = w.table.entry(key).unwrap();
    let s = e.session.as_mut().unwrap();
    s.subscribed = vec!["x".to_string(), "y".to_string()];
    s.presence = vec!["x".to_string()];
    let before = e.conn.queued_len();
    let plan = e.drain_session(
        &vec![
            MailEvent::Text("one".to_string()),
            MailEvent::SubscriptionError {
                channel: "x".to_string(),
                text: "no".to_string(),
            },
            MailEvent::Close {
                code: 4009,
                reason: "bye".to_string(),
            },
            MailEvent::Text("never".to_string()),
        ],
        0,
    );
    assert_eq!(
        plan,
        DrainPlan {
            wrote: true,
            close_after: true,
            subs_changed: true
        }
    );
    assert_eq!(plan.outcome(Action::Keep), Action::Close);
    let open = DrainPlan {
        close_after: false,
        ..plan
    };
    assert_eq!(open.outcome(Action::Keep), Action::Keep);
    assert_eq!(open.outcome(Action::Close), Action::Close);
    let frames = queued(e);
    assert_eq!(
        &frames[before..],
        &[
            encode_frame("one").to_vec(),
            encode_frame("no").to_vec(),
            close_frame(4009, "bye")
        ]
    );
    let s = e.session.as_ref().unwrap();
    assert_eq!(s.subscribed, vec!["y".to_string()]);
    assert!(s.presence.is_empty());
}

#[test]
fn a_mailbox_without_a_session_sends_nothing() {
    let mut e = Entry::new(1 << 20, CodelParams::disabled());
    let plan = e.drain_session(&vec![MailEvent::Text("x".to_string())], 0);
    assert!(!plan.wrote && !plan.close_after && !plan.subs_changed);
    assert_eq!(e.conn.queued_len(), 0);
}

#[test]
fn membership_follows_the_session() {
    let mut index = SubIndex::new();
    let mut s = session("app", sid(1));
    s.subscribed = vec!["a".to_string(), "b".to_string()];
    reconcile_membership(&mut s, 4, &mut index);
    assert_eq!(index.len(), 2);
    assert_eq!(index.subscribers("app", "a"), vec![(sid(1), 4, 7)]);

    s.subscribed = vec!["b".to_string(), "c".to_string()];
    reconcile_membership(&mut s, 4, &mut index);
    assert!(index.subscribers("app", "a").is_empty());
    assert_eq!(index.subscribers("app", "c").len(), 1);
    assert!(!index.insert("app", "c", sid(1), 9, 8), "known already");
    assert!(index.insert("app", "c", sid(2), 5, 7));

    deindex_connection(&s, &mut index);
    assert_eq!(index.len(), 1);
    assert_eq!(index.subscribers("app", "c"), vec![(sid(2), 5, 7)]);
    assert!(index.remove("app", "c", sid(2)));
    assert!(!index.remove("app", "c", sid(2)));
}

#[test]
fn the_sender_and_closing_connections_are_left_out() {
    let mut w = worker();
    let mut admission = Admission::new();
    let keys: Vec<usize> = (0..3)
        .map(|n| established(&mut w, &mut admission, "app", sid(n)))
        .collect();
    for n in 0..3 {
        w.index.insert("app", "c", sid(n), keys[n as usize], 7);
    }
    let msg = BroadcastMsg {
        app: Arc::from("app"),
        channel: Arc::from("c"),
        frames: vec![(7, encode_frame("m"))],
        except: Some(sid(0)),
    };
    let mut touched = Vec::new();
    let mut saturated = false;
    w.deliver(&msg, &vec![keys[1]], 0, 0, &mut touched, &mut saturated);
    assert_eq!(touched, vec![keys[2]]);
    assert!(!saturated);
}

#[test]
fn bands_begin_where_they_say() {
    assert_eq!(shed_band(79, 100), ShedBand::Normal);
    assert_eq!(shed_band(80, 100), ShedBand::Pressure);
    assert_eq!(shed_band(95, 100), ShedBand::Severe);
    assert_eq!(shed_band(100, 100), ShedBand::Saturated);
    assert_eq!(shed_band(u64::MAX, 0), ShedBand::Normal);
    assert!(!should_skip(ShedBand::Normal, 99, 100));
    assert!(should_skip(ShedBand::Pressure, 51, 100));
    assert!(!should_skip(ShedBand::Pressure, 50, 100));
    assert!(should_skip(ShedBand::Severe, 7, 100));
    assert!(!should_skip(ShedBand::Severe, 6, 100));
    assert!(should_skip(ShedBand::Saturated, 0, 100));
    assert_eq!(effective_budget(2000, Some(250)), 500);
    assert_eq!(effective_budget(2000, None), 2000);
}

#[test]
fn bands_hold_for_budgets_of_any_size() {
    assert_eq!(shed_band(1 << 62, u64::MAX), ShedBand::Normal);
    assert_eq!(shed_band(u64::MAX / 10 * 9, u64::MAX), ShedBand::Pressure);
    assert_eq!(shed_band(u64::MAX - 1, u64::MAX), ShedBand::Severe);
    assert_eq!(shed_band(u64::MAX, u64::MAX), ShedBand::Saturated);
    assert_eq!(effective_budget(u64::MAX, Some(1000)), u64::MAX);
    assert_eq!(effective_budget(1 << 62, Some(1000)), 1 << 62);
    assert_eq!(effective_budget(1 << 62, Some(500)), 1 << 61);
    assert_eq!(effective_budget(u64::MAX, Some(u32::MAX)), u64::MAX);
    assert_eq!(effective_budget(7, Some(500)), 3);
    let mut bit = true;
    update_budget_pressure(&mut bit, u64::MAX / 10 * 9, u64::MAX);
    assert!(bit);
    update_budget_pressure(&mut bit, 1 << 62, u64::MAX);
    assert!(!bit);
}

#[test]
fn a_poll_report_is_acted_on_once() {
    let mut w = worker();
    let key = accept(&mut w);
    let r = Readiness {
        error: false,
        read_closed: false,
        write_closed: false,
        readable: true,
        writable: false,
    };
    assert_eq!(
        w.event_plan(key, r),
        EventPlan::Handle {
            read: true,
            write: false
        }
    );
    assert_eq!(
        w.event_plan(key, Readiness { error: true, ..r }),
        EventPlan::Remove
    );
    assert_eq!(w.event_plan(key + 1, r), EventPlan::Skip);
}

#[test]
fn a_dirty_connection_is_visited_once() {
    let mut w = worker();
    let mut admission = Admission::new();
    let key = established(&mut w, &mut admission, "app", sid(1));
    let closed = accept(&mut w);
    let mut c = LoopCounters::new();
    assert_eq!(
        w.dirty_targets(&vec![key, closed, key, 99], &mut c),
        vec![key]
    );
    assert_eq!(percore_selective_drain_visits(&c), 1);
    assert_eq!(c.poll_timeout_ms(true), 0);
    assert_eq!(c.poll_timeout_ms(false), 50);
    assert_eq!(percore_poll_zero_timeouts(&c), 1);
}

#[test]
fn an_answered_ping_waits_for_its_pong() {
    let mut w = worker();
    let mut admission = Admission::new();
    let key = established(&mut w, &mut admission, "app", sid(1));
    w.wheel.touch(key, 0);
    assert_eq!(w.wheel.due(120_000), vec![Due::Ping(key)]);
    assert_eq!(w.after_ping(key, true, Action::Keep, 120_000), Action::Keep);
    assert_eq!(w.wheel.due(149_999), vec![]);
    assert_eq!(w.wheel.due(150_000), vec![Due::Close4201(key)]);
    assert_eq!(w.after_ping(key, true, Action::Close, 0), Action::Close);
}

#[test]
fn the_lifetime_runs_from_the_establishment() {
    let mut w = worker();
    let key = w.accept(1 << 20, CodelParams::disabled(), handshake_deadline(true, 5000, 1000));
    w.table.entry(key).unwrap().conn.set_state(ConnState::Open);
    w.establish(key, session("app", sid(1)), "hi", true, 2_000_000_000, 3);
    assert_eq!(w.wheel.due(4_999), vec![]);
    assert_eq!(w.wheel.due(6_000), vec![Due::Close4202(key)]);
    assert_eq!(handshake_deadline(true, 5000, 1000), Some(6000));
    assert_eq!(handshake_deadline(false, 5000, 1000), None);
    assert_eq!(handshake_deadline(true, 0, 1000), None);
}

#[test]
fn a_shutdown_ends_when_nothing_is_owed_or_time_is_up() {
    let mut s = Shutdown::new();
    assert!(s.begin(1000, 500));
    assert!(!s.begin(9000, 500));
    assert!(s.may_exit(0, 1000));
    assert!(!s.may_exit(1, 1499));
    assert!(s.may_exit(1, 1500));
    let mut now = Shutdown::new();
    now.begin(1000, 0);
    assert!(now.may_exit(1, 1000));
}

#[test]
fn a_shutdown_waits_for_what_a_tls_session_holds() {
    let mut w = worker();
    let key = accept(&mut w);
    let mut s = Shutdown::new();
    s.begin(1000, 500);
    w.table.entry(key).unwrap().conn.note_tls(40, true);
    w.fold(key);
    assert_eq!(w.table.outbound_bytes(), 40);
    assert!(!s.may_exit(w.table.outbound_bytes(), 1100));
    w.table.entry(key).unwrap().conn.note_tls(0, false);
    w.fold(key);
    assert_eq!(w.table.outbound_bytes(), 0);
    assert!(s.may_exit(w.table.outbound_bytes(), 1100));
}

#[test]
fn flushing_what_was_touched_restores_interest() {
    let mut w = worker();
    let mut admission = Admission::new();
    let a = established(&mut w, &mut admission, "app", sid(1));
    let b = established(&mut w, &mut admission, "app", sid(2));
    assert!(!w.table.interest_held(), "both were greeted and not flushed");
    for key in [a, b] {
        let e = w.table.entry(key).unwrap();
        let action = e.after_flush(WriteStatus::WouldBlock, true);
        assert_eq!(action, Action::Keep);
        assert!(w.settle(key, action, &mut admission).is_none());
    }
    assert!(w.table.interest_held());
    let held = accept(&mut w);
    assert!(w.table.interest_held(), "a new connection owes nothing");
    w.table.entry(held).unwrap().conn.note_tls(3, true);
    assert!(!w.table.interest_held(), "ciphertext is owed too");
    let e = w.table.entry(held).unwrap();
    assert_eq!(e.handshake_interest(false), InterestPlan::Flush);
    let action = e.after_flush(WriteStatus::Closed, true);
    assert_eq!(action, Action::Close);
    w.settle(held, action, &mut admission);
    assert!(w.table.interest_held());
}

#[test]
fn binding_is_tried_ten_times_on_an_address_in_use() {
    let in_use = |again| BindStep { wait_ms: 25, again };
    assert_eq!(bind_next(1, true), in_use(true));
    assert_eq!(bind_next(9, true), in_use(true));
    assert_eq!(bind_next(10, true), in_use(false));
    let other = BindStep {
        wait_ms: 0,
        again: false,
    };
    assert_eq!(bind_next(1, false), other);
}

#[test]
fn channels_are_found_among_many() {
    let mut index = SubIndex::new();
    for n in 0..40u64 {
        let name = format!("room-{}", (n * 17) % 40);
        assert!(index.insert("app", &name, sid(n), n as usize, 7));
        assert!(index.insert("ap", &name, sid(n), 100 + n as usize, 7));
    }
    assert!(index.insert("app", "room-3", sid(99), 99, 8));
    assert_eq!(index.len(), 81);
    // 19 * 17 is 3 more than a multiple of 40.
    assert_eq!(
        index.subscribers("app", "room-3"),
        vec![(sid(19), 19, 7), (sid(99), 99, 8)]
    );
    assert_eq!(index.subscribers("ap", "room-3"), vec![(sid(19), 119, 7)]);
    assert!(index.subscribers("app", "room-").is_empty());
    assert!(!index.insert("app", "room-3", sid(19), 5, 8));
    assert_eq!(
        index.subscribers("app", "room-3"),
        vec![(sid(19), 5, 8), (sid(99), 99, 8)]
    );
    assert!(index.remove("app", "room-3", sid(19)));
    assert!(!index.remove("app", "room-3", sid(19)));
    assert!(index.remove("app", "room-3", sid(99)));
    assert!(index.subscribers("app", "room-3").is_empty());
    assert_eq!(index.subscribers("ap", "room-3"), vec![(sid(19), 119, 7)]);
    assert_eq!(index.len(), 79);
}

#[test]
fn a_head_decides_where_a_connection_goes() {
    let mut e = Entry::new(1 << 20, CodelParams::disabled());
    assert!(matches!(
        e.on_head(HeadResult::NeedMore, true, 0),
        HeadStep::Wait
    ));
    e.inbuf.extend_from_slice(b"GET / HTTP/1.1\r\n\r\n");
    match e.on_head(HeadResult::Rest { consumed: 18 }, true, 0) {
        HeadStep::Handoff(b) => assert_eq!(b, b"GET / HTTP/1.1\r\n\r\n".to_vec()),
        _ => panic!("a plain request goes to the REST plane"),
    }
    assert!(matches!(
        e.on_head(HeadResult::Rest { consumed: 18 }, false, 0),
        HeadStep::Close
    ));
    match e.on_head(
        HeadResult::WsUpgrade {
            key: "dGhlIHNhbXBsZSBub25jZQ==".to_string(),
            path: "/app/k".to_string(),
        },
        true,
        0,
    ) {
        HeadStep::Upgraded(p) => assert_eq!(p, "/app/k"),
        _ => panic!("an upgrade is answered"),
    }
    assert_eq!(e.conn.state(), ConnState::Open);
    assert!(e.inbuf.is_empty());
    let reply = String::from_utf8(queued(&e)[0].clone()).unwrap();
    assert!(reply.starts_with("HTTP/1.1 101 "));
    assert!(reply.contains("s3pPLMBiTxaQ9kYGzzhZRbK+xOo="));
    assert_eq!(e.handshake_interest(false), InterestPlan::Flush);
}

#[test]
fn a_flush_arms_what_is_left() {
    let mut e = Entry::new(1 << 20, CodelParams::disabled());
    assert_eq!(e.handshake_interest(false), InterestPlan::Keep);
    assert_eq!(
        e.handshake_interest(true),
        InterestPlan::Flush,
        "a blocked flight has to be finished"
    );
    e.queue_text("x", 0);
    assert_eq!(e.after_flush(WriteStatus::WouldBlock, true), Action::Keep);
    assert!(e.conn.writable_armed());
    assert_eq!(e.after_flush(WriteStatus::Closed, true), Action::Close);
    assert_eq!(e.after_flush(WriteStatus::WouldBlock, false), Action::Close);
}

#[test]
fn a_last_frame_is_taken_before_the_close() {
    let mut e = Entry::new(1 << 20, CodelParams::disabled());
    let mut pump = ReadPump::new(ReadFor::Frames, false);
    pump.step(&mut e.inbuf, IoEvent::Moved, &[0x8a, 0x80, 0, 0, 0, 0], false);
    pump.step(&mut e.inbuf, IoEvent::Eof, &[], false);
    let frames = e.take_frames(&pump, 1000).unwrap();
    assert_eq!(frames.len(), 1);
    assert_eq!(e.take_frames(&pump, 1000), Err(ConnError::Closed));
}

#[test]
fn close_codes_are_echoed_if_they_may_be() {
    assert_eq!(echo_close_code(&[0x03, 0xe9]), 1001);
    assert_eq!(echo_close_code(&[0x03, 0xed]), 1000);
    assert_eq!(echo_close_code(&[0x13, 0x88]), 1000);
    assert_eq!(echo_close_code(&[1]), 1000);
}

#[test]
fn a_split_message_is_delivered_whole() {
    let mut w = worker();
    let mut admission = Admission::new();
    let key = established(&mut w, &mut admission, "app", sid(1));
    let e = w.table.entry(key).unwrap();
    let part = |opcode, fin, s: &str| Frame {
        fin,
        opcode,
        payload: s.as_bytes().to_vec(),
    };
    assert!(matches!(
        e.on_frame(part(OpCode::Text, false, "ab"), 100, 0),
        FrameStep::Next
    ));
    assert!(matches!(
        e.on_frame(part(OpCode::Ping, true, "p"), 100, 0),
        FrameStep::FlushThenNext | FrameStep::Queued
    ));
    match e.on_frame(part(OpCode::Continuation, true, "cd"), 100, 0) {
        FrameStep::Deliver(t) => assert_eq!(t, "abcd"),
        _ => panic!("the message is complete"),
    }
    assert!(e.fragment.is_none());
    assert!(matches!(
        e.on_frame(
            Frame {
                fin: true,
                opcode: OpCode::Text,
                payload: vec![0xff]
            },
            100,
            0
        ),
        FrameStep::FlushThenClose
    ));
}

#[test]
fn a_broadcast_stays_in_its_channel() {
    let mut w = worker();
    let mut admission = Admission::new();
    let inside = established(&mut w, &mut admission, "app", sid(1));
    let outside = established(&mut w, &mut admission, "app", sid(2));
    w.index.insert("app", "c", sid(1), inside, 7);
    w.index.insert("app", "other", sid(2), outside, 7);
    let before = queued(w.table.get(outside).unwrap());
    let msg = BroadcastMsg {
        app: Arc::from("app"),
        channel: Arc::from("c"),
        frames: vec![(8, encode_frame("eight")), (7, encode_frame("seven"))],
        except: None,
    };
    let mut touched = Vec::new();
    let mut saturated = false;
    w.deliver(&msg, &Vec::new(), 1 << 30, 5, &mut touched, &mut saturated);
    assert_eq!(touched, vec![inside]);
    assert_eq!(
        queued(w.table.get(inside).unwrap()).last().unwrap(),
        &encode_frame("seven").to_vec()
    );
    assert_eq!(queued(w.table.get(outside).unwrap()), before);
}

#[test]
fn folding_twice_changes_nothing_more() {
    let mut w = worker();
    let mut admission = Admission::new();
    let key = established(&mut w, &mut admission, "app", sid(1));
    w.fold(key);
    let (inflight, outbound) = (w.table.inflight_bytes(), w.table.outbound_bytes());
    assert_eq!(inflight, w.table.get(key).unwrap().conn.accounted_bytes() as u64);
    w.fold(key);
    assert_eq!(w.table.inflight_bytes(), inflight);
    assert_eq!(w.table.outbound_bytes(), outbound);
}

#[test]
fn a_frame_may_hold_a_mebibyte_and_any_event() {
    assert_eq!(frame_ceiling(10_240), 1_048_576);
    assert_eq!(frame_ceiling(2_000_000), 2_000_000);
}
