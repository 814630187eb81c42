//! A worker: fan-out, budget pressure, reassembly, accounting and teardown.
use pylon::transport::conn::{
    BatchOutcome, CodelParams, ConnState, Connection, FlushNext, WriteStatus, WRITEV_MAX_BYTES,
};
use pylon::transport::fanout::{
    encode_frame, frames_for, BroadcastMsg, BroadcastSink, ServerEvent, SocketId, WorkerSlot,
};
use pylon::transport::frame::{Frame, OpCode};
use pylon::transport::pump::{IoEvent, ReadFor, ReadPhase, ReadPump};
use pylon::transport::worker::due::error_text;
use pylon::transport::worker::entry::{Entry, Fragment, FrameStep, Session};
use pylon::transport::worker::establish::Admission;
use pylon::transport::worker::events::shutdown_close;
use pylon::transport::worker::head::Action;
use pylon::transport::worker::shed::update_budget_pressure;
use pylon::transport::worker::state::Worker;
use std::sync::Arc;

const HIGH_WATER: usize = 1 << 20;

fn arc(s: &str) -> Arc<str> {
    Arc::from(s)
}

fn sid(n: u64) -> SocketId {
    SocketId { hi: n, lo: n + 1 }
}

fn session(app: &str, id: SocketId, version: u8) -> Session {
    Session::new(app.to_string(), id, version, false)
}

/// Adds a connection with an established session.
fn open_conn(w: &mut Worker, id: SocketId, version: u8) -> usize {
    let key = w.accept(HIGH_WATER, CodelParams::disabled(), None);
    let e = w.table.entry(key).unwrap();
    e.session = Some(session("app", id, version));
    e.conn.set_state(ConnState::Open);
    key
}

/// Writes everything queued to a sink that takes it all, and returns it.
fn flush_all(conn: &mut Connection) -> (WriteStatus, Vec<u8>) {
    let mut wire: Vec<u8> = Vec::new();
    loop {
        if !conn.flush_gather(WRITEV_MAX_BYTES, 1) {
            return (WriteStatus::Drained, wire);
        }
        let before = wire.len();
        for i in 0..conn.batch_len() {
            wire.extend_from_slice(conn.batch_slice(i));
        }
        match conn.flush_apply(BatchOutcome::Wrote(wire.len() - before)) {
            FlushNext::Again => {}
            FlushNext::Done(status) => return (status, wire),
        }
    }
}

fn v7_text(channel: &str, event: &str, data: &str) -> String {
    format!("{{\"event\":\"{event}\",\"channel\":\"{channel}\",\"data\":{data}}}")
}

#[test]
fn drain_delivers_each_subscriber_its_negotiated_versions_frame() {
    let mut w = Worker::new(120, 30);
    let token7 = open_conn(&mut w, sid(7), 7);
    let token8 = open_conn(&mut w, sid(8), 8);
    w.index.insert("app", "presence-room-42", sid(7), token7, 7);
    w.index.insert("app", "presence-room-42", sid(8), token8, 8);

    let text7 = v7_text(
        "presence-room-42",
        "client-message",
        "{\"msg\":\"per-version fan-out\"}",
    );
    let text8 = format!("[8,{text7}]");
    let event = ServerEvent::Encoded(vec![(7, text7.clone()), (8, text8.clone())]);
    let frames = frames_for(&[7, 8], &event);
    assert_ne!(frames[0].1, frames[1].1);

    let mut slot = WorkerSlot::new(4);
    slot.offer(BroadcastMsg {
        app: arc("app"),
        channel: arc("presence-room-42"),
        frames,
        except: None,
    });
    let mut touched: Vec<usize> = Vec::new();
    w.drain_broadcast_inbox(&mut slot, &Vec::new(), 64 << 20, 1, &mut touched);
    assert_eq!(touched.len(), 2, "both subscribers queued onto");

    for (token, expect) in [(token7, encode_frame(&text7)), (token8, encode_frame(&text8))] {
        let conn = &mut w.table.entry(token).unwrap().conn;
        let (status, got) = flush_all(conn);
        assert_eq!(status, WriteStatus::Drained, "flush");
        assert_eq!(&got[..], &expect[..], "subscriber's own version frame");
    }
}

#[test]
fn drain_skips_a_broadcast_with_no_frames() {
    let mut w = Worker::new(120, 30);
    let token = open_conn(&mut w, sid(1), 7);
    w.index.insert("app", "room-1", sid(1), token, 7);

    let text = v7_text("room-1", "client-message", "{\"msg\":\"after the empty one\"}");
    let event = ServerEvent::Encoded(vec![(7, text.clone())]);
    let mut slot = WorkerSlot::new(4);
    slot.offer(BroadcastMsg {
        app: arc("app"),
        channel: arc("room-1"),
        frames: Vec::new(),
        except: None,
    });
    slot.offer(BroadcastMsg {
        app: arc("app"),
        channel: arc("room-1"),
        frames: frames_for(&[7], &event),
        except: None,
    });
    let mut touched: Vec<usize> = Vec::new();
    w.drain_broadcast_inbox(&mut slot, &Vec::new(), 64 << 20, 1, &mut touched);

    assert_eq!(touched, vec![token], "only the framed message");
    let expect = encode_frame(&text);
    assert_eq!(
        w.table.inflight_bytes(),
        expect.len() as u64,
        "the empty message queued nothing"
    );
    let conn = &mut w.table.entry(token).unwrap().conn;
    let (status, got) = flush_all(conn);
    assert_eq!(status, WriteStatus::Drained, "flush");
    assert_eq!(&got[..], &expect[..], "exactly the one framed broadcast");
}

/// One worker with subscribers that never read.
struct BudgetFixture {
    worker: Worker,
    channel: &'static str,
}

impl BudgetFixture {
    fn new(subs: u64) -> Self {
        let mut worker = Worker::new(120, 30);
        for n in 0..subs {
            let token = open_conn(&mut worker, sid(n), 7);
            worker.index.insert("app", "budget-chan", sid(n), token, 7);
        }
        BudgetFixture {
            worker,
            channel: "budget-chan",
        }
    }

    /// Hands the worker one broadcast and returns its framed length.
    fn publish(&self, slot: &mut WorkerSlot) -> u64 {
        let text = v7_text(self.channel, "flood", "{\"pad\":\"0123456789abcdef\"}");
        let frames = frames_for(&[7], &ServerEvent::Encoded(vec![(7, text)]));
        let len = frames[0].1.len() as u64;
        slot.offer(BroadcastMsg {
            app: arc("app"),
            channel: arc(self.channel),
            frames,
            except: None,
        });
        len
    }

    /// Drains the inbox and then maintains the flags, as the loop does.
    fn loop_pass(&mut self, sink: &mut BroadcastSink, i: usize, budget: u64) {
        let mut touched: Vec<usize> = Vec::new();
        self.worker.drain_broadcast_inbox(
            &mut sink.workers[i],
            &Vec::new(),
            budget,
            1,
            &mut touched,
        );
        sink.clear_inbox_full();
        update_budget_pressure(
            &mut sink.workers[i].budget_saturated,
            self.worker.table.inflight_bytes(),
            budget,
        );
    }
}

#[test]
fn budget_saturation_is_observable_after_the_drain_returns() {
    let mut w = BudgetFixture::new(3);
    let mut sink = BroadcastSink::new(vec![WorkerSlot::new(8)]);

    let budget = w.publish(&mut sink.workers[0]);
    w.loop_pass(&mut sink, 0, budget);

    assert!(
        w.worker.table.inflight_bytes() >= budget,
        "the fan-out must have blown the budget"
    );
    assert!(
        sink.is_saturated(),
        "budget pressure must survive the drain that observed it"
    );
}

#[test]
fn an_idle_workers_drain_cannot_clear_another_workers_pressure() {
    let mut busy = BudgetFixture::new(3);
    let mut idle = BudgetFixture::new(0);
    let mut sink = BroadcastSink::new(vec![WorkerSlot::new(8), WorkerSlot::new(8)]);

    let budget = busy.publish(&mut sink.workers[0]);
    busy.loop_pass(&mut sink, 0, budget);
    assert!(sink.is_saturated());

    idle.loop_pass(&mut sink, 1, budget);
    assert_eq!(idle.worker.table.inflight_bytes(), 0);
    assert!(
        sink.is_saturated(),
        "an idle worker's drain must not clear another worker's budget pressure"
    );
}

#[test]
fn inbox_full_still_clears_once_the_inbox_drains_empty() {
    let mut w = BudgetFixture::new(1);
    let mut sink = BroadcastSink::new(vec![WorkerSlot::new(8)]);

    sink.inbox_full = true;
    assert!(sink.is_saturated());

    w.publish(&mut sink.workers[0]);
    w.loop_pass(&mut sink, 0, 64 << 20);
    assert!(
        !sink.is_saturated(),
        "a drain to empty must release the inbox-full half"
    );
}

fn fragment_fixture() -> Entry {
    Entry::new(HIGH_WATER, CodelParams::disabled())
}

fn feed(e: &mut Entry, opcode: OpCode, fin: bool, payload: Vec<u8>, cap: usize) -> Action {
    match e.on_frame(Frame { fin, opcode, payload }, cap, 0) {
        FrameStep::Close | FrameStep::FlushThenClose => Action::Close,
        _ => Action::Keep,
    }
}

#[test]
fn an_oversize_first_text_fragment_buffers_nothing() {
    let mut e = fragment_fixture();

    let action = feed(&mut e, OpCode::Text, false, vec![b'x'; 64 * 1024], 1024);

    assert_eq!(action, Action::Keep);
    assert!(matches!(e.fragment, Some(Fragment::Oversize)));
    assert_eq!(e.conn.reassembly_bytes(), 0);
    assert_eq!(e.conn.take_inflight_delta(), 0);
}

#[test]
fn an_unfinished_oversize_message_accumulates_nothing() {
    let mut e = fragment_fixture();
    feed(&mut e, OpCode::Text, false, vec![b'x'; 64 * 1024], 1024);

    for _ in 0..64 {
        assert_eq!(
            feed(&mut e, OpCode::Continuation, false, vec![b'x'; 64 * 1024], 1024),
            Action::Keep
        );
        assert_eq!(e.conn.reassembly_bytes(), 0);
    }
    assert_eq!(e.conn.take_inflight_delta(), 0);
}

#[test]
fn an_oversize_fragmented_message_is_dropped_without_closing() {
    let mut e = fragment_fixture();

    assert_eq!(
        feed(&mut e, OpCode::Text, false, vec![b'a'; 800], 1024),
        Action::Keep
    );
    assert_eq!(
        feed(&mut e, OpCode::Continuation, false, vec![b'b'; 800], 1024),
        Action::Keep,
        "the overflowing fragment must not close the connection"
    );
    assert!(matches!(e.fragment, Some(Fragment::Oversize)));
    assert_eq!(
        e.conn.reassembly_bytes(),
        0,
        "the partial message's bytes are released on overflow"
    );
    assert_eq!(
        feed(&mut e, OpCode::Continuation, true, vec![b'c'; 8], 1024),
        Action::Keep,
        "the final fragment of a dropped message must not close the connection"
    );
    assert!(e.fragment.is_none());
}

#[test]
fn a_frame_out_of_place_ends_the_run_with_1002() {
    let binary_after_oversize: Vec<(OpCode, usize)> = vec![
        (OpCode::Text, 2048),
        (OpCode::Ping, 1),
        (OpCode::Binary, 4),
    ];
    let text_after_oversize: Vec<(OpCode, usize)> = vec![
        (OpCode::Text, 800),
        (OpCode::Continuation, 800),
        (OpCode::Text, 4),
    ];
    let text_after_binary: Vec<(OpCode, usize)> = vec![(OpCode::Binary, 800), (OpCode::Text, 4)];
    let binary_after_text: Vec<(OpCode, usize)> = vec![(OpCode::Text, 8), (OpCode::Binary, 4)];
    for run in [
        binary_after_oversize,
        text_after_oversize,
        text_after_binary,
        binary_after_text,
    ] {
        let mut e = fragment_fixture();
        for (i, (opcode, len)) in run.iter().enumerate() {
            let fin = *opcode == OpCode::Ping;
            let action = feed(&mut e, *opcode, fin, vec![b'x'; *len], 1024);
            let last = i + 1 == run.len();
            assert_eq!(action, if last { Action::Close } else { Action::Keep });
            let held = match &e.fragment {
                Some(Fragment::Text(b)) => b.len(),
                _ => 0,
            };
            assert_eq!(e.conn.reassembly_bytes(), held);
            assert!(held <= 1024);
        }
        let (_, wire) = flush_all(&mut e.conn);
        let code: [u8; 2] = [3, 234];
        assert!(wire.windows(2).any(|b| b == code), "a close frame with 1002");
    }
}

#[test]
fn an_open_text_fragment_is_billed_to_the_connection() {
    let mut e = fragment_fixture();

    feed(&mut e, OpCode::Text, false, vec![b'a'; 600], 4096);
    assert_eq!(e.conn.reassembly_bytes(), 600);
    assert_eq!(e.conn.accounted_bytes(), 600);
    assert_eq!(e.conn.take_inflight_delta(), 600);

    feed(&mut e, OpCode::Continuation, false, vec![b'b'; 200], 4096);
    assert_eq!(e.conn.reassembly_bytes(), 800);
    assert_eq!(
        e.conn.take_inflight_delta(),
        200,
        "an append bills only its growth"
    );

    feed(&mut e, OpCode::Continuation, false, vec![b'c'; 4096], 4096);
    assert_eq!(e.conn.reassembly_bytes(), 0);
    assert_eq!(
        e.conn.take_inflight_delta(),
        -800,
        "dropping the message returns its bytes to the budget"
    );
}

#[test]
fn a_fragmented_binary_message_is_ignored_and_bills_nothing() {
    let mut e = fragment_fixture();

    assert_eq!(
        feed(&mut e, OpCode::Binary, false, vec![0u8; 4096], 1024),
        Action::Keep
    );
    assert!(matches!(e.fragment, Some(Fragment::Binary)));
    assert_eq!(
        feed(&mut e, OpCode::Continuation, true, vec![0u8; 4096], 1024),
        Action::Keep
    );
    assert!(e.fragment.is_none());
    assert_eq!(e.conn.take_inflight_delta(), 0);
}

#[test]
fn a_stray_continuation_still_closes_the_connection() {
    let mut e = fragment_fixture();

    assert_eq!(
        feed(&mut e, OpCode::Continuation, true, b"stray".to_vec(), 1024),
        Action::Close
    );
}

#[test]
fn budget_pressure_holds_between_the_set_and_release_bands() {
    const BUDGET: u64 = 1_000;
    let mut bit = false;

    update_budget_pressure(&mut bit, 799, BUDGET);
    assert!(!bit, "below the release band: stays down");

    for inflight in [800, 949, 950, 999] {
        update_budget_pressure(&mut bit, inflight, BUDGET);
        assert!(!bit, "{inflight} is under budget; must not raise");
    }
    update_budget_pressure(&mut bit, BUDGET, BUDGET);
    assert!(bit, "at 100% the budget bit is raised");

    for inflight in [999, 950, 900, 800] {
        update_budget_pressure(&mut bit, inflight, BUDGET);
        assert!(bit, "{inflight} is inside the hold band; must not release");
    }
    update_budget_pressure(&mut bit, 799, BUDGET);
    assert!(!bit, "back under the release band: released");
}

/// Tells a connection that the server is going away.
fn queue_shutdown_error(w: &mut Worker, key: usize) {
    let (code, reason) = shutdown_close();
    let text = error_text(None, code, reason);
    assert!(w.queue_error_close(key, &text, code, reason, 0));
}

#[test]
fn drain_removes_a_connection_whose_close_frames_can_never_flush() {
    let mut w = Worker::new(120, 30);
    let mut admission = Admission::new();
    let key = w.accept(HIGH_WATER, CodelParams::disabled(), None);
    w.table.entry(key).unwrap().conn.set_state(ConnState::Open);

    queue_shutdown_error(&mut w, key);
    let e = w.table.entry(key).unwrap();
    assert!(e.conn.flush_gather(WRITEV_MAX_BYTES, 0));
    let action = match e.conn.flush_apply(BatchOutcome::Failed) {
        FlushNext::Done(status) => e.after_flush(status, true),
        FlushNext::Again => panic!("a dead peer takes nothing"),
    };
    assert_eq!(action, Action::Close);
    w.settle(key, action, &mut admission);

    assert!(
        w.table.keys().is_empty(),
        "a write-dead peer is torn down, not left holding unsendable frames"
    );
    assert_eq!(
        w.table.inflight_bytes(),
        0,
        "its queued 4200 frames leave the worker total with it"
    );
    assert_eq!(
        w.table.outbound_bytes(),
        0,
        "its queued 4200 frames leave the outbound total with it too"
    );
}

#[test]
fn rest_handoff_returns_the_connections_queued_bytes() {
    let mut w = Worker::new(120, 30);
    let key = w.accept(HIGH_WATER, CodelParams::disabled(), None);

    queue_shutdown_error(&mut w, key);
    w.table.fold_delta(key);
    let queued = w.table.get(key).unwrap().conn.out_bytes() as u64;
    assert!(queued > 0, "the drain really queued something");
    assert_eq!(w.table.inflight_bytes(), queued);
    assert_eq!(w.table.outbound_bytes(), queued);

    assert!(w.handoff_rest(key));

    assert!(w.table.keys().is_empty(), "the entry left the slab");
    assert_eq!(
        w.table.inflight_bytes(),
        0,
        "and its bytes left the worker total with it"
    );
    assert_eq!(
        w.table.outbound_bytes(),
        0,
        "and the outbound total with it too"
    );
}

/// The header of a masked client text frame with a 16-bit length.
fn masked_text_header(payload_len: u16) -> Vec<u8> {
    let mut head = vec![0x81, 0x80 | 126];
    head.extend_from_slice(&payload_len.to_be_bytes());
    head.extend_from_slice(&[0x37, 0xfa, 0x21, 0x3d]);
    head
}

/// Reads `bytes` in full on an echo connection, and folds what came of it.
fn receive(w: &mut Worker, key: usize, bytes: &[u8]) {
    let e = w.table.entry(key).unwrap();
    let mut pump = ReadPump::new(ReadFor::Frames, false);
    pump.step(&mut e.inbuf, IoEvent::Moved, bytes, false);
    pump.step(&mut e.inbuf, IoEvent::WouldBlock, &[], false);
    assert_eq!(pump.phase, ReadPhase::End);
    for f in e.take_frames(&pump, 1 << 20).unwrap() {
        assert!(matches!(
            e.on_echo_frame(f, 0),
            FrameStep::Queued | FrameStep::Next
        ));
    }
    w.table.fold_delta(key);
}

#[test]
fn a_partially_received_frame_is_billed_to_the_connection() {
    let mut w = Worker::new(120, 30);
    let key = w.accept(HIGH_WATER, CodelParams::disabled(), None);
    w.table.entry(key).unwrap().conn.set_state(ConnState::Open);

    let mut partial = masked_text_header(32 * 1024);
    partial.extend_from_slice(&vec![b'x'; 4096]);
    let want = partial.len();
    receive(&mut w, key, &partial);

    let conn = &w.table.get(key).unwrap().conn;
    assert_eq!(
        conn.out_bytes(),
        0,
        "an incomplete frame draws no reply, so every accounted byte is the buffer's"
    );
    assert_eq!(conn.frame_buffer_bytes(), want);
    assert_eq!(conn.accounted_bytes(), want);
    assert_eq!(
        w.table.inflight_bytes(),
        want as u64,
        "and the worker total carries them"
    );
    assert_eq!(
        w.table.outbound_bytes(),
        0,
        "a partial inbound frame owes nothing outbound, so the drain must not wait on it"
    );
}

#[test]
fn completing_a_frame_returns_its_buffered_bytes() {
    let mut w = Worker::new(120, 30);
    let key = w.accept(HIGH_WATER, CodelParams::disabled(), None);
    w.table.entry(key).unwrap().conn.set_state(ConnState::Open);

    let payload = vec![b'x'; 512];
    let mut head = masked_text_header(payload.len() as u16);
    head.extend_from_slice(&payload[..256]);
    let buffered = head.len();
    receive(&mut w, key, &head);
    assert_eq!(w.table.inflight_bytes(), buffered as u64);
    assert_eq!(
        w.table.outbound_bytes(),
        0,
        "still just a buffered partial frame, nothing to send"
    );

    receive(&mut w, key, &payload[256..]);
    assert!(w.table.get(key).unwrap().inbuf.is_empty());

    let conn = &w.table.get(key).unwrap().conn;
    assert_eq!(conn.frame_buffer_bytes(), 0);
    assert_eq!(
        w.table.inflight_bytes(),
        conn.out_bytes() as u64,
        "only the echoed reply is still owed"
    );
    assert_eq!(
        w.table.outbound_bytes(),
        conn.out_bytes() as u64,
        "the echoed reply is outbound too, once the frame completed"
    );
}
