//! Broadcast fan-out.
use pylon::transport::fanout::{
    encode_frame, frames_for, BroadcastMsg, BroadcastSink, ServerEvent, WorkerSlot,
};
use std::sync::Arc;

fn arc(s: &str) -> Arc<str> {
    Arc::from(s)
}

fn bytes(b: &[u8]) -> Arc<[u8]> {
    Arc::from(b)
}

#[test]
fn bounded_handoff_drops_on_full_and_flags_saturation() {
    let mut sink = BroadcastSink::new(vec![WorkerSlot::new(2)]);
    for _ in 0..5 {
        sink.broadcast(arc("a"), arc("c"), vec![(7, bytes(b"x"))], None);
    }
    assert_eq!(sink.workers[0].dropped, 3);
    assert!(sink.is_saturated());
}

#[test]
fn frames_for_over_active_versions_is_the_single_frame() {
    let text = "{\"event\":\"e\",\"channel\":\"c\",\"data\":{\"m\":1}}".to_string();
    let ev = ServerEvent::Encoded(vec![(7, text.clone())]);
    let frames = frames_for(&[7], &ev);
    assert_eq!(frames.len(), 1);
    assert_eq!(frames[0].0, 7);
    assert_eq!(frames[0].1, encode_frame(&text));
}

#[test]
fn frames_for_raw_shares_one_buffer_across_versions() {
    let ev = ServerEvent::Raw(Arc::from("{\"event\":\"e\"}"));
    let frames = frames_for(&[7, 8], &ev);
    assert_eq!(frames.len(), 2);
    assert_eq!(frames[0].0, 7);
    assert_eq!(frames[1].0, 8);
    assert_eq!(frames[0].1, frames[1].1);
    // Not empty, so that the pointers cannot agree for want of content.
    assert!(!frames[0].1.is_empty());
    assert!(std::ptr::eq(frames[0].1.as_ptr(), frames[1].1.as_ptr()));
}

#[test]
fn a_short_text_frame_has_a_two_byte_header() {
    assert_eq!(encode_frame("hi").to_vec(), vec![0x81, 2, b'h', b'i']);
}

#[test]
fn each_version_gets_its_own_text() {
    let ev = ServerEvent::Encoded(vec![(7, "seven".to_string()), (8, "eight".to_string())]);
    let frames = frames_for(&[8, 7], &ev);
    assert_eq!(frames[0].1, encode_frame("eight"));
    assert_eq!(frames[1].1, encode_frame("seven"));
}

#[test]
fn a_drained_inbox_takes_broadcasts_again() {
    let mut sink = BroadcastSink::new(vec![WorkerSlot::new(1), WorkerSlot::new(3)]);
    let woken = sink.broadcast(arc("a"), arc("c"), vec![(7, bytes(b"1"))], None);
    assert_eq!(woken, vec![0, 1]);
    let woken = sink.broadcast(arc("a"), arc("c"), vec![(7, bytes(b"2"))], None);
    assert_eq!(woken, vec![1], "a full inbox wakes nobody");
    assert!(sink.is_saturated());
    let first = sink.workers[0].take().unwrap();
    assert_eq!(first.frames[0].1, bytes(b"1"), "the oldest broadcast survives");
    assert!(sink.workers[0].take().is_none());
    sink.clear_inbox_full();
    assert!(!sink.is_saturated());
}

#[test]
fn a_worker_that_is_gone_is_passed_over() {
    let mut slot = WorkerSlot::new(4);
    slot.gone = true;
    let msg = BroadcastMsg {
        app: arc("a"),
        channel: arc("c"),
        frames: vec![(7, bytes(b"x"))],
        except: None,
    };
    assert!(!slot.offer(msg));
    assert_eq!(slot.dropped, 0);
    assert!(slot.take().is_none());
}
