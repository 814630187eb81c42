//! The outbound queue of a connection, and reading from one.
use pylon::transport::buffer::Buffer;
use pylon::transport::conn::{
    restore_batch, BatchOutcome, CodelParams, ConnError, Connection, DrainStatus, FlushNext,
    OutFrame, WriteStatus, TLS_BATCH_MAX_BYTES, WRITEV_MAX_BYTES,
};
use pylon::transport::frame::{self, Frame, OpCode};
use pylon::transport::pump::{
    ciphertext_step, CiphertextNext, IoEvent, ReadFor, ReadPhase, ReadPump, TlsBatch, TlsFlush,
};
use std::collections::VecDeque;
use std::sync::Arc;

const TARGET_NS: u64 = 5_000_000;
const INTERVAL_NS: u64 = 100_000_000;

fn codel() -> CodelParams {
    CodelParams {
        target_ns: TARGET_NS,
        interval_ns: INTERVAL_NS,
    }
}

/// A frame of ten bytes, told apart by what it is filled with.
fn small(tag: u8) -> Arc<[u8]> {
    filled(tag, 10)
}

fn filled(tag: u8, len: usize) -> Arc<[u8]> {
    Arc::from(vec![tag; len].into_boxed_slice())
}

/// An unmasked text frame.
fn text_frame(payload: &[u8]) -> Arc<[u8]> {
    let mut out = Buffer::new();
    frame::encode_text(&mut out, payload);
    Arc::from(out.as_slice())
}

/// A socket that takes what its script says, and everything once the script is
/// over.
struct CountingSink {
    /// The bytes that each write took.
    calls: Vec<Vec<u8>>,
    /// How many slices each write was offered.
    slice_counts: Vec<usize>,
    /// How many bytes each write was offered.
    offered: Vec<usize>,
    script: Vec<BatchOutcome>,
}

impl CountingSink {
    fn accepting() -> Self {
        CountingSink::scripted(vec![])
    }

    fn scripted(script: Vec<BatchOutcome>) -> Self {
        CountingSink {
            calls: vec![],
            slice_counts: vec![],
            offered: vec![],
            script,
        }
    }

    fn received(&self) -> Vec<u8> {
        self.calls.iter().flatten().copied().collect()
    }

    fn write(&mut self, conn: &Connection) -> BatchOutcome {
        let slices: Vec<&[u8]> = (0..conn.batch_len()).map(|i| conn.batch_slice(i)).collect();
        let bytes: Vec<u8> = slices.concat();
        let mut copied = vec![];
        conn.batch_bytes(&mut copied);
        assert_eq!(copied, bytes, "one buffer holds what the slices hold");
        let outcome = match self.script.get(self.calls.len()) {
            Some(o) => *o,
            None => BatchOutcome::Wrote(bytes.len()),
        };
        let took = match outcome {
            BatchOutcome::Wrote(n) => n,
            _ => 0,
        };
        self.calls.push(bytes[..took].to_vec());
        self.slice_counts.push(slices.len());
        self.offered.push(bytes.len());
        outcome
    }
}

fn flush(conn: &mut Connection, sink: &mut CountingSink, now_ns: u64) -> WriteStatus {
    flush_within(conn, sink, WRITEV_MAX_BYTES, now_ns)
}

fn flush_within(
    conn: &mut Connection,
    sink: &mut CountingSink,
    max_bytes: usize,
    now_ns: u64,
) -> WriteStatus {
    loop {
        if !conn.flush_gather(max_bytes, now_ns) {
            return WriteStatus::Drained;
        }
        let outcome = sink.write(conn);
        match conn.flush_apply(outcome) {
            FlushNext::Again => {}
            FlushNext::Done(status) => return status,
        }
    }
}

fn tags(conn: &Connection) -> Vec<(u8, usize)> {
    (0..conn.queued_len())
        .map(|i| {
            let f = conn.queued_frame(i);
            (f[0], f.len())
        })
        .collect()
}

fn three() -> (Connection, Vec<u8>) {
    let mut c = Connection::new(1 << 20);
    let mut expected = vec![];
    for tag in 1..=3u8 {
        let f = small(tag);
        expected.extend_from_slice(&f[..]);
        c.queue(f, 0);
    }
    (c, expected)
}

/// A connection whose last interval was over the target throughout.
fn overloaded() -> Connection {
    let mut c = Connection::new(1 << 20);
    c.set_codel(codel());
    for k in 0..=20u8 {
        let now = (k as u64 + 1) * 6_000_000;
        c.queue(small(k), now - 6_000_000);
        let mut sink = CountingSink::accepting();
        assert_eq!(flush(&mut c, &mut sink, now), WriteStatus::Drained);
    }
    assert!(c.is_overloaded());
    c
}

#[test]
fn queue_then_flush_drains_all_frames() {
    let mut conn = Connection::new(1 << 20);
    let f1 = text_frame(b"one");
    let f2 = text_frame(b"two");
    let f3 = text_frame(b"three");
    let mut expected = Vec::new();
    expected.extend_from_slice(&f1);
    expected.extend_from_slice(&f2);
    expected.extend_from_slice(&f3);

    assert_eq!(conn.queue(f1, 0), 0);
    assert_eq!(conn.queue(f2, 0), 0);
    assert_eq!(conn.queue(f3, 0), 0);
    assert!(conn.has_pending_writes());

    let mut sink = CountingSink::accepting();
    assert_eq!(flush(&mut conn, &mut sink, 0), WriteStatus::Drained);
    assert!(!conn.has_pending_writes());
    assert_eq!(conn.out_bytes(), 0);
    assert_eq!(sink.received(), expected);
}

#[test]
fn writev_coalesces_three_frames_into_one_call() {
    let (mut c, expected) = three();
    let mut sink = CountingSink::accepting();
    assert_eq!(flush(&mut c, &mut sink, 0), WriteStatus::Drained);

    assert_eq!(sink.calls.len(), 1, "3 fitting frames must be ONE writev");
    assert_eq!(sink.slice_counts, vec![3], "one iovec per frame");
    assert_eq!(sink.received(), expected);
    assert_eq!(c.queued_len(), 0);
    assert_eq!(c.out_cursor(), 0);
    assert_eq!(c.out_bytes(), 0);
    assert_eq!(c.take_inflight_delta(), 0, "+30 queued, then −30 sent");
}

#[test]
fn writev_partial_write_advances_cursor_across_frames() {
    for short in [7usize, 10, 15, 20, 29] {
        let (mut c, expected) = three();
        let mut sink = CountingSink::scripted(vec![BatchOutcome::Wrote(short)]);
        assert_eq!(
            flush(&mut c, &mut sink, 0),
            WriteStatus::Drained,
            "short={short}: a short write is not a block"
        );
        assert_eq!(sink.received(), expected, "short={short}: byte stream");
        assert_eq!(
            sink.calls.first().map(|c| c.len()),
            Some(short),
            "short={short}: first call carried exactly the short count"
        );
        assert_eq!(c.queued_len(), 0);
        assert_eq!(c.out_cursor(), 0);
        assert_eq!(c.out_bytes(), 0);
        assert_eq!(c.take_inflight_delta(), 0, "short={short}: +30 −30");
    }
}

#[test]
fn writev_partial_then_blocked_persists_and_resumes() {
    let (mut c, expected) = three();
    let mut sink =
        CountingSink::scripted(vec![BatchOutcome::Wrote(15), BatchOutcome::WouldBlock]);
    assert_eq!(flush(&mut c, &mut sink, 0), WriteStatus::WouldBlock);

    assert_eq!(c.queued_len(), 2);
    assert_eq!(c.out_cursor(), 5);
    assert_eq!(c.queued_frame(0).len(), 10);
    assert_eq!(c.out_bytes(), 20, "counts FULL frames, cursor or not");
    let first = c.take_inflight_delta();
    assert_eq!(first, 20, "+30 queued, −10 sent so far");
    assert!(c.out_cursor() < c.queued_frame(0).len());

    let mut sink2 = CountingSink::accepting();
    assert_eq!(flush(&mut c, &mut sink2, 0), WriteStatus::Drained);
    let mut all = sink.received();
    all.extend(sink2.received());
    assert_eq!(all, expected);
    assert_eq!(c.out_bytes(), 0);
    assert_eq!(
        first + c.take_inflight_delta(),
        0,
        "+30 −30 across both flushes"
    );
}

#[test]
fn writev_blocked_flush_restores_queue_verbatim() {
    let mut c = Connection::new(1 << 20);
    for tag in 1..=3u8 {
        c.queue(small(tag), tag as u64);
    }
    let before = tags(&c);
    let mut sink = CountingSink::scripted(vec![BatchOutcome::WouldBlock]);
    assert_eq!(flush(&mut c, &mut sink, 0), WriteStatus::WouldBlock);
    assert_eq!(before, tags(&c), "frame order and identity preserved");
    assert_eq!(c.out_cursor(), 0);
    assert_eq!(c.out_bytes(), 30);
    assert_eq!(c.take_inflight_delta(), 30);

    let mut sink2 = CountingSink::accepting();
    assert_eq!(flush(&mut c, &mut sink2, 0), WriteStatus::Drained);
    assert_eq!(sink2.calls.len(), 1);
}

#[test]
fn writev_interrupted_retries_and_zero_write_closes() {
    let (mut c, _) = three();
    let mut sink = CountingSink::scripted(vec![BatchOutcome::Interrupted]);
    assert_eq!(flush(&mut c, &mut sink, 0), WriteStatus::Drained);
    assert_eq!(sink.calls.len(), 2, "EINTR then the retry");
    assert_eq!(sink.offered[0], sink.offered[1], "same batch both times");
    assert!(sink.calls[0].is_empty(), "EINTR consumed nothing");
    assert_eq!(sink.received().len(), 30);
    assert_eq!(c.out_bytes(), 0);

    let (mut c2, _) = three();
    let mut sink2 = CountingSink::scripted(vec![BatchOutcome::Wrote(0)]);
    assert_eq!(flush(&mut c2, &mut sink2, 0), WriteStatus::Closed);
    assert_eq!(c2.queued_len(), 3, "closed with the queue untouched");
    assert_eq!(c2.out_bytes(), 30);
    assert_eq!(c2.take_inflight_delta(), 30);
}

#[test]
fn writev_batch_respects_iov_max_slice_budget() {
    let mut c = Connection::new(1 << 20);
    for tag in 0..250u8 {
        for _ in 0..12 {
            c.queue(small(tag), 0);
        }
    }
    assert_eq!(c.queued_len(), 3000);

    let mut sink = CountingSink::accepting();
    assert_eq!(flush(&mut c, &mut sink, 0), WriteStatus::Drained);
    assert_eq!(
        sink.calls.len(),
        3,
        "3000 frames / 1024 iovecs = 3 syscalls"
    );
    assert_eq!(sink.slice_counts[0], 1024);
    assert_eq!(sink.slice_counts[1], 1024);
    assert_eq!(sink.slice_counts[2], 3000 - 2 * 1024);
    assert_eq!(c.out_bytes(), 0);
}

#[test]
fn writev_batch_respects_byte_budget() {
    let mut c = Connection::new(1 << 20);
    let mut expected = Vec::new();
    for tag in 1..=3u8 {
        let f = filled(tag, 100 * 1024);
        expected.extend_from_slice(&f[..]);
        c.queue(f, 0);
    }
    let mut sink = CountingSink::accepting();
    assert_eq!(flush(&mut c, &mut sink, 0), WriteStatus::Drained);
    assert_eq!(
        sink.slice_counts,
        vec![2, 1],
        "200 KiB then the leftover 100 KiB"
    );
    assert_eq!(sink.received(), expected);
    assert_eq!(c.out_bytes(), 0);
}

#[test]
fn writev_batching_preserves_codel_staleness_drops() {
    let mut c = overloaded();
    let now = 200_000_000u64;
    for tag in 90..=93u8 {
        c.queue(small(tag), now - 13_000_000);
    }
    let mut sink = CountingSink::accepting();
    assert_eq!(flush(&mut c, &mut sink, now), WriteStatus::Drained);
    assert_eq!(c.codel_dropped(), 3, "three stale frames dropped");
    assert_eq!(sink.calls.len(), 1);
    assert_eq!(sink.received(), vec![93u8; 10], "only the freshest sent");
    assert_eq!(c.out_bytes(), 0);
    assert_eq!(
        c.take_inflight_delta(),
        0,
        "+40 queued, −30 dropped, −10 sent"
    );
}

#[test]
fn codel_vetting_resumes_behind_mid_write_front() {
    let mut c = overloaded();
    let now = 200_000_000u64;
    c.queue(small(50), now - 1_000_000);
    let mut sink = CountingSink::scripted(vec![BatchOutcome::Wrote(5), BatchOutcome::WouldBlock]);
    assert_eq!(flush(&mut c, &mut sink, now), WriteStatus::WouldBlock);
    assert_eq!(c.out_cursor(), 5, "front is mid-write");
    assert_eq!(c.queued_len(), 1);

    for tag in [60u8, 61, 62] {
        c.queue(small(tag), now - 13_000_000);
    }
    let mut sink2 = CountingSink::accepting();
    assert_eq!(flush(&mut c, &mut sink2, now), WriteStatus::Drained);
    assert_eq!(
        c.codel_dropped(),
        2,
        "stale frames behind the mid-write front must drop on the resume"
    );
    let mut expected = vec![50u8; 5];
    expected.extend_from_slice(&[62u8; 10]);
    assert_eq!(
        sink2.received(),
        expected,
        "no stale byte may reach the wire"
    );
    assert_eq!(c.queued_len(), 0);
    assert_eq!(c.out_bytes(), 0);
    assert_eq!(
        c.take_inflight_delta(),
        0,
        "+40 queued, −10 front sent, −20 dropped, −10 freshest sent"
    );
}

#[test]
fn partial_write_advances_cursor_across_flushes() {
    let payload = vec![0xABu8; 4 * 1024 * 1024];
    let frame_bytes = text_frame(&payload);
    let total = frame_bytes.len();
    let mut conn = Connection::new(total + 1);
    assert_eq!(conn.queue(Arc::clone(&frame_bytes), 0), 0);

    // Each flush gets 64 KiB out before the socket blocks.
    let step = 64 * 1024;
    let blocked = || {
        CountingSink::scripted(vec![BatchOutcome::Wrote(step), BatchOutcome::WouldBlock])
    };
    let mut received = vec![];
    let mut sink = blocked();
    assert_eq!(flush(&mut conn, &mut sink, 0), WriteStatus::WouldBlock);
    received.extend(sink.received());
    assert!(conn.has_pending_writes());
    let cursor_after_first = conn.out_cursor();
    assert!(
        cursor_after_first > 0 && cursor_after_first < total,
        "expected a partial write, cursor = {cursor_after_first}"
    );
    let mut sink = blocked();
    assert_eq!(flush(&mut conn, &mut sink, 0), WriteStatus::WouldBlock);
    received.extend(sink.received());
    assert!(
        conn.out_cursor() > cursor_after_first,
        "cursor never advanced on a second flush"
    );
    let mut sink = CountingSink::accepting();
    assert_eq!(flush(&mut conn, &mut sink, 0), WriteStatus::Drained);
    received.extend(sink.received());

    assert!(!conn.has_pending_writes());
    assert_eq!(conn.out_bytes(), 0);
    assert_eq!(received.len(), total);
    let payload_start = total - payload.len();
    assert!(received[payload_start..] == payload[..]);
}

#[test]
fn queue_drops_oldest_when_over_cap_keeping_newest() {
    let mut c = Connection::new(100);
    let f = |n: u8| filled(n, 40);
    assert_eq!(c.queue(f(1), 0), 0);
    assert_eq!(c.queue(f(2), 0), 0);
    let dropped = c.queue(f(3), 0);
    assert_eq!(dropped, 1);
    assert_eq!(c.out_bytes(), 80);
    assert_eq!(c.queued_len(), 2);
    assert_eq!(c.peek_back_byte(), 3);
    assert_eq!(c.peek_front_byte(), 2);
}

#[test]
fn drop_head_never_evicts_the_partially_written_front() {
    let mut c = Connection::new(100);
    c.queue(filled(1, 4_000_000), 0);
    let mut sink = CountingSink::scripted(vec![
        BatchOutcome::Wrote(8 * 1024),
        BatchOutcome::WouldBlock,
    ]);
    let _ = flush(&mut c, &mut sink, 0);
    assert!(c.out_cursor() > 0);
    for n in 0..50u8 {
        let _ = c.queue(filled(n, 40), 0);
    }
    assert!(c.out_cursor() > 0, "front still mid-write");
    assert_eq!(tags(&c)[0], (1, 4_000_000), "the front is untouched");
}

#[test]
fn flush_many_frames_matches_sequential_writes() {
    let mut conn = Connection::new(1 << 20);
    let mut expected = Vec::new();
    for k in 0..200u8 {
        let f = text_frame(&[k; 16]);
        expected.extend_from_slice(&f);
        assert_eq!(conn.queue(f, 0), 0);
    }
    let mut sink = CountingSink::accepting();
    assert_eq!(flush(&mut conn, &mut sink, 0), WriteStatus::Drained);
    assert!(!conn.has_pending_writes());
    assert_eq!(conn.out_bytes(), 0);
    assert_eq!(sink.received(), expected);
}

#[test]
fn partial_writev_front_survives_drop_head_eviction() {
    let mut c = Connection::new(4_100_000);
    for i in 0..4096u32 {
        let tag = (i % 251) as u8 + 1;
        let _ = c.queue(filled(tag, 1000), 0);
    }
    assert!(c.out_bytes() > 3_000_000, "a real backlog must remain");

    // The socket takes eight frames and a bit of the ninth, then blocks.
    let mut sink =
        CountingSink::scripted(vec![BatchOutcome::Wrote(8192), BatchOutcome::WouldBlock]);
    assert_eq!(flush(&mut c, &mut sink, 0), WriteStatus::WouldBlock);
    let front = tags(&c)[0];
    assert!(c.out_cursor() > 0 && c.out_cursor() < front.1);

    for i in 0..500u32 {
        let tag = (i % 251) as u8 + 1;
        let _ = c.queue(filled(tag, 1000), 0);
    }
    assert!(c.out_cursor() > 0, "front still mid-write");
    assert_eq!(tags(&c)[0], front, "mid-write front never evicted");
    assert!(c.drophead_dropped() > 0, "evictions actually fired");

    let expected: Vec<u8> = (0..c.queued_len())
        .flat_map(|i| c.queued_frame(i).to_vec())
        .collect();
    let cursor = c.out_cursor();
    let mut rest = CountingSink::accepting();
    assert_eq!(flush(&mut c, &mut rest, 0), WriteStatus::Drained);
    assert!(rest.received() == expected[cursor..]);
    assert_eq!(c.out_bytes(), 0);
    assert!(!c.has_pending_writes());
}

#[test]
fn flush_tls_batches_frames_and_delivers_concatenation() {
    let mut conn = Connection::new(1 << 20);
    let mut expected = Vec::new();
    for tag in 0..30u8 {
        let f = small(tag);
        expected.extend_from_slice(&f[..]);
        assert_eq!(conn.queue(f, 0), 0);
    }
    // Nothing is pending from before; the batches go through; the last
    // ciphertext follows.
    let phase = TlsFlush::Before.on_ciphertext(CiphertextNext::Through);
    assert_eq!(phase, TlsFlush::Batches);
    let mut plaintext = vec![];
    let status = loop {
        if !conn.flush_gather(TLS_BATCH_MAX_BYTES, 0) {
            break WriteStatus::Drained;
        }
        let mut batch = vec![];
        conn.batch_bytes(&mut batch);
        // Room in the session, the batch into it, its ciphertext out.
        let mut step = TlsBatch::MakeRoom.step(IoEvent::Moved, 0, false);
        assert_eq!(step, TlsBatch::Encrypt);
        let taken = batch.len().min(25);
        step = step.step(IoEvent::Moved, taken, true);
        assert_eq!(step, TlsBatch::Send(taken));
        step = step.step(IoEvent::Moved, 0, false);
        let outcome = match step {
            TlsBatch::Done(outcome) => outcome,
            other => panic!("expected the end of the write, got {other:?}"),
        };
        assert_eq!(outcome, BatchOutcome::Wrote(taken));
        plaintext.extend_from_slice(&batch[..taken]);
        match conn.flush_apply(outcome) {
            FlushNext::Again => {}
            FlushNext::Done(status) => break status,
        }
    };
    assert_eq!(
        phase.on_batches(status, true).on_ciphertext(ciphertext_step(IoEvent::Moved, false)),
        TlsFlush::Done(WriteStatus::Drained)
    );
    assert_eq!(plaintext, expected, "decrypted stream == concatenation");
    assert!(!conn.has_pending_writes());
    assert_eq!(conn.out_bytes(), 0);
}

#[test]
fn inflight_delta_tracks_queue_flush_and_drop_head() {
    let mut c = Connection::new(100);
    let mut running: i64 = 0;

    assert_eq!(c.queue(filled(1, 40), 0), 0);
    assert_eq!(c.take_inflight_delta(), 40, "queue 40 → +40");
    running += 40;
    assert_eq!(running, c.out_bytes() as i64);

    assert_eq!(c.queue(filled(2, 40), 0), 0);
    running += c.take_inflight_delta();
    assert_eq!(running, c.out_bytes() as i64, "delta sum must track out_bytes");

    let dropped = c.queue(filled(3, 40), 0);
    assert_eq!(dropped, 1);
    assert_eq!(
        c.take_inflight_delta(),
        0,
        "drop-head: +40 added − 40 evicted = 0 net"
    );
    assert_eq!(running, c.out_bytes() as i64);

    let mut sink = CountingSink::accepting();
    assert_eq!(flush(&mut c, &mut sink, 0), WriteStatus::Drained);
    let after_flush = c.take_inflight_delta();
    assert_eq!(after_flush, -80, "flush drained 80 queued bytes → −80");
    running += after_flush;
    assert_eq!(running, 0, "sum of all deltas == final out_bytes (0)");
    assert_eq!(c.out_bytes(), 0);
}

#[test]
fn inflight_delta_tracks_codel_staleness_drop() {
    let mut c = Connection::new(1 << 20);
    c.set_codel(codel());
    let mut running: i64 = 0;
    for k in 0..=20u8 {
        let now = (k as u64 + 1) * 6_000_000;
        let enqueue = now - 6_000_000;
        c.queue(small(k), enqueue);
        let mut sink = CountingSink::accepting();
        assert_eq!(flush(&mut c, &mut sink, now), WriteStatus::Drained);
        running += c.take_inflight_delta();
        assert_eq!(running, c.out_bytes() as i64);
    }
    assert!(c.is_overloaded());

    let now = 200_000_000;
    c.queue(small(98), now - 13_000_000);
    c.queue(small(99), now - 12_000_000);
    running += c.take_inflight_delta();
    assert_eq!(running, c.out_bytes() as i64);
    let dropped_before = c.codel_dropped();
    let mut sink = CountingSink::accepting();
    assert_eq!(flush(&mut c, &mut sink, now), WriteStatus::Drained);
    assert_eq!(
        c.codel_dropped(),
        dropped_before + 1,
        "older stale frame dropped"
    );
    running += c.take_inflight_delta();
    assert_eq!(
        running,
        c.out_bytes() as i64,
        "delta tracks CoDel drop + send"
    );
    assert_eq!(c.out_bytes(), 0);
}

/// Flushes and notes the tag of each frame that went out.
fn flush_tags(c: &mut Connection, got: &mut Vec<u8>, now: u64) {
    let mut sink = CountingSink::accepting();
    assert_eq!(flush(c, &mut sink, now), WriteStatus::Drained);
    got.extend(sink.received().chunks(10).map(|f| f[0]));
}

#[test]
fn codel_sends_all_fresh_frames() {
    let mut c = Connection::new(1 << 20);
    c.set_codel(codel());
    let mut got = Vec::new();
    for k in 0..200u8 {
        let now = (k as u64) * 3_000_000;
        let enqueue = now.saturating_sub(1_000_000);
        assert_eq!(c.queue(small(k), enqueue), 0);
        flush_tags(&mut c, &mut got, now);
    }
    assert_eq!(c.codel_dropped(), 0, "no fresh frame should be dropped");
    assert_eq!(got.len(), 200, "every fresh frame was delivered");
    assert_eq!(got, (0..200u8).collect::<Vec<_>>());
}

#[test]
fn codel_drops_stale_when_overloaded_then_recovers() {
    let mut c = Connection::new(1 << 20);
    c.set_codel(codel());
    let mut got = Vec::new();
    for k in 0..=20u8 {
        let now = (k as u64 + 1) * 6_000_000;
        let enqueue = now - 6_000_000;
        assert_eq!(c.queue(small(k), enqueue), 0);
        flush_tags(&mut c, &mut got, now);
    }
    assert_eq!(c.codel_dropped(), 0);
    assert_eq!(got.len(), 21);
    assert!(c.is_overloaded(), "interval min 6 ms > target ⇒ overloaded");

    let now = 200_000_000;
    let before_dropped = c.codel_dropped();
    let before_got = got.len();
    c.queue(small(98), now - 13_000_000);
    c.queue(small(99), now - 12_000_000);
    assert_eq!(c.out_bytes(), 20);
    flush_tags(&mut c, &mut got, now);
    assert_eq!(
        c.codel_dropped(),
        before_dropped + 1,
        "older stale frame dropped"
    );
    assert_eq!(
        c.out_bytes(),
        0,
        "queue fully drained (one dropped, one sent)"
    );
    assert_eq!(
        got.len(),
        before_got + 1,
        "the freshest frame still reached peer"
    );
    assert_eq!(
        *got.last().unwrap(),
        99,
        "freshest-wins: newest frame delivered"
    );

    let base = 300_000_000u64;
    for k in 0..=30u8 {
        let now = base + (k as u64) * 5_000_000;
        let enqueue = now - 1_000_000;
        c.queue(small(100 + k), enqueue);
        flush_tags(&mut c, &mut got, now);
    }
    assert!(!c.is_overloaded(), "interval min 1 ms ≤ target ⇒ recovered");
    let recovered_sent = got.len();
    assert_eq!(
        c.codel_dropped(),
        before_dropped + 1,
        "no new drops once fresh"
    );

    let now = 500_000_000;
    c.queue(small(200), now - 12_000_000);
    flush_tags(&mut c, &mut got, now);
    assert_eq!(c.codel_dropped(), before_dropped + 1, "recovered ⇒ no drop");
    assert_eq!(got.len(), recovered_sent + 1, "the once-stale frame flowed");
    assert_eq!(*got.last().unwrap(), 200);
}

#[test]
fn codel_disabled_sends_even_stale_frames() {
    let mut c = Connection::new(1 << 20);
    let mut got = Vec::new();
    c.queue(small(7), 0);
    flush_tags(&mut c, &mut got, 1_000_000_000);
    assert_eq!(c.codel_dropped(), 0);
    assert_eq!(got, vec![7]);
}

/// The masked frame with "Hello" from RFC 6455.
const HELLO: [u8; 11] = [
    0x81, 0x85, 0x37, 0xfa, 0x21, 0x3d, 0x7f, 0x9f, 0x4d, 0x51, 0x58,
];

/// Reads a plain socket that has the given chunks and then nothing, or its end.
fn read(scratch: &mut Buffer, chunks: &[&[u8]], end: bool) -> Result<Vec<Frame>, ConnError> {
    let mut pump = ReadPump::new(ReadFor::Frames, false);
    for chunk in chunks {
        assert_eq!(pump.phase, ReadPhase::Socket);
        pump.step(scratch, IoEvent::Moved, chunk, false);
    }
    let last = if end { IoEvent::Eof } else { IoEvent::WouldBlock };
    pump.step(scratch, last, &[], false);
    pump.read_frames(scratch, 1 << 20)
}

#[test]
fn read_frames_parses_masked_hello() {
    let mut scratch = Buffer::new();
    let frames = read(&mut scratch, &[&HELLO], false).unwrap();
    assert_eq!(frames.len(), 1);
    assert_eq!(frames[0].opcode, OpCode::Text);
    assert_eq!(&frames[0].payload[..], b"Hello");
}

#[test]
fn read_frames_keeps_incomplete_remainder() {
    let mut scratch = Buffer::new();
    let frames = read(&mut scratch, &[&HELLO[..3]], false).unwrap();
    assert!(frames.is_empty(), "no frame from a partial header");
    assert_eq!(scratch.len(), 3, "remainder kept for next read");

    let frames = read(&mut scratch, &[&HELLO[3..]], false).unwrap();
    assert_eq!(frames.len(), 1);
    assert_eq!(&frames[0].payload[..], b"Hello");
    assert!(scratch.is_empty(), "buffer fully consumed");
}

#[test]
fn read_frames_eof_with_empty_scratch_is_closed() {
    let mut scratch = Buffer::new();
    assert!(matches!(
        read(&mut scratch, &[], true),
        Err(ConnError::Closed)
    ));
}

#[test]
fn frames_before_the_end_of_the_stream_still_count() {
    let mut scratch = Buffer::new();
    let frames = read(&mut scratch, &[&HELLO], true).unwrap();
    assert_eq!(frames.len(), 1);
}

#[test]
fn a_protocol_violation_is_reported() {
    let mut scratch = Buffer::new();
    // An unmasked frame from a client.
    assert!(matches!(
        read(&mut scratch, &[&[0x81, 0x01, b'x']], false),
        Err(ConnError::Protocol(_))
    ));
}

#[test]
fn drain_head_bytes_signals_needs_write_when_flight_blocks() {
    let mut buf = Buffer::new();
    let mut pump = ReadPump::new(ReadFor::Head, true);
    // The hello comes in, the flight goes out and blocks.
    assert_eq!(pump.phase, ReadPhase::TlsIn);
    pump.step(&mut buf, IoEvent::Moved, &[], true);
    pump.step(&mut buf, IoEvent::WouldBlock, &[], true);
    assert_eq!(pump.phase, ReadPhase::TlsOut);
    pump.step(&mut buf, IoEvent::WouldBlock, &[], true);
    assert_eq!(pump.phase, ReadPhase::Plaintext);
    pump.step(&mut buf, IoEvent::WouldBlock, &[], true);
    assert_eq!(pump.phase, ReadPhase::End);
    assert_eq!(pump.head_status(), DrainStatus::NeedsWrite);

    // Once the peer reads, the flight completes.
    let mut pump = ReadPump::new(ReadFor::Head, true);
    pump.step(&mut buf, IoEvent::WouldBlock, &[], true);
    pump.step(&mut buf, IoEvent::Moved, &[], true);
    assert_eq!(pump.phase, ReadPhase::TlsOut);
    pump.step(&mut buf, IoEvent::Moved, &[], false);
    pump.step(&mut buf, IoEvent::WouldBlock, &[], false);
    assert_eq!(pump.head_status(), DrainStatus::Drained);
}

#[test]
fn the_end_of_the_stream_ends_a_head() {
    let mut buf = Buffer::new();
    let mut pump = ReadPump::new(ReadFor::Head, false);
    pump.step(&mut buf, IoEvent::Moved, b"GET ", false);
    pump.step(&mut buf, IoEvent::Eof, &[], false);
    assert_eq!(pump.head_status(), DrainStatus::Closed);
}

#[test]
fn restoring_a_batch_puts_it_in_front() {
    let mut out: VecDeque<OutFrame> = VecDeque::new();
    out.push_back((small(3), 0));
    let mut batch: Vec<OutFrame> = vec![(small(1), 0), (small(2), 0)];
    restore_batch(&mut out, &mut batch);
    assert!(batch.is_empty());
    let order: Vec<u8> = out.iter().map(|f| f.0[0]).collect();
    assert_eq!(order, vec![1, 2, 3]);
}

#[test]
fn the_two_changes_add_up_to_what_is_held_and_owed() {
    let mut c = Connection::new(1 << 20);
    c.queue(small(1), 0);
    c.set_reassembly_bytes(7);
    c.set_frame_buffer_bytes(5);
    assert_eq!(c.accounted_bytes(), 22);
    assert_eq!(c.outbound_bytes(), 10);
    assert_eq!(c.take_inflight_delta(), 22);
    assert_eq!(c.take_outbound_delta(), 10);
    c.set_reassembly_bytes(0);
    assert_eq!(c.take_inflight_delta(), -7);
    assert_eq!(c.take_outbound_delta(), 0);
}

#[test]
fn what_the_tls_session_holds_is_still_owed() {
    let mut c = Connection::new(1 << 20);
    c.queue(small(1), 0);
    assert!(c.flush_gather(TLS_BATCH_MAX_BYTES, 1));
    assert_eq!(
        c.flush_apply_tls(BatchOutcome::WouldBlock, true),
        FlushNext::Done(WriteStatus::WouldBlock)
    );
    assert_eq!((c.out_bytes(), c.tls_unflushed()), (10, 0));
    assert!(c.flush_gather(TLS_BATCH_MAX_BYTES, 1));
    assert_eq!(
        c.flush_apply_tls(BatchOutcome::Wrote(10), true),
        FlushNext::Again
    );
    assert!(!c.has_pending_writes());
    assert!(c.owes());
    assert_eq!(c.out_bytes(), 0);
    assert_eq!(c.tls_unflushed(), 10);
    assert_eq!(c.outbound_bytes(), 10);
    assert_eq!(c.accounted_bytes(), 10);
    assert_eq!(c.take_outbound_delta(), 10);
    assert_eq!(c.take_inflight_delta(), 10);
    c.note_tls(5, true);
    assert_eq!(c.outbound_bytes(), 15);
    c.note_tls(0, true);
    assert_eq!(c.take_outbound_delta(), 5);
    c.note_tls(0, false);
    assert!(!c.owes());
    assert_eq!(c.outbound_bytes(), 0);
    assert_eq!(c.take_outbound_delta(), -15);
    assert_eq!(c.take_inflight_delta(), -10);
}

#[test]
fn the_standard_freshness_parameters() {
    let p = CodelParams::standard();
    assert_eq!((p.target_ns, p.interval_ns), (5_000_000, 100_000_000));
    assert!(p.enabled());
    assert!(!CodelParams::disabled().enabled());
}
