//! The timer wheel.
use pylon::transport::timer::{Due, TimerWheel};

#[test]
fn wheel_fires_idle_then_pong_timeout() {
    let mut w = TimerWheel::new();
    w.touch(7, 0);
    assert!(w.due(119_000).is_empty());
    assert_eq!(w.due(120_000), vec![Due::Ping(7)]);
    w.mark_ping_sent(7, 120_000);
    assert_eq!(w.due(151_000), vec![Due::Close4201(7)]);
    // A pong before the deadline cancels the close.
    let mut w2 = TimerWheel::new();
    w2.touch(9, 0);
    w2.due(120_000);
    w2.mark_ping_sent(9, 120_000);
    w2.touch(9, 140_000);
    assert!(w2.due(151_000).is_empty());
}

#[test]
fn remove_cancels_pending_timer() {
    let mut w = TimerWheel::new();
    w.touch(3, 0);
    w.remove(3);
    assert!(w.due(200_000).is_empty());
}

#[test]
fn active_connection_is_never_pinged_early() {
    let mut w = TimerWheel::new();
    for t in (0..600_000).step_by(10_000) {
        w.touch(1, t);
        assert!(w.due(t).is_empty(), "active conn pinged at t={t}");
    }
    assert_eq!(w.due(590_000 + 120_000), vec![Due::Ping(1)]);
}

#[test]
fn due_is_ordered_and_handles_multiple_conns() {
    let mut w = TimerWheel::with_timeouts(120, 30);
    w.touch(1, 0);
    w.touch(2, 1_000);
    w.touch(3, 2_000);
    let due = w.due(121_000);
    assert_eq!(due, vec![Due::Ping(1), Due::Ping(2)]);
    assert_eq!(w.due(122_000), vec![Due::Ping(3)]);
}

#[test]
fn lifetime_fires_at_absolute_deadline_despite_constant_activity() {
    let mut w = TimerWheel::new();
    w.touch(7, 0);
    w.arm_lifetime(7, 5_000);
    for t in (0..5_000).step_by(500) {
        w.touch(7, t);
    }
    assert!(w.due(4_999).is_empty(), "lifetime must not fire early");
    assert_eq!(w.due(5_000), vec![Due::Close4202(7)]);
}

#[test]
fn lifetime_coexists_with_the_liveness_timers() {
    let mut w = TimerWheel::new();
    w.touch(3, 0);
    w.arm_lifetime(3, 130_000);
    assert_eq!(w.due(120_000), vec![Due::Ping(3)]);
    w.mark_ping_sent(3, 120_000);
    assert_eq!(w.due(130_000), vec![Due::Close4202(3)]);
    w.remove(3);
    assert!(w.due(200_000).is_empty());
}

#[test]
fn remove_cancels_armed_lifetime() {
    let mut w = TimerWheel::new();
    w.arm_lifetime(5, 1_000);
    w.remove(5);
    assert!(w.due(2_000).is_empty());
}

#[test]
fn unresponded_ping_still_closes_4201_alongside_a_later_lifetime() {
    let mut w = TimerWheel::new();
    w.touch(9, 0);
    w.arm_lifetime(9, 86_400_000);
    assert_eq!(w.due(120_000), vec![Due::Ping(9)]);
    w.mark_ping_sent(9, 120_000);
    assert_eq!(w.due(151_000), vec![Due::Close4201(9)]);
    w.remove(9);
    assert!(
        w.due(86_400_000).is_empty(),
        "removed conn's lifetime must not fire"
    );
}

#[test]
fn the_handshake_deadline_ignores_activity_and_can_be_cleared() {
    let mut w = TimerWheel::new();
    w.arm_handshake(4, 10_000);
    w.touch(4, 9_999);
    assert!(w.due(9_999).is_empty());
    assert_eq!(w.due(10_000), vec![Due::HandshakeTimeout(4)]);
    let mut w2 = TimerWheel::new();
    w2.arm_handshake(4, 10_000);
    w2.clear_handshake(4);
    assert!(w2.due(10_000).is_empty());
}

#[test]
fn dropping_the_idle_timer_keeps_the_absolute_deadlines() {
    let mut w = TimerWheel::with_timeouts(1, 1);
    w.touch(2, 0);
    w.arm_handshake(2, 5_000);
    w.clear_liveness(2);
    assert!(w.due(4_000).is_empty());
    assert_eq!(w.due(5_000), vec![Due::HandshakeTimeout(2)]);
}

#[test]
fn a_deadline_at_the_end_of_time_does_not_wrap() {
    let mut w = TimerWheel::with_timeouts(u32::MAX, 30);
    w.touch(1, u64::MAX);
    assert!(w.due(u64::MAX - 1).is_empty());
    assert_eq!(w.due(u64::MAX), vec![Due::Ping(1)]);
}

#[test]
fn activity_twice_in_a_millisecond_pings_once() {
    let mut w = TimerWheel::new();
    w.touch(7, 0);
    w.touch(7, 0);
    assert_eq!(w.due(120_000), vec![Due::Ping(7)]);
    assert!(w.due(u64::MAX).is_empty());
}

#[test]
fn a_pong_deadline_armed_twice_closes_once() {
    let mut w = TimerWheel::new();
    w.touch(3, 0);
    w.mark_ping_sent(3, 120_000);
    w.mark_ping_sent(3, 120_000);
    assert_eq!(w.due(150_000), vec![Due::Close4201(3)]);
}

#[test]
fn a_reused_identifier_gets_each_absolute_deadline_once() {
    let mut w = TimerWheel::new();
    w.arm_lifetime(5, 60_000);
    w.arm_handshake(5, 10_000);
    w.remove(5);
    w.arm_lifetime(5, 60_000);
    w.arm_handshake(5, 10_000);
    assert_eq!(w.due(10_000), vec![Due::HandshakeTimeout(5)]);
    assert_eq!(w.due(60_000), vec![Due::Close4202(5)]);
    assert!(w.due(u64::MAX).is_empty());
}

#[test]
fn equal_deadlines_of_other_connections_and_kinds_all_fire() {
    let mut w = TimerWheel::with_timeouts(60, 60);
    w.touch(1, 0);
    w.touch(2, 0);
    w.arm_lifetime(1, 60_000);
    w.touch(1, 0);
    w.arm_handshake(2, 60_000);
    assert_eq!(
        w.due(60_000),
        vec![
            Due::Ping(1),
            Due::Ping(2),
            Due::Close4202(1),
            Due::HandshakeTimeout(2)
        ]
    );
}

#[test]
fn a_history_gives_out_what_is_pending() {
    let mut w = TimerWheel::new();
    w.touch(1, 0);
    w.touch(2, 0);
    w.arm_lifetime(1, 130_000);
    assert_eq!(w.due(120_000), vec![Due::Ping(1), Due::Ping(2)]);
    // Given out: it does not come again.
    assert!(w.due(121_000).is_empty());
    w.mark_ping_sent(1, 121_000);
    w.mark_ping_sent(2, 121_000);
    w.touch(2, 122_000);
    w.remove(1);
    w.touch(1, 123_000);
    // The lifetime and the pong deadline of 1 went with the removal.
    assert!(w.due(241_999).is_empty());
    assert_eq!(w.due(243_000), vec![Due::Ping(2), Due::Ping(1)]);
}

#[test]
fn a_lifetime_fires_once_whatever_the_activity() {
    let mut w = TimerWheel::new();
    w.arm_lifetime(4, 300_000);
    w.touch(4, 0);
    assert_eq!(w.due(120_000), vec![Due::Ping(4)]);
    w.mark_ping_sent(4, 120_000);
    w.touch(4, 140_000);
    assert_eq!(w.due(299_999), vec![Due::Ping(4)]);
    w.touch(4, 299_999);
    assert_eq!(w.due(300_000), vec![Due::Close4202(4)]);
    assert!(w.due(300_001).is_empty());
    assert_eq!(w.due(u64::MAX), vec![Due::Ping(4)]);
}

#[test]
fn what_is_later_stays_whatever_came_before_it() {
    let mut w = TimerWheel::with_timeouts(60, 30);
    for conn in 0..50usize {
        w.touch(conn, ((conn * 7) % 50) as u64);
    }
    let first = w.due(60_009);
    let order: Vec<Due> = (0..10u64)
        .map(|at| Due::Ping((0..50usize).find(|c| (c * 7) % 50 == at as usize).unwrap()))
        .collect();
    assert_eq!(first, order);
    assert_eq!(w.due(60_049).len(), 40);
    assert!(w.due(u64::MAX).is_empty());
}
