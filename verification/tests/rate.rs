//! The token bucket of a connection. Times are in nanoseconds.
use pylon::ws::rate::RateWindow;

#[test]
fn allows_up_to_limit_then_rejects_the_immediate_fourth() {
    let base: u64 = 5_000_000_000;
    let mut w = RateWindow::new(3);
    assert!(w.check_at(base));
    assert!(w.check_at(base));
    assert!(w.check_at(base));
    assert!(
        !w.check_at(base),
        "4th event in the same instant is rejected"
    );
    assert!(
        !w.check_at(base + ms(200)),
        "+200ms refills only 0.6 of a token — still rejected"
    );
}

#[test]
fn window_resets_after_one_second() {
    let base: u64 = 5_000_000_000;
    let mut w = RateWindow::new(2);
    assert!(w.check_at(base));
    assert!(w.check_at(base));
    assert!(!w.check_at(base));
    // One full second later → fresh window.
    let later = base + secs(1);
    assert!(w.check_at(later));
    assert!(w.check_at(later));
    assert!(!w.check_at(later));
}

#[test]
fn zero_limit_is_unlimited() {
    let base: u64 = 5_000_000_000;
    let mut w = RateWindow::new(0);
    for _ in 0..1000 {
        assert!(w.check_at(base));
    }
}

fn secs(n: u64) -> u64 {
    n * 1_000_000_000
}

fn ms(n: u64) -> u64 {
    n * 1_000_000
}

#[test]
fn ten_at_0_999_plus_one_at_1_001_rejects_the_eleventh() {
    let base: u64 = 5_000_000_000;
    let mut w = RateWindow::new(10);
    for _ in 0..10 {
        assert!(w.check_at(base + ms(999)), "first 10 at t=0.999 allowed");
    }
    assert!(
        !w.check_at(base + ms(1001)),
        "11th event 2ms after a full burst must be rejected"
    );
}

#[test]
fn window_edge_double_burst_is_capped_at_one_refilled_token() {
    let base: u64 = 5_000_000_000;
    let mut w = RateWindow::new(10);
    assert!(w.check_at(base), "anchor event at t=0.000");
    for _ in 0..9 {
        assert!(
            w.check_at(base + ms(999)),
            "9 more at t=0.999 fill the budget"
        );
    }
    // Second burst 2ms later, on the other side of the 1s edge.
    let mut allowed = 0;
    for _ in 0..10 {
        if w.check_at(base + ms(1001)) {
            allowed += 1;
        }
    }
    assert_eq!(
        allowed, 1,
        "only the single token refilled in 2ms may cross the window edge"
    );
}

#[test]
fn sustained_ten_per_second_for_five_virtual_seconds_all_pass() {
    let base: u64 = 5_000_000_000;
    let mut w = RateWindow::new(10);
    for i in 0..50u64 {
        let t = base + ms(i * 100);
        assert!(
            w.check_at(t),
            "event {} at t={}ms must pass",
            i + 1,
            i * 100
        );
    }
}

#[test]
fn idle_one_second_restores_full_burst() {
    let base: u64 = 5_000_000_000;
    let mut w = RateWindow::new(10);
    for _ in 0..10 {
        assert!(w.check_at(base));
    }
    assert!(!w.check_at(base), "11th at t=0 rejected");
    let later = base + secs(1);
    for _ in 0..10 {
        assert!(w.check_at(later), "full burst allowed after 1s idle");
    }
    assert!(!w.check_at(later), "11th at t=1 rejected again");
}

#[test]
fn partial_refill_half_second_refills_exactly_five_tokens() {
    let base: u64 = 5_000_000_000;
    let mut w = RateWindow::new(10);
    for _ in 0..10 {
        assert!(w.check_at(base));
    }
    let half = base + ms(500);
    for _ in 0..5 {
        assert!(w.check_at(half), "5 refilled tokens spendable at t=0.5");
    }
    assert!(
        !w.check_at(half),
        "6th event at t=0.5 rejected: exactly 5 tokens refilled, not 6"
    );
}

#[test]
fn fractional_refill_rejects_at_50ms_allows_at_exactly_100ms() {
    let base: u64 = 5_000_000_000;
    let mut w = RateWindow::new(10);
    for _ in 0..10 {
        assert!(w.check_at(base));
    }
    assert!(
        !w.check_at(base + ms(50)),
        "0.5 tokens refilled is not enough for one event"
    );
    assert!(
        w.check_at(base + ms(100)),
        "exactly 1.0 token refilled at t=0.1 must be spendable"
    );
}

#[test]
fn exactly_one_second_boundary_refills_the_bucket_completely() {
    let base: u64 = 5_000_000_000;
    let mut w = RateWindow::new(10);
    for _ in 0..10 {
        assert!(w.check_at(base));
    }
    assert!(
        w.check_at(base + secs(1)),
        "t=1.000 boundary falls on the ALLOW side: 1.000s × 10/s = 10.0 tokens"
    );
    // Just inside the boundary the bucket is also fully refilled.
    assert!(
        w.check_at(base + secs(1) + ms(999)),
        "0.999s more of refill keeps events flowing"
    );
}

#[test]
fn burst_cap_never_exceeds_ten_no_matter_how_long_the_idle() {
    let base: u64 = 5_000_000_000;
    let mut w = RateWindow::new(10);
    for _ in 0..10 {
        assert!(w.check_at(base));
    }
    let much_later = base + secs(60);
    for _ in 0..10 {
        assert!(w.check_at(much_later), "10 events after long idle ok");
    }
    assert!(
        !w.check_at(much_later),
        "capacity is capped at 10; idle cannot buy an 11th burst event"
    );
}

#[test]
fn first_event_at_large_t_initializes_a_full_bucket() {
    let base: u64 = 5_000_000_000;
    let mut w = RateWindow::new(10);
    let late = base + secs(3600);
    for _ in 0..10 {
        assert!(w.check_at(late), "first 10 events at t=3600s allowed");
    }
    assert!(!w.check_at(late), "11th at t=3600s rejected");
}

#[test]
fn sustained_ten_per_second_does_not_drift_over_100_virtual_seconds() {
    let base: u64 = 5_000_000_000;
    let mut w = RateWindow::new(10);
    for i in 0..1000u64 {
        let t = base + ms(i * 100);
        assert!(
            w.check_at(t),
            "event {} at t={}ms must pass",
            i + 1,
            i * 100
        );
    }
    // The 1000th event left ~9 tokens; drain exactly 9 more, then the
    // next must fail. A fractional accumulator that leaks even 1e-9 per
    // step would have lost ~1e-6 — still 9 spendable — so also assert
    // the drain rejects at exactly the 10th extra event.
    let end = base + ms(1000 * 100 - 100);
    for i in 0..9u64 {
        assert!(
            w.check_at(end + ms(i)),
            "drain event {} at the last virtual instant",
            i + 1
        );
    }
    assert!(
        !w.check_at(end + ms(9)),
        "bucket must hold exactly ~9 tokens after sustained 10/s, no drift"
    );
}

#[test]
fn time_that_runs_backwards_refills_nothing() {
    let mut w = RateWindow::new(1);
    assert!(w.check_at(secs(10)));
    assert!(!w.check_at(secs(5)));
    assert!(!w.check_at(secs(5)));
}

#[test]
fn the_real_clock_lets_the_burst_through() {
    let mut w = RateWindow::new(3);
    assert!(w.check());
    assert!(w.check());
    assert!(w.check());
}
