//! Signed deliveries and their retries.
use pylon::json::Json;
use pylon::webhook::target::{IpAddr, Ipv4, Preflight, SsrfGuard};
use pylon::webhook::transport::{
    build_signed_delivery, hmac_sha256_hex, to_hex, DeliveryRun, NextStep, Phase,
    RecordingTransport, RetryPolicy, WebhookDelivery, WebhookTransport,
};
use pylon::webhook::WebhookMetrics;

fn events() -> Vec<Json> {
    vec![Json::Object(vec![
        ("name".into(), Json::Text("channel_occupied".into())),
        ("channel".into(), Json::Text("ch".into())),
    ])]
}

fn header<'a>(d: &'a WebhookDelivery, name: &str) -> Option<&'a str> {
    d.headers
        .iter()
        .find(|h| h.0 == name)
        .map(|h| h.1.as_str())
}

fn policy(base: u64, cap: u64, budget: u64) -> RetryPolicy {
    RetryPolicy {
        backoff_base_ms: base,
        backoff_cap_ms: cap,
        retry_budget_ms: budget,
    }
}

/// Runs a delivery whose attempts take no time, each answered by `respond`
/// with the number of the attempt. Gives the times of the attempts, and the
/// outcome with its time.
fn run_delivery(
    p: RetryPolicy,
    respond: impl Fn(usize) -> Option<u16>,
) -> (Vec<u64>, bool, u64) {
    let mut run = DeliveryRun::new(p);
    let mut now: u64 = 0;
    let mut times = Vec::new();
    let mut step = run.on_checked(true);
    loop {
        match step {
            NextStep::Acquire => step = run.on_permit(true),
            NextStep::Post => {
                assert!(run.phase == Phase::Posting);
                times.push(now);
                step = run.on_attempt(respond(times.len() - 1), now);
            }
            NextStep::Sleep(ms) => {
                now += ms;
                step = run.on_wake();
            }
            NextStep::Settled(ok) => return (times, ok, now),
        }
    }
}

fn gaps(times: &[u64]) -> Vec<u64> {
    times.windows(2).map(|w| w[1] - w[0]).collect()
}

#[test]
fn signature_is_hmac_of_raw_body_kat() {
    let d = build_signed_delivery(
        "https://e.test/wh",
        "app-key",
        "app-secret",
        1700000000000,
        &events(),
        &vec![],
    );
    assert_eq!(
        d.body,
        r#"{"events":[{"channel":"ch","name":"channel_occupied"}],"time_ms":1700000000000}"#
    );
    assert_eq!(
        header(&d, "X-Pusher-Signature").unwrap(),
        hmac_sha256_hex("app-secret", &d.body)
    );
    assert_eq!(
        header(&d, "X-Pusher-Signature").unwrap().len(),
        64,
        "hex sha256 is 64 chars"
    );
    assert_eq!(
        header(&d, "X-Pusher-Signature").unwrap(),
        "299e77592cc51f075109ea0e139a03f2958cde78160e732b0570a0fe5ba04a76"
    );
}

#[test]
fn the_signature_agrees_with_the_published_test_vectors() {
    // RFC 4231, cases 1 and 2; the first key is twenty bytes of 0x0b.
    assert_eq!(
        hmac_sha256_hex(&"\u{b}".repeat(20), "Hi There"),
        "b0344c61d8db38535ca8afceaf0bf12b881dc200c9833da726e9376c2e32cff7"
    );
    assert_eq!(
        hmac_sha256_hex("Jefe", "what do ya want for nothing?"),
        "5bdcc146bf60754e6a042426089575c75a003f089d2739839dec58b964ec3843"
    );
}

#[test]
fn bytes_are_written_in_lower_case_hexadecimal() {
    assert_eq!(to_hex(&vec![0x00, 0x0f, 0xa9, 0xff]), "000fa9ff");
}

#[test]
fn exact_three_pusher_headers_present() {
    let d = build_signed_delivery(
        "https://e.test/wh",
        "the-key",
        "the-secret",
        1,
        &events(),
        &vec![],
    );
    assert_eq!(header(&d, "Content-Type"), Some("application/json"));
    assert_eq!(header(&d, "X-Pusher-Key"), Some("the-key"));
    assert!(header(&d, "X-Pusher-Signature").is_some());
    assert_eq!(d.headers.len(), 3);
}

#[test]
fn recording_transport_records_each_delivery() {
    let mut t = RecordingTransport::new();
    let d = build_signed_delivery("https://e.test/wh", "k", "s", 1, &events(), &vec![]);
    t.deliver(d.clone());
    let recorded = t.recorded();
    assert_eq!(recorded.len(), 1);
    assert_eq!(recorded[0], d);
}

#[test]
fn custom_headers_merge_but_cannot_override_pusher_headers() {
    let custom = vec![
        ("X-Custom".to_string(), "yes".to_string()),
        ("Content-Type".to_string(), "text/plain".to_string()),
        ("X-Pusher-Key".to_string(), "attacker".to_string()),
        ("X-Pusher-Signature".to_string(), "forged".to_string()),
    ];
    let d = build_signed_delivery(
        "https://e.test/wh",
        "real-key",
        "real-secret",
        5,
        &events(),
        &custom,
    );
    assert_eq!(header(&d, "X-Custom"), Some("yes"), "custom header merged");
    assert_eq!(header(&d, "Content-Type"), Some("application/json"));
    assert_eq!(header(&d, "X-Pusher-Key"), Some("real-key"));
    assert_ne!(header(&d, "X-Pusher-Signature"), Some("forged"));
    assert_eq!(
        header(&d, "X-Pusher-Signature").unwrap(),
        hmac_sha256_hex("real-secret", &d.body)
    );
    let names: Vec<&str> = d.headers.iter().map(|h| h.0.as_str()).collect();
    assert_eq!(
        names,
        vec!["Content-Type", "X-Custom", "X-Pusher-Key", "X-Pusher-Signature"],
        "each name once, in order"
    );
}

#[test]
fn retry_budget_is_five_minutes_of_exponential_backoff() {
    let (times, ok, end) = run_delivery(policy(1000, 60_000, 300_000), |_| Some(500));
    assert_eq!(times.len(), 11, "11 attempts total");
    assert!(!ok);
    assert_eq!(
        gaps(&times),
        vec![1000, 2000, 4000, 8000, 16000, 32000, 60000, 60000, 60000, 57_000],
        "1s doubling, capped at 60s, final sleep clamped to the budget"
    );
    assert_eq!(end, 300_000);
}

#[test]
fn still_retrying_just_inside_the_budget() {
    let mut run = DeliveryRun::new(policy(1000, 60_000, 300_000));
    run.on_checked(true);
    let mut now: u64 = 0;
    for gap in [1000u64, 2000, 4000, 8000, 16000, 32000, 60000, 60000, 60000] {
        assert_eq!(run.on_permit(true), NextStep::Post);
        assert_eq!(run.on_attempt(Some(500), now), NextStep::Sleep(gap));
        now += gap;
        run.on_wake();
    }
    assert_eq!(now, 243_000, "attempt 10 at t=243s");
    assert_eq!(run.on_permit(true), NextStep::Post);
    assert!(
        matches!(run.on_attempt(Some(500), now), NextStep::Sleep(_)),
        "no give-up before the budget elapses"
    );
}

#[test]
fn permit_released_during_backoff_lets_other_deliveries_proceed() {
    // One permit for two deliveries.
    let mut permits = 1;
    let p = policy(100, 200, 400);
    let mut dead = DeliveryRun::new(p);
    dead.on_checked(true);
    permits -= 1;
    assert_eq!(dead.on_permit(true), NextStep::Post);
    let step = dead.on_attempt(Some(500), 0);
    assert_eq!(step, NextStep::Sleep(100));
    assert!(dead.phase == Phase::Backoff, "no permit is held now");
    permits += 1;
    // The other delivery goes out meanwhile.
    let mut healthy = DeliveryRun::new(p);
    healthy.on_checked(true);
    assert_eq!(permits, 1);
    assert_eq!(healthy.on_permit(true), NextStep::Post);
    assert_eq!(healthy.on_attempt(Some(200), 0), NextStep::Settled(true));
    // The first one goes on to the end of its budget.
    let (times, ok, _) = run_delivery(p, |_| Some(500));
    assert_eq!(times, vec![0, 100, 300, 400], "4 attempts");
    assert!(!ok);
}

#[test]
fn first_delay_is_clamped_to_cap() {
    let (times, _, _) = run_delivery(policy(5000, 100, 10_000), |_| Some(500));
    assert_eq!(times[1] - times[0], 100, "first delay clamped to cap");
    let (times, _, _) = run_delivery(policy(50, 0, 10_000), |_| Some(500));
    assert_eq!(times[1] - times[0], 1, "cap=0 floored to 1ms");
}

#[test]
fn non_2xx_404_is_retried() {
    let (times, ok, _) = run_delivery(policy(50, 100, 300), |_| Some(404));
    assert!(times.len() > 1, "404 must be retried, got {} attempts", times.len());
    assert!(!ok);
}

#[test]
fn success_is_exactly_one_attempt() {
    let (times, ok, _) = run_delivery(policy(1000, 60_000, 300_000), |_| Some(200));
    assert_eq!(times.len(), 1, "no retries after 2xx");
    assert!(ok);
}

#[test]
fn transport_errors_are_retried() {
    let (times, ok, _) = run_delivery(policy(10, 20, 50), |_| None);
    assert!(times.len() > 1, "transport errors must be retried");
    assert!(!ok);
}

#[test]
fn http_transport_retries_on_503_then_succeeds() {
    let (times, ok, _) = run_delivery(policy(1, 10, 5_000), |n| if n < 2 { Some(503) } else { Some(200) });
    assert_eq!(times.len(), 3, "two retries then success");
    let mut m = WebhookMetrics::new(64);
    m.settle(ok);
    assert_eq!(m.delivered_ok, 1, "one ok");
    assert_eq!(m.delivered_failed, 0, "no failed");
}

#[test]
fn http_transport_retries_on_404() {
    let (times, ok, _) = run_delivery(policy(1, 10, 100), |_| Some(404));
    assert!(times.len() > 1, "non-2xx must be retried");
    let mut m = WebhookMetrics::new(64);
    m.settle(ok);
    assert_eq!(m.delivered_ok, 0, "no ok");
    assert_eq!(m.delivered_failed, 1, "one failed after budget exhaustion");
}

/// Checks the target, and runs the delivery only if it may be sent. Gives the
/// number of attempts and the counters.
fn guarded(url: &str, ips: &[IpAddr], allow_private: bool) -> (usize, WebhookMetrics) {
    let guard = SsrfGuard { allow_private };
    let allowed = match guard.check(url) {
        Preflight::Allowed => true,
        Preflight::Refused(_) => false,
        Preflight::Resolve { host, port } => guard.pin(host, port, &ips.to_vec()).is_ok(),
    };
    let mut run = DeliveryRun::new(policy(100, 1_000, 10_000));
    let mut calls = 0;
    let mut step = run.on_checked(allowed);
    let mut metrics = WebhookMetrics::new(64);
    loop {
        match step {
            NextStep::Acquire => step = run.on_permit(true),
            NextStep::Post => {
                calls += 1;
                step = run.on_attempt(Some(200), 0);
            }
            NextStep::Sleep(_) => step = run.on_wake(),
            NextStep::Settled(ok) => {
                metrics.settle(ok);
                return (calls, metrics);
            }
        }
    }
}

fn v4(a: u8, b: u8, c: u8, d: u8) -> IpAddr {
    IpAddr::V4(Ipv4 { a, b, c, d })
}

#[test]
fn private_target_refused_without_any_http_attempt() {
    let (calls, m) = guarded("https://internal.test/wh", &[v4(10, 0, 0, 5)], false);
    assert_eq!(calls, 0, "no HTTP attempt may happen");
    assert_eq!(m.delivered_failed, 1);
    assert_eq!(m.delivered_ok, 0);
}

#[test]
fn public_target_delivered() {
    let (calls, m) = guarded("http://93.184.216.34/wh", &[v4(93, 184, 216, 34)], false);
    assert_eq!(m.delivered_ok, 1);
    assert_eq!(m.delivered_failed, 0);
    assert_eq!(calls, 1);
}

#[test]
fn private_target_delivered_when_allow_flag_set() {
    let (calls, m) = guarded("http://10.0.0.5/wh", &[v4(10, 0, 0, 5)], true);
    assert_eq!(m.delivered_ok, 1);
    assert_eq!(calls, 1);
}

#[test]
fn file_scheme_refused_without_any_http_attempt() {
    let (calls, m) = guarded("file:///etc/passwd", &[v4(8, 8, 8, 8)], true);
    assert_eq!(calls, 0);
    assert_eq!(m.delivered_failed, 1);
}

#[test]
fn no_permit_to_be_had_fails_the_delivery() {
    let mut run = DeliveryRun::new(policy(1, 1, 1));
    run.on_checked(true);
    assert_eq!(run.on_permit(false), NextStep::Settled(false));
}

#[test]
fn a_budget_of_zero_means_one_attempt() {
    let (times, ok, _) = run_delivery(policy(1, 10, 0), |_| Some(302));
    assert_eq!(times, vec![0]);
    assert!(!ok);
}
