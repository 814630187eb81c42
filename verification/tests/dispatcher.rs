//! Batches, the grace window and the mailbox.
use pylon::webhook::dispatcher::{
    carry_out, epoch_ms, fire, still_due, App, AppLookup, AppPlan, Clock, FixedClock, SystemClock, WebhookConfig,
    WebhookDispatcher,
};
use pylon::webhook::event::WebhookEvent;
use pylon::webhook::occupancy::{AdapterOccupancy, ChannelReport, OccupancySource};
use pylon::webhook::transport::{RecordingTransport, WebhookDelivery, WebhookTransport};
use pylon::webhook::{Enqueued, WebhookHandle, WebhookMetrics};
use serde_json::Value;
use tokio::sync::mpsc;

fn endpoint(url: &str, types: &[&str]) -> WebhookConfig {
    WebhookConfig {
        url: url.into(),
        event_types: types.iter().map(|t| t.to_string()).collect(),
        headers: vec![],
    }
}

fn app_with(webhooks: Vec<WebhookConfig>) -> AppLookup {
    AppLookup::Found(App {
        key: "app-key".into(),
        secret: "app-secret".into(),
        webhooks,
    })
}

fn occ() -> WebhookEvent {
    WebhookEvent::ChannelOccupied {
        app: "app".into(),
        channel: "c".into(),
    }
}

fn vac() -> WebhookEvent {
    WebhookEvent::ChannelVacated {
        app: "app".into(),
        channel: "c".into(),
    }
}

fn miss() -> WebhookEvent {
    WebhookEvent::CacheMiss {
        app: "app".into(),
        channel: "cache-x".into(),
    }
}

fn rem() -> WebhookEvent {
    WebhookEvent::MemberRemoved {
        app: "app".into(),
        channel: "presence-c".into(),
        user_id: "u1".into(),
    }
}

fn add() -> WebhookEvent {
    WebhookEvent::MemberAdded {
        app: "app".into(),
        channel: "presence-c".into(),
        user_id: "u1".into(),
    }
}

fn report(channel: &str, count: usize, members: &[&str]) -> AdapterOccupancy {
    AdapterOccupancy(vec![ChannelReport {
        app: "app".into(),
        channel: channel.into(),
        subscription_count: count,
        members: members.iter().map(|m| m.to_string()).collect(),
    }])
}

/// One window with the given events, its batch flushed, and all deferred events
/// re-checked once the grace window is over. Gives what was delivered at the
/// flush and what was delivered after the grace window.
fn run_window(
    app: &AppLookup,
    grace_ms: u64,
    source: Option<&AdapterOccupancy>,
    events: Vec<WebhookEvent>,
) -> (Vec<WebhookDelivery>, Vec<WebhookDelivery>) {
    let clock = FixedClock(1700000000000);
    let mut d = WebhookDispatcher::new(50, grace_ms);
    for e in events {
        d.on_event(e, 0);
    }
    assert_eq!(d.wait_ms(0), Some(50));
    assert!(d.take_due(49, false).is_none(), "the window is still open");
    let batch = d.take_due(60, false).expect("the window has closed");
    let mut now = RecordingTransport::new();
    let mut later = RecordingTransport::new();
    for plan in d.flush(batch) {
        assert_eq!(plan.app, "app");
        let carried = carry_out(plan, app, clock.now_ms());
        for delivery in carried.deliveries {
            now.deliver(delivery);
        }
        for e in carried.waiting {
            if still_due(&e, source) {
                for delivery in fire(app, clock.now_ms(), &vec![e]) {
                    later.deliver(delivery);
                }
            }
        }
    }
    assert!(d.wait_ms(60).is_none(), "nothing is left in the batch");
    (now.deliveries, later.deliveries)
}

fn names(d: &WebhookDelivery) -> Vec<String> {
    let env: Value = serde_json::from_str(&d.body).unwrap();
    env["events"]
        .as_array()
        .unwrap()
        .iter()
        .map(|e| e["name"].as_str().unwrap().to_string())
        .collect()
}

fn vacated_app() -> AppLookup {
    app_with(vec![endpoint("https://e.test/vac", &["channel_vacated"])])
}

fn member_app() -> AppLookup {
    app_with(vec![endpoint(
        "https://e.test/members",
        &["member_added", "member_removed"],
    )])
}

#[test]
fn one_window_batches_all_events_into_one_delivery() {
    let app = app_with(vec![endpoint(
        "https://e.test/all",
        &["channel_occupied", "channel_vacated", "cache_miss"],
    )]);
    let (now, later) = run_window(&app, 0, None, vec![occ(), vac(), miss()]);
    assert_eq!(now.len(), 1, "one endpoint, one delivery this window");
    assert!(later.is_empty());
    let env: Value = serde_json::from_str(&now[0].body).unwrap();
    assert_eq!(env["time_ms"], 1700000000000u64);
    assert_eq!(
        env["events"].as_array().unwrap().len(),
        3,
        "occ+vac+miss all delivered; no cancellation"
    );
    assert_eq!(
        names(&now[0]),
        vec!["channel_occupied", "channel_vacated", "cache_miss"],
        "enqueue order preserved"
    );
}

#[test]
fn event_types_filter_routes_per_endpoint() {
    let app = app_with(vec![
        endpoint("https://e.test/occ", &["channel_occupied"]),
        endpoint("https://e.test/miss", &["cache_miss"]),
    ]);
    let (now, _) = run_window(&app, 0, None, vec![occ(), miss()]);
    assert_eq!(now.len(), 2, "one delivery per matching endpoint");
    let occ_ep = now.iter().find(|d| d.url.ends_with("/occ")).unwrap();
    let miss_ep = now.iter().find(|d| d.url.ends_with("/miss")).unwrap();
    assert_eq!(names(occ_ep), vec!["channel_occupied"]);
    assert_eq!(names(miss_ep), vec!["cache_miss"]);
}

#[test]
fn vacated_fires_after_grace_when_still_empty() {
    let (now, later) = run_window(&vacated_app(), 3000, Some(&report("c", 0, &[])), vec![vac()]);
    assert!(now.is_empty());
    assert_eq!(later.len(), 1, "vacated fires after grace when still empty");
    assert_eq!(names(&later[0]), vec!["channel_vacated"]);
}

#[test]
fn vacated_suppressed_when_reoccupied_within_grace() {
    let (now, later) = run_window(&vacated_app(), 3000, Some(&report("c", 1, &[])), vec![vac()]);
    assert_eq!(
        now.len() + later.len(),
        0,
        "vacated suppressed when re-occupied within grace"
    );
}

#[test]
fn vacated_fires_after_grace_even_without_occupancy_source() {
    let (now, later) = run_window(&vacated_app(), 3000, None, vec![vac()]);
    assert_eq!(now.len(), 0, "no fire before the grace window elapses");
    assert_eq!(
        later.len(),
        1,
        "vacated fires after grace even without an occupancy source"
    );
    assert_eq!(names(&later[0]), vec!["channel_vacated"]);
}

#[test]
fn local_path_fires_vacated_immediately() {
    let (now, later) = run_window(&vacated_app(), 0, None, vec![vac()]);
    assert_eq!(now.len(), 1, "local path delivers vacated immediately");
    assert_eq!(names(&now[0]), vec!["channel_vacated"]);
    assert!(later.is_empty());
}

#[test]
fn member_removed_fires_after_grace_when_user_stays_gone() {
    let source = report("presence-c", 0, &[]);
    let (now, later) = run_window(&member_app(), 3000, Some(&source), vec![rem()]);
    assert_eq!(
        now.len(),
        0,
        "member_removed must NOT fire before the grace window elapses"
    );
    assert_eq!(
        later.len(),
        1,
        "member_removed fires after grace when the user stays gone"
    );
    let env: Value = serde_json::from_str(&later[0].body).unwrap();
    let events = env["events"].as_array().unwrap();
    assert_eq!(events.len(), 1);
    assert_eq!(events[0]["name"], "member_removed");
    assert_eq!(events[0]["user_id"], "u1");
}

#[test]
fn member_removed_suppressed_when_user_rejoins_within_grace() {
    let source = report("presence-c", 1, &["u1"]);
    let (now, later) = run_window(&member_app(), 3000, Some(&source), vec![rem()]);
    assert_eq!(
        now.len() + later.len(),
        0,
        "member_removed suppressed when the user rejoins within the grace"
    );
}

#[test]
fn member_added_fires_inline_member_removed_suppressed_on_rejoin() {
    let source = report("presence-c", 1, &["u1"]);
    let (now, later) = run_window(&member_app(), 3000, Some(&source), vec![rem(), add()]);
    assert_eq!(now.len(), 1, "member_added fires inline (never deferred)");
    assert_eq!(names(&now[0]), vec!["member_added"]);
    assert!(
        later.is_empty(),
        "rejoined user: only the member_added delivery, member_removed suppressed"
    );
}

#[test]
fn a_full_mailbox_drops_the_trigger_and_counts_it() {
    let (tx, mut rx) = mpsc::channel(1);
    let mut handle = WebhookHandle::new(tx, 1);
    let occupied = |channel: &str| WebhookEvent::ChannelOccupied {
        app: "app1".into(),
        channel: channel.into(),
    };

    assert_eq!(handle.enqueue(occupied("first")), Enqueued::Sent);
    assert_eq!(handle.queue_depth(), 1, "the accepted event is queued");
    assert_eq!(handle.metrics().enqueued, 1);
    assert_eq!(handle.metrics().dropped, 0);

    assert_eq!(handle.enqueue(occupied("overflow")), Enqueued::Full);
    assert_eq!(
        handle.metrics().dropped,
        1,
        "the trigger that did not fit must be counted as dropped"
    );
    assert_eq!(
        handle.metrics().enqueued,
        1,
        "a dropped trigger must NOT be counted as enqueued"
    );

    assert_eq!(
        rx.try_recv().map(|e| e.name()).ok(),
        Some("channel_occupied"),
        "the queued event must survive the overflow"
    );
    assert!(
        rx.try_recv().is_err(),
        "the dropped trigger must not have been queued"
    );
    assert_eq!(handle.queue_depth(), 0);
}

#[test]
fn a_closed_mailbox_drops_the_trigger() {
    let (tx, rx) = mpsc::channel(4);
    drop(rx);
    let mut handle = WebhookHandle::new(tx, 4);
    assert_eq!(handle.enqueue(occ()), Enqueued::Closed);
    assert_eq!(handle.metrics().dropped, 1);
    assert_eq!(handle.metrics().enqueued, 0);
}

#[test]
fn the_counters_wrap_around() {
    let mut m = WebhookMetrics::new(8);
    m.dropped = u64::MAX;
    m.count(Enqueued::Full);
    assert_eq!(m.dropped, 0);
    assert_eq!(m.depth(3), 5);
    assert_eq!(m.depth(9), 0);
}

#[test]
fn a_trigger_for_an_unknown_app_delivers_nowhere() {
    let occupied = |app: &str| WebhookEvent::ChannelOccupied {
        app: app.into(),
        channel: "public-c".into(),
    };
    let mut d = WebhookDispatcher::new(1, 0);
    d.on_event(occupied("no-such-app"), 0);
    d.on_event(occupied("app1"), 0);
    let batch = d.take_due(1, false).unwrap();
    let known = app_with(vec![endpoint("https://hook.test", &["channel_occupied"])]);
    let mut recorded = Vec::new();
    for plan in d.flush(batch) {
        let found = plan.app == "app1";
        let missing = AppLookup::Missing;
        let lookup = if found { &known } else { &missing };
        recorded.extend(fire(lookup, 0, &plan.immediate));
    }
    assert_eq!(
        recorded.len(),
        1,
        "exactly one delivery — the unknown app's trigger, drained first, produced none"
    );
    assert_eq!(recorded[0].url, "https://hook.test");
    assert!(fire(&AppLookup::Failed, 0, &vec![occ()]).is_empty());
}

#[test]
fn adapter_occupancy_reports_channel_subscription_count() {
    let nobody = AdapterOccupancy(vec![]);
    assert_eq!(nobody.subscription_count("app", "ch"), 0);
    let one = report("ch", 1, &[]);
    assert_eq!(
        one.subscription_count("app", "ch"),
        1,
        "AdapterOccupancy must report the adapter's channel subscription_count"
    );
    assert_eq!(one.subscription_count("other", "ch"), 0);
    assert_eq!(one.subscription_count("app", "other"), 0);
}

#[test]
fn adapter_occupancy_reports_member_presence() {
    let nobody = AdapterOccupancy(vec![]);
    assert!(!nobody.is_member_present("app", "presence-x", "7"));
    let occ = report("presence-x", 1, &["7"]);
    assert!(
        occ.is_member_present("app", "presence-x", "7"),
        "subscribed user must read as present"
    );
    assert!(
        !occ.is_member_present("app", "presence-x", "8"),
        "a different user must read as absent"
    );
}

#[test]
fn the_first_event_of_a_batch_fixes_the_window() {
    let mut d = WebhookDispatcher::new(50, 0);
    assert!(d.wait_ms(0).is_none());
    assert!(d.take_due(1_000, true).is_none(), "an empty batch is never due");
    d.on_event(occ(), 100);
    d.on_event(miss(), 149);
    assert_eq!(d.wait_ms(149), Some(1));
    assert_eq!(d.wait_ms(200), Some(0));
    assert_eq!(d.take_due(150, false).unwrap().len(), 2);
    // What is left when the senders are gone is flushed at once.
    d.on_event(vac(), 200);
    assert_eq!(d.take_due(201, true).unwrap(), vec![vac()]);
}

#[test]
fn a_batch_is_split_by_app_and_each_part_keeps_its_order() {
    let of = |app: &str, channel: &str| WebhookEvent::CacheMiss {
        app: app.into(),
        channel: channel.into(),
    };
    let d = WebhookDispatcher::new(50, 3000);
    let plans = d.flush(vec![of("a", "1"), of("b", "1"), of("a", "2"), vac(), occ()]);
    assert_eq!(plans.len(), 3);
    assert_eq!(plans[0].app, "a");
    assert_eq!(plans[0].immediate, vec![of("a", "1"), of("a", "2")]);
    assert!(plans[0].deferred.is_empty());
    assert_eq!(plans[1].immediate, vec![of("b", "1")]);
    assert_eq!(plans[2].immediate, vec![occ()]);
    assert_eq!(plans[2].deferred, vec![vac()]);
}

#[test]
fn an_app_that_is_not_found_is_skipped_whole() {
    let plan = |immediate: Vec<WebhookEvent>| AppPlan {
        app: "app".into(),
        immediate,
        deferred: vec![vac(), rem()],
    };
    for gone in [AppLookup::Missing, AppLookup::Failed] {
        let r = carry_out(plan(vec![occ()]), &gone, 1);
        assert!(r.deliveries.is_empty());
        assert!(r.waiting.is_empty(), "what waits is skipped with the rest");
        let r = carry_out(plan(vec![]), &gone, 1);
        assert!(r.deliveries.is_empty());
        assert_eq!(r.waiting, vec![vac(), rem()], "no lookup was needed");
    }
    let found = app_with(vec![endpoint("https://e.test/occ", &["channel_occupied"])]);
    let r = carry_out(plan(vec![occ()]), &found, 1);
    assert_eq!(r.deliveries.len(), 1);
    assert_eq!(r.waiting, vec![vac(), rem()]);
}

#[test]
fn the_system_clock_is_past_the_epoch() {
    assert!(SystemClock.now_ms() > 1_600_000_000_000);
    assert_eq!(FixedClock(7).now_ms(), 7);
}

#[test]
fn a_clock_before_the_epoch_reads_zero() {
    assert_eq!(epoch_ms(None), 0);
    assert_eq!(epoch_ms(Some(1_700_000_000_000)), 1_700_000_000_000);
    assert_eq!(epoch_ms(Some((1u128 << 64) + 7)), 7);
}
