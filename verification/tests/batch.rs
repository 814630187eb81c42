//! Cancelling opposing events.
use pylon::json::Json;
use pylon::webhook::batch::coalesce;
use pylon::webhook::event::WebhookEvent;

fn occ(ch: &str) -> WebhookEvent {
    WebhookEvent::ChannelOccupied {
        app: "a".into(),
        channel: ch.into(),
    }
}
fn vac(ch: &str) -> WebhookEvent {
    WebhookEvent::ChannelVacated {
        app: "a".into(),
        channel: ch.into(),
    }
}
fn add(ch: &str, u: &str) -> WebhookEvent {
    WebhookEvent::MemberAdded {
        app: "a".into(),
        channel: ch.into(),
        user_id: u.into(),
    }
}
fn rem(ch: &str, u: &str) -> WebhookEvent {
    WebhookEvent::MemberRemoved {
        app: "a".into(),
        channel: ch.into(),
        user_id: u.into(),
    }
}
fn ce(ch: &str) -> WebhookEvent {
    WebhookEvent::ClientEvent {
        app: "a".into(),
        channel: ch.into(),
        event: "m".into(),
        data: Json::Object(Vec::new()),
        socket_id: "1.1".into(),
        user_id: None,
    }
}
fn miss(ch: &str) -> WebhookEvent {
    WebhookEvent::CacheMiss {
        app: "a".into(),
        channel: ch.into(),
    }
}

#[test]
fn occupied_and_vacated_same_channel_cancel() {
    assert!(coalesce(vec![occ("c"), vac("c")]).is_empty());
    assert!(coalesce(vec![vac("c"), occ("c")]).is_empty());
}

#[test]
fn member_add_remove_same_channel_user_cancel() {
    assert!(coalesce(vec![add("presence-c", "u1"), rem("presence-c", "u1")]).is_empty());
}

#[test]
fn different_channel_does_not_cancel() {
    let out = coalesce(vec![occ("a"), vac("b")]);
    assert_eq!(out, vec![occ("a"), vac("b")]);
}

#[test]
fn different_user_does_not_cancel() {
    let out = coalesce(vec![add("presence-c", "u1"), rem("presence-c", "u2")]);
    assert_eq!(out, vec![add("presence-c", "u1"), rem("presence-c", "u2")]);
}

#[test]
fn vacated_alone_survives_when_occupied_was_before_window() {
    // Only a vacated arrives this window — it must survive.
    assert_eq!(coalesce(vec![vac("c")]), vec![vac("c")]);
}

#[test]
fn client_event_and_cache_miss_never_coalesced() {
    let out = coalesce(vec![ce("private-c"), ce("private-c"), miss("cache-c")]);
    assert_eq!(out, vec![ce("private-c"), ce("private-c"), miss("cache-c")]);
}

#[test]
fn enqueue_order_preserved_among_survivors() {
    // occ(a), occ(b), vac(a) -> a cancels, b survives, order: occ(b).
    let out = coalesce(vec![occ("a"), occ("b"), vac("a")]);
    assert_eq!(out, vec![occ("b")]);
}

#[test]
fn the_surplus_of_a_key_survives() {
    // Three against one leaves the first two; one against two leaves one.
    let out = coalesce(vec![occ("c"), vac("c"), occ("c"), occ("c")]);
    assert_eq!(out, vec![occ("c"), occ("c")]);
    let out = coalesce(vec![add("p", "u"), rem("p", "u"), rem("p", "u")]);
    assert_eq!(out, vec![rem("p", "u")]);
}

#[test]
fn a_channel_and_a_member_are_different_keys() {
    let out = coalesce(vec![occ("p"), rem("p", "u")]);
    assert_eq!(out, vec![occ("p"), rem("p", "u")]);
}

#[test]
fn a_subscription_count_is_never_cancelled() {
    let count = |n: usize| WebhookEvent::SubscriptionCount {
        app: "a".into(),
        channel: "c".into(),
        count: n,
    };
    let out = coalesce(vec![count(1), occ("c"), vac("c"), count(1)]);
    assert_eq!(out, vec![count(1), count(1)]);
}
