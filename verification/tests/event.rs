//! The JSON objects of webhook events.
use pylon::json::Json;
use pylon::webhook::event::WebhookEvent;
use serde_json::Value;

/// The object of an event, read back by an independent parser.
fn wire(e: &WebhookEvent) -> Value {
    serde_json::from_str(&e.to_json().to_text()).unwrap()
}

fn value(text: &str) -> Value {
    serde_json::from_str(text).unwrap()
}

#[test]
fn channel_occupied_and_vacated_serialize() {
    assert_eq!(
        wire(&WebhookEvent::ChannelOccupied {
            app: "a".into(),
            channel: "ch".into(),
        }),
        value(r#"{ "name": "channel_occupied", "channel": "ch" }"#)
    );
    assert_eq!(
        wire(&WebhookEvent::ChannelVacated {
            app: "a".into(),
            channel: "ch".into(),
        }),
        value(r#"{ "name": "channel_vacated", "channel": "ch" }"#)
    );
}

#[test]
fn member_added_and_removed_serialize_with_user_id() {
    assert_eq!(
        wire(&WebhookEvent::MemberAdded {
            app: "a".into(),
            channel: "presence-x".into(),
            user_id: "u1".into(),
        }),
        value(r#"{ "name": "member_added", "channel": "presence-x", "user_id": "u1" }"#)
    );
    assert_eq!(
        wire(&WebhookEvent::MemberRemoved {
            app: "a".into(),
            channel: "presence-x".into(),
            user_id: "u1".into(),
        }),
        value(r#"{ "name": "member_removed", "channel": "presence-x", "user_id": "u1" }"#)
    );
}

#[test]
fn cache_miss_serializes_channel_only() {
    assert_eq!(
        wire(&WebhookEvent::CacheMiss {
            app: "a".into(),
            channel: "cache-x".into(),
        }),
        value(r#"{ "name": "cache_miss", "channel": "cache-x" }"#)
    );
}

#[test]
fn subscription_count_serializes_with_numeric_count() {
    assert_eq!(
        wire(&WebhookEvent::SubscriptionCount {
            app: "a".into(),
            channel: "ch".into(),
            count: 2,
        }),
        value(r#"{ "name": "subscription_count", "channel": "ch", "subscription_count": 2 }"#)
    );
    assert_eq!(
        WebhookEvent::SubscriptionCount {
            app: "a".into(),
            channel: "ch".into(),
            count: 1,
        }
        .name(),
        "subscription_count"
    );
}

#[test]
fn client_event_omits_user_id_when_absent() {
    let v = wire(&WebhookEvent::ClientEvent {
        app: "a".into(),
        channel: "private-c".into(),
        event: "client-msg".into(),
        data: Json::Object(vec![("k".into(), Json::Text("v".into()))]),
        socket_id: "123.456".into(),
        user_id: None,
    });
    assert_eq!(
        v,
        value(
            r#"{
            "name": "client_event",
            "channel": "private-c",
            "event": "client-msg",
            "data": {"k":"v"},
            "socket_id": "123.456"
        }"#
        )
    );
    assert!(
        v.get("user_id").is_none(),
        "user_id must be omitted, not null"
    );
}

#[test]
fn client_event_includes_user_id_when_present_and_data_verbatim() {
    let v = wire(&WebhookEvent::ClientEvent {
        app: "a".into(),
        channel: "presence-c".into(),
        event: "client-msg".into(),
        // A JSON string must survive as it is.
        data: Json::Text("{\"raw\":1}".into()),
        socket_id: "9.9".into(),
        user_id: Some("u7".into()),
    });
    assert_eq!(
        v,
        value(
            r#"{
            "name": "client_event",
            "channel": "presence-c",
            "event": "client-msg",
            "data": "{\"raw\":1}",
            "socket_id": "9.9",
            "user_id": "u7"
        }"#
        )
    );
}

#[test]
fn the_app_routes_and_is_not_sent() {
    let e = WebhookEvent::ChannelOccupied {
        app: "app-7".into(),
        channel: "ch".into(),
    };
    assert_eq!(e.app(), "app-7");
    assert_eq!(
        e.to_json(),
        Json::Object(vec![
            ("channel".into(), Json::Text("ch".into())),
            ("name".into(), Json::Text("channel_occupied".into())),
        ])
    );
}
