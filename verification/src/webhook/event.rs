//! What a webhook can be sent about, and the JSON object that says so.
use crate::json::{self, Json, JsonModel};
use crate::ordered::held;
use crate::text;
use vstd::prelude::*;

verus! {

/// One thing that happened in an app. The app says where the notification
/// goes; it is no part of it.
#[allow(inconsistent_fields)]
#[derive(Debug, Clone, PartialEq)]
pub enum WebhookEvent {
    ChannelOccupied { app: String, channel: String },
    ChannelVacated { app: String, channel: String },
    MemberAdded { app: String, channel: String, user_id: String },
    MemberRemoved { app: String, channel: String, user_id: String },
    ClientEvent {
        app: String,
        channel: String,
        event: String,
        data: Json,
        socket_id: String,
        /// The sender, if it is a presence member of the channel.
        user_id: Option<String>,
    },
    CacheMiss { app: String, channel: String },
    SubscriptionCount { app: String, channel: String, count: usize },
}

/// The app of an event.
pub open spec fn app_of(e: WebhookEvent) -> Seq<char> {
    match e {
        WebhookEvent::ChannelOccupied { app, channel } => app@,
        WebhookEvent::ChannelVacated { app, channel } => app@,
        WebhookEvent::MemberAdded { app, channel, user_id } => app@,
        WebhookEvent::MemberRemoved { app, channel, user_id } => app@,
        WebhookEvent::ClientEvent { app, channel, event, data, socket_id, user_id } => app@,
        WebhookEvent::CacheMiss { app, channel } => app@,
        WebhookEvent::SubscriptionCount { app, channel, count } => app@,
    }
}

/// The name by which an endpoint selects an event.
pub open spec fn name_of(e: WebhookEvent) -> Seq<char> {
    match e {
        WebhookEvent::ChannelOccupied { .. } => "channel_occupied"@,
        WebhookEvent::ChannelVacated { .. } => "channel_vacated"@,
        WebhookEvent::MemberAdded { .. } => "member_added"@,
        WebhookEvent::MemberRemoved { .. } => "member_removed"@,
        WebhookEvent::ClientEvent { .. } => "client_event"@,
        WebhookEvent::CacheMiss { .. } => "cache_miss"@,
        WebhookEvent::SubscriptionCount { .. } => "subscription_count"@,
    }
}

/// The channel of an event.
pub open spec fn channel_of(e: WebhookEvent) -> Seq<char> {
    match e {
        WebhookEvent::ChannelOccupied { app, channel } => channel@,
        WebhookEvent::ChannelVacated { app, channel } => channel@,
        WebhookEvent::MemberAdded { app, channel, user_id } => channel@,
        WebhookEvent::MemberRemoved { app, channel, user_id } => channel@,
        WebhookEvent::ClientEvent { app, channel, event, data, socket_id, user_id } => channel@,
        WebhookEvent::CacheMiss { app, channel } => channel@,
        WebhookEvent::SubscriptionCount { app, channel, count } => channel@,
    }
}

/// The fields of the object for an event.
pub open spec fn event_fields(e: WebhookEvent) -> Seq<(Seq<char>, JsonModel)> {
    let channel = ("channel"@, JsonModel::Text(channel_of(e)));
    let name = ("name"@, JsonModel::Text(name_of(e)));
    match e {
        WebhookEvent::MemberAdded { app, channel: ch, user_id } => seq![
            channel,
            name,
            ("user_id"@, JsonModel::Text(user_id@)),
        ],
        WebhookEvent::MemberRemoved { app, channel: ch, user_id } => seq![
            channel,
            name,
            ("user_id"@, JsonModel::Text(user_id@)),
        ],
        WebhookEvent::ClientEvent { app, channel: ch, event, data, socket_id, user_id } => {
            let sent = seq![
                channel,
                ("data"@, data@),
                ("event"@, JsonModel::Text(event@)),
                name,
                ("socket_id"@, JsonModel::Text(socket_id@)),
            ];
            match user_id {
                Some(id) => sent.push(("user_id"@, JsonModel::Text(id@))),
                None => sent,
            }
        },
        WebhookEvent::SubscriptionCount { app, channel: ch, count } => seq![
            channel,
            name,
            ("subscription_count"@, JsonModel::Number(text::decimal(count as nat))),
        ],
        _ => seq![channel, name],
    }
}

/// The object for an event.
pub open spec fn event_json(e: WebhookEvent) -> JsonModel {
    JsonModel::Object(event_fields(e))
}

impl WebhookEvent {
    /// The app that the event belongs to.
    pub fn app(&self) -> (r: &str)
        ensures
            r@ == app_of(*self),
    {
        match self {
            WebhookEvent::ChannelOccupied { app, .. } => app.as_str(),
            WebhookEvent::ChannelVacated { app, .. } => app.as_str(),
            WebhookEvent::MemberAdded { app, .. } => app.as_str(),
            WebhookEvent::MemberRemoved { app, .. } => app.as_str(),
            WebhookEvent::ClientEvent { app, .. } => app.as_str(),
            WebhookEvent::CacheMiss { app, .. } => app.as_str(),
            WebhookEvent::SubscriptionCount { app, .. } => app.as_str(),
        }
    }

    /// The event's name, by which an endpoint selects it.
    pub fn name(&self) -> (r: &'static str)
        ensures
            r@ == name_of(*self),
    {
        match self {
            WebhookEvent::ChannelOccupied { .. } => "channel_occupied",
            WebhookEvent::ChannelVacated { .. } => "channel_vacated",
            WebhookEvent::MemberAdded { .. } => "member_added",
            WebhookEvent::MemberRemoved { .. } => "member_removed",
            WebhookEvent::ClientEvent { .. } => "client_event",
            WebhookEvent::CacheMiss { .. } => "cache_miss",
            WebhookEvent::SubscriptionCount { .. } => "subscription_count",
        }
    }

    fn channel(&self) -> (r: &str)
        ensures
            r@ == channel_of(*self),
    {
        match self {
            WebhookEvent::ChannelOccupied { channel, .. } => channel.as_str(),
            WebhookEvent::ChannelVacated { channel, .. } => channel.as_str(),
            WebhookEvent::MemberAdded { channel, .. } => channel.as_str(),
            WebhookEvent::MemberRemoved { channel, .. } => channel.as_str(),
            WebhookEvent::ClientEvent { channel, .. } => channel.as_str(),
            WebhookEvent::CacheMiss { channel, .. } => channel.as_str(),
            WebhookEvent::SubscriptionCount { channel, .. } => channel.as_str(),
        }
    }

    /// The object that is sent for the event.
    pub fn to_json(&self) -> (r: Json)
        ensures
            r@ == event_json(*self),
    {
        let mut out: Vec<(String, Json)> = Vec::new();
        assert(json::field_models(out@) =~= Seq::<(Seq<char>, JsonModel)>::empty());
        json::push_text(&mut out, "channel", self.channel());
        match self {
            WebhookEvent::ClientEvent { event, data, .. } => {
                json::push_field(&mut out, "data", data.clone());
                json::push_text(&mut out, "event", event.as_str());
            },
            _ => {},
        }
        json::push_text(&mut out, "name", self.name());
        match self {
            WebhookEvent::MemberAdded { user_id, .. } => {
                json::push_text(&mut out, "user_id", user_id.as_str());
            },
            WebhookEvent::MemberRemoved { user_id, .. } => {
                json::push_text(&mut out, "user_id", user_id.as_str());
            },
            WebhookEvent::ClientEvent { socket_id, user_id, .. } => {
                json::push_text(&mut out, "socket_id", socket_id.as_str());
                match user_id {
                    Some(id) => json::push_text(&mut out, "user_id", id.as_str()),
                    None => {},
                }
            },
            WebhookEvent::SubscriptionCount { count, .. } => {
                json::push_field(
                    &mut out,
                    "subscription_count",
                    Json::Number(text::decimal_text(*count as u64)),
                );
            },
            _ => {},
        }
        assert(json::field_models(out@) =~= event_fields(*self));
        Json::Object(out)
    }
}

/// The object of an event says what happened and where, and what else its kind has to
/// say: who came or went, what a client sent, or how many there are. Its app is no
/// part of it. No two kinds share a name.
pub proof fn objects_say_what_happened(e: WebhookEvent, other: WebhookEvent)
    ensures
        ({
            let f = event_fields(e);
            &&& event_json(e) == JsonModel::Object(f)
            &&& held(f, "name"@) == Some(JsonModel::Text(name_of(e)))
            &&& held(f, "channel"@) == Some(JsonModel::Text(channel_of(e)))
            &&& match e {
                WebhookEvent::ChannelOccupied { app, channel } => name_of(e) == "channel_occupied"@
                    && channel_of(e) == channel@ && app_of(e) == app@ && f.len() == 2,
                WebhookEvent::ChannelVacated { app, channel } => name_of(e) == "channel_vacated"@
                    && channel_of(e) == channel@ && app_of(e) == app@ && f.len() == 2,
                WebhookEvent::MemberAdded { app, channel, user_id } => name_of(e) == "member_added"@
                    && channel_of(e) == channel@ && app_of(e) == app@ && held(f, "user_id"@) == Some(
                    JsonModel::Text(user_id@),
                ) && f.len() == 3,
                WebhookEvent::MemberRemoved { app, channel, user_id } => name_of(e)
                    == "member_removed"@ && channel_of(e) == channel@ && app_of(e) == app@ && held(
                    f,
                    "user_id"@,
                ) == Some(JsonModel::Text(user_id@)) && f.len() == 3,
                WebhookEvent::ClientEvent { app, channel, event, data, socket_id, user_id } => {
                    &&& name_of(e) == "client_event"@
                    &&& channel_of(e) == channel@
                    &&& app_of(e) == app@
                    &&& held(f, "event"@) == Some(JsonModel::Text(event@))
                    &&& held(f, "data"@) == Some(data@)
                    &&& held(f, "socket_id"@) == Some(JsonModel::Text(socket_id@))
                    &&& user_id matches Some(id) ==> held(f, "user_id"@) == Some(
                        JsonModel::Text(id@),
                    ) && f.len() == 6
                    &&& user_id is None ==> held(f, "user_id"@) is None && f.len() == 5
                },
                WebhookEvent::CacheMiss { app, channel } => name_of(e) == "cache_miss"@
                    && channel_of(e) == channel@ && app_of(e) == app@ && f.len() == 2,
                WebhookEvent::SubscriptionCount { app, channel, count } => name_of(e)
                    == "subscription_count"@ && channel_of(e) == channel@ && app_of(e) == app@
                    && held(f, "subscription_count"@) == Some(
                    JsonModel::Number(text::decimal(count as nat)),
                ) && f.len() == 3,
            }
        }),
        name_of(e) == name_of(other) ==> {
            &&& e is ChannelOccupied <==> other is ChannelOccupied
            &&& e is ChannelVacated <==> other is ChannelVacated
            &&& e is MemberAdded <==> other is MemberAdded
            &&& e is MemberRemoved <==> other is MemberRemoved
            &&& e is ClientEvent <==> other is ClientEvent
            &&& e is CacheMiss <==> other is CacheMiss
            &&& e is SubscriptionCount <==> other is SubscriptionCount
        },
{
    reveal_strlit("channel_occupied");
    reveal_strlit("channel_vacated");
    reveal_strlit("member_added");
    reveal_strlit("member_removed");
    reveal_strlit("client_event");
    reveal_strlit("cache_miss");
    reveal_strlit("subscription_count");
    assert("channel_occupied"@.len() == 16 && "channel_vacated"@.len() == 15);
    assert("member_added"@.len() == 12 && "member_removed"@.len() == 14);
    assert("client_event"@.len() == 12 && "cache_miss"@.len() == 10);
    assert("member_added"@[0] != "client_event"@[0]);
    reveal_strlit("name");
    reveal_strlit("channel");
    reveal_strlit("user_id");
    reveal_strlit("event");
    reveal_strlit("data");
    reveal_strlit("socket_id");
    assert("name"@[0] != "data"@[0]);
    assert("channel"@[0] != "user_id"@[0]);
    assert("name"@.len() == 4 && "data"@.len() == 4 && "channel"@.len() == 7);
    assert("user_id"@.len() == 7 && "event"@.len() == 5 && "socket_id"@.len() == 9);
    assert("subscription_count"@.len() == 18);
    reveal_with_fuel(held, 7);
}

} // verus!
