//! Collecting events into batches and turning a batch into deliveries.
//!
//! The first event of a batch opens a window; when it closes, the batch is
//! split by app. With a grace window, `channel_vacated` and `member_removed`
//! wait for it and fire only if the client has not come back. There is no
//! cancelling within a batch: a channel that was occupied and vacated in one
//! window gets both events.
use crate::json::{self, Json, JsonModel};
use crate::ordered::held;
use crate::text;
use crate::transport::worker::index::has_name;
use crate::transport::worker::mail::names;
use crate::webhook::event::{app_of, event_json, name_of, WebhookEvent};
use crate::webhook::occupancy::OccupancySource;
use crate::webhook::transport::{self, WebhookDelivery};
use std::time::SystemTime;
use vstd::prelude::*;

verus! {

/// A wall clock.
pub trait Clock {
    /// Milliseconds since the Unix epoch.
    fn now_ms(&self) -> u64;
}

/// The system's clock.
#[derive(Debug, Clone, Copy, PartialEq, Eq, Structural)]
pub struct SystemClock;

/// `std::time::SystemTime`, carried through without looking inside.
#[verifier::external_type_specification]
#[verifier::external_body]
pub struct ExSystemTime(SystemTime);

/// `SystemTime::now`. Nothing is claimed of which time it is.
#[verifier::external_body]
fn system_now() -> (r: SystemTime) {
    SystemTime::now()
}

/// The whole milliseconds from the Unix epoch to a time, or nothing for a time
/// before it.
pub uninterp spec fn millis_at(t: SystemTime) -> Option<u128>;

/// `SystemTime::duration_since` the Unix epoch, in milliseconds, or nothing for a
/// time before it. It depends on the time alone.
#[verifier::external_body]
fn since_epoch(t: &SystemTime) -> (r: Option<u128>)
    ensures
        r == millis_at(*t),
{
    t.duration_since(std::time::UNIX_EPOCH).ok().map(|d| d.as_millis())
}

/// The reading of a clock that stands so many milliseconds after the Unix epoch,
/// or before it: the low 64 bits of the number, or zero.
pub open spec fn clock_reading(since: Option<u128>) -> nat {
    match since {
        Some(ms) => ms as nat % 0x1_0000_0000_0000_0000,
        None => 0,
    }
}

/// The reading of a clock that stands so many milliseconds after the Unix epoch, or
/// before it.
pub fn epoch_ms(since: Option<u128>) -> (r: u64)
    ensures
        r == clock_reading(since),
{
    match since {
        Some(ms) => {
            assert(ms as u64 == ms % 0x1_0000_0000_0000_0000u128) by (bit_vector);
            #[verifier::truncate]
            let low: u64 = ms as u64;
            low
        },
        None => 0,
    }
}

/// Asks `clock` for a time and hands its answer on.
fn told<F: Fn() -> SystemTime>(clock: F) -> (t: SystemTime)
    requires
        call_requires(clock, ()),
    ensures
        call_ensures(clock, (), t),
{
    clock()
}

/// `t` is an answer of `SystemTime::now`.
pub closed spec fn system_time(t: SystemTime) -> bool {
    call_ensures(system_now, (), t)
}

impl Clock for SystemClock {
    /// The reading at the time that `SystemTime::now` answers; nothing is claimed of
    /// which time it is.
    fn now_ms(&self) -> (r: u64)
        ensures
            exists|t: SystemTime| r == clock_reading(#[trigger] millis_at(t)),
            exists|t: SystemTime| #[trigger] system_time(t) && r == clock_reading(millis_at(t)),
    {
        let t: SystemTime = told(system_now);
        assert(system_time(t));
        epoch_ms(since_epoch(&t))
    }
}

/// A clock that stands still.
#[derive(Debug, Clone, Copy, PartialEq, Eq, Structural)]
pub struct FixedClock(pub u64);

impl Clock for FixedClock {
    fn now_ms(&self) -> (r: u64)
        ensures
            r == self.0,
    {
        self.0
    }
}

/// An endpoint of an app, and the events that it wants.
#[derive(Debug)]
pub struct WebhookConfig {
    pub url: String,
    pub event_types: Vec<String>,
    pub headers: Vec<(String, String)>,
}

/// An app: its credentials and its endpoints.
#[derive(Debug)]
pub struct App {
    pub key: String,
    pub secret: String,
    pub webhooks: Vec<WebhookConfig>,
}

/// What came of looking an app up.
#[derive(Debug)]
pub enum AppLookup {
    Found(App),
    /// Unknown or disabled.
    Missing,
    /// The lookup itself failed.
    Failed,
}

/// A delivery as contracts see it.
pub struct DeliveryModel {
    pub url: Seq<char>,
    pub body: Seq<char>,
    pub headers: Seq<(Seq<char>, Seq<char>)>,
}

/// A delivery, seen so.
pub open spec fn delivery_view(d: WebhookDelivery) -> DeliveryModel {
    DeliveryModel { url: d.url@, body: d.body@, headers: transport::headers_of(d.headers@) }
}

/// Deliveries, seen so.
pub open spec fn delivery_views(ds: Seq<WebhookDelivery>) -> Seq<DeliveryModel> {
    Seq::new(ds.len(), |i: int| delivery_view(ds[i]))
}

/// The objects of the events that an endpoint wants, in order.
pub open spec fn chosen(types: Seq<Seq<char>>, events: Seq<WebhookEvent>) -> Seq<JsonModel>
    decreases events.len(),
{
    if events.len() == 0 {
        Seq::empty()
    } else if types.contains(name_of(events.last())) {
        chosen(types, events.drop_last()).push(event_json(events.last()))
    } else {
        chosen(types, events.drop_last())
    }
}

/// The delivery of an app's events to one of its endpoints.
pub open spec fn delivery_to(
    app: App,
    endpoint: WebhookConfig,
    time_ms: nat,
    events: Seq<WebhookEvent>,
) -> DeliveryModel {
    let body = transport::body_text(time_ms, chosen(names(endpoint.event_types@), events));
    DeliveryModel {
        url: endpoint.url@,
        body,
        headers: transport::delivery_headers(
            app.key@,
            transport::signature(app.secret@, body),
            transport::headers_of(endpoint.headers@),
        ),
    }
}

/// The deliveries to the first `n` endpoints; one that wants none of the events
/// gets none.
pub open spec fn deliveries_to(
    app: App,
    time_ms: nat,
    events: Seq<WebhookEvent>,
    n: nat,
) -> Seq<DeliveryModel>
    decreases n,
{
    if n == 0 {
        Seq::empty()
    } else {
        let before = deliveries_to(app, time_ms, events, (n - 1) as nat);
        let endpoint = app.webhooks@[n - 1];
        if chosen(names(endpoint.event_types@), events).len() == 0 {
            before
        } else {
            before.push(delivery_to(app, endpoint, time_ms, events))
        }
    }
}

/// What is to be sent for an app's events.
pub open spec fn deliveries_for(
    lookup: AppLookup,
    time_ms: nat,
    events: Seq<WebhookEvent>,
) -> Seq<DeliveryModel> {
    match lookup {
        AppLookup::Found(app) => deliveries_to(app, time_ms, events, app.webhooks@.len()),
        _ => Seq::empty(),
    }
}

fn choose_events(types: &Vec<String>, events: &Vec<WebhookEvent>) -> (r: Vec<Json>)
    ensures
        json::models(r@) == chosen(names(types@), events@),
{
    let mut out: Vec<Json> = Vec::new();
    let mut i: usize = 0;
    assert(events@.take(0) =~= Seq::<WebhookEvent>::empty());
    while i < events.len()
        invariant
            i <= events@.len(),
            json::models(out@) == chosen(names(types@), events@.take(i as int)),
        decreases events@.len() - i,
    {
        proof {
            assert(events@.take(i + 1).drop_last() =~= events@.take(i as int));
            assert(events@.take(i + 1).last() == events@[i as int]);
        }
        if has_name(types, events[i].name()) {
            let ghost before = out@;
            out.push(events[i].to_json());
            assert(out@.drop_last() =~= before);
        }
        i = i + 1;
    }
    assert(events@.take(i as int) =~= events@);
    out
}

/// Builds one signed delivery for each endpoint of the app that wants any of
/// the events.
pub fn deliver_app_events(app: &App, time_ms: u64, events: &Vec<WebhookEvent>) -> (r: Vec<
    WebhookDelivery,
>)
    ensures
        delivery_views(r@) == deliveries_to(*app, time_ms as nat, events@, app.webhooks@.len()),
        forall|i: int|
            0 <= i < r@.len() ==> {
                let d = #[trigger] r@[i];
                let headers = transport::headers_of(d.headers@);
                &&& held(headers, "X-Pusher-Key"@) == Some(app.key@)
                &&& held(headers, "X-Pusher-Signature"@) == Some(
                    transport::signature(app.secret@, d.body@),
                )
                &&& held(headers, "Content-Type"@) == Some("application/json"@)
            },
{
    let mut out: Vec<WebhookDelivery> = Vec::new();
    let mut i: usize = 0;
    assert(delivery_views(out@) =~= Seq::<DeliveryModel>::empty());
    while i < app.webhooks.len()
        invariant
            i <= app.webhooks@.len(),
            delivery_views(out@) == deliveries_to(*app, time_ms as nat, events@, i as nat),
            forall|k: int|
                0 <= k < out@.len() ==> {
                    let d = #[trigger] out@[k];
                    let headers = transport::headers_of(d.headers@);
                    &&& held(headers, "X-Pusher-Key"@) == Some(app.key@)
                    &&& held(headers, "X-Pusher-Signature"@) == Some(
                        transport::signature(app.secret@, d.body@),
                    )
                    &&& held(headers, "Content-Type"@) == Some("application/json"@)
                },
        decreases app.webhooks@.len() - i,
    {
        let endpoint: &WebhookConfig = &app.webhooks[i];
        let selected: Vec<Json> = choose_events(&endpoint.event_types, events);
        proof {
            lemma_models_len(selected@);
        }
        if selected.len() > 0 {
            let ghost before = out@;
            let d: WebhookDelivery = transport::build_signed_delivery(
                endpoint.url.as_str(),
                app.key.as_str(),
                app.secret.as_str(),
                time_ms,
                &selected,
                &endpoint.headers,
            );
            out.push(d);
            assert(delivery_views(out@) =~= delivery_views(before).push(
                delivery_to(*app, app.webhooks@[i as int], time_ms as nat, events@),
            ));
        }
        i = i + 1;
    }
    out
}

proof fn lemma_models_len(items: Seq<Json>)
    ensures
        json::models(items).len() == items.len(),
    decreases items.len(),
{
    if items.len() > 0 {
        lemma_models_len(items.drop_last());
    }
}

/// What is to be sent for an app's events, given what came of looking it up.
/// An app that is gone gets nothing.
pub fn fire(lookup: &AppLookup, time_ms: u64, events: &Vec<WebhookEvent>) -> (r: Vec<
    WebhookDelivery,
>)
    ensures
        delivery_views(r@) == deliveries_for(*lookup, time_ms as nat, events@),
        !(lookup is Found) ==> r@.len() == 0,
        lookup matches AppLookup::Found(app) ==> forall|i: int|
            0 <= i < r@.len() ==> {
                let d = #[trigger] r@[i];
                let headers = transport::headers_of(d.headers@);
                &&& held(headers, "X-Pusher-Key"@) == Some(app.key@)
                &&& held(headers, "X-Pusher-Signature"@) == Some(
                    transport::signature(app.secret@, d.body@),
                )
                &&& held(headers, "Content-Type"@) == Some("application/json"@)
            },
{
    match lookup {
        AppLookup::Found(app) => deliver_app_events(app, time_ms, events),
        _ => {
            let none: Vec<WebhookDelivery> = Vec::new();
            assert(delivery_views(none@) =~= Seq::<DeliveryModel>::empty());
            none
        },
    }
}

/// What comes of an app's part of a batch.
#[derive(Debug)]
pub struct Carried {
    /// To be sent now.
    pub deliveries: Vec<WebhookDelivery>,
    /// To wait for the grace window.
    pub waiting: Vec<WebhookEvent>,
}

/// The events of a plan that wait for the grace window: all that it defers, unless it
/// has events for now and the app was not found, which skips the app for this batch.
pub open spec fn waits(plan: AppPlan, lookup: AppLookup) -> Seq<WebhookEvent> {
    if plan.immediate@.len() == 0 || lookup is Found {
        plan.deferred@
    } else {
        Seq::empty()
    }
}

/// Carries out an app's part of a batch, given what came of looking the app up; that
/// does not matter where nothing is to be sent now. Where something is and the app is
/// unknown, disabled or could not be looked up, nothing of its part goes on.
pub fn carry_out(plan: AppPlan, lookup: &AppLookup, time_ms: u64) -> (r: Carried)
    ensures
        delivery_views(r.deliveries@) == (if plan.immediate@.len() == 0 {
            Seq::empty()
        } else {
            deliveries_for(*lookup, time_ms as nat, plan.immediate@)
        }),
        r.waiting@ == waits(plan, *lookup),
        plan.immediate@.len() == 0 || !(lookup is Found) ==> r.deliveries@.len() == 0,
        lookup is Found ==> r.waiting@ == plan.deferred@,
        plan.immediate@.len() == 0 ==> r.waiting@ == plan.deferred@,
        plan.immediate@.len() > 0 && !(lookup is Found) ==> r.waiting@.len() == 0,
        lookup matches AppLookup::Found(app) ==> forall|i: int|
            0 <= i < r.deliveries@.len() ==> {
                let d = #[trigger] r.deliveries@[i];
                let headers = transport::headers_of(d.headers@);
                &&& held(headers, "X-Pusher-Key"@) == Some(app.key@)
                &&& held(headers, "X-Pusher-Signature"@) == Some(
                    transport::signature(app.secret@, d.body@),
                )
            },
{
    if plan.immediate.len() == 0 {
        let none: Vec<WebhookDelivery> = Vec::new();
        assert(delivery_views(none@) =~= Seq::<DeliveryModel>::empty());
        return Carried { deliveries: none, waiting: plan.deferred };
    }
    let deliveries: Vec<WebhookDelivery> = fire(lookup, time_ms, &plan.immediate);
    let waiting: Vec<WebhookEvent> = match lookup {
        AppLookup::Found(_) => plan.deferred,
        _ => Vec::new(),
    };
    Carried { deliveries, waiting }
}

/// Skipping an app for a batch skips all of it: where the events for now find no app,
/// nothing is sent and nothing waits.
pub proof fn a_skipped_app_is_skipped_whole(plan: AppPlan, lookup: AppLookup, time_ms: nat)
    requires
        plan.immediate@.len() > 0,
        !(lookup is Found),
    ensures
        deliveries_for(lookup, time_ms, plan.immediate@).len() == 0,
        waits(plan, lookup).len() == 0,
{
}

/// What is put off waits unless its app was skipped: it waits where nothing was to be
/// sent now, whatever came of the lookup, and where the app was found.
pub proof fn departures_wait_unless_skipped(plan: AppPlan, lookup: AppLookup)
    ensures
        plan.immediate@.len() == 0 ==> waits(plan, lookup) == plan.deferred@,
        lookup is Found ==> waits(plan, lookup) == plan.deferred@,
        plan.immediate@.len() > 0 && (lookup is Missing || lookup is Failed) ==> waits(
            plan,
            lookup,
        ).len() == 0,
{
}

/// Every delivery for an app carries the app's key, and the signature of its own
/// body under the app's secret, whatever headers its endpoint adds; any other header
/// of the endpoint goes along as given.
pub proof fn deliveries_are_signed_by_the_app(
    app: App,
    time_ms: nat,
    events: Seq<WebhookEvent>,
    n: nat,
    i: int,
)
    requires
        n <= app.webhooks@.len(),
        0 <= i < deliveries_to(app, time_ms, events, n).len(),
    ensures
        ({
            let d = deliveries_to(app, time_ms, events, n)[i];
            &&& held(d.headers, "X-Pusher-Key"@) == Some(app.key@)
            &&& held(d.headers, "X-Pusher-Signature"@) == Some(
                transport::signature(app.secret@, d.body),
            )
            &&& held(d.headers, "Content-Type"@) == Some("application/json"@)
        }),
    decreases n,
{
    if i < deliveries_to(app, time_ms, events, (n - 1) as nat).len() {
        deliveries_are_signed_by_the_app(app, time_ms, events, (n - 1) as nat, i);
    } else {
        let endpoint = app.webhooks@[n - 1];
        let body = transport::body_text(time_ms, chosen(names(endpoint.event_types@), events));
        let sig = transport::signature(app.secret@, body);
        let custom = transport::headers_of(endpoint.headers@);
        reveal_strlit("X-Pusher-Key");
        reveal_strlit("X-Pusher-Signature");
        reveal_strlit("Content-Type");
        assert("X-Pusher-Key"@.len() != "X-Pusher-Signature"@.len());
        assert("Content-Type"@.len() != "X-Pusher-Signature"@.len());
        assert("X-Pusher-Key"@[0] != "Content-Type"@[0]);
        transport::own_headers_win(app.key@, sig, custom, "X-Pusher-Key"@);
        transport::own_headers_win(app.key@, sig, custom, "X-Pusher-Signature"@);
        transport::own_headers_win(app.key@, sig, custom, "Content-Type"@);
    }
}

/// An endpoint wants one of the events: their list of names has the event's.
pub open spec fn wants(endpoint: WebhookConfig, e: WebhookEvent) -> bool {
    names(endpoint.event_types@).contains(name_of(e))
}

/// The positions of those of the first `n` endpoints that want some of the events.
pub open spec fn wanting(app: App, events: Seq<WebhookEvent>, n: nat) -> Seq<int> {
    Seq::new(n, |j: int| j).filter(
        |j: int| exists|i: int| 0 <= i < events.len() && wants(app.webhooks@[j], #[trigger] events[i]),
    )
}

/// The events that go to an endpoint are those that it wants, all of them and in
/// their order, each as its object.
pub proof fn endpoints_get_what_they_want(endpoint: WebhookConfig, events: Seq<WebhookEvent>)
    ensures
        chosen(names(endpoint.event_types@), events) == events.filter(
            |e: WebhookEvent| wants(endpoint, e),
        ).map_values(|e: WebhookEvent| event_json(e)),
        chosen(names(endpoint.event_types@), events).len() > 0 <==> exists|i: int|
            0 <= i < events.len() && wants(endpoint, #[trigger] events[i]),
    decreases events.len(),
{
    reveal(Seq::filter);
    let types = names(endpoint.event_types@);
    let keep = |e: WebhookEvent| wants(endpoint, e);
    let write = |e: WebhookEvent| event_json(e);
    if events.len() > 0 {
        let rest = events.drop_last();
        endpoints_get_what_they_want(endpoint, rest);
        assert(events.filter(keep).map_values(write) =~= chosen(types, events));
        if exists|i: int| 0 <= i < rest.len() && wants(endpoint, #[trigger] rest[i]) {
            let i = choose|i: int| 0 <= i < rest.len() && wants(endpoint, #[trigger] rest[i]);
            assert(wants(endpoint, events[i]));
        }
        if wants(endpoint, events.last()) {
            assert(wants(endpoint, events[events.len() - 1]));
        }
        if exists|i: int| 0 <= i < events.len() && wants(endpoint, #[trigger] events[i]) {
            let i = choose|i: int| 0 <= i < events.len() && wants(endpoint, #[trigger] events[i]);
            if i < rest.len() {
                assert(wants(endpoint, rest[i]));
            }
        }
    } else {
        assert(events.filter(keep).map_values(write) =~= chosen(types, events));
    }
}

/// Exactly the endpoints that want some of the events get a delivery, one each and in
/// their order, at their own address, with the time and the events they want.
pub proof fn each_wanting_endpoint_gets_one(
    app: App,
    time_ms: nat,
    events: Seq<WebhookEvent>,
    n: nat,
)
    requires
        n <= app.webhooks@.len(),
    ensures
        deliveries_to(app, time_ms, events, n).len() == wanting(app, events, n).len(),
        forall|k: int|
            0 <= k < wanting(app, events, n).len() ==> {
                let j = #[trigger] wanting(app, events, n)[k];
                let d = deliveries_to(app, time_ms, events, n)[k];
                &&& 0 <= j < n
                &&& d.url == app.webhooks@[j].url@
                &&& d.body == transport::body_text(
                    time_ms,
                    events.filter(|e: WebhookEvent| wants(app.webhooks@[j], e)).map_values(
                        |e: WebhookEvent| event_json(e),
                    ),
                )
            },
    decreases n,
{
    reveal(Seq::filter);
    let some = |j: int|
        exists|i: int| 0 <= i < events.len() && wants(app.webhooks@[j], #[trigger] events[i]);
    let all = Seq::new(n, |j: int| j);
    if n > 0 {
        let m = (n - 1) as nat;
        each_wanting_endpoint_gets_one(app, time_ms, events, m);
        assert(all.drop_last() =~= Seq::new(m, |j: int| j));
        assert(all.last() == n - 1);
        let endpoint = app.webhooks@[n - 1];
        endpoints_get_what_they_want(endpoint, events);
        let before = wanting(app, events, m);
        let now = wanting(app, events, n);
        if some(n - 1) {
            assert(now == before.push(n - 1));
        } else {
            assert(now == before);
        }
        assert forall|k: int| 0 <= k < now.len() implies {
            let j = #[trigger] now[k];
            let d = deliveries_to(app, time_ms, events, n)[k];
            &&& 0 <= j < n
            &&& d.url == app.webhooks@[j].url@
            &&& d.body == transport::body_text(
                time_ms,
                events.filter(|e: WebhookEvent| wants(app.webhooks@[j], e)).map_values(
                    |e: WebhookEvent| event_json(e),
                ),
            )
        } by {
            if k < before.len() {
                assert(before[k] == now[k]);
            }
        }
    }
}

/// Only the two events that a return undoes are ever put off.
pub proof fn departures_are_named(e: WebhookEvent)
    ensures
        deferrable(e) <==> name_of(e) == "channel_vacated"@ || name_of(e) == "member_removed"@,
{
    reveal_strlit("channel_occupied");
    reveal_strlit("channel_vacated");
    reveal_strlit("member_added");
    reveal_strlit("member_removed");
    reveal_strlit("client_event");
    reveal_strlit("cache_miss");
    reveal_strlit("subscription_count");
    assert("channel_occupied"@.len() == 16 && "channel_vacated"@.len() == 15);
    assert("member_added"@.len() == 12 && "member_removed"@.len() == 14);
    assert("client_event"@.len() == 12 && "cache_miss"@.len() == 10);
    assert("subscription_count"@.len() == 18);
}

/// A split loses and adds nothing: an app's part of a batch is its events, in their
/// order, those that a return undoes put off where there is a grace window and sent
/// with the others where there is none.
pub proof fn a_split_keeps_every_event(
    events: Seq<WebhookEvent>,
    app: Seq<char>,
    grace: bool,
)
    ensures
        part(events, app, grace, true) == events.filter(
            |e: WebhookEvent| app_of(e) == app && grace && deferrable(e),
        ),
        part(events, app, grace, false) == events.filter(
            |e: WebhookEvent| app_of(e) == app && !(grace && deferrable(e)),
        ),
        part(events, app, false, true).len() == 0,
        part(events, app, grace, true).len() + part(events, app, grace, false).len()
            == events.filter(|e: WebhookEvent| app_of(e) == app).len(),
    decreases events.len(),
{
    reveal(Seq::filter);
    if events.len() > 0 {
        a_split_keeps_every_event(events.drop_last(), app, grace);
    }
}

/// The reading of the clock is the number of milliseconds itself for as long as that
/// fits, and zero before the epoch.
pub proof fn readings_are_milliseconds(since: Option<u128>)
    ensures
        since matches Some(ms) ==> ms <= u64::MAX ==> clock_reading(since) == ms,
        since is None ==> clock_reading(since) == 0,
        clock_reading(since) <= u64::MAX,
{
}

/// A time of the system is an answer of `SystemTime::now`.
proof fn the_system_tells_the_time(t: SystemTime)
    ensures
        system_time(t) <==> call_ensures(system_now, (), t),
{
}

/// The event is one that a client's return within the grace window undoes.
pub open spec fn deferrable(e: WebhookEvent) -> bool {
    e is ChannelVacated || e is MemberRemoved
}

fn is_deferrable(e: &WebhookEvent) -> (r: bool)
    ensures
        r == deferrable(*e),
{
    match e {
        WebhookEvent::ChannelVacated { .. } => true,
        WebhookEvent::MemberRemoved { .. } => true,
        _ => false,
    }
}

/// The client has come back: the channel is occupied, or the user is a member.
pub open spec fn undone<S: OccupancySource>(e: WebhookEvent, source: &S) -> bool {
    match e {
        WebhookEvent::ChannelVacated { app, channel } => source.count_of(app@, channel@) != 0,
        WebhookEvent::MemberRemoved { app, channel, user_id } => source.present(
            app@,
            channel@,
            user_id@,
        ),
        _ => false,
    }
}

/// Whether a delayed event fires after all. Without a source of occupancy it
/// does.
pub fn still_due<S: OccupancySource>(event: &WebhookEvent, source: Option<&S>) -> (r: bool)
    ensures
        r == match source {
            Some(s) => !undone(*event, s),
            None => true,
        },
{
    match source {
        None => true,
        Some(s) => match event {
            WebhookEvent::ChannelVacated { app, channel } => s.subscription_count(
                app.as_str(),
                channel.as_str(),
            ) == 0,
            WebhookEvent::MemberRemoved { app, channel, user_id } => !s.is_member_present(
                app.as_str(),
                channel.as_str(),
                user_id.as_str(),
            ),
            _ => true,
        },
    }
}

/// One app's part of a batch.
#[derive(Debug)]
pub struct AppPlan {
    pub app: String,
    /// Sent now.
    pub immediate: Vec<WebhookEvent>,
    /// Each sent on its own after the grace window, if it is still due.
    pub deferred: Vec<WebhookEvent>,
}

/// The events of an app that go to the given part, in order.
pub open spec fn part(
    events: Seq<WebhookEvent>,
    app: Seq<char>,
    grace: bool,
    deferred: bool,
) -> Seq<WebhookEvent>
    decreases events.len(),
{
    if events.len() == 0 {
        events
    } else {
        let before = part(events.drop_last(), app, grace, deferred);
        let e = events.last();
        if app_of(e) == app && (grace && deferrable(e)) == deferred {
            before.push(e)
        } else {
            before
        }
    }
}

/// The app has an event in the batch.
pub open spec fn mentions(events: Seq<WebhookEvent>, app: Seq<char>) -> bool {
    exists|i: int| 0 <= i < events.len() && app_of(#[trigger] events[i]) == app
}

/// One of the plans is for the app.
pub open spec fn planned(plans: Seq<AppPlan>, app: Seq<char>) -> bool {
    exists|i: int| 0 <= i < plans.len() && (#[trigger] plans[i]).app@ == app
}

/// The plans split the batch: one for each app in it and no other, each with
/// all of its app's events.
pub open spec fn splits(plans: Seq<AppPlan>, events: Seq<WebhookEvent>, grace: bool) -> bool {
    &&& forall|i: int, j: int|
        0 <= i < j < plans.len() ==> (#[trigger] plans[i]).app@ != (#[trigger] plans[j]).app@
    &&& forall|app: Seq<char>| #[trigger] planned(plans, app) <==> mentions(events, app)
    &&& forall|i: int|
        0 <= i < plans.len() ==> {
            let p = #[trigger] plans[i];
            &&& p.immediate@ == part(events, p.app@, grace, false)
            &&& p.deferred@ == part(events, p.app@, grace, true)
        }
}

/// The batch that is being collected.
#[derive(Debug)]
pub struct WebhookDispatcher {
    pub batch_ms: u64,
    /// How long `channel_vacated` and `member_removed` wait; zero for not at all.
    pub vacated_grace_ms: u64,
    pub batch: Vec<WebhookEvent>,
    /// When the window closes, while it is open.
    pub deadline_ms: Option<u64>,
}

impl WebhookDispatcher {
    /// A window is open exactly while there is something in the batch.
    pub open spec fn wf(self) -> bool {
        self.deadline_ms is Some <==> self.batch@.len() > 0
    }

    pub fn new(batch_ms: u64, vacated_grace_ms: u64) -> (d: WebhookDispatcher)
        ensures
            d.wf(),
            d.batch_ms == batch_ms,
            d.vacated_grace_ms == vacated_grace_ms,
            d.batch@ == Seq::<WebhookEvent>::empty(),
    {
        WebhookDispatcher { batch_ms, vacated_grace_ms, batch: Vec::new(), deadline_ms: None }
    }

    /// Takes an event in. The first one of a batch opens the window; later ones
    /// do not move it.
    pub fn on_event(&mut self, event: WebhookEvent, now_ms: u64)
        requires
            old(self).wf(),
        ensures
            final(self).wf(),
            final(self).batch@ == old(self).batch@.push(event),
            final(self).batch_ms == old(self).batch_ms,
            final(self).vacated_grace_ms == old(self).vacated_grace_ms,
            final(self).deadline_ms == match old(self).deadline_ms {
                Some(t) => Some(t),
                None => Some(
                    if now_ms + old(self).batch_ms > u64::MAX {
                        u64::MAX
                    } else {
                        (now_ms + old(self).batch_ms) as u64
                    },
                ),
            },
    {
        if self.deadline_ms.is_none() {
            self.deadline_ms = Some(now_ms.saturating_add(self.batch_ms));
        }
        self.batch.push(event);
    }

    /// How long to wait for more events: as long as it takes while the batch is
    /// empty, else until the window closes.
    pub fn wait_ms(&self, now_ms: u64) -> (r: Option<u64>)
        requires
            self.wf(),
        ensures
            r == match self.deadline_ms {
                None => None,
                Some(t) => Some(
                    if t > now_ms {
                        (t - now_ms) as u64
                    } else {
                        0u64
                    },
                ),
            },
    {
        match self.deadline_ms {
            None => None,
            Some(t) => if t > now_ms {
                Some(t - now_ms)
            } else {
                Some(0)
            },
        }
    }

    /// The batch, once its window has closed or no more events can come.
    pub fn take_due(&mut self, now_ms: u64, closed: bool) -> (r: Option<Vec<WebhookEvent>>)
        requires
            old(self).wf(),
        ensures
            final(self).wf(),
            final(self).batch_ms == old(self).batch_ms,
            final(self).vacated_grace_ms == old(self).vacated_grace_ms,
            match r {
                Some(b) => {
                    &&& old(self).batch@.len() > 0
                    &&& closed || now_ms >= old(self).deadline_ms->0
                    &&& b@ == old(self).batch@
                    &&& final(self).batch@ == Seq::<WebhookEvent>::empty()
                },
                None => {
                    &&& old(self).batch@.len() == 0 || (!closed && now_ms < old(self).deadline_ms->0)
                    &&& *final(self) == *old(self)
                },
            },
    {
        match self.deadline_ms {
            Some(t) => if closed || now_ms >= t {
                let mut b: Vec<WebhookEvent> = Vec::new();
                std::mem::swap(&mut b, &mut self.batch);
                self.deadline_ms = None;
                Some(b)
            } else {
                None
            },
            None => None,
        }
    }

    /// Splits a batch by app, and each app's part into what is sent now and what
    /// waits for the grace window.
    pub fn flush(&self, batch: Vec<WebhookEvent>) -> (plans: Vec<AppPlan>)
        ensures
            splits(plans@, batch@, self.vacated_grace_ms > 0),
    {
        let grace: bool = self.vacated_grace_ms > 0;
        let ghost all = batch@;
        let mut plans: Vec<AppPlan> = Vec::new();
        proof {
            assert(all.take(0) =~= Seq::<WebhookEvent>::empty());
            assert forall|app: Seq<char>| #[trigger]
                planned(plans@, app) <==> mentions(all.take(0), app) by {}
        }
        for e in it: batch
            invariant
                all == batch@,
                it.seq() == all,
                splits(plans@, all.take(it.index() as int), grace),
        {
            let ghost n = it.index() as int;
            let ghost done = all.take(n);
            let ghost more = all.take(n + 1);
            let ghost app = app_of(e);
            let ghost before = plans@;
            proof {
                assert(e == all[n]);
                assert(more.drop_last() =~= done);
                assert(more.last() == e);
            }
            let at: usize = find_plan(&plans, e.app());
            let defer: bool = grace && is_deferrable(&e);
            if at < plans.len() {
                proof {
                    assert(before[at as int].app@ == app);
                }
                let mut p: AppPlan = plans.remove(at);
                let ghost old_p = p;
                if defer {
                    p.deferred.push(e);
                } else {
                    p.immediate.push(e);
                }
                plans.insert(at, p);
                proof {
                    assert(plans@ =~= before.update(at as int, p));
                    assert(p.app == old_p.app);
                    lemma_updated(before, plans@, done, more, grace, at as int);
                }
            } else {
                let mut p: AppPlan = AppPlan {
                    app: e.app().to_owned(),
                    immediate: Vec::new(),
                    deferred: Vec::new(),
                };
                if defer {
                    p.deferred.push(e);
                } else {
                    p.immediate.push(e);
                }
                plans.push(p);
                proof {
                    assert(plans@.drop_last() =~= before);
                    lemma_fresh(done, app, grace);
                    lemma_added(before, plans@, done, more, grace);
                }
            }
        }
        assert(all.take(all.len() as int) =~= all);
        plans
    }
}

/// The position of the app's plan, or the number of plans.
fn find_plan(plans: &Vec<AppPlan>, app: &str) -> (at: usize)
    ensures
        at <= plans@.len(),
        at < plans@.len() ==> plans@[at as int].app@ == app@,
        at == plans@.len() ==> !planned(plans@, app@),
{
    let mut i: usize = 0;
    while i < plans.len()
        invariant
            i <= plans@.len(),
            forall|j: int| 0 <= j < i ==> (#[trigger] plans@[j]).app@ != app@,
        decreases plans@.len() - i,
    {
        if text::str_eq(plans[i].app.as_str(), app) {
            return i;
        }
        i = i + 1;
    }
    i
}

proof fn lemma_mentions(events: Seq<WebhookEvent>, more: Seq<WebhookEvent>, app: Seq<char>)
    requires
        more.len() == events.len() + 1,
        more.drop_last() == events,
    ensures
        mentions(more, app) <==> mentions(events, app) || app_of(more.last()) == app,
{
    if mentions(events, app) {
        let i = choose|i: int| 0 <= i < events.len() && app_of(#[trigger] events[i]) == app;
        assert(more[i] == events[i]);
    }
    if app_of(more.last()) == app {
        assert(more[more.len() - 1] == more.last());
    }
    if mentions(more, app) {
        let i = choose|i: int| 0 <= i < more.len() && app_of(#[trigger] more[i]) == app;
        if i < events.len() {
            assert(events[i] == more[i]);
        }
    }
}

proof fn lemma_fresh(events: Seq<WebhookEvent>, app: Seq<char>, grace: bool)
    ensures
        !mentions(events, app) ==> part(events, app, grace, false) == Seq::<WebhookEvent>::empty()
            && part(events, app, grace, true) == Seq::<WebhookEvent>::empty(),
    decreases events.len(),
{
    if events.len() > 0 {
        lemma_mentions(events.drop_last(), events, app);
        lemma_fresh(events.drop_last(), app, grace);
    } else {
        assert(events =~= Seq::<WebhookEvent>::empty());
    }
}

proof fn lemma_updated(
    before: Seq<AppPlan>,
    after: Seq<AppPlan>,
    done: Seq<WebhookEvent>,
    more: Seq<WebhookEvent>,
    grace: bool,
    at: int,
)
    requires
        splits(before, done, grace),
        more.len() == done.len() + 1,
        more.drop_last() == done,
        0 <= at < before.len(),
        after.len() == before.len(),
        forall|i: int| 0 <= i < before.len() && i != at ==> #[trigger] after[i] == before[i],
        after[at].app@ == before[at].app@,
        before[at].app@ == app_of(more.last()),
        ({
            let e = more.last();
            let defer = grace && deferrable(e);
            &&& after[at].immediate@ == if defer {
                before[at].immediate@
            } else {
                before[at].immediate@.push(e)
            }
            &&& after[at].deferred@ == if defer {
                before[at].deferred@.push(e)
            } else {
                before[at].deferred@
            }
        }),
    ensures
        splits(after, more, grace),
{
    assert forall|i: int, j: int| 0 <= i < j < after.len() implies (#[trigger] after[i]).app@ != (
    #[trigger] after[j]).app@ by {
        assert(after[i].app@ == before[i].app@);
        assert(after[j].app@ == before[j].app@);
    }
    assert forall|app: Seq<char>| #[trigger] planned(after, app) <==> mentions(more, app) by {
        lemma_mentions(done, more, app);
        assert(planned(before, app) <==> mentions(done, app));
        if planned(before, app) {
            let i = choose|i: int| 0 <= i < before.len() && (#[trigger] before[i]).app@ == app;
            assert(after[i].app@ == app);
        }
        if planned(after, app) {
            let i = choose|i: int| 0 <= i < after.len() && (#[trigger] after[i]).app@ == app;
            assert(before[i].app@ == app);
        }
        if app_of(more.last()) == app {
            assert(after[at].app@ == app);
        }
    }
    assert forall|i: int| 0 <= i < after.len() implies {
        let p = #[trigger] after[i];
        &&& p.immediate@ == part(more, p.app@, grace, false)
        &&& p.deferred@ == part(more, p.app@, grace, true)
    } by {
        assert(before[i].immediate@ == part(done, before[i].app@, grace, false));
        if i != at {
            assert(after[i] == before[i]);
            if i < at {
                assert(before[i].app@ != before[at].app@);
            } else {
                assert(before[at].app@ != before[i].app@);
            }
        }
    }
}

proof fn lemma_added(
    before: Seq<AppPlan>,
    after: Seq<AppPlan>,
    done: Seq<WebhookEvent>,
    more: Seq<WebhookEvent>,
    grace: bool,
)
    requires
        splits(before, done, grace),
        more.len() == done.len() + 1,
        more.drop_last() == done,
        !planned(before, app_of(more.last())),
        after.len() == before.len() + 1,
        after.drop_last() == before,
        after.last().app@ == app_of(more.last()),
        part(done, app_of(more.last()), grace, false) == Seq::<WebhookEvent>::empty(),
        part(done, app_of(more.last()), grace, true) == Seq::<WebhookEvent>::empty(),
        ({
            let e = more.last();
            let defer = grace && deferrable(e);
            &&& after.last().immediate@ == if defer {
                Seq::<WebhookEvent>::empty()
            } else {
                Seq::<WebhookEvent>::empty().push(e)
            }
            &&& after.last().deferred@ == if defer {
                Seq::<WebhookEvent>::empty().push(e)
            } else {
                Seq::<WebhookEvent>::empty()
            }
        }),
    ensures
        splits(after, more, grace),
{
    let n = before.len() as int;
    let mine = app_of(more.last());
    assert(forall|i: int| 0 <= i < n ==> #[trigger] after[i] == before[i]);
    assert forall|i: int, j: int| 0 <= i < j < after.len() implies (#[trigger] after[i]).app@ != (
    #[trigger] after[j]).app@ by {
        assert(after[i] == before[i]);
        if j == n {
            assert(before[i].app@ != mine);
        } else {
            assert(after[j] == before[j]);
        }
    }
    assert forall|app: Seq<char>| #[trigger] planned(after, app) <==> mentions(more, app) by {
        lemma_mentions(done, more, app);
        assert(planned(before, app) <==> mentions(done, app));
        if planned(before, app) {
            let i = choose|i: int| 0 <= i < before.len() && (#[trigger] before[i]).app@ == app;
            assert(after[i].app@ == app);
        }
        if planned(after, app) {
            let i = choose|i: int| 0 <= i < after.len() && (#[trigger] after[i]).app@ == app;
            if i < n {
                assert(before[i].app@ == app);
            }
        }
        if mine == app {
            assert(after[n].app@ == app);
        }
    }
    assert forall|i: int| 0 <= i < after.len() implies {
        let p = #[trigger] after[i];
        &&& p.immediate@ == part(more, p.app@, grace, false)
        &&& p.deferred@ == part(more, p.app@, grace, true)
    } by {
        if i < n {
            assert(after[i] == before[i]);
            assert(before[i].immediate@ == part(done, before[i].app@, grace, false));
            assert(before[i].app@ != mine);
        }
    }
}

/// The events of one app, in order.
pub open spec fn of_app(events: Seq<WebhookEvent>, app: Seq<char>) -> Seq<WebhookEvent>
    decreases events.len(),
{
    if events.len() == 0 {
        events
    } else if app_of(events.last()) == app {
        of_app(events.drop_last(), app).push(events.last())
    } else {
        of_app(events.drop_last(), app)
    }
}

/// No event is lost or sent twice: an app's events are either sent now or
/// deferred, each of them once.
pub proof fn every_event_goes_one_way(events: Seq<WebhookEvent>, app: Seq<char>, grace: bool)
    ensures
        part(events, app, grace, false).to_multiset().add(
            part(events, app, grace, true).to_multiset(),
        ) =~= of_app(events, app).to_multiset(),
    decreases events.len(),
{
    broadcast use vstd::seq_lib::group_to_multiset_ensures;

    if events.len() > 0 {
        every_event_goes_one_way(events.drop_last(), app, grace);
    }
}

/// Every one of the events is deferrable.
pub open spec fn all_deferrable(events: Seq<WebhookEvent>) -> bool {
    forall|i: int| 0 <= i < events.len() ==> deferrable(#[trigger] events[i])
}

/// Only `channel_vacated` and `member_removed` are ever deferred, and without
/// a grace window nothing is.
pub proof fn only_departures_wait(events: Seq<WebhookEvent>, app: Seq<char>, grace: bool)
    ensures
        all_deferrable(part(events, app, grace, true)),
        !grace ==> part(events, app, grace, true) == Seq::<WebhookEvent>::empty(),
        !grace ==> part(events, app, grace, false) == of_app(events, app),
    decreases events.len(),
{
    if events.len() > 0 {
        only_departures_wait(events.drop_last(), app, grace);
    }
}

} // verus!
