//! What a webhook delivery consists of, and how it is retried.
use crate::json::{self, Json, JsonModel};
use crate::ordered::{self, held, increasing, insert_entry};
use crate::text;
use crate::webhook::target::IpAddr;
use hmac::Mac;
use vstd::prelude::*;
use vstd::utf8::encode_utf8;

verus! {

/// One request, ready to be sent: the body exactly as it was signed, and all
/// the headers in the order of their names.
#[derive(Debug, Clone, PartialEq)]
pub struct WebhookDelivery {
    pub url: String,
    pub body: String,
    pub headers: Vec<(String, String)>,
}

/// The headers of a list, by name.
pub open spec fn headers_of(list: Seq<(String, String)>) -> Seq<(Seq<char>, Seq<char>)> {
    Seq::new(list.len(), |i: int| (list[i].0@, list[i].1@))
}

/// The headers in the order of their names; of several with one name, the last.
pub open spec fn sorted_headers(headers: Seq<(Seq<char>, Seq<char>)>) -> Seq<
    (Seq<char>, Seq<char>),
>
    decreases headers.len(),
{
    if headers.len() == 0 {
        headers
    } else {
        insert_entry(
            sorted_headers(headers.drop_last()),
            headers.last().0,
            headers.last().1,
        )
    }
}

/// The envelope around the events of a delivery.
pub open spec fn envelope(time_ms: nat, events: Seq<JsonModel>) -> JsonModel {
    JsonModel::Object(
        seq![
            ("time_ms"@, JsonModel::Number(text::decimal(time_ms))),
            ("events"@, JsonModel::Array(events)),
        ],
    )
}

/// The body of a delivery: the envelope with all keys in order.
pub open spec fn body_text(time_ms: nat, events: Seq<JsonModel>) -> Seq<char> {
    envelope(time_ms, events).ordered().text()
}

/// The HMAC-SHA256 of a message.
pub uninterp spec fn hmac_sha256_of(key: Seq<u8>, message: Seq<u8>) -> Seq<u8>;

/// `hmac::Hmac` over `sha2::Sha256`: the code depends on the key and the
/// message alone. A key of any length is accepted.
#[verifier::external_body]
fn hmac_sha256(key: &[u8], message: &[u8]) -> (r: Vec<u8>)
    ensures
        r@ == hmac_sha256_of(key@, message@),
{
    let mut mac = hmac::Hmac::<sha2::Sha256>::new_from_slice(key).expect("a key of any length");
    mac.update(message);
    mac.finalize().into_bytes().to_vec()
}

/// The bytes in lower-case hexadecimal.
pub open spec fn hex_text(bytes: Seq<u8>) -> Seq<char>
    decreases bytes.len(),
{
    if bytes.len() == 0 {
        Seq::empty()
    } else {
        hex_text(bytes.drop_last()) + seq![
            json::hex(bytes.last() as nat / 16),
            json::hex(bytes.last() as nat % 16),
        ]
    }
}

fn hex_digit(d: u8) -> (c: char)
    requires
        d < 16,
    ensures
        c == json::hex(d as nat),
{
    if d < 10 {
        (48 + d) as char
    } else {
        (87 + d) as char
    }
}

/// Writes bytes in lower-case hexadecimal.
pub fn to_hex(bytes: &Vec<u8>) -> (s: String)
    ensures
        s@ == hex_text(bytes@),
{
    let mut s: String = String::new();
    let mut i: usize = 0;
    assert(bytes@.take(0) =~= Seq::<u8>::empty());
    while i < bytes.len()
        invariant
            i <= bytes@.len(),
            s@ == hex_text(bytes@.take(i as int)),
        decreases bytes@.len() - i,
    {
        proof {
            assert(bytes@.take(i + 1).drop_last() =~= bytes@.take(i as int));
        }
        let ghost before = s@;
        let b: u8 = bytes[i];
        s.push(hex_digit(b / 16));
        s.push(hex_digit(b % 16));
        i = i + 1;
        assert(s@ =~= before + seq![json::hex(b as nat / 16), json::hex(b as nat % 16)]);
    }
    assert(bytes@.take(i as int) =~= bytes@);
    s
}

/// The signature of a text.
pub open spec fn signature(secret: Seq<char>, body: Seq<char>) -> Seq<char> {
    hex_text(hmac_sha256_of(encode_utf8(secret), encode_utf8(body)))
}

/// Signs a text: its HMAC-SHA256, in lower-case hexadecimal.
pub fn hmac_sha256_hex(secret: &str, body: &str) -> (r: String)
    ensures
        r@ == signature(secret@, body@),
{
    to_hex(&hmac_sha256(secret.as_bytes(), body.as_bytes()))
}

fn put_header(out: &mut Vec<(String, String)>, name: &str, value: &str)
    ensures
        headers_of(final(out)@) == insert_entry(headers_of(old(out)@), name@, value@),
{
    let ghost before = out@;
    let ghost f = |v: String| v@;
    let owned: String = value.to_owned();
    proof {
        assert(headers_of(before) =~= ordered::mapped(ordered::entries_of(before), f));
        ordered::lemma_insert_mapped(ordered::entries_of(before), name@, owned, f);
    }
    ordered::put(out, name.to_owned(), owned);
    assert(headers_of(out@) =~= ordered::mapped(ordered::entries_of(out@), f));
}

/// The headers of a delivery: the custom ones, then the three of its own,
/// which take the place of custom ones with their names.
pub open spec fn delivery_headers(
    key: Seq<char>,
    signature: Seq<char>,
    custom: Seq<(Seq<char>, Seq<char>)>,
) -> Seq<(Seq<char>, Seq<char>)> {
    insert_entry(
        insert_entry(
            insert_entry(sorted_headers(custom), "Content-Type"@, "application/json"@),
            "X-Pusher-Key"@,
            key,
        ),
        "X-Pusher-Signature"@,
        signature,
    )
}

/// Puts a delivery together from a body that has been signed.
pub fn assemble(
    url: &str,
    app_key: &str,
    body: String,
    signature: &str,
    custom: &Vec<(String, String)>,
) -> (d: WebhookDelivery)
    ensures
        d.url@ == url@,
        d.body@ == body@,
        headers_of(d.headers@) == delivery_headers(app_key@, signature@, headers_of(custom@)),
{
    let mut headers: Vec<(String, String)> = Vec::new();
    let ghost given = headers_of(custom@);
    let mut i: usize = 0;
    proof {
        assert(given.take(0) =~= Seq::<(Seq<char>, Seq<char>)>::empty());
        assert(headers_of(headers@) =~= Seq::<(Seq<char>, Seq<char>)>::empty());
    }
    while i < custom.len()
        invariant
            i <= custom@.len(),
            given == headers_of(custom@),
            headers_of(headers@) == sorted_headers(given.take(i as int)),
        decreases custom@.len() - i,
    {
        proof {
            assert(given.take(i + 1).drop_last() =~= given.take(i as int));
            assert(given.take(i + 1).last() == given[i as int]);
        }
        put_header(&mut headers, custom[i].0.as_str(), custom[i].1.as_str());
        i = i + 1;
    }
    assert(given.take(i as int) =~= given);
    put_header(&mut headers, "Content-Type", "application/json");
    put_header(&mut headers, "X-Pusher-Key", app_key);
    put_header(&mut headers, "X-Pusher-Signature", signature);
    WebhookDelivery { url: url.to_owned(), body, headers }
}

/// Writes the body of a delivery.
pub fn envelope_text(time_ms: u64, events: &Vec<Json>) -> (r: String)
    ensures
        r@ == body_text(time_ms as nat, json::models(events@)),
{
    let mut fields: Vec<(String, Json)> = Vec::new();
    assert(json::field_models(fields@) =~= Seq::<(Seq<char>, JsonModel)>::empty());
    json::push_field(&mut fields, "time_ms", Json::Number(text::decimal_text(time_ms)));
    json::push_field(&mut fields, "events", json::copy_array(events));
    let v: Json = Json::Object(fields);
    assert(v@->Object_0 =~= envelope(time_ms as nat, json::models(events@))->Object_0);
    json::sort_keys(&v).to_text()
}

/// Builds the envelope around the events, signs its text with the app's
/// secret, and puts the delivery together. No custom header can replace the
/// content type, the key or the signature.
pub fn build_signed_delivery(
    url: &str,
    app_key: &str,
    secret: &str,
    time_ms: u64,
    events: &Vec<Json>,
    custom: &Vec<(String, String)>,
) -> (d: WebhookDelivery)
    ensures
        d.url@ == url@,
        d.body@ == body_text(time_ms as nat, json::models(events@)),
        headers_of(d.headers@) == delivery_headers(
            app_key@,
            signature(secret@, d.body@),
            headers_of(custom@),
        ),
        held(headers_of(d.headers@), "X-Pusher-Key"@) == Some(app_key@),
        held(headers_of(d.headers@), "X-Pusher-Signature"@) == Some(signature(secret@, d.body@)),
        held(headers_of(d.headers@), "Content-Type"@) == Some("application/json"@),
{
    let body: String = envelope_text(time_ms, events);
    let sig: String = hmac_sha256_hex(secret, body.as_str());
    proof {
        lemma_own_names();
        let custom_headers = headers_of(custom@);
        own_headers_win(app_key@, sig@, custom_headers, "X-Pusher-Key"@);
        own_headers_win(app_key@, sig@, custom_headers, "X-Pusher-Signature"@);
        own_headers_win(app_key@, sig@, custom_headers, "Content-Type"@);
    }
    assemble(url, app_key, body, sig.as_str(), custom)
}

/// The three names of a delivery's own headers differ.
proof fn lemma_own_names()
    ensures
        "X-Pusher-Key"@ != "X-Pusher-Signature"@,
        "X-Pusher-Key"@ != "Content-Type"@,
        "X-Pusher-Signature"@ != "Content-Type"@,
{
    reveal_strlit("X-Pusher-Key");
    reveal_strlit("X-Pusher-Signature");
    reveal_strlit("Content-Type");
    assert("X-Pusher-Key"@[0] != "Content-Type"@[0]);
    assert("X-Pusher-Key"@.len() != "X-Pusher-Signature"@.len());
    assert("X-Pusher-Signature"@.len() != "Content-Type"@.len());
}

proof fn lemma_sorted_headers(headers: Seq<(Seq<char>, Seq<char>)>, name: Seq<char>)
    ensures
        increasing(sorted_headers(headers)),
        held(sorted_headers(headers), name) == held(headers, name),
    decreases headers.len(),
{
    if headers.len() > 0 {
        lemma_sorted_headers(headers.drop_last(), name);
        ordered::lemma_insert_entry(
            sorted_headers(headers.drop_last()),
            headers.last().0,
            headers.last().1,
            name,
        );
    }
}

/// The content type, the key and the signature are the delivery's own,
/// whatever the custom headers say; every other custom header is sent as given.
pub proof fn own_headers_win(
    key: Seq<char>,
    signature: Seq<char>,
    custom: Seq<(Seq<char>, Seq<char>)>,
    name: Seq<char>,
)
    ensures
        held(delivery_headers(key, signature, custom), name) == if name == "X-Pusher-Signature"@ {
            Some(signature)
        } else if name == "X-Pusher-Key"@ {
            Some(key)
        } else if name == "Content-Type"@ {
            Some("application/json"@)
        } else {
            held(custom, name)
        },
        increasing(delivery_headers(key, signature, custom)),
{
    let a = sorted_headers(custom);
    let b = insert_entry(a, "Content-Type"@, "application/json"@);
    let c = insert_entry(b, "X-Pusher-Key"@, key);
    lemma_sorted_headers(custom, name);
    ordered::lemma_insert_entry(a, "Content-Type"@, "application/json"@, name);
    ordered::lemma_insert_entry(b, "X-Pusher-Key"@, key, name);
    ordered::lemma_insert_entry(c, "X-Pusher-Signature"@, signature, name);
}

/// The value of a lower-case hexadecimal digit, or sixteen for another character.
pub open spec fn hex_value(c: char) -> int {
    if '0' <= c && c <= '9' {
        c as int - '0' as int
    } else if 'a' <= c && c <= 'f' {
        c as int - 'a' as int + 10
    } else {
        16
    }
}

/// Bytes read back from their hexadecimal text: two digits each, all of them
/// lower-case, the high half first.
pub proof fn hexadecimals_read_back(bytes: Seq<u8>, i: int)
    ensures
        hex_text(bytes).len() == 2 * bytes.len(),
        0 <= i < bytes.len() ==> {
            let high = hex_value(hex_text(bytes)[2 * i]);
            let low = hex_value(hex_text(bytes)[2 * i + 1]);
            high < 16 && low < 16 && bytes[i] == high * 16 + low
        },
    decreases bytes.len(),
{
    if bytes.len() > 0 {
        let rest = bytes.drop_last();
        hexadecimals_read_back(rest, i);
        if 0 <= i < rest.len() {
            assert(hex_text(bytes)[2 * i] == hex_text(rest)[2 * i]);
            assert(hex_text(bytes)[2 * i + 1] == hex_text(rest)[2 * i + 1]);
        } else if i == rest.len() {
            let b = bytes.last() as nat;
            assert(hex_text(bytes)[2 * i] == json::hex(b / 16));
            assert(hex_text(bytes)[2 * i + 1] == json::hex(b % 16));
        }
    }
}

/// A signature reads back as the HMAC-SHA256 of the whole body under the whole
/// secret: byte `i` of the code is digits `2 * i` and `2 * i + 1`.
pub proof fn signatures_are_of_the_body(secret: Seq<char>, body: Seq<char>, i: int)
    ensures
        ({
            let code = hmac_sha256_of(encode_utf8(secret), encode_utf8(body));
            let sig = signature(secret, body);
            &&& sig.len() == 2 * code.len()
            &&& 0 <= i < code.len() ==> code[i] == hex_value(sig[2 * i]) * 16 + hex_value(
                sig[2 * i + 1],
            )
        }),
{
    hexadecimals_read_back(hmac_sha256_of(encode_utf8(secret), encode_utf8(body)), i);
}

/// The object that is signed and sent has a time and a list of events and nothing
/// else, in the order of their names; the events are those given, in their order.
pub proof fn bodies_hold_the_time_and_the_events(time_ms: nat, events: Seq<JsonModel>)
    ensures
        ({
            let fields = envelope(time_ms, events).ordered()->Object_0;
            &&& envelope(time_ms, events).ordered() is Object
            &&& body_text(time_ms, events) == JsonModel::Object(fields).text()
            &&& fields.len() == 2
            &&& increasing(fields)
            &&& held(fields, "time_ms"@) == Some(JsonModel::Number(text::decimal(time_ms)))
            &&& held(fields, "events"@) matches Some(JsonModel::Array(items)) && items.len()
                == events.len() && forall|i: int|
                0 <= i < items.len() ==> #[trigger] items[i] == events[i].ordered()
        }),
{
    reveal_strlit("time_ms");
    reveal_strlit("events");
    assert("time_ms"@.len() != "events"@.len());
    let given = envelope(time_ms, events)->Object_0;
    let fields = json::ordered_fields(given);
    json::ordering_keeps_the_fields(given, "time_ms"@);
    json::ordering_keeps_the_fields(given, "events"@);
    reveal_with_fuel(held, 3);
    reveal_with_fuel(json::ordered_fields, 3);
    reveal_with_fuel(insert_entry, 3);
    assert(given.drop_last().drop_last() =~= Seq::<(Seq<char>, JsonModel)>::empty());
    assert(held(given, "time_ms"@) == Some(JsonModel::Number(text::decimal(time_ms))));
    assert(held(given, "events"@) == Some(JsonModel::Array(events)));
    json::ordering_changes_only_objects(JsonModel::Array(events));
    let first = json::ordered_fields(given.drop_last());
    assert(first.len() == 1);
    assert(first.drop_last().len() == 0);
    assert(fields.len() == 2);
}

/// Exactly the statuses of the 2xx class say that a delivery arrived; a request
/// without a status did not.
pub proof fn only_success_is_accepted(status: u16)
    ensures
        accepted(Some(status)) <==> status / 100 == 2,
        !accepted(None),
{
}

/// Where deliveries go. A transport takes a delivery and returns at once;
/// retrying is its own affair.
pub trait WebhookTransport {
    fn deliver(&mut self, delivery: WebhookDelivery);
}

/// A transport that keeps what it is given and sends nothing.
#[derive(Debug)]
pub struct RecordingTransport {
    pub deliveries: Vec<WebhookDelivery>,
}

impl RecordingTransport {
    pub fn new() -> (t: RecordingTransport)
        ensures
            t.deliveries@ == Seq::<WebhookDelivery>::empty(),
    {
        RecordingTransport { deliveries: Vec::new() }
    }

    /// Everything delivered so far.
    pub fn recorded(&self) -> (r: &Vec<WebhookDelivery>)
        ensures
            r@ == self.deliveries@,
    {
        &self.deliveries
    }
}

impl WebhookTransport for RecordingTransport {
    fn deliver(&mut self, delivery: WebhookDelivery)
        ensures
            final(self).deliveries@ == old(self).deliveries@.push(delivery),
    {
        self.deliveries.push(delivery);
    }
}

/// How a delivery that fails is retried.
#[derive(Debug, Clone, Copy, PartialEq, Eq, Structural)]
pub struct RetryPolicy {
    pub backoff_base_ms: u64,
    pub backoff_cap_ms: u64,
    pub retry_budget_ms: u64,
}

impl RetryPolicy {
    /// The longest delay: the cap, but at least a millisecond.
    pub open spec fn longest(self) -> u64 {
        if self.backoff_cap_ms < 1 {
            1
        } else {
            self.backoff_cap_ms
        }
    }

    /// The first delay: the base, but at least a millisecond and at most the
    /// longest.
    pub open spec fn first(self) -> u64 {
        if self.backoff_base_ms < 1 {
            1
        } else if self.backoff_base_ms > self.longest() {
            self.longest()
        } else {
            self.backoff_base_ms
        }
    }

    /// The delay after so many failed attempts.
    pub open spec fn delay(self, failed: nat) -> nat
        decreases failed,
    {
        if failed == 0 {
            self.first() as nat
        } else {
            let twice = 2 * self.delay((failed - 1) as nat);
            if twice > self.longest() {
                self.longest() as nat
            } else {
                twice
            }
        }
    }
}

/// Where a delivery stands.
#[derive(Debug, Clone, Copy, PartialEq, Eq, Structural)]
pub enum Phase {
    /// The target is being checked.
    Checking,
    /// Waiting for its turn to send.
    Queued,
    /// A request is under way; only now does the delivery hold a permit.
    Posting,
    /// Waiting before the next attempt.
    Backoff,
    /// Over: delivered or not.
    Settled(bool),
}

/// What to do next about a delivery.
#[derive(Debug, Clone, Copy, PartialEq, Eq, Structural)]
pub enum NextStep {
    /// Acquire a permit to send.
    Acquire,
    /// Send one request.
    Post,
    /// Give the permit back and wait so many milliseconds.
    Sleep(u64),
    /// Give the permit back, if any, and count the outcome.
    Settled(bool),
}

/// One delivery from the check of its target to its outcome.
pub struct DeliveryRun {
    pub policy: RetryPolicy,
    pub phase: Phase,
    pub delay_ms: u64,
    /// How many attempts have failed.
    pub failed: Ghost<nat>,
}

/// The status says that the delivery arrived.
pub open spec fn accepted(status: Option<u16>) -> bool {
    status matches Some(s) && 200 <= s < 300
}

impl DeliveryRun {
    /// The next delay is the policy's.
    pub open spec fn wf(self) -> bool {
        &&& self.delay_ms == self.policy.delay(self.failed@)
        &&& 1 <= self.delay_ms <= self.policy.longest()
    }

    /// A delivery whose target has yet to be checked.
    pub fn new(policy: RetryPolicy) -> (d: DeliveryRun)
        ensures
            d.wf(),
            d.policy == policy,
            d.phase == Phase::Checking,
            d.failed@ == 0,
    {
        let cap: u64 = if policy.backoff_cap_ms < 1 {
            1
        } else {
            policy.backoff_cap_ms
        };
        let delay_ms: u64 = if policy.backoff_base_ms < 1 {
            1
        } else if policy.backoff_base_ms > cap {
            cap
        } else {
            policy.backoff_base_ms
        };
        DeliveryRun { policy, phase: Phase::Checking, delay_ms, failed: Ghost(0) }
    }

    /// The target was checked. A refused target fails the delivery at once.
    pub fn on_checked(&mut self, allowed: bool) -> (next: NextStep)
        requires
            old(self).wf(),
            old(self).phase == Phase::Checking,
        ensures
            final(self).wf(),
            final(self).policy == old(self).policy,
            final(self).failed == old(self).failed,
            allowed ==> final(self).phase == Phase::Queued && next == NextStep::Acquire,
            !allowed ==> final(self).phase == Phase::Settled(false) && next == NextStep::Settled(
                false,
            ),
    {
        if allowed {
            self.phase = Phase::Queued;
            NextStep::Acquire
        } else {
            self.phase = Phase::Settled(false);
            NextStep::Settled(false)
        }
    }

    /// A permit was granted, or there will be none.
    pub fn on_permit(&mut self, granted: bool) -> (next: NextStep)
        requires
            old(self).wf(),
            old(self).phase == Phase::Queued,
        ensures
            final(self).wf(),
            final(self).policy == old(self).policy,
            final(self).failed == old(self).failed,
            granted ==> final(self).phase == Phase::Posting && next == NextStep::Post,
            !granted ==> final(self).phase == Phase::Settled(false) && next == NextStep::Settled(
                false,
            ),
    {
        if granted {
            self.phase = Phase::Posting;
            NextStep::Post
        } else {
            self.phase = Phase::Settled(false);
            NextStep::Settled(false)
        }
    }

    /// An attempt came back: with a status, or with none where the request
    /// itself failed. `elapsed_ms` counts from the first attempt. Anything but
    /// a status from 200 to 299 is retried until the budget is spent, and no
    /// wait runs past the budget.
    pub fn on_attempt(&mut self, status: Option<u16>, elapsed_ms: u64) -> (next: NextStep)
        requires
            old(self).wf(),
            old(self).phase == Phase::Posting,
        ensures
            final(self).wf(),
            final(self).policy == old(self).policy,
            if accepted(status) {
                &&& next == NextStep::Settled(true)
                &&& final(self).phase == Phase::Settled(true)
                &&& final(self).failed == old(self).failed
            } else if elapsed_ms >= old(self).policy.retry_budget_ms {
                &&& next == NextStep::Settled(false)
                &&& final(self).phase == Phase::Settled(false)
                &&& final(self).failed == old(self).failed
            } else {
                &&& next == NextStep::Sleep(wait(old(self).policy, old(self).failed@, elapsed_ms))
                &&& final(self).phase == Phase::Backoff
                &&& final(self).failed@ == old(self).failed@ + 1
            },
    {
        let ok: bool = match status {
            Some(s) => 200 <= s && s < 300,
            None => false,
        };
        if ok {
            self.phase = Phase::Settled(true);
            return NextStep::Settled(true);
        }
        let budget: u64 = self.policy.retry_budget_ms;
        if elapsed_ms >= budget {
            self.phase = Phase::Settled(false);
            return NextStep::Settled(false);
        }
        let remaining: u64 = budget - elapsed_ms;
        let sleep: u64 = if self.delay_ms < remaining {
            self.delay_ms
        } else {
            remaining
        };
        let cap: u64 = if self.policy.backoff_cap_ms < 1 {
            1
        } else {
            self.policy.backoff_cap_ms
        };
        self.delay_ms = if self.delay_ms > cap / 2 {
            cap
        } else {
            self.delay_ms * 2
        };
        self.failed = Ghost((self.failed@ + 1) as nat);
        self.phase = Phase::Backoff;
        NextStep::Sleep(sleep)
    }

    /// The wait is over.
    pub fn on_wake(&mut self) -> (next: NextStep)
        requires
            old(self).wf(),
            old(self).phase == Phase::Backoff,
        ensures
            final(self).wf(),
            final(self).policy == old(self).policy,
            final(self).failed == old(self).failed,
            final(self).phase == Phase::Queued,
            next == NextStep::Acquire,
    {
        self.phase = Phase::Queued;
        NextStep::Acquire
    }
}

/// How long to wait after a failed attempt: the policy's delay, or what is
/// left of the budget where that is less.
pub open spec fn wait(policy: RetryPolicy, failed: nat, elapsed_ms: u64) -> u64 {
    let remaining = policy.retry_budget_ms - elapsed_ms;
    if policy.delay(failed) < remaining {
        policy.delay(failed) as u64
    } else {
        remaining as u64
    }
}

/// Two to the power of `n`.
pub open spec fn power_of_two(n: nat) -> nat
    decreases n,
{
    if n == 0 {
        1
    } else {
        2 * power_of_two((n - 1) as nat)
    }
}

/// Delays double from the first one until they reach the longest, and stay.
pub proof fn delays_double_up_to_the_cap(policy: RetryPolicy, failed: nat)
    ensures
        policy.delay(failed) == if policy.first() * power_of_two(failed) > policy.longest() {
            policy.longest() as nat
        } else {
            policy.first() as nat * power_of_two(failed)
        },
    decreases failed,
{
    if failed > 0 {
        let m = (failed - 1) as nat;
        delays_double_up_to_the_cap(policy, m);
        let f = policy.first() as int;
        let p = power_of_two(m) as int;
        assert(f * (2 * p) == 2 * (f * p)) by (nonlinear_arith);
    } else {
        assert(policy.first() as int * 1 == policy.first() as int);
    }
}

/// A retry is always in the future and never past the budget.
pub proof fn retries_stay_within_the_budget(policy: RetryPolicy, failed: nat, elapsed_ms: u64)
    requires
        elapsed_ms < policy.retry_budget_ms,
    ensures
        1 <= wait(policy, failed, elapsed_ms),
        elapsed_ms + wait(policy, failed, elapsed_ms) <= policy.retry_budget_ms,
{
    lemma_delay_bounds(policy, failed);
}

proof fn lemma_delay_bounds(policy: RetryPolicy, failed: nat)
    ensures
        1 <= policy.delay(failed) <= policy.longest(),
    decreases failed,
{
    if failed > 0 {
        lemma_delay_bounds(policy, (failed - 1) as nat);
    }
}

/// Name resolution by the system: the ports to ask with, one after the other,
/// and what to make of an answer.
#[derive(Debug, Clone, Copy, PartialEq, Eq, Structural)]
pub struct SystemResolver;

/// The addresses, each once, in the order in which they first come.
pub open spec fn each_once(ips: Seq<IpAddr>) -> Seq<IpAddr>
    decreases ips.len(),
{
    if ips.len() == 0 {
        ips
    } else {
        let before = each_once(ips.drop_last());
        if before.contains(ips.last()) {
            before
        } else {
            before.push(ips.last())
        }
    }
}

impl SystemResolver {
    /// The port to ask with at a given try. Only the addresses of the answer
    /// are used, so the port does not matter.
    pub fn port(&self, attempt: usize) -> (r: Option<u16>)
        ensures
            r == if attempt == 0 {
                Some(80u16)
            } else if attempt == 1 {
                Some(443u16)
            } else {
                None
            },
    {
        if attempt == 0 {
            Some(80)
        } else if attempt == 1 {
            Some(443)
        } else {
            None
        }
    }

    /// The addresses of an answer, each once; none asks for another try.
    pub fn addresses(&self, answer: &Vec<IpAddr>) -> (r: Vec<IpAddr>)
        ensures
            r@ == each_once(answer@),
    {
        let mut out: Vec<IpAddr> = Vec::new();
        let mut i: usize = 0;
        assert(answer@.take(0) =~= Seq::<IpAddr>::empty());
        while i < answer.len()
            invariant
                i <= answer@.len(),
                out@ == each_once(answer@.take(i as int)),
            decreases answer@.len() - i,
        {
            proof {
                assert(answer@.take(i + 1).drop_last() =~= answer@.take(i as int));
                assert(answer@.take(i + 1).last() == answer@[i as int]);
            }
            let ip: IpAddr = answer[i];
            let mut seen: bool = false;
            let mut j: usize = 0;
            while j < out.len()
                invariant
                    j <= out@.len(),
                    seen == out@.take(j as int).contains(ip),
                decreases out@.len() - j,
            {
                proof {
                    assert(out@.take(j + 1) =~= out@.take(j as int).push(out@[j as int]));
                    let now = out@.take(j + 1);
                    assert(now[j as int] == out@[j as int]);
                    if out@.take(j as int).contains(ip) {
                        let k = choose|k: int| 0 <= k < j && out@.take(j as int)[k] == ip;
                        assert(now[k] == ip);
                    }
                    if now.contains(ip) && out@[j as int] != ip {
                        let k = choose|k: int| 0 <= k < j + 1 && now[k] == ip;
                        assert(out@.take(j as int)[k] == ip);
                    }
                }
                if out[j] == ip {
                    seen = true;
                }
                j = j + 1;
            }
            assert(out@.take(j as int) =~= out@);
            if !seen {
                out.push(ip);
            }
            i = i + 1;
        }
        assert(answer@.take(i as int) =~= answer@);
        out
    }
}

/// Every address of an answer is kept exactly once, none is added, and one that came
/// first stays first.
pub proof fn each_address_is_kept_once(ips: Seq<IpAddr>, more: Seq<IpAddr>)
    ensures
        each_once(ips).no_duplicates(),
        forall|ip: IpAddr| each_once(ips).contains(ip) <==> ips.contains(ip),
        each_once(ips).len() <= each_once(ips + more).len(),
        each_once(ips + more).take(each_once(ips).len() as int) == each_once(ips),
    decreases ips.len() + more.len(),
{
    if more.len() > 0 {
        let rest = more.drop_last();
        each_address_is_kept_once(ips, rest);
        assert((ips + more).drop_last() =~= ips + rest);
        assert(each_once(ips + more).take(each_once(ips).len() as int) =~= each_once(ips));
    } else {
        assert(ips + more =~= ips);
        assert(each_once(ips).take(each_once(ips).len() as int) =~= each_once(ips));
        if ips.len() > 0 {
            let rest = ips.drop_last();
            let last = ips.last();
            each_address_is_kept_once(rest, Seq::empty());
            assert(ips =~= rest.push(last));
            let now = each_once(ips);
            assert forall|ip: IpAddr| now.contains(ip) <==> ips.contains(ip) by {
                assert(each_once(rest).contains(ip) <==> rest.contains(ip));
                if each_once(rest).contains(ip) {
                    let k = choose|k: int|
                        0 <= k < each_once(rest).len() && each_once(rest)[k] == ip;
                    assert(now[k] == ip);
                    let j = choose|j: int| 0 <= j < rest.len() && rest[j] == ip;
                    assert(ips[j] == ip);
                }
                if ip == last {
                    assert(ips[ips.len() - 1] == ip);
                    if !each_once(rest).contains(ip) {
                        assert(now[now.len() - 1] == ip);
                    }
                }
                if ips.contains(ip) && ip != last {
                    let j = choose|j: int| 0 <= j < ips.len() && ips[j] == ip;
                    assert(rest[j] == ip);
                }
                if now.contains(ip) && ip != last {
                    let k = choose|k: int| 0 <= k < now.len() && now[k] == ip;
                    assert(each_once(rest)[k] == ip);
                }
            }
        }
    }
}

/// The first delay is the base wherever that is a delay that the policy allows: at
/// least a millisecond and at most the cap. The longest is the cap wherever that is at
/// least a millisecond.
pub proof fn delays_follow_the_policy(policy: RetryPolicy)
    ensures
        policy.backoff_cap_ms >= 1 ==> policy.longest() == policy.backoff_cap_ms,
        policy.backoff_cap_ms == 0 ==> policy.longest() == 1,
        1 <= policy.backoff_base_ms <= policy.longest() ==> policy.first()
            == policy.backoff_base_ms,
        policy.backoff_base_ms == 0 ==> policy.first() == 1,
        policy.backoff_base_ms > policy.longest() ==> policy.first() == policy.longest(),
{
}

/// A retry waits its delay in full unless the budget ends before.
pub proof fn retries_wait_their_delay(policy: RetryPolicy, failed: nat, elapsed_ms: u64)
    requires
        elapsed_ms < policy.retry_budget_ms,
    ensures
        elapsed_ms + policy.delay(failed) <= policy.retry_budget_ms ==> wait(
            policy,
            failed,
            elapsed_ms,
        ) == policy.delay(failed),
        elapsed_ms + policy.delay(failed) > policy.retry_budget_ms ==> elapsed_ms + wait(
            policy,
            failed,
            elapsed_ms,
        ) == policy.retry_budget_ms,
{
    lemma_delay_bounds(policy, failed);
}

} // verus!
