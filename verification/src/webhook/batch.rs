//! Cancelling opposing events within one batch.
//!
//! On one channel `channel_occupied` and `channel_vacated` cancel one for one,
//! and so do `member_added` and `member_removed` for one user on one channel.
//! All other events pass, and what passes keeps its order.
use crate::text;
use crate::webhook::event::WebhookEvent;
use vstd::prelude::*;

verus! {

/// What an event adds to or takes away from.
pub enum EventKey {
    Channel(Seq<char>),
    Member(Seq<char>, Seq<char>),
}

/// An event that can be cancelled.
pub struct Keyed {
    pub key: EventKey,
    pub adds: bool,
}

/// The key of an event that can be cancelled, and whether it adds.
pub open spec fn key_of(e: WebhookEvent) -> Option<Keyed> {
    match e {
        WebhookEvent::ChannelOccupied { app, channel } => Some(Keyed { key: EventKey::Channel(channel@), adds: true }),
        WebhookEvent::ChannelVacated { app, channel } => Some(Keyed { key: EventKey::Channel(channel@), adds: false }),
        WebhookEvent::MemberAdded { app, channel, user_id } => Some(Keyed { key: EventKey::Member(channel@, user_id@), adds: true }),
        WebhookEvent::MemberRemoved { app, channel, user_id } => Some(Keyed { key: EventKey::Member(channel@, user_id@), adds: false }),
        _ => None,
    }
}

/// How many of the events add to the key, or take away from it.
pub open spec fn tally(events: Seq<WebhookEvent>, key: EventKey, adds: bool) -> nat
    decreases events.len(),
{
    if events.len() == 0 {
        0
    } else {
        tally(events.drop_last(), key, adds) + if key_of(events.last()) == (Some(Keyed { key, adds })) {
            1nat
        } else {
            0nat
        }
    }
}

/// What the events come to for a key.
pub open spec fn net(events: Seq<WebhookEvent>, key: EventKey) -> int {
    tally(events, key, true) - tally(events, key, false)
}

/// How many events on one side of a key are left over.
pub open spec fn surplus(events: Seq<WebhookEvent>, key: EventKey, adds: bool) -> int {
    let n = if adds {
        net(events, key)
    } else {
        -net(events, key)
    };
    if n > 0 {
        n
    } else {
        0
    }
}

/// Whether an event passes: it cannot be cancelled, or it is among the first
/// of its side, as many as are left over.
pub open spec fn passes(events: Seq<WebhookEvent>, i: int) -> bool {
    match key_of(events[i]) {
        None => true,
        Some(Keyed { key, adds }) => tally(events.take(i), key, adds) < surplus(events, key, adds),
    }
}

/// The positions, below `n`, of the events that pass.
pub open spec fn positions(events: Seq<WebhookEvent>, n: nat) -> Seq<int>
    decreases n,
{
    if n == 0 {
        Seq::empty()
    } else {
        let before = positions(events, (n - 1) as nat);
        if passes(events, n - 1) {
            before.push(n - 1)
        } else {
            before
        }
    }
}

/// The events that pass, in order.
pub open spec fn survivors(events: Seq<WebhookEvent>) -> Seq<WebhookEvent> {
    picked(events, positions(events, events.len()))
}

/// The events at the positions.
pub open spec fn picked(events: Seq<WebhookEvent>, at: Seq<int>) -> Seq<WebhookEvent> {
    Seq::new(at.len(), |i: int| events[at[i]])
}

fn same_key(a: &WebhookEvent, b: &WebhookEvent) -> (r: bool)
    ensures
        r == (key_of(*a) is Some && key_of(*b) is Some && key_of(*a)->0.key == key_of(*b)->0.key),
{
    match (channel_key(a), channel_key(b)) {
        (Some(x), Some(y)) => text::str_eq(x, y),
        _ => match (member_key(a), member_key(b)) {
            (Some(x), Some(y)) => text::str_eq(x.0, y.0) && text::str_eq(x.1, y.1),
            _ => false,
        },
    }
}

fn channel_key(e: &WebhookEvent) -> (r: Option<&str>)
    ensures
        match r {
            Some(c) => key_of(*e) is Some && key_of(*e)->0.key == EventKey::Channel(c@),
            None => !(key_of(*e) is Some && key_of(*e)->0.key is Channel),
        },
{
    match e {
        WebhookEvent::ChannelOccupied { channel, .. } => Some(channel.as_str()),
        WebhookEvent::ChannelVacated { channel, .. } => Some(channel.as_str()),
        _ => None,
    }
}

fn member_key(e: &WebhookEvent) -> (r: Option<(&str, &str)>)
    ensures
        match r {
            Some(m) => key_of(*e) is Some && key_of(*e)->0.key == EventKey::Member(m.0@, m.1@),
            None => !(key_of(*e) is Some && key_of(*e)->0.key is Member),
        },
{
    match e {
        WebhookEvent::MemberAdded { channel, user_id, .. } => Some(
            (channel.as_str(), user_id.as_str()),
        ),
        WebhookEvent::MemberRemoved { channel, user_id, .. } => Some(
            (channel.as_str(), user_id.as_str()),
        ),
        _ => None,
    }
}

/// Whether the event adds, takes away, or cannot be cancelled.
fn side(e: &WebhookEvent) -> (r: Option<bool>)
    ensures
        match r {
            Some(adds) => key_of(*e) is Some && key_of(*e)->0.adds == adds,
            None => key_of(*e) is None,
        },
{
    match e {
        WebhookEvent::ChannelOccupied { .. } => Some(true),
        WebhookEvent::MemberAdded { .. } => Some(true),
        WebhookEvent::ChannelVacated { .. } => Some(false),
        WebhookEvent::MemberRemoved { .. } => Some(false),
        _ => None,
    }
}

/// How many of the first `n` events stand on the given side of the key of `e`.
fn count(events: &Vec<WebhookEvent>, n: usize, e: &WebhookEvent, adds: bool) -> (r: usize)
    requires
        n <= events@.len(),
        key_of(*e) is Some,
    ensures
        r == tally(events@.take(n as int), key_of(*e)->0.key, adds),
{
    let ghost key = key_of(*e)->0.key;
    let mut c: usize = 0;
    let mut i: usize = 0;
    assert(events@.take(0) =~= Seq::<WebhookEvent>::empty());
    while i < n
        invariant
            i <= n <= events@.len(),
            key_of(*e) is Some,
            key == key_of(*e)->0.key,
            c <= i,
            c == tally(events@.take(i as int), key, adds),
        decreases n - i,
    {
        proof {
            assert(events@.take(i + 1).drop_last() =~= events@.take(i as int));
            assert(events@.take(i + 1).last() == events@[i as int]);
        }
        let on_side: bool = match side(&events[i]) {
            Some(s) => s == adds,
            None => false,
        };
        if on_side && same_key(&events[i], e) {
            c = c + 1;
        }
        i = i + 1;
    }
    c
}

/// Whether the event at `i` passes.
fn keeps(events: &Vec<WebhookEvent>, i: usize) -> (r: bool)
    requires
        i < events@.len(),
    ensures
        r == passes(events@, i as int),
{
    match side(&events[i]) {
        None => true,
        Some(adds) => {
            let rank: usize = count(events, i, &events[i], adds);
            let mine: usize = count(events, events.len(), &events[i], adds);
            let theirs: usize = count(events, events.len(), &events[i], !adds);
            assert(events@.take(events@.len() as int) =~= events@);
            mine > theirs && rank < mine - theirs
        },
    }
}

/// Cancels opposing events, one for one; what is left keeps its order.
pub fn coalesce(events: Vec<WebhookEvent>) -> (out: Vec<WebhookEvent>)
    ensures
        out@ == survivors(events@),
{
    let ghost all = events@;
    let mut keep: Vec<bool> = Vec::new();
    let mut i: usize = 0;
    while i < events.len()
        invariant
            i <= events@.len(),
            keep@.len() == i,
            forall|j: int| 0 <= j < i ==> #[trigger] keep@[j] == passes(events@, j),
        decreases events@.len() - i,
    {
        keep.push(keeps(&events, i));
        i = i + 1;
    }
    let mut out: Vec<WebhookEvent> = Vec::new();
    let mut n: usize = 0;
    for e in it: events
        invariant
            all == events@,
            it.seq() == all,
            n == it.index(),
            keep.len() == all.len(),
            forall|j: int| 0 <= j < all.len() ==> #[trigger] keep@[j] == passes(all, j),
            out@ == picked(all, positions(all, n as nat)),
    {
        let pass: bool = keep[n];
        if pass {
            out.push(e);
        }
        n = n + 1;
        assert(out@ =~= picked(all, positions(all, n as nat)));
    }
    out
}

/// The positions increase, and lie below `n`.
pub open spec fn rising(at: Seq<int>, n: nat) -> bool {
    &&& forall|i: int| 0 <= i < at.len() ==> 0 <= #[trigger] at[i] < n
    &&& forall|i: int, j: int| 0 <= i < j < at.len() ==> #[trigger] at[i] < #[trigger] at[j]
}

proof fn lemma_rising(events: Seq<WebhookEvent>, n: nat)
    ensures
        rising(positions(events, n), n),
    decreases n,
{
    if n > 0 {
        lemma_rising(events, (n - 1) as nat);
    }
}

/// What passes keeps its order: the survivors stand at increasing positions of
/// the batch.
pub proof fn order_is_kept(events: Seq<WebhookEvent>)
    ensures
        rising(positions(events, events.len()), events.len()),
        survivors(events) == picked(events, positions(events, events.len())),
{
    lemma_rising(events, events.len());
}

/// An event that cannot be cancelled is never dropped.
pub proof fn the_rest_always_passes(events: Seq<WebhookEvent>, i: int)
    requires
        0 <= i < events.len(),
        key_of(events[i]) is None,
    ensures
        positions(events, events.len()).contains(i),
        survivors(events).contains(events[i]),
{
    lemma_passed_is_there(events, i, events.len());
    let at = positions(events, events.len());
    let j = choose|j: int| 0 <= j < at.len() && at[j] == i;
    assert(survivors(events)[j] == events[i]);
}

proof fn lemma_passed_is_there(events: Seq<WebhookEvent>, i: int, n: nat)
    requires
        0 <= i < n <= events.len(),
        passes(events, i),
    ensures
        positions(events, n).contains(i),
    decreases n,
{
    let at = positions(events, n);
    if i == n - 1 {
        assert(at[at.len() - 1] == i);
    } else {
        lemma_passed_is_there(events, i, (n - 1) as nat);
        let before = positions(events, (n - 1) as nat);
        let j = choose|j: int| 0 <= j < before.len() && before[j] == i;
        assert(at[j] == i);
    }
}

proof fn lemma_tally_prefix(events: Seq<WebhookEvent>, n: int, key: EventKey, adds: bool)
    requires
        0 <= n < events.len(),
    ensures
        tally(events.take(n + 1), key, adds) == tally(events.take(n), key, adds) + if key_of(
            events[n],
        ) == (Some(Keyed { key, adds })) {
            1nat
        } else {
            0nat
        },
{
    assert(events.take(n + 1).drop_last() =~= events.take(n));
}

proof fn lemma_survivor_tally(events: Seq<WebhookEvent>, n: nat, key: EventKey, adds: bool)
    requires
        n <= events.len(),
    ensures
        ({
            let seen = tally(events.take(n as int), key, adds) as int;
            let left = surplus(events, key, adds);
            tally(picked(events, positions(events, n)), key, adds) == if seen < left {
                seen
            } else {
                left
            }
        }),
    decreases n,
{
    if n == 0 {
        assert(events.take(0) =~= Seq::<WebhookEvent>::empty());
        assert(picked(events, positions(events, 0)) =~= Seq::<WebhookEvent>::empty());
    } else {
        let m = (n - 1) as nat;
        lemma_survivor_tally(events, m, key, adds);
        lemma_tally_prefix(events, m as int, key, adds);
        let before = picked(events, positions(events, m));
        let after = picked(events, positions(events, n));
        if passes(events, m as int) {
            assert(after.drop_last() =~= before);
            assert(after.last() == events[m as int]);
        } else {
            assert(after =~= before);
        }
    }
}

/// Of each key exactly the surplus is left: as many events as its side has
/// more than the other, and none of the other.
pub proof fn opposites_cancel_one_for_one(events: Seq<WebhookEvent>, key: EventKey, adds: bool)
    ensures
        tally(survivors(events), key, adds) == surplus(events, key, adds),
{
    lemma_survivor_tally(events, events.len(), key, adds);
    assert(events.take(events.len() as int) =~= events);
}

/// Two events oppose each other exactly where one says that a channel was occupied and
/// the other that the same channel was vacated, or one that a user came to a channel
/// and the other that the same user left the same channel. Nothing else takes part.
pub proof fn only_opposites_cancel(a: WebhookEvent, b: WebhookEvent)
    ensures
        (key_of(a) matches Some(x) && key_of(b) matches Some(y) && x.key == y.key && x.adds
            && !y.adds) <==> {
            ||| a matches WebhookEvent::ChannelOccupied { app: a0, channel: a1 } && b matches
                WebhookEvent::ChannelVacated { app: b0, channel: b1 } && a1@ == b1@
            ||| a matches WebhookEvent::MemberAdded { app: a0, channel: a1, user_id: a2 } && b matches
                WebhookEvent::MemberRemoved { app: b0, channel: b1, user_id: b2 } && a1@ == b1@ && a2@
                == b2@
        },
        key_of(a) is None <==> a is ClientEvent || a is CacheMiss || a is SubscriptionCount,
{
}

/// Of the events of one side, the first are kept: one is never kept in place of an
/// earlier one.
pub proof fn the_first_of_a_side_are_kept(events: Seq<WebhookEvent>, i: int, j: int)
    requires
        0 <= i < j < events.len(),
        key_of(events[i]) == key_of(events[j]),
        positions(events, events.len()).contains(j),
    ensures
        positions(events, events.len()).contains(i),
{
    lemma_positions_pass(events, events.len(), j);
    lemma_positions_pass(events, events.len(), i);
    if let Some(Keyed { key, adds }) = key_of(events[i]) {
        lemma_tally_grows(events, key, adds, i, j);
    }
}

proof fn lemma_positions_pass(events: Seq<WebhookEvent>, n: nat, i: int)
    requires
        0 <= i < n,
    ensures
        positions(events, n).contains(i) <==> passes(events, i),
        forall|k: int| 0 <= k < positions(events, n).len() ==> #[trigger] positions(events, n)[k] < n,
    decreases n,
{
    let m = (n - 1) as nat;
    let before = positions(events, m);
    let now = positions(events, n);
    lemma_positions_below(events, m);
    lemma_positions_below(events, n);
    if i < m {
        lemma_positions_pass(events, m, i);
        if before.contains(i) {
            let k = choose|k: int| 0 <= k < before.len() && before[k] == i;
            assert(now[k] == i);
        }
        if now.contains(i) {
            let k = choose|k: int| 0 <= k < now.len() && now[k] == i;
            assert(before[k] == i);
        }
    } else if passes(events, i) {
        assert(now[now.len() - 1] == i);
    } else if now.contains(i) {
        let k = choose|k: int| 0 <= k < now.len() && now[k] == i;
        assert(before[k] < m);
    }
}

proof fn lemma_positions_below(events: Seq<WebhookEvent>, n: nat)
    ensures
        forall|k: int| 0 <= k < positions(events, n).len() ==> #[trigger] positions(events, n)[k] < n,
    decreases n,
{
    if n > 0 {
        let m = (n - 1) as nat;
        lemma_positions_below(events, m);
        assert forall|k: int| 0 <= k < positions(events, n).len() implies #[trigger] positions(
            events,
            n,
        )[k] < n by {
            if k < positions(events, m).len() {
                assert(positions(events, n)[k] == positions(events, m)[k]);
            }
        }
    }
}

proof fn lemma_tally_grows(events: Seq<WebhookEvent>, key: EventKey, adds: bool, i: int, j: int)
    requires
        0 <= i <= j <= events.len(),
    ensures
        tally(events.take(i), key, adds) <= tally(events.take(j), key, adds),
    decreases j,
{
    if i < j {
        lemma_tally_grows(events, key, adds, i, j - 1);
        assert(events.take(j).drop_last() =~= events.take(j - 1));
    }
}

/// Coalescing keeps the balance: of each key, as many more additions than removals pass
/// as there were, or as many more removals, and never some of both.
pub proof fn the_balance_is_kept(events: Seq<WebhookEvent>, key: EventKey)
    ensures
        ({
            let added = events.filter(
                |e: WebhookEvent| key_of(e) == Some(Keyed { key, adds: true }),
            ).len();
            let removed = events.filter(
                |e: WebhookEvent| key_of(e) == Some(Keyed { key, adds: false }),
            ).len();
            let kept_added = survivors(events).filter(
                |e: WebhookEvent| key_of(e) == Some(Keyed { key, adds: true }),
            ).len();
            let kept_removed = survivors(events).filter(
                |e: WebhookEvent| key_of(e) == Some(Keyed { key, adds: false }),
            ).len();
            &&& kept_added - kept_removed == added - removed
            &&& kept_added == 0 || kept_removed == 0
        }),
{
    opposites_cancel_one_for_one(events, key, true);
    opposites_cancel_one_for_one(events, key, false);
    lemma_tally_is_count(events, key, true);
    lemma_tally_is_count(events, key, false);
    lemma_tally_is_count(survivors(events), key, true);
    lemma_tally_is_count(survivors(events), key, false);
}

proof fn lemma_tally_is_count(events: Seq<WebhookEvent>, key: EventKey, adds: bool)
    ensures
        tally(events, key, adds) == events.filter(
            |e: WebhookEvent| key_of(e) == Some(Keyed { key, adds }),
        ).len(),
    decreases events.len(),
{
    reveal(Seq::filter);
    if events.len() > 0 {
        lemma_tally_is_count(events.drop_last(), key, adds);
    }
}

} // verus!
