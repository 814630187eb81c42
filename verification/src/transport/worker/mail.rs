//! Messages that the server sends to one connection: the mailbox drain, the
//! rejection of a connection, and the closes that the worker decides on.
use crate::transport::conn::{queueing_evicts_no_more_than_it_must, ConnModel};
use crate::transport::fanout;
use crate::transport::frame::{self, OpCode};
use crate::transport::worker::entry::{self, Entry, Session};
use crate::transport::worker::head::Action;
use std::sync::Arc;
use vstd::prelude::*;
use vstd::utf8::encode_utf8;

verus! {

/// A queued server event, its text encoded for the connection's protocol version.
pub enum MailEvent {
    /// An ordinary message.
    Text(String),
    /// The notice that a subscription did not take, and its channel.
    SubscriptionError { channel: String, text: String },
    /// The end of the connection.
    Close { code: u16, reason: String },
}

/// The views of a list of names.
pub open spec fn names(v: Seq<String>) -> Seq<Seq<char>> {
    Seq::new(v.len(), |i: int| v[i]@)
}

/// `v` without `c`.
pub open spec fn without(v: Seq<Seq<char>>, c: Seq<char>) -> Seq<Seq<char>>
    decreases v.len(),
{
    if v.len() == 0 {
        v
    } else if v.last() == c {
        without(v.drop_last(), c)
    } else {
        without(v.drop_last(), c).push(v.last())
    }
}

/// Exactly the other names stay.
pub proof fn lemma_without(v: Seq<Seq<char>>, c: Seq<char>, x: Seq<char>)
    ensures
        without(v, c).contains(x) <==> v.contains(x) && x != c,
        without(v, c).len() <= v.len(),
        !v.contains(c) ==> without(v, c) == v,
    decreases v.len(),
{
    if v.len() > 0 {
        let init = v.drop_last();
        lemma_without(init, c, x);
        if v.contains(x) {
            let i = choose|i: int| 0 <= i < v.len() && v[i] == x;
            if i < init.len() {
                assert(init[i] == x);
            }
        }
        if init.contains(x) {
            let i = choose|i: int| 0 <= i < init.len() && init[i] == x;
            assert(v[i] == x);
        }
        if v.last() != c {
            let r = without(init, c);
            let p = r.push(v.last());
            if p.contains(x) {
                let i = choose|i: int| 0 <= i < p.len() && p[i] == x;
                if i < r.len() {
                    assert(r[i] == x);
                }
            }
            if r.contains(x) {
                let i = choose|i: int| 0 <= i < r.len() && r[i] == x;
                assert(p[i] == x);
            }
            assert(p[r.len() as int] == v.last());
        }
        assert(v[v.len() - 1] == v.last());
        if !v.contains(c) {
            if init.contains(c) {
                let i = choose|i: int| 0 <= i < init.len() && init[i] == c;
                assert(v[i] == c);
            }
            lemma_without(init, c, c);
            assert(init.push(v.last()) =~= v);
        }
    }
}

/// Removes a name; says whether it was there.
pub fn remove_name(v: &mut Vec<String>, c: &str) -> (found: bool)
    ensures
        names(final(v)@) == without(names(old(v)@), c@),
        found == names(old(v)@).contains(c@),
{
    let ghost v0 = v@;
    let ghost n0 = names(v0);
    let mut kept: Vec<String> = Vec::new();
    let mut found: bool = false;
    let mut i: usize = 0;
    assert(n0.take(0) =~= Seq::<Seq<char>>::empty());
    assert(names(kept@) =~= Seq::<Seq<char>>::empty());
    while i < v.len()
        invariant
            v@ == v0,
            n0 == names(v0),
            i <= v0.len(),
            names(kept@) == without(n0.take(i as int), c@),
            found == n0.take(i as int).contains(c@),
        decreases v0.len() - i,
    {
        let ghost before = n0.take(i as int);
        let ghost after = n0.take(i + 1);
        proof {
            assert(after.drop_last() =~= before);
            assert(after.last() == v0[i as int]@);
            assert(after[i as int] == v0[i as int]@);
            if before.contains(c@) {
                let k = choose|k: int| 0 <= k < before.len() && before[k] == c@;
                assert(after[k] == c@);
            }
            if after.contains(c@) && !before.contains(c@) {
                let k = choose|k: int| 0 <= k < after.len() && after[k] == c@;
                if k < i {
                    assert(before[k] == c@);
                }
            }
        }
        if crate::text::str_eq(v[i].as_str(), c) {
            found = true;
        } else {
            let ghost had = names(kept@);
            kept.push(v[i].clone());
            assert(names(kept@) =~= had.push(v0[i as int]@));
        }
        i = i + 1;
    }
    assert(n0.take(i as int) =~= n0);
    *v = kept;
    found
}

/// The frame that an event becomes.
pub open spec fn mail_frame(ev: MailEvent) -> Seq<u8> {
    match ev {
        MailEvent::Text(t) => fanout::text_frame(t@),
        MailEvent::SubscriptionError { channel, text } => fanout::text_frame(text@),
        MailEvent::Close { code, reason } => entry::close_frame(code, reason@),
    }
}

/// How many events are sent: up to and with the first close.
pub open spec fn mail_count(events: Seq<MailEvent>) -> nat
    decreases events.len(),
{
    if events.len() == 0 {
        0
    } else if events[0] is Close {
        1
    } else {
        1 + mail_count(events.drop_first())
    }
}

/// The events that are sent.
pub open spec fn mail_sent(events: Seq<MailEvent>) -> Seq<MailEvent> {
    events.take(mail_count(events) as int)
}

/// The bytes of all the frames.
pub open spec fn mail_len(events: Seq<MailEvent>) -> nat
    decreases events.len(),
{
    if events.len() == 0 {
        0
    } else {
        mail_len(events.drop_last()) + mail_frame(events.last()).len()
    }
}

/// The channels left after the subscriptions that did not take are gone.
pub open spec fn mail_channels(channels: Seq<Seq<char>>, events: Seq<MailEvent>) -> Seq<Seq<char>>
    decreases events.len(),
{
    if events.len() == 0 {
        channels
    } else {
        let before = mail_channels(channels, events.drop_last());
        match events.last() {
            MailEvent::SubscriptionError { channel, text } => without(before, channel@),
            _ => before,
        }
    }
}

/// `after` is `before` with the frames of `events` queued in order.
pub open spec fn mail_queued(
    before: ConnModel,
    events: Seq<MailEvent>,
    now: u64,
    after: ConnModel,
) -> bool
    decreases events.len(),
{
    if events.len() == 0 {
        after == before
    } else {
        exists|mid: ConnModel|
            mail_queued(before, events.drop_last(), now, mid) && #[trigger] mid.sent(
                mail_frame(events.last()),
                now,
                after,
            )
    }
}

/// What the drain of a mailbox came to.
#[derive(Debug, Clone, Copy, PartialEq, Eq, Structural)]
pub struct DrainPlan {
    /// Something was queued and must be flushed.
    pub wrote: bool,
    /// The connection ends after the flush.
    pub close_after: bool,
    /// A subscription that did not take was removed.
    pub subs_changed: bool,
}

impl DrainPlan {
    /// What becomes of the connection, given how the flush ended.
    pub fn outcome(self, flushed: Action) -> (action: Action)
        ensures
            action == (if self.close_after || (self.wrote && flushed == Action::Close) {
                Action::Close
            } else {
                Action::Keep
            }),
    {
        if self.close_after || (self.wrote && flushed == Action::Close) {
            Action::Close
        } else {
            Action::Keep
        }
    }
}

proof fn lemma_mail_count(events: Seq<MailEvent>)
    ensures
        mail_count(events) <= events.len(),
        events.len() > 0 ==> mail_count(events) > 0,
        forall|i: int|
            0 <= i < mail_count(events) - 1 ==> !((#[trigger] events[i]) is Close),
        mail_count(events) < events.len() ==> events[mail_count(events) - 1] is Close,
    decreases events.len(),
{
    if events.len() > 0 && !(events[0] is Close) {
        let rest = events.drop_first();
        lemma_mail_count(rest);
        assert forall|i: int| 0 <= i < mail_count(events) - 1 implies !((
        #[trigger] events[i]) is Close) by {
            if i > 0 {
                assert(events[i] == rest[i - 1]);
            }
        }
        if mail_count(events) < events.len() {
            assert(events[mail_count(events) - 1] == rest[mail_count(rest) - 1]);
        }
    }
}

proof fn lemma_mail_len(events: Seq<MailEvent>, n: int)
    requires
        0 <= n <= events.len(),
    ensures
        mail_len(events.take(n)) <= mail_len(events),
    decreases events.len(),
{
    if n == events.len() {
        assert(events.take(n) =~= events);
    } else {
        assert(events.drop_last().take(n) =~= events.take(n));
        lemma_mail_len(events.drop_last(), n);
    }
}

impl Entry {
    /// Sends the queued events of an established session, up to and with the
    /// first close. A subscription that did not take is removed from the
    /// session before its notice is sent.
    pub fn drain_session(&mut self, events: &Vec<MailEvent>, now_ns: u64) -> (plan: DrainPlan)
        requires
            old(self).wf(),
            old(self).conn@.room(mail_len(events@), events@.len()),
        ensures
            final(self).wf(),
            old(self).session is None ==> {
                &&& plan == (DrainPlan { wrote: false, close_after: false, subs_changed: false })
                &&& *final(self) == *old(self)
            },
            old(self).session matches Some(s0) ==> {
                let sent = mail_sent(events@);
                &&& mail_queued(old(self).conn@, sent, now_ns, final(self).conn@)
                &&& plan.wrote == (events@.len() > 0)
                &&& plan.close_after == (exists|i: int|
                    0 <= i < events@.len() && (#[trigger] events@[i]) is Close)
                &&& plan.subs_changed == (mail_channels(names(s0.subscribed@), sent) != names(
                    s0.subscribed@,
                ))
                &&& final(self).session matches Some(s1) && {
                    &&& names(s1.subscribed@) == mail_channels(names(s0.subscribed@), sent)
                    &&& names(s1.presence@) == mail_channels(names(s0.presence@), sent)
                    &&& s1.app_id == s0.app_id
                    &&& s1.socket_id == s0.socket_id
                    &&& s1.version == s0.version
                    &&& s1.subs == s0.subs
                    &&& s1.cluster_admitted == s0.cluster_admitted
                }
            },
            final(self).fragment == old(self).fragment,
            final(self).inbuf == old(self).inbuf,
            final(self).pending_establish == old(self).pending_establish,
            final(self).conn@.accounted() <= old(self).conn@.accounted() + mail_len(events@),
            final(self).conn@.frame_count() <= old(self).conn@.frame_count() + events@.len(),
    {
        let mut session: Session = match self.session.take() {
            None => {
                return DrainPlan { wrote: false, close_after: false, subs_changed: false };
            },
            Some(s) => s,
        };
        let ghost s0 = session;
        let ghost c0 = names(s0.subscribed@);
        let ghost p0 = names(s0.presence@);
        let ghost m0 = self.conn@;
        let ghost n = mail_count(events@);
        let mut close_after: bool = false;
        let mut subs_changed: bool = false;
        let mut i: usize = 0;
        proof {
            lemma_mail_count(events@);
            assert(events@.take(0) =~= Seq::<MailEvent>::empty());
        }
        while i < events.len() && !close_after
            invariant
                self.wf(),
                n == mail_count(events@),
                n <= events@.len(),
                i <= n,
                m0 == old(self).conn@,
                s0 == old(self).session->0,
                old(self).session is Some,
                c0 == names(s0.subscribed@),
                p0 == names(s0.presence@),
                m0.room(mail_len(events@), events@.len()),
                close_after ==> i == n && i > 0 && events@[i - 1] is Close,
                !close_after ==> forall|k: int| 0 <= k < i ==> !((#[trigger] events@[k]) is Close),
                forall|k: int| 0 <= k < n - 1 ==> !((#[trigger] events@[k]) is Close),
                n < events@.len() ==> events@[n - 1] is Close,
                events@.len() > 0 ==> n > 0,
                mail_queued(m0, events@.take(i as int), now_ns, self.conn@),
                self.conn@.accounted() <= m0.accounted() + mail_len(events@.take(i as int)),
                self.conn@.frame_count() == m0.frame_count() + i,
                names(session.subscribed@) == mail_channels(c0, events@.take(i as int)),
                names(session.presence@) == mail_channels(p0, events@.take(i as int)),
                subs_changed ==> names(session.subscribed@).len() < c0.len(),
                !subs_changed ==> names(session.subscribed@) == c0,
                session.app_id == s0.app_id,
                session.socket_id == s0.socket_id,
                session.version == s0.version,
                session.subs == s0.subs,
                session.cluster_admitted == s0.cluster_admitted,
                self.session is None,
                self.fragment == old(self).fragment,
                self.inbuf == old(self).inbuf,
                self.pending_establish == old(self).pending_establish,
            decreases events@.len() - i,
        {
            let ghost mid = self.conn@;
            let ghost upto = events@.take(i + 1);
            let ghost chans = names(session.subscribed@);
            proof {
                assert(upto.drop_last() =~= events@.take(i as int));
                assert(upto.last() == events@[i as int]);
                lemma_mail_len(events@, i + 1);
            }
            match &events[i] {
                MailEvent::Close { code, reason } => {
                    self.queue_close_frame(*code, reason.as_str(), now_ns);
                    close_after = true;
                    assert(i == n - 1);
                },
                MailEvent::SubscriptionError { channel, text } => {
                    let was: bool = remove_name(&mut session.subscribed, channel.as_str());
                    let _p: bool = remove_name(&mut session.presence, channel.as_str());
                    proof {
                        lemma_without(chans, channel@, channel@);
                        lemma_shrinks(chans, channel@);
                    }
                    if was {
                        subs_changed = true;
                    }
                    self.queue_text(text.as_str(), now_ns);
                },
                MailEvent::Text(t) => {
                    self.queue_text(t.as_str(), now_ns);
                },
            }
            assert(mail_queued(m0, upto.drop_last(), now_ns, mid));
            assert(mid.sent(mail_frame(upto.last()), now_ns, self.conn@));
            assert(mail_queued(m0, upto, now_ns, self.conn@));
            i = i + 1;
        }
        proof {
            assert(i == n);
            lemma_mail_len(events@, n as int);
            if close_after {
                assert(events@[i - 1] is Close);
            }
        }
        self.session = Some(session);
        DrainPlan { wrote: i > 0, close_after, subs_changed }
    }
}

/// `after` is `before` with a text frame and then a close frame queued.
pub open spec fn text_and_close(
    before: ConnModel,
    text: Seq<char>,
    code: u16,
    reason: Seq<char>,
    now: u64,
    after: ConnModel,
) -> bool {
    exists|mid: ConnModel|
        #[trigger] before.sent(fanout::text_frame(text), now, mid) && mid.sent(
            entry::close_frame(code, reason),
            now,
            after,
        )
}

/// The bytes of a text frame and a close frame.
pub open spec fn text_and_close_len(text: Seq<char>, code: u16, reason: Seq<char>) -> nat {
    fanout::text_frame(text).len() + entry::close_frame(code, reason).len()
}

impl Entry {
    /// Queues an error message and the close frame with its code and reason.
    pub fn queue_reject(&mut self, text: &str, code: u16, reason: &str, now_ns: u64)
        requires
            old(self).wf(),
            old(self).conn@.room(text_and_close_len(text@, code, reason@), 2),
        ensures
            final(self).wf(),
            text_and_close(old(self).conn@, text@, code, reason@, now_ns, final(self).conn@),
            final(self).fragment == old(self).fragment,
            final(self).inbuf == old(self).inbuf,
            final(self).session == old(self).session,
            final(self).pending_establish == old(self).pending_establish,
    {
        let ghost m0 = self.conn@;
        self.queue_text(text, now_ns);
        let ghost mid = self.conn@;
        self.queue_close_frame(code, reason, now_ns);
        assert(m0.sent(fanout::text_frame(text@), now_ns, mid));
    }
}

proof fn lemma_shrinks(v: Seq<Seq<char>>, c: Seq<char>)
    ensures
        v.contains(c) ==> without(v, c).len() < v.len(),
    decreases v.len(),
{
    if v.contains(c) {
        let i = choose|i: int| 0 <= i < v.len() && v[i] == c;
        let init = v.drop_last();
        lemma_without(init, c, c);
        if v.last() != c {
            assert(init[i] == c);
            lemma_shrinks(init, c);
        }
    }
}

/// What is sent of a mailbox is everything up to and with the first close, and
/// nothing behind it.
pub proof fn mail_stops_at_the_first_close(events: Seq<MailEvent>)
    ensures
        mail_sent(events).is_prefix_of(events),
        forall|i: int| 0 <= i < mail_sent(events).len() - 1 ==> !(#[trigger] mail_sent(
            events,
        )[i] is Close),
        (forall|i: int| 0 <= i < events.len() ==> !((#[trigger] events[i]) is Close)) ==> mail_sent(
            events,
        ) == events,
        (exists|i: int| 0 <= i < events.len() && (#[trigger] events[i]) is Close) ==> mail_sent(
            events,
        ).len() > 0 && mail_sent(events).last() is Close,
{
    lemma_mail_count(events);
    let n = mail_count(events) as int;
    let sent = mail_sent(events);
    assert(sent =~= events.take(sent.len() as int));
    assert forall|i: int| 0 <= i < sent.len() - 1 implies !(#[trigger] sent[i] is Close) by {
        assert(sent[i] == events[i]);
    }
    if forall|i: int| 0 <= i < events.len() ==> !((#[trigger] events[i]) is Close) {
        if n > 0 {
            assert(!(events[n - 1] is Close));
        }
        assert(sent =~= events);
    }
    if exists|i: int| 0 <= i < events.len() && (#[trigger] events[i]) is Close {
        let i = choose|i: int| 0 <= i < events.len() && (#[trigger] events[i]) is Close;
        assert(n > 0);
        if n == events.len() && i < n - 1 {
            assert(!(events[i] is Close));
        }
        assert(sent.last() == events[n - 1]);
    }
}

/// Exactly the channels whose subscription did not take are gone from a list; the
/// others stay.
pub proof fn failed_subscriptions_are_undone(
    channels: Seq<Seq<char>>,
    events: Seq<MailEvent>,
    channel: Seq<char>,
)
    ensures
        mail_channels(channels, events).contains(channel) <==> channels.contains(channel)
            && !exists|i: int|
            0 <= i < events.len() && #[trigger] refuses(events[i], channel),
    decreases events.len(),
{
    if events.len() > 0 {
        let rest = events.drop_last();
        let before = mail_channels(channels, rest);
        failed_subscriptions_are_undone(channels, rest, channel);
        if exists|i: int| 0 <= i < rest.len() && #[trigger] refuses(rest[i], channel) {
            let i = choose|i: int| 0 <= i < rest.len() && #[trigger] refuses(rest[i], channel);
            assert(refuses(events[i], channel));
        }
        if refuses(events.last(), channel) {
            assert(refuses(events[events.len() - 1], channel));
        }
        if exists|i: int| 0 <= i < events.len() && #[trigger] refuses(events[i], channel) {
            let i = choose|i: int| 0 <= i < events.len() && #[trigger] refuses(events[i], channel);
            if i < rest.len() {
                assert(refuses(rest[i], channel));
            }
        }
        if let MailEvent::SubscriptionError { channel: refused, text } = events.last() {
            lemma_without(before, refused@, channel);
        }
    }
}

/// The event says that the subscription to the channel did not take.
pub open spec fn refuses(ev: MailEvent, c: Seq<char>) -> bool {
    ev matches MailEvent::SubscriptionError { channel, text } && channel@ == c
}

/// Each event becomes a frame that says what it says: a text frame of its whole text,
/// or a close frame with its code and reason.
pub proof fn mail_becomes_frames(ev: MailEvent)
    ensures
        match ev {
            MailEvent::Text(t) => mail_frame(ev) == frame::server_frame(
                true,
                OpCode::Text,
                encode_utf8(t@),
            ),
            MailEvent::SubscriptionError { channel, text } => mail_frame(ev)
                == frame::server_frame(true, OpCode::Text, encode_utf8(text@)),
            MailEvent::Close { code, reason } => mail_frame(ev) == frame::server_frame(
                true,
                OpCode::Close,
                seq![(code / 256) as u8, (code % 256) as u8] + encode_utf8(reason@),
            ),
        },
{
}

/// A mailbox that fits the queue is queued whole and in order behind what was there:
/// one frame for each event, stamped with the time, and nothing is evicted for it.
pub proof fn mail_is_queued_in_order(
    before: ConnModel,
    events: Seq<MailEvent>,
    now: u64,
    after: ConnModel,
)
    requires
        mail_queued(before, events, now, after),
        before.in_flight.len() == 0,
        before.cursor > 0 ==> before.queued.len() > 0,
        before.out_bytes() + mail_len(events) <= before.high_water,
    ensures
        after.queued.len() == before.queued.len() + events.len(),
        forall|i: int| 0 <= i < before.queued.len() ==> #[trigger] after.queued[i] == before.queued[i],
        forall|i: int|
            0 <= i < events.len() ==> (#[trigger] after.queued[before.queued.len() + i]).0@
                == mail_frame(events[i]) && after.queued[before.queued.len() + i].1 == now,
        after.out_bytes() == before.out_bytes() + mail_len(events),
        after == (ConnModel { queued: after.queued, ..before }),
    decreases events.len(),
{
    if events.len() > 0 {
        let init = events.drop_last();
        let last = mail_frame(events.last());
        let mid = choose|mid: ConnModel|
            mail_queued(before, init, now, mid) && #[trigger] mid.sent(last, now, after);
        mail_is_queued_in_order(before, init, now, mid);
        let f = choose|f: Arc<[u8]>| f@ == last && after == #[trigger] mid.enqueued((f, now));
        queueing_evicts_no_more_than_it_must(mid, (f, now));
        let n = before.queued.len();
        assert(mid.drophead_dropped == before.drophead_dropped);
        assert(after.drophead_dropped == mid.drophead_dropped);
        assert forall|i: int| 0 <= i < mid.queued.len() implies #[trigger] after.queued[i]
            == mid.queued[i] by {}
        assert forall|i: int| 0 <= i < n implies #[trigger] after.queued[i] == before.queued[i] by {
            assert(after.queued[i] == mid.queued[i]);
        }
        assert forall|i: int| 0 <= i < events.len() implies (#[trigger] after.queued[n + i]).0@
            == mail_frame(events[i]) && after.queued[n + i].1 == now by {
            if i < init.len() {
                assert(after.queued[n + i] == mid.queued[n + i]);
                assert(init[i] == events[i]);
            } else {
                assert(after.queued[n + i] == after.queued.last());
            }
        }
    }
}

/// A connection that is turned away is told why before it is closed: the error message
/// is queued, and the close frame last.
pub proof fn errors_come_before_the_close(
    before: ConnModel,
    text: Seq<char>,
    code: u16,
    reason: Seq<char>,
    now: u64,
    after: ConnModel,
)
    requires
        text_and_close(before, text, code, reason, now, after),
        before.in_flight.len() == 0,
        before.cursor > 0 ==> before.queued.len() > 0,
    ensures
        after.queued.len() > 0,
        after.queued.last().0@ == entry::close_frame(code, reason),
        after.queued.last().1 == now,
        before.out_bytes() + text_and_close_len(text, code, reason) <= before.high_water ==> {
            let n = before.queued.len() as int;
            &&& after.queued.len() == n + 2
            &&& forall|i: int| 0 <= i < n ==> #[trigger] after.queued[i] == before.queued[i]
            &&& after.queued[n].0@ == fanout::text_frame(text)
            &&& after.queued[n].1 == now
        },
{
    let mid = choose|mid: ConnModel|
        #[trigger] before.sent(fanout::text_frame(text), now, mid) && mid.sent(
            entry::close_frame(code, reason),
            now,
            after,
        );
    let f = choose|f: Arc<[u8]>|
        f@ == fanout::text_frame(text) && mid == #[trigger] before.enqueued((f, now));
    let g = choose|g: Arc<[u8]>|
        g@ == entry::close_frame(code, reason) && after == #[trigger] mid.enqueued((g, now));
    queueing_evicts_no_more_than_it_must(before, (f, now));
    queueing_evicts_no_more_than_it_must(mid, (g, now));
    if before.out_bytes() + text_and_close_len(text, code, reason) <= before.high_water {
        let n = before.queued.len() as int;
        assert forall|i: int| 0 <= i < n + 1 implies #[trigger] after.queued[i] == mid.queued[i] by {}
        assert forall|i: int| 0 <= i < n implies #[trigger] after.queued[i] == before.queued[i] by {
            assert(after.queued[i] == mid.queued[i]);
        }
        assert(after.queued[n] == mid.queued[n]);
    }
}

} // verus!
