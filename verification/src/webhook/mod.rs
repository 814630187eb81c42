//! Signed, batched notifications about channels and their members.
//!
//! An event goes into a mailbox, is collected into a batch, split by app,
//! signed for each endpoint that wants it, and handed to a transport.
use crate::webhook::event::WebhookEvent;
use tokio::sync::mpsc;
use vstd::prelude::*;

pub mod batch;
pub mod dispatcher;
pub mod event;
pub mod occupancy;
pub mod target;
pub mod transport;

verus! {

/// Counters of the webhook pipeline. They wrap around.
#[derive(Debug, Clone, Copy, PartialEq, Eq, Structural)]
pub struct WebhookMetrics {
    /// Events put into the mailbox.
    pub enqueued: u64,
    /// Events dropped because the mailbox was full or closed.
    pub dropped: u64,
    /// Deliveries that were accepted.
    pub delivered_ok: u64,
    /// Deliveries that were given up.
    pub delivered_failed: u64,
    /// How many events the mailbox can hold.
    pub max_capacity: usize,
}

/// What became of an event that was put into the mailbox.
#[derive(Debug, Clone, Copy, PartialEq, Eq, Structural)]
pub enum Enqueued {
    Sent,
    Full,
    Closed,
}

/// The counter after one more.
pub open spec fn one_more(n: u64) -> u64 {
    if n == u64::MAX {
        0
    } else {
        (n + 1) as u64
    }
}

impl WebhookMetrics {
    pub fn new(max_capacity: usize) -> (m: WebhookMetrics)
        ensures
            m == (WebhookMetrics {
                enqueued: 0,
                dropped: 0,
                delivered_ok: 0,
                delivered_failed: 0,
                max_capacity,
            }),
    {
        WebhookMetrics { enqueued: 0, dropped: 0, delivered_ok: 0, delivered_failed: 0, max_capacity }
    }

    /// The counters after an event: it counts as enqueued or as dropped, never
    /// as both.
    pub open spec fn counted(self, outcome: Enqueued) -> WebhookMetrics {
        match outcome {
            Enqueued::Sent => WebhookMetrics { enqueued: one_more(self.enqueued), ..self },
            _ => WebhookMetrics { dropped: one_more(self.dropped), ..self },
        }
    }

    /// Counts an event by what became of it.
    pub fn count(&mut self, outcome: Enqueued)
        ensures
            *final(self) == old(self).counted(outcome),
    {
        match outcome {
            Enqueued::Sent => {
                self.enqueued = self.enqueued.wrapping_add(1);
            },
            _ => {
                self.dropped = self.dropped.wrapping_add(1);
            },
        }
    }

    /// Counts a delivery by its outcome.
    pub fn settle(&mut self, delivered: bool)
        ensures
            *final(self) == if delivered {
                WebhookMetrics { delivered_ok: one_more(old(self).delivered_ok), ..*old(self) }
            } else {
                WebhookMetrics {
                    delivered_failed: one_more(old(self).delivered_failed),
                    ..*old(self)
                }
            },
    {
        if delivered {
            self.delivered_ok = self.delivered_ok.wrapping_add(1);
        } else {
            self.delivered_failed = self.delivered_failed.wrapping_add(1);
        }
    }

    /// How many events are in the mailbox, given how many more fit.
    pub fn depth(&self, remaining: usize) -> (r: u64)
        ensures
            r == if self.max_capacity > remaining {
                self.max_capacity - remaining
            } else {
                0
            },
    {
        if self.max_capacity > remaining {
            (self.max_capacity - remaining) as u64
        } else {
            0
        }
    }
}

/// `tokio::sync::mpsc::Sender`, the sending side of the mailbox.
#[verifier::external_type_specification]
#[verifier::external_body]
#[verifier::reject_recursive_types(T)]
pub struct ExSender<T>(mpsc::Sender<T>);

/// The events that were offered through a sender (not through its clones), oldest
/// first, and what became of each.
pub uninterp spec fn offers_of(tx: mpsc::Sender<WebhookEvent>) -> Seq<(WebhookEvent, Enqueued)>;

/// `mpsc::Sender::try_send`: offers the event to the mailbox and returns at once.
/// The event goes in exactly where the outcome is [`Enqueued::Sent`]; which of the
/// three it is depends on the receiving side.
#[verifier::external_body]
fn try_send(tx: &mut mpsc::Sender<WebhookEvent>, event: WebhookEvent) -> (r: Enqueued)
    ensures
        offers_of(*final(tx)) == offers_of(*old(tx)).push((event, r)),
{
    match tx.try_send(event) {
        Ok(()) => Enqueued::Sent,
        Err(mpsc::error::TrySendError::Full(_)) => Enqueued::Full,
        Err(mpsc::error::TrySendError::Closed(_)) => Enqueued::Closed,
    }
}

/// `mpsc::Sender::capacity`: how many more events fit right now, which depends
/// on the receiving side.
#[verifier::external_body]
fn remaining(tx: &mpsc::Sender<WebhookEvent>) -> (r: usize) {
    tx.capacity()
}

/// Asks `room` about `tx` and hands its answer on.
fn asked<F: Fn(&mpsc::Sender<WebhookEvent>) -> usize>(
    room: F,
    tx: &mpsc::Sender<WebhookEvent>,
) -> (r: usize)
    requires
        call_requires(room, (tx,)),
    ensures
        call_ensures(room, (tx,), r),
{
    room(tx)
}

/// `n` is an answer of [`remaining`] about `tx`: how many more events fit.
pub closed spec fn has_room_for(tx: mpsc::Sender<WebhookEvent>, n: usize) -> bool {
    call_ensures(remaining, (&tx,), n)
}

/// The way into the mailbox. Putting an event in never blocks.
#[derive(Debug)]
pub struct WebhookHandle {
    pub tx: mpsc::Sender<WebhookEvent>,
    pub metrics: WebhookMetrics,
}

impl WebhookHandle {
    /// A handle on the sending side of a mailbox for so many events.
    pub fn new(tx: mpsc::Sender<WebhookEvent>, max_capacity: usize) -> (h: WebhookHandle)
        ensures
            h.tx == tx,
            h.metrics == (WebhookMetrics {
                enqueued: 0,
                dropped: 0,
                delivered_ok: 0,
                delivered_failed: 0,
                max_capacity,
            }),
    {
        WebhookHandle { tx, metrics: WebhookMetrics::new(max_capacity) }
    }

    /// The counters.
    pub fn metrics(&self) -> (m: WebhookMetrics)
        ensures
            m == self.metrics,
    {
        self.metrics
    }

    /// How many events are in the mailbox: what it can hold less what
    /// `Sender::capacity` says still fits, which depends on what the receiving side
    /// has taken out.
    pub fn queue_depth(&self) -> (r: u64)
        ensures
            r <= self.metrics.max_capacity,
            exists|free: usize| #[trigger]
                has_room_for(self.tx, free) && r == (if free < self.metrics.max_capacity {
                    self.metrics.max_capacity - free
                } else {
                    0
                }),
    {
        let free: usize = asked(remaining, &self.tx);
        assert(has_room_for(self.tx, free));
        self.metrics.depth(free)
    }

    /// Offers an event to the mailbox, which drops it where it is full or closed, and
    /// counts what became of it.
    pub fn enqueue(&mut self, event: WebhookEvent) -> (outcome: Enqueued)
        ensures
            offers_of(final(self).tx) == offers_of(old(self).tx).push((event, outcome)),
            final(self).metrics == old(self).metrics.counted(outcome),
            final(self).metrics.max_capacity == old(self).metrics.max_capacity,
    {
        let outcome: Enqueued = try_send(&mut self.tx, event);
        self.metrics.count(outcome);
        outcome
    }
}

/// An answer about the mailbox is `Sender::capacity` of its own sender, unscaled.
proof fn room_is_the_capacity(tx: mpsc::Sender<WebhookEvent>, n: usize)
    ensures
        has_room_for(tx, n) <==> call_ensures(remaining, (&tx,), n),
{
}

/// Every event is counted once, as enqueued where the mailbox took it and as
/// dropped where it was full or closed, and nothing else is counted.
pub proof fn every_event_is_counted_once(m: WebhookMetrics, outcome: Enqueued)
    requires
        m.enqueued < u64::MAX,
        m.dropped < u64::MAX,
    ensures
        m.counted(outcome).enqueued + m.counted(outcome).dropped == m.enqueued + m.dropped + 1,
        m.counted(outcome).enqueued == m.enqueued + 1 <==> outcome == Enqueued::Sent,
        m.counted(outcome).dropped == m.dropped + 1 <==> outcome == Enqueued::Full || outcome
            == Enqueued::Closed,
        m.counted(outcome).delivered_ok == m.delivered_ok,
        m.counted(outcome).delivered_failed == m.delivered_failed,
        m.counted(outcome).max_capacity == m.max_capacity,
{
}

} // verus!
