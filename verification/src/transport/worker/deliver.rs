//! Delivery of broadcasts to a worker's own subscribers.
//!
//! Every subscriber is offered the frame for its protocol version. Under memory
//! pressure backed-up subscribers are skipped, so that those who keep up still
//! get every frame; at the budget the broadcast is dropped. The band is
//! looked up anew for each subscriber, so that one large channel cannot run past
//! the budget within one broadcast.
use crate::transport::conn::ConnState;
use crate::transport::fanout::{
    BroadcastMsg, MsgModel, SharedFrame, SlotModel, SocketId, WorkerSlot,
};
use crate::transport::worker::index::SubIndex;
use crate::transport::worker::shed::{self, ShedBand};
use crate::transport::worker::state::Worker;
use crate::transport::worker::table::{self, TableModel};
use vstd::prelude::*;

verus! {

/// The frame for a version: the one listed for it, or else the first.
pub open spec fn frame_for(frames: Seq<(u8, SharedFrame)>, version: u8) -> SharedFrame
    recommends
        frames.len() > 0,
{
    if frames.len() == 1 {
        frames[0].1
    } else {
        find_frame(frames, frames, version)
    }
}

/// The first of `left` for the version, or else the first of `frames`.
pub open spec fn find_frame(
    frames: Seq<(u8, SharedFrame)>,
    left: Seq<(u8, SharedFrame)>,
    version: u8,
) -> SharedFrame
    decreases left.len(),
{
    if left.len() == 0 {
        frames[0].1
    } else if left[0].0 == version {
        left[0].1
    } else {
        find_frame(frames, left.drop_first(), version)
    }
}

/// A delivery in progress.
pub struct Delivery {
    pub table: TableModel,
    /// The connections that something was queued on, each once.
    pub touched: Seq<usize>,
    /// The worker's budget was found spent.
    pub saturated: bool,
}

/// `v` with `k` in it.
pub open spec fn with_key(v: Seq<usize>, k: usize) -> Seq<usize> {
    if v.contains(k) {
        v
    } else {
        v.push(k)
    }
}

impl Delivery {
    /// The delivery after one subscriber has been dealt with.
    pub open spec fn one(
        self,
        sub: (SocketId, usize, u8),
        msg: MsgModel,
        closing: Seq<usize>,
        budget: u64,
        now: u64,
    ) -> Delivery {
        let band = shed::band_of(self.table.inflight, budget);
        let frame = frame_for(msg.frames, sub.2);
        if band == ShedBand::Saturated {
            Delivery { saturated: true, ..self }
        } else if msg.except == Some(sub.0) || closing.contains(sub.1) || !self.table.takes(
            sub.1,
            frame,
            band,
        ) {
            self
        } else {
            Delivery {
                table: self.table.offered(sub.1, frame, band, now),
                touched: with_key(self.touched, sub.1),
                ..self
            }
        }
    }

    /// The delivery after all of `subs` have been dealt with, in order.
    pub open spec fn each(
        self,
        subs: Seq<(SocketId, usize, u8)>,
        msg: MsgModel,
        closing: Seq<usize>,
        budget: u64,
        now: u64,
    ) -> Delivery
        decreases subs.len(),
    {
        if subs.len() == 0 {
            self
        } else {
            self.each(subs.drop_last(), msg, closing, budget, now).one(
                subs.last(),
                msg,
                closing,
                budget,
                now,
            )
        }
    }

    /// The delivery after one broadcast to the subscribers of its channel.
    pub open spec fn message(
        self,
        index: SubIndex,
        msg: MsgModel,
        closing: Seq<usize>,
        budget: u64,
        now: u64,
    ) -> Delivery {
        if msg.frames.len() == 0 {
            self
        } else {
            self.each(
                index.room(msg.app, msg.channel),
                msg,
                closing,
                budget,
                now,
            )
        }
    }

    /// The delivery after all of `msgs`, in order.
    pub open spec fn all(
        self,
        index: SubIndex,
        msgs: Seq<MsgModel>,
        closing: Seq<usize>,
        budget: u64,
        now: u64,
    ) -> Delivery
        decreases msgs.len(),
    {
        if msgs.len() == 0 {
            self
        } else {
            self.message(index, msgs[0], closing, budget, now).all(
                index,
                msgs.drop_first(),
                closing,
                budget,
                now,
            )
        }
    }
}

/// Whether a key is in the list.
pub fn has_key(v: &Vec<usize>, k: usize) -> (b: bool)
    ensures
        b == v@.contains(k),
{
    let mut i: usize = 0;
    while i < v.len()
        invariant
            i <= v@.len(),
            forall|j: int| 0 <= j < i ==> v@[j] != k,
        decreases v@.len() - i,
    {
        if v[i] == k {
            assert(v@[i as int] == k);
            return true;
        }
        i = i + 1;
    }
    false
}

fn pick_frame(frames: &Vec<(u8, SharedFrame)>, version: u8) -> (f: SharedFrame)
    requires
        frames@.len() > 0,
    ensures
        f == frame_for(frames@, version),
{
    if frames.len() == 1 {
        return frames[0].1.clone();
    }
    let mut i: usize = 0;
    assert(frames@.skip(0) =~= frames@);
    while i < frames.len()
        invariant
            frames@.len() > 1,
            i <= frames@.len(),
            frame_for(frames@, version) == find_frame(frames@, frames@.skip(i as int), version),
        decreases frames@.len() - i,
    {
        assert(frames@.skip(i as int)[0] == frames@[i as int]);
        assert(frames@.skip(i as int).drop_first() =~= frames@.skip(i + 1));
        if frames[i].0 == version {
            return frames[i].1.clone();
        }
        i = i + 1;
    }
    frames[0].1.clone()
}

impl Worker {
    /// Delivers one broadcast to this worker's subscribers of its channel.
    pub fn deliver(
        &mut self,
        msg: &BroadcastMsg,
        closing: &Vec<usize>,
        budget: u64,
        now_ns: u64,
        touched: &mut Vec<usize>,
        saturated: &mut bool,
    )
        requires
            old(self).wf(),
        ensures
            final(self).wf(),
            final(self).wheel == old(self).wheel,
            final(self).index == old(self).index,
            final(self).next_gen == old(self).next_gen,
            (Delivery {
                table: final(self).table@,
                touched: final(touched)@,
                saturated: *final(saturated),
            }) == (Delivery {
                table: old(self).table@,
                touched: old(touched)@,
                saturated: *old(saturated),
            }).message(old(self).index, msg@, closing@, budget, now_ns),
    {
        if msg.frames.len() == 0 {
            return;
        }
        let subs: Vec<(SocketId, usize, u8)> = self.index.subscribers(&msg.app, &msg.channel);
        let ghost d0 = Delivery { table: self.table@, touched: touched@, saturated: *saturated };
        let mut i: usize = 0;
        assert(subs@.take(0) =~= Seq::<(SocketId, usize, u8)>::empty());
        while i < subs.len()
            invariant
                self.wf(),
                self.wheel == old(self).wheel,
                self.index == old(self).index,
                self.next_gen == old(self).next_gen,
                msg.frames@.len() > 0,
                i <= subs@.len(),
                (Delivery { table: self.table@, touched: touched@, saturated: *saturated })
                    == d0.each(subs@.take(i as int), msg@, closing@, budget, now_ns),
            decreases subs@.len() - i,
        {
            let (sid, token, version) = subs[i];
            proof {
                assert(subs@.take(i + 1).drop_last() =~= subs@.take(i as int));
                assert(subs@.take(i + 1).last() == subs@[i as int]);
            }
            let band: ShedBand = shed::shed_band(self.table.inflight_bytes(), budget);
            let sender: bool = match msg.except {
                Some(x) => x == sid,
                None => false,
            };
            if band == ShedBand::Saturated {
                *saturated = true;
            } else if !sender && !has_key(closing, token) {
                let frame: SharedFrame = pick_frame(&msg.frames, version);
                if self.table.offer_frame(token, frame, band, now_ns) {
                    if !has_key(touched, token) {
                        touched.push(token);
                    }
                }
            }
            i = i + 1;
        }
        assert(subs@.take(i as int) =~= subs@);
    }

    /// Delivers every broadcast in the worker's inbox, oldest first, and leaves
    /// the inbox empty.
    pub fn drain_broadcast_inbox(
        &mut self,
        slot: &mut WorkerSlot,
        closing: &Vec<usize>,
        budget: u64,
        now_ns: u64,
        touched: &mut Vec<usize>,
    )
        requires
            old(self).wf(),
        ensures
            final(self).wf(),
            final(self).wheel == old(self).wheel,
            final(self).index == old(self).index,
            final(self).next_gen == old(self).next_gen,
            final(slot)@ == (SlotModel {
                inbox: Seq::empty(),
                budget_saturated: final(slot)@.budget_saturated,
                ..old(slot)@
            }),
            (Delivery {
                table: final(self).table@,
                touched: final(touched)@,
                saturated: final(slot)@.budget_saturated,
            }) == (Delivery {
                table: old(self).table@,
                touched: old(touched)@,
                saturated: old(slot)@.budget_saturated,
            }).all(old(self).index, old(slot)@.inbox, closing@, budget, now_ns),
    {
        let ghost d0 = Delivery {
            table: self.table@,
            touched: touched@,
            saturated: slot@.budget_saturated,
        };
        let ghost slots = self.index;
        let ghost s0 = slot@;
        loop
            invariant
                self.wf(),
                self.wheel == old(self).wheel,
                self.index == old(self).index,
                self.next_gen == old(self).next_gen,
                slots == old(self).index,
                s0 == old(slot)@,
                d0 == (Delivery {
                    table: old(self).table@,
                    touched: old(touched)@,
                    saturated: old(slot)@.budget_saturated,
                }),
                slot@ == (SlotModel {
                    inbox: slot@.inbox,
                    budget_saturated: slot@.budget_saturated,
                    ..s0
                }),
                d0.all(slots, s0.inbox, closing@, budget, now_ns) == (Delivery {
                    table: self.table@,
                    touched: touched@,
                    saturated: slot@.budget_saturated,
                }).all(slots, slot@.inbox, closing@, budget, now_ns),
            decreases slot@.inbox.len(),
        {
            let ghost before = slot@;
            match slot.take() {
                None => {
                    assert(slot@.inbox =~= Seq::<MsgModel>::empty());
                    return;
                },
                Some(msg) => {
                    let mut bit: bool = slot.budget_saturated;
                    self.deliver(&msg, closing, budget, now_ns, touched, &mut bit);
                    let ghost mid = slot@;
                    slot.budget_saturated = bit;
                    assert(slot@ == (SlotModel { budget_saturated: bit, ..mid }));
                },
            }
        }
    }
}

/// Delivering never removes a connection, never touches one that is closing, and
/// never queues anything for the sender.
pub proof fn delivery_spares(
    d: Delivery,
    sub: (SocketId, usize, u8),
    msg: MsgModel,
    closing: Seq<usize>,
    budget: u64,
    now: u64,
)
    ensures
        d.one(sub, msg, closing, budget, now).table.conns.dom() == d.table.conns.dom(),
        closing.contains(sub.1) ==> d.one(sub, msg, closing, budget, now).table == d.table,
        msg.except == Some(sub.0) ==> d.one(sub, msg, closing, budget, now).table == d.table,
        shed::band_of(d.table.inflight, budget) == ShedBand::Saturated ==> d.one(
            sub,
            msg,
            closing,
            budget,
            now,
        ).table == d.table,
{
    assert(d.one(sub, msg, closing, budget, now).table.conns.dom() =~= d.table.conns.dom());
}

/// No subscriber in the list is on the connection.
pub open spec fn absent(subs: Seq<(SocketId, usize, u8)>, token: usize) -> bool {
    forall|j: int| 0 <= j < subs.len() ==> (#[trigger] subs[j]).1 != token
}

/// A broadcast reaches nobody but the subscribers of its channel: every other
/// connection is as before.
pub proof fn broadcasts_stay_in_their_channel(
    d: Delivery,
    subs: Seq<(SocketId, usize, u8)>,
    token: usize,
    msg: MsgModel,
    closing: Seq<usize>,
    budget: u64,
    now: u64,
)
    requires
        absent(subs, token),
    ensures
        d.each(subs, msg, closing, budget, now).table.conns.dom() == d.table.conns.dom(),
        d.each(subs, msg, closing, budget, now).table.conns[token] == d.table.conns[token],
        d.each(subs, msg, closing, budget, now).touched.contains(token) ==> d.touched.contains(
            token,
        ),
    decreases subs.len(),
{
    if subs.len() > 0 {
        let init = subs.drop_last();
        assert(absent(init, token)) by {
            assert forall|j: int| 0 <= j < init.len() implies (#[trigger] init[j]).1 != token by {
                assert(init[j] == subs[j]);
            }
        }
        broadcasts_stay_in_their_channel(d, init, token, msg, closing, budget, now);
        let mid = d.each(init, msg, closing, budget, now);
        let last = subs.last();
        assert(last == subs[subs.len() - 1]);
        delivery_spares(mid, last, msg, closing, budget, now);
        let end = mid.one(last, msg, closing, budget, now);
        if end.touched.contains(token) {
            let j = choose|j: int| 0 <= j < end.touched.len() && end.touched[j] == token;
            assert(mid.touched[j] == token);
        }
    }
}

/// Every subscriber that is neither the sender nor closing, on an open connection
/// with room, is queued the frame for its own protocol version, unless the worker
/// is short of memory when its turn comes.
pub proof fn subscribers_get_their_frame(
    d: Delivery,
    subs: Seq<(SocketId, usize, u8)>,
    i: int,
    msg: MsgModel,
    closing: Seq<usize>,
    budget: u64,
    now: u64,
)
    requires
        0 <= i < subs.len(),
        forall|j: int| 0 <= j < subs.len() && j != i ==> (#[trigger] subs[j]).1 != subs[i].1,
        msg.except != Some(subs[i].0),
        !closing.contains(subs[i].1),
        d.table.conns.dom().contains(subs[i].1),
        d.table.conns[subs[i].1].open(),
        d.table.conns[subs[i].1].conn.room(frame_for(msg.frames, subs[i].2)@.len(), 1),
        shed::band_of(
            d.each(subs.take(i), msg, closing, budget, now).table.inflight,
            budget,
        ) == ShedBand::Normal,
    ensures
        d.each(subs, msg, closing, budget, now).table.conns[subs[i].1].conn.queued.last() == (
            frame_for(msg.frames, subs[i].2),
            now,
        ),
        d.each(subs, msg, closing, budget, now).touched.contains(subs[i].1),
    decreases subs.len(),
{
    let token = subs[i].1;
    let init = subs.drop_last();
    if i < subs.len() - 1 {
        assert(init.take(i) =~= subs.take(i));
        assert forall|j: int| 0 <= j < init.len() && j != i implies (#[trigger] init[j]).1
            != init[i].1 by {
            assert(init[j] == subs[j]);
        }
        subscribers_get_their_frame(d, init, i, msg, closing, budget, now);
        let mid = d.each(init, msg, closing, budget, now);
        let last = subs.last();
        assert(subs[subs.len() - 1].1 != token);
        let end = mid.one(last, msg, closing, budget, now);
        assert(end.table.conns[token] == mid.table.conns[token]);
        let k = choose|k: int| 0 <= k < mid.touched.len() && mid.touched[k] == token;
        assert(end.touched[k] == token);
    } else {
        assert(init =~= subs.take(i));
        assert(absent(init, token)) by {
            assert forall|j: int| 0 <= j < init.len() implies (#[trigger] init[j]).1 != token by {
                assert(init[j] == subs[j]);
            }
        }
        broadcasts_stay_in_their_channel(d, init, token, msg, closing, budget, now);
        let mid = d.each(init, msg, closing, budget, now);
        let end = mid.one(subs.last(), msg, closing, budget, now);
        assert(end.touched == with_key(mid.touched, token));
        if !mid.touched.contains(token) {
            assert(end.touched[mid.touched.len() as int] == token);
        }
    }
}

/// Delivering takes writable interest from no connection but those that it lists as
/// touched, which are the ones to flush.
pub proof fn only_touched_connections_lose_interest(
    d: Delivery,
    subs: Seq<(SocketId, usize, u8)>,
    msg: MsgModel,
    closing: Seq<usize>,
    budget: u64,
    now: u64,
)
    requires
        d.table.interest_held_but(d.touched.to_set()),
    ensures
        ({
            let after = d.each(subs, msg, closing, budget, now);
            after.table.interest_held_but(after.touched.to_set())
        }),
    decreases subs.len(),
{
    if subs.len() > 0 {
        only_touched_connections_lose_interest(d, subs.drop_last(), msg, closing, budget, now);
        let mid = d.each(subs.drop_last(), msg, closing, budget, now);
        let end = mid.one(subs.last(), msg, closing, budget, now);
        let token = subs.last().1;
        assert forall|k: usize| #[trigger]
            end.table.conns.dom().contains(k) && !end.touched.to_set().contains(
                k,
            ) implies table::interested(end.table.conns[k]) by {
            assert(mid.table.conns.dom().contains(k));
            if mid.touched.contains(k) {
                let j = choose|j: int| 0 <= j < mid.touched.len() && mid.touched[j] == k;
                assert(end.touched[j] == k);
            }
            if end.touched != mid.touched {
                assert(end.touched[mid.touched.len() as int] == token);
            }
        }
    }
}

/// The same of a whole inbox: with every interest held before, only the touched
/// connections are left to flush.
pub proof fn draining_an_inbox_loses_only_touched(
    d: Delivery,
    index: SubIndex,
    msgs: Seq<MsgModel>,
    closing: Seq<usize>,
    budget: u64,
    now: u64,
)
    requires
        d.table.interest_held_but(d.touched.to_set()),
    ensures
        ({
            let after = d.all(index, msgs, closing, budget, now);
            after.table.interest_held_but(after.touched.to_set())
        }),
    decreases msgs.len(),
{
    if msgs.len() > 0 {
        only_touched_connections_lose_interest(
            d,
            index.room(msgs[0].app, msgs[0].channel),
            msgs[0],
            closing,
            budget,
            now,
        );
        draining_an_inbox_loses_only_touched(
            d.message(index, msgs[0], closing, budget, now),
            index,
            msgs.drop_first(),
            closing,
            budget,
            now,
        );
    }
}

/// A subscriber is offered the frame of its own protocol version: the first one listed
/// for it. Only where none is listed for it, or where one frame serves all versions,
/// is it the first of the list.
pub proof fn subscribers_get_their_version(frames: Seq<(u8, SharedFrame)>, version: u8, i: int)
    requires
        frames.len() > 0,
    ensures
        0 <= i < frames.len() && frames[i].0 == version && (forall|j: int|
            0 <= j < i ==> (#[trigger] frames[j]).0 != version) && frames.len() > 1 ==> frame_for(
            frames,
            version,
        ) == frames[i].1,
        (forall|j: int| 0 <= j < frames.len() ==> (#[trigger] frames[j]).0 != version) ==> frame_for(
            frames,
            version,
        ) == frames[0].1,
        frames.len() == 1 ==> frame_for(frames, version) == frames[0].1,
{
    if 0 <= i < frames.len() && frames[i].0 == version && (forall|j: int|
        0 <= j < i ==> (#[trigger] frames[j]).0 != version) {
        lemma_find_frame(frames, frames, version, i);
    }
    if forall|j: int| 0 <= j < frames.len() ==> (#[trigger] frames[j]).0 != version {
        lemma_no_frame(frames, frames, version);
    }
}

proof fn lemma_find_frame(
    frames: Seq<(u8, SharedFrame)>,
    left: Seq<(u8, SharedFrame)>,
    version: u8,
    i: int,
)
    requires
        0 <= i < left.len(),
        left[i].0 == version,
        forall|j: int| 0 <= j < i ==> (#[trigger] left[j]).0 != version,
    ensures
        find_frame(frames, left, version) == left[i].1,
    decreases i,
{
    if i > 0 {
        let rest = left.drop_first();
        assert(left[0].0 != version);
        assert forall|j: int| 0 <= j < i - 1 implies (#[trigger] rest[j]).0 != version by {
            assert(rest[j] == left[j + 1]);
        }
        lemma_find_frame(frames, rest, version, i - 1);
    }
}

proof fn lemma_no_frame(
    frames: Seq<(u8, SharedFrame)>,
    left: Seq<(u8, SharedFrame)>,
    version: u8,
)
    requires
        forall|j: int| 0 <= j < left.len() ==> (#[trigger] left[j]).0 != version,
    ensures
        find_frame(frames, left, version) == frames[0].1,
    decreases left.len(),
{
    if left.len() > 0 {
        let rest = left.drop_first();
        assert(left[0].0 != version);
        assert forall|j: int| 0 <= j < rest.len() implies (#[trigger] rest[j]).0 != version by {
            assert(rest[j] == left[j + 1]);
        }
        lemma_no_frame(frames, rest, version);
    }
}

/// Whether a subscriber is queued a frame: below saturation, on an open connection
/// with a session that has room, unless it is the sender or is closing, or its queue
/// is more than half full from 80 % of the budget on, or more than a sixteenth from
/// 95 % on.
pub open spec fn entitled(
    d: Delivery,
    sub: (SocketId, usize, u8),
    msg: MsgModel,
    closing: Seq<usize>,
    budget: u64,
) -> bool {
    let e = d.table.conns[sub.1];
    let out = e.conn.out_bytes();
    &&& budget == 0 || d.table.inflight < budget
    &&& budget > 0 && 5 * d.table.inflight >= 4 * budget ==> 2 * out <= e.conn.high_water
    &&& budget > 0 && 20 * d.table.inflight >= 19 * budget ==> 16 * out <= e.conn.high_water
    &&& msg.except != Some(sub.0)
    &&& !closing.contains(sub.1)
    &&& d.table.conns.dom().contains(sub.1)
    &&& e.session is Some
    &&& e.conn.state == ConnState::Open
    &&& e.conn.room(frame_for(msg.frames, sub.2)@.len(), 1)
}

/// A subscriber that is entitled to a frame gets it queued, is listed for a flush and
/// has what it then holds billed; one that is not is left exactly as it was. No other
/// connection is touched, and saturation is reported exactly where the budget is
/// spent.
pub proof fn entitled_subscribers_are_served(
    d: Delivery,
    sub: (SocketId, usize, u8),
    msg: MsgModel,
    closing: Seq<usize>,
    budget: u64,
    now: u64,
    other: usize,
)
    requires
        other != sub.1,
    ensures
        ({
            let after = d.one(sub, msg, closing, budget, now);
            let old_conn = d.table.conns[sub.1].conn;
            let new_conn = after.table.conns[sub.1].conn;
            let grown = old_conn.enqueued((frame_for(msg.frames, sub.2), now));
            &&& after.table.conns[other] == d.table.conns[other]
            &&& after.saturated <==> d.saturated || (budget > 0 && d.table.inflight >= budget)
            &&& entitled(d, sub, msg, closing, budget) ==> {
                &&& new_conn.queued == grown.queued
                &&& new_conn.state == old_conn.state
                &&& new_conn.cursor == old_conn.cursor
                &&& new_conn.reported == grown.accounted()
                &&& new_conn.reported_out == grown.outbound()
                &&& after.table.conns[sub.1].session == d.table.conns[sub.1].session
                &&& after.touched.contains(sub.1)
            }
            &&& !entitled(d, sub, msg, closing, budget) ==> {
                &&& after.table == d.table
                &&& after.touched == d.touched
            }
        }),
{
    shed::bands_have_their_edges(d.table.inflight, budget);
    let after = d.one(sub, msg, closing, budget, now);
    if entitled(d, sub, msg, closing, budget) && !d.touched.contains(sub.1) {
        assert(after.touched[d.touched.len() as int] == sub.1);
    }
}

/// A broadcast goes to the subscribers of its own channel in its own app, and one
/// without a frame goes to nobody.
pub proof fn broadcasts_go_to_their_room(
    d: Delivery,
    index: SubIndex,
    msg: MsgModel,
    closing: Seq<usize>,
    budget: u64,
    now: u64,
)
    ensures
        msg.frames.len() == 0 ==> d.message(index, msg, closing, budget, now) == d,
        msg.frames.len() > 0 ==> d.message(index, msg, closing, budget, now) == d.each(
            index.room(msg.app, msg.channel),
            msg,
            closing,
            budget,
            now,
        ),
{
}

/// Broadcasts are delivered in the order in which they came: those of an inbox that
/// grew are those that were there and then the rest.
pub proof fn inboxes_are_drained_in_order(
    d: Delivery,
    index: SubIndex,
    first: Seq<MsgModel>,
    rest: Seq<MsgModel>,
    closing: Seq<usize>,
    budget: u64,
    now: u64,
)
    ensures
        d.all(index, first + rest, closing, budget, now) == d.all(
            index,
            first,
            closing,
            budget,
            now,
        ).all(index, rest, closing, budget, now),
    decreases first.len(),
{
    if first.len() == 0 {
        assert(first + rest =~= rest);
    } else {
        assert((first + rest).drop_first() =~= first.drop_first() + rest);
        inboxes_are_drained_in_order(
            d.message(index, first[0], closing, budget, now),
            index,
            first.drop_first(),
            rest,
            closing,
            budget,
            now,
        );
    }
}

} // verus!
