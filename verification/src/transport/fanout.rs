//! Sharded broadcast fan-out.
//!
//! A broadcast is handed to each worker once; the worker then delivers it to the
//! subscribers it owns. The hand-off is bounded: when a worker is behind, the
//! broadcast is dropped for that worker, counted, and the pipeline is flagged
//! saturated until the worker has drained its inbox.
use crate::transport::buffer::Buffer;
use crate::transport::frame::{self, OpCode};
use std::collections::VecDeque;
use std::sync::Arc;
use vstd::prelude::*;
use vstd::utf8::encode_utf8;

verus! {

/// Default capacity of a worker's broadcast inbox, in messages.
pub const DEFAULT_BROADCAST_HANDOFF_CAP: usize = 1024;

/// Identifies one WebSocket session.
#[derive(Debug, Clone, Copy, PartialEq, Eq, Hash, Structural)]
pub struct SocketId {
    pub hi: u64,
    pub lo: u64,
}

/// An event on its way to clients.
pub enum ServerEvent {
    /// A complete message, the same for every protocol version.
    Raw(Arc<str>),
    /// The message text for each protocol version.
    Encoded(Vec<(u8, String)>),
}

/// A finished frame, shared between the connections it is queued on.
pub type SharedFrame = Arc<[u8]>;

/// `Arc::from`: a shared copy of the bytes.
#[verifier::external_body]
pub(crate) fn share(bytes: &[u8]) -> (r: Arc<[u8]>)
    ensures
        r@ == bytes@,
{
    Arc::from(bytes)
}

impl ServerEvent {
    /// The event has a text for `version`.
    pub open spec fn has_version(&self, version: u8) -> bool {
        match self {
            ServerEvent::Raw(_) => true,
            ServerEvent::Encoded(texts) => exists|i: int|
                0 <= i < texts@.len() && (#[trigger] texts@[i]).0 == version,
        }
    }

    /// The first text listed for `version`.
    pub open spec fn text_for(&self, version: u8) -> Seq<char> {
        match self {
            ServerEvent::Raw(t) => t@,
            ServerEvent::Encoded(texts) => first_text(texts@, version),
        }
    }
}

/// The first text listed for `version`.
pub open spec fn first_text(texts: Seq<(u8, String)>, version: u8) -> Seq<char>
    decreases texts.len(),
{
    if texts.len() == 0 {
        Seq::empty()
    } else if texts[0].0 == version {
        texts[0].1@
    } else {
        first_text(texts.drop_first(), version)
    }
}

/// The text frame that carries `text`.
pub open spec fn text_frame(text: Seq<char>) -> Seq<u8> {
    frame::server_frame(true, OpCode::Text, encode_utf8(text))
}

/// Encodes `text` as one finished text frame.
pub fn encode_frame(text: &str) -> (r: SharedFrame)
    ensures
        r@ == text_frame(text@),
{
    let mut buf: Buffer = Buffer::new();
    frame::encode_text(&mut buf, text.as_bytes());
    assert(buf@ =~= text_frame(text@));
    share(buf.as_slice())
}

/// A broadcast's frames, one for each version. A raw event is framed once and
/// the one buffer is shared by every version.
pub fn frames_for(versions: &[u8], event: &ServerEvent) -> (r: Vec<(u8, SharedFrame)>)
    requires
        forall|i: int| 0 <= i < versions@.len() ==> event.has_version(#[trigger] versions@[i]),
    ensures
        r@.len() == versions@.len(),
        forall|i: int|
            0 <= i < r@.len() ==> (#[trigger] r@[i]).0 == versions@[i] && r@[i].1@ == text_frame(
                event.text_for(versions@[i]),
            ),
        event is Raw ==> forall|i: int, j: int|
            0 <= i < r@.len() && 0 <= j < r@.len() ==> (#[trigger] r@[i]).1 == (
            #[trigger] r@[j]).1,
{
    let mut out: Vec<(u8, SharedFrame)> = Vec::new();
    let mut i: usize = 0;
    match event {
        ServerEvent::Raw(text) => {
            let shared: SharedFrame = encode_frame(text);
            while i < versions.len()
                invariant
                    *event == ServerEvent::Raw(*text),
                    shared@ == text_frame(text@),
                    i <= versions@.len(),
                    out@.len() == i,
                    forall|k: int|
                        0 <= k < i ==> (#[trigger] out@[k]).0 == versions@[k] && out@[k].1 == shared,
                decreases versions@.len() - i,
            {
                out.push((versions[i], shared.clone()));
                i = i + 1;
            }
        },
        ServerEvent::Encoded(texts) => {
            while i < versions.len()
                invariant
                    *event == ServerEvent::Encoded(*texts),
                    forall|k: int|
                        0 <= k < versions@.len() ==> event.has_version(#[trigger] versions@[k]),
                    i <= versions@.len(),
                    out@.len() == i,
                    forall|k: int|
                        0 <= k < i ==> (#[trigger] out@[k]).0 == versions@[k] && out@[k].1@
                            == text_frame(event.text_for(versions@[k])),
                decreases versions@.len() - i,
            {
                assert(event.has_version(versions@[i as int]));
                out.push((versions[i], encode_frame(find_text(texts, versions[i]))));
                i = i + 1;
            }
        },
    }
    out
}

fn find_text(texts: &Vec<(u8, String)>, version: u8) -> (r: &str)
    requires
        exists|i: int| 0 <= i < texts@.len() && (#[trigger] texts@[i]).0 == version,
    ensures
        r@ == first_text(texts@, version),
{
    let mut i: usize = 0;
    assert(texts@.skip(0) =~= texts@);
    while i < texts.len() && texts[i].0 != version
        invariant
            i <= texts@.len(),
            forall|k: int| 0 <= k < i ==> (#[trigger] texts@[k]).0 != version,
            first_text(texts@, version) == first_text(texts@.skip(i as int), version),
        decreases texts@.len() - i,
    {
        assert(texts@.skip(i as int).drop_first() =~= texts@.skip(i + 1));
        i = i + 1;
    }
    assert(i < texts@.len());
    assert(texts@.skip(i as int)[0] == texts@[i as int]);
    texts[i].1.as_str()
}

/// One broadcast for a worker: the frames by version and the routing keys.
pub struct BroadcastMsg {
    pub app: Arc<str>,
    pub channel: Arc<str>,
    pub frames: Vec<(u8, SharedFrame)>,
    /// The session that is left out of the delivery.
    pub except: Option<SocketId>,
}

/// A broadcast as contracts see it.
pub struct MsgModel {
    pub app: Seq<char>,
    pub channel: Seq<char>,
    pub frames: Seq<(u8, SharedFrame)>,
    pub except: Option<SocketId>,
}

impl View for BroadcastMsg {
    type V = MsgModel;

    open spec fn view(&self) -> MsgModel {
        MsgModel {
            app: self.app@,
            channel: self.channel@,
            frames: self.frames@,
            except: self.except,
        }
    }
}

/// The hand-off to one worker.
pub struct WorkerSlot {
    /// Messages the worker has not taken yet, oldest first.
    pub inbox: VecDeque<BroadcastMsg>,
    /// Most messages the inbox may hold.
    pub cap: usize,
    /// Broadcasts dropped because the inbox was full.
    pub dropped: u64,
    /// The worker is gone.
    pub gone: bool,
    /// The worker's byte budget is spent.
    pub budget_saturated: bool,
}

/// A hand-off as contracts see it.
pub struct SlotModel {
    pub inbox: Seq<MsgModel>,
    pub cap: nat,
    pub dropped: u64,
    pub gone: bool,
    pub budget_saturated: bool,
}

impl View for WorkerSlot {
    type V = SlotModel;

    open spec fn view(&self) -> SlotModel {
        SlotModel {
            inbox: Seq::new(self.inbox@.len(), |i: int| self.inbox@[i]@),
            cap: self.cap as nat,
            dropped: self.dropped,
            gone: self.gone,
            budget_saturated: self.budget_saturated,
        }
    }
}

impl SlotModel {
    /// A broadcast to this worker is dropped.
    pub open spec fn full(self) -> bool {
        !self.gone && self.inbox.len() >= self.cap
    }

    /// A broadcast to this worker arrives.
    pub open spec fn takes(self) -> bool {
        !self.gone && self.inbox.len() < self.cap
    }

    /// The hand-off after a broadcast.
    pub open spec fn offered(self, msg: MsgModel) -> SlotModel {
        if self.gone {
            self
        } else if self.inbox.len() < self.cap {
            SlotModel { inbox: self.inbox.push(msg), ..self }
        } else {
            SlotModel { dropped: vstd::wrapping::u64_specs::wrapping_add(self.dropped, 1), ..self }
        }
    }
}

impl WorkerSlot {
    /// An empty hand-off with the given capacity.
    pub fn new(cap: usize) -> (s: WorkerSlot)
        ensures
            s@.inbox == Seq::<MsgModel>::empty(),
            s@.cap == cap,
            s@.dropped == 0,
            !s@.gone,
            !s@.budget_saturated,
    {
        let s = WorkerSlot {
            inbox: VecDeque::new(),
            cap,
            dropped: 0,
            gone: false,
            budget_saturated: false,
        };
        assert(s@.inbox =~= Seq::<MsgModel>::empty());
        s
    }

    /// Offers a broadcast; says whether the worker should be woken.
    pub fn offer(&mut self, msg: BroadcastMsg) -> (wake: bool)
        ensures
            final(self)@ == old(self)@.offered(msg@),
            wake == old(self)@.takes(),
    {
        let ghost before = self@;
        if self.gone {
            return false;
        }
        if self.inbox.len() < self.cap {
            self.inbox.push_back(msg);
            assert(self@.inbox =~= before.inbox.push(msg@));
            true
        } else {
            self.dropped = self.dropped.wrapping_add(1);
            assert(self@.inbox =~= before.inbox);
            false
        }
    }

    /// Takes the oldest broadcast.
    pub fn take(&mut self) -> (msg: Option<BroadcastMsg>)
        ensures
            match msg {
                Some(m) => {
                    &&& old(self)@.inbox.len() > 0
                    &&& m@ == old(self)@.inbox[0]
                    &&& final(self)@ == (SlotModel {
                        inbox: old(self)@.inbox.drop_first(),
                        ..old(self)@
                    })
                },
                None => old(self)@.inbox.len() == 0 && final(self)@ == old(self)@,
            },
    {
        let ghost before = self@;
        let msg = self.inbox.pop_front();
        proof {
            if msg is Some {
                assert(self@.inbox =~= before.inbox.drop_first());
            } else {
                assert(self@.inbox =~= before.inbox);
            }
        }
        msg
    }
}

/// Routes broadcasts to every worker.
pub struct BroadcastSink {
    pub workers: Vec<WorkerSlot>,
    /// Some inbox was found full and its worker has not drained since.
    pub inbox_full: bool,
}

/// The views of a list of hand-offs.
pub open spec fn slot_views(v: Seq<WorkerSlot>) -> Seq<SlotModel> {
    Seq::new(v.len(), |i: int| v[i]@)
}

/// Every hand-off after one broadcast.
pub open spec fn all_offered(slots: Seq<SlotModel>, msg: MsgModel) -> Seq<SlotModel> {
    Seq::new(slots.len(), |i: int| slots[i].offered(msg))
}

/// The workers that a broadcast reaches, in order.
pub open spec fn reached(slots: Seq<SlotModel>) -> Seq<int>
    decreases slots.len(),
{
    if slots.len() == 0 {
        Seq::empty()
    } else if slots.last().takes() {
        reached(slots.drop_last()).push(slots.len() - 1)
    } else {
        reached(slots.drop_last())
    }
}

fn copy_frames(frames: &Vec<(u8, SharedFrame)>) -> (r: Vec<(u8, SharedFrame)>)
    ensures
        r@ == frames@,
{
    let mut out: Vec<(u8, SharedFrame)> = Vec::new();
    let mut i: usize = 0;
    while i < frames.len()
        invariant
            i <= frames@.len(),
            out@ == frames@.take(i as int),
        decreases frames@.len() - i,
    {
        out.push((frames[i].0, frames[i].1.clone()));
        i = i + 1;
        assert(out@ =~= frames@.take(i as int));
    }
    assert(frames@.take(i as int) =~= frames@);
    out
}

impl BroadcastSink {
    /// A sink over the given workers.
    pub fn new(workers: Vec<WorkerSlot>) -> (s: BroadcastSink)
        ensures
            s.workers@ == workers@,
            !s.inbox_full,
    {
        BroadcastSink { workers, inbox_full: false }
    }

    /// Hands one broadcast to every worker and returns the workers to wake. A
    /// worker whose inbox is full loses this broadcast; that is counted and the
    /// sink is flagged. A worker that is gone is passed over.
    pub fn broadcast(
        &mut self,
        app: Arc<str>,
        channel: Arc<str>,
        frames: Vec<(u8, SharedFrame)>,
        except: Option<SocketId>,
    ) -> (wake: Vec<usize>)
        ensures
            slot_views(final(self).workers@) == all_offered(
                slot_views(old(self).workers@),
                MsgModel { app: app@, channel: channel@, frames: frames@, except },
            ),
            final(self).inbox_full == (old(self).inbox_full || exists|i: int|
                0 <= i < old(self).workers@.len() && (#[trigger] old(
                    self,
                ).workers@[i])@.full()),
            wake@.map_values(|w: usize| w as int) == reached(slot_views(old(self).workers@)),
    {
        let ghost slots = slot_views(self.workers@);
        let ghost msg = MsgModel { app: app@, channel: channel@, frames: frames@, except };
        let ghost goal = all_offered(slots, msg);
        let mut wake: Vec<usize> = Vec::new();
        let mut i: usize = 0;
        let n: usize = self.workers.len();
        let mut todo: Vec<WorkerSlot> = Vec::new();
        std::mem::swap(&mut todo, &mut self.workers);
        let mut done: Vec<WorkerSlot> = Vec::new();
        let ghost all = todo@;
        assert(slots.take(0) =~= Seq::<SlotModel>::empty());
        assert(wake@.map_values(|w: usize| w as int) =~= reached(slots.take(0)));
        while todo.len() > 0
            invariant
                all == old(self).workers@,
                slots == slot_views(all),
                n == all.len(),
                i + todo@.len() == n,
                todo@ == all.skip(i as int),
                done@.len() == i,
                msg == (MsgModel { app: app@, channel: channel@, frames: frames@, except }),
                forall|k: int| 0 <= k < i ==> (#[trigger] done@[k])@ == slots[k].offered(msg),
                self.inbox_full == (old(self).inbox_full || exists|k: int|
                    0 <= k < i && (#[trigger] all[k])@.full()),
                wake@.map_values(|w: usize| w as int) == reached(slots.take(i as int)),
            decreases todo@.len(),
        {
            let mut slot: WorkerSlot = todo.remove(0);
            proof {
                assert(slot == all[i as int]);
                assert(todo@ =~= all.skip(i + 1));
                assert(slots.take(i + 1).drop_last() =~= slots.take(i as int));
                assert(slots.take(i + 1).last() == slots[i as int]);
            }
            let full: bool = !slot.gone && slot.inbox.len() >= slot.cap;
            let reaches: bool = slot.offer(
                BroadcastMsg {
                    app: app.clone(),
                    channel: channel.clone(),
                    frames: copy_frames(&frames),
                    except,
                },
            );
            done.push(slot);
            if full {
                self.inbox_full = true;
            }
            if reaches {
                let ghost had = wake@;
                wake.push(i);
                assert(wake@.map_values(|w: usize| w as int) =~= had.map_values(
                    |w: usize| w as int,
                ).push(i as int));
            }
            i = i + 1;
        }
        self.workers = done;
        assert(slots.take(i as int) =~= slots);
        assert(slot_views(self.workers@) =~= goal);
        wake
    }

    /// Whether the pipeline is saturated: an inbox was found full, or some
    /// worker's byte budget is spent.
    pub fn is_saturated(&self) -> (b: bool)
        ensures
            b == (self.inbox_full || exists|i: int|
                0 <= i < self.workers@.len() && (#[trigger] self.workers@[i]).budget_saturated),
    {
        if self.inbox_full {
            return true;
        }
        let mut i: usize = 0;
        while i < self.workers.len()
            invariant
                i <= self.workers@.len(),
                forall|k: int| 0 <= k < i ==> !(#[trigger] self.workers@[k]).budget_saturated,
            decreases self.workers@.len() - i,
        {
            if self.workers[i].budget_saturated {
                return true;
            }
            i = i + 1;
        }
        false
    }

    /// A worker has drained its inbox: the full-inbox flag is cleared.
    pub fn clear_inbox_full(&mut self)
        ensures
            final(self).workers@ == old(self).workers@,
            !final(self).inbox_full,
    {
        self.inbox_full = false;
    }
}

/// A broadcast never grows an inbox past its capacity, and never reorders or
/// drops what is already in it.
pub proof fn broadcast_is_bounded(s: SlotModel, msg: MsgModel)
    requires
        s.inbox.len() <= s.cap,
    ensures
        s.offered(msg).inbox.len() <= s.cap,
        s.inbox.is_prefix_of(s.offered(msg).inbox),
        s.full() ==> s.offered(msg).inbox == s.inbox,
{
    assert(s.inbox.is_prefix_of(s.offered(msg).inbox)) by {
        assert(s.inbox =~= s.offered(msg).inbox.take(s.inbox.len() as int));
    }
}

/// A text frame reads back as the text: a final unmasked text frame whose payload is
/// the whole text in UTF-8.
pub proof fn text_frames_read_back(text: Seq<char>)
    requires
        encode_utf8(text).len() <= u64::MAX,
    ensures
        ({
            let wire = text_frame(text);
            let head: int = 2 + frame::extra_octets(wire[1] as int);
            &&& wire[0] == 0x81
            &&& wire[1] < 128
            &&& frame::declared_len(wire) == encode_utf8(text).len()
            &&& wire.skip(head) == encode_utf8(text)
        }),
{
    let wire = text_frame(text);
    let payload = encode_utf8(text);
    frame::server_frames_read_back(true, OpCode::Text, payload, Seq::empty());
    assert(wire + Seq::<u8>::empty() =~= wire);
    let head: int = 2 + frame::extra_octets(wire[1] as int);
    assert(wire.skip(head) =~= wire.subrange(head, head + payload.len()));
    frame::opcodes_are_registered(OpCode::Text, (wire[0] % 128) as u8);
}

/// A version's text is the first one listed for it, and a raw event has the same text
/// for every version.
pub proof fn versions_get_their_own_text(event: ServerEvent, version: u8, i: int)
    ensures
        event matches ServerEvent::Raw(t) ==> event.text_for(version) == t@ && event.has_version(
            version,
        ),
        event matches ServerEvent::Encoded(texts) ==> (0 <= i < texts@.len() && texts@[i].0
            == version && (forall|j: int| 0 <= j < i ==> (#[trigger] texts@[j]).0 != version)
            ==> event.text_for(version) == texts@[i].1@ && event.has_version(version)),
{
    if let ServerEvent::Encoded(texts) = event {
        if 0 <= i < texts@.len() && texts@[i].0 == version && (forall|j: int|
            0 <= j < i ==> (#[trigger] texts@[j]).0 != version) {
            lemma_first_text(texts@, version, i);
        }
    }
}

proof fn lemma_first_text(texts: Seq<(u8, String)>, version: u8, i: int)
    requires
        0 <= i < texts.len(),
        texts[i].0 == version,
        forall|j: int| 0 <= j < i ==> (#[trigger] texts[j]).0 != version,
    ensures
        first_text(texts, version) == texts[i].1@,
    decreases i,
{
    if i > 0 {
        let rest = texts.drop_first();
        assert(texts[0].0 != version);
        assert forall|j: int| 0 <= j < i - 1 implies (#[trigger] rest[j]).0 != version by {
            assert(rest[j] == texts[j + 1]);
        }
        lemma_first_text(rest, version, i - 1);
    }
}

/// A broadcast reaches every worker that is there and has room, and no other: its
/// inbox gains the broadcast at the end, and it is woken. A worker whose inbox is full
/// keeps what it has and counts one more lost; one that is gone is left alone.
pub proof fn broadcasts_reach_every_worker_with_room(slots: Seq<SlotModel>, msg: MsgModel, i: int)
    requires
        0 <= i < slots.len(),
    ensures
        ({
            let before = slots[i];
            let after = all_offered(slots, msg)[i];
            &&& all_offered(slots, msg).len() == slots.len()
            &&& reached(slots).contains(i) <==> !before.gone && before.inbox.len() < before.cap
            &&& reached(slots).contains(i) ==> after == (SlotModel {
                inbox: before.inbox.push(msg),
                ..before
            })
            &&& before.gone ==> after == before
            &&& !before.gone && before.inbox.len() >= before.cap ==> after.inbox == before.inbox && (
            before.dropped < u64::MAX ==> after.dropped == before.dropped + 1)
        }),
        forall|a: int, b: int|
            0 <= a < b < reached(slots).len() ==> #[trigger] reached(slots)[a] < #[trigger] reached(
                slots,
            )[b],
{
    lemma_reached(slots);
}

proof fn lemma_reached(slots: Seq<SlotModel>)
    ensures
        forall|a: int, b: int|
            0 <= a < b < reached(slots).len() ==> #[trigger] reached(slots)[a] < #[trigger] reached(
                slots,
            )[b],
        forall|a: int| 0 <= a < reached(slots).len() ==> 0 <= #[trigger] reached(slots)[a]
            < slots.len(),
        forall|i: int|
            0 <= i < slots.len() ==> (reached(slots).contains(i) <==> (#[trigger] slots[i]).takes()),
    decreases slots.len(),
{
    if slots.len() > 0 {
        let rest = slots.drop_last();
        let now = reached(slots);
        let before = reached(rest);
        lemma_reached(rest);
        assert forall|i: int| 0 <= i < slots.len() implies (now.contains(i) <==> (
        #[trigger] slots[i]).takes()) by {
            if i < rest.len() {
                assert(rest[i] == slots[i]);
                if before.contains(i) {
                    let a = choose|a: int| 0 <= a < before.len() && before[a] == i;
                    assert(now[a] == i);
                }
                if now.contains(i) {
                    let a = choose|a: int| 0 <= a < now.len() && now[a] == i;
                    assert(before[a] == i);
                }
            } else if slots.last().takes() {
                assert(now[now.len() - 1] == i);
            } else {
                if before.contains(i) {
                    let a = choose|a: int| 0 <= a < before.len() && before[a] == i;
                    assert(0 <= before[a] < rest.len());
                }
            }
        }
    }
}

/// A worker is found full exactly where a broadcast to it is lost: it is there and its
/// inbox has no room left. Room comes back with every message that it takes.
pub proof fn full_inboxes_lose_the_broadcast(s: SlotModel, msg: MsgModel)
    ensures
        s.full() <==> !s.gone && s.inbox.len() >= s.cap,
        s.takes() <==> !s.gone && s.inbox.len() < s.cap,
        s.full() ==> s.offered(msg).inbox == s.inbox,
        s.takes() ==> s.offered(msg).inbox == s.inbox.push(msg) && s.offered(msg).dropped
            == s.dropped,
        s.full() && s.inbox.len() == s.cap && s.cap > 0 ==> (SlotModel {
            inbox: s.inbox.drop_first(),
            ..s
        }).takes(),
{
}

} // verus!
