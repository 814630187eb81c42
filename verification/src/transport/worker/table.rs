//! The connection table of a worker and the byte totals that go with it.
//!
//! The totals are kept incrementally: after each operation on a connection its
//! change is folded in, and a connection that leaves takes its share with it. The
//! invariant is that the totals are what the connections last reported.
use crate::transport::conn::{CodelParams, ConnModel, ConnState};
use crate::transport::fanout::SharedFrame;
use crate::transport::worker::entry::{Entry, EntryModel};
use crate::transport::worker::shed::{self, ShedBand};
use slab::Slab;
use vstd::prelude::*;

verus! {

/// The slab that holds the connections.
#[verifier::external_type_specification]
#[verifier::external_body]
#[verifier::reject_recursive_types(T)]
pub struct ExSlab<T>(slab::Slab<T>);

/// What a slab of connections holds, by key.
pub uninterp spec fn slab_entries(s: Slab<Entry>) -> Map<usize, Entry>;

/// `Slab::new`: an empty slab.
#[verifier::external_body]
fn slab_new() -> (r: Slab<Entry>)
    ensures
        slab_entries(r).dom() == Set::<usize>::empty(),
{
    Slab::new()
}

/// `Slab::insert`: the value is stored under a key that was free.
#[verifier::external_body]
fn slab_insert(s: &mut Slab<Entry>, e: Entry) -> (key: usize)
    ensures
        !slab_entries(*old(s)).dom().contains(key),
        slab_entries(*final(s)) == slab_entries(*old(s)).insert(key, e),
{
    s.insert(e)
}

/// `Slab::get`: the value under a key.
#[verifier::external_body]
fn slab_get(s: &Slab<Entry>, key: usize) -> (r: Option<&Entry>)
    ensures
        match r {
            Some(e) => slab_entries(*s).dom().contains(key) && *e == slab_entries(*s)[key],
            None => !slab_entries(*s).dom().contains(key),
        },
{
    s.get(key)
}

/// `Slab::get_mut`: the value under a key, for writing; the others stay.
#[verifier::external_body]
fn slab_get_mut(s: &mut Slab<Entry>, key: usize) -> (r: Option<&mut Entry>)
    ensures
        match r {
            Some(e) => {
                &&& slab_entries(*old(s)).dom().contains(key)
                &&& *e == slab_entries(*old(s))[key]
                &&& slab_entries(*final(s)) == slab_entries(*old(s)).insert(key, *final(e))
            },
            None => {
                &&& !slab_entries(*old(s)).dom().contains(key)
                &&& slab_entries(*final(s)) == slab_entries(*old(s))
            },
        },
{
    s.get_mut(key)
}

/// `Slab::try_remove`: takes the value under a key out; the others stay.
#[verifier::external_body]
fn slab_try_remove(s: &mut Slab<Entry>, key: usize) -> (r: Option<Entry>)
    ensures
        match r {
            Some(e) => {
                &&& slab_entries(*old(s)).dom().contains(key)
                &&& e == slab_entries(*old(s))[key]
                &&& slab_entries(*final(s)) == slab_entries(*old(s)).remove(key)
            },
            None => {
                &&& !slab_entries(*old(s)).dom().contains(key)
                &&& slab_entries(*final(s)) == slab_entries(*old(s))
            },
        },
{
    s.try_remove(key)
}

/// `Slab::iter`: every key in use, in increasing order.
#[verifier::external_body]
fn slab_keys(s: &Slab<Entry>) -> (r: Vec<usize>)
    ensures
        forall|k: usize| #[trigger] r@.contains(k) <==> slab_entries(*s).dom().contains(k),
        forall|i: int, j: int| 0 <= i < j < r@.len() ==> r@[i] < r@[j],
{
    s.iter().map(|(k, _)| k).collect()
}

/// The sum of the values of a finite map.
pub open spec fn sum_of(m: Map<usize, nat>) -> nat
    decreases m.dom().len(),
{
    if m.dom().finite() && m.dom().len() > 0 {
        let k = m.dom().choose();
        m[k] + sum_of(m.remove(k))
    } else {
        0
    }
}

pub proof fn lemma_sum_remove(m: Map<usize, nat>, k: usize)
    requires
        m.dom().finite(),
        m.dom().contains(k),
    ensures
        sum_of(m) == m[k] + sum_of(m.remove(k)),
    decreases m.dom().len(),
{
    let c = m.dom().choose();
    if c != k {
        let a = m.remove(c);
        let b = m.remove(k);
        lemma_sum_remove(a, k);
        lemma_sum_remove(b, c);
        assert(a.remove(k) =~= b.remove(c));
        assert(a[k] == m[k]);
        assert(b[c] == m[c]);
    }
}

pub proof fn lemma_sum_insert(m: Map<usize, nat>, k: usize, v: nat)
    requires
        m.dom().finite(),
    ensures
        sum_of(m.insert(k, v)) == v + sum_of(m.remove(k)),
        m.dom().contains(k) ==> sum_of(m.insert(k, v)) == sum_of(m) - m[k] + v,
        !m.dom().contains(k) ==> sum_of(m.insert(k, v)) == sum_of(m) + v,
{
    lemma_sum_remove(m.insert(k, v), k);
    assert(m.insert(k, v).remove(k) =~= m.remove(k));
    if m.dom().contains(k) {
        lemma_sum_remove(m, k);
    } else {
        assert(m.remove(k) =~= m);
    }
}

/// A 64-bit counter that wraps agrees with a total.
pub open spec fn tracks(counter: u64, total: int) -> bool {
    (total - counter) % 0x1_0000_0000_0000_0000 == 0
}

/// A wrapping counter after a change.
pub open spec fn wrapped(counter: u64, change: int) -> u64 {
    ((counter + change) % 0x1_0000_0000_0000_0000) as u64
}

/// Adds a signed change to a wrapping counter.
fn add_change(counter: u64, change: i64) -> (r: u64)
    ensures
        r == wrapped(counter, change as int),
        forall|total: int| tracks(counter, total) ==> #[trigger] tracks(r, total + change),
{
    let r: u64 = counter.wrapping_add_signed(change);
    assert(r == wrapped(counter, change as int)) by {
        let m: int = 0x1_0000_0000_0000_0000;
        assert(r == counter + change || r == counter + change - m || r == counter + change + m);
        assert((counter + change) % m == r as int);
    }
    assert forall|total: int| tracks(counter, total) implies #[trigger] tracks(
        r,
        total + change,
    ) by {
        let m: int = 0x1_0000_0000_0000_0000;
        assert(r == counter + change || r == counter + change - m || r == counter + change + m);
        assert((total - counter) % m == 0);
        assert((total - counter + m) % m == 0);
        assert((total - counter - m) % m == 0);
    }
    r
}

/// Takes an amount off a wrapping counter.
fn take_off(counter: u64, amount: u64) -> (r: u64)
    ensures
        forall|total: int| tracks(counter, total) ==> #[trigger] tracks(r, total - amount),
{
    let r: u64 = counter.wrapping_sub(amount);
    assert forall|total: int| tracks(counter, total) implies #[trigger] tracks(
        r,
        total - amount,
    ) by {
        let m: int = 0x1_0000_0000_0000_0000;
        assert(r == counter - amount || r == counter - amount + m);
        assert((total - counter - m) % m == 0);
    }
    r
}

/// The views of the connections of a table.
pub open spec fn entry_views(m: Map<usize, Entry>) -> Map<usize, EntryModel> {
    m.map_values(|e: Entry| e@)
}

/// What each connection last reported as accounted.
pub open spec fn billed(m: Map<usize, EntryModel>) -> Map<usize, nat> {
    m.map_values(|e: EntryModel| e.conn.reported)
}

/// What each connection last reported as outbound.
pub open spec fn billed_out(m: Map<usize, EntryModel>) -> Map<usize, nat> {
    m.map_values(|e: EntryModel| e.conn.reported_out)
}

/// What each connection holds.
pub open spec fn held(m: Map<usize, EntryModel>) -> Map<usize, nat> {
    m.map_values(|e: EntryModel| e.conn.accounted())
}

/// What each connection owes its peer.
pub open spec fn owed(m: Map<usize, EntryModel>) -> Map<usize, nat> {
    m.map_values(|e: EntryModel| e.conn.outbound())
}

proof fn lemma_put(m: Map<usize, EntryModel>, k: usize, e: EntryModel)
    requires
        m.dom().finite(),
    ensures
        m.dom().contains(k) ==> sum_of(billed(m.insert(k, e))) == sum_of(billed(m))
            - m[k].conn.reported + e.conn.reported,
        m.dom().contains(k) ==> sum_of(billed_out(m.insert(k, e))) == sum_of(billed_out(m))
            - m[k].conn.reported_out + e.conn.reported_out,
        !m.dom().contains(k) ==> sum_of(billed(m.insert(k, e))) == sum_of(billed(m))
            + e.conn.reported,
        !m.dom().contains(k) ==> sum_of(billed_out(m.insert(k, e))) == sum_of(billed_out(m))
            + e.conn.reported_out,
{
    assert(billed(m).dom() =~= m.dom());
    assert(billed_out(m).dom() =~= m.dom());
    assert(billed(m.insert(k, e)) =~= billed(m).insert(k, e.conn.reported));
    assert(billed_out(m.insert(k, e)) =~= billed_out(m).insert(k, e.conn.reported_out));
    lemma_sum_insert(billed(m), k, e.conn.reported);
    lemma_sum_insert(billed_out(m), k, e.conn.reported_out);
}

proof fn lemma_drop(m: Map<usize, EntryModel>, k: usize)
    requires
        m.dom().finite(),
        m.dom().contains(k),
    ensures
        sum_of(billed(m.remove(k))) == sum_of(billed(m)) - m[k].conn.reported,
        sum_of(billed_out(m.remove(k))) == sum_of(billed_out(m)) - m[k].conn.reported_out,
{
    assert(billed(m).dom() =~= m.dom());
    assert(billed_out(m).dom() =~= m.dom());
    assert(billed(m.remove(k)) =~= billed(m).remove(k));
    assert(billed_out(m.remove(k)) =~= billed_out(m).remove(k));
    lemma_sum_remove(billed(m), k);
    lemma_sum_remove(billed_out(m), k);
}

/// A worker's table as contracts see it.
pub struct TableModel {
    pub conns: Map<usize, EntryModel>,
    pub inflight: u64,
    pub outbound: u64,
    pub codel_total: u64,
    pub drophead_total: u64,
}

impl TableModel {
    /// The totals are what the connections last reported.
    pub open spec fn valid(self) -> bool {
        &&& self.conns.dom().finite()
        &&& forall|k: usize| #[trigger] self.conns.dom().contains(k) ==> self.conns[k].valid()
        &&& tracks(self.inflight, sum_of(billed(self.conns)) as int)
        &&& tracks(self.outbound, sum_of(billed_out(self.conns)) as int)
    }

    /// Every connection has reported what it holds.
    pub open spec fn settled(self) -> bool {
        forall|k: usize| #[trigger]
            self.conns.dom().contains(k) ==> self.conns[k].conn.reported
                == self.conns[k].conn.accounted() && self.conns[k].conn.reported_out
                == self.conns[k].conn.outbound()
    }
}

/// A connection that owes its peer something has writable interest.
pub open spec fn interested(e: EntryModel) -> bool {
    e.conn.owes() ==> e.conn.writable_armed
}

impl TableModel {
    /// Every connection that owes its peer something has writable interest, so that the
    /// poll wakes for it.
    pub open spec fn interest_held(self) -> bool {
        self.interest_held_but(Set::empty())
    }

    /// The same, but for the connections under the keys of `lost`.
    pub open spec fn interest_held_but(self, lost: Set<usize>) -> bool {
        forall|k: usize| #[trigger]
            self.conns.dom().contains(k) && !lost.contains(k) ==> interested(self.conns[k])
    }

    /// Nothing but the connection under `key` differs.
    pub open spec fn same_but(self, key: usize, other: TableModel) -> bool {
        forall|k: usize|
            k != key ==> (#[trigger] self.conns.dom().contains(k) <==> other.conns.dom().contains(
                k,
            )) && self.conns[k] == other.conns[k]
    }
}

impl TableModel {
    /// A frame for the connection under `token` is queued in the given band: the
    /// connection is open, not backed up, and can hold it.
    pub open spec fn takes(self, token: usize, frame: SharedFrame, band: ShedBand) -> bool {
        &&& self.conns.dom().contains(token)
        &&& self.conns[token].open()
        &&& !shed::skips(
            band,
            self.conns[token].conn.out_bytes() as int,
            self.conns[token].conn.high_water as int,
        )
        &&& self.conns[token].conn.room(frame@.len(), 1)
    }

    /// The table after a frame was offered to a connection and its change and its
    /// evictions were folded in.
    pub open spec fn offered(
        self,
        token: usize,
        frame: SharedFrame,
        band: ShedBand,
        now: u64,
    ) -> TableModel {
        if self.takes(token, frame, band) {
            let e = self.conns[token];
            let c = e.conn.enqueued((frame, now));
            TableModel {
                conns: self.conns.insert(
                    token,
                    EntryModel {
                        conn: ConnModel {
                            reported: c.accounted(),
                            reported_out: c.outbound(),
                            drophead_dropped: 0,
                            ..c
                        },
                        ..e
                    },
                ),
                inflight: wrapped(self.inflight, c.accounted() - e.conn.reported),
                outbound: wrapped(self.outbound, c.outbound() - e.conn.reported_out),
                drophead_total: vstd::wrapping::u64_specs::wrapping_add(
                    self.drophead_total,
                    c.drophead_dropped as u64,
                ),
                ..self
            }
        } else {
            self
        }
    }
}

/// Two states of a connection with the same last reports.
pub open spec fn same_reports(a: ConnModel, b: ConnModel) -> bool {
    a.reported == b.reported && a.reported_out == b.reported_out
}

/// The table of a worker's connections.
pub struct Table {
    conns: Slab<Entry>,
    inflight_bytes: u64,
    outbound_bytes: u64,
    codel_total: u64,
    drophead_total: u64,
}

impl View for Table {
    type V = TableModel;

    closed spec fn view(&self) -> TableModel {
        TableModel {
            conns: entry_views(slab_entries(self.conns)),
            inflight: self.inflight_bytes,
            outbound: self.outbound_bytes,
            codel_total: self.codel_total,
            drophead_total: self.drophead_total,
        }
    }
}

impl Table {
    pub closed spec fn wf(&self) -> bool {
        &&& self@.valid()
        &&& forall|k: usize| #[trigger]
            slab_entries(self.conns).dom().contains(k) ==> slab_entries(self.conns)[k].wf()
    }

    /// An empty table.
    pub fn new() -> (t: Table)
        ensures
            t.wf(),
            t@.valid(),
            t@.settled(),
            t@.conns == Map::<usize, EntryModel>::empty(),
            t@.inflight == 0,
            t@.outbound == 0,
            t@.codel_total == 0,
            t@.drophead_total == 0,
    {
        let t = Table {
            conns: slab_new(),
            inflight_bytes: 0,
            outbound_bytes: 0,
            codel_total: 0,
            drophead_total: 0,
        };
        proof {
            assert(t@.conns =~= Map::<usize, EntryModel>::empty());
            assert(billed(t@.conns) =~= Map::<usize, nat>::empty());
            assert(billed_out(t@.conns) =~= Map::<usize, nat>::empty());
        }
        t
    }

    /// Bytes held by all connections, as last reported.
    pub fn inflight_bytes(&self) -> (n: u64)
        ensures
            n == self@.inflight,
    {
        self.inflight_bytes
    }

    /// Bytes owed to all peers, as last reported.
    pub fn outbound_bytes(&self) -> (n: u64)
        ensures
            n == self@.outbound,
    {
        self.outbound_bytes
    }

    /// Frames dropped for staleness so far.
    pub fn codel_total(&self) -> (n: u64)
        ensures
            n == self@.codel_total,
    {
        self.codel_total
    }

    /// Frames evicted by drop-head so far.
    pub fn drophead_total(&self) -> (n: u64)
        ensures
            n == self@.drophead_total,
    {
        self.drophead_total
    }

    /// The keys of all connections, in increasing order.
    pub fn keys(&self) -> (r: Vec<usize>)
        ensures
            forall|k: usize| #[trigger] r@.contains(k) <==> self@.conns.dom().contains(k),
            forall|i: int, j: int| 0 <= i < j < r@.len() ==> r@[i] < r@[j],
    {
        slab_keys(&self.conns)
    }

    /// Whether every connection that owes its peer something has writable interest.
    pub fn interest_held(&self) -> (b: bool)
        requires
            self.wf(),
        ensures
            b == self@.interest_held(),
    {
        let keys: Vec<usize> = self.keys();
        let mut i: usize = 0;
        while i < keys.len()
            invariant
                self.wf(),
                i <= keys@.len(),
                forall|k: usize| #[trigger]
                    keys@.contains(k) <==> self@.conns.dom().contains(k),
                forall|j: int| 0 <= j < i ==> interested(self@.conns[#[trigger] keys@[j]]),
            decreases keys@.len() - i,
        {
            assert(keys@.contains(keys@[i as int]));
            match self.get(keys[i]) {
                Some(e) => {
                    if e.conn.owes() && !e.conn.writable_armed() {
                        return false;
                    }
                },
                None => {},
            }
            i = i + 1;
        }
        proof {
            assert forall|k: usize| #[trigger] self@.conns.dom().contains(k) implies interested(
                self@.conns[k],
            ) by {
                assert(keys@.contains(k));
                let j = choose|j: int| 0 <= j < keys@.len() && keys@[j] == k;
                assert(interested(self@.conns[keys@[j]]));
            }
        }
        true
    }

    /// The connection under a key.
    pub fn get(&self, key: usize) -> (r: Option<&Entry>)
        requires
            self.wf(),
        ensures
            match r {
                Some(e) => self@.conns.dom().contains(key) && e@ == self@.conns[key] && e.wf(),
                None => !self@.conns.dom().contains(key),
            },
    {
        slab_get(&self.conns, key)
    }

    /// Adds a connection that has just been accepted.
    pub fn accept(&mut self, high_water: usize, codel: CodelParams) -> (key: usize)
        requires
            old(self).wf(),
        ensures
            final(self).wf(),
            final(self)@.valid(),
            !old(self)@.conns.dom().contains(key),
            final(self)@ == (TableModel {
                conns: old(self)@.conns.insert(key, EntryModel::fresh(high_water as nat, codel)),
                ..old(self)@
            }),
            final(self)@.conns[key].conn.accounted() == 0,
            old(self)@.settled() ==> final(self)@.settled(),
    {
        let ghost m0 = self@.conns;
        let e = Entry::new(high_water, codel);
        let ghost ev = e@;
        let key: usize = slab_insert(&mut self.conns, e);
        proof {
            assert(self@.conns =~= m0.insert(key, ev));
            lemma_put(m0, key, ev);
            assert(ev.conn.outbound() <= ev.conn.accounted());
        }
        key
    }

    /// The connection under a key, for changes that leave what it last reported
    /// alone.
    pub fn entry(&mut self, key: usize) -> (r: Option<&mut Entry>)
        requires
            old(self).wf(),
        ensures
            match r {
                Some(e) => {
                    &&& old(self)@.conns.dom().contains(key)
                    &&& e@ == old(self)@.conns[key]
                    &&& e.wf()
                    &&& final(self)@ == (TableModel {
                        conns: old(self)@.conns.insert(key, final(e)@),
                        ..old(self)@
                    })
                    &&& final(e).wf() && same_reports(e@.conn, final(e)@.conn) ==> final(self).wf()
                        && final(self)@.valid()
                },
                None => {
                    &&& !old(self)@.conns.dom().contains(key)
                    &&& final(self)@ == old(self)@
                    &&& final(self).wf()
                    &&& final(self)@.valid()
                },
            },
    {
        let ghost m0 = self@.conns;
        let ghost s0 = slab_entries(self.conns);
        match slab_get_mut(&mut self.conns, key) {
            Some(e) => {
                proof {
                    let fv = final(e)@;
                    let m1 = m0.insert(key, fv);
                    assert(entry_views(s0.insert(key, *final(e))) =~= m1);
                    lemma_put(m0, key, fv);
                }
                Some(e)
            },
            None => None,
        }
    }

    /// Folds the connection's change since its last report into the totals.
    pub fn fold_delta(&mut self, key: usize)
        requires
            old(self).wf(),
        ensures
            final(self).wf(),
            final(self)@.valid(),
            final(self)@.codel_total == old(self)@.codel_total,
            final(self)@.drophead_total == old(self)@.drophead_total,
            !old(self)@.conns.dom().contains(key) ==> final(self)@ == old(self)@,
            old(self)@.conns.dom().contains(key) ==> final(self)@.conns == old(
                self,
            )@.conns.insert(key, reported(old(self)@.conns[key])),
    {
        let ghost t0 = self@;
        let mut delta: i64 = 0;
        let mut out_delta: i64 = 0;
        if let Some(e) = slab_get_mut(&mut self.conns, key) {
            delta = e.conn.take_inflight_delta();
            out_delta = e.conn.take_outbound_delta();
        } else {
            return;
        }
        self.inflight_bytes = add_change(self.inflight_bytes, delta);
        self.outbound_bytes = add_change(self.outbound_bytes, out_delta);
        proof {
            let m0 = t0.conns;
            let e1 = reported(m0[key]);
            assert(m0[key].valid());
            assert(e1.valid());
            assert(self@.conns =~= m0.insert(key, e1));
            lemma_put(m0, key, e1);
            assert(tracks(self.inflight_bytes, sum_of(billed(m0)) + delta));
            assert(tracks(self.outbound_bytes, sum_of(billed_out(m0)) + out_delta));
        }
    }

    /// Offers a broadcast frame to a connection and folds what follows from it;
    /// says whether the frame was queued.
    pub fn offer_frame(
        &mut self,
        token: usize,
        frame: SharedFrame,
        band: ShedBand,
        now_ns: u64,
    ) -> (queued: bool)
        requires
            old(self).wf(),
        ensures
            final(self).wf(),
            final(self)@.valid(),
            queued == old(self)@.takes(token, frame, band),
            final(self)@ == old(self)@.offered(token, frame, band, now_ns),
    {
        let ghost t0 = self@;
        let mut delta: i64 = 0;
        let mut out_delta: i64 = 0;
        let mut evicted: u64 = 0;
        if let Some(e) = slab_get_mut(&mut self.conns, token) {
            proof {
                e.conn.wf_is_valid();
            }
            if e.session.is_none() || e.conn.state() != ConnState::Open || shed::should_skip(
                band,
                e.conn.out_bytes(),
                e.conn.high_water(),
            ) || !e.conn.has_room(frame.len(), 1) {
                assert(entry_views(slab_entries(self.conns)) =~= t0.conns);
                return false;
            }
            let _dropped: usize = e.conn.queue(frame, now_ns);
            delta = e.conn.take_inflight_delta();
            out_delta = e.conn.take_outbound_delta();
            evicted = e.conn.take_drophead_dropped();
        } else {
            return false;
        }
        self.inflight_bytes = add_change(self.inflight_bytes, delta);
        self.outbound_bytes = add_change(self.outbound_bytes, out_delta);
        self.drophead_total = self.drophead_total.wrapping_add(evicted);
        proof {
            let m0 = t0.conns;
            let t1 = t0.offered(token, frame, band, now_ns);
            let e1 = t1.conns[token];
            let c = m0[token].conn.enqueued((frame, now_ns));
            assert(m0[token].valid());
            assert(e1.conn.pending() == c.pending());
            assert(self@.conns =~= m0.insert(token, e1));
            lemma_put(m0, token, e1);
            assert(tracks(self.inflight_bytes, sum_of(billed(m0)) + delta));
            assert(tracks(self.outbound_bytes, sum_of(billed_out(m0)) + out_delta));
        }
        true
    }

    /// Folds the connection's staleness drops into the total.
    pub fn fold_codel(&mut self, key: usize)
        requires
            old(self).wf(),
        ensures
            final(self).wf(),
            final(self)@.valid(),
            !old(self)@.conns.dom().contains(key) ==> final(self)@ == old(self)@,
            old(self)@.conns.dom().contains(key) ==> final(self)@ == (TableModel {
                conns: old(self)@.conns.insert(
                    key,
                    EntryModel {
                        conn: ConnModel { codel_dropped: 0, ..old(self)@.conns[key].conn },
                        ..old(self)@.conns[key]
                    },
                ),
                codel_total: vstd::wrapping::u64_specs::wrapping_add(
                    old(self)@.codel_total,
                    old(self)@.conns[key].conn.codel_dropped as u64,
                ),
                ..old(self)@
            }),
    {
        let ghost t0 = self@;
        let mut dropped: u64 = 0;
        if let Some(e) = slab_get_mut(&mut self.conns, key) {
            dropped = e.conn.take_codel_dropped();
        } else {
            return;
        }
        self.codel_total = self.codel_total.wrapping_add(dropped);
        proof {
            let m0 = t0.conns;
            let e1 = EntryModel { conn: ConnModel { codel_dropped: 0, ..m0[key].conn }, ..m0[key] };
            assert(m0[key].valid());
            assert(e1.conn.pending() == m0[key].conn.pending());
            assert(e1.valid());
            assert(self@.conns =~= m0.insert(key, e1));
            lemma_put(m0, key, e1);
        }
    }

    /// Folds the connection's evictions into the total.
    pub fn fold_drophead(&mut self, key: usize)
        requires
            old(self).wf(),
        ensures
            final(self).wf(),
            final(self)@.valid(),
            !old(self)@.conns.dom().contains(key) ==> final(self)@ == old(self)@,
            old(self)@.conns.dom().contains(key) ==> final(self)@ == (TableModel {
                conns: old(self)@.conns.insert(
                    key,
                    EntryModel {
                        conn: ConnModel { drophead_dropped: 0, ..old(self)@.conns[key].conn },
                        ..old(self)@.conns[key]
                    },
                ),
                drophead_total: vstd::wrapping::u64_specs::wrapping_add(
                    old(self)@.drophead_total,
                    old(self)@.conns[key].conn.drophead_dropped as u64,
                ),
                ..old(self)@
            }),
    {
        let ghost t0 = self@;
        let mut dropped: u64 = 0;
        if let Some(e) = slab_get_mut(&mut self.conns, key) {
            dropped = e.conn.take_drophead_dropped();
        } else {
            return;
        }
        self.drophead_total = self.drophead_total.wrapping_add(dropped);
        proof {
            let m0 = t0.conns;
            let e1 = EntryModel {
                conn: ConnModel { drophead_dropped: 0, ..m0[key].conn },
                ..m0[key]
            };
            assert(m0[key].valid());
            assert(e1.conn.pending() == m0[key].conn.pending());
            assert(e1.valid());
            assert(self@.conns =~= m0.insert(key, e1));
            lemma_put(m0, key, e1);
        }
    }

    /// Takes a connection out; its share of the totals leaves with it.
    pub fn take_out(&mut self, key: usize) -> (r: Option<Entry>)
        requires
            old(self).wf(),
        ensures
            final(self).wf(),
            final(self)@.valid(),
            final(self)@.codel_total == old(self)@.codel_total,
            final(self)@.drophead_total == old(self)@.drophead_total,
            match r {
                Some(e) => {
                    &&& old(self)@.conns.dom().contains(key)
                    &&& e.wf()
                    &&& e@ == reported(old(self)@.conns[key])
                    &&& final(self)@.conns == old(self)@.conns.remove(key)
                },
                None => {
                    &&& !old(self)@.conns.dom().contains(key)
                    &&& final(self)@ == old(self)@
                },
            },
            old(self)@.settled() ==> final(self)@.settled(),
    {
        let ghost t0 = self@;
        match slab_try_remove(&mut self.conns, key) {
            None => None,
            Some(e) => {
                let mut e: Entry = e;
                let delta: i64 = e.conn.take_inflight_delta();
                let out_delta: i64 = e.conn.take_outbound_delta();
                let ghost held_now = e.conn@.accounted();
                self.inflight_bytes = take_off(
                    add_change(self.inflight_bytes, delta),
                    e.conn.accounted_bytes() as u64,
                );
                self.outbound_bytes = take_off(
                    add_change(self.outbound_bytes, out_delta),
                    e.conn.outbound_bytes() as u64,
                );
                proof {
                    let m0 = t0.conns;
                    assert(m0[key].valid());
                    assert(self@.conns =~= m0.remove(key));
                    lemma_drop(m0, key);
                    let b = sum_of(billed(m0)) as int;
                    let o = sum_of(billed_out(m0)) as int;
                    assert(tracks(t0.inflight, b));
                    assert(tracks(t0.outbound, o));
                    assert(tracks(self.inflight_bytes, b + delta - held_now));
                    assert(tracks(self.outbound_bytes, o + out_delta - e.conn@.outbound()));
                }
                Some(e)
            },
        }
    }
}

/// A connection that has just reported what it holds.
pub open spec fn reported(e: EntryModel) -> EntryModel {
    EntryModel {
        conn: ConnModel {
            reported: e.conn.accounted(),
            reported_out: e.conn.outbound(),
            ..e.conn
        },
        ..e
    }
}

/// With every change folded in, the running total is the true sum of what the
/// connections hold, and the outbound total that of what they owe.
pub proof fn settled_totals_are_exact(t: TableModel)
    requires
        t.valid(),
        t.settled(),
    ensures
        tracks(t.inflight, sum_of(held(t.conns)) as int),
        tracks(t.outbound, sum_of(owed(t.conns)) as int),
        sum_of(held(t.conns)) <= u64::MAX ==> t.inflight == sum_of(held(t.conns)),
        sum_of(owed(t.conns)) <= u64::MAX ==> t.outbound == sum_of(owed(t.conns)),
{
    assert(held(t.conns) =~= billed(t.conns));
    assert(owed(t.conns) =~= billed_out(t.conns));
}

/// Folding one connection settles it; when it was the only one outstanding, the
/// whole table is settled.
pub proof fn folding_settles(t: TableModel, after: TableModel, key: usize)
    requires
        t.valid(),
        t.conns.dom().contains(key),
        forall|k: usize| #[trigger]
            t.conns.dom().contains(k) && k != key ==> t.conns[k].conn.reported
                == t.conns[k].conn.accounted() && t.conns[k].conn.reported_out
                == t.conns[k].conn.outbound(),
        after.conns == t.conns.insert(key, reported(t.conns[key])),
    ensures
        after.settled(),
{
    assert forall|k: usize| #[trigger] after.conns.dom().contains(k) implies after.conns[k].conn.reported
        == after.conns[k].conn.accounted() && after.conns[k].conn.reported_out
        == after.conns[k].conn.outbound() by {
        if k != key {
            assert(t.conns.dom().contains(k));
        } else {
            let c = after.conns[key].conn;
            assert(c.pending() == t.conns[key].conn.pending());
        }
    }
}

/// What is done on one connection can take interest from no other.
pub proof fn other_connections_keep_their_interest(
    t: TableModel,
    after: TableModel,
    key: usize,
    lost: Set<usize>,
)
    requires
        t.interest_held_but(lost),
        t.same_but(key, after),
    ensures
        after.interest_held_but(lost.insert(key)),
{
    assert forall|k: usize| #[trigger]
        after.conns.dom().contains(k) && !lost.insert(key).contains(k) implies interested(
        after.conns[k],
    ) by {
        assert(t.conns.dom().contains(k));
    }
}

/// A connection that has just been accepted owes nothing, so accepting keeps every
/// interest.
pub proof fn accepting_keeps_interest(
    t: TableModel,
    after: TableModel,
    key: usize,
    high_water: nat,
    codel: CodelParams,
)
    requires
        t.interest_held(),
        after.conns == t.conns.insert(key, EntryModel::fresh(high_water, codel)),
    ensures
        after.interest_held(),
{
    assert forall|k: usize| #[trigger] after.conns.dom().contains(k) implies interested(
        after.conns[k],
    ) by {
        if k != key {
            assert(t.conns.dom().contains(k));
        }
    }
}

/// An empty settled table has nothing in flight.
pub proof fn empty_table_holds_nothing(t: TableModel)
    requires
        t.valid(),
        t.conns.dom().len() == 0,
    ensures
        t.inflight == 0,
        t.outbound == 0,
{
    assert(billed(t.conns).dom() =~= t.conns.dom());
    assert(billed_out(t.conns).dom() =~= t.conns.dom());
}

/// A counter that follows a total goes on following it through every change, up or
/// down, even where the counter wraps around; one that fits is the total itself.
pub proof fn counters_follow_their_totals(counter: u64, total: int, change: int)
    requires
        tracks(counter, total),
    ensures
        tracks(wrapped(counter, change), total + change),
        0 <= total + change <= u64::MAX ==> wrapped(counter, change) == total + change,
{
    let m: int = 0x1_0000_0000_0000_0000;
    let sum = counter + change;
    assert(0 <= sum % m < m);
    assert((total + change - sum % m) % m == 0) by (nonlinear_arith)
        requires
            (total - counter) % m == 0,
            sum == counter + change,
            m == 0x1_0000_0000_0000_0000,
    ;
    if 0 <= total + change <= u64::MAX {
        let d = total + change - sum % m;
        assert(d % m == 0 && -m < d < m);
    }
}

} // verus!
