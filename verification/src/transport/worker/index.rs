//! The worker-local index of who is subscribed to what.
//!
//! Subscribers are kept by channel, and the channels in the order of their names, so
//! that a broadcast finds its channel by bisection and then visits its subscribers
//! alone.
use crate::transport::fanout::SocketId;
use crate::transport::worker::entry::Session;
use crate::transport::worker::mail::names;
use crate::text;
use vstd::prelude::*;
use vstd::utf8::{decode_utf8, encode_utf8};

verus! {

/// What a subscription is found by.
pub struct SubKey {
    pub app: Seq<char>,
    pub channel: Seq<char>,
    pub sid: SocketId,
}

/// A subscriber of a channel: its session, its connection and its protocol version.
pub type Seat = (SocketId, usize, u8);

/// Where a session sits among the subscribers of a channel, or their number where it
/// does not.
pub open spec fn seat_of(seats: Seq<Seat>, sid: SocketId) -> int
    decreases seats.len(),
{
    if seats.len() == 0 || seats[0].0 == sid {
        0
    } else {
        1 + seat_of(seats.drop_first(), sid)
    }
}

/// The connection and version of a session among the subscribers of a channel.
pub open spec fn seated(seats: Seq<Seat>, sid: SocketId) -> Option<(usize, u8)> {
    let i = seat_of(seats, sid);
    if i < seats.len() {
        Some((seats[i].1, seats[i].2))
    } else {
        None
    }
}

/// The subscribers with one more, in its old place where the session is known.
pub open spec fn seats_with(seats: Seq<Seat>, seat: Seat) -> Seq<Seat> {
    let i = seat_of(seats, seat.0);
    if i < seats.len() {
        seats.update(i, seat)
    } else {
        seats.push(seat)
    }
}

/// The subscribers without a session.
pub open spec fn seats_without(seats: Seq<Seat>, sid: SocketId) -> Seq<Seat> {
    let i = seat_of(seats, sid);
    if i < seats.len() {
        seats.remove(i)
    } else {
        seats
    }
}

/// No session is listed twice.
pub open spec fn one_seat_each(seats: Seq<Seat>) -> bool {
    forall|i: int, j: int|
        0 <= i < j < seats.len() ==> (#[trigger] seats[i]).0 != (#[trigger] seats[j]).0
}

proof fn lemma_seat_of(seats: Seq<Seat>, sid: SocketId)
    ensures
        0 <= seat_of(seats, sid) <= seats.len(),
        seat_of(seats, sid) < seats.len() ==> seats[seat_of(seats, sid)].0 == sid,
        forall|j: int| 0 <= j < seat_of(seats, sid) ==> (#[trigger] seats[j]).0 != sid,
    decreases seats.len(),
{
    if seats.len() > 0 && seats[0].0 != sid {
        let rest = seats.drop_first();
        lemma_seat_of(rest, sid);
        assert forall|j: int| 0 <= j < seat_of(seats, sid) implies (
        #[trigger] seats[j]).0 != sid by {
            if j > 0 {
                assert(rest[j - 1] == seats[j]);
            }
        }
        if seat_of(seats, sid) < seats.len() {
            assert(rest[seat_of(rest, sid)] == seats[seat_of(seats, sid)]);
        }
    }
}

/// The first place that a session sits at is where it sits.
proof fn lemma_seat_at(seats: Seq<Seat>, sid: SocketId, i: int)
    requires
        0 <= i <= seats.len(),
        i < seats.len() ==> seats[i].0 == sid,
        forall|j: int| 0 <= j < i ==> (#[trigger] seats[j]).0 != sid,
    ensures
        seat_of(seats, sid) == i,
{
    lemma_seat_of(seats, sid);
    let k = seat_of(seats, sid);
    if k < i {
        assert(seats[k].0 == sid);
    } else if i < k {
        assert(seats[i].0 != sid);
    }
}

proof fn lemma_seats_with(seats: Seq<Seat>, seat: Seat, sid: SocketId)
    requires
        one_seat_each(seats),
    ensures
        one_seat_each(seats_with(seats, seat)),
        seated(seats_with(seats, seat), sid) == (if sid == seat.0 {
            Some((seat.1, seat.2))
        } else {
            seated(seats, sid)
        }),
{
    let u = seats_with(seats, seat);
    let i = seat_of(seats, seat.0);
    let k = seat_of(seats, sid);
    lemma_seat_of(seats, seat.0);
    lemma_seat_of(seats, sid);
    assert forall|a: int, b: int| 0 <= a < b < u.len() implies (#[trigger] u[a]).0 != (
    #[trigger] u[b]).0 by {
        if b < seats.len() {
            assert(seats[a].0 != seats[b].0);
        } else {
            assert(seats[a].0 != seat.0);
        }
    }
    if sid == seat.0 {
        assert forall|j: int| 0 <= j < i implies (#[trigger] u[j]).0 != sid by {
            assert(seats[j].0 != sid);
        }
        lemma_seat_at(u, sid, i);
    } else {
        let at = if k < seats.len() {
            k
        } else {
            u.len() as int
        };
        assert forall|j: int| 0 <= j < at implies (#[trigger] u[j]).0 != sid by {
            if j < seats.len() {
                assert(seats[j].0 != sid);
            }
        }
        lemma_seat_at(u, sid, at);
    }
}

proof fn lemma_seats_without(seats: Seq<Seat>, gone: SocketId, sid: SocketId)
    requires
        one_seat_each(seats),
    ensures
        one_seat_each(seats_without(seats, gone)),
        seated(seats_without(seats, gone), sid) == (if sid == gone {
            None
        } else {
            seated(seats, sid)
        }),
{
    let u = seats_without(seats, gone);
    let i = seat_of(seats, gone);
    let k = seat_of(seats, sid);
    lemma_seat_of(seats, gone);
    lemma_seat_of(seats, sid);
    if i < seats.len() {
        assert forall|a: int| 0 <= a < u.len() implies #[trigger] u[a] == seats[if a < i {
            a
        } else {
            a + 1
        }] by {}
        assert forall|a: int, b: int| 0 <= a < b < u.len() implies (#[trigger] u[a]).0 != (
        #[trigger] u[b]).0 by {
            assert(seats[if a < i { a } else { a + 1 }].0 != seats[if b < i { b } else { b + 1 }].0);
        }
        let at = if sid == gone || k == seats.len() {
            u.len() as int
        } else if k < i {
            k
        } else {
            k - 1
        };
        assert forall|j: int| 0 <= j < at implies (#[trigger] u[j]).0 != sid by {
            let j0 = if j < i {
                j
            } else {
                j + 1
            };
            if sid == gone {
                if j0 < i {
                    assert(seats[j0].0 != seats[i].0);
                } else {
                    assert(seats[i].0 != seats[j0].0);
                }
            } else {
                assert(seats[j0].0 != sid);
            }
        }
        lemma_seat_at(u, sid, at);
    }
}

/// One text comes before another in byte order: byte by byte, a prefix first.
pub open spec fn bytes_before(a: Seq<u8>, b: Seq<u8>) -> bool
    decreases a.len(),
{
    if b.len() == 0 {
        false
    } else if a.len() == 0 {
        true
    } else if a[0] != b[0] {
        a[0] < b[0]
    } else {
        bytes_before(a.drop_first(), b.drop_first())
    }
}

proof fn lemma_bytes_before(a: Seq<u8>, b: Seq<u8>, c: Seq<u8>)
    ensures
        !bytes_before(a, a),
        a != b ==> bytes_before(a, b) || bytes_before(b, a),
        bytes_before(a, b) && bytes_before(b, c) ==> bytes_before(a, c),
        !(bytes_before(a, b) && bytes_before(b, a)),
    decreases a.len() + b.len() + c.len(),
{
    if a.len() > 0 && b.len() > 0 && c.len() > 0 {
        lemma_bytes_before(a.drop_first(), b.drop_first(), c.drop_first());
    } else if a.len() > 0 && b.len() > 0 {
        lemma_bytes_before(a.drop_first(), b.drop_first(), c);
    } else if a.len() > 0 {
        lemma_bytes_before(a.drop_first(), b, c);
    }
    if a.len() > 0 && b.len() > 0 {
        if a[0] == b[0] && a.drop_first() == b.drop_first() {
            assert(a =~= seq![a[0]] + a.drop_first());
            assert(b =~= seq![b[0]] + b.drop_first());
        }
    } else if a.len() == 0 && b.len() == 0 {
        assert(a =~= b);
    }
}

/// How two texts are ordered.
#[derive(Debug, Clone, Copy, PartialEq, Eq, Structural)]
enum Side {
    Before,
    Same,
    After,
}

/// The side that one byte string is on of another.
spec fn side_of(a: Seq<u8>, b: Seq<u8>) -> Side {
    if a == b {
        Side::Same
    } else if bytes_before(a, b) {
        Side::Before
    } else {
        Side::After
    }
}

fn side(a: &[u8], b: &[u8]) -> (r: Side)
    ensures
        r == side_of(a@, b@),
{
    let mut i: usize = 0;
    assert(a@.skip(0) =~= a@);
    assert(b@.skip(0) =~= b@);
    while i < a.len() && i < b.len() && a[i] == b[i]
        invariant
            i <= a.len(),
            i <= b.len(),
            a@.take(i as int) == b@.take(i as int),
            bytes_before(a@, b@) == bytes_before(a@.skip(i as int), b@.skip(i as int)),
        decreases a.len() - i,
    {
        proof {
            assert(a@.skip(i as int).drop_first() =~= a@.skip(i + 1));
            assert(b@.skip(i as int).drop_first() =~= b@.skip(i + 1));
            assert(a@.take(i + 1) =~= a@.take(i as int).push(a@[i as int]));
            assert(b@.take(i + 1) =~= b@.take(i as int).push(b@[i as int]));
        }
        i = i + 1;
    }
    if i >= a.len() && i >= b.len() {
        assert(a@.take(i as int) =~= a@);
        assert(b@.take(i as int) =~= b@);
        Side::Same
    } else if i >= b.len() {
        Side::After
    } else if i >= a.len() || a[i] < b[i] {
        Side::Before
    } else {
        Side::After
    }
}

/// The channel `a` comes before the channel `b`: by app, then by name.
pub open spec fn room_before(a: (Seq<char>, Seq<char>), b: (Seq<char>, Seq<char>)) -> bool {
    bytes_before(encode_utf8(a.0), encode_utf8(b.0)) || (a.0 == b.0 && bytes_before(
        encode_utf8(a.1),
        encode_utf8(b.1),
    ))
}

proof fn lemma_encoding_is_faithful(a: Seq<char>, b: Seq<char>)
    ensures
        encode_utf8(a) == encode_utf8(b) ==> a == b,
{
    vstd::utf8::encode_utf8_decode_utf8(a);
    vstd::utf8::encode_utf8_decode_utf8(b);
    assert(decode_utf8(encode_utf8(a)) == a);
    assert(decode_utf8(encode_utf8(b)) == b);
}

proof fn lemma_room_before(
    a: (Seq<char>, Seq<char>),
    b: (Seq<char>, Seq<char>),
    c: (Seq<char>, Seq<char>),
)
    ensures
        !room_before(a, a),
        a != b ==> room_before(a, b) || room_before(b, a),
        room_before(a, b) && room_before(b, c) ==> room_before(a, c),
        !(room_before(a, b) && room_before(b, a)),
{
    lemma_encoding_is_faithful(a.0, b.0);
    lemma_encoding_is_faithful(a.1, b.1);
    lemma_bytes_before(encode_utf8(a.0), encode_utf8(b.0), encode_utf8(c.0));
    lemma_bytes_before(encode_utf8(a.1), encode_utf8(b.1), encode_utf8(c.1));
}

/// The subscribers of one channel.
struct Room {
    app: String,
    channel: String,
    seats: Vec<Seat>,
}

impl Room {
    spec fn id(&self) -> (Seq<char>, Seq<char>) {
        (self.app@, self.channel@)
    }
}

/// Where a channel is among the rooms, or their number where it is not.
spec fn room_at(rooms: Seq<Room>, id: (Seq<char>, Seq<char>)) -> int {
    if exists|i: int| 0 <= i < rooms.len() && (#[trigger] rooms[i]).id() == id {
        choose|i: int| 0 <= i < rooms.len() && (#[trigger] rooms[i]).id() == id
    } else {
        rooms.len() as int
    }
}

/// The subscribers that the rooms list for a channel.
spec fn listed(rooms: Seq<Room>, id: (Seq<char>, Seq<char>)) -> Seq<Seat> {
    let i = room_at(rooms, id);
    if i < rooms.len() {
        rooms[i].seats@
    } else {
        Seq::empty()
    }
}

/// The rooms are in order, none is empty, and none lists a session twice.
spec fn rooms_ok(rooms: Seq<Room>) -> bool {
    &&& forall|i: int, j: int|
        0 <= i < j < rooms.len() ==> room_before(
            (#[trigger] rooms[i]).id(),
            (#[trigger] rooms[j]).id(),
        )
    &&& forall|i: int|
        0 <= i < rooms.len() ==> (#[trigger] rooms[i]).seats@.len() > 0 && one_seat_each(
            rooms[i].seats@,
        )
}

proof fn lemma_listed_at(rooms: Seq<Room>, i: int)
    requires
        rooms_ok(rooms),
        0 <= i < rooms.len(),
    ensures
        listed(rooms, rooms[i].id()) == rooms[i].seats@,
{
    let k = room_at(rooms, rooms[i].id());
    assert(0 <= k < rooms.len() && rooms[k].id() == rooms[i].id());
    lemma_room_before(rooms[i].id(), rooms[k].id(), rooms[i].id());
    if k < i {
        assert(room_before(rooms[k].id(), rooms[i].id()));
    } else if i < k {
        assert(room_before(rooms[i].id(), rooms[k].id()));
    }
}

/// The subscriptions of a worker's connections.
pub struct SubIndex {
    rooms: Vec<Room>,
    /// How many subscriptions there are; it wraps.
    count: u64,
}

impl SubIndex {
    pub closed spec fn wf(&self) -> bool {
        &&& rooms_ok(self.rooms@)
        &&& self.keys().finite()
        &&& self.count == self.keys().len() % 0x1_0000_0000_0000_0000
    }

    /// The subscribers of a channel, in the order they joined.
    pub closed spec fn room(&self, app: Seq<char>, channel: Seq<char>) -> Seq<Seat> {
        listed(self.rooms@, (app, channel))
    }

    /// What is recorded under a key.
    pub open spec fn get(&self, k: SubKey) -> Option<(usize, u8)> {
        seated(self.room(k.app, k.channel), k.sid)
    }

    /// Every key that something is recorded under.
    pub open spec fn keys(&self) -> Set<SubKey> {
        Set::new(|k: SubKey| self.get(k) is Some)
    }

    /// No channel lists a session twice.
    pub proof fn sessions_are_listed_once(&self, app: Seq<char>, channel: Seq<char>)
        requires
            self.wf(),
        ensures
            one_seat_each(self.room(app, channel)),
    {
    }

    pub fn new() -> (s: SubIndex)
        ensures
            s.wf(),
            forall|app: Seq<char>, channel: Seq<char>| (#[trigger] s.room(app, channel)).len() == 0,
            forall|k: SubKey| (#[trigger] s.get(k)) is None,
            s.keys() == Set::<SubKey>::empty(),
    {
        let s = SubIndex { rooms: Vec::new(), count: 0 };
        assert(s.keys() =~= Set::<SubKey>::empty());
        s
    }

    /// The number of subscriptions recorded, as a counter that wraps around.
    pub fn len(&self) -> (n: u64)
        requires
            self.wf(),
        ensures
            n == self.keys().len() % 0x1_0000_0000_0000_0000,
    {
        self.count
    }

    /// Where a channel is, or where it would be.
    fn find(&self, app: &str, channel: &str) -> (r: (bool, usize))
        requires
            self.wf(),
        ensures
            r.1 <= self.rooms@.len(),
            r.0 ==> r.1 < self.rooms@.len() && self.rooms@[r.1 as int].id() == (app@, channel@),
            !r.0 ==> {
                &&& forall|j: int|
                    0 <= j < r.1 ==> room_before(
                        (#[trigger] self.rooms@[j]).id(),
                        (app@, channel@),
                    )
                &&& forall|j: int|
                    r.1 <= j < self.rooms@.len() ==> room_before(
                        (app@, channel@),
                        (#[trigger] self.rooms@[j]).id(),
                    )
            },
    {
        let ghost rooms = self.rooms@;
        let ghost id = (app@, channel@);
        let mut lo: usize = 0;
        let mut hi: usize = self.rooms.len();
        while lo < hi
            invariant
                rooms == self.rooms@,
                rooms_ok(rooms),
                id == (app@, channel@),
                lo <= hi <= rooms.len(),
                forall|j: int| 0 <= j < lo ==> room_before((#[trigger] rooms[j]).id(), id),
                forall|j: int| hi <= j < rooms.len() ==> room_before(id, (#[trigger] rooms[j]).id()),
            decreases hi - lo,
        {
            let mid: usize = lo + (hi - lo) / 2;
            let room: &Room = &self.rooms[mid];
            let first: Side = side(app.as_bytes(), room.app.as_str().as_bytes());
            let at: Side = if first == Side::Same {
                side(channel.as_bytes(), room.channel.as_str().as_bytes())
            } else {
                first
            };
            proof {
                let other = rooms[mid as int].id();
                lemma_encoding_is_faithful(id.0, other.0);
                lemma_encoding_is_faithful(id.1, other.1);
                lemma_room_before(id, other, id);
                lemma_bytes_before(encode_utf8(id.0), encode_utf8(other.0), encode_utf8(id.0));
                lemma_bytes_before(encode_utf8(id.1), encode_utf8(other.1), encode_utf8(id.1));
                assert(at == Side::Same ==> other == id);
                assert(at == Side::Before ==> room_before(id, other));
                assert(at == Side::After ==> room_before(other, id));
                assert forall|j: int| 0 <= j < mid && at == Side::After implies room_before(
                    (#[trigger] rooms[j]).id(),
                    id,
                ) by {
                    lemma_room_before(rooms[j].id(), other, id);
                }
                assert forall|j: int| mid < j < rooms.len() && at == Side::Before implies room_before(
                    id,
                    (#[trigger] rooms[j]).id(),
                ) by {
                    lemma_room_before(id, other, rooms[j].id());
                }
            }
            match at {
                Side::Same => {
                    return (true, mid);
                },
                Side::Before => {
                    hi = mid;
                },
                Side::After => {
                    lo = mid + 1;
                },
            }
        }
        (false, lo)
    }

    /// Records a subscription, in place of one under the same key; says whether
    /// the key is new.
    pub fn insert(
        &mut self,
        app: &str,
        channel: &str,
        sid: SocketId,
        token: usize,
        version: u8,
    ) -> (added: bool)
        requires
            old(self).wf(),
        ensures
            final(self).wf(),
            added == (old(self).get(SubKey { app: app@, channel: channel@, sid }) is None),
            forall|a: Seq<char>, c: Seq<char>| #[trigger]
                final(self).room(a, c) == (if a == app@ && c == channel@ {
                    seats_with(old(self).room(a, c), (sid, token, version))
                } else {
                    old(self).room(a, c)
                }),
            forall|k: SubKey| #[trigger]
                final(self).get(k) == (if k == (SubKey { app: app@, channel: channel@, sid }) {
                    Some((token, version))
                } else {
                    old(self).get(k)
                }),
            final(self).keys() == old(self).keys().insert(
                SubKey { app: app@, channel: channel@, sid },
            ),
    {
        let ghost key = SubKey { app: app@, channel: channel@, sid };
        let ghost id = (app@, channel@);
        let ghost r0 = self.rooms@;
        let ghost before = *self;
        let seat: Seat = (sid, token, version);
        let (known, i) = self.find(app, channel);
        let mut added: bool = true;
        if known {
            let at: usize = find_seat(&self.rooms[i].seats, sid);
            proof {
                lemma_listed_at(r0, i as int);
                lemma_seats_with(r0[i as int].seats@, seat, sid);
            }
            let room: &mut Room = &mut self.rooms[i];
            if at < room.seats.len() {
                room.seats.set(at, seat);
                added = false;
            } else {
                room.seats.push(seat);
            }
            proof {
                lemma_room_changed(r0, self.rooms@, i as int);
            }
        } else {
            proof {
                lemma_absent(r0, id, i as int);
                lemma_seats_with(Seq::empty(), seat, sid);
            }
            let mut seats: Vec<Seat> = Vec::new();
            seats.push(seat);
            self.rooms.insert(i, Room { app: app.to_owned(), channel: channel.to_owned(), seats });
            proof {
                lemma_room_added(r0, self.rooms@, i as int);
                assert(seats_with(Seq::empty(), seat) =~= seq![seat]);
            }
        }
        if added {
            self.count = self.count.wrapping_add(1);
        }
        proof {
            assert forall|k: SubKey| #[trigger]
                self.get(k) == (if k == key {
                    Some((token, version))
                } else {
                    before.get(k)
                }) by {
                assert(one_seat_each(before.room(k.app, k.channel)));
                lemma_seats_with(before.room(k.app, k.channel), seat, k.sid);
            }
            assert(self.keys() =~= before.keys().insert(key));
        }
        added
    }

    /// Forgets a subscription; says whether it was recorded. A channel without
    /// subscribers goes too.
    pub fn remove(&mut self, app: &str, channel: &str, sid: SocketId) -> (gone: bool)
        requires
            old(self).wf(),
        ensures
            final(self).wf(),
            gone == (old(self).get(SubKey { app: app@, channel: channel@, sid }) is Some),
            forall|a: Seq<char>, c: Seq<char>| #[trigger]
                final(self).room(a, c) == (if a == app@ && c == channel@ {
                    seats_without(old(self).room(a, c), sid)
                } else {
                    old(self).room(a, c)
                }),
            forall|k: SubKey| #[trigger]
                final(self).get(k) == (if k == (SubKey { app: app@, channel: channel@, sid }) {
                    None
                } else {
                    old(self).get(k)
                }),
            final(self).keys() == old(self).keys().remove(
                SubKey { app: app@, channel: channel@, sid },
            ),
    {
        let ghost key = SubKey { app: app@, channel: channel@, sid };
        let ghost id = (app@, channel@);
        let ghost r0 = self.rooms@;
        let ghost before = *self;
        let (known, i) = self.find(app, channel);
        let mut gone: bool = false;
        if known {
            let at: usize = find_seat(&self.rooms[i].seats, sid);
            proof {
                lemma_listed_at(r0, i as int);
                lemma_seats_without(r0[i as int].seats@, sid, sid);
            }
            if at < self.rooms[i].seats.len() {
                gone = true;
                if self.rooms[i].seats.len() == 1 {
                    let _room: Room = self.rooms.remove(i);
                    proof {
                        lemma_room_removed(r0, self.rooms@, i as int);
                        assert(seats_without(r0[i as int].seats@, sid) =~= Seq::empty());
                    }
                } else {
                    let room: &mut Room = &mut self.rooms[i];
                    let _seat: Seat = room.seats.remove(at);
                    proof {
                        lemma_room_changed(r0, self.rooms@, i as int);
                    }
                }
            }
        } else {
            proof {
                lemma_absent(r0, id, i as int);
            }
        }
        if gone {
            self.count = self.count.wrapping_sub(1);
        }
        proof {
            assert forall|k: SubKey| #[trigger]
                self.get(k) == (if k == key {
                    None
                } else {
                    before.get(k)
                }) by {
                assert(one_seat_each(before.room(k.app, k.channel)));
                lemma_seats_without(before.room(k.app, k.channel), sid, k.sid);
            }
            assert(self.keys() =~= before.keys().remove(key));
        }
        gone
    }

    /// The subscribers of a channel.
    pub fn subscribers(&self, app: &str, channel: &str) -> (r: Vec<Seat>)
        requires
            self.wf(),
        ensures
            r@ == self.room(app@, channel@),
    {
        let (known, i) = self.find(app, channel);
        if known {
            proof {
                lemma_listed_at(self.rooms@, i as int);
            }
            copy_seats(&self.rooms[i].seats)
        } else {
            proof {
                lemma_absent(self.rooms@, (app@, channel@), i as int);
            }
            Vec::new()
        }
    }
}

fn find_seat(seats: &Vec<Seat>, sid: SocketId) -> (i: usize)
    ensures
        i == seat_of(seats@, sid),
{
    let mut i: usize = 0;
    while i < seats.len() && seats[i].0 != sid
        invariant
            i <= seats@.len(),
            forall|j: int| 0 <= j < i ==> (#[trigger] seats@[j]).0 != sid,
        decreases seats@.len() - i,
    {
        i = i + 1;
    }
    proof {
        lemma_seat_at(seats@, sid, i as int);
    }
    i
}

fn copy_seats(seats: &Vec<Seat>) -> (r: Vec<Seat>)
    ensures
        r@ == seats@,
{
    let mut r: Vec<Seat> = Vec::new();
    let mut i: usize = 0;
    while i < seats.len()
        invariant
            i <= seats@.len(),
            r@ == seats@.take(i as int),
        decreases seats@.len() - i,
    {
        assert(seats@.take(i + 1) =~= seats@.take(i as int).push(seats@[i as int]));
        r.push(seats[i]);
        i = i + 1;
    }
    assert(seats@.take(i as int) =~= seats@);
    r
}

/// A channel that belongs between two rooms is in none.
proof fn lemma_absent(rooms: Seq<Room>, id: (Seq<char>, Seq<char>), at: int)
    requires
        0 <= at <= rooms.len(),
        forall|j: int| 0 <= j < at ==> room_before((#[trigger] rooms[j]).id(), id),
        forall|j: int| at <= j < rooms.len() ==> room_before(id, (#[trigger] rooms[j]).id()),
    ensures
        listed(rooms, id) == Seq::<Seat>::empty(),
{
    lemma_room_before(id, id, id);
    assert forall|j: int| 0 <= j < rooms.len() implies (#[trigger] rooms[j]).id() != id by {}
}

/// New subscribers in one room leave the others as they are.
proof fn lemma_room_changed(r0: Seq<Room>, r1: Seq<Room>, i: int)
    requires
        rooms_ok(r0),
        0 <= i < r0.len(),
        r1 == r0.update(i, r1[i]),
        r1[i].id() == r0[i].id(),
        r1[i].seats@.len() > 0,
        one_seat_each(r1[i].seats@),
    ensures
        rooms_ok(r1),
        forall|id: (Seq<char>, Seq<char>)| #[trigger]
            listed(r1, id) == (if id == r0[i].id() {
                r1[i].seats@
            } else {
                listed(r0, id)
            }),
{
    assert forall|a: int, b: int| 0 <= a < b < r1.len() implies room_before(
        (#[trigger] r1[a]).id(),
        (#[trigger] r1[b]).id(),
    ) by {
        assert(room_before(r0[a].id(), r0[b].id()));
    }
    assert forall|id: (Seq<char>, Seq<char>)| #[trigger]
        listed(r1, id) == (if id == r0[i].id() {
            r1[i].seats@
        } else {
            listed(r0, id)
        }) by {
        let k = room_at(r1, id);
        let k0 = room_at(r0, id);
        if k < r1.len() {
            lemma_listed_at(r1, k);
            assert(r0[k].id() == id);
            lemma_listed_at(r0, k);
        } else if k0 < r0.len() {
            assert(r1[k0].id() == id);
        }
        lemma_listed_at(r1, i);
    }
}

/// A new room in its place leaves the others as they are.
proof fn lemma_room_added(r0: Seq<Room>, r1: Seq<Room>, i: int)
    requires
        rooms_ok(r0),
        0 <= i <= r0.len(),
        r1 == r0.insert(i, r1[i]),
        r1[i].seats@.len() > 0,
        one_seat_each(r1[i].seats@),
        forall|j: int| 0 <= j < i ==> room_before((#[trigger] r0[j]).id(), r1[i].id()),
        forall|j: int| i <= j < r0.len() ==> room_before(r1[i].id(), (#[trigger] r0[j]).id()),
    ensures
        rooms_ok(r1),
        forall|id: (Seq<char>, Seq<char>)| #[trigger]
            listed(r1, id) == (if id == r1[i].id() {
                r1[i].seats@
            } else {
                listed(r0, id)
            }),
{
    assert forall|a: int| 0 <= a < r1.len() && a != i implies #[trigger] r1[a] == r0[if a < i {
        a
    } else {
        a - 1
    }] by {}
    assert forall|a: int, b: int| 0 <= a < b < r1.len() implies room_before(
        (#[trigger] r1[a]).id(),
        (#[trigger] r1[b]).id(),
    ) by {
        if a != i && b != i {
            assert(room_before(
                r0[if a < i { a } else { a - 1 }].id(),
                r0[if b < i { b } else { b - 1 }].id(),
            ));
        }
    }
    assert forall|id: (Seq<char>, Seq<char>)| #[trigger]
        listed(r1, id) == (if id == r1[i].id() {
            r1[i].seats@
        } else {
            listed(r0, id)
        }) by {
        lemma_listed_at(r1, i);
        let k = room_at(r1, id);
        let k0 = room_at(r0, id);
        if id != r1[i].id() {
            if k0 < r0.len() {
                let k1 = if k0 < i {
                    k0
                } else {
                    k0 + 1
                };
                assert(r1[k1] == r0[k0]);
                lemma_listed_at(r1, k1);
                lemma_listed_at(r0, k0);
            } else if k < r1.len() {
                assert(r0[if k < i { k } else { k - 1 }].id() == id);
            }
        }
    }
}

/// A room that goes leaves the others as they are.
proof fn lemma_room_removed(r0: Seq<Room>, r1: Seq<Room>, i: int)
    requires
        rooms_ok(r0),
        0 <= i < r0.len(),
        r1 == r0.remove(i),
    ensures
        rooms_ok(r1),
        forall|id: (Seq<char>, Seq<char>)| #[trigger]
            listed(r1, id) == (if id == r0[i].id() {
                Seq::empty()
            } else {
                listed(r0, id)
            }),
{
    assert forall|a: int| 0 <= a < r1.len() implies #[trigger] r1[a] == r0[if a < i {
        a
    } else {
        a + 1
    }] by {}
    assert forall|a: int, b: int| 0 <= a < b < r1.len() implies room_before(
        (#[trigger] r1[a]).id(),
        (#[trigger] r1[b]).id(),
    ) by {
        assert(room_before(
            r0[if a < i { a } else { a + 1 }].id(),
            r0[if b < i { b } else { b + 1 }].id(),
        ));
    }
    assert forall|id: (Seq<char>, Seq<char>)| #[trigger]
        listed(r1, id) == (if id == r0[i].id() {
            Seq::empty()
        } else {
            listed(r0, id)
        }) by {
        let k = room_at(r1, id);
        let k0 = room_at(r0, id);
        if k < r1.len() {
            let j = if k < i {
                k
            } else {
                k + 1
            };
            assert(r0[j] == r1[k]);
            lemma_room_before(r0[i].id(), r0[i].id(), r0[i].id());
            if j < i {
                assert(room_before(r0[j].id(), r0[i].id()));
            } else {
                assert(room_before(r0[i].id(), r0[j].id()));
            }
            lemma_listed_at(r0, j);
        } else if id != r0[i].id() && k0 < r0.len() {
            assert(r1[if k0 < i { k0 } else { k0 - 1 }].id() == id);
        }
    }
}

/// Whether a name is in the list.
pub fn has_name(v: &Vec<String>, c: &str) -> (b: bool)
    ensures
        b == names(v@).contains(c@),
{
    let mut i: usize = 0;
    while i < v.len()
        invariant
            i <= v@.len(),
            forall|k: int| 0 <= k < i ==> names(v@)[k] != c@,
        decreases v@.len() - i,
    {
        if text::str_eq(v[i].as_str(), c) {
            assert(names(v@)[i as int] == c@);
            return true;
        }
        i = i + 1;
    }
    false
}

/// What a reconciliation leaves under a key: newly joined channels point at the
/// connection, channels left are gone, all else is as it was.
pub open spec fn reconciled(
    session: Session,
    token: usize,
    before: Option<(usize, u8)>,
    k: SubKey,
) -> Option<(usize, u8)> {
    let own = k.app == session.app_id@ && k.sid == session.socket_id;
    let live = names(session.subscribed@).contains(k.channel);
    let known = names(session.subs@).contains(k.channel);
    if own && live && !known {
        Some((token, session.version))
    } else if own && known && !live {
        None
    } else {
        before
    }
}

/// Brings the index in line with the channels that the session is in.
pub fn reconcile_membership(session: &mut Session, token: usize, index: &mut SubIndex)
    requires
        old(index).wf(),
    ensures
        final(index).wf(),
        forall|k: SubKey| #[trigger]
            final(index).get(k) == reconciled(*old(session), token, old(index).get(k), k),
        forall|c: Seq<char>| #[trigger]
            names(final(session).subs@).contains(c) <==> names(
                old(session).subscribed@,
            ).contains(c),
        final(session).subscribed == old(session).subscribed,
        final(session).presence == old(session).presence,
        final(session).app_id == old(session).app_id,
        final(session).socket_id == old(session).socket_id,
        final(session).version == old(session).version,
        final(session).cluster_admitted == old(session).cluster_admitted,
{
    let ghost s0 = *session;
    let ghost live = names(s0.subscribed@);
    let ghost known = names(s0.subs@);
    let ghost x0 = *index;
    let mut subs: Vec<String> = Vec::new();
    std::mem::swap(&mut subs, &mut session.subs);
    let mut i: usize = 0;
    while i < session.subscribed.len()
        invariant
            session.subscribed == s0.subscribed,
            session.presence == s0.presence,
            session.app_id == s0.app_id,
            session.socket_id == s0.socket_id,
            session.version == s0.version,
            session.cluster_admitted == s0.cluster_admitted,
            live == names(s0.subscribed@),
            known == names(s0.subs@),
            i <= s0.subscribed@.len(),
            index.wf(),
            forall|c: Seq<char>| #[trigger]
                names(subs@).contains(c) <==> known.contains(c) || live.take(i as int).contains(c),
            forall|k: SubKey| #[trigger]
                index.get(k) == (if k.app == s0.app_id@ && k.sid == s0.socket_id && live.take(
                    i as int,
                ).contains(k.channel) && !known.contains(k.channel) {
                    Some((token, s0.version))
                } else {
                    x0.get(k)
                }),
        decreases s0.subscribed@.len() - i,
    {
        let channel: &String = &session.subscribed[i];
        let ghost c = channel@;
        proof {
            lemma_take_contains(live, i as int);
            assert(live[i as int] == c);
        }
        if !has_name(&subs, channel.as_str()) {
            let _new: bool = index.insert(
                session.app_id.as_str(),
                channel.as_str(),
                session.socket_id,
                token,
                session.version,
            );
            let ghost had = names(subs@);
            subs.push(channel.clone());
            proof {
                assert(names(subs@) =~= had.push(c));
                lemma_push_contains(had, c);
            }
        }
        i = i + 1;
    }
    assert(live.take(i as int) =~= live);
    let ghost x1 = *index;
    let ghost all = names(subs@);
    let mut kept: Vec<String> = Vec::new();
    let mut j: usize = 0;
    while j < subs.len()
        invariant
            session.subscribed == s0.subscribed,
            session.presence == s0.presence,
            session.app_id == s0.app_id,
            session.socket_id == s0.socket_id,
            session.version == s0.version,
            session.cluster_admitted == s0.cluster_admitted,
            live == names(s0.subscribed@),
            all == names(subs@),
            j <= subs@.len(),
            index.wf(),
            forall|c: Seq<char>| #[trigger]
                names(kept@).contains(c) <==> all.take(j as int).contains(c) && live.contains(c),
            forall|k: SubKey| #[trigger]
                index.get(k) == (if k.app == s0.app_id@ && k.sid == s0.socket_id && all.take(
                    j as int,
                ).contains(k.channel) && !live.contains(k.channel) {
                    None
                } else {
                    x1.get(k)
                }),
        decreases subs@.len() - j,
    {
        let channel: &String = &subs[j];
        let ghost c = channel@;
        proof {
            lemma_take_contains(all, j as int);
            assert(all[j as int] == c);
        }
        if has_name(&session.subscribed, channel.as_str()) {
            let ghost had = names(kept@);
            kept.push(channel.clone());
            proof {
                assert(names(kept@) =~= had.push(c));
                lemma_push_contains(had, c);
            }
        } else {
            let _was: bool = index.remove(
                session.app_id.as_str(),
                channel.as_str(),
                session.socket_id,
            );
        }
        j = j + 1;
    }
    assert(all.take(j as int) =~= all);
    session.subs = kept;
}

proof fn lemma_take_contains(v: Seq<Seq<char>>, i: int)
    requires
        0 <= i < v.len(),
    ensures
        forall|c: Seq<char>| #[trigger]
            v.take(i + 1).contains(c) <==> v.take(i).contains(c) || c == v[i],
{
    assert forall|c: Seq<char>| #[trigger] v.take(i + 1).contains(c) implies v.take(i).contains(c)
        || c == v[i] by {
        let t = v.take(i + 1);
        let k = choose|k: int| 0 <= k < t.len() && t[k] == c;
        if k < i {
            assert(v.take(i)[k] == c);
        }
    }
    assert forall|c: Seq<char>| v.take(i).contains(c) || c == v[i] implies #[trigger] v.take(
        i + 1,
    ).contains(c) by {
        if v.take(i).contains(c) {
            let k = choose|k: int| 0 <= k < i && v.take(i)[k] == c;
            assert(v.take(i + 1)[k] == c);
        } else {
            assert(v.take(i + 1)[i] == c);
        }
    }
}

proof fn lemma_push_contains(v: Seq<Seq<char>>, x: Seq<char>)
    ensures
        forall|c: Seq<char>| #[trigger] v.push(x).contains(c) <==> v.contains(c) || c == x,
{
    assert forall|c: Seq<char>| #[trigger] v.push(x).contains(c) implies v.contains(c) || c
        == x by {
        let k = choose|k: int| 0 <= k < v.len() + 1 && v.push(x)[k] == c;
        if k < v.len() {
            assert(v[k] == c);
        }
    }
    assert forall|c: Seq<char>| v.contains(c) || c == x implies #[trigger] v.push(x).contains(
        c,
    ) by {
        if v.contains(c) {
            let k = choose|k: int| 0 <= k < v.len() && v[k] == c;
            assert(v.push(x)[k] == c);
        } else {
            assert(v.push(x)[v.len() as int] == c);
        }
    }
}

/// What closing a session leaves under a key.
pub open spec fn deindexed(session: Session, before: Option<(usize, u8)>, k: SubKey) -> Option<
    (usize, u8),
> {
    if k.app == session.app_id@ && k.sid == session.socket_id && (names(
        session.subscribed@,
    ).contains(k.channel) || names(session.subs@).contains(k.channel)) {
        None
    } else {
        before
    }
}

fn remove_all(session: &Session, channels: &Vec<String>, index: &mut SubIndex)
    requires
        old(index).wf(),
    ensures
        final(index).wf(),
        forall|k: SubKey| #[trigger]
            final(index).get(k) == (if k.app == session.app_id@ && k.sid == session.socket_id
                && names(channels@).contains(k.channel) {
                None
            } else {
                old(index).get(k)
            }),
{
    let ghost all = names(channels@);
    let ghost x0 = *index;
    let mut i: usize = 0;
    while i < channels.len()
        invariant
            all == names(channels@),
            i <= channels@.len(),
            index.wf(),
            forall|k: SubKey| #[trigger]
                index.get(k) == (if k.app == session.app_id@ && k.sid == session.socket_id
                    && all.take(i as int).contains(k.channel) {
                    None
                } else {
                    x0.get(k)
                }),
        decreases channels@.len() - i,
    {
        proof {
            lemma_take_contains(all, i as int);
        }
        let _was: bool = index.remove(
            session.app_id.as_str(),
            channels[i].as_str(),
            session.socket_id,
        );
        i = i + 1;
    }
    assert(all.take(i as int) =~= all);
}

/// Removes a closing session from every channel that it was indexed under or is
/// subscribed to: a subscription that was never reconciled is covered too.
pub fn deindex_connection(session: &Session, index: &mut SubIndex)
    requires
        old(index).wf(),
    ensures
        final(index).wf(),
        forall|k: SubKey| #[trigger]
            final(index).get(k) == deindexed(*session, old(index).get(k), k),
{
    remove_all(session, &session.subscribed, index);
    remove_all(session, &session.subs, index);
}

/// The index agrees with a session: it records exactly the channels of `subs`.
pub open spec fn in_step(session: Session, token: usize, index: SubIndex) -> bool {
    forall|c: Seq<char>| #[trigger]
        index.get(SubKey { app: session.app_id@, channel: c, sid: session.socket_id }) == (if names(
            session.subs@,
        ).contains(c) {
            Some((token, session.version))
        } else {
            None
        })
}

/// After a reconciliation the session is delivered to under exactly the channels
/// that it is subscribed to.
pub proof fn reconciliation_is_exact(
    before: Session,
    after: Session,
    token: usize,
    x0: SubIndex,
    x1: SubIndex,
)
    requires
        in_step(before, token, x0),
        after.app_id == before.app_id,
        after.socket_id == before.socket_id,
        after.version == before.version,
        after.subscribed == before.subscribed,
        forall|k: SubKey| #[trigger] x1.get(k) == reconciled(before, token, x0.get(k), k),
        forall|c: Seq<char>| #[trigger]
            names(after.subs@).contains(c) <==> names(before.subscribed@).contains(c),
    ensures
        in_step(after, token, x1),
        forall|c: Seq<char>| #[trigger]
            x1.get(SubKey { app: after.app_id@, channel: c, sid: after.socket_id }) is Some
                <==> names(after.subscribed@).contains(c),
{
    assert forall|c: Seq<char>| #[trigger]
        x1.get(SubKey { app: after.app_id@, channel: c, sid: after.socket_id }) == (if names(
            after.subs@,
        ).contains(c) {
            Some((token, after.version))
        } else {
            None
        }) by {
        let k = SubKey { app: before.app_id@, channel: c, sid: before.socket_id };
        assert(x1.get(k) == reconciled(before, token, x0.get(k), k));
        assert(names(after.subs@).contains(c) <==> names(before.subscribed@).contains(c));
    }
}

/// A closed session is delivered to under no channel at all.
pub proof fn deindexing_is_complete(session: Session, token: usize, x0: SubIndex, x1: SubIndex)
    requires
        in_step(session, token, x0),
        forall|k: SubKey| #[trigger] x1.get(k) == deindexed(session, x0.get(k), k),
    ensures
        forall|c: Seq<char>| #[trigger]
            x1.get(SubKey { app: session.app_id@, channel: c, sid: session.socket_id }) is None,
{
    assert forall|c: Seq<char>| #[trigger]
        x1.get(SubKey { app: session.app_id@, channel: c, sid: session.socket_id }) is None by {
        let k = SubKey { app: session.app_id@, channel: c, sid: session.socket_id };
        assert(x0.get(k) == (if names(session.subs@).contains(c) {
            Some((token, session.version))
        } else {
            None
        }));
        assert(x1.get(k) == deindexed(session, x0.get(k), k));
    }
}

/// A channel lists a session with its connection and version exactly where looking the
/// session up in it gives those.
pub proof fn rooms_list_who_is_indexed(
    index: SubIndex,
    app: Seq<char>,
    channel: Seq<char>,
    sid: SocketId,
    token: usize,
    version: u8,
)
    requires
        index.wf(),
    ensures
        index.room(app, channel).contains((sid, token, version)) <==> index.get(
            SubKey { app, channel, sid },
        ) == Some((token, version)),
        index.keys().contains(SubKey { app, channel, sid }) <==> exists|i: int|
            0 <= i < index.room(app, channel).len() && (#[trigger] index.room(app, channel)[i]).0
                == sid,
{
    let seats = index.room(app, channel);
    index.sessions_are_listed_once(app, channel);
    lemma_seat_found(seats, sid);
    let i = seat_of(seats, sid);
    if seats.contains((sid, token, version)) {
        let k = choose|k: int| 0 <= k < seats.len() && seats[k] == (sid, token, version);
        assert(seats[k].0 == sid);
        if i != k {
            assert(seats[i].0 == sid);
            if i < k {
                assert(seats[i].0 != seats[k].0);
            } else {
                assert(seats[k].0 != seats[i].0);
            }
        }
    }
    if i < seats.len() {
        assert(seats[i].0 == sid);
        assert(seats.contains(seats[i]));
    }
}

proof fn lemma_seat_found(seats: Seq<Seat>, sid: SocketId)
    ensures
        0 <= seat_of(seats, sid) <= seats.len(),
        seat_of(seats, sid) < seats.len() ==> seats[seat_of(seats, sid)].0 == sid,
        (exists|i: int| 0 <= i < seats.len() && (#[trigger] seats[i]).0 == sid) ==> seat_of(
            seats,
            sid,
        ) < seats.len(),
    decreases seats.len(),
{
    if seats.len() > 0 && seats[0].0 != sid {
        let rest = seats.drop_first();
        lemma_seat_found(rest, sid);
        if exists|i: int| 0 <= i < seats.len() && (#[trigger] seats[i]).0 == sid {
            let i = choose|i: int| 0 <= i < seats.len() && (#[trigger] seats[i]).0 == sid;
            assert(rest[i - 1].0 == sid);
        }
    }
}

} // verus!
