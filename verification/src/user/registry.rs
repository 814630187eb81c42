//! Which users are signed in on which connections, and who watches whom.
//!
//! A user is online while signed in on at least one connection. A connection
//! watches a list of users; watching again replaces the list.
use crate::transport::fanout::SocketId;
use crate::transport::worker::mail::names;
use dashmap::DashMap;
use vstd::prelude::*;

verus! {

/// Where messages for a connection go.
#[derive(Debug, Clone, Copy, PartialEq, Eq, Structural)]
pub struct ConnectionHandle {
    pub socket_id: SocketId,
    pub mailbox: u64,
}

/// Whether a sign-in was the user's first.
#[derive(Debug, Clone, Copy, PartialEq, Eq, Structural)]
pub struct UserJoinOutcome {
    pub first_for_user: bool,
}

/// Whether a sign-out was the user's last.
#[derive(Debug, Clone, Copy, PartialEq, Eq, Structural)]
pub struct UserLeaveOutcome {
    pub last_for_user: bool,
}

/// Lists of connections by app and user.
pub type HandleMap = DashMap<(String, String), Vec<ConnectionHandle>>;

/// Watched users by app and watching connection.
pub type WatchMap = DashMap<(String, SocketId), Vec<String>>;

/// What a map of connection lists holds.
pub uninterp spec fn handles_in(m: HandleMap) -> Map<(Seq<char>, Seq<char>), Seq<ConnectionHandle>>;

/// What a map of watch lists holds.
pub uninterp spec fn watches_in(m: WatchMap) -> Map<(Seq<char>, SocketId), Seq<Seq<char>>>;

/// `DashMap::new`: an empty map.
#[verifier::external_body]
fn handles_new() -> (r: HandleMap)
    ensures
        handles_in(r).dom() == Set::<(Seq<char>, Seq<char>)>::empty(),
{
    DashMap::new()
}

/// `DashMap::get`: a copy of the list under a key.
#[verifier::external_body]
fn handles_get(m: &HandleMap, app: &str, user: &str) -> (r: Option<Vec<ConnectionHandle>>)
    ensures
        match r {
            Some(v) => handles_in(*m).dom().contains((app@, user@)) && v@ == handles_in(*m)[(app@, user@)],
            None => !handles_in(*m).dom().contains((app@, user@)),
        },
{
    m.get(&(app.to_owned(), user.to_owned())).map(|v| v.clone())
}

/// `DashMap::insert`: the key holds the list, all others are as before.
#[verifier::external_body]
fn handles_insert(m: &mut HandleMap, app: &str, user: &str, v: Vec<ConnectionHandle>)
    ensures
        handles_in(*final(m)) == handles_in(*old(m)).insert((app@, user@), v@),
{
    m.insert((app.to_owned(), user.to_owned()), v);
}

/// `DashMap::remove`: the key holds nothing, all others are as before.
#[verifier::external_body]
fn handles_remove(m: &mut HandleMap, app: &str, user: &str)
    ensures
        handles_in(*final(m)) == handles_in(*old(m)).remove((app@, user@)),
{
    m.remove(&(app.to_owned(), user.to_owned()));
}

/// `DashMap::new`: an empty map.
#[verifier::external_body]
fn watches_new() -> (r: WatchMap)
    ensures
        watches_in(r).dom() == Set::<(Seq<char>, SocketId)>::empty(),
{
    DashMap::new()
}

/// `DashMap::insert`: the key holds the list, all others are as before.
#[verifier::external_body]
fn watches_insert(m: &mut WatchMap, app: &str, sid: SocketId, v: Vec<String>)
    ensures
        watches_in(*final(m)) == watches_in(*old(m)).insert((app@, sid), names(v@)),
{
    m.insert((app.to_owned(), sid), v);
}

/// `DashMap::remove`: takes the list under a key out, all others are as before.
#[verifier::external_body]
fn watches_remove(m: &mut WatchMap, app: &str, sid: SocketId) -> (r: Option<Vec<String>>)
    ensures
        watches_in(*final(m)) == watches_in(*old(m)).remove((app@, sid)),
        match r {
            Some(v) => watches_in(*old(m)).dom().contains((app@, sid)) && names(v@) == watches_in(*old(m))[(app@, sid)],
            None => !watches_in(*old(m)).dom().contains((app@, sid)),
        },
{
    m.remove(&(app.to_owned(), sid)).map(|e| e.1)
}

/// The connection is in the list.
pub open spec fn lists(s: Seq<ConnectionHandle>, sid: SocketId) -> bool {
    exists|i: int| 0 <= i < s.len() && (#[trigger] s[i]).socket_id == sid
}

/// The list without a connection.
pub open spec fn list_without(s: Seq<ConnectionHandle>, sid: SocketId) -> Seq<ConnectionHandle>
    decreases s.len(),
{
    if s.len() == 0 {
        s
    } else if s.last().socket_id == sid {
        list_without(s.drop_last(), sid)
    } else {
        list_without(s.drop_last(), sid).push(s.last())
    }
}

/// The list with a connection, in place of an older entry for it.
pub open spec fn list_with(s: Seq<ConnectionHandle>, h: ConnectionHandle) -> Seq<ConnectionHandle> {
    list_without(s, h.socket_id).push(h)
}

proof fn lemma_lists_push(s: Seq<ConnectionHandle>, h: ConnectionHandle, sid: SocketId)
    ensures
        lists(s.push(h), sid) <==> lists(s, sid) || h.socket_id == sid,
{
    let p = s.push(h);
    if lists(p, sid) {
        let i = choose|i: int| 0 <= i < p.len() && (#[trigger] p[i]).socket_id == sid;
        if i < s.len() {
            assert(s[i].socket_id == sid);
        }
    }
    if lists(s, sid) {
        let i = choose|i: int| 0 <= i < s.len() && (#[trigger] s[i]).socket_id == sid;
        assert(p[i].socket_id == sid);
    }
    assert(p[s.len() as int] == h);
}

proof fn lemma_list_without(s: Seq<ConnectionHandle>, gone: SocketId, sid: SocketId)
    ensures
        lists(list_without(s, gone), sid) <==> lists(s, sid) && sid != gone,
        !lists(s, gone) ==> list_without(s, gone) == s,
    decreases s.len(),
{
    if s.len() > 0 {
        let init = s.drop_last();
        lemma_list_without(init, gone, sid);
        assert(s =~= init.push(s.last()));
        lemma_lists_push(init, s.last(), sid);
        lemma_lists_push(init, s.last(), gone);
        lemma_lists_push(list_without(init, gone), s.last(), sid);
    }
}

proof fn lemma_list_without_push(s: Seq<ConnectionHandle>, h: ConnectionHandle, sid: SocketId)
    ensures
        list_without(s.push(h), sid) == if h.socket_id == sid {
            list_without(s, sid)
        } else {
            list_without(s, sid).push(h)
        },
        list_without(list_without(s, sid), sid) == list_without(s, sid),
{
    assert(s.push(h).drop_last() =~= s);
    lemma_list_without(s, sid, sid);
    lemma_list_without(list_without(s, sid), sid, sid);
}

/// The list of a user, empty if there is none.
pub open spec fn list_of(
    m: Map<(Seq<char>, Seq<char>), Seq<ConnectionHandle>>,
    app: Seq<char>,
    user: Seq<char>,
) -> Seq<ConnectionHandle> {
    if m.dom().contains((app, user)) {
        m[(app, user)]
    } else {
        Seq::empty()
    }
}

/// The map with a list under a key; an empty list leaves no entry.
pub open spec fn with_list(
    m: Map<(Seq<char>, Seq<char>), Seq<ConnectionHandle>>,
    app: Seq<char>,
    user: Seq<char>,
    s: Seq<ConnectionHandle>,
) -> Map<(Seq<char>, Seq<char>), Seq<ConnectionHandle>> {
    if s.len() == 0 {
        m.remove((app, user))
    } else {
        m.insert((app, user), s)
    }
}

/// The registry as contracts see it.
pub struct RegistryModel {
    pub users: Map<(Seq<char>, Seq<char>), Seq<ConnectionHandle>>,
    pub watchers: Map<(Seq<char>, Seq<char>), Seq<ConnectionHandle>>,
    pub watching: Map<(Seq<char>, SocketId), Seq<Seq<char>>>,
}

impl RegistryModel {
    /// No list is empty, and every watcher is on record for what it watches.
    pub open spec fn valid(self) -> bool {
        &&& no_empty_list(self.users)
        &&& no_empty_list(self.watchers)
        &&& forall|app: Seq<char>, user: Seq<char>, sid: SocketId|
            #[trigger] self.watched_by(app, user, sid) ==> self.on_record(app, user, sid)
    }

    /// The connection is among the watchers of the user.
    pub open spec fn watched_by(self, app: Seq<char>, user: Seq<char>, sid: SocketId) -> bool {
        lists(list_of(self.watchers, app, user), sid)
    }

    /// The user is on the connection's watch list.
    pub open spec fn on_record(self, app: Seq<char>, user: Seq<char>, sid: SocketId) -> bool {
        self.watching.dom().contains((app, sid)) && self.watching[(app, sid)].contains(user)
    }

    /// The user is signed in somewhere.
    pub open spec fn online(self, app: Seq<char>, user: Seq<char>) -> bool {
        list_of(self.users, app, user).len() > 0
    }

    /// Those of the users that are online, in order.
    pub open spec fn online_among(self, app: Seq<char>, users: Seq<Seq<char>>) -> Seq<Seq<char>>
        decreases users.len(),
    {
        if users.len() == 0 {
            users
        } else if self.online(app, users.last()) {
            self.online_among(app, users.drop_last()).push(users.last())
        } else {
            self.online_among(app, users.drop_last())
        }
    }

    /// The watchers of every user after `handle` watches `users` and nobody else.
    pub open spec fn watchers_after(
        self,
        after: RegistryModel,
        app: Seq<char>,
        handle: ConnectionHandle,
        users: Seq<Seq<char>>,
    ) -> bool {
        forall|a: Seq<char>, u: Seq<char>| #[trigger]
            list_of(after.watchers, a, u) == if a == app && users.contains(u) {
                list_with(list_of(self.watchers, a, u), handle)
            } else if a == app {
                list_without(list_of(self.watchers, a, u), handle.socket_id)
            } else {
                list_of(self.watchers, a, u)
            }
    }

    /// The watchers of every user after the connection watches nobody.
    pub open spec fn unwatched_after(self, after: RegistryModel, app: Seq<char>, sid: SocketId) -> bool {
        forall|a: Seq<char>, u: Seq<char>| #[trigger]
            list_of(after.watchers, a, u) == if a == app {
                list_without(list_of(self.watchers, a, u), sid)
            } else {
                list_of(self.watchers, a, u)
            }
    }
}

/// No list in the map is empty.
pub open spec fn no_empty_list(m: Map<(Seq<char>, Seq<char>), Seq<ConnectionHandle>>) -> bool {
    forall|k: (Seq<char>, Seq<char>)| #[trigger] m.dom().contains(k) ==> m[k].len() > 0
}

/// Signed-in users and their watchers.
pub struct UserRegistry {
    users: HandleMap,
    watchers: HandleMap,
    watching: WatchMap,
}

impl View for UserRegistry {
    type V = RegistryModel;

    closed spec fn view(&self) -> RegistryModel {
        RegistryModel {
            users: handles_in(self.users),
            watchers: handles_in(self.watchers),
            watching: watches_in(self.watching),
        }
    }
}

fn remove_sid(v: &Vec<ConnectionHandle>, sid: SocketId) -> (r: Vec<ConnectionHandle>)
    ensures
        r@ == list_without(v@, sid),
{
    let mut out: Vec<ConnectionHandle> = Vec::new();
    let mut i: usize = 0;
    assert(v@.take(0) =~= Seq::<ConnectionHandle>::empty());
    while i < v.len()
        invariant
            i <= v@.len(),
            out@ == list_without(v@.take(i as int), sid),
        decreases v@.len() - i,
    {
        proof {
            assert(v@.take(i + 1).drop_last() =~= v@.take(i as int));
            assert(v@.take(i + 1).last() == v@[i as int]);
        }
        if v[i].socket_id != sid {
            out.push(v[i]);
        }
        i = i + 1;
    }
    assert(v@.take(i as int) =~= v@);
    out
}

fn get_list(m: &HandleMap, app: &str, user: &str) -> (r: Vec<ConnectionHandle>)
    ensures
        r@ == list_of(handles_in(*m), app@, user@),
{
    match handles_get(m, app, user) {
        Some(v) => v,
        None => Vec::new(),
    }
}

fn put_list(m: &mut HandleMap, app: &str, user: &str, v: Vec<ConnectionHandle>)
    ensures
        handles_in(*final(m)) == with_list(handles_in(*old(m)), app@, user@, v@),
{
    if v.len() == 0 {
        handles_remove(m, app, user);
    } else {
        handles_insert(m, app, user, v);
    }
}

impl UserRegistry {
    pub fn new() -> (r: UserRegistry)
        ensures
            r@.valid(),
            r@.users.dom() == Set::<(Seq<char>, Seq<char>)>::empty(),
            r@.watchers.dom() == Set::<(Seq<char>, Seq<char>)>::empty(),
            r@.watching.dom() == Set::<(Seq<char>, SocketId)>::empty(),
    {
        UserRegistry { users: handles_new(), watchers: handles_new(), watching: watches_new() }
    }

    /// Signs a connection in as a user; says whether the user came online by it.
    pub fn signin(&mut self, app: &str, user_id: &str, handle: ConnectionHandle) -> (r:
        UserJoinOutcome)
        requires
            old(self)@.valid(),
        ensures
            final(self)@.valid(),
            r.first_for_user == !old(self)@.online(app@, user_id@),
            final(self)@ == (RegistryModel {
                users: old(self)@.users.insert(
                    (app@, user_id@),
                    list_with(list_of(old(self)@.users, app@, user_id@), handle),
                ),
                ..old(self)@
            }),
    {
        let ghost m0 = self@;
        let list: Vec<ConnectionHandle> = get_list(&self.users, app, user_id);
        let first_for_user: bool = list.len() == 0;
        let mut next: Vec<ConnectionHandle> = remove_sid(&list, handle.socket_id);
        next.push(handle);
        handles_insert(&mut self.users, app, user_id, next);
        proof {
            assert forall|a: Seq<char>, u: Seq<char>, s: SocketId|
                self@.watched_by(a, u, s) implies self@.on_record(a, u, s) by {
                assert(m0.watched_by(a, u, s));
                assert(m0.on_record(a, u, s));
            }
        }
        UserJoinOutcome { first_for_user }
    }

    /// Signs a connection out; says whether the user went offline by it.
    pub fn signout(&mut self, app: &str, user_id: &str, socket_id: &SocketId) -> (r:
        UserLeaveOutcome)
        requires
            old(self)@.valid(),
        ensures
            final(self)@.valid(),
            r.last_for_user == (old(self)@.online(app@, user_id@) && list_without(
                list_of(old(self)@.users, app@, user_id@),
                *socket_id,
            ).len() == 0),
            final(self)@ == (RegistryModel {
                users: if old(self)@.online(app@, user_id@) {
                    with_list(
                        old(self)@.users,
                        app@,
                        user_id@,
                        list_without(list_of(old(self)@.users, app@, user_id@), *socket_id),
                    )
                } else {
                    old(self)@.users
                },
                ..old(self)@
            }),
    {
        let ghost m0 = self@;
        let list: Vec<ConnectionHandle> = get_list(&self.users, app, user_id);
        if list.len() == 0 {
            return UserLeaveOutcome { last_for_user: false };
        }
        let next: Vec<ConnectionHandle> = remove_sid(&list, *socket_id);
        let last_for_user: bool = next.len() == 0;
        put_list(&mut self.users, app, user_id, next);
        proof {
            assert forall|a: Seq<char>, u: Seq<char>, s: SocketId|
                self@.watched_by(a, u, s) implies self@.on_record(a, u, s) by {
                assert(m0.watched_by(a, u, s));
                assert(m0.on_record(a, u, s));
            }
        }
        UserLeaveOutcome { last_for_user }
    }

    /// The connections that a user is signed in on.
    pub fn handles(&self, app: &str, user_id: &str) -> (r: Vec<ConnectionHandle>)
        ensures
            r@ == list_of(self@.users, app@, user_id@),
    {
        get_list(&self.users, app, user_id)
    }

    /// Whether a user is signed in anywhere.
    pub fn is_online(&self, app: &str, user_id: &str) -> (b: bool)
        ensures
            b == self@.online(app@, user_id@),
    {
        get_list(&self.users, app, user_id).len() > 0
    }

    /// The connections that watch a user.
    pub fn watchers_of(&self, app: &str, user_id: &str) -> (r: Vec<ConnectionHandle>)
        ensures
            r@ == list_of(self@.watchers, app@, user_id@),
    {
        get_list(&self.watchers, app, user_id)
    }
}

impl UserRegistry {
    /// Makes a connection watch the given users and nobody else; gives back
    /// those of them that are online.
    pub fn watch(&mut self, app: &str, handle: ConnectionHandle, watched: Vec<String>) -> (r: Vec<
        String,
    >)
        requires
            old(self)@.valid(),
        ensures
            final(self)@.valid(),
            final(self)@.users == old(self)@.users,
            final(self)@.watching == old(self)@.watching.insert(
                (app@, handle.socket_id),
                names(watched@),
            ),
            old(self)@.watchers_after(final(self)@, app@, handle, names(watched@)),
            names(r@) == old(self)@.online_among(app@, names(watched@)),
    {
        let ghost m0 = self@;
        self.unwatch(app, &handle.socket_id);
        let ghost m1 = self@;
        let ghost all = names(watched@);
        let ghost sid = handle.socket_id;
        let mut online: Vec<String> = Vec::new();
        let mut i: usize = 0;
        proof {
            assert(all.take(0) =~= Seq::<Seq<char>>::empty());
            assert(names(online@) =~= Seq::<Seq<char>>::empty());
        }
        while i < watched.len()
            invariant
                i <= watched@.len(),
                all == names(watched@),
                sid == handle.socket_id,
                m0.unwatched_after(m1, app@, sid),
                self@.users == m0.users,
                self@.watching == m1.watching,
                no_empty_list(self@.watchers),
                m0.watchers_after(self@, app@, handle, all.take(i as int)),
                names(online@) == m0.online_among(app@, all.take(i as int)),
            decreases watched@.len() - i,
        {
            let ghost before = self@;
            let ghost w = all[i as int];
            let list: Vec<ConnectionHandle> = get_list(&self.watchers, app, watched[i].as_str());
            let mut next: Vec<ConnectionHandle> = remove_sid(&list, handle.socket_id);
            next.push(handle);
            handles_insert(&mut self.watchers, app, watched[i].as_str(), next);
            let ghost prior = online@;
            if self.is_online(app, watched[i].as_str()) {
                online.push(watched[i].clone());
                assert(names(online@) =~= names(prior).push(w));
            }
            proof {
                let done = all.take(i as int);
                let more = all.take(i + 1);
                assert(more =~= done.push(w));
                assert(more.drop_last() =~= done);
                assert(self@.online(app@, w) == m0.online(app@, w));
                assert forall|a: Seq<char>, u: Seq<char>| #[trigger]
                    list_of(self@.watchers, a, u) == if a == app@ && more.contains(u) {
                        list_with(list_of(m0.watchers, a, u), handle)
                    } else if a == app@ {
                        list_without(list_of(m0.watchers, a, u), sid)
                    } else {
                        list_of(m0.watchers, a, u)
                    } by {
                    let l0 = list_of(m0.watchers, a, u);
                    assert(list_of(before.watchers, a, u) == if a == app@ && done.contains(u) {
                        list_with(l0, handle)
                    } else if a == app@ {
                        list_without(l0, sid)
                    } else {
                        l0
                    });
                    if a == app@ && u == w {
                        assert(more[i as int] == u);
                        lemma_list_without_push(list_without(l0, sid), handle, sid);
                        lemma_list_without_push(l0, handle, sid);
                    } else {
                        if more.contains(u) && u != w {
                            let j = choose|j: int| 0 <= j < more.len() && more[j] == u;
                            assert(done[j] == u);
                        }
                        if done.contains(u) {
                            let j = choose|j: int| 0 <= j < done.len() && done[j] == u;
                            assert(more[j] == u);
                        }
                    }
                }
            }
            i = i + 1;
        }
        assert(all.take(i as int) =~= all);
        watches_insert(&mut self.watching, app, handle.socket_id, watched);
        proof {
            assert(self@.watching =~= m0.watching.insert((app@, sid), all));
            assert forall|a: Seq<char>, u: Seq<char>, s: SocketId| #[trigger]
                self@.watched_by(a, u, s) implies self@.on_record(a, u, s) by {
                let l0 = list_of(m0.watchers, a, u);
                assert(lists(list_of(self@.watchers, a, u), s));
                lemma_list_without(l0, sid, s);
                lemma_lists_push(list_without(l0, sid), handle, s);
                if a == app@ && s == sid {
                } else {
                    assert(m0.watched_by(a, u, s));
                    assert(m0.on_record(a, u, s));
                }
            }
        }
        online
    }

    /// Makes a connection watch nobody.
    pub fn unwatch(&mut self, app: &str, socket_id: &SocketId)
        requires
            old(self)@.valid(),
        ensures
            final(self)@.valid(),
            final(self)@.users == old(self)@.users,
            final(self)@.watching == old(self)@.watching.remove((app@, *socket_id)),
            old(self)@.unwatched_after(final(self)@, app@, *socket_id),
    {
        let ghost m0 = self@;
        let ghost sid = *socket_id;
        let watched: Vec<String> = match watches_remove(&mut self.watching, app, *socket_id) {
            Some(v) => v,
            None => {
                proof {
                    assert(self@.watching =~= m0.watching);
                    assert forall|a: Seq<char>, u: Seq<char>| #[trigger]
                        list_of(self@.watchers, a, u) == if a == app@ {
                            list_without(list_of(m0.watchers, a, u), sid)
                        } else {
                            list_of(m0.watchers, a, u)
                        } by {
                        if a == app@ {
                            assert(!m0.on_record(a, u, sid));
                            assert(!m0.watched_by(a, u, sid));
                            lemma_list_without(list_of(m0.watchers, a, u), sid, sid);
                        }
                    }
                }
                return;
            },
        };
        let ghost all = names(watched@);
        let mut i: usize = 0;
        while i < watched.len()
            invariant
                i <= watched@.len(),
                all == names(watched@),
                sid == *socket_id,
                self@.users == m0.users,
                self@.watching == m0.watching.remove((app@, sid)),
                no_empty_list(self@.watchers),
                forall|a: Seq<char>, u: Seq<char>| #[trigger]
                    list_of(self@.watchers, a, u) == if a == app@ && all.take(i as int).contains(u) {
                        list_without(list_of(m0.watchers, a, u), sid)
                    } else {
                        list_of(m0.watchers, a, u)
                    },
            decreases watched@.len() - i,
        {
            let ghost before = self@;
            let ghost w = all[i as int];
            let list: Vec<ConnectionHandle> = get_list(&self.watchers, app, watched[i].as_str());
            let next: Vec<ConnectionHandle> = remove_sid(&list, *socket_id);
            put_list(&mut self.watchers, app, watched[i].as_str(), next);
            proof {
                let done = all.take(i as int);
                let more = all.take(i + 1);
                assert(more =~= done.push(w));
                assert forall|a: Seq<char>, u: Seq<char>| #[trigger]
                    list_of(self@.watchers, a, u) == if a == app@ && more.contains(u) {
                        list_without(list_of(m0.watchers, a, u), sid)
                    } else {
                        list_of(m0.watchers, a, u)
                    } by {
                    let l0 = list_of(m0.watchers, a, u);
                    assert(list_of(before.watchers, a, u) == if a == app@ && done.contains(u) {
                        list_without(l0, sid)
                    } else {
                        l0
                    });
                    if a == app@ && u == w {
                        assert(more[i as int] == u);
                        lemma_list_without(l0, sid, sid);
                        lemma_list_without(list_without(l0, sid), sid, sid);
                    } else {
                        if more.contains(u) && u != w {
                            let j = choose|j: int| 0 <= j < more.len() && more[j] == u;
                            assert(done[j] == u);
                        }
                        if done.contains(u) {
                            let j = choose|j: int| 0 <= j < done.len() && done[j] == u;
                            assert(more[j] == u);
                        }
                    }
                }
            }
            i = i + 1;
        }
        proof {
            assert(all.take(i as int) =~= all);
            assert forall|a: Seq<char>, u: Seq<char>| #[trigger]
                list_of(self@.watchers, a, u) == if a == app@ {
                    list_without(list_of(m0.watchers, a, u), sid)
                } else {
                    list_of(m0.watchers, a, u)
                } by {
                if a == app@ && !all.contains(u) {
                    assert(!m0.on_record(a, u, sid));
                    assert(!m0.watched_by(a, u, sid));
                    lemma_list_without(list_of(m0.watchers, a, u), sid, sid);
                }
            }
            assert forall|a: Seq<char>, u: Seq<char>, s: SocketId| #[trigger]
                self@.watched_by(a, u, s) implies self@.on_record(a, u, s) by {
                assert(lists(list_of(self@.watchers, a, u), s));
                lemma_list_without(list_of(m0.watchers, a, u), sid, s);
                assert(m0.watched_by(a, u, s));
                assert(m0.on_record(a, u, s));
            }
        }
    }
}

/// Signing a new connection out undoes signing it in: the user's connections,
/// and so whether the user is online, are as before.
pub proof fn signout_undoes_signin(
    m: Map<(Seq<char>, Seq<char>), Seq<ConnectionHandle>>,
    app: Seq<char>,
    user: Seq<char>,
    h: ConnectionHandle,
)
    requires
        no_empty_list(m),
        !lists(list_of(m, app, user), h.socket_id),
    ensures
        ({
            let signed = m.insert((app, user), list_with(list_of(m, app, user), h));
            with_list(
                signed,
                app,
                user,
                list_without(list_of(signed, app, user), h.socket_id),
            ) == m
        }),
{
    let l = list_of(m, app, user);
    let signed = m.insert((app, user), list_with(l, h));
    lemma_list_without(l, h.socket_id, h.socket_id);
    lemma_list_without_push(l, h, h.socket_id);
    assert(list_of(signed, app, user) == l.push(h));
    if m.dom().contains((app, user)) {
        assert(signed.insert((app, user), l) =~= m);
    } else {
        assert(signed.remove((app, user)) =~= m);
    }
}

/// A connection that watches again is a watcher of exactly the users on its
/// new list: nothing of the old list stays behind.
pub proof fn rewatching_leaves_nothing_behind(
    before: RegistryModel,
    after: RegistryModel,
    app: Seq<char>,
    handle: ConnectionHandle,
    users: Seq<Seq<char>>,
    user: Seq<char>,
)
    requires
        before.watchers_after(after, app, handle, users),
    ensures
        after.watched_by(app, user, handle.socket_id) <==> users.contains(user),
{
    let l0 = list_of(before.watchers, app, user);
    assert(lists(list_of(after.watchers, app, user), handle.socket_id) == after.watched_by(
        app,
        user,
        handle.socket_id,
    ));
    lemma_list_without(l0, handle.socket_id, handle.socket_id);
    lemma_lists_push(list_without(l0, handle.socket_id), handle, handle.socket_id);
}

/// What one connection watches does not change who else watches.
pub proof fn watching_spares_others(
    before: RegistryModel,
    after: RegistryModel,
    app: Seq<char>,
    handle: ConnectionHandle,
    users: Seq<Seq<char>>,
    a: Seq<char>,
    user: Seq<char>,
    sid: SocketId,
)
    requires
        before.watchers_after(after, app, handle, users),
        (a, sid) != (app, handle.socket_id),
    ensures
        after.watched_by(a, user, sid) == before.watched_by(a, user, sid),
{
    let l0 = list_of(before.watchers, a, user);
    assert(lists(list_of(after.watchers, a, user), sid) == after.watched_by(a, user, sid));
    lemma_list_without(l0, handle.socket_id, sid);
    lemma_lists_push(list_without(l0, handle.socket_id), handle, sid);
}

/// Taking a connection out of a list takes out exactly the entries with its socket id
/// and leaves the others in their order; putting one in puts it last, in place of any
/// entry with its socket id.
pub proof fn a_connection_is_listed_once(
    s: Seq<ConnectionHandle>,
    h: ConnectionHandle,
    sid: SocketId,
)
    ensures
        list_without(s, sid) == s.filter(|x: ConnectionHandle| x.socket_id != sid),
        list_with(s, h) == s.filter(|x: ConnectionHandle| x.socket_id != h.socket_id).push(h),
        lists(list_without(s, sid), sid) == false,
        lists(list_with(s, h), sid) <==> sid == h.socket_id || lists(s, sid),
        forall|i: int|
            0 <= i < list_with(s, h).len() - 1 ==> (#[trigger] list_with(s, h)[i]).socket_id
                != h.socket_id,
    decreases s.len(),
{
    lemma_without_is_filter(s, sid);
    lemma_without_is_filter(s, h.socket_id);
    lemma_list_without(s, sid, sid);
    lemma_list_without(s, h.socket_id, sid);
    lemma_list_without(s, h.socket_id, h.socket_id);
    let rest = list_without(s, h.socket_id);
    lemma_lists_push(rest, h, sid);
    assert forall|i: int| 0 <= i < list_with(s, h).len() - 1 implies (#[trigger] list_with(
        s,
        h,
    )[i]).socket_id != h.socket_id by {
        assert(list_with(s, h)[i] == rest[i]);
        if rest[i].socket_id == h.socket_id {
            assert(lists(rest, h.socket_id));
        }
    }
}

proof fn lemma_without_is_filter(s: Seq<ConnectionHandle>, sid: SocketId)
    ensures
        list_without(s, sid) == s.filter(|x: ConnectionHandle| x.socket_id != sid),
    decreases s.len(),
{
    reveal(Seq::filter);
    if s.len() > 0 {
        lemma_without_is_filter(s.drop_last(), sid);
    }
}

/// The users on a list that are online are those with a connection signed in, in the
/// order of the list.
pub proof fn the_online_are_signed_in(m: RegistryModel, app: Seq<char>, users: Seq<Seq<char>>)
    ensures
        m.online_among(app, users) == users.filter(
            |u: Seq<char>| m.users.dom().contains((app, u)) && m.users[(app, u)].len() > 0,
        ),
    decreases users.len(),
{
    reveal(Seq::filter);
    if users.len() > 0 {
        the_online_are_signed_in(m, app, users.drop_last());
    }
}

/// A user is online from the first sign-in of a connection to the sign-out of the
/// last, and no other user of the app, nor of any other app, is affected.
pub proof fn users_are_online_while_signed_in(
    m: RegistryModel,
    app: Seq<char>,
    user: Seq<char>,
    h: ConnectionHandle,
    other: (Seq<char>, Seq<char>),
)
    ensures
        ({
            let after = RegistryModel {
                users: m.users.insert((app, user), list_with(list_of(m.users, app, user), h)),
                ..m
            };
            &&& after.online(app, user)
            &&& lists(list_of(after.users, app, user), h.socket_id)
            &&& other != (app, user) ==> list_of(after.users, other.0, other.1) == list_of(
                m.users,
                other.0,
                other.1,
            )
        }),
        ({
            let left = list_without(list_of(m.users, app, user), h.socket_id);
            let after = RegistryModel { users: with_list(m.users, app, user, left), ..m };
            &&& after.online(app, user) <==> exists|i: int|
                0 <= i < list_of(m.users, app, user).len() && (#[trigger] list_of(
                    m.users,
                    app,
                    user,
                )[i]).socket_id != h.socket_id
            &&& !lists(list_of(after.users, app, user), h.socket_id)
            &&& other != (app, user) ==> list_of(after.users, other.0, other.1) == list_of(
                m.users,
                other.0,
                other.1,
            )
        }),
{
    let l = list_of(m.users, app, user);
    a_connection_is_listed_once(l, h, h.socket_id);
    let left = list_without(l, h.socket_id);
    if left.len() > 0 {
        let sid = left[0].socket_id;
        assert(lists(left, sid));
        lemma_list_without(l, h.socket_id, sid);
        let i = choose|i: int| 0 <= i < l.len() && (#[trigger] l[i]).socket_id == sid;
        assert(l[i].socket_id != h.socket_id);
    }
    if exists|i: int| 0 <= i < l.len() && (#[trigger] l[i]).socket_id != h.socket_id {
        let i = choose|i: int| 0 <= i < l.len() && (#[trigger] l[i]).socket_id != h.socket_id;
        assert(lists(l, l[i].socket_id));
        lemma_list_without(l, h.socket_id, l[i].socket_id);
        assert(left.len() > 0);
    }
}

/// A connection that stops watching watches nobody, and everybody else watches whom
/// they did.
pub proof fn unwatching_is_complete(
    before: RegistryModel,
    after: RegistryModel,
    app: Seq<char>,
    sid: SocketId,
    a: Seq<char>,
    user: Seq<char>,
    other: SocketId,
)
    requires
        before.unwatched_after(after, app, sid),
    ensures
        !after.watched_by(app, user, sid),
        (a, other) != (app, sid) ==> after.watched_by(a, user, other) == before.watched_by(
            a,
            user,
            other,
        ),
{
    let l = list_of(before.watchers, app, user);
    assert(lists(list_of(after.watchers, app, user), sid) == after.watched_by(app, user, sid));
    lemma_list_without(l, sid, sid);
    let l2 = list_of(before.watchers, a, user);
    assert(lists(list_of(after.watchers, a, user), other) == after.watched_by(a, user, other));
    lemma_list_without(l2, sid, other);
}

/// What a connection is recorded to watch is what it asked for last, user for user, and
/// nothing once it has stopped.
pub proof fn records_are_what_was_asked(
    m: RegistryModel,
    app: Seq<char>,
    sid: SocketId,
    users: Seq<Seq<char>>,
    user: Seq<char>,
)
    ensures
        (RegistryModel { watching: m.watching.insert((app, sid), users), ..m }).on_record(
            app,
            user,
            sid,
        ) <==> users.contains(user),
        !(RegistryModel { watching: m.watching.remove((app, sid)), ..m }).on_record(app, user, sid),
{
}

} // verus!
