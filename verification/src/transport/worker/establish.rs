//! Admission of a connection to a session.
//!
//! A session counts against the node's ceiling and against its app's capacity.
//! Both counts are taken when a session is admitted and given back when it ends;
//! a refusal leaves them as they were.
use dashmap::DashMap;
use vstd::prelude::*;

verus! {

/// The concurrent map that holds the per-app counts.
#[verifier::external_type_specification]
#[verifier::external_body]
#[verifier::reject_recursive_types(K)]
#[verifier::reject_recursive_types(V)]
#[verifier::reject_recursive_types(S)]
pub struct ExDashMap<K, V, S>(dashmap::DashMap<K, V, S>);

/// What a map of counts holds.
pub uninterp spec fn counts_of(m: DashMap<String, usize>) -> Map<Seq<char>, usize>;

/// `DashMap::new`: an empty map.
#[verifier::external_body]
fn counts_new() -> (r: DashMap<String, usize>)
    ensures
        counts_of(r).dom() == Set::<Seq<char>>::empty(),
{
    DashMap::new()
}

/// `DashMap::get`: the value under a key.
#[verifier::external_body]
fn counts_get(m: &DashMap<String, usize>, key: &str) -> (r: Option<usize>)
    ensures
        match r {
            Some(n) => counts_of(*m).dom().contains(key@) && n == counts_of(*m)[key@],
            None => !counts_of(*m).dom().contains(key@),
        },
{
    m.get(key).map(|n| *n)
}

/// `DashMap::insert`: the key holds the value, all others are as before.
#[verifier::external_body]
fn counts_insert(m: &mut DashMap<String, usize>, key: &str, n: usize)
    ensures
        counts_of(*final(m)) == counts_of(*old(m)).insert(key@, n),
{
    m.insert(key.to_owned(), n);
}

/// `DashMap::remove`: the key holds nothing, all others are as before.
#[verifier::external_body]
fn counts_remove(m: &mut DashMap<String, usize>, key: &str)
    ensures
        counts_of(*final(m)) == counts_of(*old(m)).remove(key@),
{
    m.remove(key);
}

/// Why a connection gets no session.
#[derive(Debug, Clone, Copy, PartialEq, Eq, Structural)]
pub enum Refusal {
    /// The path is not that of an app.
    PathNotFound,
    /// No app has this key.
    AppNotFound,
    /// The app is disabled.
    AppDisabled,
    /// The app could not be looked up.
    BackendUnavailable,
    /// The node is full or under memory pressure.
    ServerOverCapacity,
    /// The app is full.
    OverCapacity,
}

impl Refusal {
    /// The close code of a refusal.
    pub open spec fn close_code(self) -> u16 {
        match self {
            Refusal::AppNotFound => 4001,
            Refusal::AppDisabled => 4003,
            Refusal::OverCapacity => 4004,
            Refusal::PathNotFound => 4005,
            Refusal::ServerOverCapacity => 4100,
            Refusal::BackendUnavailable => 4103,
        }
    }

    /// The close code of a refusal.
    pub fn code(self) -> (c: u16)
        ensures
            c == self.close_code(),
    {
        match self {
            Refusal::AppNotFound => 4001,
            Refusal::AppDisabled => 4003,
            Refusal::OverCapacity => 4004,
            Refusal::PathNotFound => 4005,
            Refusal::ServerOverCapacity => 4100,
            Refusal::BackendUnavailable => 4103,
        }
    }
}

/// The outcome of looking an app up by its key.
#[derive(Debug, Clone, Copy, PartialEq, Eq, Structural)]
pub enum Lookup {
    /// The app, with its capacity; `0` is unlimited.
    Found(u32),
    Disabled,
    NotFound,
    /// The lookup itself failed.
    Failed,
}

/// What a lookup comes to.
pub open spec fn after_lookup(l: Lookup) -> Result<u32, Refusal> {
    match l {
        Lookup::Found(capacity) => Ok(capacity),
        Lookup::Disabled => Err(Refusal::AppDisabled),
        Lookup::NotFound => Err(Refusal::AppNotFound),
        Lookup::Failed => Err(Refusal::BackendUnavailable),
    }
}

/// What a lookup means for the connection: the capacity of the app to admit it
/// to, or the refusal.
pub fn lookup_outcome(l: Lookup) -> (r: Result<u32, Refusal>)
    ensures
        r == after_lookup(l),
{
    match l {
        Lookup::Found(capacity) => Ok(capacity),
        Lookup::Disabled => Err(Refusal::AppDisabled),
        Lookup::NotFound => Err(Refusal::AppNotFound),
        Lookup::Failed => Err(Refusal::BackendUnavailable),
    }
}

/// What admission still needs.
#[derive(Debug, Clone, Copy, PartialEq, Eq, Structural)]
pub enum Admitted {
    /// The session is admitted.
    Done,
    /// The app has a capacity: the cluster has the last word, if there is one.
    AskCluster,
}

/// The counts that admission keeps.
pub struct Admission {
    node_conns: usize,
    counts: DashMap<String, usize>,
}

/// The counts as contracts see them.
pub struct Counts {
    pub node: nat,
    /// Sessions by app; an app that is absent has none.
    pub apps: Map<Seq<char>, usize>,
}

impl Counts {
    /// The number of sessions of an app.
    pub open spec fn of(self, app: Seq<char>) -> nat {
        if self.apps.dom().contains(app) {
            self.apps[app] as nat
        } else {
            0
        }
    }

    /// The same number of sessions everywhere.
    pub open spec fn same(self, other: Counts) -> bool {
        &&& self.node == other.node
        &&& forall|a: Seq<char>| #[trigger] self.of(a) == other.of(a)
    }

    /// One session of `app` more than in `before`.
    pub open spec fn one_more(self, before: Counts, app: Seq<char>) -> bool {
        &&& self.node == before.node + 1
        &&& self.of(app) == before.of(app) + 1
        &&& forall|a: Seq<char>| a != app ==> #[trigger] self.of(a) == before.of(a)
    }

    /// Both counts can go up by one.
    pub open spec fn has_room(self, app: Seq<char>) -> bool {
        self.node < usize::MAX && self.of(app) < usize::MAX
    }
}

impl View for Admission {
    type V = Counts;

    closed spec fn view(&self) -> Counts {
        Counts { node: self.node_conns as nat, apps: counts_of(self.counts) }
    }
}

/// The verdict of the local checks, in order: the node's ceiling, then memory
/// pressure, then the app's capacity. A limit of `0` is no limit.
pub open spec fn local_verdict(
    c: Counts,
    app: Seq<char>,
    capacity: u32,
    max_connections: usize,
    saturated: bool,
) -> Result<Admitted, Refusal> {
    if max_connections != 0 && c.node >= max_connections {
        Err(Refusal::ServerOverCapacity)
    } else if saturated {
        Err(Refusal::ServerOverCapacity)
    } else if capacity != 0 && c.of(app) >= capacity {
        Err(Refusal::OverCapacity)
    } else if capacity != 0 {
        Ok(Admitted::AskCluster)
    } else {
        Ok(Admitted::Done)
    }
}

impl Admission {
    pub fn new() -> (a: Admission)
        ensures
            a@.node == 0,
            a@.apps == Map::<Seq<char>, usize>::empty(),
    {
        let a = Admission { node_conns: 0, counts: counts_new() };
        assert(a@.apps =~= Map::<Seq<char>, usize>::empty());
        a
    }

    /// The number of sessions on this node.
    pub fn node_conns(&self) -> (n: usize)
        ensures
            n == self@.node,
    {
        self.node_conns
    }

    /// The number of sessions of an app.
    pub fn app_conns(&self, app: &str) -> (n: usize)
        ensures
            n == self@.of(app@),
    {
        match counts_get(&self.counts, app) {
            Some(n) => n,
            None => 0,
        }
    }

    /// Takes the counts for a new session of `app` if the local checks pass.
    pub fn finish_establish(
        &mut self,
        app: &str,
        capacity: u32,
        max_connections: usize,
        saturated: bool,
    ) -> (r: Result<Admitted, Refusal>)
        requires
            old(self)@.has_room(app@),
        ensures
            r == local_verdict(old(self)@, app@, capacity, max_connections, saturated),
            r is Ok ==> final(self)@.one_more(old(self)@, app@),
            r is Err ==> final(self)@.same(old(self)@),
    {
        if max_connections != 0 && self.node_conns >= max_connections {
            return Err(Refusal::ServerOverCapacity);
        }
        if saturated {
            return Err(Refusal::ServerOverCapacity);
        }
        let current: usize = self.app_conns(app);
        if capacity != 0 && current >= capacity as usize {
            return Err(Refusal::OverCapacity);
        }
        self.node_conns = self.node_conns + 1;
        counts_insert(&mut self.counts, app, current + 1);
        if capacity != 0 {
            Ok(Admitted::AskCluster)
        } else {
            Ok(Admitted::Done)
        }
    }

    /// Applies the cluster's verdict to a session that passed the local checks: a
    /// refusal gives the counts back; no verdict lets the session in, without a
    /// unit of the cluster's capacity. Says whether such a unit was taken.
    pub fn apply_cluster_verdict(&mut self, app: &str, verdict: Option<bool>) -> (r: Result<
        bool,
        Refusal,
    >)
        requires
            old(self)@.node > 0,
            old(self)@.of(app@) > 0,
        ensures
            r == (match verdict {
                Some(true) => Ok::<bool, Refusal>(true),
                Some(false) => Err(Refusal::OverCapacity),
                None => Ok(false),
            }),
            r is Ok ==> final(self)@ == old(self)@,
            r is Err ==> old(self)@.one_more(final(self)@, app@),
    {
        match verdict {
            Some(true) => Ok(true),
            Some(false) => {
                self.release(app);
                Err(Refusal::OverCapacity)
            },
            None => Ok(false),
        }
    }

    /// Gives back the counts of a session that ends; an app without sessions
    /// leaves no entry behind.
    pub fn release(&mut self, app: &str)
        requires
            old(self)@.node > 0,
            old(self)@.of(app@) > 0,
        ensures
            old(self)@.one_more(final(self)@, app@),
            final(self)@.of(app@) == 0 ==> !final(self)@.apps.dom().contains(app@),
    {
        let n: usize = self.app_conns(app);
        if n == 1 {
            counts_remove(&mut self.counts, app);
        } else {
            counts_insert(&mut self.counts, app, n - 1);
        }
        self.node_conns = self.node_conns - 1;
    }
}

/// A session that is admitted and then ends leaves every count as it was.
pub proof fn admission_is_undone_by_release(before: Counts, during: Counts, after: Counts, app: Seq<char>)
    requires
        during.one_more(before, app),
        during.one_more(after, app),
    ensures
        after.same(before),
{
    assert forall|a: Seq<char>| #[trigger] after.of(a) == before.of(a) by {
        if a != app {
            assert(during.of(a) == before.of(a));
            assert(during.of(a) == after.of(a));
        }
    }
}

/// The limits hold: the node's ceiling and the app's capacity are never exceeded
/// by an admission.
pub proof fn admission_respects_limits(
    before: Counts,
    after: Counts,
    app: Seq<char>,
    capacity: u32,
    max_connections: usize,
    saturated: bool,
)
    requires
        local_verdict(before, app, capacity, max_connections, saturated) is Ok,
        after.one_more(before, app),
    ensures
        max_connections != 0 ==> after.node <= max_connections,
        capacity != 0 ==> after.of(app) <= capacity,
        !saturated,
{
}

/// The codes are those of the Pusher protocol: each refusal has its own, those from
/// 4000 to 4099 tell the client not to come back unchanged, and those from 4100 to
/// 4199 to come back later.
pub proof fn refusals_have_their_codes(a: Refusal, b: Refusal)
    ensures
        a.close_code() == b.close_code() ==> a == b,
        4000 <= a.close_code() < 4200,
        a.close_code() >= 4100 <==> a == Refusal::ServerOverCapacity || a
            == Refusal::BackendUnavailable,
        a.close_code() == (match a {
            Refusal::AppNotFound => 4001u16,
            Refusal::AppDisabled => 4003,
            Refusal::OverCapacity => 4004,
            Refusal::PathNotFound => 4005,
            Refusal::ServerOverCapacity => 4100,
            Refusal::BackendUnavailable => 4103,
        }),
{
}

/// A lookup admits exactly the apps that it found, with their own capacity; an app
/// that is disabled, unknown or could not be looked up is each refused as such.
pub proof fn lookups_decide(l: Lookup, capacity: u32)
    ensures
        after_lookup(l) == Ok::<u32, Refusal>(capacity) <==> l == Lookup::Found(capacity),
        after_lookup(l) == Err::<u32, _>(Refusal::AppDisabled) <==> l == Lookup::Disabled,
        after_lookup(l) == Err::<u32, _>(Refusal::AppNotFound) <==> l == Lookup::NotFound,
        after_lookup(l) == Err::<u32, _>(Refusal::BackendUnavailable) <==> l == Lookup::Failed,
{
}

/// Who is admitted. A node at its limit or under saturation refuses as over capacity
/// whatever the app; else an app at its limit refuses; every other connection is
/// admitted, and the cluster is asked exactly where the app has a limit. A limit of
/// zero is none.
pub proof fn admission_is_exact(
    c: Counts,
    app: Seq<char>,
    capacity: u32,
    max_connections: usize,
    saturated: bool,
)
    ensures
        ({
            let r = local_verdict(c, app, capacity, max_connections, saturated);
            let node_full = max_connections > 0 && c.node + 1 > max_connections;
            let app_full = capacity > 0 && c.of(app) + 1 > capacity;
            &&& r == Err::<Admitted, _>(Refusal::ServerOverCapacity) <==> node_full || saturated
            &&& r == Err::<Admitted, _>(Refusal::OverCapacity) <==> app_full && !node_full
                && !saturated
            &&& r is Ok <==> !node_full && !saturated && !app_full
            &&& r is Ok ==> (r == Ok::<_, Refusal>(Admitted::AskCluster) <==> capacity > 0)
            &&& r is Ok ==> (r == Ok::<_, Refusal>(Admitted::Done) <==> capacity == 0)
        }),
{
}

/// A connection counts once on the node and once for its app, and for no other app;
/// two connections of one app count twice.
pub proof fn connections_are_counted_once(
    before: Counts,
    during: Counts,
    after: Counts,
    app: Seq<char>,
    other: Seq<char>,
)
    requires
        during.one_more(before, app),
        after.one_more(during, app),
        other != app,
    ensures
        during.node == before.node + 1,
        after.node == before.node + 2,
        during.of(app) == before.of(app) + 1,
        after.of(app) == before.of(app) + 2,
        after.of(other) == before.of(other),
{
    assert(during.of(other) == before.of(other));
}

} // verus!
