//! Per-connection rate limit for client events.
//!
//! A bucket holds at most `limit` tokens and refills continuously at `limit`
//! tokens a second; an event costs one token. A limit of zero turns the limit
//! off. Tokens are counted in billionths and time in nanoseconds, so that a
//! nanosecond refills exactly `limit` billionths.
use std::time::Instant;
use vstd::prelude::*;

verus! {

/// Billionths in a token, and nanoseconds in a second.
pub const TOKEN: u64 = 1_000_000_000;

/// `std::time::Instant`, carried through without looking inside.
#[verifier::external_type_specification]
#[verifier::external_body]
pub struct ExInstant(Instant);

/// `Instant::now`. Nothing is claimed of which instant it is.
#[verifier::external_body]
fn instant_now() -> (r: Instant) {
    Instant::now()
}

/// `Instant::elapsed`, in nanoseconds. Nothing is claimed of how many.
#[verifier::external_body]
fn nanos_since(origin: &Instant) -> (r: u64) {
    origin.elapsed().as_nanos() as u64
}

/// A bucket as contracts see it.
pub struct RateModel {
    pub limit: nat,
    /// Billionths of a token in the bucket.
    pub tokens: nat,
    /// When the bucket was last checked.
    pub last: Option<nat>,
}

impl RateModel {
    /// The bucket never holds more than its limit.
    pub open spec fn valid(self) -> bool {
        self.tokens <= self.limit * TOKEN
    }

    /// What the bucket holds at `now`, before an event is paid for. The first
    /// check finds it full; time that runs backwards refills nothing.
    pub open spec fn refilled(self, now: nat) -> nat {
        let cap = self.limit * (TOKEN as nat);
        match self.last {
            None => cap,
            Some(prev) => {
                let gained = if now >= prev {
                    ((now - prev) as nat) * self.limit
                } else {
                    0
                };
                if self.tokens + gained >= cap {
                    cap
                } else {
                    self.tokens + gained
                }
            },
        }
    }

    /// An event at `now` may pass.
    pub open spec fn allows(self, now: nat) -> bool {
        self.limit == 0 || self.refilled(now) >= TOKEN
    }

    /// The bucket after an event at `now`.
    pub open spec fn checked(self, now: nat) -> RateModel {
        if self.limit == 0 {
            self
        } else {
            RateModel {
                limit: self.limit,
                tokens: if self.allows(now) {
                    (self.refilled(now) - TOKEN) as nat
                } else {
                    self.refilled(now)
                },
                last: Some(now),
            }
        }
    }

    /// The bucket after events at each of the times.
    pub open spec fn after(self, times: Seq<nat>) -> RateModel
        decreases times.len(),
    {
        if times.len() == 0 {
            self
        } else {
            self.after(times.drop_last()).checked(times.last())
        }
    }

    /// How many of the events pass.
    pub open spec fn passed(self, times: Seq<nat>) -> nat
        decreases times.len(),
    {
        if times.len() == 0 {
            0
        } else {
            self.passed(times.drop_last()) + if self.after(times.drop_last()).allows(times.last()) {
                1nat
            } else {
                0nat
            }
        }
    }
}

/// The token bucket of one connection.
#[derive(Debug)]
pub struct RateWindow {
    limit: u32,
    tokens: u64,
    last: Option<u64>,
    origin: Instant,
}

impl View for RateWindow {
    type V = RateModel;

    closed spec fn view(&self) -> RateModel {
        RateModel {
            limit: self.limit as nat,
            tokens: self.tokens as nat,
            last: match self.last {
                Some(t) => Some(t as nat),
                None => None,
            },
        }
    }
}

/// Calls `clock` and hands its answer on.
fn moment<F: Fn() -> Instant>(clock: F) -> (t: Instant)
    requires
        call_requires(clock, ()),
    ensures
        call_ensures(clock, (), t),
{
    clock()
}

/// `t` is an answer of `Instant::now`.
pub closed spec fn starts_now(t: Instant) -> bool {
    call_ensures(instant_now, (), t)
}

/// Calls `clock` on `origin` and hands its answer on.
fn reading<F: Fn(&Instant) -> u64>(clock: F, origin: &Instant) -> (r: u64)
    requires
        call_requires(clock, (origin,)),
    ensures
        call_ensures(clock, (origin,), r),
{
    clock(origin)
}

impl RateWindow {
    /// Some reading of the window's clock is `now`: the nanoseconds that
    /// `nanos_since` answers for the instant at which the window was made.
    pub closed spec fn clock_reads(self, now: u64) -> bool {
        call_ensures(nanos_since, (&self.origin,), now)
    }

    /// The instant from which the window's clock counts.
    pub closed spec fn counts_from(self) -> Instant {
        self.origin
    }

    /// A full bucket for `limit` events a second.
    pub fn new(limit: u32) -> (w: RateWindow)
        ensures
            w@ == (RateModel { limit: limit as nat, tokens: limit as nat * TOKEN as nat, last: None }),
            w@.valid(),
            starts_now(w.counts_from()),
    {
        let origin: Instant = moment(instant_now);
        assert(starts_now(origin));
        RateWindow { limit, tokens: limit as u64 * TOKEN, last: None, origin }
    }

    /// Checks one event at `now_ns` nanoseconds: true if it may pass, and it is
    /// then paid for.
    pub fn check_at(&mut self, now_ns: u64) -> (allowed: bool)
        requires
            old(self)@.valid(),
        ensures
            final(self)@.valid(),
            allowed == old(self)@.allows(now_ns as nat),
            final(self)@ == old(self)@.checked(now_ns as nat),
            final(self).counts_from() == old(self).counts_from(),
    {
        if self.limit == 0 {
            return true;
        }
        let cap: u64 = self.limit as u64 * TOKEN;
        let held: u64 = match self.last {
            None => cap,
            Some(prev) => {
                let elapsed: u64 = if now_ns >= prev {
                    now_ns - prev
                } else {
                    0
                };
                proof {
                    assert(elapsed as int * self.limit as int <= u64::MAX * u32::MAX) by (nonlinear_arith)
                        requires
                            0 <= elapsed <= u64::MAX,
                            0 <= self.limit <= u32::MAX,
                    ;
                }
                let gained: u128 = elapsed as u128 * self.limit as u128;
                let sum: u128 = self.tokens as u128 + gained;
                if sum >= cap as u128 {
                    cap
                } else {
                    sum as u64
                }
            },
        };
        assert(held as nat == self@.refilled(now_ns as nat));
        self.last = Some(now_ns);
        if held >= TOKEN {
            self.tokens = held - TOKEN;
            true
        } else {
            self.tokens = held;
            false
        }
    }

    /// Checks one event now.
    pub fn check(&mut self) -> (allowed: bool)
        requires
            old(self)@.valid(),
        ensures
            final(self)@.valid(),
            exists|now: nat| #[trigger]
                old(self)@.checked(now) == final(self)@ && allowed == old(self)@.allows(now),
            exists|now: u64| #[trigger]
                old(self).clock_reads(now) && allowed == old(self)@.allows(now as nat) && final(self)@
                    == old(self)@.checked(now as nat),
            final(self).counts_from() == old(self).counts_from(),
    {
        let now_ns: u64 = reading(nanos_since, &self.origin);
        let ghost before = *self;
        let allowed: bool = self.check_at(now_ns);
        assert(before@.checked(now_ns as nat) == self@);
        assert(before.clock_reads(now_ns));
        allowed
    }
}

/// Each time is no earlier than the one before it.
pub open spec fn in_order(times: Seq<nat>) -> bool {
    forall|i: int, j: int| 0 <= i <= j < times.len() ==> times[i] <= times[j]
}

proof fn lemma_budget(m: RateModel, times: Seq<nat>)
    requires
        m.valid(),
        m.limit > 0,
        times.len() > 0,
        in_order(times),
    ensures
        m.after(times).limit == m.limit,
        m.after(times).last == Some(times.last()),
        m.passed(times) * TOKEN + m.after(times).tokens <= m.limit * TOKEN + (times.last() - times[0])
            * m.limit,
    decreases times.len(),
{
    let rest = times.drop_last();
    let now = times.last();
    if rest.len() == 0 {
        assert(m.after(rest) == m);
        assert(m.passed(rest) == 0);
        assert((now - times[0]) * m.limit == 0) by (nonlinear_arith)
            requires
                now == times[0],
        ;
    } else {
        lemma_budget(m, rest);
        let mid = m.after(rest);
        let prev = rest.last();
        assert(prev == times[times.len() - 2]);
        assert(prev <= now);
        assert(rest[0] == times[0]);
        assert(((now - prev) as nat) * m.limit + (prev - times[0]) * m.limit == (now - times[0])
            * m.limit) by (nonlinear_arith)
            requires
                prev <= now,
        ;
    }
}

/// However the events fall, no more pass in any stretch of time than the
/// limit plus what the stretch refills: a burst is bounded, and no edge of a
/// second lets through twice the limit.
pub proof fn bursts_are_bounded(m: RateModel, times: Seq<nat>)
    requires
        m.valid(),
        m.limit > 0,
        times.len() > 0,
        in_order(times),
    ensures
        m.passed(times) * TOKEN <= m.limit * TOKEN + (times.last() - times[0]) * m.limit,
{
    lemma_budget(m, times);
}

/// Events that come no faster than the limit all pass, for as long as they
/// keep coming.
pub proof fn a_steady_rate_passes(m: RateModel, times: Seq<nat>)
    requires
        m.valid(),
        m.limit > 0,
        m.last is None,
        in_order(times),
        forall|i: int|
            0 < i < times.len() ==> (#[trigger] times[i] - times[i - 1]) * m.limit >= TOKEN,
    ensures
        m.passed(times) == times.len(),
        m.after(times).limit == m.limit,
        times.len() == 0 ==> m.after(times) == m,
        times.len() > 0 ==> m.after(times).last == Some(times.last()),
    decreases times.len(),
{
    if times.len() > 0 {
        let rest = times.drop_last();
        assert forall|i: int| 0 < i < rest.len() implies (#[trigger] rest[i] - rest[i - 1]) * m.limit
            >= TOKEN by {
            assert(rest[i] == times[i] && rest[i - 1] == times[i - 1]);
        }
        a_steady_rate_passes(m, rest);
        let n = times.len() - 1;
        if rest.len() > 0 {
            assert((times[n] - times[n - 1]) * m.limit >= TOKEN);
            assert(times[n - 1] == rest.last());
            assert(times[n - 1] <= times[n]);
        }
        assert(m.limit * (TOKEN as nat) >= TOKEN) by (nonlinear_arith)
            requires
                m.limit >= 1,
        ;
        assert(m.after(rest).allows(times.last()));
    }
}

/// The clock of a window is `Instant::elapsed` of the instant at which the window
/// was made, in nanoseconds and unscaled.
proof fn the_clock_is_the_elapsed_time(w: RateWindow, now: u64)
    ensures
        w.clock_reads(now) <==> call_ensures(nanos_since, (&w.counts_from(),), now),
{
}

/// The `n` times of a burst: all of them `now`.
pub open spec fn burst(now: nat, n: nat) -> Seq<nat> {
    Seq::new(n, |i: int| now)
}

/// Of a burst on a window that has not been checked, exactly the first `limit`
/// events pass. Once they are spent, an event `wait` nanoseconds later passes
/// exactly where that wait has refilled a whole token at `limit` tokens a second.
pub proof fn a_burst_spends_the_limit(m: RateModel, now: nat, n: nat, wait: nat)
    requires
        m.limit > 0,
        m.last is None,
    ensures
        m.passed(burst(now, n)) == (if n <= m.limit {
            n
        } else {
            m.limit
        }),
        n > 0 ==> m.after(burst(now, n)).last == Some(now),
        n > 0 ==> m.after(burst(now, n)).limit == m.limit,
        n > 0 ==> m.after(burst(now, n)).tokens == (if n <= m.limit {
            (m.limit - n) * 1_000_000_000
        } else {
            0
        }),
        n >= m.limit ==> (m.after(burst(now, n)).allows(now + wait) <==> wait * m.limit
            >= 1_000_000_000),
    decreases n,
{
    if n > 0 {
        let rest = burst(now, (n - 1) as nat);
        a_burst_spends_the_limit(m, now, (n - 1) as nat, 0);
        assert(burst(now, n).drop_last() =~= rest);
        assert(burst(now, n).last() == now);
        assert((now - now) * m.limit == 0) by (nonlinear_arith);
        assert(m.limit * 1_000_000_000 >= 1_000_000_000) by (nonlinear_arith)
            requires
                m.limit >= 1,
        ;
        if n - 1 < m.limit {
            assert((m.limit - (n - 1)) * 1_000_000_000 == (m.limit - n) * 1_000_000_000
                + 1_000_000_000);
            assert((m.limit - (n - 1)) * 1_000_000_000 <= m.limit * 1_000_000_000);
        }
        if n == 1 {
            assert(rest =~= Seq::<nat>::empty());
        }
        let after = m.after(burst(now, n));
        if n >= m.limit {
            assert(after.tokens == 0);
            assert(((now + wait - now) as nat) * m.limit == wait * m.limit);
        }
    } else {
        assert(burst(now, 0) =~= Seq::<nat>::empty());
    }
}

/// Whatever came before, a second without a check fills the bucket: `limit`
/// whole tokens, and so an event passes.
pub proof fn a_second_refills(m: RateModel, now: nat, later: nat)
    requires
        m.valid(),
        m.limit > 0,
        later >= now + 1_000_000_000,
    ensures
        m.checked(now).refilled(later) == m.limit * 1_000_000_000,
        m.checked(now).allows(later),
        m.checked(now).checked(later).tokens == (m.limit - 1) * 1_000_000_000,
{
    assert(((later - now) as nat) * m.limit >= m.limit * 1_000_000_000) by (nonlinear_arith)
        requires
            later - now >= 1_000_000_000,
    ;
    assert(m.limit * 1_000_000_000 >= 1_000_000_000) by (nonlinear_arith)
        requires
            m.limit >= 1,
    ;
}

/// A refused event costs nothing and a passed one exactly one token: what the
/// bucket holds after a check is what it held, plus `limit` billionths for each
/// nanosecond up to the limit, less the price. Time that runs backwards takes
/// nothing away.
pub proof fn a_check_costs_one_token_or_none(m: RateModel, now: nat)
    requires
        m.valid(),
        m.limit > 0,
    ensures
        m.checked(now).valid(),
        m.checked(now).last == Some(now),
        m.checked(now).limit == m.limit,
        m.allows(now) ==> m.checked(now).tokens + 1_000_000_000 >= m.tokens,
        !m.allows(now) ==> m.tokens <= m.checked(now).tokens < 1_000_000_000,
        m.last matches Some(prev) ==> {
            let gain = if now >= prev {
                (now - prev) * m.limit
            } else {
                0
            };
            let price: int = if m.allows(now) {
                1_000_000_000
            } else {
                0
            };
            &&& m.tokens + gain <= m.limit * 1_000_000_000 ==> m.checked(now).tokens + price
                == m.tokens + gain
            &&& m.tokens + gain > m.limit * 1_000_000_000 ==> m.checked(now).tokens + price
                == m.limit * 1_000_000_000
        },
{
}

/// A limit of zero lets every event pass and keeps no record of it.
pub proof fn no_limit_lets_all_pass(m: RateModel, now: nat)
    requires
        m.limit == 0,
    ensures
        m.allows(now),
        m.checked(now) == m,
{
}

} // verus!
