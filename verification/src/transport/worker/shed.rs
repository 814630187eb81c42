//! Graduated load shedding against a worker's byte budget.
use vstd::prelude::*;

verus! {

/// How full a worker's byte budget is.
#[derive(Debug, Clone, Copy, PartialEq, Eq, Structural)]
pub enum ShedBand {
    /// Below 80 %: every broadcast is queued.
    Normal,
    /// 80 to 95 %: subscribers with a half-full queue are skipped.
    Pressure,
    /// 95 to 100 %: subscribers with a backed-up queue are skipped.
    Severe,
    /// 100 % and more: the broadcast is dropped for this worker.
    Saturated,
}

/// The band of `inflight` bytes against `budget`; a budget of `0` is never
/// enforced.
pub open spec fn band_of(inflight: u64, budget: u64) -> ShedBand {
    if budget == 0 || 100 * inflight < 80 * budget {
        ShedBand::Normal
    } else if 100 * inflight < 95 * budget {
        ShedBand::Pressure
    } else if inflight < budget {
        ShedBand::Severe
    } else {
        ShedBand::Saturated
    }
}

/// The rank of a band, from `Normal` up.
pub open spec fn rank(band: ShedBand) -> int {
    match band {
        ShedBand::Normal => 0,
        ShedBand::Pressure => 1,
        ShedBand::Severe => 2,
        ShedBand::Saturated => 3,
    }
}

/// Classifies `inflight` bytes against `budget`.
pub fn shed_band(inflight: u64, budget: u64) -> (band: ShedBand)
    ensures
        band == band_of(inflight, budget),
{
    if budget == 0 {
        return ShedBand::Normal;
    }
    let scaled: u128 = inflight as u128 * 100;
    if scaled < budget as u128 * 80 {
        ShedBand::Normal
    } else if scaled < budget as u128 * 95 {
        ShedBand::Pressure
    } else if inflight < budget {
        ShedBand::Severe
    } else {
        ShedBand::Saturated
    }
}

/// Whether a subscriber with `out_bytes` queued against a cap of `high_water` is
/// skipped in `band`.
pub open spec fn skips(band: ShedBand, out_bytes: int, high_water: int) -> bool {
    match band {
        ShedBand::Normal => false,
        ShedBand::Pressure => out_bytes * 2 > high_water,
        ShedBand::Severe => out_bytes * 16 > high_water,
        ShedBand::Saturated => true,
    }
}

/// Whether a frame is skipped for a subscriber in the current band.
pub fn should_skip(band: ShedBand, out_bytes: usize, high_water: usize) -> (skip: bool)
    ensures
        skip == skips(band, out_bytes as int, high_water as int),
{
    match band {
        ShedBand::Normal => false,
        ShedBand::Pressure => out_bytes > high_water / 2,
        ShedBand::Severe => out_bytes > high_water / 16,
        ShedBand::Saturated => true,
    }
}

/// The pressure bit after looking at the budget: set at saturation, released
/// only back in the normal band, kept in between.
pub open spec fn pressure_after(bit: bool, inflight: u64, budget: u64) -> bool {
    match band_of(inflight, budget) {
        ShedBand::Saturated => true,
        ShedBand::Normal => false,
        _ => bit,
    }
}

/// Updates a worker's budget-pressure bit.
pub fn update_budget_pressure(bit: &mut bool, inflight: u64, budget: u64)
    ensures
        *final(bit) == pressure_after(*old(bit), inflight, budget),
{
    match shed_band(inflight, budget) {
        ShedBand::Saturated => *bit = true,
        ShedBand::Normal => *bit = false,
        _ => {},
    }
}

/// The budget scaled by a factor in thousandths, rounded down and at most the
/// largest `u64`.
pub open spec fn scaled_budget(per_worker_budget: u64, factor: u32) -> int {
    let scaled = per_worker_budget * factor / 1000;
    if scaled > u64::MAX {
        u64::MAX as int
    } else {
        scaled
    }
}

/// The budget scaled by a factor in thousandths; no factor means the whole.
pub fn effective_budget(per_worker_budget: u64, factor: Option<u32>) -> (b: u64)
    ensures
        b == (match factor {
            Some(f) => scaled_budget(per_worker_budget, f),
            None => per_worker_budget as int,
        }),
{
    match factor {
        Some(f) => {
            assert(0 <= per_worker_budget * f <= 0xffff_ffff_ffff_ffff * 0xffff_ffff) by (
                nonlinear_arith)
                requires
                    0 <= per_worker_budget <= 0xffff_ffff_ffff_ffff,
                    0 <= f <= 0xffff_ffff,
            ;
            let scaled: u128 = per_worker_budget as u128 * f as u128 / 1000;
            if scaled > u64::MAX as u128 {
                u64::MAX
            } else {
                scaled as u64
            }
        },
        None => per_worker_budget,
    }
}

/// A factor of a thousand thousandths leaves the budget whole.
pub proof fn the_full_factor_is_the_whole(budget: u64)
    ensures
        scaled_budget(budget, 1000) == budget,
{
}

/// More bytes in flight never ease the band.
pub proof fn bands_are_monotone(a: u64, b: u64, budget: u64)
    requires
        a <= b,
    ensures
        rank(band_of(a, budget)) <= rank(band_of(b, budget)),
{
}

/// A pressure bit that is set stays set until the worker is back below 80 %, and
/// one that is clear stays clear until the worker reaches its budget.
pub proof fn pressure_has_hysteresis(inflight: u64, budget: u64)
    requires
        budget > 0,
    ensures
        !pressure_after(true, inflight, budget) <==> 100 * inflight < 80 * budget,
        pressure_after(false, inflight, budget) <==> inflight >= budget,
{
}

/// The bands meet at 80, 95 and 100 % of the budget, each edge belonging to the band
/// above it, and a budget of zero sheds nothing.
pub proof fn bands_have_their_edges(inflight: u64, budget: u64)
    ensures
        budget == 0 ==> band_of(inflight, budget) == ShedBand::Normal,
        budget > 0 ==> {
            &&& band_of(inflight, budget) == ShedBand::Normal <==> 5 * inflight < 4 * budget
            &&& band_of(inflight, budget) == ShedBand::Pressure <==> 5 * inflight >= 4 * budget
                && 20 * inflight < 19 * budget
            &&& band_of(inflight, budget) == ShedBand::Severe <==> 20 * inflight >= 19 * budget
                && inflight < budget
            &&& band_of(inflight, budget) == ShedBand::Saturated <==> inflight >= budget
        },
{
}

/// Shedding spares those who keep up: an empty queue is skipped only at saturation;
/// a queue more than half full is skipped under pressure, and one more than a
/// sixteenth full when the pressure is severe. A higher band skips whoever a lower
/// one does.
pub proof fn shedding_spares_those_who_keep_up(
    low: ShedBand,
    high: ShedBand,
    out_bytes: int,
    high_water: int,
)
    requires
        0 <= out_bytes,
        0 <= high_water,
        rank(low) <= rank(high),
    ensures
        skips(low, out_bytes, high_water) ==> skips(high, out_bytes, high_water),
        out_bytes == 0 ==> (skips(low, out_bytes, high_water) <==> low == ShedBand::Saturated),
        !skips(ShedBand::Normal, out_bytes, high_water),
        skips(ShedBand::Saturated, out_bytes, high_water),
        skips(ShedBand::Pressure, out_bytes, high_water) <==> out_bytes > high_water / 2,
        skips(ShedBand::Severe, out_bytes, high_water) <==> out_bytes > high_water / 16,
{
}

/// A scaled budget is the budget times the factor over a thousand, rounded down, as
/// long as that fits; it never grows past the whole for a factor of a thousand or
/// less, and grows with the factor.
pub proof fn budgets_scale_by_thousandths(budget: u64, factor: u32, larger: u32)
    requires
        factor <= larger,
    ensures
        scaled_budget(budget, factor) <= scaled_budget(budget, larger),
        factor <= 1000 ==> scaled_budget(budget, factor) <= budget,
        budget * factor / 1000 <= u64::MAX ==> scaled_budget(budget, factor) * 1000 <= budget
            * factor < (scaled_budget(budget, factor) + 1) * 1000,
        budget * factor / 1000 > u64::MAX ==> scaled_budget(budget, factor) == u64::MAX,
{
    assert(budget * factor <= budget * larger) by (nonlinear_arith)
        requires
            factor <= larger,
    ;
    if factor <= 1000 {
        assert(budget * factor <= budget * 1000) by (nonlinear_arith)
            requires
                factor <= 1000,
        ;
    }
}

} // verus!
