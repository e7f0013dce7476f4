//! CPU time as the kernel counts it: ticks per state since boot.

use crate::number::Number;
use vstd::prelude::*;

verus! {

/// Ticks that one CPU, or all of them together, spent in each state.  The states
/// that older kernels do not report are optional.
#[derive(Debug, Clone, Copy, PartialEq, Eq, Structural)]
pub struct CpuTime {
    pub user: u64,
    pub nice: u64,
    pub system: u64,
    pub idle: u64,
    pub iowait: Option<u64>,
    pub irq: Option<u64>,
    pub softirq: Option<u64>,
    pub steal: Option<u64>,
}

/// A counter that is not reported counts as zero.
pub open spec fn or_zero(c: Option<u64>) -> int {
    match c {
        Some(c) => c as int,
        None => 0,
    }
}

/// How far a counter has moved; a counter that went back has not moved.
pub open spec fn advance(prev: int, curr: int) -> int {
    if curr > prev {
        curr - prev
    } else {
        0
    }
}

impl CpuTime {
    /// Ticks spent doing nothing, or waiting for a device.
    pub open spec fn idle_ticks(self) -> int {
        self.idle + or_zero(self.iowait)
    }

    /// Ticks spent in any state.
    pub open spec fn total_ticks(self) -> int {
        self.user + self.nice + self.system + self.idle_ticks() + or_zero(self.irq) + or_zero(
            self.softirq,
        ) + or_zero(self.steal)
    }

    /// Ticks spent in user mode, niced or not.
    pub open spec fn user_ticks(self) -> int {
        self.user + self.nice
    }

    /// The sum over all states is a tick count like any other.
    pub open spec fn wf(self) -> bool {
        self.total_ticks() <= u64::MAX
    }

    /// Whether the sum over all states fits a tick count.
    pub fn fits(&self) -> (r: bool)
        ensures
            r == self.wf(),
    {
        let total: u128 = self.user as u128 + self.nice as u128 + self.system as u128
            + self.idle as u128 + self.iowait.unwrap_or(0) as u128 + self.irq.unwrap_or(0) as u128
            + self.softirq.unwrap_or(0) as u128 + self.steal.unwrap_or(0) as u128;
        total <= u64::MAX as u128
    }
}

/// Ticks spent in any state.
pub fn cpu_total(c: &CpuTime) -> (r: u64)
    requires
        c.wf(),
    ensures
        r == c.total_ticks(),
{
    c.user + c.nice + c.system + cpu_idle(c) + c.irq.unwrap_or(0) + c.softirq.unwrap_or(0)
        + c.steal.unwrap_or(0)
}

/// Ticks spent doing nothing, or waiting for a device.
pub fn cpu_idle(c: &CpuTime) -> (r: u64)
    requires
        c.wf(),
    ensures
        r == c.idle_ticks(),
{
    c.idle + c.iowait.unwrap_or(0)
}

// ---------------------------------------------------------------------------
// Shares of the time between two readings
// ---------------------------------------------------------------------------

/// The percentage of `total` ticks that were not `idle`: zero when no time has
/// passed, negative when more idle ticks came in than ticks at all.
pub open spec fn busy_pct(total: int, idle: int) -> Number {
    if total == 0 {
        Number::nought()
    } else {
        Number::times(
            Number::over(
                Number::less(Number::whole(total), Number::whole(idle)),
                Number::whole(total),
            ),
            Number::whole(100),
        )
    }
}

/// The percentage that `part` ticks are of `total`.
pub open spec fn part_pct(total: int, part: int) -> Number {
    if total == 0 {
        Number::nought()
    } else {
        Number::times(
            Number::over(Number::whole(part), Number::whole(total)),
            Number::whole(100),
        )
    }
}

/// A percentage held between nought and a hundred.
pub open spec fn clamp_pct(x: Number) -> Number {
    if x.below(Number::nought()) {
        Number::nought()
    } else if Number::whole(100).below(x) {
        Number::whole(100)
    } else {
        x
    }
}

/// Percentage of ticks between two readings that were not idle, before any
/// clamping.
pub fn util_pct_from_ticks(
    prev_total: u64,
    prev_idle: u64,
    curr_total: u64,
    curr_idle: u64,
) -> (r: Number)
    ensures
        r == busy_pct(
            advance(prev_total as int, curr_total as int),
            advance(prev_idle as int, curr_idle as int),
        ),
        r.wf(),
{
    let delta_total: u64 = curr_total.saturating_sub(prev_total);
    let delta_idle: u64 = curr_idle.saturating_sub(prev_idle);
    if delta_total == 0 {
        return Number::zero();
    }
    let total: Number = Number::from_u64(delta_total);
    let idle: Number = Number::from_u64(delta_idle);
    total.difference(idle).quotient(total).product(Number::from_u64(100))
}

/// The percentage of its time that a CPU was busy, before any clamping.
pub open spec fn raw_pct(prev: CpuTime, curr: CpuTime) -> Number {
    busy_pct(
        advance(prev.total_ticks(), curr.total_ticks()),
        advance(prev.idle_ticks(), curr.idle_ticks()),
    )
}

/// The percentage of its time that one CPU was busy, between 0 and 100.
pub open spec fn core_pct(prev: CpuTime, curr: CpuTime) -> Number {
    clamp_pct(raw_pct(prev, curr))
}

/// How many of `n_cores` CPUs were busy on average.
pub open spec fn cores_in_use(prev: CpuTime, curr: CpuTime, n_cores: int) -> Number {
    Number::times(
        Number::over(raw_pct(prev, curr), Number::whole(100)),
        Number::whole(n_cores),
    )
}

/// The percentage of its time that a CPU waited for another guest to run.
pub open spec fn steal_pct(prev: CpuTime, curr: CpuTime) -> Number {
    part_pct(
        advance(prev.total_ticks(), curr.total_ticks()),
        advance(or_zero(prev.steal), or_zero(curr.steal)),
    )
}

/// Per-core utilization percentage, between 0 and 100.
pub fn core_util_pct(prev: &CpuTime, curr: &CpuTime) -> (r: Number)
    requires
        prev.wf(),
        curr.wf(),
    ensures
        r == core_pct(*prev, *curr),
        r.wf(),
{
    let pct: Number = util_pct_from_ticks(
        cpu_total(prev),
        cpu_idle(prev),
        cpu_total(curr),
        cpu_idle(curr),
    );
    let hundred: Number = Number::from_u64(100);
    if pct.lt(Number::zero()) {
        Number::zero()
    } else if hundred.lt(pct) {
        hundred
    } else {
        pct
    }
}

/// Aggregate utilization as fractional cores in use.  Not clamped.
pub fn aggregate_util_cores(prev: &CpuTime, curr: &CpuTime, n_cores: usize) -> (r: Number)
    requires
        prev.wf(),
        curr.wf(),
    ensures
        r == cores_in_use(*prev, *curr, n_cores as int),
        r.wf(),
{
    let pct: Number = util_pct_from_ticks(
        cpu_total(prev),
        cpu_idle(prev),
        cpu_total(curr),
        cpu_idle(curr),
    );
    pct.over_whole(100).product(Number::from_u64(n_cores as u64))
}

/// Percentage of the time between two readings that was stolen.
pub fn steal_util_pct(prev: &CpuTime, curr: &CpuTime) -> (r: Number)
    requires
        prev.wf(),
        curr.wf(),
    ensures
        r == steal_pct(*prev, *curr),
        r.wf(),
{
    let delta_total: u64 = cpu_total(curr).saturating_sub(cpu_total(prev));
    let stolen: u64 = curr.steal.unwrap_or(0).saturating_sub(prev.steal.unwrap_or(0));
    if delta_total == 0 {
        return Number::zero();
    }
    Number::from_u64(stolen).over_whole(delta_total).product(Number::from_u64(100))
}

// ---------------------------------------------------------------------------
// Laws
// ---------------------------------------------------------------------------

/// What the percentage of busy ticks is like: finite, at most a hundred unless it
/// is negative, and zero where every tick is idle.
pub proof fn lemma_busy_pct(total: int, idle: int)
    requires
        0 <= total <= u64::MAX,
        0 <= idle <= u64::MAX,
    ensures
        ({
            let x = busy_pct(total, idle);
            &&& x is Finite
            &&& 0 <= x.steps() <= crate::power::pow2(71) * crate::order::one()
            &&& !x.minus() ==> x.steps() <= 100 * crate::order::one()
            &&& x.minus() ==> idle > total
            &&& idle == total ==> x.steps() == 0 && !x.minus()
        }),
{
    let one = crate::order::one();
    let (t, i, h) = (Number::whole(total), Number::whole(idle), Number::whole(100));
    crate::power::lemma_pow2_positive(1074);
    crate::power::lemma_pow2_positive(71);
    crate::power::lemma_pow2_values();
    crate::power::lemma_pow2_adds(64, 7);
    assert(crate::power::pow2(7) == 128) by {
        reveal_with_fuel(crate::power::pow2, 8);
    }
    assert(0 * crate::power::pow2(0) == 0 && crate::power::pow2(71) * one >= 0) by (nonlinear_arith)
        requires
            one > 0,
            crate::power::pow2(71) > 0,
    ;
    if total > 0 {
        crate::order::lemma_whole_finite(total, 64);
        crate::order::lemma_whole_finite(idle, 64);
        crate::order::lemma_whole_finite(100, 7);
        crate::number::lemma_small_whole_is_exact(100);
        crate::number::lemma_whole_wf(total);
        crate::number::lemma_whole_wf(100);
        let d = Number::less(t, i);
        crate::order::lemma_difference_bounded(t, i, 64);
        let q = Number::over(d, t);
        crate::order::lemma_over_shrinks(d, t, 64);
        crate::order::lemma_product_finite(q, h, 64, 7);
        if !d.minus() {
            crate::order::lemma_share_within_one(d, t);
            crate::order::lemma_part_within_whole(q, h);
        }
        if d.minus() && idle <= total {
            crate::order::lemma_whole_monotonic(idle, total);
        }
        if idle == total {
            assert(d.steps() == 0);
        }
    }
}

/// The aggregate utilization is at most the number of cores, whatever the
/// counters say.
pub proof fn lemma_cores_in_use_bounded(prev: CpuTime, curr: CpuTime, n_cores: usize)
    requires
        prev.wf(),
        curr.wf(),
    ensures
        cores_in_use(prev, curr, n_cores as int).at_most(Number::whole(n_cores as int)),
{
    let one = crate::order::one();
    let pct = raw_pct(prev, curr);
    let (h, n) = (Number::whole(100), Number::whole(n_cores as int));
    lemma_busy_pct(
        advance(prev.total_ticks(), curr.total_ticks()),
        advance(prev.idle_ticks(), curr.idle_ticks()),
    );
    crate::power::lemma_pow2_positive(1074);
    crate::power::lemma_pow2_values();
    assert(crate::power::pow2(7) == 128) by {
        reveal_with_fuel(crate::power::pow2, 8);
    }
    crate::order::lemma_whole_finite(100, 7);
    crate::number::lemma_small_whole_is_exact(100);
    crate::order::lemma_whole_finite(n_cores as int, 64);
    crate::number::lemma_whole_wf(n_cores as int);
    crate::number::lemma_zero_steps(n);
    let share = Number::over(pct, h);
    crate::order::lemma_over_shrinks(pct, h, 71);
    crate::order::lemma_product_finite(share, n, 71, 64);
    if !pct.minus() {
        crate::order::lemma_share_within_one(pct, h);
        crate::order::lemma_part_within_whole(share, n);
    }
}

/// The utilization of a core is between nought and a hundred percent, whatever the
/// counters say.
pub proof fn lemma_core_pct_range(prev: CpuTime, curr: CpuTime)
    requires
        prev.wf(),
        curr.wf(),
    ensures
        Number::nought().at_most(core_pct(prev, curr)),
        core_pct(prev, curr).at_most(Number::whole(100)),
{
    lemma_busy_pct(
        advance(prev.total_ticks(), curr.total_ticks()),
        advance(prev.idle_ticks(), curr.idle_ticks()),
    );
    crate::order::lemma_whole_is_number(100);
    crate::order::lemma_whole_monotonic(0, 100);
    crate::power::lemma_pow2_values();
    crate::order::lemma_whole_finite(0, 0);
    crate::order::lemma_at_most_total(raw_pct(prev, curr), Number::nought());
    crate::order::lemma_at_most_total(raw_pct(prev, curr), Number::whole(100));
    crate::order::lemma_at_most_total(Number::whole(100), Number::whole(100));
}

/// A machine whose every new tick is idle is not in use at all.
pub proof fn lemma_all_idle_is_zero(prev: CpuTime, curr: CpuTime, n_cores: usize)
    requires
        prev.wf(),
        curr.wf(),
        advance(prev.total_ticks(), curr.total_ticks()) == advance(
            prev.idle_ticks(),
            curr.idle_ticks(),
        ),
    ensures
        cores_in_use(prev, curr, n_cores as int).is_nought(),
        core_pct(prev, curr).is_nought(),
{
    let pct = raw_pct(prev, curr);
    let (h, n) = (Number::whole(100), Number::whole(n_cores as int));
    lemma_busy_pct(
        advance(prev.total_ticks(), curr.total_ticks()),
        advance(prev.idle_ticks(), curr.idle_ticks()),
    );
    crate::power::lemma_pow2_positive(1074);
    crate::power::lemma_pow2_values();
    assert(crate::power::pow2(7) == 128) by {
        reveal_with_fuel(crate::power::pow2, 8);
    }
    crate::order::lemma_whole_finite(100, 7);
    crate::order::lemma_whole_finite(n_cores as int, 64);
    crate::number::lemma_whole_wf(n_cores as int);
    let share = Number::over(pct, h);
    crate::order::lemma_over_shrinks(pct, h, 71);
    crate::order::lemma_part_within_whole(share, n);
    crate::number::lemma_zero_steps(pct);
    crate::number::lemma_zero_steps(share);
    crate::number::lemma_zero_steps(cores_in_use(prev, curr, n_cores as int));
}

} // verus!
