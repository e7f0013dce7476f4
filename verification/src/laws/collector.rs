//! What the figures of a reading mean.

use crate::accounting::{total_over, Counter};
use crate::collector::{after, collected, snapshot_of, CollectorView, Reading};
use crate::cpu_time::CpuTime;
use crate::metrics::CpuMetrics;
use crate::number::{Number, MANTISSA_END};
use crate::process::{listed_io, tree_ticks, ProcMemory};
use vstd::prelude::*;

verus! {

// ---------------------------------------------------------------------------
// The machine
// ---------------------------------------------------------------------------

/// Ticks of a state that is reported, none of one that is not.
pub open spec fn reported(c: Option<u64>) -> int {
    match c {
        Some(c) => c as int,
        None => 0,
    }
}

/// All ticks, whatever the state.
pub open spec fn all_ticks(t: CpuTime) -> int {
    t.user + t.nice + t.system + t.idle + reported(t.iowait) + reported(t.irq) + reported(
        t.softirq,
    ) + reported(t.steal)
}

/// Ticks in which nothing was done.
pub open spec fn quiet_ticks(t: CpuTime) -> int {
    t.idle + reported(t.iowait)
}

/// How far a counter came.
pub open spec fn came(from: int, to: int) -> int {
    if from <= to {
        to - from
    } else {
        0
    }
}

/// A hundred times the share of the ticks in which something was done.
pub open spec fn busy_percent(from: CpuTime, to: CpuTime) -> Number {
    let total = came(all_ticks(from), all_ticks(to));
    let quiet = came(quiet_ticks(from), quiet_ticks(to));
    if total == 0 {
        Number::nought()
    } else {
        Number::times(
            Number::over(
                Number::less(Number::whole(total), Number::whole(quiet)),
                Number::whole(total),
            ),
            Number::whole(100),
        )
    }
}

/// A hundred times the share of the ticks that other guests took.
pub open spec fn stolen_percent(from: CpuTime, to: CpuTime) -> Number {
    let total = came(all_ticks(from), all_ticks(to));
    if total == 0 {
        Number::nought()
    } else {
        Number::times(
            Number::over(
                Number::whole(came(reported(from.steal), reported(to.steal))),
                Number::whole(total),
            ),
            Number::whole(100),
        )
    }
}

/// Held between nought and a hundred.
pub open spec fn within_hundred(x: Number, y: Number) -> bool {
    if !Number::nought().at_most(x) {
        y == Number::nought()
    } else if !x.at_most(Number::whole(100)) {
        y == Number::whole(100)
    } else {
        y == x
    }
}

/// Percentages and cores of one CPU or of all: every state counts as time, idling and
/// waiting for a device count as doing nothing, and the counters of the two readings
/// are compared state by state.
pub proof fn lemma_busy_percent(from: CpuTime, to: CpuTime)
    requires
        from.wf(),
        to.wf(),
    ensures
        to.total_ticks() == all_ticks(to),
        to.idle_ticks() == quiet_ticks(to),
        busy_percent(from, to) == crate::cpu_time::raw_pct(from, to),
        stolen_percent(from, to) == crate::cpu_time::steal_pct(from, to),
        within_hundred(busy_percent(from, to), crate::cpu_time::core_pct(from, to)),
        forall|n: int|
            #[trigger] crate::cpu_time::cores_in_use(from, to, n) == Number::times(
                Number::over(busy_percent(from, to), Number::whole(100)),
                Number::whole(n),
            ),
        !(busy_percent(from, to) is NotANumber),
{
    let x = busy_percent(from, to);
    crate::cpu_time::lemma_busy_pct(
        crate::cpu_time::advance(from.total_ticks(), to.total_ticks()),
        crate::cpu_time::advance(from.idle_ticks(), to.idle_ticks()),
    );
    crate::order::lemma_whole_is_number(100);
    crate::order::lemma_at_most_total(x, Number::nought());
    crate::order::lemma_at_most_total(x, Number::whole(100));
}

/// The utilization of each core is that of the CPU with the same number: entry `i`
/// of the reading before and entry `i` of this reading, and no other, decide it.  So
/// it is with the time that was stolen from it.  Cores that only one of the two
/// readings knows are not reported.
pub proof fn lemma_each_core_is_its_own(c: CollectorView, r: Reading, m: CpuMetrics, i: int)
    requires
        c.wf(),
        r.wf(),
        c.prev is Some,
        collected(c, r, m),
    ensures
        ({
            let before = c.prev->0.per_core;
            &&& m.per_core_pct@.len() == (if before.len() <= r.per_core@.len() {
                before.len()
            } else {
                r.per_core@.len()
            })
            &&& m.per_core_steal_time_pct@.len() == m.per_core_pct@.len()
            &&& 0 <= i < before.len() && i < r.per_core@.len() ==> {
                &&& within_hundred(busy_percent(before[i], r.per_core@[i]), m.per_core_pct@[i]@)
                &&& m.per_core_steal_time_pct@[i]@ == stolen_percent(before[i], r.per_core@[i])
            }
        }),
{
    let before = c.prev->0.per_core;
    let busy = crate::metrics::numbers(m.per_core_pct@);
    let stolen = crate::metrics::numbers(m.per_core_steal_time_pct@);
    assert(busy.len() == m.per_core_pct@.len());
    assert(stolen.len() == m.per_core_steal_time_pct@.len());
    if 0 <= i < before.len() && i < r.per_core@.len() {
        assert(busy[i] == m.per_core_pct@[i]@);
        assert(stolen[i] == m.per_core_steal_time_pct@[i]@);
        assert(before[i].wf() && r.per_core@[i].wf());
        lemma_busy_percent(before[i], r.per_core@[i]);
        let x = busy_percent(before[i], r.per_core@[i]);
        crate::order::lemma_whole_is_number(100);
        crate::order::lemma_at_most_total(x, Number::nought());
        crate::order::lemma_at_most_total(x, Number::whole(100));
    }
}

/// A share of everything is one.
proof fn lemma_all_of_it(x: Number)
    requires
        x is Finite,
        x.wf(),
        !x.minus(),
        x.steps() > 0,
    ensures
        Number::less(x, Number::nought()) == x,
        Number::over(x, x) == Number::whole(1),
{
    let one = crate::order::one();
    crate::power::lemma_pow2_positive(1074);
    assert(0 * crate::power::pow2(0) == 0) by (nonlinear_arith);
    if let Number::Finite { negative, mantissa, power } = x {
        crate::number::lemma_nearest_is_exact(false, mantissa, power);
    }
    crate::order::lemma_nearest_scaled(false, one, 1, x.steps());
    assert(x.steps() * one == one * x.steps()) by (nonlinear_arith);
    assert(1 * one == one && 1 * x.steps() == x.steps());
}

/// The extremes: a core whose new ticks are all idle has 0 at its own place, and one
/// that was never idle has 100 there.
pub proof fn lemma_idle_and_busy_cores(c: CollectorView, r: Reading, m: CpuMetrics, i: int)
    requires
        c.wf(),
        r.wf(),
        c.prev is Some,
        collected(c, r, m),
        0 <= i < c.prev->0.per_core.len(),
        i < r.per_core@.len(),
    ensures
        ({
            let (from, to) = (c.prev->0.per_core[i], r.per_core@[i]);
            let total = came(all_ticks(from), all_ticks(to));
            let quiet = came(quiet_ticks(from), quiet_ticks(to));
            &&& quiet == total ==> m.per_core_pct@[i]@.is_nought()
            &&& total > 0 && quiet == 0 ==> m.per_core_pct@[i]@ == Number::whole(100)
        }),
{
    let (from, to) = (c.prev->0.per_core[i], r.per_core@[i]);
    assert(from.wf() && to.wf());
    lemma_each_core_is_its_own(c, r, m, i);
    lemma_extremes(from, to);
    crate::order::lemma_whole_is_number(100);
    crate::order::lemma_whole_monotonic(0, 100);
    crate::power::lemma_pow2_values();
    crate::order::lemma_whole_finite(0, 12);
    crate::order::lemma_at_most_total(Number::whole(100), Number::whole(100));
    crate::number::lemma_zero_steps(busy_percent(from, to));
}

proof fn lemma_extremes(from: CpuTime, to: CpuTime)
    requires
        from.wf(),
        to.wf(),
    ensures
        ({
            let total = came(all_ticks(from), all_ticks(to));
            let quiet = came(quiet_ticks(from), quiet_ticks(to));
            &&& quiet == total ==> busy_percent(from, to).is_nought()
            &&& quiet == total ==> !busy_percent(from, to).minus()
            &&& total > 0 && quiet == 0 ==> busy_percent(from, to) == Number::whole(100)
        }),
{
    let total = came(all_ticks(from), all_ticks(to));
    let quiet = came(quiet_ticks(from), quiet_ticks(to));
    lemma_busy_percent(from, to);
    crate::cpu_time::lemma_busy_pct(
        crate::cpu_time::advance(from.total_ticks(), to.total_ticks()),
        crate::cpu_time::advance(from.idle_ticks(), to.idle_ticks()),
    );
    crate::number::lemma_zero_steps(busy_percent(from, to));
    if total > 0 && quiet == 0 {
        crate::power::lemma_pow2_values();
        crate::power::lemma_pow2_positive(1074);
        crate::order::lemma_whole_finite(total, 64);
        crate::order::lemma_whole_finite(0, 12);
        crate::number::lemma_whole_wf(total);
        lemma_all_of_it(Number::whole(total));
        crate::order::lemma_whole_product(1, 100);
    }
}

/// The seconds and the cores of the whole machine, from its own counters and no
/// others: user time is niced or not, idle time is waiting or not, and the cores in
/// use are the busy share of as many cores as this reading shows.
pub proof fn lemma_machine_figures(c: CollectorView, r: Reading, m: CpuMetrics)
    requires
        c.wf(),
        r.wf(),
        c.prev is Some,
        collected(c, r, m),
    ensures
        ({
            let (from, to) = (c.prev->0.total, r.total);
            let tps = Number::whole(r.ticks_per_second as int);
            &&& m.utime_secs@ == Number::over(
                Number::whole(came(from.user + from.nice, to.user + to.nice)),
                tps,
            )
            &&& m.stime_secs@ == Number::over(
                Number::whole(came(from.system as int, to.system as int)),
                tps,
            )
            &&& m.steal_time_secs@ == Number::over(
                Number::whole(came(reported(from.steal), reported(to.steal))),
                tps,
            )
            &&& m.steal_time_pct@ == stolen_percent(from, to)
            &&& m.utilization_pct@ == Number::times(
                Number::over(busy_percent(from, to), Number::whole(100)),
                Number::whole(r.per_core@.len() as int),
            )
        }),
{
    lemma_busy_percent(c.prev->0.total, r.total);
}

/// A reading is valid when time passes and no sum of ticks is too large to be one.
pub proof fn lemma_valid_readings(r: Reading)
    ensures
        r.wf() <==> r.ticks_per_second > 0 && all_ticks(r.total) <= u64::MAX && forall|i: int|
            0 <= i < r.per_core@.len() ==> all_ticks(#[trigger] r.per_core@[i]) <= u64::MAX,
{
}

/// Whole seconds of ticks are whole seconds.
pub proof fn lemma_whole_machine_seconds(
    c: CollectorView,
    r: Reading,
    m: CpuMetrics,
    user: int,
    system: int,
)
    requires
        c.wf(),
        r.wf(),
        c.prev is Some,
        collected(c, r, m),
        0 <= user,
        0 <= system,
        r.ticks_per_second < MANTISSA_END,
        user * r.ticks_per_second < MANTISSA_END,
        system * r.ticks_per_second < MANTISSA_END,
        r.total.user + r.total.nice == c.prev->0.total.user + c.prev->0.total.nice + user
            * r.ticks_per_second,
        r.total.system == c.prev->0.total.system + system * r.ticks_per_second,
    ensures
        m.utime_secs@ == Number::whole(user),
        m.stime_secs@ == Number::whole(system),
{
    let tps = r.ticks_per_second as int;
    lemma_machine_figures(c, r, m);
    assert(user * tps >= 0 && system * tps >= 0) by (nonlinear_arith)
        requires
            user >= 0,
            system >= 0,
            tps >= 0,
    ;
    crate::order::lemma_even_quotient(user, tps);
    crate::order::lemma_even_quotient(system, tps);
}

/// The extremes of the machine: one whose every new tick is idle uses no cores, and
/// one that was never idle uses all of them.
pub proof fn lemma_idle_and_busy_machine(c: CollectorView, r: Reading, m: CpuMetrics)
    requires
        c.wf(),
        r.wf(),
        c.prev is Some,
        collected(c, r, m),
        r.per_core@.len() < MANTISSA_END,
    ensures
        ({
            let (from, to) = (c.prev->0.total, r.total);
            let total = came(all_ticks(from), all_ticks(to));
            let quiet = came(quiet_ticks(from), quiet_ticks(to));
            &&& quiet == total ==> m.utilization_pct@.is_nought()
            &&& total > 0 && quiet == 0 ==> m.utilization_pct@ == Number::whole(
                r.per_core@.len() as int,
            )
        }),
{
    let (from, to) = (c.prev->0.total, r.total);
    let n = r.per_core@.len() as int;
    lemma_machine_figures(c, r, m);
    lemma_extremes(from, to);
    let pct = busy_percent(from, to);
    crate::power::lemma_pow2_values();
    crate::power::lemma_pow2_positive(1074);
    crate::order::lemma_whole_finite(100, 12);
    crate::order::lemma_whole_finite(n, 64);
    crate::number::lemma_whole_wf(n);
    crate::order::lemma_even_quotient(1, 100);
    crate::order::lemma_whole_product(1, n);
    if pct.is_nought() {
        crate::number::lemma_zero_steps(pct);
        crate::order::lemma_nothing_over(pct, Number::whole(100));
        let share = Number::over(pct, Number::whole(100));
        crate::number::lemma_zero_steps(share);
        crate::order::lemma_part_within_whole(share, Number::whole(n));
        crate::number::lemma_zero_steps(Number::times(share, Number::whole(n)));
    }
}

// ---------------------------------------------------------------------------
// Time
// ---------------------------------------------------------------------------

/// The seconds from one moment to another, as one whole number and a fraction; at
/// least a thousandth.
pub open spec fn seconds_between(from_ns: int, to_ns: int) -> Number {
    let ns = came(from_ns, to_ns);
    Number::plus(
        Number::whole(ns / 1_000_000_000),
        Number::over(Number::whole(ns % 1_000_000_000), Number::whole(1_000_000_000)),
    ).greater(Number::over(Number::whole(1), Number::whole(1000)))
}

/// An interval of whole seconds lasts that many seconds; one of no length, or one
/// over which the clock went back, counts as a thousandth of a second.
pub proof fn lemma_length_of_intervals(from_ns: u64, to_ns: u64, k: int)
    ensures
        0 < k && to_ns == from_ns + k * 1_000_000_000 ==> seconds_between(
            from_ns as int,
            to_ns as int,
        ) == Number::whole(k),
        to_ns <= from_ns ==> seconds_between(from_ns as int, to_ns as int) == Number::over(
            Number::whole(1),
            Number::whole(1000),
        ),
{
    let one = crate::order::one();
    let milli = Number::over(Number::whole(1), Number::whole(1000));
    let giga = Number::whole(1_000_000_000);
    crate::power::lemma_pow2_values();
    crate::power::lemma_pow2_positive(1074);
    crate::order::lemma_whole_finite(0, 12);
    crate::order::lemma_whole_finite(1, 0);
    crate::order::lemma_whole_finite(1000, 12);
    crate::order::lemma_whole_finite(1_000_000_000, 64);
    crate::order::lemma_nothing_over(Number::nought(), giga);
    crate::order::lemma_over_shrinks(Number::whole(1), Number::whole(1000), 0);
    assert(crate::power::pow2(0) * one == one) by (nonlinear_arith)
        requires
            crate::power::pow2(0) == 1,
    ;
    let rest = Number::over(Number::nought(), giga);
    crate::number::lemma_over_wf(Number::nought(), giga);
    assert(rest == Number::nought());
    crate::collector::lemma_thousandth();
    if to_ns <= from_ns {
        crate::order::lemma_whole_sum(0, 0);
    } else if 0 < k && to_ns == from_ns + k * 1_000_000_000 {
        assert(k < MANTISSA_END);
        crate::order::lemma_whole_sum(k, 0);
        crate::order::lemma_whole_finite(k, 64);
        crate::order::lemma_whole_monotonic(1, k);
        crate::number::lemma_small_whole_is_exact(1);
        crate::order::lemma_at_most_transitive(milli, Number::whole(1), Number::whole(k));
    }
}

// ---------------------------------------------------------------------------
// The process tree
// ---------------------------------------------------------------------------

/// What processes that both lists know gained in user ticks.
pub open spec fn user_gains(
    pids: Set<i32>,
    from: Map<i32, (u64, u64)>,
    to: Map<i32, (u64, u64)>,
) -> int {
    total_over(
        pids,
        |p: i32|
            if from.contains_key(p) {
                came(from[p].0 as int, to[p].0 as int)
            } else {
                0
            },
    )
}

/// What processes that both lists know gained in system ticks.
pub open spec fn system_gains(
    pids: Set<i32>,
    from: Map<i32, (u64, u64)>,
    to: Map<i32, (u64, u64)>,
) -> int {
    total_over(
        pids,
        |p: i32|
            if from.contains_key(p) {
                came(from[p].1 as int, to[p].1 as int)
            } else {
                0
            },
    )
}

/// The user ticks that processes had when they were last seen.
pub open spec fn user_lost(from: Map<i32, (u64, u64)>, to: Map<i32, (u64, u64)>) -> int {
    total_over(from.dom().difference(to.dom()), |p: i32| from[p].0 as int)
}

/// The system ticks that processes had when they were last seen.
pub open spec fn system_lost(from: Map<i32, (u64, u64)>, to: Map<i32, (u64, u64)>) -> int {
    total_over(from.dom().difference(to.dom()), |p: i32| from[p].1 as int)
}

/// What a tree gained, as the sums of its members' gains.
pub proof fn lemma_sums_agree(pids: Set<i32>, from: Map<i32, (u64, u64)>, to: Map<i32, (u64, u64)>)
    requires
        pids.finite(),
    ensures
        user_gains(pids, from, to) == total_over(
            pids,
            |p: i32| crate::accounting::gain(from, to, Counter::First, p),
        ),
        system_gains(pids, from, to) == total_over(
            pids,
            |p: i32| crate::accounting::gain(from, to, Counter::Second, p),
        ),
{
    crate::accounting::lemma_total_same(
        pids,
        |p: i32|
            if from.contains_key(p) {
                came(from[p].0 as int, to[p].0 as int)
            } else {
                0
            },
        |p: i32| crate::accounting::gain(from, to, Counter::First, p),
    );
    crate::accounting::lemma_total_same(
        pids,
        |p: i32|
            if from.contains_key(p) {
                came(from[p].1 as int, to[p].1 as int)
            } else {
                0
            },
        |p: i32| crate::accounting::gain(from, to, Counter::Second, p),
    );
}

/// What the processes that are gone had, as the sums of their counters.
pub proof fn lemma_lost_agree(from: Map<i32, (u64, u64)>, to: Map<i32, (u64, u64)>)
    requires
        from.dom().finite(),
    ensures
        user_lost(from, to) == crate::accounting::exited_total(from, to, Counter::First),
        system_lost(from, to) == crate::accounting::exited_total(from, to, Counter::Second),
        user_lost(from, to) >= 0,
        system_lost(from, to) >= 0,
{
    let gone = from.dom().difference(to.dom());
    crate::accounting::lemma_total_same(
        gone,
        |p: i32| from[p].0 as int,
        |p: i32| crate::accounting::counter(from[p], Counter::First) as int,
    );
    crate::accounting::lemma_total_same(
        gone,
        |p: i32| from[p].1 as int,
        |p: i32| crate::accounting::counter(from[p], Counter::Second) as int,
    );
    crate::accounting::lemma_total_fits(gone, |p: i32| from[p].0 as int);
    crate::accounting::lemma_total_fits(gone, |p: i32| from[p].1 as int);
}

/// The time of a tree, in user mode and in system mode alike: what its members
/// gained, less what those that are gone had counted before, unless that is more
/// than was gained.
pub proof fn lemma_time_of_a_tree(c: CollectorView, r: Reading, m: CpuMetrics, root: i32)
    requires
        c.wf(),
        c.pid == Some(root),
        c.prev is Some,
        collected(c, r, m),
    ensures
        ({
            let from = c.prev->0.ticks;
            let to = tree_ticks(r.scan@, root);
            let tps = Number::whole(r.ticks_per_second as int);
            let user = user_gains(to.dom(), from, to);
            let system = system_gains(to.dom(), from, to);
            &&& m.process_utime_secs matches Some(u) && u@ == Number::over(
                Number::whole(
                    if user_lost(from, to) <= user {
                        user - user_lost(from, to)
                    } else {
                        user
                    },
                ),
                tps,
            )
            &&& m.process_stime_secs matches Some(s) && s@ == Number::over(
                Number::whole(
                    if system_lost(from, to) <= system {
                        system - system_lost(from, to)
                    } else {
                        system
                    },
                ),
                tps,
            )
        }),
{
    let from = c.prev->0.ticks;
    let to = tree_ticks(r.scan@, root);
    crate::process::lemma_tree_ticks_finite(r.scan@, root);
    lemma_sums_agree(to.dom(), from, to);
    lemma_lost_agree(from, to);
}

/// Exited processes are counted once, in user time and in system time.  Where a
/// surviving process, `heir`, took over the whole lifetimes of all that exited since
/// the last reading (what they had counted when last seen, and what they earned
/// after), the seconds reported are those of exactly what was earned since: by the
/// heir itself, by those that exited, and by everyone else.
pub proof fn lemma_exits_are_charged_once(
    c: CollectorView,
    r: Reading,
    m: CpuMetrics,
    root: i32,
    heir: i32,
    own: (nat, nat),
    earned: (nat, nat),
)
    requires
        c.wf(),
        c.pid == Some(root),
        c.prev is Some,
        collected(c, r, m),
        ({
            let from = c.prev->0.ticks;
            let to = tree_ticks(r.scan@, root);
            &&& from.contains_key(heir)
            &&& to.contains_key(heir)
            &&& to[heir].0 == from[heir].0 + own.0 + (user_lost(from, to) + earned.0)
            &&& to[heir].1 == from[heir].1 + own.1 + (system_lost(from, to) + earned.1)
        }),
    ensures
        ({
            let from = c.prev->0.ticks;
            let to = tree_ticks(r.scan@, root);
            let others = to.dom().remove(heir);
            let tps = Number::whole(r.ticks_per_second as int);
            &&& m.process_utime_secs matches Some(u) && u@ == Number::over(
                Number::whole(own.0 + earned.0 + user_gains(others, from, to)),
                tps,
            )
            &&& m.process_stime_secs matches Some(s) && s@ == Number::over(
                Number::whole(own.1 + earned.1 + system_gains(others, from, to)),
                tps,
            )
        }),
{
    let from = c.prev->0.ticks;
    let to = tree_ticks(r.scan@, root);
    let others = to.dom().remove(heir);
    crate::process::lemma_tree_ticks_finite(r.scan@, root);
    lemma_time_of_a_tree(c, r, m, root);
    lemma_lost_agree(from, to);
    let f = |p: i32|
        if from.contains_key(p) {
            came(from[p].0 as int, to[p].0 as int)
        } else {
            0
        };
    let g = |p: i32|
        if from.contains_key(p) {
            came(from[p].1 as int, to[p].1 as int)
        } else {
            0
        };
    assert(others.insert(heir) =~= to.dom());
    crate::accounting::lemma_total_insert(others, heir, f);
    crate::accounting::lemma_total_insert(others, heir, g);
    crate::accounting::lemma_total_fits(others, f);
    crate::accounting::lemma_total_fits(others, g);
}

/// A tree of one process is charged what that process gained since the reading
/// before, and nothing when its counters went back.
pub proof fn lemma_time_of_one_process(c: CollectorView, r: Reading, m: CpuMetrics, root: i32)
    requires
        c.wf(),
        c.pid == Some(root),
        c.prev is Some,
        collected(c, r, m),
        c.prev->0.ticks.dom() == set![root],
        tree_ticks(r.scan@, root).dom() == set![root],
    ensures
        ({
            let from = c.prev->0.ticks[root];
            let to = tree_ticks(r.scan@, root)[root];
            let tps = Number::whole(r.ticks_per_second as int);
            &&& m.process_utime_secs matches Some(u) && u@ == Number::over(
                Number::whole(came(from.0 as int, to.0 as int)),
                tps,
            )
            &&& m.process_stime_secs matches Some(s) && s@ == Number::over(
                Number::whole(came(from.1 as int, to.1 as int)),
                tps,
            )
        }),
{
    let from = c.prev->0.ticks;
    let to = tree_ticks(r.scan@, root);
    lemma_time_of_a_tree(c, r, m, root);
    lemma_nothing_lost(from, to);
    lemma_gains_of_one(root, from, to);
    assert(from.dom().contains(root) && to.dom().contains(root));
}

proof fn lemma_nothing_lost(from: Map<i32, (u64, u64)>, to: Map<i32, (u64, u64)>)
    requires
        from.dom().subset_of(to.dom()),
    ensures
        user_lost(from, to) == 0,
        system_lost(from, to) == 0,
{
    assert(from.dom().difference(to.dom()) =~= Set::empty());
    crate::accounting::lemma_total_empty(|p: i32| from[p].0 as int);
    crate::accounting::lemma_total_empty(|p: i32| from[p].1 as int);
}

proof fn lemma_gains_of_one(pid: i32, from: Map<i32, (u64, u64)>, to: Map<i32, (u64, u64)>)
    ensures
        user_gains(set![pid], from, to) == (if from.contains_key(pid) {
            came(from[pid].0 as int, to[pid].0 as int)
        } else {
            0
        }),
        system_gains(set![pid], from, to) == (if from.contains_key(pid) {
            came(from[pid].1 as int, to[pid].1 as int)
        } else {
            0
        }),
{
    let none = Set::<i32>::empty();
    let f = |p: i32|
        if from.contains_key(p) {
            came(from[p].0 as int, to[p].0 as int)
        } else {
            0
        };
    let g = |p: i32|
        if from.contains_key(p) {
            came(from[p].1 as int, to[p].1 as int)
        } else {
            0
        };
    assert(none.insert(pid) =~= set![pid]);
    crate::accounting::lemma_total_empty(f);
    crate::accounting::lemma_total_empty(g);
    crate::accounting::lemma_total_insert(none, pid, f);
    crate::accounting::lemma_total_insert(none, pid, g);
}

proof fn lemma_gains_of_two(
    pid: i32,
    other: i32,
    from: Map<i32, (u64, u64)>,
    to: Map<i32, (u64, u64)>,
)
    requires
        pid != other,
    ensures
        user_gains(set![pid, other], from, to) == user_gains(set![pid], from, to) + user_gains(
            set![other],
            from,
            to,
        ),
        system_gains(set![pid, other], from, to) == system_gains(set![pid], from, to)
            + system_gains(set![other], from, to),
{
    let f = |p: i32|
        if from.contains_key(p) {
            came(from[p].0 as int, to[p].0 as int)
        } else {
            0
        };
    let g = |p: i32|
        if from.contains_key(p) {
            came(from[p].1 as int, to[p].1 as int)
        } else {
            0
        };
    let first = set![pid];
    lemma_gains_of_one(pid, from, to);
    lemma_gains_of_one(other, from, to);
    assert(first.insert(other) =~= set![pid, other]);
    crate::accounting::lemma_total_insert(first, other, f);
    crate::accounting::lemma_total_insert(first, other, g);
}

/// A process that has just joined the tree is charged nothing: the tree is charged
/// what its root gained.
pub proof fn lemma_newcomers_are_not_charged(
    c: CollectorView,
    r: Reading,
    m: CpuMetrics,
    root: i32,
    child: i32,
)
    requires
        c.wf(),
        c.pid == Some(root),
        c.prev is Some,
        collected(c, r, m),
        child != root,
        c.prev->0.ticks.dom() == set![root],
        tree_ticks(r.scan@, root).dom() == set![root, child],
    ensures
        ({
            let from = c.prev->0.ticks[root];
            let to = tree_ticks(r.scan@, root)[root];
            let tps = Number::whole(r.ticks_per_second as int);
            &&& m.process_utime_secs matches Some(u) && u@ == Number::over(
                Number::whole(came(from.0 as int, to.0 as int)),
                tps,
            )
            &&& m.process_stime_secs matches Some(s) && s@ == Number::over(
                Number::whole(came(from.1 as int, to.1 as int)),
                tps,
            )
        }),
{
    let from = c.prev->0.ticks;
    let to = tree_ticks(r.scan@, root);
    lemma_time_of_a_tree(c, r, m, root);
    assert(from.dom().contains(root) && !from.dom().contains(child));
    lemma_nothing_lost(from, to);
    lemma_gains_of_two(root, child, from, to);
    lemma_gains_of_one(root, from, to);
    lemma_gains_of_one(child, from, to);
}

/// A process that one reading misses and the next shows again is charged all that it
/// did since it was last seen: the gap is spanned, in user time and in system time.
pub proof fn lemma_gaps_are_charged(
    c: CollectorView,
    missing: Reading,
    back: Reading,
    m: CpuMetrics,
    root: i32,
    child: i32,
)
    requires
        c.wf(),
        missing.wf(),
        c.pid == Some(root),
        c.prev is Some,
        child != root,
        !c.carried.contains(child),
        c.prev->0.ticks.dom() == set![root, child],
        tree_ticks(missing.scan@, root).dom() == set![root],
        tree_ticks(back.scan@, root).dom() == set![root, child],
        collected(after(c, snapshot_of(c, missing)), back, m),
    ensures
        ({
            let before = c.prev->0.ticks;
            let between = tree_ticks(missing.scan@, root);
            let now = tree_ticks(back.scan@, root);
            let tps = Number::whole(back.ticks_per_second as int);
            &&& m.process_utime_secs matches Some(u) && u@ == Number::over(
                Number::whole(
                    came(between[root].0 as int, now[root].0 as int) + came(
                        before[child].0 as int,
                        now[child].0 as int,
                    ),
                ),
                tps,
            )
            &&& m.process_stime_secs matches Some(s) && s@ == Number::over(
                Number::whole(
                    came(between[root].1 as int, now[root].1 as int) + came(
                        before[child].1 as int,
                        now[child].1 as int,
                    ),
                ),
                tps,
            )
        }),
{
    let kept = after(c, snapshot_of(c, missing));
    crate::collector::lemma_after_wf(c, missing);
    let from = kept.prev->0.ticks;
    let to = tree_ticks(back.scan@, root);
    let before = c.prev->0.ticks;
    let between = tree_ticks(missing.scan@, root);
    assert(before.dom().contains(child) && before.dom().contains(root));
    assert(between.dom().contains(root) && !between.dom().contains(child));
    assert(from.dom() =~= set![root, child]);
    lemma_time_of_a_tree(kept, back, m, root);
    lemma_nothing_lost(from, to);
    lemma_gains_of_two(root, child, from, to);
    lemma_gains_of_one(root, from, to);
    lemma_gains_of_one(child, from, to);
}

/// The cores of a tree are its user and system seconds over the length of the
/// interval; no more than the machine was busy, where the machine's own counters
/// moved, and no more than the quota, or without one the number of cores.
pub proof fn lemma_cores_of_a_tree(c: CollectorView, r: Reading, m: CpuMetrics, root: i32)
    requires
        c.wf(),
        r.wf(),
        c.pid == Some(root),
        c.prev is Some,
        collected(c, r, m),
    ensures
        ({
            let (from, to) = (c.prev->0.total, r.total);
            let tps = Number::whole(r.ticks_per_second as int);
            let length = seconds_between(c.prev->0.instant, r.instant_ns as int);
            let total = came(all_ticks(from), all_ticks(to));
            let quiet = came(quiet_ticks(from), quiet_ticks(to));
            let busy = came(quiet, total);
            let cap = match c.limit {
                Some(q) => q,
                None => Number::whole(r.per_core@.len() as int),
            };
            &&& m.process_utime_secs is Some
            &&& m.process_stime_secs is Some
            &&& m.process_cores_used is Some
            &&& total > 0 ==> m.process_cores_used->0@ == Number::over(
                Number::plus(m.process_utime_secs->0@, m.process_stime_secs->0@),
                length,
            ).greater(Number::nought()).lesser(
                Number::over(Number::over(Number::whole(busy), tps), length),
            ).lesser(cap)
            &&& total == 0 ==> m.process_cores_used->0@ == Number::over(
                Number::plus(m.process_utime_secs->0@, m.process_stime_secs->0@),
                length,
            ).greater(Number::nought()).lesser(
                Number::over(
                    Number::Finite {
                        negative: false,
                        mantissa: 0x1f_ffff_ffff_ffff,
                        power: 2045,
                    },
                    length,
                ),
            ).lesser(cap)
        }),
{
}

/// Where a tree used `k` whole seconds of CPU time in one second, and neither the
/// machine nor the quota holds it back, it used `k` cores.
pub proof fn lemma_whole_cores(c: CollectorView, r: Reading, m: CpuMetrics, root: i32, k: int, b: int)
    requires
        c.wf(),
        r.wf(),
        c.pid == Some(root),
        c.prev is Some,
        collected(c, r, m),
        c.limit is None,
        r.instant_ns == c.prev->0.instant + 1_000_000_000,
        0 <= k <= b,
        k <= r.per_core@.len(),
        r.ticks_per_second < MANTISSA_END,
        b * r.ticks_per_second < MANTISSA_END,
        b > 0,
        r.per_core@.len() < MANTISSA_END,
        came(all_ticks(c.prev->0.total), all_ticks(r.total)) == b * r.ticks_per_second + came(
            quiet_ticks(c.prev->0.total),
            quiet_ticks(r.total),
        ),
        m.process_utime_secs is Some && m.process_utime_secs->0@ == Number::whole(k),
        m.process_stime_secs is Some && m.process_stime_secs->0@ == Number::whole(0),
    ensures
        m.process_cores_used is Some && m.process_cores_used->0@ == Number::whole(k),
{
    let tps = r.ticks_per_second as int;
    let quiet = came(quiet_ticks(c.prev->0.total), quiet_ticks(r.total));
    let n = r.per_core@.len() as int;
    assert(0 < b * tps && b <= b * tps) by (nonlinear_arith)
        requires
            b > 0,
            tps > 0,
    ;
    lemma_cores_of_a_tree(c, r, m, root);
    lemma_length_of_intervals(c.prev->0.instant as u64, r.instant_ns, 1);
    crate::order::lemma_even_quotient(b, tps);
    crate::order::lemma_whole_sum(k, 0);
    assert(k * 1 == k && b * 1 == b);
    crate::order::lemma_even_quotient(k, 1);
    crate::order::lemma_even_quotient(b, 1);
    crate::power::lemma_pow2_values();
    crate::order::lemma_whole_finite(0, 12);
    crate::order::lemma_whole_monotonic(0, k);
    crate::order::lemma_whole_monotonic(k, b);
    crate::order::lemma_whole_monotonic(k, n);
    crate::order::lemma_whole_is_number(k);
}

// ---------------------------------------------------------------------------
// Disk traffic
// ---------------------------------------------------------------------------

/// The bytes of a tree are what those of its processes read and wrote whose counters
/// both readings hold: the first counter is what was read, the second what was
/// written.
pub proof fn lemma_bytes_of_a_tree(c: CollectorView, r: Reading, m: CpuMetrics, root: i32)
    requires
        c.wf(),
        c.pid == Some(root),
        c.prev is Some,
        collected(c, r, m),
        r.io@.len() > 0,
    ensures
        ({
            let from = c.prev->0.io;
            let to = listed_io(r.io@);
            &&& m.process_disk_read_bytes matches Some(b) && b == user_gains(to.dom(), from, to)
            &&& m.process_disk_write_bytes matches Some(b) && b == system_gains(
                to.dom(),
                from,
                to,
            )
        }),
{
    let from = c.prev->0.io;
    let to = listed_io(r.io@);
    crate::process::lemma_listed_io_finite(r.io@);
    crate::collector::lemma_process_fields_iff_tracked(c, r, m);
    lemma_sums_agree(to.dom(), from, to);
    crate::accounting::lemma_total_fits(
        to.dom(),
        |p: i32| crate::accounting::gain(from, to, Counter::First, p),
    );
    crate::accounting::lemma_total_fits(
        to.dom(),
        |p: i32| crate::accounting::gain(from, to, Counter::Second, p),
    );
    assert(to.dom().contains(r.io@.last().pid));
}

/// A process that read `r` bytes and wrote `w` bytes since the reading before shows
/// these.
pub proof fn lemma_bytes_of_one_process(
    c: CollectorView,
    r: Reading,
    m: CpuMetrics,
    root: i32,
    read: nat,
    written: nat,
)
    requires
        c.wf(),
        c.pid == Some(root),
        c.prev is Some,
        collected(c, r, m),
        r.io@.len() == 1,
        r.io@[0].pid == root,
        c.prev->0.io.contains_key(root),
        r.io@[0].read_bytes == c.prev->0.io[root].0 + read,
        r.io@[0].write_bytes == c.prev->0.io[root].1 + written,
    ensures
        m.process_disk_read_bytes matches Some(b) && b == read,
        m.process_disk_write_bytes matches Some(b) && b == written,
{
    let from = c.prev->0.io;
    let to = listed_io(r.io@);
    reveal_with_fuel(listed_io, 2);
    assert(to.dom() =~= set![root]);
    lemma_bytes_of_a_tree(c, r, m, root);
    lemma_gains_of_one(root, from, to);
}

// ---------------------------------------------------------------------------
// Counts and memory
// ---------------------------------------------------------------------------

/// Proportional set sizes in whole KiB, one by one.
pub open spec fn pss_kib(memory: Seq<ProcMemory>) -> Seq<int> {
    memory.map_values(
        |p: ProcMemory|
            match p.pss_bytes {
                Some(bytes) => bytes as int / 1024,
                None => 0,
            },
    )
}

/// Resident set sizes in KiB, one by one.
pub open spec fn rss_kib(memory: Seq<ProcMemory>) -> Seq<int> {
    memory.map_values(
        |p: ProcMemory|
            match p.rss_kib {
                Some(kib) => kib as int,
                None => 0,
            },
    )
}

/// The memory of a tree, as the sums over its members.
pub proof fn lemma_memory_sums(memory: Seq<ProcMemory>)
    ensures
        crate::process::pss_kib_sum(memory) == crate::collector::sum_of(pss_kib(memory)),
        crate::process::rss_kib_sum(memory) == crate::collector::sum_of(rss_kib(memory)),
        crate::process::pss_kib_sum(memory) >= 0,
        crate::process::rss_kib_sum(memory) >= 0,
        crate::process::pss_kib_sum(memory) <= memory.len() * u64::MAX,
        crate::process::rss_kib_sum(memory) <= memory.len() * u64::MAX,
    decreases memory.len(),
{
    if memory.len() > 0 {
        let front = memory.drop_last();
        lemma_memory_sums(front);
        assert(pss_kib(memory).drop_last() =~= pss_kib(front));
        assert(rss_kib(memory).drop_last() =~= rss_kib(front));
        let n = memory.len() as int;
        assert((n - 1) * u64::MAX + u64::MAX == n * u64::MAX) by (nonlinear_arith);
    }
}

/// What every reading says of counts and memory, the first one included: how many
/// processes are runnable, how many of the tree's processes are not its root, the
/// proportional and the resident set sizes of all of them in whole MiB, and who they
/// are.  Of GPUs it says nothing, and of a tree nothing where none is tracked.
pub proof fn lemma_counts_and_memory(c: CollectorView, r: Reading, m: CpuMetrics)
    requires
        collected(c, r, m),
    ensures
        r.procs_running matches Some(n) ==> m.process_count == n,
        r.procs_running is None ==> m.process_count == 0,
        c.pid matches Some(root) ==> {
            let tree = tree_ticks(r.scan@, root).dom();
            &&& m.process_child_count matches Some(n) && n == tree.remove(root).len()
            &&& m.process_pss_mib matches Some(mib) && mib == crate::collector::sum_of(
                pss_kib(r.memory@),
            ) / 1024
            &&& m.process_rss_mib matches Some(mib) && mib == crate::collector::sum_of(
                rss_kib(r.memory@),
            ) / 1024
            &&& m.process_tree_pids@.to_set() == tree
            &&& m.process_tree_pids@.no_duplicates()
        },
        c.pid is None ==> {
            &&& m.process_child_count is None
            &&& m.process_pss_mib is None
            &&& m.process_rss_mib is None
            &&& m.process_utime_secs is None
            &&& m.process_stime_secs is None
            &&& m.process_cores_used is None
            &&& m.process_disk_read_bytes is None
            &&& m.process_disk_write_bytes is None
            &&& m.process_tree_pids@.len() == 0
        },
        m.process_gpu_usage is None,
        m.process_gpu_vram_mib is None,
        m.process_gpu_utilized is None,
{
    if c.pid is Some {
        lemma_memory_sums(r.memory@);
        let n = r.memory.len() as int;
        assert(n == r.memory@.len());
        assert(n * u64::MAX <= u64::MAX * u64::MAX) by (nonlinear_arith)
            requires
                0 <= n <= u64::MAX,
        ;
        crate::collector::lemma_child_count(c, r, m);
    } else {
        crate::collector::lemma_process_fields_iff_tracked(c, r, m);
        let pids = m.process_tree_pids@;
        if pids.len() > 0 {
            assert(pids.to_set().contains(pids[0]));
        }
    }
}

// ---------------------------------------------------------------------------
// The control group
// ---------------------------------------------------------------------------

/// The control group's figures are there when both readings hold its counter: the
/// seconds are the difference, none if the counter went back, and the cores are the
/// seconds over the length of the interval, no more than there are to use.
pub proof fn lemma_group_figures(c: CollectorView, r: Reading, m: CpuMetrics)
    requires
        c.prev is Some,
        collected(c, r, m),
    ensures
        ({
            let before = c.prev->0.cgroup_secs;
            let now = snapshot_of(c, r).cgroup_secs;
            &&& before is None || now is None ==> m.cgroup_usage_secs is None
                && m.cgroup_utilization_pct is None
            &&& before is Some && now is Some ==> {
                &&& m.cgroup_usage_secs matches Some(used) && used@ == Number::less(
                    now->0,
                    before->0,
                ).greater(Number::nought())
                &&& m.cgroup_utilization_pct matches Some(cores) && cores@ == Number::over(
                    m.cgroup_usage_secs->0@,
                    seconds_between(c.prev->0.instant, r.instant_ns as int),
                ).lesser(c.effective_cores)
            }
        }),
{
}

/// A counter that comes from `a` to `b` whole seconds shows `b - a`, and one that
/// goes back shows nothing.
pub proof fn lemma_group_seconds(c: CollectorView, r: Reading, m: CpuMetrics, a: int, b: int)
    requires
        c.prev is Some,
        collected(c, r, m),
        c.prev->0.cgroup_secs == Some(Number::whole(a)),
        snapshot_of(c, r).cgroup_secs == Some(Number::whole(b)),
        0 <= a < MANTISSA_END,
        0 <= b < MANTISSA_END,
    ensures
        a <= b ==> (m.cgroup_usage_secs matches Some(used) && used@ == Number::whole(b - a)),
        b < a ==> (m.cgroup_usage_secs matches Some(used) && used@ == Number::nought()),
{
    lemma_group_figures(c, r, m);
    crate::power::lemma_pow2_values();
    crate::order::lemma_whole_finite(0, 12);
    if a <= b {
        crate::order::lemma_whole_difference(b, a);
        crate::order::lemma_whole_monotonic(0, b - a);
        crate::order::lemma_whole_is_number(b - a);
    } else {
        crate::number::lemma_small_whole_is_exact(a);
        crate::number::lemma_small_whole_is_exact(b);
        let one = crate::order::one();
        crate::power::lemma_pow2_positive(1074);
        let steps = a * one - b * one;
        assert(steps >= one) by (nonlinear_arith)
            requires
                steps == a * one - b * one,
                a >= b + 1,
                one > 0,
        ;
        let d = Number::less(Number::whole(b), Number::whole(a));
        assert(Number::whole(a).opposite().steps() == a * one);
        assert(d == crate::number::nearest(true, steps, 1));
        crate::order::lemma_nearest_sign(true, steps, 1);
        crate::order::lemma_one_as_double();
        crate::order::lemma_nearest_at_least(
            true,
            steps,
            1,
            crate::number::MANTISSA_NORMAL,
            1022,
        );
    }
}

/// The first reading of a control group shows nothing used where its counter can be
/// read, and says nothing where it cannot or there is no group.
pub proof fn lemma_first_group_figures(c: CollectorView, r: Reading, m: CpuMetrics)
    requires
        c.prev is None,
        collected(c, r, m),
    ensures
        m.cgroup_usage_secs is Some <==> snapshot_of(c, r).cgroup_secs is Some && c.source
            != crate::cgroup::CpuSource::ProcStat,
        m.cgroup_utilization_pct is Some <==> m.cgroup_usage_secs is Some,
        m.cgroup_usage_secs matches Some(used) ==> used@ == Number::nought(),
        m.cgroup_utilization_pct matches Some(cores) ==> cores@ == Number::nought(),
{
}

// ---------------------------------------------------------------------------
// What is kept
// ---------------------------------------------------------------------------

/// After a reading the collector knows: all that the reading shows, as it shows it;
/// of what it knew before, the processes that the reading misses for the first time;
/// and nothing else.  Which these are it remembers.  Everything but that stays as it
/// was.
pub proof fn lemma_what_is_kept(c: CollectorView, r: Reading, pid: i32)
    ensures
        ({
            let next = after(c, snapshot_of(c, r));
            let ticks = match c.pid {
                Some(root) => tree_ticks(r.scan@, root),
                None => Map::empty(),
            };
            let io = match c.pid {
                Some(_) => listed_io(r.io@),
                None => Map::empty(),
            };
            &&& next.pid == c.pid
            &&& next.source == c.source
            &&& next.limit == c.limit
            &&& next.effective_cores == c.effective_cores
            &&& next.prev matches Some(kept) && {
                &&& kept.total == r.total
                &&& kept.per_core == r.per_core@
                &&& kept.instant == r.instant_ns
                &&& kept.cgroup_secs == crate::cgroup::usage_secs(
                    c.source,
                    match r.cpu_stat {
                        Some(text) => Some(text@),
                        None => None,
                    },
                    r.cpuacct_usage@.map_values(
                        |f: Option<String>|
                            match f {
                                Some(text) => Some(text@),
                                None => None,
                            },
                    ),
                )
                &&& ticks.contains_key(pid) ==> kept.ticks.contains_key(pid) && kept.ticks[pid]
                    == ticks[pid]
                &&& io.contains_key(pid) ==> kept.io.contains_key(pid) && kept.io[pid] == io[pid]
                &&& !ticks.contains_key(pid) ==> (kept.ticks.contains_key(pid) <==> c.prev is Some
                    && c.prev->0.ticks.contains_key(pid) && !c.carried.contains(pid))
                &&& !io.contains_key(pid) ==> (kept.io.contains_key(pid) <==> c.prev is Some
                    && c.prev->0.io.contains_key(pid) && !c.carried.contains(pid))
                &&& !ticks.contains_key(pid) && kept.ticks.contains_key(pid) ==> kept.ticks[pid]
                    == c.prev->0.ticks[pid]
                &&& !io.contains_key(pid) && kept.io.contains_key(pid) ==> kept.io[pid]
                    == c.prev->0.io[pid]
                &&& next.carried.contains(pid) <==> !ticks.contains_key(pid)
                    && kept.ticks.contains_key(pid)
            }
        }),
{
    let files = crate::cgroup::all_contents(r.cpuacct_usage@);
    assert(files =~= r.cpuacct_usage@.map_values(
        |f: Option<String>|
            match f {
                Some(text) => Some(text@),
                None => None,
            },
    ));
}

/// The counter that a reading holds of the control group is that of the source that
/// the collector detected.
pub proof fn lemma_group_counter(c: CollectorView, r: Reading)
    ensures
        snapshot_of(c, r).cgroup_secs == (match after(c, snapshot_of(c, r)).prev {
            Some(kept) => kept.cgroup_secs,
            None => None,
        }),
        c.source == crate::cgroup::CpuSource::ProcStat ==> snapshot_of(c, r).cgroup_secs is None,
{
}

/// A new collector has seen nothing, tracks the process it was given, and takes its
/// source, its limit and its cores from the files and the machine; where the machine
/// does not tell its cores, there is one.
pub proof fn lemma_new_collector(
    c: CollectorView,
    pid: Option<i32>,
    files: crate::cgroup::CgroupFiles,
    physical_cores: Option<usize>,
)
    requires
        crate::collector::is_fresh(c, pid, files, physical_cores),
    ensures
        c.pid == pid,
        c.prev is None,
        forall|p: i32| !c.carried.contains(p),
        c.source == files.source(),
        c.limit == files.limit(),
        files.limit() is None && physical_cores is None ==> c.effective_cores == Number::whole(1),
        files.limit() is None && physical_cores is Some ==> c.effective_cores == Number::whole(
            physical_cores->0 as int,
        ),
        files.limit() matches Some(q) && physical_cores is Some ==> c.effective_cores
            == Number::whole(physical_cores->0 as int).lesser(files.limit()->0),
{
}

/// Telling a collector what to track changes that and nothing else.
pub proof fn lemma_retargeting(before: CollectorView, pid: Option<i32>, after: CollectorView)
    requires
        crate::collector::retargeted(before, pid, after),
    ensures
        after.pid == pid,
        after.prev == before.prev,
        after.source == before.source,
        after.limit == before.limit,
        after.effective_cores == before.effective_cores,
        after.carried == before.carried,
{
}

} // verus!
