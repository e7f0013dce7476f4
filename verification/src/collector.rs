//! The CPU collector: turns consecutive readings into what happened between them.

use crate::accounting::{correct_delta, pids_of, sum_gains, sum_gone, Counter};
use crate::cgroup::{
    detect_cfs_quota, detect_cpu_source, effective_cores, read_cgroup_usage_secs, CfsQuota,
    CgroupFiles, CpuSource,
};
use crate::cpu_time::{
    aggregate_util_cores, core_util_pct, cpu_idle, cpu_total, steal_util_pct, CpuTime,
};
use crate::metrics::{number_if, numbers, CpuMetrics};
use crate::number::{Double, Number, MANTISSA_END, POWER_MAX};
use crate::process::{
    process_tree_io, process_tree_memory_mib, process_tree_ticks, ProcIo, ProcMemory, ProcStat,
};
use std::collections::HashMap;
use std::collections::HashSet;
use vstd::prelude::*;

verus! {

broadcast use vstd::std_specs::hash::group_hash_axioms;

/// Everything that one collection reads from the kernel.
pub struct Reading {
    /// `procs_running` of `/proc/stat`: how many processes are in a runnable state.
    pub procs_running: Option<u32>,
    /// How many ticks make a second.
    pub ticks_per_second: u64,
    /// Aggregate across all logical CPUs.
    pub total: CpuTime,
    /// One entry per logical CPU.
    pub per_core: Vec<CpuTime>,
    /// `cpu.stat` of the unified hierarchy.
    pub cpu_stat: Option<String>,
    /// `cpuacct.usage` at each place where it may be.
    pub cpuacct_usage: Vec<Option<String>>,
    /// The process list.
    pub scan: Vec<ProcStat>,
    /// When the process list had been read: nanoseconds of a clock that never
    /// goes back.
    pub instant_ns: u64,
    /// Disk traffic of the processes of the tracked tree.
    pub io: Vec<ProcIo>,
    /// Memory of the processes of the tracked tree.
    pub memory: Vec<ProcMemory>,
}

impl Reading {
    /// Time passes, and tick sums are tick counts.
    pub open spec fn wf(&self) -> bool {
        &&& self.ticks_per_second > 0
        &&& self.total.wf()
        &&& forall|i: int| 0 <= i < self.per_core@.len() ==> (#[trigger] self.per_core@[i]).wf()
    }

    /// Whether time passes and tick sums are tick counts.
    pub fn is_valid(&self) -> (r: bool)
        ensures
            r == self.wf(),
    {
        if self.ticks_per_second == 0 || !self.total.fits() {
            return false;
        }
        let mut i: usize = 0;
        while i < self.per_core.len()
            invariant
                i <= self.per_core@.len(),
                forall|k: int| 0 <= k < i ==> (#[trigger] self.per_core@[k]).wf(),
            decreases self.per_core@.len() - i,
        {
            if !self.per_core[i].fits() {
                assert(!self.per_core@[i as int].wf());
                return false;
            }
            i += 1;
        }
        true
    }
}

/// What a collector keeps of a reading to compare the next one with.
struct Snapshot {
    total: CpuTime,
    per_core: Vec<CpuTime>,
    instant_ns: u64,
    cgroup_usage_secs: Option<Number>,
    proc_ticks: HashMap<i32, (u64, u64)>,
    proc_io: HashMap<i32, (u64, u64)>,
}

/// A snapshot as a mathematical value.
#[verifier::ext_equal]
pub struct SnapshotView {
    /// Aggregate across all logical CPUs.
    pub total: CpuTime,
    /// One entry per logical CPU.
    pub per_core: Seq<CpuTime>,
    /// When it was taken, in nanoseconds.
    pub instant: int,
    /// CPU time of the control group, in seconds.
    pub cgroup_secs: Option<Number>,
    /// User and system ticks by process.
    pub ticks: Map<i32, (u64, u64)>,
    /// Bytes read and written by process.
    pub io: Map<i32, (u64, u64)>,
}

impl SnapshotView {
    /// Tick sums are tick counts, the clock reads a `u64`, numbers are numbers, and
    /// there are finitely many processes.
    pub open spec fn wf(self) -> bool {
        &&& self.total.wf()
        &&& forall|i: int| 0 <= i < self.per_core.len() ==> (#[trigger] self.per_core[i]).wf()
        &&& 0 <= self.instant <= u64::MAX
        &&& self.cgroup_secs matches Some(secs) ==> secs.wf()
        &&& self.ticks.dom().finite()
    }
}

impl View for Snapshot {
    type V = SnapshotView;

    closed spec fn view(&self) -> SnapshotView {
        SnapshotView {
            total: self.total,
            per_core: self.per_core@,
            instant: self.instant_ns as int,
            cgroup_secs: self.cgroup_usage_secs,
            ticks: self.proc_ticks@,
            io: self.proc_io@,
        }
    }
}

/// Collects CPU metrics of the machine and of one process tree.
pub struct CpuCollector {
    pid: Option<i32>,
    prev: Option<Snapshot>,
    cpu_source: CpuSource,
    cfs_quota: CfsQuota,
    effective_cores: Number,
    carried_forward: HashSet<i32>,
}

/// A collector as a mathematical value.
#[verifier::ext_equal]
pub struct CollectorView {
    /// Root of the tracked process tree; `None` is system-wide only.
    pub pid: Option<i32>,
    /// What the next reading is compared with.
    pub prev: Option<SnapshotView>,
    /// Where CPU usage of the control group comes from.
    pub source: CpuSource,
    /// Most cores that may be used, if limited.
    pub limit: Option<Number>,
    /// Cores that are there to use.
    pub effective_cores: Number,
    /// Processes whose counters in `prev` were carried over from the snapshot
    /// before, because the last reading did not show them.
    pub carried: Set<i32>,
}

impl CollectorView {
    /// Numbers are numbers, and there is a number of cores to use.
    pub open spec fn wf(self) -> bool {
        &&& self.limit matches Some(q) ==> q.wf()
        &&& self.effective_cores.wf()
        &&& !(self.effective_cores is NotANumber)
        &&& self.prev matches Some(s) ==> s.wf()
    }
}

impl View for CpuCollector {
    type V = CollectorView;

    closed spec fn view(&self) -> CollectorView {
        CollectorView {
            pid: self.pid,
            prev: match self.prev {
                Some(s) => Some(s@),
                None => None,
            },
            source: self.cpu_source,
            limit: self.cfs_quota.max_cores,
            effective_cores: self.effective_cores,
            carried: self.carried_forward@,
        }
    }
}

// ---------------------------------------------------------------------------
// What a reading means
// ---------------------------------------------------------------------------

/// The ticks of the tracked tree, none when no tree is tracked.
pub open spec fn tracked_ticks(pid: Option<i32>, scan: Seq<ProcStat>) -> Map<i32, (u64, u64)> {
    match pid {
        Some(root) => crate::process::tree_ticks(scan, root),
        None => Map::empty(),
    }
}

/// The disk traffic of the tracked tree, none when no tree is tracked.
pub open spec fn tracked_io(pid: Option<i32>, io: Seq<ProcIo>) -> Map<i32, (u64, u64)> {
    match pid {
        Some(_) => crate::process::listed_io(io),
        None => Map::empty(),
    }
}

/// The snapshot that a collector takes of a reading.
pub open spec fn snapshot_of(c: CollectorView, r: Reading) -> SnapshotView {
    SnapshotView {
        total: r.total,
        per_core: r.per_core@,
        instant: r.instant_ns as int,
        cgroup_secs: crate::cgroup::usage_secs(
            c.source,
            crate::cgroup::contents(r.cpu_stat),
            crate::cgroup::all_contents(r.cpuacct_usage@),
        ),
        ticks: tracked_ticks(c.pid, r.scan@),
        io: tracked_io(c.pid, r.io@),
    }
}

/// How many runnable processes a reading shows; zero when it does not say.
pub open spec fn count_of(r: Reading) -> u32 {
    match r.procs_running {
        Some(n) => n,
        None => 0,
    }
}

/// `value` if a process tree is tracked.
pub open spec fn if_tracked<T>(pid: Option<i32>, value: T) -> Option<T> {
    match pid {
        Some(_) => Some(value),
        None => None,
    }
}

/// `value` if a process tree is tracked and disk traffic is known of at least one
/// of its processes.
pub open spec fn if_io_known<T>(
    pid: Option<i32>,
    io: Map<i32, (u64, u64)>,
    value: T,
) -> Option<T> {
    if io.dom() == Set::<i32>::empty() {
        None
    } else {
        if_tracked(pid, value)
    }
}

/// The members of a process tree, in any order.
pub open spec fn lists_pids(pids: Seq<i32>, ticks: Map<i32, (u64, u64)>) -> bool {
    pids.no_duplicates() && pids.to_set() == ticks.dom()
}

/// What is the same for every reading: the process count, how many descendants the
/// root of the tree has, the memory of the tree, and nothing about GPUs.
pub open spec fn counts_of(c: CollectorView, r: Reading, m: CpuMetrics) -> bool {
    let curr = snapshot_of(c, r);
    &&& m.process_count == count_of(r)
    &&& m.process_child_count == if_tracked(
        c.pid,
        curr.ticks.dom().remove(c.pid->0).len() as u32,
    )
    &&& m.process_pss_mib == if_tracked(
        c.pid,
        (crate::process::pss_kib_sum(r.memory@) / 1024) as u128,
    )
    &&& m.process_rss_mib == if_tracked(
        c.pid,
        (crate::process::rss_kib_sum(r.memory@) / 1024) as u128,
    )
    &&& m.process_gpu_usage is None
    &&& m.process_gpu_vram_mib is None
    &&& m.process_gpu_utilized is None
    &&& lists_pids(m.process_tree_pids@, curr.ticks)
}

/// The metrics of a first reading: there is nothing to compare it with, so
/// nothing has happened yet.
pub open spec fn first_metrics(c: CollectorView, r: Reading, m: CpuMetrics) -> bool {
    let curr = snapshot_of(c, r);
    let in_group = curr.cgroup_secs is Some && c.source.spec_is_cgroup();
    let zero = Number::nought();
    &&& counts_of(c, r, m)
    &&& m.utilization_pct@ == zero
    &&& number_if(m.cgroup_utilization_pct) == (if in_group {
        Some(zero)
    } else {
        None
    })
    &&& number_if(m.cgroup_usage_secs) == (if in_group {
        Some(zero)
    } else {
        None
    })
    &&& numbers(m.per_core_pct@) == Seq::new(curr.per_core.len(), |i: int| zero)
    &&& m.utime_secs@ == zero
    &&& m.stime_secs@ == zero
    &&& m.steal_time_secs@ == zero
    &&& m.steal_time_pct@ == zero
    &&& numbers(m.per_core_steal_time_pct@) == Seq::new(curr.per_core.len(), |i: int| zero)
    &&& number_if(m.process_cores_used) == if_tracked(c.pid, zero)
    &&& number_if(m.process_utime_secs) == if_tracked(c.pid, zero)
    &&& number_if(m.process_stime_secs) == if_tracked(c.pid, zero)
    &&& m.process_disk_read_bytes == if_io_known(c.pid, curr.io, 0u128)
    &&& m.process_disk_write_bytes == if_io_known(c.pid, curr.io, 0u128)
}

// ---------------------------------------------------------------------------
// What happened between two snapshots
// ---------------------------------------------------------------------------

/// Nanoseconds as seconds: the whole seconds, and what is left of a second.
pub open spec fn nanos_as_secs(nanos: int) -> Number {
    Number::plus(
        Number::whole(nanos / 1_000_000_000),
        Number::over(Number::whole(nanos % 1_000_000_000), Number::whole(1_000_000_000)),
    )
}

/// A thousandth.
pub open spec fn thousandth() -> Number {
    Number::over(Number::whole(1), Number::whole(1000))
}

/// Seconds between two snapshots, at least a thousandth of one.
pub open spec fn elapsed_secs(prev: SnapshotView, curr: SnapshotView) -> Number {
    nanos_as_secs(crate::cpu_time::advance(prev.instant, curr.instant)).greater(thousandth())
}

/// A number of ticks in seconds.
pub open spec fn seconds(ticks: int, tps: int) -> Number {
    Number::over(Number::whole(ticks), Number::whole(tps))
}

/// A value for each core that both snapshots know.
pub open spec fn by_core(
    prev: SnapshotView,
    curr: SnapshotView,
    f: spec_fn(CpuTime, CpuTime) -> Number,
) -> Seq<Number> {
    let n = if prev.per_core.len() <= curr.per_core.len() {
        prev.per_core.len()
    } else {
        curr.per_core.len()
    };
    Seq::new(n, |i: int| f(prev.per_core[i], curr.per_core[i]))
}

/// The ticks that the tree used, without those of exited members that were
/// counted before.
pub open spec fn tree_used(prev: SnapshotView, curr: SnapshotView, which: Counter) -> int {
    crate::accounting::corrected(
        crate::accounting::raw_delta(prev.ticks, curr.ticks, which),
        crate::accounting::exited_total(prev.ticks, curr.ticks, which),
    )
}

/// The ticks that the whole machine was not idle.
pub open spec fn busy_ticks(prev: SnapshotView, curr: SnapshotView) -> int {
    let total = crate::cpu_time::advance(prev.total.total_ticks(), curr.total.total_ticks());
    let idle = crate::cpu_time::advance(prev.total.idle_ticks(), curr.total.idle_ticks());
    if idle < total {
        total - idle
    } else {
        0
    }
}

/// The most cores that a process tree can have used: what the quota allows, or
/// every core.
pub open spec fn core_cap(limit: Option<Number>, curr: SnapshotView) -> Number {
    match limit {
        Some(q) => q,
        None => Number::whole(curr.per_core.len() as int),
    }
}

/// The largest finite double.
pub open spec fn largest() -> Number {
    Number::Finite {
        negative: false,
        mantissa: (MANTISSA_END - 1) as u64,
        power: POWER_MAX,
    }
}

/// The cores that the machine was busy with, no bound at all where no time has
/// passed for it.
pub open spec fn machine_cap(prev: SnapshotView, curr: SnapshotView, tps: int) -> Number {
    let total = crate::cpu_time::advance(prev.total.total_ticks(), curr.total.total_ticks());
    let busy_secs = if total > 0 {
        seconds(busy_ticks(prev, curr), tps)
    } else {
        largest()
    };
    Number::over(busy_secs, elapsed_secs(prev, curr))
}

/// The cores that the tree used: what its ticks come to, but no more than the
/// machine was busy and no more than the quota allows.
pub open spec fn tree_cores(
    limit: Option<Number>,
    prev: SnapshotView,
    curr: SnapshotView,
    tps: int,
) -> Number {
    let used = Number::plus(
        seconds(tree_used(prev, curr, Counter::First), tps),
        seconds(tree_used(prev, curr, Counter::Second), tps),
    );
    let own = Number::over(used, elapsed_secs(prev, curr)).greater(Number::nought());
    own.lesser(machine_cap(prev, curr, tps)).lesser(core_cap(limit, curr))
}

/// The seconds that the control group used, when both snapshots know its counter.
pub open spec fn group_used(prev: SnapshotView, curr: SnapshotView) -> Option<Number> {
    match (prev.cgroup_secs, curr.cgroup_secs) {
        (Some(p), Some(c)) => Some(Number::less(c, p).greater(Number::nought())),
        _ => None,
    }
}

/// The metrics of a reading that follows the snapshot `prev`.
pub open spec fn later_metrics(
    c: CollectorView,
    prev: SnapshotView,
    r: Reading,
    m: CpuMetrics,
) -> bool {
    let curr = snapshot_of(c, r);
    let tps = r.ticks_per_second as int;
    &&& counts_of(c, r, m)
    &&& m.utilization_pct@ == crate::cpu_time::cores_in_use(
        prev.total,
        curr.total,
        curr.per_core.len() as int,
    )
    &&& number_if(m.cgroup_usage_secs) == group_used(prev, curr)
    &&& number_if(m.cgroup_utilization_pct) == (match group_used(prev, curr) {
        Some(used) => Some(
            Number::over(used, elapsed_secs(prev, curr)).lesser(c.effective_cores),
        ),
        None => None,
    })
    &&& numbers(m.per_core_pct@) == by_core(
        prev,
        curr,
        |p: CpuTime, q: CpuTime| crate::cpu_time::core_pct(p, q),
    )
    &&& m.utime_secs@ == seconds(
        crate::cpu_time::advance(prev.total.user_ticks(), curr.total.user_ticks()),
        tps,
    )
    &&& m.stime_secs@ == seconds(
        crate::cpu_time::advance(prev.total.system as int, curr.total.system as int),
        tps,
    )
    &&& m.steal_time_secs@ == seconds(
        crate::cpu_time::advance(
            crate::cpu_time::or_zero(prev.total.steal),
            crate::cpu_time::or_zero(curr.total.steal),
        ),
        tps,
    )
    &&& m.steal_time_pct@ == crate::cpu_time::steal_pct(prev.total, curr.total)
    &&& numbers(m.per_core_steal_time_pct@) == by_core(
        prev,
        curr,
        |p: CpuTime, q: CpuTime| crate::cpu_time::steal_pct(p, q),
    )
    &&& number_if(m.process_utime_secs) == if_tracked(
        c.pid,
        seconds(tree_used(prev, curr, Counter::First), tps),
    )
    &&& number_if(m.process_stime_secs) == if_tracked(
        c.pid,
        seconds(tree_used(prev, curr, Counter::Second), tps),
    )
    &&& number_if(m.process_cores_used) == if_tracked(
        c.pid,
        tree_cores(c.limit, prev, curr, tps),
    )
    &&& m.process_disk_read_bytes == if_io_known(
        c.pid,
        curr.io,
        crate::accounting::raw_delta(prev.io, curr.io, Counter::First) as u128,
    )
    &&& m.process_disk_write_bytes == if_io_known(
        c.pid,
        curr.io,
        crate::accounting::raw_delta(prev.io, curr.io, Counter::Second) as u128,
    )
}

/// The metrics that a collector makes of a reading: zeros for the first one, and
/// for every later one what happened since the reading before.
pub open spec fn collected(c: CollectorView, r: Reading, m: CpuMetrics) -> bool {
    match c.prev {
        None => first_metrics(c, r, m),
        Some(prev) => later_metrics(c, prev, r, m),
    }
}

// ---------------------------------------------------------------------------
// What is kept for the next reading
// ---------------------------------------------------------------------------

/// `curr`, and from `prev` what `curr` does not show, unless it is in `skip`.
pub open spec fn carry_over(
    prev: Map<i32, (u64, u64)>,
    curr: Map<i32, (u64, u64)>,
    skip: Set<i32>,
) -> Map<i32, (u64, u64)> {
    Map::new(
        |pid: i32| curr.contains_key(pid) || (prev.contains_key(pid) && !skip.contains(pid)),
        |pid: i32|
            if curr.contains_key(pid) {
                curr[pid]
            } else {
                prev[pid]
            },
    )
}

/// The processes that are carried over from `prev`.
pub open spec fn carried_pids(
    prev: Map<i32, (u64, u64)>,
    curr: Map<i32, (u64, u64)>,
    skip: Set<i32>,
) -> Set<i32> {
    Set::new(|pid: i32| prev.contains_key(pid) && !curr.contains_key(pid) && !skip.contains(pid))
}

/// The collector after it has seen the snapshot `curr`: it keeps it, together
/// with the counters of processes that have just disappeared, in case they only
/// could not be read.
pub open spec fn after(c: CollectorView, curr: SnapshotView) -> CollectorView {
    match c.prev {
        None => CollectorView { prev: Some(curr), carried: Set::empty(), ..c },
        Some(prev) => CollectorView {
            prev: Some(
                SnapshotView {
                    ticks: carry_over(prev.ticks, curr.ticks, c.carried),
                    io: carry_over(prev.io, curr.io, c.carried),
                    ..curr
                },
            ),
            carried: carried_pids(prev.ticks, curr.ticks, c.carried),
            ..c
        },
    }
}

// ---------------------------------------------------------------------------
// Laws
// ---------------------------------------------------------------------------

/// Process metrics are there exactly when a process tree is tracked, and those on
/// its disk traffic when in addition the reading holds some of it.
pub proof fn lemma_process_fields_iff_tracked(c: CollectorView, r: Reading, m: CpuMetrics)
    requires
        collected(c, r, m),
    ensures
        c.pid is None ==> crate::metrics::untracked(m),
        c.pid is Some ==> crate::metrics::tracked_fully(m),
        m.process_disk_read_bytes is Some <==> c.pid is Some && r.io@.len() > 0,
        m.process_disk_write_bytes is Some <==> c.pid is Some && r.io@.len() > 0,
{
    if r.io@.len() > 0 {
        assert(crate::process::listed_io(r.io@).dom().contains(r.io@.last().pid));
    } else {
        assert(crate::process::listed_io(r.io@).dom() =~= Set::<i32>::empty());
    }
    assert(Map::<i32, (u64, u64)>::empty().dom() =~= Set::<i32>::empty());
}

/// A first reading measures nothing that needs two.
pub proof fn lemma_first_reading_is_zero(c: CollectorView, r: Reading, m: CpuMetrics)
    requires
        c.prev is None,
        collected(c, r, m),
    ensures
        m.utilization_pct@.is_nought(),
        m.utime_secs@.is_nought(),
        m.stime_secs@.is_nought(),
        m.steal_time_secs@.is_nought(),
        m.steal_time_pct@.is_nought(),
        m.per_core_pct@.len() == r.per_core@.len(),
        forall|i: int| 0 <= i < m.per_core_pct@.len() ==> (#[trigger] m.per_core_pct@[i])@.is_nought(),
        forall|i: int|
            0 <= i < m.per_core_steal_time_pct@.len() ==> (
            #[trigger] m.per_core_steal_time_pct@[i])@.is_nought(),
        m.process_utime_secs matches Some(u) ==> u@.is_nought(),
        m.process_stime_secs matches Some(s) ==> s@.is_nought(),
        m.process_cores_used matches Some(n) ==> n@.is_nought(),
        m.cgroup_usage_secs matches Some(s) ==> s@.is_nought(),
        m.cgroup_utilization_pct matches Some(n) ==> n@.is_nought(),
{
    let zeros = Seq::new(r.per_core@.len(), |i: int| Number::nought());
    assert(numbers(m.per_core_pct@).len() == zeros.len());
    assert forall|i: int| 0 <= i < m.per_core_pct@.len() implies (
    #[trigger] m.per_core_pct@[i])@.is_nought() by {
        assert(numbers(m.per_core_pct@)[i] == zeros[i]);
    }
    assert(numbers(m.per_core_steal_time_pct@).len() == zeros.len());
    assert forall|i: int| 0 <= i < m.per_core_steal_time_pct@.len() implies (
    #[trigger] m.per_core_steal_time_pct@[i])@.is_nought() by {
        assert(numbers(m.per_core_steal_time_pct@)[i] == zeros[i]);
    }
}

/// The descendants are the processes of the tree other than its root, whether the
/// root is still there or not.
pub proof fn lemma_child_count(c: CollectorView, r: Reading, m: CpuMetrics)
    requires
        collected(c, r, m),
        c.pid is Some,
    ensures
        m.process_child_count matches Some(n) && {
            &&& n == m.process_tree_pids@.to_set().remove(c.pid->0).len()
            &&& m.process_tree_pids@.contains(c.pid->0) ==> n == m.process_tree_pids@.len() - 1
            &&& !m.process_tree_pids@.contains(c.pid->0) ==> n == m.process_tree_pids@.len()
        },
{
    let root = c.pid->0;
    let ticks = snapshot_of(c, r).ticks;
    crate::process::lemma_tree_ticks_finite(r.scan@, root);
    m.process_tree_pids@.unique_seq_to_set();
    lemma_descendants_fit(ticks.dom(), root);
    if !ticks.contains_key(root) {
        assert(ticks.dom().remove(root) =~= ticks.dom());
    }
}

/// There are fewer processes beside any one of them than a `u32` counts.
proof fn lemma_descendants_fit(pids: Set<i32>, root: i32)
    requires
        pids.finite(),
    ensures
        pids.remove(root).len() <= u32::MAX,
        pids.remove(root).len() == (if pids.contains(root) {
            pids.len() - 1
        } else {
            pids.len() as int
        }),
{
    crate::accounting::lemma_pid_count(pids);
    crate::accounting::lemma_pid_count(pids.remove(root).insert(root));
    if pids.contains(root) {
        assert(pids.remove(root).insert(root) =~= pids);
    } else {
        assert(pids.remove(root) =~= pids);
    }
}

/// The time between two snapshots is a number above zero.
pub proof fn lemma_time_passes(prev: SnapshotView, curr: SnapshotView)
    requires
        prev.wf(),
        curr.wf(),
    ensures
        elapsed_secs(prev, curr) is Finite,
        !elapsed_secs(prev, curr).minus(),
        elapsed_secs(prev, curr).steps() > 0,
{
    let one = crate::order::one();
    let nanos = crate::cpu_time::advance(prev.instant, curr.instant);
    let (whole, rest, giga) = (
        Number::whole(nanos / 1_000_000_000),
        Number::whole(nanos % 1_000_000_000),
        Number::whole(1_000_000_000),
    );
    crate::power::lemma_pow2_values();
    crate::power::lemma_pow2_positive(1074);
    crate::order::lemma_whole_finite(nanos / 1_000_000_000, 64);
    crate::order::lemma_whole_finite(nanos % 1_000_000_000, 64);
    crate::order::lemma_whole_finite(1_000_000_000, 64);
    crate::order::lemma_over_shrinks(rest, giga, 64);
    crate::order::lemma_sum_finite(whole, Number::over(rest, giga), 64);
    lemma_thousandth();
    crate::number::lemma_zero_steps(elapsed_secs(prev, curr));
}

/// A thousandth is more than nothing and less than one.
pub proof fn lemma_thousandth()
    ensures
        thousandth() is Finite,
        !thousandth().minus(),
        0 < thousandth().steps() <= crate::order::one(),
{
    let one = crate::order::one();
    crate::power::lemma_pow2_values();
    crate::power::lemma_pow2_positive(1074);
    crate::number::lemma_small_whole_is_exact(1);
    crate::number::lemma_small_whole_is_exact(1000);
    crate::order::lemma_whole_finite(1, 64);
    crate::order::lemma_over_shrinks(Number::whole(1), Number::whole(1000), 0);
    crate::power::lemma_pow2_monotonic(12, 1074);
    assert(1 * one == one && crate::power::pow2(0) == 1 && 1 * crate::power::pow2(0) == 1);
    assert((1 * one) * one >= (1000 * one) * 1) by (nonlinear_arith)
        requires
            one >= 0x1000,
    ;
    crate::order::lemma_nearest_at_least(false, (1 * one) * one, 1000 * one, 1, 0);
}

/// What the machine was busy with is a number of cores, and not a negative one.
pub proof fn lemma_machine_cap(prev: SnapshotView, curr: SnapshotView, tps: u64)
    requires
        prev.wf(),
        curr.wf(),
        tps > 0,
    ensures
        Number::nought().at_most(machine_cap(prev, curr, tps as int)),
{
    let elapsed = elapsed_secs(prev, curr);
    let busy = busy_ticks(prev, curr);
    lemma_time_passes(prev, curr);
    crate::power::lemma_pow2_values();
    crate::order::lemma_whole_finite(busy, 64);
    crate::order::lemma_whole_finite(tps as int, 64);
    crate::order::lemma_over_shrinks(Number::whole(busy), Number::whole(tps as int), 64);
    let total = crate::cpu_time::advance(prev.total.total_ticks(), curr.total.total_ticks());
    let secs = if total > 0 {
        seconds(busy, tps as int)
    } else {
        largest()
    };
    let one = crate::order::one();
    crate::power::lemma_pow2_positive(1074);
    crate::number::lemma_zero_steps(secs);
    assert(secs.steps() * one >= 0) by (nonlinear_arith)
        requires
            secs.steps() >= 0,
            one > 0,
    ;
    crate::order::lemma_nearest_sign(false, secs.steps() * one, elapsed.steps());
    crate::number::lemma_zero_steps(machine_cap(prev, curr, tps as int));
    assert(0 * crate::power::pow2(0) == 0) by (nonlinear_arith);
}

/// A process tree never uses more cores than the quota allows or the machine has,
/// and never more than the whole machine was busy.
pub proof fn lemma_tree_cores_capped(
    limit: Option<Number>,
    prev: SnapshotView,
    curr: SnapshotView,
    tps: u64,
)
    requires
        prev.wf(),
        curr.wf(),
        tps > 0,
    ensures
        ({
            let cores = tree_cores(limit, prev, curr, tps as int);
            &&& core_cap(limit, curr) is NotANumber || cores.at_most(core_cap(limit, curr))
            &&& cores.at_most(machine_cap(prev, curr, tps as int))
        }),
{
    let used = Number::plus(
        seconds(tree_used(prev, curr, Counter::First), tps as int),
        seconds(tree_used(prev, curr, Counter::Second), tps as int),
    );
    let own = Number::over(used, elapsed_secs(prev, curr)).greater(Number::nought());
    let machine = machine_cap(prev, curr, tps as int);
    let cap = core_cap(limit, curr);
    let within = own.lesser(machine);
    lemma_machine_cap(prev, curr, tps);
    crate::order::lemma_lesser(own, machine);
    crate::order::lemma_lesser(within, cap);
    crate::order::lemma_at_most_transitive(within.lesser(cap), within, machine);
}

/// The process tree is part of the machine: no reading ever shows it using more
/// cores than the machine was busy with in the same interval, than the quota
/// allows, or, without one, than there are.  A quota that is not a number allows
/// anything.
pub proof fn lemma_process_within_machine(c: CollectorView, r: Reading, m: CpuMetrics)
    requires
        c.wf(),
        r.wf(),
        c.prev is Some,
        collected(c, r, m),
    ensures
        ({
            let prev = c.prev->0;
            let curr = snapshot_of(c, r);
            let cap = core_cap(c.limit, curr);
            m.process_cores_used matches Some(n) ==> {
                &&& cap is NotANumber || n@.at_most(cap)
                &&& n@.at_most(machine_cap(prev, curr, r.ticks_per_second as int))
            }
        }),
{
    lemma_snapshot_wf(c, r);
    lemma_tree_cores_capped(c.limit, c.prev->0, snapshot_of(c, r), r.ticks_per_second);
}

/// What a collector takes of a reading is in order.
proof fn lemma_snapshot_wf(c: CollectorView, r: Reading)
    requires
        r.wf(),
    ensures
        snapshot_of(c, r).wf(),
{
    if let Some(root) = c.pid {
        crate::process::lemma_tree_ticks_finite(r.scan@, root);
    }
    crate::cgroup::lemma_usage_secs_wf(
        c.source,
        crate::cgroup::contents(r.cpu_stat),
        crate::cgroup::all_contents(r.cpuacct_usage@),
    );
}

/// A collector that has seen a reading is in order.
pub proof fn lemma_after_wf(c: CollectorView, r: Reading)
    requires
        c.wf(),
        r.wf(),
    ensures
        after(c, snapshot_of(c, r)).wf(),
{
    let curr = snapshot_of(c, r);
    lemma_snapshot_wf(c, r);
    if let Some(prev) = c.prev {
        let kept = carry_over(prev.ticks, curr.ticks, c.carried);
        assert(kept.dom().subset_of(prev.ticks.dom().union(curr.ticks.dom())));
        vstd::set_lib::lemma_len_subset(kept.dom(), prev.ticks.dom().union(curr.ticks.dom()));
    }
}

/// Nothing that is not known yet has gained anything, and nothing is gone.
proof fn lemma_nothing_gained(
    prev: Map<i32, (u64, u64)>,
    curr: Map<i32, (u64, u64)>,
    which: Counter,
)
    requires
        prev.dom() == Set::<i32>::empty(),
        curr.dom().finite(),
    ensures
        crate::accounting::raw_delta(prev, curr, which) == 0,
        crate::accounting::exited_total(prev, curr, which) == 0,
{
    let f = |pid: i32| crate::accounting::gain(prev, curr, which, pid);
    assert forall|pid: i32| curr.dom().contains(pid) implies 0 <= #[trigger] f(pid) <= 0 by {
        assert(!prev.dom().contains(pid));
    }
    crate::accounting::lemma_total_bounds(curr.dom(), f, 0);
    assert(crate::accounting::gone(prev, curr) =~= Set::empty());
    crate::accounting::lemma_total_empty(
        |pid: i32| crate::accounting::counter(prev[pid], which) as int,
    );
}

/// The first reading of a tree charges it nothing: where nothing was known of any of
/// its processes, no time, no cores and no bytes are counted, unless the quota is
/// negative.
pub proof fn lemma_first_charge_is_zero(c: CollectorView, r: Reading, m: CpuMetrics)
    requires
        c.wf(),
        r.wf(),
        collected(c, r, m),
        c.prev matches Some(prev) ==> prev.ticks.dom() == Set::<i32>::empty() && prev.io.dom()
            == Set::<i32>::empty(),
        c.limit matches Some(q) ==> q is NotANumber || Number::nought().at_most(q),
    ensures
        m.process_utime_secs matches Some(u) ==> u@.is_nought(),
        m.process_stime_secs matches Some(s) ==> s@.is_nought(),
        m.process_cores_used matches Some(n) ==> n@.is_nought(),
        m.process_disk_read_bytes matches Some(b) ==> b == 0,
        m.process_disk_write_bytes matches Some(b) ==> b == 0,
{
    if let Some(prev) = c.prev {
        let curr = snapshot_of(c, r);
        let tps = r.ticks_per_second as int;
        lemma_snapshot_wf(c, r);
        if c.pid is Some {
            crate::process::lemma_listed_io_finite(r.io@);
        }
        assert(Map::<i32, (u64, u64)>::empty().dom() =~= Set::<i32>::empty());
        lemma_nothing_gained(prev.ticks, curr.ticks, Counter::First);
        lemma_nothing_gained(prev.ticks, curr.ticks, Counter::Second);
        lemma_nothing_gained(prev.io, curr.io, Counter::First);
        lemma_nothing_gained(prev.io, curr.io, Counter::Second);
        crate::power::lemma_pow2_values();
        crate::power::lemma_pow2_positive(1074);
        crate::order::lemma_whole_finite(0, 64);
        crate::order::lemma_whole_finite(tps, 64);
        let none = seconds(0, tps);
        crate::order::lemma_over_shrinks(Number::whole(0), Number::whole(tps), 64);
        crate::number::lemma_zero_steps(none);
        crate::order::lemma_sum_finite(none, none, 64);
        lemma_time_passes(prev, curr);
        let zero = Number::nought();
        assert(0 * crate::power::pow2(0) == 0) by (nonlinear_arith);
        crate::order::lemma_nothing_over(zero, elapsed_secs(prev, curr));
        let own = Number::over(zero, elapsed_secs(prev, curr)).greater(zero);
        crate::number::lemma_zero_steps(own);
        lemma_machine_cap(prev, curr, r.ticks_per_second);
        crate::order::lemma_at_most_transitive(
            own,
            zero,
            machine_cap(prev, curr, tps),
        );
        crate::order::lemma_whole_monotonic(0, curr.per_core.len() as int);
        if !(core_cap(c.limit, curr) is NotANumber) {
            crate::order::lemma_at_most_transitive(own, zero, core_cap(c.limit, curr));
        }
    }
}

/// How far a counter moved from each reading to the next.
pub open spec fn moves(counts: Seq<int>) -> Seq<int> {
    Seq::new((counts.len() - 1) as nat, |i: int| crate::cpu_time::advance(counts[i], counts[i + 1]))
}

/// The sum of a list.
pub open spec fn sum_of(values: Seq<int>) -> int
    decreases values.len(),
{
    if values.len() == 0 {
        0
    } else {
        sum_of(values.drop_last()) + values.last()
    }
}

/// What a counter that never goes back moved adds up to what it moved in all.
proof fn lemma_moves_add_up(counts: Seq<int>)
    requires
        counts.len() > 0,
        forall|i: int| 0 <= i < counts.len() - 1 ==> #[trigger] counts[i] <= counts[i + 1],
    ensures
        sum_of(moves(counts)) == counts.last() - counts[0],
    decreases counts.len(),
{
    if counts.len() > 1 {
        let shorter = counts.drop_last();
        lemma_moves_add_up(shorter);
        assert(moves(counts).drop_last() =~= moves(shorter));
        assert(counts[counts.len() - 2] <= counts[counts.len() - 1]);
    } else {
        assert(moves(counts) =~= Seq::empty());
    }
}

/// The ticks in user mode that each reading has counted.
pub open spec fn user_counts(r: Seq<Reading>) -> Seq<int> {
    r.map_values(|x: Reading| x.total.user_ticks())
}

/// The ticks in system mode that each reading has counted.
pub open spec fn system_counts(r: Seq<Reading>) -> Seq<int> {
    r.map_values(|x: Reading| x.total.system as int)
}

/// User and system time add up: over any number of readings in a row, each interval
/// reports the seconds of its own ticks, and the ticks of all intervals together
/// are those between the first reading and the last.
pub proof fn lemma_seconds_add_up(c: Seq<CollectorView>, r: Seq<Reading>, m: Seq<CpuMetrics>)
    requires
        r.len() > 0,
        c.len() == r.len(),
        m.len() == r.len(),
        forall|i: int| 0 <= i < r.len() ==> #[trigger] collected(c[i], r[i], m[i]),
        forall|i: int|
            0 <= i < r.len() - 1 ==> #[trigger] c[i + 1] == after(c[i], snapshot_of(c[i], r[i])),
        forall|i: int|
            0 <= i < r.len() - 1 ==> (#[trigger] r[i]).total.user_ticks() <= r[i
                + 1].total.user_ticks(),
        forall|i: int|
            0 <= i < r.len() - 1 ==> (#[trigger] r[i]).total.system <= r[i + 1].total.system,
    ensures
        forall|i: int|
            1 <= i < r.len() ==> (#[trigger] m[i]).utime_secs@ == seconds(
                moves(user_counts(r))[i - 1],
                r[i].ticks_per_second as int,
            ),
        forall|i: int|
            1 <= i < r.len() ==> (#[trigger] m[i]).stime_secs@ == seconds(
                moves(system_counts(r))[i - 1],
                r[i].ticks_per_second as int,
            ),
        sum_of(moves(user_counts(r))) == r.last().total.user_ticks() - r[0].total.user_ticks(),
        sum_of(moves(system_counts(r))) == r.last().total.system - r[0].total.system,
{
    let (users, systems) = (user_counts(r), system_counts(r));
    assert forall|i: int| 0 <= i < users.len() - 1 implies #[trigger] users[i] <= users[i + 1] by {
        assert(r[i].total.user_ticks() <= r[i + 1].total.user_ticks());
    }
    assert forall|i: int| 0 <= i < systems.len() - 1 implies #[trigger] systems[i] <= systems[i
        + 1] by {
        assert(r[i].total.system <= r[i + 1].total.system);
    }
    lemma_moves_add_up(users);
    lemma_moves_add_up(systems);
    assert forall|i: int| 1 <= i < r.len() implies {
        &&& (#[trigger] m[i]).utime_secs@ == seconds(
            moves(users)[i - 1],
            r[i].ticks_per_second as int,
        )
        &&& m[i].stime_secs@ == seconds(moves(systems)[i - 1], r[i].ticks_per_second as int)
    } by {
        let j = i - 1;
        assert(c[j + 1] == after(c[j], snapshot_of(c[j], r[j])));
        assert(collected(c[i], r[i], m[i]));
    }
}

/// The control group is never said to use more cores than there are to use.
pub proof fn lemma_group_cores_capped(c: CollectorView, r: Reading, m: CpuMetrics)
    requires
        c.wf(),
        c.prev is Some,
        collected(c, r, m),
    ensures
        m.cgroup_utilization_pct matches Some(n) ==> n@.at_most(c.effective_cores),
        m.cgroup_utilization_pct is Some <==> m.cgroup_usage_secs is Some,
{
    let prev = c.prev->0;
    let curr = snapshot_of(c, r);
    if let Some(used) = group_used(prev, curr) {
        crate::order::lemma_lesser(
            Number::over(used, elapsed_secs(prev, curr)),
            c.effective_cores,
        );
    }
}

/// What a reading shows is always kept as it is, and what is kept beside it stood
/// in the snapshot before.
pub proof fn lemma_kept(c: CollectorView, curr: SnapshotView, pid: i32)
    ensures
        after(c, curr).prev matches Some(kept) && {
            &&& kept.total == curr.total
            &&& kept.per_core == curr.per_core
            &&& kept.instant == curr.instant
            &&& kept.cgroup_secs == curr.cgroup_secs
            &&& curr.ticks.contains_key(pid) ==> kept.ticks.contains_key(pid) && kept.ticks[pid]
                == curr.ticks[pid]
            &&& curr.io.contains_key(pid) ==> kept.io.contains_key(pid) && kept.io[pid]
                == curr.io[pid]
            &&& kept.ticks.contains_key(pid) && !curr.ticks.contains_key(pid) ==> {
                &&& c.prev is Some
                &&& c.prev->0.ticks.contains_key(pid)
                &&& kept.ticks[pid] == c.prev->0.ticks[pid]
                &&& after(c, curr).carried.contains(pid)
            }
        },
{
}

/// A process that disappears from one reading and is back in the next is compared
/// with what it had counted before the gap.
pub proof fn lemma_gap_is_spanned(
    c: CollectorView,
    missing: SnapshotView,
    back: SnapshotView,
    which: Counter,
    pid: i32,
)
    requires
        c.prev is Some,
        c.prev->0.ticks.contains_key(pid),
        !c.carried.contains(pid),
        !missing.ticks.contains_key(pid),
        back.ticks.contains_key(pid),
    ensures
        after(c, missing).prev is Some,
        crate::accounting::gain(after(c, missing).prev->0.ticks, back.ticks, which, pid)
            == crate::cpu_time::advance(
            crate::accounting::counter(c.prev->0.ticks[pid], which) as int,
            crate::accounting::counter(back.ticks[pid], which) as int,
        ),
{
}

/// A process is carried over once at most: one that was carried over and is still
/// missing is dropped.
pub proof fn lemma_carried_once(c: CollectorView, curr: SnapshotView, pid: i32)
    requires
        c.carried.contains(pid),
        !curr.ticks.contains_key(pid),
    ensures
        after(c, curr).prev matches Some(kept) && !kept.ticks.contains_key(pid),
        !after(c, curr).carried.contains(pid),
{
}

/// Processes that two readings in a row do not show are forgotten, so exited ones
/// never pile up.
pub proof fn lemma_forgotten_after_two(
    c: CollectorView,
    first: SnapshotView,
    second: SnapshotView,
    pid: i32,
)
    requires
        !first.ticks.contains_key(pid),
        !second.ticks.contains_key(pid),
    ensures
        after(after(c, first), second).prev matches Some(kept) && !kept.ticks.contains_key(pid),
{
}

/// Which processes are carried over is known: they are kept, and the reading did
/// not show them.
pub proof fn lemma_carried_are_kept(c: CollectorView, curr: SnapshotView, pid: i32)
    requires
        after(c, curr).carried.contains(pid),
    ensures
        !curr.ticks.contains_key(pid),
        after(c, curr).prev matches Some(kept) && kept.ticks.contains_key(pid),
{
}

// ---------------------------------------------------------------------------
// Computing it
// ---------------------------------------------------------------------------

/// `n` zeros.
fn zeros(n: usize) -> (r: Vec<Double>)
    ensures
        numbers(r@) == Seq::new(n as nat, |i: int| Number::nought()),
{
    let mut r: Vec<Double> = Vec::new();
    let mut i: usize = 0;
    while i < n
        invariant
            i <= n,
            r@.len() == i,
            forall|k: int| 0 <= k < i ==> (#[trigger] r@[k])@ == Number::nought(),
        decreases n - i,
    {
        r.push(Double::zero());
        i += 1;
    }
    assert(numbers(r@) =~= Seq::new(n as nat, |i: int| Number::nought()));
    r
}

/// A number as it is stored, if there is one.
fn store_if(x: Option<Number>) -> (r: Option<Double>)
    requires
        x matches Some(x) ==> x.wf(),
    ensures
        number_if(r) == x,
{
    match x {
        Some(x) => Some(Double::from_number(x)),
        None => None,
    }
}

/// The number of processes in a tree other than its root.
fn count_descendants(ticks: &HashMap<i32, (u64, u64)>, root: i32) -> (r: u32)
    ensures
        r == ticks@.dom().remove(root).len(),
{
    let n: usize = ticks.len();
    proof {
        lemma_descendants_fit(ticks@.dom(), root);
    }
    if ticks.contains_key(&root) {
        (n - 1) as u32
    } else {
        n as u32
    }
}

/// Seconds between two moments, at least a thousandth of one.
fn secs_between(prev: u64, curr: u64) -> (r: Number)
    ensures
        r == nanos_as_secs(crate::cpu_time::advance(prev as int, curr as int)).greater(
            thousandth(),
        ),
        r.wf(),
{
    let nanos: u64 = curr.saturating_sub(prev);
    let whole: Number = Number::from_u64(nanos / 1_000_000_000);
    let rest: Number = Number::from_u64(nanos % 1_000_000_000).over_whole(1_000_000_000);
    whole.sum(rest).max(Number::from_u64(1).over_whole(1000))
}

/// Adds to `curr` what `prev` knows and `curr` does not, unless it is in `skip`;
/// returns the processes that were added.
fn carry_entries(
    prev: &HashMap<i32, (u64, u64)>,
    curr: &mut HashMap<i32, (u64, u64)>,
    skip: &HashSet<i32>,
) -> (r: HashSet<i32>)
    ensures
        final(curr)@ == carry_over(prev@, old(curr)@, skip@),
        r@ == carried_pids(prev@, old(curr)@, skip@),
{
    let ghost before = curr@;
    let pids: Vec<i32> = pids_of(prev);
    let mut added: HashSet<i32> = HashSet::new();
    let mut i: usize = 0;
    while i < pids.len()
        invariant
            i <= pids@.len(),
            pids@.no_duplicates(),
            pids@.to_set() == prev@.dom(),
            forall|p: i32| #[trigger]
                added@.contains(p) <==> pids@.take(i as int).contains(p) && !before.contains_key(p)
                    && !skip@.contains(p),
            forall|p: i32| #[trigger]
                curr@.contains_key(p) <==> before.contains_key(p) || added@.contains(p),
            forall|p: i32| before.contains_key(p) ==> #[trigger] curr@[p] == before[p],
            forall|p: i32| added@.contains(p) ==> #[trigger] curr@[p] == prev@[p],
        decreases pids@.len() - i,
    {
        let pid: i32 = pids[i];
        let ghost done = pids@.take(i as int);
        let ghost next = pids@.take(i + 1);
        proof {
            assert(pids@.contains(pid));
            assert(prev@.dom().contains(pid));
            assert forall|p: i32| #[trigger] next.contains(p) <==> done.contains(p) || p == pid by {
                if next.contains(p) {
                    let k = choose|k: int| 0 <= k < next.len() && next[k] == p;
                    if k < i {
                        assert(done[k] == p);
                    }
                }
                if done.contains(p) {
                    let k = choose|k: int| 0 <= k < done.len() && done[k] == p;
                    assert(next[k] == p);
                }
                assert(next[i as int] == pid);
            }
        }
        if !curr.contains_key(&pid) && !skip.contains(&pid) {
            if let Some(entry) = prev.get(&pid) {
                curr.insert(pid, *entry);
                added.insert(pid);
            }
        }
        i += 1;
    }
    proof {
        assert(pids@.take(pids@.len() as int) =~= pids@);
        assert forall|p: i32| pids@.contains(p) <==> #[trigger] prev@.contains_key(p) by {
            assert(pids@.to_set().contains(p) <==> prev@.dom().contains(p));
        }
        assert(curr@ =~= carry_over(prev@, before, skip@));
        assert(added@ =~= carried_pids(prev@, before, skip@));
    }
    added
}

/// Utilization of each core that both readings know, and how much of its time was
/// stolen.
fn calculate_per_core_utilization(prev: &Vec<CpuTime>, curr: &Vec<CpuTime>) -> (r: (
    Vec<Double>,
    Vec<Double>,
))
    requires
        forall|i: int| 0 <= i < prev@.len() ==> (#[trigger] prev@[i]).wf(),
        forall|i: int| 0 <= i < curr@.len() ==> (#[trigger] curr@[i]).wf(),
    ensures
        r.0@.len() == (if prev@.len() <= curr@.len() {
            prev@.len()
        } else {
            curr@.len()
        }),
        r.1@.len() == r.0@.len(),
        forall|i: int|
            0 <= i < r.0@.len() ==> (#[trigger] r.0@[i])@ == crate::cpu_time::core_pct(
                prev@[i],
                curr@[i],
            ),
        forall|i: int|
            0 <= i < r.1@.len() ==> (#[trigger] r.1@[i])@ == crate::cpu_time::steal_pct(
                prev@[i],
                curr@[i],
            ),
{
    let mut busy: Vec<Double> = Vec::new();
    let mut stolen: Vec<Double> = Vec::new();
    let mut i: usize = 0;
    while i < prev.len() && i < curr.len()
        invariant
            i <= prev@.len(),
            i <= curr@.len(),
            forall|i: int| 0 <= i < prev@.len() ==> (#[trigger] prev@[i]).wf(),
            forall|i: int| 0 <= i < curr@.len() ==> (#[trigger] curr@[i]).wf(),
            busy@.len() == i,
            stolen@.len() == i,
            forall|k: int|
                0 <= k < i ==> (#[trigger] busy@[k])@ == crate::cpu_time::core_pct(
                    prev@[k],
                    curr@[k],
                ),
            forall|k: int|
                0 <= k < i ==> (#[trigger] stolen@[k])@ == crate::cpu_time::steal_pct(
                    prev@[k],
                    curr@[k],
                ),
        decreases prev@.len() - i,
    {
        assert(prev@[i as int].wf() && curr@[i as int].wf());
        busy.push(Double::from_number(core_util_pct(&prev[i], &curr[i])));
        stolen.push(Double::from_number(steal_util_pct(&prev[i], &curr[i])));
        i += 1;
    }
    (busy, stolen)
}

/// A collector that has seen nothing yet: for the tree under `pid`, with what the
/// files and the number of cores say.
pub open spec fn is_fresh(
    c: CollectorView,
    pid: Option<i32>,
    files: CgroupFiles,
    physical_cores: Option<usize>,
) -> bool {
    &&& c.pid == pid
    &&& c.prev is None
    &&& c.source == files.source()
    &&& c.limit == files.limit()
    &&& c.effective_cores == crate::cgroup::cores_within(
        physical_cores.unwrap_or(1) as int,
        files.limit(),
    )
    &&& c.carried == Set::<i32>::empty()
}

/// The collector after it has been told which tree to track.
pub open spec fn retargeted(before: CollectorView, pid: Option<i32>, after: CollectorView) -> bool {
    after == (CollectorView { pid, ..before })
}

impl CpuCollector {
    /// A collector for the tree under `pid`, or for the system alone.  `files` say
    /// what the control group may use; `physical_cores` is how many cores the
    /// kernel reports, if it does.
    pub fn new(pid: Option<i32>, files: &CgroupFiles, physical_cores: Option<usize>) -> (r: Self)
        ensures
            is_fresh(r@, pid, *files, physical_cores),
            r@ == (CollectorView {
                pid,
                prev: None,
                source: files.source(),
                limit: files.limit(),
                effective_cores: crate::cgroup::cores_within(
                    physical_cores.unwrap_or(1) as int,
                    files.limit(),
                ),
                carried: Set::empty(),
            }),
            r@.wf(),
    {
        let cpu_source: CpuSource = detect_cpu_source(&files.cpu_stat, &files.cpuacct_usage);
        let cfs_quota: CfsQuota = detect_cfs_quota(&files.cpu_max, &files.cfs);
        let physical: usize = physical_cores.unwrap_or(1);
        let effective: Number = effective_cores(physical, &cfs_quota);
        proof {
            crate::cgroup::lemma_cores_within(physical, cfs_quota.max_cores);
        }
        CpuCollector {
            pid,
            prev: None,
            cpu_source,
            cfs_quota,
            effective_cores: effective,
            carried_forward: HashSet::new(),
        }
    }

    /// Sets the root of the tree to track; what was read before is kept.
    pub fn set_tracked_pid(&mut self, pid: Option<i32>)
        ensures
            retargeted(old(self)@, pid, final(self)@),
            final(self)@ == (CollectorView { pid, ..old(self)@ }),
    {
        self.pid = pid;
    }

    /// The ticks of the tracked tree.
    fn read_process_ticks(&self, scan: &Vec<ProcStat>) -> (r: HashMap<i32, (u64, u64)>)
        ensures
            r@ == tracked_ticks(self@.pid, scan@),
    {
        match self.pid {
            Some(root) => process_tree_ticks(root, scan),
            None => HashMap::new(),
        }
    }

    /// The processes of the tracked tree: those whose disk traffic and memory the
    /// next reading has to hold.
    pub fn tracked_pids(&self, scan: &Vec<ProcStat>) -> (r: Vec<i32>)
        ensures
            lists_pids(r@, tracked_ticks(self@.pid, scan@)),
    {
        pids_of(&self.read_process_ticks(scan))
    }

    /// The disk traffic of the tracked tree.
    fn read_process_io(&self, io: &Vec<ProcIo>) -> (r: HashMap<i32, (u64, u64)>)
        ensures
            r@ == tracked_io(self@.pid, io@),
    {
        match self.pid {
            Some(_) => process_tree_io(io),
            None => HashMap::new(),
        }
    }

    /// Proportional and resident set size of the tracked tree, in MiB.
    fn read_process_memory(&self, memory: &Vec<ProcMemory>) -> (r: (Option<u128>, Option<u128>))
        ensures
            r.0 == if_tracked(
                self@.pid,
                (crate::process::pss_kib_sum(memory@) / 1024) as u128,
            ),
            r.1 == if_tracked(
                self@.pid,
                (crate::process::rss_kib_sum(memory@) / 1024) as u128,
            ),
    {
        match self.pid {
            Some(_) => {
                let (pss, rss) = process_tree_memory_mib(memory);
                (Some(pss), Some(rss))
            },
            None => (None, None),
        }
    }

    /// `value` if a process tree is tracked.
    fn when_tracking<T>(&self, value: T) -> (r: Option<T>)
        ensures
            r == if_tracked(self@.pid, value),
    {
        match self.pid {
            Some(_) => Some(value),
            None => None,
        }
    }

    /// `value` if a process tree is tracked and disk traffic is known of at least
    /// one of its processes.
    fn when_io_known<T>(&self, curr: &Snapshot, value: T) -> (r: Option<T>)
        ensures
            r == if_io_known(self@.pid, curr@.io, value),
    {
        let n: usize = curr.proc_io.len();
        proof {
            if n == 0 {
                assert(curr.proc_io@.dom() =~= Set::<i32>::empty());
            }
        }
        if n == 0 {
            None
        } else {
            self.when_tracking(value)
        }
    }

    /// The number of descendants of the tracked root.
    fn count_children(&self, curr: &Snapshot) -> (r: Option<u32>)
        ensures
            r == if_tracked(
                self@.pid,
                curr@.ticks.dom().remove(self@.pid->0).len() as u32,
            ),
    {
        match self.pid {
            Some(root) => Some(count_descendants(&curr.proc_ticks, root)),
            None => None,
        }
    }

    /// The number of runnable processes; zero when it is not known.
    fn read_process_count(&self, procs_running: Option<u32>) -> (r: u32)
        ensures
            r == (match procs_running {
                Some(n) => n,
                None => 0,
            }),
    {
        procs_running.unwrap_or(0)
    }

    /// The metrics of a first reading.
    fn build_first_metrics(
        &self,
        curr: &Snapshot,
        process_count: u32,
        process_pss_mib: Option<u128>,
        process_rss_mib: Option<u128>,
        Ghost(r): Ghost<Reading>,
    ) -> (m: CpuMetrics)
        requires
            curr@ == snapshot_of(self@, r),
            process_count == count_of(r),
            process_pss_mib == if_tracked(
                self@.pid,
                (crate::process::pss_kib_sum(r.memory@) / 1024) as u128,
            ),
            process_rss_mib == if_tracked(
                self@.pid,
                (crate::process::rss_kib_sum(r.memory@) / 1024) as u128,
            ),
        ensures
            first_metrics(self@, r, m),
    {
        let in_group: bool = curr.cgroup_usage_secs.is_some() && self.cpu_source.is_cgroup();
        CpuMetrics {
            utilization_pct: Double::zero(),
            cgroup_utilization_pct: if in_group {
                Some(Double::zero())
            } else {
                None
            },
            cgroup_usage_secs: if in_group {
                Some(Double::zero())
            } else {
                None
            },
            per_core_pct: zeros(curr.per_core.len()),
            utime_secs: Double::zero(),
            stime_secs: Double::zero(),
            steal_time_secs: Double::zero(),
            steal_time_pct: Double::zero(),
            per_core_steal_time_pct: zeros(curr.per_core.len()),
            process_count,
            process_cores_used: self.when_tracking(Double::zero()),
            process_child_count: self.count_children(curr),
            process_utime_secs: self.when_tracking(Double::zero()),
            process_stime_secs: self.when_tracking(Double::zero()),
            process_pss_mib,
            process_rss_mib,
            process_disk_read_bytes: self.when_io_known(curr, 0),
            process_disk_write_bytes: self.when_io_known(curr, 0),
            process_gpu_usage: None,
            process_gpu_vram_mib: None,
            process_gpu_utilized: None,
            process_tree_pids: pids_of(&curr.proc_ticks),
        }
    }

    /// User, system and stolen seconds of the whole machine.
    fn calculate_system_cpu_deltas(&self, prev: &Snapshot, curr: &Snapshot, tps: u64) -> (r: (
        Number,
        Number,
        Number,
    ))
        requires
            prev@.wf(),
            curr@.wf(),
        ensures
            r.0 == seconds(
                crate::cpu_time::advance(prev@.total.user_ticks(), curr@.total.user_ticks()),
                tps as int,
            ),
            r.1 == seconds(
                crate::cpu_time::advance(prev@.total.system as int, curr@.total.system as int),
                tps as int,
            ),
            r.2 == seconds(
                crate::cpu_time::advance(
                    crate::cpu_time::or_zero(prev@.total.steal),
                    crate::cpu_time::or_zero(curr@.total.steal),
                ),
                tps as int,
            ),
            r.0.wf(),
            r.1.wf(),
            r.2.wf(),
    {
        let user: u64 = (curr.total.user + curr.total.nice).saturating_sub(
            prev.total.user + prev.total.nice,
        );
        let system: u64 = curr.total.system.saturating_sub(prev.total.system);
        let stolen: u64 = curr.total.steal.unwrap_or(0).saturating_sub(
            prev.total.steal.unwrap_or(0),
        );
        (
            Number::from_u64(user).over_whole(tps),
            Number::from_u64(system).over_whole(tps),
            Number::from_u64(stolen).over_whole(tps),
        )
    }

    /// Seconds that the control group used, and the cores that makes.
    fn calculate_cgroup_usage(&self, prev: &Snapshot, curr: &Snapshot, elapsed: Number) -> (r: (
        Option<Number>,
        Option<Number>,
    ))
        requires
            self@.wf(),
            prev@.wf(),
            curr@.wf(),
            elapsed.wf(),
        ensures
            r.0 == group_used(prev@, curr@),
            r.1 == (match group_used(prev@, curr@) {
                Some(used) => Some(Number::over(used, elapsed).lesser(self@.effective_cores)),
                None => None,
            }),
            r.0 matches Some(x) ==> x.wf(),
            r.1 matches Some(x) ==> x.wf(),
    {
        match (curr.cgroup_usage_secs, prev.cgroup_usage_secs) {
            (Some(c), Some(p)) => {
                let used: Number = c.difference(p).max(Number::zero());
                let cores: Number = used.quotient(elapsed).min(self.effective_cores);
                (Some(used), Some(cores))
            },
            _ => (None, None),
        }
    }

    /// The ticks of one kind that the tree used.
    fn calculate_process_ticks(&self, prev: &Snapshot, curr: &Snapshot, which: Counter) -> (r: u128)
        ensures
            r == tree_used(prev@, curr@, which),
            r <= 0x1_0000_0000 * u64::MAX,
    {
        let raw: u128 = sum_gains(&prev.proc_ticks, &curr.proc_ticks, which);
        let exited: u128 = sum_gone(&prev.proc_ticks, &curr.proc_ticks, which);
        correct_delta(raw, exited)
    }

    /// The cores that the tree used, within what the machine and the quota allow.
    fn calculate_process_cores_used_with_caps(
        &self,
        utime_secs: Number,
        stime_secs: Number,
        prev: &Snapshot,
        curr: &Snapshot,
        tps: u64,
        elapsed: Number,
    ) -> (r: Number)
        requires
            self@.wf(),
            prev@.wf(),
            curr@.wf(),
            elapsed == elapsed_secs(prev@, curr@),
            elapsed.wf(),
            utime_secs == seconds(tree_used(prev@, curr@, Counter::First), tps as int),
            utime_secs.wf(),
            stime_secs == seconds(tree_used(prev@, curr@, Counter::Second), tps as int),
            stime_secs.wf(),
        ensures
            r == tree_cores(self@.limit, prev@, curr@, tps as int),
            r.wf(),
    {
        let own: Number = utime_secs.sum(stime_secs).quotient(elapsed).max(Number::zero());
        let total: u64 = cpu_total(&curr.total).saturating_sub(cpu_total(&prev.total));
        let idle: u64 = cpu_idle(&curr.total).saturating_sub(cpu_idle(&prev.total));
        let busy_secs: Number = if total > 0 {
            Number::from_u64(total.saturating_sub(idle)).over_whole(tps)
        } else {
            Number::Finite { negative: false, mantissa: MANTISSA_END - 1, power: POWER_MAX }
        };
        let cap: Number = match self.cfs_quota.max_cores {
            Some(q) => q,
            None => Number::from_u64(curr.per_core.len() as u64),
        };
        own.min(busy_secs.quotient(elapsed)).min(cap)
    }

    /// The metrics of a reading that follows another.
    fn build_subsequent_metrics_with_deltas(
        &self,
        prev: &Snapshot,
        curr: &Snapshot,
        process_count: u32,
        tps: u64,
        process_pss_mib: Option<u128>,
        process_rss_mib: Option<u128>,
        Ghost(r): Ghost<Reading>,
    ) -> (m: CpuMetrics)
        requires
            self@.wf(),
            prev@.wf(),
            curr@.wf(),
            curr@ == snapshot_of(self@, r),
            tps == r.ticks_per_second,
            tps > 0,
            process_count == count_of(r),
            process_pss_mib == if_tracked(
                self@.pid,
                (crate::process::pss_kib_sum(r.memory@) / 1024) as u128,
            ),
            process_rss_mib == if_tracked(
                self@.pid,
                (crate::process::rss_kib_sum(r.memory@) / 1024) as u128,
            ),
        ensures
            later_metrics(self@, prev@, r, m),
    {
        let n_cores: usize = curr.per_core.len();
        assert(prev@.per_core == prev.per_core@ && curr@.per_core == curr.per_core@);
        let elapsed: Number = secs_between(prev.instant_ns, curr.instant_ns);
        let (utime_secs, stime_secs, steal_time_secs) = self.calculate_system_cpu_deltas(
            prev,
            curr,
            tps,
        );
        let (per_core_pct, per_core_steal_time_pct) = calculate_per_core_utilization(
            &prev.per_core,
            &curr.per_core,
        );
        proof {
            assert(numbers(per_core_pct@) =~= by_core(
                prev@,
                curr@,
                |p: CpuTime, q: CpuTime| crate::cpu_time::core_pct(p, q),
            ));
            assert(numbers(per_core_steal_time_pct@) =~= by_core(
                prev@,
                curr@,
                |p: CpuTime, q: CpuTime| crate::cpu_time::steal_pct(p, q),
            ));
        }
        let utilization_pct: Number = aggregate_util_cores(&prev.total, &curr.total, n_cores);
        let steal_time_pct: Number = steal_util_pct(&prev.total, &curr.total);
        let (cgroup_usage_secs, cgroup_utilization_pct) = self.calculate_cgroup_usage(
            prev,
            curr,
            elapsed,
        );
        let utime: u128 = self.calculate_process_ticks(prev, curr, Counter::First);
        let stime: u128 = self.calculate_process_ticks(prev, curr, Counter::Second);
        let process_utime_secs: Number = Number::from_u128(utime).over_whole(tps);
        let process_stime_secs: Number = Number::from_u128(stime).over_whole(tps);
        let cores_used: Number = self.calculate_process_cores_used_with_caps(
            process_utime_secs,
            process_stime_secs,
            prev,
            curr,
            tps,
            elapsed,
        );
        CpuMetrics {
            utilization_pct: Double::from_number(utilization_pct),
            cgroup_utilization_pct: store_if(cgroup_utilization_pct),
            cgroup_usage_secs: store_if(cgroup_usage_secs),
            per_core_pct,
            utime_secs: Double::from_number(utime_secs),
            stime_secs: Double::from_number(stime_secs),
            steal_time_secs: Double::from_number(steal_time_secs),
            steal_time_pct: Double::from_number(steal_time_pct),
            per_core_steal_time_pct,
            process_count,
            process_cores_used: self.when_tracking(Double::from_number(cores_used)),
            process_child_count: self.count_children(curr),
            process_utime_secs: self.when_tracking(Double::from_number(process_utime_secs)),
            process_stime_secs: self.when_tracking(Double::from_number(process_stime_secs)),
            process_pss_mib,
            process_rss_mib,
            process_disk_read_bytes: self.when_io_known(
                curr,
                sum_gains(&prev.proc_io, &curr.proc_io, Counter::First),
            ),
            process_disk_write_bytes: self.when_io_known(
                curr,
                sum_gains(&prev.proc_io, &curr.proc_io, Counter::Second),
            ),
            process_gpu_usage: None,
            process_gpu_vram_mib: None,
            process_gpu_utilized: None,
            process_tree_pids: pids_of(&curr.proc_ticks),
        }
    }

    /// Keeps `curr`, together with the counters of processes that have just
    /// disappeared.
    fn carry_forward_entries(&mut self, curr: Snapshot)
        ensures
            final(self)@ == after(old(self)@, curr@),
    {
        let mut kept: Snapshot = curr;
        let mut carried: HashSet<i32> = HashSet::new();
        if let Some(prev) = &self.prev {
            carried = carry_entries(&prev.proc_ticks, &mut kept.proc_ticks, &self.carried_forward);
            carry_entries(&prev.proc_io, &mut kept.proc_io, &self.carried_forward);
        }
        self.carried_forward = carried;
        self.prev = Some(kept);
    }

    /// Turns a reading into metrics: zeros for the first one, and for every later
    /// one what happened since the reading before.
    pub fn collect(&mut self, reading: Reading) -> (m: CpuMetrics)
        requires
            old(self)@.wf(),
            reading.wf(),
        ensures
            collected(old(self)@, reading, m),
            final(self)@ == after(old(self)@, snapshot_of(old(self)@, reading)),
            final(self)@.wf(),
    {
        let ghost r = reading;
        let tps: u64 = reading.ticks_per_second;
        let count: u32 = self.read_process_count(reading.procs_running);
        let cgroup_usage_secs: Option<Number> = read_cgroup_usage_secs(
            self.cpu_source,
            &reading.cpu_stat,
            &reading.cpuacct_usage,
        );
        let proc_ticks: HashMap<i32, (u64, u64)> = self.read_process_ticks(&reading.scan);
        let proc_io: HashMap<i32, (u64, u64)> = self.read_process_io(&reading.io);
        let (process_pss_mib, process_rss_mib) = self.read_process_memory(&reading.memory);
        let curr: Snapshot = Snapshot {
            total: reading.total,
            per_core: reading.per_core,
            instant_ns: reading.instant_ns,
            cgroup_usage_secs,
            proc_ticks,
            proc_io,
        };
        assert(curr@ =~= snapshot_of(self@, r));
        let metrics: CpuMetrics = match &self.prev {
            None => self.build_first_metrics(
                &curr,
                count,
                process_pss_mib,
                process_rss_mib,
                Ghost(r),
            ),
            Some(prev) => self.build_subsequent_metrics_with_deltas(
                prev,
                &curr,
                count,
                tps,
                process_pss_mib,
                process_rss_mib,
                Ghost(r),
            ),
        };
        self.carry_forward_entries(curr);
        metrics
    }
}

} // verus!
