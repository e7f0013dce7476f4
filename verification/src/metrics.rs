//! What one sample holds.

use crate::number::{Double, Number};
use vstd::prelude::*;

verus! {

/// CPU metrics derived from tick deltas.
#[derive(Debug, Clone)]
pub struct CpuMetrics {
    /// Aggregate CPU utilization expressed as fractional cores in use.  Not
    /// clamped.
    pub utilization_pct: Double,
    /// Utilization of the control group as fractional cores in use.  `None` when
    /// no control-group CPU counter can be read.
    pub cgroup_utilization_pct: Option<Double>,
    /// CPU time that the control group used in this interval, in seconds.  `None`
    /// when no control-group CPU counter can be read.
    pub cgroup_usage_secs: Option<Double>,
    /// Utilization of each core, in percent, by logical CPU number.
    pub per_core_pct: Vec<Double>,
    /// CPU time in user mode, niced or not, over all cores in this interval, in
    /// seconds.
    pub utime_secs: Double,
    /// CPU time in system mode over all cores in this interval, in seconds.
    pub stime_secs: Double,
    /// CPU time stolen by other guests over all cores in this interval, in
    /// seconds.
    pub steal_time_secs: Double,
    /// Share of the time that was stolen, over all cores, in percent.
    pub steal_time_pct: Double,
    /// Share of the time that was stolen from each core, in percent, by logical
    /// CPU number.
    pub per_core_steal_time_pct: Vec<Double>,
    /// Number of processes that are in a runnable state.
    pub process_count: u32,
    /// Fractional cores consumed by the tracked process tree.  This and all that
    /// follows is `None` when no process is being tracked.
    pub process_cores_used: Option<Double>,
    /// Number of live descendants of the tracked root, the root itself not
    /// included.
    pub process_child_count: Option<u32>,
    /// CPU seconds in user mode consumed by the tree in this interval.
    pub process_utime_secs: Option<Double>,
    /// CPU seconds in system mode consumed by the tree in this interval.
    pub process_stime_secs: Option<Double>,
    /// Proportional set size of the tree, in MiB.
    pub process_pss_mib: Option<u128>,
    /// Resident set size of the tree, in MiB.
    pub process_rss_mib: Option<u128>,
    /// Bytes that the tree read from storage in this interval.  `None` also when
    /// disk traffic cannot be read of any of its processes.
    pub process_disk_read_bytes: Option<u128>,
    /// Bytes that the tree wrote to storage in this interval.  `None` also when
    /// disk traffic cannot be read of any of its processes.
    pub process_disk_write_bytes: Option<u128>,
    /// Fractional GPUs consumed by the tree.
    pub process_gpu_usage: Option<Double>,
    /// GPU memory consumed by the tree, in MiB.
    pub process_gpu_vram_mib: Option<Double>,
    /// Number of GPUs that the tree makes use of.
    pub process_gpu_utilized: Option<u32>,
    /// The processes of the tracked tree.  They route GPU queries and are not
    /// part of any output.
    pub process_tree_pids: Vec<i32>,
}

/// No process is being tracked: nothing is said of one.
pub open spec fn untracked(m: CpuMetrics) -> bool {
    &&& m.process_cores_used is None
    &&& m.process_child_count is None
    &&& m.process_utime_secs is None
    &&& m.process_stime_secs is None
    &&& m.process_pss_mib is None
    &&& m.process_rss_mib is None
    &&& m.process_disk_read_bytes is None
    &&& m.process_disk_write_bytes is None
}

/// A process tree is being tracked: everything that is measured of one is there,
/// with the possible exception of its disk traffic.
pub open spec fn tracked_fully(m: CpuMetrics) -> bool {
    &&& m.process_cores_used is Some
    &&& m.process_child_count is Some
    &&& m.process_utime_secs is Some
    &&& m.process_stime_secs is Some
    &&& m.process_pss_mib is Some
    &&& m.process_rss_mib is Some
}

/// Nothing has been measured.
pub open spec fn nothing_measured(m: CpuMetrics) -> bool {
    &&& m.utilization_pct@ == Number::nought()
    &&& m.cgroup_utilization_pct is None
    &&& m.cgroup_usage_secs is None
    &&& m.per_core_pct@.len() == 0
    &&& m.utime_secs@ == Number::nought()
    &&& m.stime_secs@ == Number::nought()
    &&& m.steal_time_secs@ == Number::nought()
    &&& m.steal_time_pct@ == Number::nought()
    &&& m.per_core_steal_time_pct@.len() == 0
    &&& m.process_count == 0
    &&& untracked(m)
    &&& m.process_gpu_usage is None
    &&& m.process_gpu_vram_mib is None
    &&& m.process_gpu_utilized is None
    &&& m.process_tree_pids@.len() == 0
}

impl Default for CpuMetrics {
    /// The metrics of an interval in which nothing could be measured.
    fn default() -> (r: Self)
        ensures
            nothing_measured(r),
    {
        CpuMetrics {
            utilization_pct: Double::zero(),
            cgroup_utilization_pct: None,
            cgroup_usage_secs: None,
            per_core_pct: Vec::new(),
            utime_secs: Double::zero(),
            stime_secs: Double::zero(),
            steal_time_secs: Double::zero(),
            steal_time_pct: Double::zero(),
            per_core_steal_time_pct: Vec::new(),
            process_count: 0,
            process_cores_used: None,
            process_child_count: None,
            process_utime_secs: None,
            process_stime_secs: None,
            process_pss_mib: None,
            process_rss_mib: None,
            process_disk_read_bytes: None,
            process_disk_write_bytes: None,
            process_gpu_usage: None,
            process_gpu_vram_mib: None,
            process_gpu_utilized: None,
            process_tree_pids: Vec::new(),
        }
    }
}

/// The number that a double stands for, if there is one.
pub open spec fn number_if(d: Option<Double>) -> Option<Number> {
    match d {
        Some(d) => Some(d@),
        None => None,
    }
}

/// The numbers that doubles stand for.
pub open spec fn numbers(ds: Seq<Double>) -> Seq<Number> {
    ds.map_values(|d: Double| d@)
}

// ---------------------------------------------------------------------------
// A sample
// ---------------------------------------------------------------------------

/// Memory of the machine.
#[derive(Debug, Clone, Copy, PartialEq, Eq, Structural)]
pub struct MemoryMetrics {
    pub total_mib: u64,
    pub free_mib: u64,
    pub available_mib: u64,
    pub used_mib: u64,
    pub used_pct: Double,
    pub buffers_mib: u64,
    pub cached_mib: u64,
    pub swap_total_mib: u64,
    pub swap_used_mib: u64,
    pub swap_used_pct: Double,
    pub active_mib: u64,
    pub inactive_mib: u64,
}

/// Traffic of one network interface.
#[derive(Debug, Clone)]
pub struct NetworkMetrics {
    pub interface: String,
    pub rx_bytes_per_sec: Double,
    pub tx_bytes_per_sec: Double,
    pub rx_bytes_total: u64,
    pub tx_bytes_total: u64,
}

/// One mounted file system.
#[derive(Debug, Clone)]
pub struct DiskMountMetrics {
    pub mount_point: String,
    pub filesystem: String,
    pub total_bytes: u64,
    pub used_bytes: u64,
    pub available_bytes: u64,
    pub used_pct: Double,
}

/// One block device.
#[derive(Debug, Clone)]
pub struct DiskMetrics {
    pub device: String,
    pub model: Option<String>,
    pub vendor: Option<String>,
    pub serial: Option<String>,
    pub device_type: Option<String>,
    pub capacity_bytes: Option<u64>,
    pub mounts: Vec<DiskMountMetrics>,
    pub read_bytes_per_sec: Double,
    pub write_bytes_per_sec: Double,
    pub read_bytes_total: u64,
    pub write_bytes_total: u64,
}

/// One GPU.
#[derive(Debug, Clone, Copy, PartialEq, Eq, Structural)]
pub struct GpuMetrics {
    /// Utilization in percent.
    pub utilization_pct: Double,
    pub vram_used_bytes: u64,
}

/// Everything that is measured in one interval.
#[derive(Debug, Clone)]
pub struct Sample {
    /// Seconds since the epoch.
    pub timestamp_secs: u64,
    /// Milliseconds since the sample before; `None` for the first one.
    pub actual_interval_ms: Option<u64>,
    pub job_name: Option<String>,
    pub tracked_pid: Option<i32>,
    pub cpu: CpuMetrics,
    pub memory: MemoryMetrics,
    pub network: Vec<NetworkMetrics>,
    pub disk: Vec<DiskMetrics>,
    pub gpu: Vec<GpuMetrics>,
}

} // verus!
