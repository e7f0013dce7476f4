use resource_tracker::cgroup::CgroupFiles;
use resource_tracker::collector::{CpuCollector, Reading};
use resource_tracker::cpu_time::CpuTime;
use resource_tracker::metrics::CpuMetrics;
use resource_tracker::number::Double;
use resource_tracker::process::{ProcIo, ProcMemory, ProcStat};

fn no_files() -> CgroupFiles {
    CgroupFiles { cpu_stat: None, cpu_max: None, cpuacct_usage: vec![], cfs: vec![] }
}

fn float(d: &Double) -> f64 {
    f64::from_bits(d.bits)
}

fn cpu_time(t: &procfs::CpuTime) -> CpuTime {
    CpuTime {
        user: t.user,
        nice: t.nice,
        system: t.system,
        idle: t.idle,
        iowait: t.iowait,
        irq: t.irq,
        softirq: t.softirq,
        steal: t.steal,
    }
}

/// Reads the running machine.
fn live_reading(collector: &CpuCollector, instant_ns: u64) -> Reading {
    let stats: procfs::KernelStats =
        procfs::CurrentSI::current().expect("kernel statistics");
    let processes: Vec<procfs::process::Process> = procfs::process::all_processes()
        .expect("process list")
        .filter_map(|p| p.ok())
        .collect();
    let scan: Vec<ProcStat> = processes
        .iter()
        .filter_map(|p| p.stat().ok())
        .filter_map(|s| ProcStat::new(s.pid, s.ppid, s.utime, s.stime, s.cutime, s.cstime))
        .collect();
    let pids = collector.tracked_pids(&scan);
    Reading {
        procs_running: stats.procs_running,
        ticks_per_second: procfs::ticks_per_second(),
        total: cpu_time(&stats.total),
        per_core: stats.cpu_time.iter().map(cpu_time).collect(),
        cpu_stat: None,
        cpuacct_usage: vec![],
        scan,
        instant_ns,
        io: pids
            .iter()
            .filter_map(|&pid| {
                let io = procfs::process::Process::new(pid).ok()?.io().ok()?;
                Some(ProcIo { pid, read_bytes: io.read_bytes, write_bytes: io.write_bytes })
            })
            .collect(),
        memory: pids
            .iter()
            .filter_map(|&pid| {
                let p = procfs::process::Process::new(pid).ok()?;
                let rss_kib = p.status().ok().and_then(|s| s.vmrss);
                Some(ProcMemory { pss_bytes: None, rss_kib })
            })
            .collect(),
    }
}

fn collect_live(collector: &mut CpuCollector, instant_ns: u64) -> CpuMetrics {
    let reading = live_reading(collector, instant_ns);
    assert!(reading.is_valid());
    collector.collect(reading)
}

fn own_pid() -> i32 {
    procfs::process::Process::myself().expect("own process").pid
}

#[test]
fn test_first_collect_returns_zero_for_delta_fields() {
    let mut collector = CpuCollector::new(None, &no_files(), None);
    let metrics = collect_live(&mut collector, 0);
    assert_eq!(
        float(&metrics.utilization_pct),
        0.0,
        "utilization_pct must be 0.0 on first collect, got {:?}",
        metrics.utilization_pct
    );
    assert!(
        metrics.per_core_pct.iter().all(|v| float(v) == 0.0),
        "per_core_pct must be all-zero on first collect: {:?}",
        metrics.per_core_pct
    );
    assert_eq!(
        float(&metrics.utime_secs),
        0.0,
        "utime_secs must be 0.0 on first collect, got {:?}",
        metrics.utime_secs
    );
    assert_eq!(
        float(&metrics.stime_secs),
        0.0,
        "stime_secs must be 0.0 on first collect, got {:?}",
        metrics.stime_secs
    );
}

#[test]
fn test_first_collect_with_pid_returns_some_process_fields() {
    let mut collector = CpuCollector::new(Some(own_pid()), &no_files(), None);
    let m = collect_live(&mut collector, 0);
    assert!(
        m.process_cores_used.is_some(),
        "process_cores_used must be Some when PID is tracked"
    );
    assert!(
        m.process_child_count.is_some(),
        "process_child_count must be Some when PID is tracked"
    );
    assert!(
        m.process_pss_mib.is_some(),
        "process_pss_mib must be Some when PID is tracked"
    );
    assert!(
        m.process_rss_mib.is_some(),
        "process_rss_mib must be Some when PID is tracked"
    );
    assert!(
        m.process_utime_secs.is_some(),
        "process_utime_secs must be Some when PID is tracked"
    );
    assert!(
        m.process_stime_secs.is_some(),
        "process_stime_secs must be Some when PID is tracked"
    );
    assert!(
        m.process_disk_read_bytes.is_some(),
        "process_disk_read_bytes must be Some when PID is tracked"
    );
    assert!(
        m.process_disk_write_bytes.is_some(),
        "process_disk_write_bytes must be Some when PID is tracked"
    );
}

#[test]
fn test_second_collect_with_pid_nonneg_cores() {
    let mut collector = CpuCollector::new(Some(own_pid()), &no_files(), None);
    let _ = collect_live(&mut collector, 0);
    let m = collect_live(&mut collector, 1_000_000_000);
    let cores = m
        .process_cores_used
        .expect("process_cores_used must be Some");
    let cores = float(&cores);
    assert!(
        cores >= 0.0,
        "process_cores_used must be >= 0.0, got {cores}"
    );
}

#[test]
fn test_second_collect_no_pid_all_process_fields_none() {
    let mut collector = CpuCollector::new(None, &no_files(), None);
    let _ = collect_live(&mut collector, 0);
    let m = collect_live(&mut collector, 1_000_000_000);
    assert!(
        m.process_cores_used.is_none(),
        "process_cores_used must be None when not tracking"
    );
    assert!(
        m.process_child_count.is_none(),
        "process_child_count must be None when not tracking"
    );
    assert!(
        m.process_pss_mib.is_none(),
        "process_pss_mib must be None when not tracking"
    );
    assert!(
        m.process_rss_mib.is_none(),
        "process_rss_mib must be None when not tracking"
    );
    assert!(
        m.process_utime_secs.is_none(),
        "process_utime_secs must be None when not tracking"
    );
    assert!(
        m.process_stime_secs.is_none(),
        "process_stime_secs must be None when not tracking"
    );
    assert!(
        m.process_disk_read_bytes.is_none(),
        "process_disk_read_bytes must be None when not tracking"
    );
    assert!(
        m.process_disk_write_bytes.is_none(),
        "process_disk_write_bytes must be None when not tracking"
    );
}

#[test]
fn test_process_count_positive() {
    let mut collector = CpuCollector::new(None, &no_files(), None);
    let m = collect_live(&mut collector, 0);
    assert!(
        m.process_count > 0,
        "process_count must be > 0, got {}",
        m.process_count
    );
}

fn times(user: u64, system: u64, idle: u64) -> CpuTime {
    CpuTime {
        user,
        nice: 0,
        system,
        idle,
        iowait: None,
        irq: None,
        softirq: None,
        steal: None,
    }
}

fn stat(pid: i32, ppid: i32, user: u64, system: u64) -> ProcStat {
    ProcStat { pid, ppid, user, system }
}

/// A reading of a made-up machine of two cores.
fn reading(seconds: u64, total: CpuTime, scan: Vec<ProcStat>) -> Reading {
    Reading {
        procs_running: Some(3),
        ticks_per_second: 100,
        total,
        per_core: vec![total, total],
        cpu_stat: None,
        cpuacct_usage: vec![],
        scan,
        instant_ns: seconds * 1_000_000_000,
        io: vec![],
        memory: vec![],
    }
}

/// The ticks that make so many seconds, at a hundred ticks a second.
fn ticks(secs: Option<Double>) -> u64 {
    let secs = float(&secs.expect("tracked"));
    let ticks = (secs * 100.0).round() as u64;
    assert_eq!(secs, ticks as f64 / 100.0);
    ticks
}

#[test]
fn test_carry_forward_spans_gap_for_reappearing_pid() {
    let idle = times(0, 0, 0);
    let mut c = CpuCollector::new(Some(1), &no_files(), Some(2));
    c.collect(reading(0, idle, vec![stat(1, 0, 500, 0), stat(2, 1, 10000, 0)]));

    // The child is missing from one scan: the parent's own 100 ticks remain.
    let m = c.collect(reading(1, idle, vec![stat(1, 0, 600, 0)]));
    assert_eq!(ticks(m.process_utime_secs), 100);

    // Child reappears with 11000 ticks (earned 1000 during the gap).
    let m = c.collect(reading(2, idle, vec![stat(1, 0, 700, 0), stat(2, 1, 11000, 0)]));
    assert_eq!(
        ticks(m.process_utime_secs),
        1100,
        "with carry-forward: parent delta (100) + child delta spanning gap (1000)"
    );

    // A collector that never saw the child treats it as new.
    let mut fresh = CpuCollector::new(Some(1), &no_files(), Some(2));
    fresh.collect(reading(1, idle, vec![stat(1, 0, 600, 0)]));
    let m = fresh.collect(reading(2, idle, vec![stat(1, 0, 700, 0), stat(2, 1, 11000, 0)]));
    assert_eq!(
        ticks(m.process_utime_secs),
        100,
        "without carry-forward: only parent delta (100), child contribution lost"
    );
}

#[test]
fn test_carry_forward_limited_to_one_hop() {
    let idle = times(0, 0, 0);
    let mut c = CpuCollector::new(Some(1), &no_files(), Some(2));
    c.collect(reading(0, idle, vec![stat(1, 0, 500, 0), stat(2, 1, 10000, 0)]));

    // Interval N: child 2 missing from live scan; it is carried forward.
    c.collect(reading(1, idle, vec![stat(1, 0, 600, 0)]));
    // Interval N+1: child 2 still missing; it is not carried forward again.
    c.collect(reading(2, idle, vec![stat(1, 0, 700, 0)]));

    // When it comes back it is new: only the parent's 100 ticks count.
    let m = c.collect(reading(3, idle, vec![stat(1, 0, 800, 0), stat(2, 1, 12000, 0)]));
    assert_eq!(ticks(m.process_utime_secs), 100, "child must NOT be carried forward a second time");
}

#[test]
fn carried_disk_traffic_spans_a_gap_too() {
    let idle = times(0, 0, 0);
    let with_io = |seconds: u64, io: Vec<ProcIo>| {
        let mut r = reading(seconds, idle, vec![stat(1, 0, 0, 0)]);
        r.io = io;
        r
    };
    let io = |read_bytes: u64, write_bytes: u64| ProcIo { pid: 1, read_bytes, write_bytes };
    let mut c = CpuCollector::new(Some(1), &no_files(), Some(2));
    c.collect(with_io(0, vec![io(1000, 10)]));
    let m = c.collect(with_io(1, vec![]));
    assert_eq!(m.process_disk_read_bytes, None);
    let m = c.collect(with_io(2, vec![io(5000, 30)]));
    assert_eq!(m.process_disk_read_bytes, Some(4000));
    assert_eq!(m.process_disk_write_bytes, Some(20));
}

#[test]
fn exited_children_are_not_counted_twice() {
    let idle = times(0, 0, 0);
    let mut c = CpuCollector::new(Some(200), &no_files(), Some(2));
    c.collect(reading(0, idle, vec![stat(200, 1, 50, 0), stat(100, 200, 500, 0)]));
    let m = c.collect(reading(1, idle, vec![stat(200, 1, 50 + 250 + 2500, 0)]));
    assert_eq!(ticks(m.process_utime_secs), 2250);
    assert_eq!(ticks(m.process_stime_secs), 0);
    assert_eq!(m.process_child_count, Some(0));
    assert_eq!(m.process_tree_pids, vec![200]);
}

#[test]
fn deltas_follow_the_counters() {
    let mut c = CpuCollector::new(Some(20), &no_files(), Some(2));
    c.collect(reading(10, times(1000, 500, 8500), vec![stat(20, 1, 100, 50), stat(21, 20, 10, 5)]));
    let mut curr = times(1100, 550, 8600);
    curr.steal = Some(25);
    curr.nice = 25;
    let mut r = reading(12, curr, vec![stat(20, 1, 160, 60), stat(21, 20, 20, 5)]);
    r.memory = vec![
        ProcMemory { pss_bytes: Some(3 * 1024 * 1024), rss_kib: Some(4096) },
        ProcMemory { pss_bytes: Some(1024 * 1024), rss_kib: None },
    ];
    let m = c.collect(r);
    // 300 ticks in all, 100 of them idle, on two cores.
    assert_eq!(float(&m.utilization_pct), 200.0 / 300.0 * 100.0 / 100.0 * 2.0);
    assert_eq!(float(&m.utime_secs), 1.25);
    assert_eq!(float(&m.stime_secs), 0.5);
    assert_eq!(float(&m.steal_time_secs), 0.25);
    assert_eq!(float(&m.steal_time_pct), 25.0 / 300.0 * 100.0);
    assert_eq!(m.per_core_pct.len(), 2);
    assert!((float(&m.per_core_pct[0]) - 66.66666666666667).abs() < 1e-9);
    assert_eq!(m.per_core_steal_time_pct.len(), 2);
    assert_eq!(float(&m.process_utime_secs.unwrap()), 0.7);
    assert_eq!(float(&m.process_stime_secs.unwrap()), 0.1);
    // 0.8 CPU seconds in two seconds.
    assert_eq!(float(&m.process_cores_used.unwrap()), (0.7 + 0.1) / 2.0);
    assert_eq!(m.process_child_count, Some(1));
    assert_eq!(m.process_pss_mib, Some(4));
    assert_eq!(m.process_rss_mib, Some(4));
    assert_eq!(m.process_count, 3);
    assert_eq!(m.cgroup_usage_secs, None);
}

#[test]
fn process_cores_are_capped_by_machine_and_quota() {
    // The tree claims 500 ticks in one second; the machine was busy for 150.
    let mut c = CpuCollector::new(Some(1), &no_files(), Some(2));
    c.collect(reading(0, times(0, 0, 0), vec![stat(1, 0, 0, 0)]));
    let m = c.collect(reading(1, times(150, 0, 50), vec![stat(1, 0, 500, 0)]));
    assert_eq!(float(&m.process_cores_used.unwrap()), 1.5);
    assert_eq!(float(&m.process_utime_secs.unwrap()), 5.0);

    // A quota of half a core is tighter.
    let mut files = no_files();
    files.cpu_max = Some("50000 100000\n".to_string());
    let mut c = CpuCollector::new(Some(1), &files, Some(2));
    c.collect(reading(0, times(0, 0, 0), vec![stat(1, 0, 0, 0)]));
    let m = c.collect(reading(1, times(150, 0, 50), vec![stat(1, 0, 500, 0)]));
    assert_eq!(float(&m.process_cores_used.unwrap()), 0.5);

    // Where the machine's own counters stand still, the core count is the cap.
    let mut c = CpuCollector::new(Some(1), &no_files(), Some(2));
    c.collect(reading(0, times(0, 0, 0), vec![stat(1, 0, 0, 0)]));
    let m = c.collect(reading(1, times(0, 0, 0), vec![stat(1, 0, 500, 0)]));
    assert_eq!(float(&m.process_cores_used.unwrap()), 2.0);
}

#[test]
fn group_usage_is_measured_and_capped() {
    let mut files = no_files();
    files.cpu_stat = Some("usage_usec 1000000\n".to_string());
    files.cpu_max = Some("150000 100000\n".to_string());
    let with_usage = |seconds: u64, usec: u64| {
        let mut r = reading(seconds, times(0, 0, 0), vec![]);
        r.cpu_stat = Some(format!("usage_usec {usec}\nuser_usec 0\n"));
        r
    };
    let mut c = CpuCollector::new(None, &files, Some(4));
    let m = c.collect(with_usage(0, 1_000_000));
    assert_eq!(m.cgroup_usage_secs.map(|r| float(&r)), Some(0.0));
    assert_eq!(m.cgroup_utilization_pct.map(|r| float(&r)), Some(0.0));
    let m = c.collect(with_usage(2, 3_000_000));
    assert_eq!(m.cgroup_usage_secs.map(|r| float(&r)), Some(2.0));
    assert_eq!(m.cgroup_utilization_pct.map(|r| float(&r)), Some(1.0));
    let m = c.collect(with_usage(3, 8_000_000));
    assert_eq!(m.cgroup_utilization_pct.map(|r| float(&r)), Some(1.5));
    // A counter that went back has not moved.
    let m = c.collect(with_usage(4, 7_000_000));
    assert_eq!(m.cgroup_usage_secs.map(|r| float(&r)), Some(0.0));
    // A counter that cannot be read is not reported.
    let m = c.collect(reading(5, times(0, 0, 0), vec![]));
    assert_eq!(m.cgroup_usage_secs, None);
}

#[test]
fn very_short_intervals_count_as_a_millisecond() {
    let mut c = CpuCollector::new(Some(1), &no_files(), Some(2));
    c.collect(reading(1, times(0, 0, 0), vec![stat(1, 0, 0, 0)]));
    let m = c.collect(reading(1, times(100, 0, 0), vec![stat(1, 0, 0, 0)]));
    assert_eq!(float(&m.process_cores_used.unwrap()), 0.0);
    // The clock went back: the interval still has a length.
    let m = c.collect(reading(0, times(200, 0, 0), vec![stat(1, 0, 100, 0)]));
    assert_eq!(float(&m.process_cores_used.unwrap()), 2.0);
}

#[test]
fn tracking_can_start_later() {
    let mut c = CpuCollector::new(None, &no_files(), None);
    let m = c.collect(reading(0, times(0, 0, 0), vec![stat(20, 1, 70, 0)]));
    assert!(m.process_tree_pids.is_empty());
    c.set_tracked_pid(Some(20));
    assert_eq!(c.tracked_pids(&vec![stat(20, 1, 70, 0), stat(30, 1, 0, 0)]), vec![20]);
    // The process is new to the collector, so it has used nothing yet.
    let m = c.collect(reading(1, times(50, 0, 50), vec![stat(20, 1, 90, 0)]));
    assert_eq!(ticks(m.process_utime_secs), 0);
    let m = c.collect(reading(2, times(99, 0, 99), vec![stat(20, 1, 95, 0)]));
    assert_eq!(ticks(m.process_utime_secs), 5);
}

#[test]
fn readings_without_a_tick_rate_are_not_valid() {
    let mut r = reading(0, times(0, 0, 0), vec![]);
    assert!(r.is_valid());
    r.ticks_per_second = 0;
    assert!(!r.is_valid());
    let mut r = reading(0, times(0, 0, 0), vec![]);
    r.per_core[1] = times(u64::MAX, 1, 0);
    assert!(!r.is_valid());
}

#[test]
fn an_unknown_number_of_runnable_processes_is_zero() {
    let mut c = CpuCollector::new(None, &no_files(), Some(2));
    let mut r = reading(0, times(0, 0, 0), vec![stat(1, 0, 0, 0), stat(2, 1, 0, 0)]);
    r.procs_running = None;
    assert_eq!(c.collect(r).process_count, 0);
    assert_eq!(c.collect(reading(1, times(0, 0, 0), vec![])).process_count, 3);
}

#[test]
fn descendants_are_counted_whether_the_root_is_there_or_not() {
    let idle = times(0, 0, 0);
    let mut c = CpuCollector::new(Some(1), &no_files(), Some(2));
    let orphans = vec![stat(2, 1, 0, 0), stat(3, 1, 0, 0)];
    let m = c.collect(reading(0, idle, orphans.clone()));
    assert_eq!(m.process_child_count, Some(2));
    let m = c.collect(reading(1, idle, orphans));
    assert_eq!(m.process_child_count, Some(2));
    let all = vec![stat(1, 0, 0, 0), stat(2, 1, 0, 0), stat(3, 2, 0, 0)];
    assert_eq!(c.collect(reading(2, idle, all)).process_child_count, Some(2));
    let alone = vec![stat(1, 0, 0, 0)];
    assert_eq!(c.collect(reading(3, idle, alone)).process_child_count, Some(0));
    assert_eq!(c.collect(reading(4, idle, vec![])).process_child_count, Some(0));
}

#[test]
fn disk_traffic_is_unknown_when_none_of_it_can_be_read() {
    let idle = times(0, 0, 0);
    let tree = vec![stat(1, 0, 0, 0), stat(2, 1, 0, 0)];
    let mut c = CpuCollector::new(Some(1), &no_files(), Some(2));
    let m = c.collect(reading(0, idle, tree.clone()));
    assert_eq!((m.process_disk_read_bytes, m.process_disk_write_bytes), (None, None));
    let m = c.collect(reading(1, idle, tree.clone()));
    assert_eq!((m.process_disk_read_bytes, m.process_disk_write_bytes), (None, None));

    // It is enough to read it of one process.
    let mut r = reading(2, idle, tree.clone());
    r.io = vec![ProcIo { pid: 2, read_bytes: 10, write_bytes: 20 }];
    let m = c.collect(r);
    assert_eq!((m.process_disk_read_bytes, m.process_disk_write_bytes), (Some(0), Some(0)));
    let mut r = reading(3, idle, tree.clone());
    r.io = vec![ProcIo { pid: 2, read_bytes: 15, write_bytes: 27 }];
    let m = c.collect(r);
    assert_eq!((m.process_disk_read_bytes, m.process_disk_write_bytes), (Some(5), Some(7)));
    let m = c.collect(reading(4, idle, tree));
    assert_eq!((m.process_disk_read_bytes, m.process_disk_write_bytes), (None, None));
}

/// What doubles make of two readings, step by step.
struct Expected {
    utime_secs: f64,
    process_utime_secs: f64,
    process_cores_used: f64,
    cgroup_usage_secs: f64,
    cgroup_utilization_pct: f64,
}

#[test]
fn figures_round_at_every_step() {
    let mut seed: u64 = 0x9e37_79b9_7f4a_7c15;
    let mut next = |bound: u64| {
        seed ^= seed << 13;
        seed ^= seed >> 7;
        seed ^= seed << 17;
        seed % bound
    };
    for quota in ["max 100000", "250000 100000", "33333.3 1e5", "nan 1", "inf 1", "-inf 1", "1e-300 1"]
    {
        for _ in 0..200 {
            let tps = next(1000) + 1;
            let nanos = next(10_000_000_000);
            let (user, idle) = (next(100_000), next(100_000));
            let (own_user, own_system) = (next(50_000), next(50_000));
            let (usec_before, usec) = (next(1_000_000_000), next(10_000_000_000));
            let mut files = no_files();
            files.cpu_max = Some(quota.to_string());
            files.cpu_stat = Some("usage_usec 1".to_string());
            let mut c = CpuCollector::new(Some(1), &files, Some(2));
            let at = |instant_ns: u64, usec: u64, total: CpuTime, scan: Vec<ProcStat>| {
                let mut r = reading(0, total, scan);
                r.ticks_per_second = tps;
                r.instant_ns = instant_ns;
                r.cpu_stat = Some(format!("usage_usec {usec}\n"));
                r
            };
            c.collect(at(77, usec_before, times(5, 0, 5), vec![stat(1, 0, 0, 0)]));
            let m = c.collect(at(
                77 + nanos,
                usec,
                times(5 + user, 0, 5 + idle),
                vec![stat(1, 0, own_user, own_system)],
            ));

            let words: Vec<&str> = quota.split_whitespace().collect();
            let limit = match (words[0], words[1].parse::<f64>().unwrap()) {
                ("max", _) => None,
                (word, period) => Some(word.parse::<f64>().unwrap() / period),
            };
            let elapsed = std::time::Duration::from_nanos(nanos).as_secs_f64().max(0.001);
            let own = own_user as f64 / tps as f64;
            let used = (own + own_system as f64 / tps as f64) / elapsed;
            let busy_secs = if user + idle > 0 { user as f64 / tps as f64 } else { f64::MAX };
            let group = (usec as f64 / 1_000_000.0 - usec_before as f64 / 1_000_000.0).max(0.0);
            let effective = match limit {
                Some(q) => 2.0_f64.min(q),
                None => 2.0,
            };
            let expected = Expected {
                utime_secs: user as f64 / tps as f64,
                process_utime_secs: own,
                process_cores_used: used
                    .max(0.0)
                    .min(busy_secs / elapsed)
                    .min(limit.unwrap_or(2.0)),
                cgroup_usage_secs: group,
                cgroup_utilization_pct: (group / elapsed).min(effective),
            };
            assert_eq!(float(&m.utime_secs), expected.utime_secs);
            assert_eq!(float(&m.process_utime_secs.unwrap()), expected.process_utime_secs);
            assert_eq!(float(&m.process_cores_used.unwrap()), expected.process_cores_used);
            assert_eq!(float(&m.cgroup_usage_secs.unwrap()), expected.cgroup_usage_secs);
            assert_eq!(
                float(&m.cgroup_utilization_pct.unwrap()),
                expected.cgroup_utilization_pct
            );
        }
    }
}

/// Over several readings the ticks of all intervals are those between the first
/// and the last.
#[test]
fn user_and_system_time_add_up() {
    let mut c = CpuCollector::new(None, &no_files(), Some(2));
    c.collect(reading(0, times(100, 40, 0), vec![]));
    let (mut user, mut system) = (0, 0);
    for (i, (u, s)) in [(130, 41), (130, 90), (1000, 91), (1007, 191)].iter().enumerate() {
        let m = c.collect(reading(i as u64 + 1, times(*u, *s, 0), vec![]));
        user += ticks(Some(m.utime_secs));
        system += ticks(Some(m.stime_secs));
    }
    assert_eq!((user, system), (907, 151));
}

#[test]
fn the_first_charge_of_a_tree_is_zero() {
    let mut c = CpuCollector::new(None, &no_files(), Some(2));
    c.collect(reading(0, times(0, 0, 0), vec![stat(20, 1, 70, 9)]));
    c.set_tracked_pid(Some(20));
    let mut r = reading(1, times(50, 0, 50), vec![stat(20, 1, 90, 12), stat(21, 20, 400, 1)]);
    r.io = vec![ProcIo { pid: 20, read_bytes: 5000, write_bytes: 600 }];
    let m = c.collect(r);
    assert_eq!(float(&m.process_utime_secs.unwrap()), 0.0);
    assert_eq!(float(&m.process_stime_secs.unwrap()), 0.0);
    assert_eq!(float(&m.process_cores_used.unwrap()), 0.0);
    assert_eq!((m.process_disk_read_bytes, m.process_disk_write_bytes), (Some(0), Some(0)));
}
