use resource_tracker::accounting::{correct_delta, pids_of, sum_gains, sum_gone, Counter};
use resource_tracker::process::{
    process_tree_io, process_tree_memory_mib, process_tree_ticks,
    ProcIo, ProcMemory, ProcStat,
};
use std::collections::HashMap;

fn live_scan() -> Vec<ProcStat> {
    procfs::process::all_processes()
        .expect("process list")
        .filter_map(|p| p.ok())
        .filter_map(|p| p.stat().ok())
        .filter_map(|s| ProcStat::new(s.pid, s.ppid, s.utime, s.stime, s.cutime, s.cstime))
        .collect()
}

fn stat(pid: i32, ppid: i32, user: u64, system: u64) -> ProcStat {
    ProcStat { pid, ppid, user, system }
}

fn both(prev: &HashMap<i32, (u64, u64)>, curr: &HashMap<i32, (u64, u64)>) -> u128 {
    sum_gains(prev, curr, Counter::First) + sum_gains(prev, curr, Counter::Second)
}

fn both_gone(prev: &HashMap<i32, (u64, u64)>, curr: &HashMap<i32, (u64, u64)>) -> u128 {
    sum_gone(prev, curr, Counter::First) + sum_gone(prev, curr, Counter::Second)
}

#[test]
fn test_process_tree_ticks_contains_root_pid() {
    let ticks = process_tree_ticks(1, &live_scan());
    assert!(
        ticks.contains_key(&1),
        "process_tree_ticks(1) must contain PID 1 (init/systemd is always present)"
    );
}

#[test]
fn test_process_tree_memory_nonzero_for_self() {
    let me = procfs::process::Process::myself().expect("own process");
    let pss_bytes = me.smaps_rollup().ok().and_then(|rollup| {
        rollup
            .memory_map_rollup
            .iter()
            .find_map(|m| m.extension.map.get("Pss").copied())
    });
    let rss_kib = me.status().ok().and_then(|s| s.vmrss);
    let (pss, rss) = process_tree_memory_mib(&vec![ProcMemory { pss_bytes, rss_kib }]);
    assert!(
        pss > 0,
        "PSS for the current process should be > 0, got {pss}"
    );
    assert!(
        rss > 0,
        "RSS for the current process should be > 0, got {rss}"
    );
    assert!(
        pss <= rss,
        "PSS ({pss}) should not exceed RSS ({rss}) for a single process"
    );
}

#[test]
fn test_cutime_correction_cancels_exited_child_ticks() {
    let prev: HashMap<i32, (u64, u64)> = [
        (200, (50, 0)),  // parent: 50 own ticks at warm-up
        (100, (500, 0)), // child:  500 ticks at warm-up
    ]
    .iter()
    .cloned()
    .collect();

    // Between samples: child accumulates 2000 more ticks then exits.
    // Parent's cutime = child's full lifetime = 500 + 2000 = 2500.
    // Parent runs 250 own ticks.
    let curr: HashMap<i32, (u64, u64)> = [(200, (50 + 250 + 2500, 0))].iter().cloned().collect();

    let raw = both(&prev, &curr);
    assert_eq!(
        raw, 2750,
        "raw delta must include the double-counted pre-snapshot child ticks"
    );

    let exited = both_gone(&prev, &curr);
    assert_eq!(
        exited, 500,
        "exited ticks must equal the child's pre-snapshot tick count"
    );

    let corrected = correct_delta(raw, exited);
    // Correct answer: parent own delta (250) + child post-snapshot delta (2000) = 2250.
    assert_eq!(
        corrected, 2250,
        "corrected delta must exclude the child's pre-snapshot ticks"
    );
}

#[test]
fn test_cutime_correction_handles_cascaded_exits() {
    let prev: HashMap<i32, (u64, u64)> = [
        (7, (0, 0)),   // root:        no prior ticks
        (8, (100, 0)), // child:       100 pre-snapshot ticks
        (9, (200, 0)), // grandchild:  200 pre-snapshot ticks
    ]
    .iter()
    .cloned()
    .collect();

    // Grandchild earns 50 ticks and exits; reaped by child.
    // Child earns 50 own ticks then exits; reaped by root.
    // Root earns 30 own ticks.
    let curr: HashMap<i32, (u64, u64)> = [(7, (30 + 400, 0))].iter().cloned().collect();

    let raw = both(&prev, &curr);
    // raw = 430; overcounts by child_prev (100) + grandchild_prev (200) = 300.
    assert_eq!(raw, 430);

    let exited = both_gone(&prev, &curr);
    assert_eq!(
        exited, 300,
        "exited = child pre-snap (100) + grandchild pre-snap (200)"
    );

    // Correct: root own (30) + child own delta (50) + grandchild own delta (50) = 130.
    assert_eq!(correct_delta(raw, exited), 130);
}

#[test]
fn test_cutime_correction_skipped_when_exited_exceeds_raw() {
    let prev: HashMap<i32, (u64, u64)> =
        [(1, (500, 0)), (2, (50000, 0))].iter().cloned().collect();
    let curr: HashMap<i32, (u64, u64)> = [(1, (600, 0))].iter().cloned().collect();

    let raw = both(&prev, &curr);
    assert_eq!(raw, 100, "raw delta is parent's own 100 ticks");

    let exited = both_gone(&prev, &curr);
    assert_eq!(exited, 50000);

    // Subtracting would floor the delta at zero.
    assert_eq!(raw.saturating_sub(exited), 0);

    // The correction is skipped when exited > raw.
    let corrected = correct_delta(raw, exited);
    assert_eq!(
        corrected, 100,
        "must preserve raw delta when correction is implausible"
    );
}

#[test]
fn test_mib_truncation_can_underreport_pss_delta() {
    // Scenario: PSS goes from 8.001 MiB to 11.999 MiB (real delta ~3.998 MiB).
    let pss_before_bytes: u64 = (8 * 1024 + 1) * 1024; // 8.001 MiB
    let pss_after_bytes: u64 = (12 * 1024 - 1) * 1024; // 11.999 MiB

    let before_mib = process_tree_memory_mib(&vec![ProcMemory {
        pss_bytes: Some(pss_before_bytes),
        rss_kib: None,
    }])
    .0;
    let after_mib = process_tree_memory_mib(&vec![ProcMemory {
        pss_bytes: Some(pss_after_bytes),
        rss_kib: None,
    }])
    .0;
    let delta_mib = after_mib.saturating_sub(before_mib); // 3

    assert_eq!(before_mib, 8);
    assert_eq!(after_mib, 11);
    assert_eq!(
        delta_mib, 3,
        "truncation makes ~4 MiB delta appear as 3 MiB"
    );

    // Without slack an assertion `delta >= 4` would fail.
    assert!(delta_mib < 4);

    // With a slack of 1 the assertion recovers.
    const TRUNC_SLACK_MIB: u128 = 1;
    assert!(delta_mib + TRUNC_SLACK_MIB >= 4);
}

#[test]
fn memory_is_summed_before_it_is_cut_to_whole_mib() {
    let half = ProcMemory { pss_bytes: Some(512 * 1024 + 1023), rss_kib: Some(768) };
    let unreadable = ProcMemory { pss_bytes: None, rss_kib: None };
    assert_eq!(process_tree_memory_mib(&vec![half, unreadable, half]), (1, 1));
    assert_eq!(process_tree_memory_mib(&vec![half, half, half, half]), (2, 3));
    assert_eq!(process_tree_memory_mib(&vec![]), (0, 0));
}

#[test]
fn tree_holds_descendants_only() {
    let scan = vec![
        stat(1, 0, 5, 6),
        stat(10, 1, 10, 11),
        stat(11, 10, 12, 13),
        stat(12, 11, 14, 15),
        stat(20, 1, 16, 17),
    ];
    let ticks = process_tree_ticks(10, &scan);
    assert_eq!(ticks.len(), 3);
    assert_eq!(ticks.get(&10), Some(&(10, 11)));
    assert_eq!(ticks.get(&11), Some(&(12, 13)));
    assert_eq!(ticks.get(&12), Some(&(14, 15)));
    assert_eq!(process_tree_ticks(1, &scan).len(), 5);
    assert!(process_tree_ticks(99, &scan).is_empty());
}

#[test]
fn tree_is_found_through_a_root_that_is_not_listed() {
    let scan = vec![stat(11, 10, 1, 2), stat(12, 11, 3, 4)];
    let ticks = process_tree_ticks(10, &scan);
    let mut pids = pids_of(&ticks);
    pids.sort();
    assert_eq!(pids, vec![11, 12]);
}

#[test]
fn tree_search_ends_on_a_cycle() {
    let scan = vec![stat(1, 2, 0, 0), stat(2, 1, 0, 0)];
    assert_eq!(process_tree_ticks(1, &scan).len(), 2);
}

#[test]
fn ticks_of_waited_children_count() {
    let s = ProcStat::new(5, 1, 100, 50, 7, 3).unwrap();
    assert_eq!((s.user, s.system), (107, 53));
    let negative = ProcStat::new(5, 1, 100, 50, -7, -3).unwrap();
    assert_eq!((negative.user, negative.system), (100, 50));
    assert!(ProcStat::new(5, 1, u64::MAX, 0, 1, 0).is_none());
}

#[test]
fn new_and_reset_counters_gain_nothing() {
    let prev: HashMap<i32, (u64, u64)> = [(1, (10, 20)), (2, (30, 40))].into_iter().collect();
    let curr: HashMap<i32, (u64, u64)> =
        [(1, (15, 20)), (2, (5, 41)), (3, (1000, 1000))].into_iter().collect();
    assert_eq!(sum_gains(&prev, &curr, Counter::First), 5);
    assert_eq!(sum_gains(&prev, &curr, Counter::Second), 1);
    assert_eq!(sum_gone(&prev, &curr, Counter::First), 0);
}

#[test]
fn io_is_kept_by_process() {
    let io = process_tree_io(&vec![
        ProcIo { pid: 1, read_bytes: 10, write_bytes: 20 },
        ProcIo { pid: 2, read_bytes: 30, write_bytes: 40 },
    ]);
    assert_eq!(io.get(&1), Some(&(10, 20)));
    assert_eq!(io.get(&2), Some(&(30, 40)));
    assert_eq!(io.len(), 2);
}
