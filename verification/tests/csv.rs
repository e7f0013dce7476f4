use resource_tracker::csv::{csv_header, sample_to_csv_row, samples_to_csv};
use resource_tracker::metrics::{
    CpuMetrics, DiskMetrics, DiskMountMetrics, GpuMetrics, MemoryMetrics, NetworkMetrics, Sample,
};
use resource_tracker::number::Double;

fn num(x: f64) -> Double {
    Double { bits: x.to_bits() }
}

fn minimal_sample() -> Sample {
    Sample {
        timestamp_secs: 1_000_000,
        actual_interval_ms: None,
        job_name: None,
        tracked_pid: None,
        cpu: CpuMetrics {
            utilization_pct: num(2.5),
            cgroup_utilization_pct: None,
            cgroup_usage_secs: None,
            utime_secs: num(1.234),
            stime_secs: num(0.567),
            steal_time_secs: num(0.0),
            steal_time_pct: num(0.0),
            per_core_steal_time_pct: vec![],
            process_count: 42,
            per_core_pct: vec![],
            process_cores_used: None,
            process_child_count: None,
            process_utime_secs: None,
            process_stime_secs: None,
            process_pss_mib: None,
            process_rss_mib: None,
            process_disk_read_bytes: None,
            process_disk_write_bytes: None,
            process_gpu_usage: None,
            process_gpu_vram_mib: None,
            process_gpu_utilized: None,
            process_tree_pids: vec![],
        },
        memory: MemoryMetrics {
            total_mib: 8192,
            free_mib: 1000,
            available_mib: 2000,
            used_mib: 2000,
            used_pct: num(25.0),
            buffers_mib: 100,
            cached_mib: 500,
            swap_total_mib: 0,
            swap_used_mib: 0,
            swap_used_pct: num(0.0),
            active_mib: 1500,
            inactive_mib: 300,
        },
        network: vec![],
        disk: vec![],
        gpu: vec![],
    }
}

fn disk(read: f64, write: f64, mounts: Vec<DiskMountMetrics>) -> DiskMetrics {
    DiskMetrics {
        device: "sda".to_string(),
        model: None,
        vendor: None,
        serial: None,
        device_type: None,
        capacity_bytes: None,
        mounts,
        read_bytes_per_sec: num(read),
        write_bytes_per_sec: num(write),
        read_bytes_total: 0,
        write_bytes_total: 0,
    }
}

fn mount(total_bytes: u64, available_bytes: u64) -> DiskMountMetrics {
    DiskMountMetrics {
        mount_point: "/".to_string(),
        filesystem: "ext4".to_string(),
        total_bytes,
        used_bytes: 60_000_000_000,
        available_bytes,
        used_pct: num(60.0),
    }
}

fn columns(row: &str) -> Vec<String> {
    row.split(',').map(|c| c.to_string()).collect()
}

fn network(interface: &str, rx: f64, tx: f64) -> NetworkMetrics {
    NetworkMetrics {
        interface: interface.to_string(),
        rx_bytes_per_sec: num(rx),
        tx_bytes_per_sec: num(tx),
        rx_bytes_total: 1000,
        tx_bytes_total: 2000,
    }
}

#[test]
fn test_csv_header_is_first_line_no_embedded_newline() {
    let h = csv_header();
    assert!(
        h.starts_with("timestamp,"),
        "header must start with 'timestamp,'"
    );
    assert!(
        !h.contains('\n'),
        "header must not contain an embedded newline"
    );
}

#[test]
fn test_csv_row_column_count_matches_header() {
    let header_cols = csv_header().split(',').count();
    let row = sample_to_csv_row(&minimal_sample(), 1);
    let row_cols = row.split(',').count();
    assert_eq!(
        row_cols, header_cols,
        "header has {header_cols} columns but row has {row_cols}: {row}"
    );
}

#[test]
fn test_csv_cpu_usage_is_utilization_pct_direct() {
    let mut sample = minimal_sample();
    sample.cpu.utilization_pct = num(3.1415);
    let row = sample_to_csv_row(&sample, 1);
    let cols: Vec<&str> = row.split(',').collect();
    let cpu_usage: f64 = cols[4]
        .parse()
        .unwrap_or_else(|_| panic!("system_cpu_usage column is not numeric: {:?}", cols[4]));
    assert!(
        (cpu_usage - 3.1415_f64).abs() < 0.00005,
        "system_cpu_usage {cpu_usage:.4} does not match utilization_pct 3.1415"
    );
}

#[test]
fn test_csv_disk_space_used_equals_total_minus_free() {
    let mut sample = minimal_sample();
    sample.disk = vec![disk(0.0, 0.0, vec![mount(100_000_000_000, 40_000_000_000)])];
    let row = sample_to_csv_row(&sample, 1);
    let cols: Vec<&str> = row.split(',').collect();
    let total: f64 = cols[13].parse().unwrap();
    let used: f64 = cols[14].parse().unwrap();
    let free: f64 = cols[15].parse().unwrap();
    assert!(
        (used - (total - free)).abs() < 1e-9,
        "disk_space_used_gb {used:.6} != total {total:.6} - free {free:.6}"
    );
}

#[test]
fn test_csv_output_is_deterministic() {
    let sample = minimal_sample();
    let r1 = sample_to_csv_row(&sample, 1);
    let r2 = sample_to_csv_row(&sample, 1);
    assert_eq!(r1, r2, "csv row output is not deterministic");
}

#[test]
fn test_csv_process_gpu_fields_emitted_when_set() {
    let mut sample = minimal_sample();
    sample.tracked_pid = Some(42);
    sample.cpu.process_gpu_usage = Some(num(0.55));
    sample.cpu.process_gpu_vram_mib = Some(num(83.1875));
    sample.cpu.process_gpu_utilized = Some(1);

    let row = sample_to_csv_row(&sample, 1);
    let cols: Vec<&str> = row.split(',').collect();

    assert_eq!(cols[29], "0.5500", "process_gpu_usage mismatch");
    assert_eq!(cols[30], "83.1875", "process_gpu_vram_mib mismatch");
    assert_eq!(cols[31], "1", "process_gpu_utilized mismatch");
}

#[test]
fn test_csv_process_gpu_fields_empty_when_untracked() {
    let sample = minimal_sample(); // tracked_pid = None, all process fields None

    let row = sample_to_csv_row(&sample, 1);
    let cols: Vec<&str> = row.split(',').collect();

    assert_eq!(cols[29], "", "process_gpu_usage must be empty when None");
    assert_eq!(cols[30], "", "process_gpu_vram_mib must be empty when None");
    assert_eq!(cols[31], "", "process_gpu_utilized must be empty when None");
}

#[test]
fn test_csv_no_trailing_commas_no_quoted_fields() {
    let row = sample_to_csv_row(&minimal_sample(), 1);
    assert!(!row.contains('"'), "double-quoted field in row: {row}");
    assert!(!row.contains('\''), "single-quoted field in row: {row}");
    let h = csv_header();
    assert!(!h.ends_with(','), "trailing comma in header");
    assert!(!h.contains('"'), "double-quoted field in header");
}

#[test]
fn test_csv_rate_conversion_uses_actual_interval_when_present() {
    let mut sample = minimal_sample();
    sample.actual_interval_ms = Some(2000); // 2 s actual
    sample.disk = vec![disk(1000.0, 500.0, vec![])];

    // Column 11 = system_disk_read_bytes, column 12 = system_disk_write_bytes.
    let row = sample_to_csv_row(&sample, 1); // nominal = 1 s
    let cols: Vec<&str> = row.split(',').collect();
    let read: u64 = cols[11]
        .parse()
        .unwrap_or_else(|_| panic!("system_disk_read_bytes not u64: {:?}", cols[11]));
    let write: u64 = cols[12]
        .parse()
        .unwrap_or_else(|_| panic!("system_disk_write_bytes not u64: {:?}", cols[12]));
    assert_eq!(
        read, 2000,
        "system_disk_read_bytes must use actual interval (2 s → 2000 B), not nominal (1 s → 1000 B)"
    );
    assert_eq!(
        write, 1000,
        "system_disk_write_bytes must use actual interval (2 s → 1000 B), not nominal (1 s → 500 B)"
    );
}

#[test]
fn test_csv_rate_conversion_falls_back_to_nominal_when_actual_absent() {
    let mut sample = minimal_sample();
    sample.actual_interval_ms = None;
    sample.disk = vec![disk(1000.0, 0.0, vec![])];

    let row = sample_to_csv_row(&sample, 3); // nominal = 3 s, no actual
    let cols: Vec<&str> = row.split(',').collect();
    let read: u64 = cols[11]
        .parse()
        .unwrap_or_else(|_| panic!("system_disk_read_bytes not u64: {:?}", cols[11]));
    assert_eq!(
        read, 3000,
        "system_disk_read_bytes must use nominal interval (3 s → 3000 B) when actual_interval_ms is None"
    );
}

#[test]
fn test_csv_actual_interval_ms_does_not_add_column() {
    let mut with_interval = minimal_sample();
    with_interval.actual_interval_ms = Some(1234);
    let without_interval = minimal_sample(); // actual_interval_ms = None

    let row_with = sample_to_csv_row(&with_interval, 1);
    let row_without = sample_to_csv_row(&without_interval, 1);

    assert_eq!(
        row_with.split(',').count(),
        row_without.split(',').count(),
        "actual_interval_ms must not add a column to the CSV row"
    );
    assert_eq!(
        row_with.split(',').count(),
        csv_header().split(',').count(),
        "CSV row column count must equal header column count"
    );
}

#[test]
fn row_of_a_sample_without_devices() {
    // Sums over nothing print as the standard library's own do.
    let none: f64 = Vec::<f64>::new().iter().sum();
    let expected = format!(
        "1000000,42,1.234,0.567,2.5000,1000,2000,100,500,1500,300,0,0,{none:.6},{:.6},{none:.6},0,0,{none:.4},{none:.4},0,,,,,,,,,,,,0",
        none - none
    );
    assert_eq!(sample_to_csv_row(&minimal_sample(), 1), expected);
}

#[test]
fn row_of_a_busy_machine() {
    let mut s = minimal_sample();
    s.actual_interval_ms = Some(1001);
    s.tracked_pid = Some(1234);
    s.cpu.process_child_count = Some(3);
    s.cpu.process_utime_secs = Some(num(1.5));
    s.cpu.process_stime_secs = Some(num(0.25));
    s.cpu.process_cores_used = Some(num(1.75));
    s.cpu.process_pss_mib = Some(77);
    s.cpu.process_disk_read_bytes = Some(4096);
    s.cpu.process_disk_write_bytes = Some(8192);
    s.cpu.steal_time_secs = num(0.12);
    s.disk = vec![
        disk(1000.0, 0.3, vec![mount(100_000_000_000, 40_000_000_000), mount(1, 1)]),
        disk(1000.0, 1e300, vec![mount(2_500_000_000, 0)]),
    ];
    s.network = vec![
        network("eth0", 10.0, -5.0),
        network("lo", 2.0, f64::NAN),
    ];
    s.gpu = vec![
        GpuMetrics { utilization_pct: num(50.0), vram_used_bytes: 1_048_576 },
        GpuMetrics { utilization_pct: num(0.0), vram_used_bytes: 524_288 },
        GpuMetrics { utilization_pct: num(33.3), vram_used_bytes: 0 },
    ];
    let cols = columns(&sample_to_csv_row(&s, 1));
    let secs = 1001.0_f64 / 1000.0;
    assert_eq!(cols[11], (2 * ((1000.0 * secs) as u64)).to_string());
    // The rate times 1.001 seconds falls just short of a whole number.
    assert_eq!(cols[11], "2000");
    assert_eq!(cols[12], u64::MAX.to_string());
    let total: f64 = [100_000_000_000u64, 1, 2_500_000_000]
        .iter()
        .map(|&b| b as f64 / 1_000_000_000.0)
        .sum();
    let free: f64 = [40_000_000_000u64, 1, 0].iter().map(|&b| b as f64 / 1_000_000_000.0).sum();
    assert_eq!(cols[13], format!("{total:.6}"));
    assert_eq!(cols[14], format!("{:.6}", total - free));
    assert_eq!(cols[15], format!("{free:.6}"));
    assert_eq!(cols[16], "12");
    assert_eq!(cols[17], "0");
    assert_eq!(cols[18], "0.8330");
    assert_eq!(cols[19], "1.5000");
    assert_eq!(cols[20], "2");
    assert_eq!(
        cols[21..].join(","),
        "1234,3,1.5000,0.2500,1.7500,77,4096,8192,,,,0.12"
    );
}

#[test]
fn long_nominal_intervals_are_held_to_32_bits() {
    let mut s = minimal_sample();
    s.disk = vec![disk(1.0, 0.0, vec![])];
    assert_eq!(columns(&sample_to_csv_row(&s, u64::MAX))[11], u32::MAX.to_string());
    // Where the interval was measured, the nominal one does not matter.
    s.actual_interval_ms = Some(500);
    assert_eq!(sample_to_csv_row(&s, 1), sample_to_csv_row(&s, 99));
}

#[test]
fn odd_numbers_do_not_break_the_columns() {
    let mut s = minimal_sample();
    for x in [f64::NAN, f64::INFINITY, -1e300, 5e-324] {
        s.cpu.utime_secs = num(x);
        s.cpu.steal_time_secs = num(x);
        let row = sample_to_csv_row(&s, 1);
        let cols = columns(&row);
        assert_eq!(cols.len(), 33);
        assert_eq!(cols[2], format!("{x:.3}"));
        assert_eq!(cols[32], format!("{x}"));
        assert!(!row.contains('\n'));
    }
}

#[test]
fn reports_have_a_line_per_sample() {
    let mut second = minimal_sample();
    second.timestamp_secs = 1_000_001;
    let samples = vec![minimal_sample(), second];
    let report = samples_to_csv(&samples, 1);
    let lines: Vec<&str> = report.split('\n').collect();
    assert_eq!(lines.len(), 4);
    assert_eq!(lines[3], "");
    assert_eq!(lines[0], csv_header());
    assert_eq!(lines[1], sample_to_csv_row(&samples[0], 1));
    assert_eq!(lines[2], sample_to_csv_row(&samples[1], 1));
    assert_eq!(samples_to_csv(&vec![], 1), format!("{}\n", csv_header()));
}

#[test]
fn header_names_every_column() {
    assert_eq!(
        csv_header(),
        "timestamp,system_processes,system_utime,system_stime,system_cpu_usage,system_memory_free_mib,system_memory_used_mib,system_memory_buffers_mib,system_memory_cached_mib,system_memory_active_mib,system_memory_inactive_mib,system_disk_read_bytes,system_disk_write_bytes,system_disk_space_total_gb,system_disk_space_used_gb,system_disk_space_free_gb,system_net_recv_bytes,system_net_sent_bytes,system_gpu_usage,system_gpu_vram_mib,system_gpu_utilized,process_pid,process_children,process_utime,process_stime,process_cpu_usage,process_memory_mib,process_disk_read_bytes,process_disk_write_bytes,process_gpu_usage,process_gpu_vram_mib,process_gpu_utilized,system_steal_time"
    );
}
