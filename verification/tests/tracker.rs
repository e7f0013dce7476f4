use resource_tracker::cgroup::CgroupFiles;
use resource_tracker::collector::Reading;
use resource_tracker::config::{Cli, Config, OutputFormat};
use resource_tracker::cpu_time::CpuTime;
use resource_tracker::csv::{csv_header, sample_to_csv_row, samples_to_csv};
use resource_tracker::metrics::{CpuMetrics, MemoryMetrics, Sample};
use resource_tracker::number::Double;
use resource_tracker::process::ProcStat;
use resource_tracker::tracker::{
    check_child_exit, child_pid, collect_sample, create_sink, emit_csv_header, emit_metric_line,
    emit_sample, gpu_query, graceful_shutdown, poll_cloud_info, sleep_until_next_interval,
    upload_interval, ChildStatus, Closing, ConnectEvent, Connecting, Event, GpuQuery, ProcessGpu,
    ResourceTracker, SampleClock, Sink, Stage, CLOUD_WAIT_SECS,
};

fn config(format: OutputFormat, quiet: bool, output: Option<&str>) -> Config {
    let cli = Cli {
        pid: Some(9),
        interval: Some(2),
        renice: None,
        config: "x".to_string(),
        format,
        output: output.map(|s| s.to_string()),
        quiet,
        project_name: None,
        job_name: Some("job".to_string()),
        stage_name: None,
        task_name: None,
        team: None,
        env: None,
        language: None,
        orchestrator: None,
        executor: None,
        external_run_id: None,
        container_image: None,
        tags: vec![],
        command: vec![],
    };
    Config::load(cli, None).unwrap()
}

fn zero() -> Double {
    Double { bits: 0 }
}

fn memory() -> MemoryMetrics {
    MemoryMetrics {
        total_mib: 0,
        free_mib: 0,
        available_mib: 0,
        used_mib: 0,
        used_pct: zero(),
        buffers_mib: 0,
        cached_mib: 0,
        swap_total_mib: 0,
        swap_used_mib: 0,
        swap_used_pct: zero(),
        active_mib: 0,
        inactive_mib: 0,
    }
}

fn sample(c: &Config) -> Sample {
    collect_sample(
        c,
        77,
        Some(1500),
        CpuMetrics::default(),
        memory(),
        vec![],
        vec![],
        vec![],
        ProcessGpu { vram_mib: Some(zero()), usage: None, utilized: Some(2) },
    )
}

#[test]
fn setup_runs_in_order() {
    let mut stage = Stage::WarmUp;
    let mut seen = vec![];
    for _ in 0..14 {
        seen.push(stage);
        stage = stage.next(Event::Done);
    }
    assert_eq!(
        seen,
        vec![
            Stage::WarmUp,
            Stage::FirstSleep,
            Stage::Spawn,
            Stage::Connect,
            Stage::Header,
            Stage::Renice,
            Stage::Poll,
            Stage::Collect,
            Stage::Emit,
            Stage::Buffer,
            Stage::CheckChild,
            Stage::CheckSignal,
            Stage::Sleep,
            Stage::Poll,
        ]
    );
}

#[test]
fn runs_end_with_the_right_code() {
    let exited = |code: Option<i32>| Event::Child { status: ChildStatus::Exited { code } };
    assert_eq!(Stage::Spawn.next(Event::SpawnFailed), Stage::Exit { code: 1 });
    assert_eq!(Stage::CheckChild.next(exited(Some(3))), Stage::Exit { code: 3 });
    assert_eq!(Stage::CheckChild.next(exited(None)), Stage::Exit { code: 1 });
    assert_eq!(
        Stage::CheckChild.next(Event::Child { status: ChildStatus::Running }),
        Stage::CheckSignal
    );
    assert_eq!(Stage::CheckSignal.next(Event::Signal { received: true }), Stage::Exit { code: 0 });
    assert_eq!(Stage::CheckSignal.next(Event::Signal { received: false }), Stage::Sleep);
    assert_eq!(Stage::Exit { code: 3 }.next(Event::Done), Stage::Exit { code: 3 });
    assert_eq!(check_child_exit(ChildStatus::Absent), None);
    assert_eq!(check_child_exit(ChildStatus::Unknown), None);
}

#[test]
fn lines_go_where_they_are_asked_to() {
    let plain = config(OutputFormat::Json, false, None);
    let to_file = config(OutputFormat::Json, false, Some("out"));
    let quiet = config(OutputFormat::Json, true, Some("out"));
    assert_eq!(create_sink(&plain), None);
    assert_eq!(create_sink(&to_file), Some(&"out".to_string()));
    assert_eq!(create_sink(&quiet), None);
    assert_eq!(emit_metric_line(&plain, false), Sink::Stderr);
    assert_eq!(emit_metric_line(&to_file, true), Sink::File);
    assert_eq!(emit_metric_line(&to_file, false), Sink::Stderr);
    assert_eq!(emit_metric_line(&quiet, true), Sink::Suppressed);
}

#[test]
fn only_csv_has_a_header() {
    assert_eq!(emit_csv_header(&config(OutputFormat::Csv, false, None)), Some(csv_header()));
    assert_eq!(emit_csv_header(&config(OutputFormat::Json, false, None)), None);
}

#[test]
fn samples_become_lines_of_the_format() {
    let csv = config(OutputFormat::Csv, false, None);
    let s = sample(&csv);
    assert_eq!(
        emit_sample(&csv, &s, None, "p", "1"),
        Some(sample_to_csv_row(&s, 2))
    );
    let json = config(OutputFormat::Json, false, None);
    let value = serde_json::Value::Object(serde_json::Map::new());
    assert_eq!(
        emit_sample(&json, &s, Some(value), "p", "1").as_deref(),
        Some("{\"p-version\":\"1\"}")
    );
    assert_eq!(emit_sample(&json, &s, None, "p", "1"), None);
}

#[test]
fn samples_are_put_together() {
    let c = config(OutputFormat::Csv, false, None);
    let s = sample(&c);
    assert_eq!(s.timestamp_secs, 77);
    assert_eq!(s.actual_interval_ms, Some(1500));
    assert_eq!(s.job_name.as_deref(), Some("job"));
    assert_eq!(s.tracked_pid, Some(9));
    assert_eq!(s.cpu.process_gpu_vram_mib, Some(zero()));
    assert_eq!(s.cpu.process_gpu_usage, None);
    assert_eq!(s.cpu.process_gpu_utilized, Some(2));
    assert_eq!(s.cpu.process_count, 0);
}

#[test]
fn process_numbers_of_children_fit() {
    assert_eq!(child_pid(4242), 4242);
    assert_eq!(child_pid(u32::MAX), i32::MAX);
}

#[test]
fn intervals_are_measured_from_the_sample_before() {
    let mut clock = SampleClock::new();
    assert_eq!(clock.start(5_000_000_000), None);
    assert_eq!(clock.start(6_001_999_999), Some(1001));
    assert_eq!(clock.start(6_001_999_999), Some(0));
    assert_eq!(clock.start(0), Some(0));
}

#[test]
fn gpus_are_asked_for_the_tree_if_there_is_one() {
    match gpu_query(Some(1), &vec![1, -2, 3]) {
        GpuQuery::Pids { pids } => assert_eq!(pids, vec![1, 3]),
        GpuQuery::All => panic!("the tree is known"),
    }
    assert!(matches!(gpu_query(None, &vec![1]), GpuQuery::All));
    match gpu_query(Some(1), &vec![]) {
        GpuQuery::Pids { pids } => assert!(pids.is_empty()),
        GpuQuery::All => panic!("nobody else is asked for"),
    }
    assert!(matches!(gpu_query(None, &vec![]), GpuQuery::All));
}

#[test]
fn sleep_fills_the_interval() {
    assert_eq!(sleep_until_next_interval(1_000, 300), Some(700));
    assert_eq!(sleep_until_next_interval(1_000, 1_000), Some(0));
    assert_eq!(sleep_until_next_interval(1_000, 1_001), None);
}

#[test]
fn uploads_have_an_interval() {
    assert_eq!(upload_interval(&None), 60);
    assert_eq!(upload_interval(&Some("15".to_string())), 15);
    assert_eq!(upload_interval(&Some(" 15".to_string())), 60);
    assert_eq!(upload_interval(&Some("soon".to_string())), 60);
    assert_eq!(CLOUD_WAIT_SECS, 3);
}

#[test]
fn connecting_takes_its_steps() {
    let client = |found: bool, cloud_known: bool, cloud_pending: bool| ConnectEvent::Client {
        found,
        cloud_known,
        cloud_pending,
    };
    let start = Connecting::FindClient;
    assert_eq!(start.setup_sentinel(client(false, false, true)), Connecting::Off);
    assert_eq!(start.setup_sentinel(client(true, true, true)), Connecting::StartRun);
    assert_eq!(start.setup_sentinel(client(true, false, false)), Connecting::StartRun);
    let waiting = start.setup_sentinel(client(true, false, true));
    assert_eq!(waiting, Connecting::AwaitCloud);
    let run = waiting.setup_sentinel(ConnectEvent::CloudAwaited);
    assert_eq!(run, Connecting::StartRun);
    assert_eq!(run.setup_sentinel(ConnectEvent::Run { started: false }), Connecting::Off);
    let uploads = run.setup_sentinel(ConnectEvent::Run { started: true });
    assert_eq!(uploads, Connecting::StartUploads);
    let on = uploads.setup_sentinel(ConnectEvent::Uploads { background: false });
    assert_eq!(on, Connecting::On { background: false });
    assert!(on.streams());
    assert!(!Connecting::Off.streams());
}

#[test]
fn cloud_info_is_kept_once_known() {
    assert_eq!(poll_cloud_info(Some(1), Some(2)), Some(1));
    assert_eq!(poll_cloud_info(None, Some(2)), Some(2));
    assert_eq!(poll_cloud_info::<i32>(None, None), None);
}

#[test]
fn runs_are_closed_with_the_samples_that_are_left() {
    let on = |background: bool| Connecting::On { background };
    assert_eq!(graceful_shutdown(Connecting::Off, 0, 5), Closing::Nothing);
    assert_eq!(graceful_shutdown(on(true), 0, 5), Closing::Inline);
    assert_eq!(graceful_shutdown(on(true), 2, 5), Closing::WithoutSamples);
    assert_eq!(graceful_shutdown(on(true), 0, 0), Closing::WithoutSamples);
    assert_eq!(graceful_shutdown(on(false), 0, 5), Closing::Inline);
}

fn tracker() -> ResourceTracker {
    let files =
        CgroupFiles { cpu_stat: None, cpu_max: None, cpuacct_usage: vec![], cfs: vec![] };
    ResourceTracker::new(config(OutputFormat::Csv, false, None), &files, Some(2))
}

fn reading(seconds: u64, user: u64, scan: Vec<ProcStat>) -> Reading {
    let total = CpuTime {
        user,
        nice: 0,
        system: 0,
        idle: 0,
        iowait: None,
        irq: None,
        softirq: None,
        steal: None,
    };
    Reading {
        procs_running: None,
        ticks_per_second: 100,
        total,
        per_core: vec![total],
        cpu_stat: None,
        cpuacct_usage: vec![],
        scan,
        instant_ns: seconds * 1_000_000_000,
        io: vec![],
        memory: vec![],
    }
}

#[test]
fn a_tracker_starts_at_the_beginning() {
    let mut t = tracker();
    assert_eq!(t.stage(), Stage::WarmUp);
    assert_eq!(t.streaming(), Connecting::FindClient);
    assert_eq!(t.interval_ns(), 2_000_000_000);
    assert!(t.samples().is_empty());
    t.advance(Event::Done);
    assert_eq!(t.stage(), Stage::FirstSleep);
}

#[test]
fn a_spawned_command_is_tracked_from_then_on() {
    let mut t = tracker();
    let scan = vec![
        ProcStat { pid: 9, ppid: 1, user: 5, system: 0 },
        ProcStat { pid: 50, ppid: 1, user: 10, system: 0 },
    ];
    assert_eq!(t.tracked_pids(&scan), vec![9]);
    t.spawn_tracked_command(50);
    assert_eq!(t.config().pid, Some(50));
    assert_eq!(t.tracked_pids(&scan), vec![50]);
    t.collect_cpu(Some(reading(0, 0, scan)));
    let later = vec![ProcStat { pid: 50, ppid: 1, user: 60, system: 0 }];
    let m = t.collect_cpu(Some(reading(1, 100, later)));
    assert_eq!(f64::from_bits(m.utime_secs.bits), 1.0);
    assert_eq!(m.process_utime_secs.map(|d| f64::from_bits(d.bits)), Some(0.5));
}

#[test]
fn a_failed_reading_measures_nothing_and_forgets_nothing() {
    let mut t = tracker();
    t.collect_cpu(Some(reading(0, 0, vec![])));
    let m = t.collect_cpu(None);
    assert_eq!(m.process_count, 0);
    assert!(m.per_core_pct.is_empty());
    assert!(m.process_cores_used.is_none());
    let m = t.collect_cpu(Some(reading(2, 300, vec![])));
    assert_eq!(f64::from_bits(m.utime_secs.bits), 3.0);
}

#[test]
fn kept_samples_go_out_when_nothing_was_uploaded() {
    let mut t = tracker();
    let s = sample(t.config());
    assert!(!t.buffer_sample(s.clone()));
    assert_eq!(t.shutdown(0), (Closing::Nothing, None));
    t.setup_sentinel(ConnectEvent::Client { found: true, cloud_known: true, cloud_pending: false });
    t.setup_sentinel(ConnectEvent::Run { started: true });
    t.setup_sentinel(ConnectEvent::Uploads { background: true });
    assert!(t.buffer_sample(s));
    assert_eq!(t.samples().len(), 2);
    assert_eq!(t.shutdown(0), (Closing::Inline, Some(samples_to_csv(t.samples(), 2))));
    assert_eq!(t.shutdown(1), (Closing::WithoutSamples, None));
    assert_eq!(t.start_sample(0), None);
    assert_eq!(t.start_sample(1_500_000_000), Some(1500));
}
