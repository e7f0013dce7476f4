//! The tracker's run, as decisions.
//!
//! The program alternates between work that only the operating system can do
//! (sleep, spawn, read, write) and deciding what comes next.  The deciding is
//! here: each function takes what the work has shown and says what to do.

use crate::cgroup::CgroupFiles;
use crate::collector::{CpuCollector, Reading};
use crate::config::{Config, OutputFormat};
use crate::csv::{csv_header, sample_to_csv_row, samples_to_csv};
use crate::json::json_line;
use crate::metrics::{
    CpuMetrics, DiskMetrics, GpuMetrics, MemoryMetrics, NetworkMetrics, Sample,
};
use crate::number::Double;
use crate::process::ProcStat;
use crate::text::{parse_unsigned, to_chars};
use vstd::prelude::*;

verus! {

// ---------------------------------------------------------------------------
// The course of a run
// ---------------------------------------------------------------------------

/// What is known of the tracked command.
#[derive(Debug, Clone, Copy, PartialEq, Eq, Structural)]
pub enum ChildStatus {
    /// There is none.
    Absent,
    /// It has not exited.
    Running,
    /// It has exited; without a code when a signal ended it.
    Exited { code: Option<i32> },
    /// Its status could not be read.
    Unknown,
}

/// What to do next.
#[derive(Debug, Clone, Copy, PartialEq, Eq, Structural)]
pub enum Stage {
    /// Collect once, so that the first sample has something to compare with.
    WarmUp,
    /// Sleep for one interval.
    FirstSleep,
    /// Start the tracked command, if there is one.
    Spawn,
    /// Connect to the service that samples are streamed to, if there is one.
    Connect,
    /// Write the header, if the format has one.
    Header,
    /// Lower the tracker's own priority, if asked to.
    Renice,
    /// See whether cloud discovery has finished.
    Poll,
    /// Take a sample.
    Collect,
    /// Write the sample.
    Emit,
    /// Keep the sample for the service.
    Buffer,
    /// See whether the tracked command has exited.
    CheckChild,
    /// See whether a signal asks to stop.
    CheckSignal,
    /// Sleep for what is left of the interval.
    Sleep,
    /// Stop, with this code.
    Exit { code: i32 },
}

/// What the work of a stage has shown.
#[derive(Debug, Clone, Copy, PartialEq, Eq, Structural)]
pub enum Event {
    /// It is done.
    Done,
    /// The tracked command could not be started.
    SpawnFailed,
    /// The tracked command was looked at.
    Child { status: ChildStatus },
    /// Whether a signal has asked to stop.
    Signal { received: bool },
}

/// The code to exit with because the tracked command has: its own, or 1 if a
/// signal ended it.
pub open spec fn exit_code_of(status: ChildStatus) -> Option<i32> {
    match status {
        ChildStatus::Exited { code: Some(code) } => Some(code),
        ChildStatus::Exited { code: None } => Some(1i32),
        _ => None,
    }
}

/// The stage after a stage.
pub open spec fn next_stage(stage: Stage, event: Event) -> Stage {
    match stage {
        Stage::WarmUp => Stage::FirstSleep,
        Stage::FirstSleep => Stage::Spawn,
        Stage::Spawn => match event {
            Event::SpawnFailed => Stage::Exit { code: 1 },
            _ => Stage::Connect,
        },
        Stage::Connect => Stage::Header,
        Stage::Header => Stage::Renice,
        Stage::Renice => Stage::Poll,
        Stage::Poll => Stage::Collect,
        Stage::Collect => Stage::Emit,
        Stage::Emit => Stage::Buffer,
        Stage::Buffer => Stage::CheckChild,
        Stage::CheckChild => match event {
            Event::Child { status } => match exit_code_of(status) {
                Some(code) => Stage::Exit { code },
                None => Stage::CheckSignal,
            },
            _ => Stage::CheckSignal,
        },
        Stage::CheckSignal => match event {
            Event::Signal { received: true } => Stage::Exit { code: 0 },
            _ => Stage::Sleep,
        },
        Stage::Sleep => Stage::Poll,
        Stage::Exit { code } => stage,
    }
}

/// The code to exit with because the tracked command has.
pub fn check_child_exit(status: ChildStatus) -> (r: Option<i32>)
    ensures
        r == exit_code_of(status),
        match status {
            ChildStatus::Exited { code: Some(code) } => r == Some(code),
            ChildStatus::Exited { code: None } => r == Some(1i32),
            ChildStatus::Absent | ChildStatus::Running | ChildStatus::Unknown => r is None,
        },
{
    match status {
        ChildStatus::Exited { code } => match code {
            Some(code) => Some(code),
            None => Some(1),
        },
        _ => None,
    }
}

impl Stage {
    /// The stage after this one.
    pub fn next(self, event: Event) -> (r: Stage)
        ensures
            r == next_stage(self, event),
    {
        match self {
            Stage::WarmUp => Stage::FirstSleep,
            Stage::FirstSleep => Stage::Spawn,
            Stage::Spawn => match event {
                Event::SpawnFailed => Stage::Exit { code: 1 },
                _ => Stage::Connect,
            },
            Stage::Connect => Stage::Header,
            Stage::Header => Stage::Renice,
            Stage::Renice => Stage::Poll,
            Stage::Poll => Stage::Collect,
            Stage::Collect => Stage::Emit,
            Stage::Emit => Stage::Buffer,
            Stage::Buffer => Stage::CheckChild,
            Stage::CheckChild => match event {
                Event::Child { status } => match check_child_exit(status) {
                    Some(code) => Stage::Exit { code },
                    None => Stage::CheckSignal,
                },
                _ => Stage::CheckSignal,
            },
            Stage::CheckSignal => match event {
                Event::Signal { received } => {
                    if received {
                        Stage::Exit { code: 0 }
                    } else {
                        Stage::Sleep
                    }
                },
                _ => Stage::Sleep,
            },
            Stage::Sleep => Stage::Poll,
            Stage::Exit { code } => Stage::Exit { code },
        }
    }
}

/// A run: the stages it goes through, and what the work of each has shown.
pub open spec fn is_run(stages: Seq<Stage>, events: Seq<Event>) -> bool {
    &&& stages.len() == events.len() + 1
    &&& stages[0] == Stage::WarmUp
    &&& forall|i: int|
        0 <= i < events.len() ==> #[trigger] stages[i + 1] == next_stage(stages[i], events[i])
}

/// The stages that come before the first sample, in order.
pub open spec fn setup_stages() -> Seq<Stage> {
    seq![
        Stage::WarmUp,
        Stage::FirstSleep,
        Stage::Spawn,
        Stage::Connect,
        Stage::Header,
        Stage::Renice,
    ]
}

/// A run whose command could be started goes through the whole setup before its
/// first sample: the collectors have been warmed up and an interval has passed,
/// the header stands before any row, and the priority is lowered only after the
/// command has been started, which therefore does not inherit it.
pub proof fn lemma_setup_comes_first(stages: Seq<Stage>, events: Seq<Event>)
    requires
        is_run(stages, events),
        events.len() > 2 ==> events[2] != Event::SpawnFailed,
    ensures
        forall|i: int| 0 <= i < 6 && i < stages.len() ==> #[trigger] stages[i] == setup_stages()[i],
        stages.len() > 6 ==> stages[6] == Stage::Poll,
{
    if stages.len() > 1 {
        lemma_stage_before(stages, events, 1);
    }
    if stages.len() > 2 {
        lemma_stage_before(stages, events, 2);
    }
    if stages.len() > 3 {
        lemma_stage_before(stages, events, 3);
    }
    if stages.len() > 4 {
        lemma_stage_before(stages, events, 4);
    }
    if stages.len() > 5 {
        lemma_stage_before(stages, events, 5);
    }
    if stages.len() > 6 {
        lemma_stage_before(stages, events, 6);
    }
}

/// A stage other than the first, and what came before it.
proof fn lemma_stage_before(stages: Seq<Stage>, events: Seq<Event>, i: int)
    requires
        is_run(stages, events),
        0 < i < stages.len(),
    ensures
        stages[i] == next_stage(stages[i - 1], events[i - 1]),
{
    assert(stages[(i - 1) + 1] == next_stage(stages[i - 1], events[i - 1]));
}

/// A run stops for three reasons only: its command could not be started, or,
/// after a sample has been taken, written and kept, the command has exited or a
/// signal has come.  The exit code says which: 1, the command's own, 0.
pub proof fn lemma_exit_after_last_sample(stages: Seq<Stage>, events: Seq<Event>, i: int, code: i32)
    requires
        is_run(stages, events),
        0 < i < stages.len(),
        stages[i] == (Stage::Exit { code }),
        stages[i - 1] !is Exit,
    ensures
        ({
            ||| i == 3 && stages[2] == Stage::Spawn && events[2] == Event::SpawnFailed && code == 1
            ||| {
                &&& i >= 5
                &&& stages[i - 4] == Stage::Collect
                &&& stages[i - 3] == Stage::Emit
                &&& stages[i - 2] == Stage::Buffer
                &&& stages[i - 1] == Stage::CheckChild
                &&& events[i - 1] matches Event::Child { status } && exit_code_of(status) == Some(
                    code,
                )
            }
            ||| {
                &&& i >= 6
                &&& stages[i - 5] == Stage::Collect
                &&& stages[i - 4] == Stage::Emit
                &&& stages[i - 3] == Stage::Buffer
                &&& stages[i - 2] == Stage::CheckChild
                &&& stages[i - 1] == Stage::CheckSignal
                &&& events[i - 1] == (Event::Signal { received: true })
                &&& code == 0
            }
        }),
{
    lemma_stage_before(stages, events, i);
    if i >= 2 {
        lemma_stage_before(stages, events, i - 1);
    }
    if i >= 3 {
        lemma_stage_before(stages, events, i - 2);
    }
    if i >= 4 {
        lemma_stage_before(stages, events, i - 3);
    }
    if i >= 5 {
        lemma_stage_before(stages, events, i - 4);
    }
    if i >= 6 {
        lemma_stage_before(stages, events, i - 5);
    }
}

/// A tracked command that has exited is noticed before a signal.
pub proof fn lemma_child_before_signal(stages: Seq<Stage>, events: Seq<Event>, i: int)
    requires
        is_run(stages, events),
        0 < i < stages.len(),
        stages[i] == Stage::CheckSignal,
    ensures
        stages[i - 1] == Stage::CheckChild,
        !(events[i - 1] matches Event::Child { status } && exit_code_of(status) is Some),
{
    lemma_stage_before(stages, events, i);
}

// ---------------------------------------------------------------------------
// Output
// ---------------------------------------------------------------------------

/// Where a line of metrics goes.
#[derive(Debug, Clone, Copy, PartialEq, Eq, Structural)]
pub enum Sink {
    /// Nowhere.
    Suppressed,
    /// To the output file, which is flushed after every line.
    File,
    /// To the standard error stream, so that standard output stays free for the
    /// tracked command.
    Stderr,
}

/// The file to write metrics to, if any: the one that was asked for, unless nothing
/// is to be written.
pub open spec fn output_of(config: Config) -> Option<String> {
    if config.quiet {
        None
    } else {
        config.output_file
    }
}

/// The file to write metrics to, if any.
pub fn create_sink(config: &Config) -> (r: Option<&String>)
    ensures
        output_of(*config) == (match r {
            Some(path) => Some(*path),
            None => None,
        }),
        match r {
            Some(path) => !config.quiet && config.output_file == Some(*path),
            None => config.quiet || config.output_file is None,
        },
{
    if config.quiet {
        return None;
    }
    config.output_file.as_ref()
}

/// Where lines go: nowhere when quiet, to the file if it could be opened, else to
/// the standard error stream.
pub open spec fn line_sink(quiet: bool, file_open: bool) -> Sink {
    if quiet {
        Sink::Suppressed
    } else if file_open {
        Sink::File
    } else {
        Sink::Stderr
    }
}

/// Where a line of metrics goes.
pub fn emit_metric_line(config: &Config, file_open: bool) -> (r: Sink)
    ensures
        r == line_sink(config.quiet, file_open),
{
    if config.quiet {
        Sink::Suppressed
    } else if file_open {
        Sink::File
    } else {
        Sink::Stderr
    }
}

/// The header line of a format, if it has one.
pub open spec fn header_of(format: OutputFormat) -> Option<Seq<char>> {
    match format {
        OutputFormat::Csv => Some(crate::csv::CSV_HEADER@),
        OutputFormat::Json => None,
    }
}

/// The header line, where the format has one.
pub fn emit_csv_header(config: &Config) -> (r: Option<&'static str>)
    ensures
        header_of(config.format) == (match r {
            Some(line) => Some(line@),
            None => None,
        }),
        match r {
            Some(line) => config.format == OutputFormat::Csv && line@
                == crate::csv::CSV_HEADER@,
            None => config.format != OutputFormat::Csv,
        },
{
    match config.format {
        OutputFormat::Csv => Some(csv_header()),
        OutputFormat::Json => None,
    }
}

/// A line of the row format for a sample.
pub open spec fn is_csv_line(sample: Sample, interval_secs: u64, line: Seq<char>) -> bool {
    line == crate::text::joined(crate::csv::row_cells(sample, interval_secs), ',')
}

/// The line for a sample.  `json` is the sample as a JSON value, where it could be
/// made one; without it there is no line in that format.
pub fn emit_sample(
    config: &Config,
    sample: &Sample,
    json: Option<serde_json::Value>,
    package: &str,
    version: &str,
) -> (r: Option<String>)
    ensures
        config.format == OutputFormat::Csv ==> (r matches Some(line) && is_csv_line(
            *sample,
            config.interval_secs,
            line@,
        )),
        config.format == OutputFormat::Csv ==> (r matches Some(line) && line@
            == crate::text::joined(crate::csv::row_cells(*sample, config.interval_secs), ',')),
        config.format == OutputFormat::Json ==> {
            &&& r is Some <==> (json matches Some(v) && crate::json::json_is_object(v))
            &&& r matches Some(line) ==> crate::json::is_json_line(
                json->0,
                package@,
                version@,
                line@,
            )
            &&& r matches Some(line) ==> exists|members: Seq<(Seq<char>, Seq<char>)>|
                #[trigger] crate::json::member_set(
                    crate::json::json_members(json->0),
                    members,
                    crate::json::version_key(package@),
                    crate::json::json_quoted(version@),
                ) && line@ == crate::json::object_text(members)
        },
{
    match config.format {
        OutputFormat::Json => match json {
            Some(v) => json_line(v, package, version),
            None => None,
        },
        OutputFormat::Csv => Some(sample_to_csv_row(sample, config.interval_secs)),
    }
}

/// Quiet means quiet, and only quiet does: a file that cannot be opened does not
/// silence the tracker.
pub proof fn lemma_quiet_is_quiet(quiet: bool, file_open: bool)
    ensures
        line_sink(quiet, file_open) == Sink::Suppressed <==> quiet,
        line_sink(quiet, file_open) == Sink::File ==> file_open,
{
}

// ---------------------------------------------------------------------------
// Taking a sample
// ---------------------------------------------------------------------------

/// The process number of a spawned command, as far as it can be one.
pub open spec fn pid_of_child(id: u32) -> i32 {
    if id <= i32::MAX {
        id as i32
    } else {
        i32::MAX
    }
}

/// The process number of a spawned command.
pub fn child_pid(id: u32) -> (r: i32)
    ensures
        r == pid_of_child(id),
{
    if id <= i32::MAX as u32 {
        id as i32
    } else {
        i32::MAX
    }
}

/// Remembers when the last sample was started.
pub struct SampleClock {
    prev_ns: Option<u64>,
}

impl View for SampleClock {
    type V = Option<u64>;

    closed spec fn view(&self) -> Option<u64> {
        self.prev_ns
    }
}

/// Whole milliseconds from one moment to another, none if it lies before.
pub open spec fn millis_between(prev_ns: u64, now_ns: u64) -> u64 {
    if now_ns >= prev_ns {
        ((now_ns - prev_ns) / 1_000_000) as u64
    } else {
        0
    }
}

/// A sample is started at `now_ns`: how long the one before lasted, if there was one,
/// and what the clock remembers from then on.
pub open spec fn started(
    before: Option<u64>,
    now_ns: u64,
    lasted: Option<u64>,
    after: Option<u64>,
) -> bool {
    &&& lasted == (match before {
        Some(prev) => Some(millis_between(prev, now_ns)),
        None => None,
    })
    &&& after == Some(now_ns)
}

impl SampleClock {
    /// A clock before the first sample.
    pub fn new() -> (r: Self)
        ensures
            r@ is None,
    {
        SampleClock { prev_ns: None }
    }

    /// Starts a sample: milliseconds since the one before, if there was one.
    pub fn start(&mut self, now_ns: u64) -> (r: Option<u64>)
        ensures
            started(old(self)@, now_ns, r, final(self)@),
            r == (match old(self)@ {
                Some(prev) => Some(millis_between(prev, now_ns)),
                None => None,
            }),
            final(self)@ == Some(now_ns),
    {
        let r: Option<u64> = match self.prev_ns {
            Some(prev) => Some(now_ns.saturating_sub(prev) / 1_000_000),
            None => None,
        };
        self.prev_ns = Some(now_ns);
        r
    }
}

/// Whose GPU usage to ask for.
#[derive(Debug, Clone)]
pub enum GpuQuery {
    /// That of these processes.
    Pids { pids: Vec<u32> },
    /// That of every process.
    All,
}

/// The process numbers that are not negative, in order.
pub open spec fn valid_pids(pids: Seq<i32>) -> Seq<u32>
    decreases pids.len(),
{
    if pids.len() == 0 {
        Seq::empty()
    } else {
        let front = valid_pids(pids.drop_last());
        if pids.last() >= 0 {
            front.push(pids.last() as u32)
        } else {
            front
        }
    }
}

/// `q` asks for the GPU usage of the tracked tree, or of everyone if no process is
/// tracked.
pub open spec fn asks_gpus(pid: Option<i32>, tree_pids: Seq<i32>, q: GpuQuery) -> bool {
    match q {
        GpuQuery::Pids { pids } => pid is Some && pids@ == valid_pids(tree_pids),
        GpuQuery::All => pid is None,
    }
}

/// Whose GPU usage to ask for: the tracked tree's if a process is tracked, even
/// where nothing is left of the tree, and everyone's only if none is.
pub fn gpu_query(pid: Option<i32>, tree_pids: &Vec<i32>) -> (r: GpuQuery)
    ensures
        asks_gpus(pid, tree_pids@, r),
        match r {
            GpuQuery::Pids { pids } => pid is Some && pids@ == valid_pids(tree_pids@),
            GpuQuery::All => pid is None,
        },
{
    if pid.is_none() {
        return GpuQuery::All;
    }
    let mut pids: Vec<u32> = Vec::new();
    let mut i: usize = 0;
    while i < tree_pids.len()
        invariant
            i <= tree_pids@.len(),
            pids@ == valid_pids(tree_pids@.take(i as int)),
        decreases tree_pids@.len() - i,
    {
        assert(tree_pids@.take(i + 1).drop_last() =~= tree_pids@.take(i as int));
        let p: i32 = tree_pids[i];
        if p >= 0 {
            pids.push(p as u32);
        }
        i += 1;
    }
    assert(tree_pids@.take(tree_pids@.len() as int) =~= tree_pids@);
    GpuQuery::Pids { pids }
}

/// GPU usage of the tracked processes.
#[derive(Debug, Clone, Copy, PartialEq, Eq, Structural)]
pub struct ProcessGpu {
    pub vram_mib: Option<Double>,
    pub usage: Option<Double>,
    pub utilized: Option<u32>,
}

/// A copy of an optional string.
fn copy_name(name: &Option<String>) -> (r: Option<String>)
    ensures
        match (name, r) {
            (Some(a), Some(b)) => a@ == b@,
            (None, None) => true,
            _ => false,
        },
{
    match name {
        Some(s) => Some(s.clone()),
        None => None,
    }
}

/// `r` is the sample that what was measured makes.
pub open spec fn assembled(
    config: Config,
    timestamp_secs: u64,
    actual_interval_ms: Option<u64>,
    cpu: CpuMetrics,
    memory: MemoryMetrics,
    network: Vec<NetworkMetrics>,
    disk: Vec<DiskMetrics>,
    gpu: Vec<GpuMetrics>,
    process_gpu: ProcessGpu,
    r: Sample,
) -> bool {
    &&& r.timestamp_secs == timestamp_secs
    &&& r.actual_interval_ms == actual_interval_ms
    &&& match (config.metadata.job_name, r.job_name) {
        (Some(a), Some(b)) => a@ == b@,
        (None, None) => true,
        _ => false,
    }
    &&& r.tracked_pid == config.pid
    &&& r.cpu == (CpuMetrics {
        process_gpu_vram_mib: process_gpu.vram_mib,
        process_gpu_usage: process_gpu.usage,
        process_gpu_utilized: process_gpu.utilized,
        ..cpu
    })
    &&& r.memory == memory
    &&& r.network == network
    &&& r.disk == disk
    &&& r.gpu == gpu
}

/// Puts a sample together.
pub fn collect_sample(
    config: &Config,
    timestamp_secs: u64,
    actual_interval_ms: Option<u64>,
    cpu: CpuMetrics,
    memory: MemoryMetrics,
    network: Vec<NetworkMetrics>,
    disk: Vec<DiskMetrics>,
    gpu: Vec<GpuMetrics>,
    process_gpu: ProcessGpu,
) -> (r: Sample)
    ensures
        assembled(
            *config,
            timestamp_secs,
            actual_interval_ms,
            cpu,
            memory,
            network,
            disk,
            gpu,
            process_gpu,
            r,
        ),
        r.timestamp_secs == timestamp_secs,
        r.actual_interval_ms == actual_interval_ms,
        match (config.metadata.job_name, r.job_name) {
            (Some(a), Some(b)) => a@ == b@,
            (None, None) => true,
            _ => false,
        },
        r.tracked_pid == config.pid,
        r.cpu == (CpuMetrics {
            process_gpu_vram_mib: process_gpu.vram_mib,
            process_gpu_usage: process_gpu.usage,
            process_gpu_utilized: process_gpu.utilized,
            ..cpu
        }),
        r.memory == memory,
        r.network == network,
        r.disk == disk,
        r.gpu == gpu,
{
    let mut cpu: CpuMetrics = cpu;
    cpu.process_gpu_vram_mib = process_gpu.vram_mib;
    cpu.process_gpu_usage = process_gpu.usage;
    cpu.process_gpu_utilized = process_gpu.utilized;
    Sample {
        timestamp_secs,
        actual_interval_ms,
        job_name: copy_name(&config.metadata.job_name),
        tracked_pid: config.pid,
        cpu,
        memory,
        network,
        disk,
        gpu,
    }
}

/// What is left of an interval, unless more than all of it has passed.
pub open spec fn rest_of_interval(interval_ns: u128, elapsed_ns: u128) -> Option<u128> {
    if elapsed_ns <= interval_ns {
        Some((interval_ns - elapsed_ns) as u128)
    } else {
        None
    }
}

/// How long to sleep after a sample that took `elapsed_ns` of an interval: for what
/// is left, or not at all when it took longer.
pub fn sleep_until_next_interval(interval_ns: u128, elapsed_ns: u128) -> (r: Option<u128>)
    ensures
        r == rest_of_interval(interval_ns, elapsed_ns),
{
    if elapsed_ns <= interval_ns {
        Some(interval_ns - elapsed_ns)
    } else {
        None
    }
}

/// Taking a sample and sleeping after it fill the interval exactly, unless taking
/// it took longer: samples do not drift.
pub proof fn lemma_samples_do_not_drift(interval_ns: u128, elapsed_ns: u128)
    ensures
        match rest_of_interval(interval_ns, elapsed_ns) {
            Some(rest) => elapsed_ns + rest == interval_ns,
            None => elapsed_ns > interval_ns,
        },
{
}

// ---------------------------------------------------------------------------
// Streaming
// ---------------------------------------------------------------------------

/// Seconds between uploads where nothing else is asked for.
pub const DEFAULT_UPLOAD_INTERVAL_SECS: u64 = 60;

/// The longest wait for cloud discovery before a run is registered, in seconds.
pub const CLOUD_WAIT_SECS: u64 = 3;

/// Seconds between uploads, where the environment holds that text.
pub open spec fn upload_secs(variable: Option<Seq<char>>) -> int {
    match variable {
        Some(text) => match crate::text::unsigned_number(text) {
            Some(n) => n,
            None => DEFAULT_UPLOAD_INTERVAL_SECS as int,
        },
        None => DEFAULT_UPLOAD_INTERVAL_SECS as int,
    }
}

/// Seconds between uploads: what the environment asks for, if that is a number.
pub fn upload_interval(variable: &Option<String>) -> (r: u64)
    ensures
        r == upload_secs(crate::cgroup::contents(*variable)),
        r == (match variable {
            Some(text) => match crate::text::unsigned_number(text@) {
                Some(n) => n,
                None => DEFAULT_UPLOAD_INTERVAL_SECS as int,
            },
            None => DEFAULT_UPLOAD_INTERVAL_SECS as int,
        }),
{
    match variable {
        Some(text) => match parse_unsigned(&to_chars(text.as_str())) {
            Some(n) => n,
            None => DEFAULT_UPLOAD_INTERVAL_SECS,
        },
        None => DEFAULT_UPLOAD_INTERVAL_SECS,
    }
}

/// How far connecting to the service has come.
#[derive(Debug, Clone, Copy, PartialEq, Eq, Structural)]
pub enum Connecting {
    /// Look for credentials.
    FindClient,
    /// Wait for cloud discovery, for no longer than `CLOUD_WAIT_SECS`.
    AwaitCloud,
    /// Register the run.
    StartRun,
    /// Start the thread that uploads samples.
    StartUploads,
    /// Samples are not streamed.
    Off,
    /// Samples are streamed, by a thread of their own or all at once in the end.
    On { background: bool },
}

/// What a step of connecting has shown.
#[derive(Debug, Clone, Copy, PartialEq, Eq, Structural)]
pub enum ConnectEvent {
    /// Whether there are credentials, whether the cloud is known already, and
    /// whether its discovery is still under way.
    Client { found: bool, cloud_known: bool, cloud_pending: bool },
    /// The wait for cloud discovery is over.
    CloudAwaited,
    /// Whether the run could be registered.
    Run { started: bool },
    /// Whether the thread could be started.
    Uploads { background: bool },
}

/// The step after a step.
pub open spec fn next_connecting(step: Connecting, event: ConnectEvent) -> Connecting {
    match (step, event) {
        (Connecting::FindClient, ConnectEvent::Client { found, cloud_known, cloud_pending }) =>
            if !found {
                Connecting::Off
            } else if !cloud_known && cloud_pending {
                Connecting::AwaitCloud
            } else {
                Connecting::StartRun
            },
        (Connecting::AwaitCloud, ConnectEvent::CloudAwaited) => Connecting::StartRun,
        (Connecting::StartRun, ConnectEvent::Run { started }) => if started {
            Connecting::StartUploads
        } else {
            Connecting::Off
        },
        (Connecting::StartUploads, ConnectEvent::Uploads { background }) => Connecting::On {
            background,
        },
        _ => step,
    }
}

impl Connecting {
    /// The step after this one.
    pub fn setup_sentinel(self, event: ConnectEvent) -> (r: Connecting)
        ensures
            r == next_connecting(self, event),
    {
        match (self, event) {
            (
                Connecting::FindClient,
                ConnectEvent::Client { found, cloud_known, cloud_pending },
            ) => {
                if !found {
                    Connecting::Off
                } else if !cloud_known && cloud_pending {
                    Connecting::AwaitCloud
                } else {
                    Connecting::StartRun
                }
            },
            (Connecting::AwaitCloud, ConnectEvent::CloudAwaited) => Connecting::StartRun,
            (Connecting::StartRun, ConnectEvent::Run { started }) => {
                if started {
                    Connecting::StartUploads
                } else {
                    Connecting::Off
                }
            },
            (Connecting::StartUploads, ConnectEvent::Uploads { background }) => Connecting::On {
                background,
            },
            (step, _) => step,
        }
    }

    /// Whether samples are kept for uploading.
    pub fn streams(self) -> (r: bool)
        ensures
            r == (self is On),
    {
        match self {
            Connecting::On { .. } => true,
            _ => false,
        }
    }
}

/// Without credentials nothing is waited for: the very first step ends it.
pub proof fn lemma_no_client_no_wait(cloud_known: bool, cloud_pending: bool)
    ensures
        next_connecting(
            Connecting::FindClient,
            ConnectEvent::Client { found: false, cloud_known, cloud_pending },
        ) == Connecting::Off,
{
}

/// Streaming is on only after a run has been registered, and off for good once it
/// is off.
pub proof fn lemma_streaming_needs_a_run(step: Connecting, event: ConnectEvent)
    ensures
        next_connecting(step, event) is On ==> step is On || step is StartUploads,
        next_connecting(step, event) is StartUploads && step !is StartUploads ==> event == (
        ConnectEvent::Run { started: true }),
        step is Off ==> next_connecting(step, event) is Off,
        step is On ==> next_connecting(step, event) == step,
{
}

/// What is known of the cloud after looking again: what was known before, else
/// what has arrived.
pub fn poll_cloud_info<T>(known: Option<T>, arrived: Option<T>) -> (r: Option<T>)
    ensures
        r == crate::config::first_of(known, arrived),
{
    match known {
        Some(info) => Some(info),
        None => arrived,
    }
}

/// How a run is closed.
#[derive(Debug, Clone, Copy, PartialEq, Eq, Structural)]
pub enum Closing {
    /// There is no run to close.
    Nothing,
    /// All samples are sent along with the closing request.
    Inline,
    /// The closing request carries no samples: it refers to those that were
    /// uploaded, if any.
    WithoutSamples,
}

/// How a run is closed: not at all when it was never registered; with all samples
/// in the request when none was uploaded and there are some.
pub open spec fn closing_of(streaming: Connecting, uploaded: nat, remaining: nat) -> Closing {
    match streaming {
        Connecting::On { background } => if (!background || uploaded == 0) && remaining > 0 {
            Closing::Inline
        } else {
            Closing::WithoutSamples
        },
        _ => Closing::Nothing,
    }
}

/// How a run is closed, after `uploaded` batches were uploaded and `remaining`
/// samples were collected.
pub fn graceful_shutdown(streaming: Connecting, uploaded: usize, remaining: usize) -> (r: Closing)
    ensures
        r == closing_of(streaming, uploaded as nat, remaining as nat),
{
    match streaming {
        Connecting::On { background } => {
            if (!background || uploaded == 0) && remaining > 0 {
                Closing::Inline
            } else {
                Closing::WithoutSamples
            }
        },
        _ => Closing::Nothing,
    }
}

/// No sample of a registered run is lost: it was uploaded, or it goes out with the
/// closing request.
pub proof fn lemma_samples_reach_the_service(background: bool, uploaded: nat, remaining: nat)
    requires
        remaining > 0,
    ensures
        closing_of(Connecting::On { background }, uploaded, remaining) is Inline || (background
            && uploaded > 0),
{
}

// ---------------------------------------------------------------------------
// The tracker
// ---------------------------------------------------------------------------

/// Everything the tracker knows that is not a handle of the operating system.
pub struct ResourceTracker {
    config: Config,
    cpu: CpuCollector,
    stage: Stage,
    streaming: Connecting,
    clock: SampleClock,
    unflushed: Vec<Sample>,
}

/// A tracker as a mathematical value.
pub struct TrackerView {
    pub config: Config,
    pub cpu: crate::collector::CollectorView,
    /// What to do next.
    pub stage: Stage,
    /// How far connecting to the service has come.
    pub streaming: Connecting,
    /// When the last sample was started.
    pub clock: Option<u64>,
    /// All samples so far.
    pub unflushed: Seq<Sample>,
}

impl TrackerView {
    /// The collector tracks the process that the configuration names, and the
    /// interval has a length.
    pub open spec fn wf(self) -> bool {
        &&& self.cpu.wf()
        &&& self.cpu.pid == self.config.pid
        &&& self.config.interval_secs >= 1
    }
}

impl View for ResourceTracker {
    type V = TrackerView;

    closed spec fn view(&self) -> TrackerView {
        TrackerView {
            config: self.config,
            cpu: self.cpu@,
            stage: self.stage,
            streaming: self.streaming,
            clock: self.clock@,
            unflushed: self.unflushed@,
        }
    }
}

/// The tracker after the work of its stage.
pub open spec fn advanced(before: TrackerView, event: Event, after: TrackerView) -> bool {
    after == (TrackerView { stage: next_stage(before.stage, event), ..before })
}

/// The tracker after a step of connecting.
pub open spec fn connected(before: TrackerView, event: ConnectEvent, after: TrackerView) -> bool {
    after == (TrackerView { streaming: next_connecting(before.streaming, event), ..before })
}

/// The tracker after the CPU was read, or could not be.
pub open spec fn cpu_read(
    before: TrackerView,
    reading: Option<Reading>,
    after: TrackerView,
) -> bool {
    after == (TrackerView {
        cpu: match reading {
            Some(x) => crate::collector::after(
                before.cpu,
                crate::collector::snapshot_of(before.cpu, x),
            ),
            None => before.cpu,
        },
        ..before
    })
}

/// The tracker after the tracked command has been started.
pub open spec fn spawned(before: TrackerView, id: u32, after: TrackerView) -> bool {
    after == (TrackerView {
        config: Config { pid: Some(pid_of_child(id)), ..before.config },
        cpu: crate::collector::CollectorView { pid: Some(pid_of_child(id)), ..before.cpu },
        ..before
    })
}

/// The tracker after a sample has been kept.
pub open spec fn buffered(before: TrackerView, sample: Sample, after: TrackerView) -> bool {
    after == (TrackerView { unflushed: before.unflushed.push(sample), ..before })
}

/// What goes out when a run is closed: how, and with which text.
pub open spec fn closes(
    t: TrackerView,
    uploaded: nat,
    closing: Closing,
    text: Option<Seq<char>>,
) -> bool {
    &&& closing == closing_of(t.streaming, uploaded, t.unflushed.len())
    &&& text == (if closing is Inline {
        Some(crate::csv::report(t.unflushed, t.config.interval_secs))
    } else {
        None
    })
}

/// The tracker at the beginning of its run.
pub open spec fn begins(
    t: TrackerView,
    config: Config,
    files: CgroupFiles,
    physical_cores: Option<usize>,
) -> bool {
    &&& t.config == config
    &&& crate::collector::is_fresh(t.cpu, config.pid, files, physical_cores)
    &&& t.stage == Stage::WarmUp
    &&& t.streaming == Connecting::FindClient
    &&& t.clock is None
    &&& t.unflushed == Seq::<Sample>::empty()
}

/// The CPU metrics of a reading, or of none.
pub open spec fn measured(
    c: crate::collector::CollectorView,
    reading: Option<Reading>,
    m: CpuMetrics,
) -> bool {
    match reading {
        Some(r) => crate::collector::collected(c, r, m),
        None => crate::metrics::nothing_measured(m),
    }
}

impl ResourceTracker {
    /// A tracker at the beginning of its run.
    pub fn new(config: Config, files: &CgroupFiles, physical_cores: Option<usize>) -> (r: Self)
        requires
            config.interval_secs >= 1,
        ensures
            begins(r@, config, *files, physical_cores),
            r@.wf(),
            r@.config == config,
            r@.cpu.prev is None,
            r@.cpu.source == files.source(),
            r@.cpu.limit == files.limit(),
            r@.cpu.effective_cores == crate::cgroup::cores_within(
                physical_cores.unwrap_or(1) as int,
                files.limit(),
            ),
            r@.cpu.carried == Set::<i32>::empty(),
            r@.stage == Stage::WarmUp,
            r@.streaming == Connecting::FindClient,
            r@.clock is None,
            r@.unflushed == Seq::<Sample>::empty(),
    {
        let cpu: CpuCollector = CpuCollector::new(config.pid, files, physical_cores);
        ResourceTracker {
            config,
            cpu,
            stage: Stage::WarmUp,
            streaming: Connecting::FindClient,
            clock: SampleClock::new(),
            unflushed: Vec::new(),
        }
    }

    /// The configuration in force.
    pub fn config(&self) -> (r: &Config)
        ensures
            *r == self@.config,
    {
        &self.config
    }

    /// The length of the interval, in nanoseconds.
    pub fn interval_ns(&self) -> (r: u128)
        ensures
            r == self@.config.interval_secs * 1_000_000_000,
    {
        self.config.interval_secs as u128 * 1_000_000_000
    }

    /// What to do next.
    pub fn stage(&self) -> (r: Stage)
        ensures
            r == self@.stage,
    {
        self.stage
    }

    /// How far connecting to the service has come.
    pub fn streaming(&self) -> (r: Connecting)
        ensures
            r == self@.streaming,
    {
        self.streaming
    }

    /// All samples so far.
    pub fn samples(&self) -> (r: &Vec<Sample>)
        ensures
            r@ == self@.unflushed,
    {
        &self.unflushed
    }

    /// Goes on to the next stage.
    pub fn advance(&mut self, event: Event)
        requires
            old(self)@.wf(),
        ensures
            advanced(old(self)@, event, final(self)@),
            final(self)@ == (TrackerView {
                stage: next_stage(old(self)@.stage, event),
                ..old(self)@
            }),
            final(self)@.wf(),
    {
        self.stage = self.stage.next(event);
    }

    /// The tracked command has been started: from now on its tree is tracked.
    pub fn spawn_tracked_command(&mut self, id: u32)
        requires
            old(self)@.wf(),
        ensures
            spawned(old(self)@, id, final(self)@),
            final(self)@ == (TrackerView {
                config: Config { pid: Some(pid_of_child(id)), ..old(self)@.config },
                cpu: crate::collector::CollectorView {
                    pid: Some(pid_of_child(id)),
                    ..old(self)@.cpu
                },
                ..old(self)@
            }),
            final(self)@.wf(),
    {
        let pid: Option<i32> = Some(child_pid(id));
        self.config.pid = pid;
        self.cpu.set_tracked_pid(pid);
    }

    /// Goes on connecting to the service.
    pub fn setup_sentinel(&mut self, event: ConnectEvent)
        requires
            old(self)@.wf(),
        ensures
            connected(old(self)@, event, final(self)@),
            final(self)@ == (TrackerView {
                streaming: next_connecting(old(self)@.streaming, event),
                ..old(self)@
            }),
            final(self)@.wf(),
    {
        self.streaming = self.streaming.setup_sentinel(event);
    }

    /// The processes whose disk traffic and memory the next reading has to hold.
    pub fn tracked_pids(&self, scan: &Vec<ProcStat>) -> (r: Vec<i32>)
        ensures
            crate::collector::lists_pids(
                r@,
                crate::collector::tracked_ticks(self@.cpu.pid, scan@),
            ),
    {
        self.cpu.tracked_pids(scan)
    }

    /// What the CPU did since it was last read; nothing is measured, and nothing
    /// forgotten, where it could not be read.
    pub fn collect_cpu(&mut self, reading: Option<Reading>) -> (r: CpuMetrics)
        requires
            old(self)@.wf(),
            reading matches Some(x) ==> x.wf(),
        ensures
            cpu_read(old(self)@, reading, final(self)@),
            measured(old(self)@.cpu, reading, r),
            final(self)@ == (TrackerView {
                cpu: match reading {
                    Some(x) => crate::collector::after(
                        old(self)@.cpu,
                        crate::collector::snapshot_of(old(self)@.cpu, x),
                    ),
                    None => old(self)@.cpu,
                },
                ..old(self)@
            }),
            final(self)@.wf(),
    {
        match reading {
            Some(x) => self.cpu.collect(x),
            None => CpuMetrics::default(),
        }
    }

    /// Starts a sample: milliseconds since the one before, if there was one.
    pub fn start_sample(&mut self, now_ns: u64) -> (r: Option<u64>)
        requires
            old(self)@.wf(),
        ensures
            started(old(self)@.clock, now_ns, r, final(self)@.clock),
            r == (match old(self)@.clock {
                Some(prev) => Some(millis_between(prev, now_ns)),
                None => None,
            }),
            final(self)@ == (TrackerView { clock: Some(now_ns), ..old(self)@ }),
            final(self)@.wf(),
    {
        self.clock.start(now_ns)
    }

    /// Keeps a sample; says whether the service wants it too.
    pub fn buffer_sample(&mut self, sample: Sample) -> (r: bool)
        requires
            old(self)@.wf(),
        ensures
            buffered(old(self)@, sample, final(self)@),
            r == (old(self)@.streaming is On),
            final(self)@ == (TrackerView {
                unflushed: old(self)@.unflushed.push(sample),
                ..old(self)@
            }),
            final(self)@.wf(),
    {
        self.unflushed.push(sample);
        self.streaming.streams()
    }

    /// How the run is closed after `uploaded` batches were uploaded, and the
    /// samples that go with the closing request.
    pub fn shutdown(&self, uploaded: usize) -> (r: (Closing, Option<String>))
        ensures
            closes(
                self@,
                uploaded as nat,
                r.0,
                match r.1 {
                    Some(csv) => Some(csv@),
                    None => None,
                },
            ),
            r.0 == closing_of(self@.streaming, uploaded as nat, self@.unflushed.len()),
            r.1 is Some <==> r.0 is Inline,
            r.1 matches Some(csv) ==> csv@ == crate::csv::report(
                self@.unflushed,
                self@.config.interval_secs,
            ),
    {
        let closing: Closing = graceful_shutdown(self.streaming, uploaded, self.unflushed.len());
        let csv: Option<String> = match closing {
            Closing::Inline => Some(samples_to_csv(&self.unflushed, self.config.interval_secs)),
            _ => None,
        };
        (closing, csv)
    }
}

} // verus!
