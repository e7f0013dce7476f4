//! What a run of the tracker does.

use crate::cgroup::CgroupFiles;
use crate::collector::{CollectorView, Reading};
use crate::config::{Config, OutputFormat};
use crate::metrics::{
    CpuMetrics, DiskMetrics, GpuMetrics, MemoryMetrics, NetworkMetrics, Sample,
};
use crate::tracker::{
    advanced, asks_gpus, assembled, begins, buffered, closes, closing_of, connected, cpu_read,
    exit_code_of, header_of, is_csv_line, is_run, line_sink, measured, millis_between,
    next_connecting, next_stage, output_of, pid_of_child, rest_of_interval, spawned, started,
    upload_secs, valid_pids, ChildStatus, Closing, ConnectEvent, Connecting, Event, GpuQuery,
    ProcessGpu, Sink, Stage, TrackerView,
};
use vstd::prelude::*;

verus! {

// ---------------------------------------------------------------------------
// Stages
// ---------------------------------------------------------------------------

/// When the tracked command has exited, whatever its code, the tracker stops with
/// that code, or with 1 if a signal ended the command; as long as it has not, or
/// nothing is known of it, the tracker goes on.
pub proof fn lemma_tracker_follows_its_command(code: i32)
    ensures
        next_stage(
            Stage::CheckChild,
            Event::Child { status: ChildStatus::Exited { code: Some(code) } },
        ) == (Stage::Exit { code }),
        next_stage(
            Stage::CheckChild,
            Event::Child { status: ChildStatus::Exited { code: None } },
        ) == (Stage::Exit { code: 1 }),
        next_stage(Stage::CheckChild, Event::Child { status: ChildStatus::Absent })
            == Stage::CheckSignal,
        next_stage(Stage::CheckChild, Event::Child { status: ChildStatus::Running })
            == Stage::CheckSignal,
        next_stage(Stage::CheckChild, Event::Child { status: ChildStatus::Unknown })
            == Stage::CheckSignal,
        exit_code_of(ChildStatus::Exited { code: Some(code) }) == Some(code),
        exit_code_of(ChildStatus::Exited { code: None }) == Some(1i32),
        exit_code_of(ChildStatus::Absent) is None,
        exit_code_of(ChildStatus::Running) is None,
        exit_code_of(ChildStatus::Unknown) is None,
{
}

/// A signal stops the tracker with code 0; without one it sleeps and starts over.
pub proof fn lemma_signal_stops_the_tracker()
    ensures
        next_stage(Stage::CheckSignal, Event::Signal { received: true }) == (Stage::Exit {
            code: 0,
        }),
        next_stage(Stage::CheckSignal, Event::Signal { received: false }) == Stage::Sleep,
        next_stage(Stage::CheckSignal, Event::Done) == Stage::Sleep,
        next_stage(Stage::Sleep, Event::Done) == Stage::Poll,
{
}

/// Once stopped, the tracker stays stopped, with the code it stopped with.
pub proof fn lemma_stopped_is_stopped(code: i32, event: Event)
    ensures
        next_stage(Stage::Exit { code }, event) == (Stage::Exit { code }),
{
}

/// Nothing but a command that cannot be started, a command that has exited or a
/// signal stops the tracker.
pub proof fn lemma_what_stops_the_tracker(stage: Stage, event: Event)
    requires
        stage !is Exit,
        next_stage(stage, event) is Exit,
    ensures
        ({
            ||| stage == Stage::Spawn && event == Event::SpawnFailed
            ||| stage == Stage::CheckChild && (event matches Event::Child { status } && status
                is Exited)
            ||| stage == Stage::CheckSignal && event == (Event::Signal { received: true })
        }),
{
}

/// A command that cannot be started stops the tracker with code 1 before any sample
/// is taken; one that can does not.
pub proof fn lemma_spawning(event: Event)
    ensures
        next_stage(Stage::Spawn, Event::SpawnFailed) == (Stage::Exit { code: 1 }),
        event != Event::SpawnFailed ==> next_stage(Stage::Spawn, event) == Stage::Connect,
{
}

/// Every round takes one sample, writes it and keeps it, in this order, then looks
/// at the command and for a signal, and sleeps: whatever the work shows, as long as
/// the command has not exited and no signal has come, seven steps lead from one
/// look at the cloud to the next.
pub proof fn lemma_rounds(stages: Seq<Stage>, events: Seq<Event>, i: int)
    requires
        is_run(stages, events),
        0 <= i,
        i + 7 < stages.len(),
        stages[i] == Stage::Poll,
        !(events[i + 4] matches Event::Child { status } && status is Exited),
        events[i + 5] != (Event::Signal { received: true }),
    ensures
        stages[i + 1] == Stage::Collect,
        stages[i + 2] == Stage::Emit,
        stages[i + 3] == Stage::Buffer,
        stages[i + 4] == Stage::CheckChild,
        stages[i + 5] == Stage::CheckSignal,
        stages[i + 6] == Stage::Sleep,
        stages[i + 7] == Stage::Poll,
{
    assert(stages[i + 1] == next_stage(stages[i], events[i]));
    assert(stages[(i + 1) + 1] == next_stage(stages[i + 1], events[i + 1]));
    assert(stages[(i + 2) + 1] == next_stage(stages[i + 2], events[i + 2]));
    assert(stages[(i + 3) + 1] == next_stage(stages[i + 3], events[i + 3]));
    assert(stages[(i + 4) + 1] == next_stage(stages[i + 4], events[i + 4]));
    assert(stages[(i + 5) + 1] == next_stage(stages[i + 5], events[i + 5]));
    assert(stages[(i + 6) + 1] == next_stage(stages[i + 6], events[i + 6]));
}

/// A tracker that goes on from stage to stage makes a run, and going on changes
/// nothing but the stage.
pub proof fn lemma_going_on_is_a_run(trackers: Seq<TrackerView>, events: Seq<Event>)
    requires
        trackers.len() == events.len() + 1,
        trackers[0].stage == Stage::WarmUp,
        forall|i: int|
            0 <= i < events.len() ==> #[trigger] advanced(trackers[i], events[i], trackers[i + 1]),
    ensures
        is_run(trackers.map_values(|t: TrackerView| t.stage), events),
        forall|i: int|
            0 <= i < events.len() ==> {
                &&& (#[trigger] trackers[i + 1]).config == trackers[i].config
                &&& trackers[i + 1].cpu == trackers[i].cpu
                &&& trackers[i + 1].streaming == trackers[i].streaming
                &&& trackers[i + 1].clock == trackers[i].clock
                &&& trackers[i + 1].unflushed == trackers[i].unflushed
            },
{
    let stages = trackers.map_values(|t: TrackerView| t.stage);
    assert forall|i: int| 0 <= i < events.len() implies #[trigger] stages[i + 1] == next_stage(
        stages[i],
        events[i],
    ) by {
        assert(advanced(trackers[i], events[i], trackers[i + 1]));
    }
    assert forall|i: int| 0 <= i < events.len() implies {
        &&& (#[trigger] trackers[i + 1]).config == trackers[i].config
        &&& trackers[i + 1].cpu == trackers[i].cpu
        &&& trackers[i + 1].streaming == trackers[i].streaming
        &&& trackers[i + 1].clock == trackers[i].clock
        &&& trackers[i + 1].unflushed == trackers[i].unflushed
    } by {
        assert(advanced(trackers[i], events[i], trackers[i + 1]));
    }
}

/// The setup goes step by step, whatever the work of each step shows.
pub proof fn lemma_setup_steps(event: Event)
    ensures
        next_stage(Stage::WarmUp, event) == Stage::FirstSleep,
        next_stage(Stage::FirstSleep, event) == Stage::Spawn,
        next_stage(Stage::Connect, event) == Stage::Header,
        next_stage(Stage::Header, event) == Stage::Renice,
        next_stage(Stage::Renice, event) == Stage::Poll,
{
}

// ---------------------------------------------------------------------------
// Lines
// ---------------------------------------------------------------------------

/// Where lines go, case by case.
pub proof fn lemma_sinks(file_open: bool)
    ensures
        line_sink(true, file_open) == Sink::Suppressed,
        line_sink(false, true) == Sink::File,
        line_sink(false, false) == Sink::Stderr,
{
}

/// Metrics go to the file that was asked for, unless the tracker is to be quiet.
pub proof fn lemma_output_file(config: Config)
    ensures
        config.quiet ==> output_of(config) is None,
        !config.quiet ==> output_of(config) == config.output_file,
{
}

/// The row format begins with the names of its columns, the other format has no
/// header.
pub proof fn lemma_header_line()
    ensures
        header_of(OutputFormat::Csv) is Some,
        header_of(OutputFormat::Csv) matches Some(line) ==> crate::text::pieces(line, ',')
            == crate::csv::column_names(),
        header_of(OutputFormat::Json) is None,
{
    crate::csv::lemma_header_columns();
}

/// A line of the row format has as many columns as the header and begins with the
/// time of the sample.
pub proof fn lemma_row_line(sample: Sample, interval_secs: u64, line: Seq<char>)
    requires
        is_csv_line(sample, interval_secs, line),
    ensures
        crate::text::pieces(line, ',').len() == crate::text::pieces(
            crate::csv::CSV_HEADER@,
            ',',
        ).len(),
        crate::text::pieces(line, ',')[0] == crate::text::decimal(sample.timestamp_secs as nat),
        forall|k: int|
            0 <= k < 33 ==> #[trigger] crate::text::pieces(line, ',')[k] == crate::laws::csv::shown(
                sample,
                interval_secs,
                k,
            ),
{
    crate::csv::lemma_row_columns(sample, interval_secs);
    crate::laws::csv::lemma_machine_columns(sample, interval_secs);
}

// ---------------------------------------------------------------------------
// Samples
// ---------------------------------------------------------------------------

/// A sample holds what was measured, each figure in its own place: the CPU figures
/// with the GPU figures of the tracked processes added, and everything else as it
/// came; it is labelled with the job and the process that the configuration names.
pub proof fn lemma_sample_holds_what_was_measured(
    config: Config,
    timestamp_secs: u64,
    actual_interval_ms: Option<u64>,
    cpu: CpuMetrics,
    memory: MemoryMetrics,
    network: Vec<NetworkMetrics>,
    disk: Vec<DiskMetrics>,
    gpu: Vec<GpuMetrics>,
    process_gpu: ProcessGpu,
    s: Sample,
)
    requires
        assembled(
            config,
            timestamp_secs,
            actual_interval_ms,
            cpu,
            memory,
            network,
            disk,
            gpu,
            process_gpu,
            s,
        ),
    ensures
        s.timestamp_secs == timestamp_secs,
        s.actual_interval_ms == actual_interval_ms,
        s.job_name is Some <==> config.metadata.job_name is Some,
        s.job_name is Some ==> s.job_name->0@ == config.metadata.job_name->0@,
        s.tracked_pid == config.pid,
        s.memory == memory,
        s.network == network,
        s.disk == disk,
        s.gpu == gpu,
        s.cpu.process_gpu_vram_mib == process_gpu.vram_mib,
        s.cpu.process_gpu_usage == process_gpu.usage,
        s.cpu.process_gpu_utilized == process_gpu.utilized,
        s.cpu.utilization_pct == cpu.utilization_pct,
        s.cpu.cgroup_utilization_pct == cpu.cgroup_utilization_pct,
        s.cpu.cgroup_usage_secs == cpu.cgroup_usage_secs,
        s.cpu.per_core_pct == cpu.per_core_pct,
        s.cpu.utime_secs == cpu.utime_secs,
        s.cpu.stime_secs == cpu.stime_secs,
        s.cpu.steal_time_secs == cpu.steal_time_secs,
        s.cpu.steal_time_pct == cpu.steal_time_pct,
        s.cpu.per_core_steal_time_pct == cpu.per_core_steal_time_pct,
        s.cpu.process_count == cpu.process_count,
        s.cpu.process_cores_used == cpu.process_cores_used,
        s.cpu.process_child_count == cpu.process_child_count,
        s.cpu.process_utime_secs == cpu.process_utime_secs,
        s.cpu.process_stime_secs == cpu.process_stime_secs,
        s.cpu.process_pss_mib == cpu.process_pss_mib,
        s.cpu.process_rss_mib == cpu.process_rss_mib,
        s.cpu.process_disk_read_bytes == cpu.process_disk_read_bytes,
        s.cpu.process_disk_write_bytes == cpu.process_disk_write_bytes,
        s.cpu.process_tree_pids == cpu.process_tree_pids,
{
}

/// Everyone's GPU usage is asked for only without a tracked process; with one, it is
/// that of the processes of its tree, in order, and of no other.
pub proof fn lemma_whose_gpus(pid: Option<i32>, tree: Seq<i32>, q: GpuQuery)
    requires
        asks_gpus(pid, tree, q),
    ensures
        pid is None ==> q == GpuQuery::All,
        pid is Some ==> (q matches GpuQuery::Pids { pids } && pids@ == tree.filter(
            |p: i32| p >= 0,
        ).map_values(|p: i32| p as u32)),
{
    lemma_gpu_processes(tree);
}

/// Starting the command makes its process the root of the tracked tree, for the
/// configuration and for the collector, and changes nothing else.
pub proof fn lemma_command_is_tracked(before: TrackerView, id: u32, after: TrackerView)
    requires
        spawned(before, id, after),
    ensures
        after.config.pid == after.cpu.pid,
        after.config.pid is Some,
        id <= i32::MAX ==> after.config.pid->0 as int == id as int,
        after.config.interval_secs == before.config.interval_secs,
        after.config.format == before.config.format,
        after.config.quiet == before.config.quiet,
        after.config.output_file == before.config.output_file,
        after.config.renice == before.config.renice,
        after.config.metadata == before.config.metadata,
        after.config.command == before.config.command,
        after.cpu.prev == before.cpu.prev,
        after.cpu.source == before.cpu.source,
        after.cpu.limit == before.cpu.limit,
        after.cpu.effective_cores == before.cpu.effective_cores,
        after.cpu.carried == before.cpu.carried,
        after.stage == before.stage,
        after.streaming == before.streaming,
        after.clock == before.clock,
        after.unflushed == before.unflushed,
{
}

/// A tracker begins with the warm-up, has nothing measured, kept or connected, and
/// tracks the process that the configuration names.
pub proof fn lemma_beginning(
    t: TrackerView,
    config: Config,
    files: CgroupFiles,
    physical_cores: Option<usize>,
)
    requires
        begins(t, config, files, physical_cores),
    ensures
        t.config == config,
        t.cpu.pid == config.pid,
        t.cpu.prev is None,
        t.stage == Stage::WarmUp,
        t.streaming == Connecting::FindClient,
        t.clock is None,
        t.unflushed.len() == 0,
{
}

/// The samples of a run are kept in order, none left out, and go out in that order
/// with the closing request where nothing was uploaded: after keeping `samples` one
/// by one, line `i + 1` of the text is the row of sample `i`.
pub proof fn lemma_all_samples_go_out(
    trackers: Seq<TrackerView>,
    samples: Seq<Sample>,
    closing: Closing,
    text: Option<Seq<char>>,
)
    requires
        trackers.len() == samples.len() + 1,
        trackers[0].unflushed.len() == 0,
        samples.len() > 0,
        forall|i: int|
            0 <= i < samples.len() ==> #[trigger] buffered(
                trackers[i],
                samples[i],
                trackers[i + 1],
            ),
        closes(trackers.last(), 0, closing, text),
        trackers.last().streaming is On,
    ensures
        closing == Closing::Inline,
        text is Some,
        ({
            let lines = crate::text::pieces(text->0, '\n');
            &&& lines.len() == samples.len() + 2
            &&& lines[0] == crate::csv::CSV_HEADER@
            &&& forall|i: int|
                0 <= i < samples.len() ==> #[trigger] lines[i + 1] == crate::text::joined(
                    crate::csv::row_cells(samples[i], trackers[0].config.interval_secs),
                    ',',
                )
        }),
{
    lemma_kept_so_far(trackers, samples, samples.len() as int);
    assert(samples.take(samples.len() as int) =~= samples);
    crate::laws::csv::lemma_report_rows(samples, trackers[0].config.interval_secs);
}

proof fn lemma_kept_so_far(trackers: Seq<TrackerView>, samples: Seq<Sample>, n: int)
    requires
        trackers.len() == samples.len() + 1,
        trackers[0].unflushed.len() == 0,
        0 <= n <= samples.len(),
        forall|i: int|
            0 <= i < samples.len() ==> #[trigger] buffered(
                trackers[i],
                samples[i],
                trackers[i + 1],
            ),
    ensures
        trackers[n].unflushed == samples.take(n),
        trackers[n].config == trackers[0].config,
        trackers[n].streaming == trackers[0].streaming,
    decreases n,
{
    if n > 0 {
        lemma_kept_so_far(trackers, samples, n - 1);
        assert(buffered(trackers[n - 1], samples[n - 1], trackers[n - 1 + 1]));
        assert(samples.take(n) =~= samples.take(n - 1).push(samples[n - 1]));
    } else {
        assert(trackers[0].unflushed =~= samples.take(0));
    }
}

/// A run that was uploaded, or was never registered, is closed without a text.
pub proof fn lemma_nothing_goes_out_twice(
    t: TrackerView,
    uploaded: nat,
    closing: Closing,
    text: Option<Seq<char>>,
)
    requires
        closes(t, uploaded, closing, text),
    ensures
        t.streaming !is On ==> closing == Closing::Nothing && text is None,
        uploaded > 0 && t.streaming == (Connecting::On { background: true }) ==> closing
            == Closing::WithoutSamples && text is None,
        t.unflushed.len() == 0 ==> text is None,
{
}

/// A process number that can be one is kept as it is, and one that cannot is no
/// number of another process that could be spawned.
pub proof fn lemma_child_keeps_its_number(id: u32)
    ensures
        id <= i32::MAX ==> pid_of_child(id) as int == id as int,
        id > i32::MAX ==> pid_of_child(id) == i32::MAX,
{
}

/// Of two samples in a row, the second knows how long it is since the first was
/// started, in whole milliseconds; the first one of all knows nothing.
pub proof fn lemma_samples_know_their_distance(
    before: Option<u64>,
    first_ns: u64,
    first: Option<u64>,
    between: Option<u64>,
    second_ns: u64,
    second: Option<u64>,
    after: Option<u64>,
)
    requires
        started(before, first_ns, first, between),
        started(between, second_ns, second, after),
        first_ns <= second_ns,
    ensures
        before is None ==> first is None,
        before is Some ==> first is Some,
        second matches Some(ms) && ms * 1_000_000 <= second_ns - first_ns < (ms + 1) * 1_000_000,
{
}

/// Reading the CPU changes what the collector knows, and nothing else; a reading that
/// could not be taken changes nothing at all.
pub proof fn lemma_reading_the_cpu(
    before: TrackerView,
    reading: Option<Reading>,
    after: TrackerView,
)
    requires
        cpu_read(before, reading, after),
    ensures
        reading is None ==> after == before,
        reading matches Some(r) ==> after.cpu == crate::collector::after(
            before.cpu,
            crate::collector::snapshot_of(before.cpu, r),
        ),
        after.config == before.config,
        after.stage == before.stage,
        after.streaming == before.streaming,
        after.clock == before.clock,
        after.unflushed == before.unflushed,
{
}

/// The measured interval is in whole milliseconds: no more than has passed, and less
/// than one short of it.
pub proof fn lemma_interval_in_milliseconds(prev_ns: u64, now_ns: u64)
    ensures
        now_ns >= prev_ns ==> {
            let ms = millis_between(prev_ns, now_ns) as int;
            ms * 1_000_000 <= now_ns - prev_ns < (ms + 1) * 1_000_000
        },
        now_ns < prev_ns ==> millis_between(prev_ns, now_ns) == 0,
{
}

/// The processes whose GPU usage is asked for are those of the tree, in order,
/// without negative numbers.
pub proof fn lemma_gpu_processes(pids: Seq<i32>)
    ensures
        valid_pids(pids) == pids.filter(|p: i32| p >= 0).map_values(|p: i32| p as u32),
    decreases pids.len(),
{
    let keep = |p: i32| p >= 0;
    let cast = |p: i32| p as u32;
    reveal(Seq::filter);
    if pids.len() > 0 {
        let front = pids.drop_last();
        lemma_gpu_processes(front);
        if pids.last() >= 0 {
            assert(pids.filter(keep) =~= front.filter(keep).push(pids.last()));
            assert(front.filter(keep).push(pids.last()).map_values(cast) =~= front.filter(
                keep,
            ).map_values(cast).push(pids.last() as u32));
        }
    }
    assert(valid_pids(pids) =~= pids.filter(keep).map_values(cast));
}

/// A reading that could not be taken measures nothing: every figure is zero or
/// absent.
pub proof fn lemma_no_reading_no_figures(c: CollectorView, m: CpuMetrics)
    requires
        measured(c, None, m),
    ensures
        m.utilization_pct@.is_nought(),
        m.utime_secs@.is_nought(),
        m.stime_secs@.is_nought(),
        m.steal_time_secs@.is_nought(),
        m.steal_time_pct@.is_nought(),
        m.per_core_pct@.len() == 0,
        m.per_core_steal_time_pct@.len() == 0,
        m.process_count == 0,
        m.cgroup_utilization_pct is None,
        m.cgroup_usage_secs is None,
        m.process_cores_used is None,
        m.process_child_count is None,
        m.process_utime_secs is None,
        m.process_stime_secs is None,
        m.process_pss_mib is None,
        m.process_rss_mib is None,
        m.process_disk_read_bytes is None,
        m.process_disk_write_bytes is None,
        m.process_gpu_usage is None,
        m.process_gpu_vram_mib is None,
        m.process_gpu_utilized is None,
        m.process_tree_pids@.len() == 0,
{
}

/// A reading that could be taken is measured by the collector.
pub proof fn lemma_a_reading_is_collected(c: CollectorView, r: Reading, m: CpuMetrics)
    ensures
        measured(c, Some(r), m) <==> crate::collector::collected(c, r, m),
{
}

/// Sleeping lasts until the interval is over, and never longer: the rest and what
/// has passed make up the interval, and there is a rest exactly when the interval
/// is not over.
pub proof fn lemma_sleep_fills_the_interval(interval_ns: u128, elapsed_ns: u128)
    ensures
        rest_of_interval(interval_ns, elapsed_ns) is Some <==> elapsed_ns <= interval_ns,
        rest_of_interval(interval_ns, elapsed_ns) matches Some(rest) ==> rest + elapsed_ns
            == interval_ns,
{
}

// ---------------------------------------------------------------------------
// Streaming
// ---------------------------------------------------------------------------

/// Connecting, case by case: with credentials the run is registered, after waiting
/// for cloud discovery only where it is under way and nothing is known yet; a run
/// that cannot be registered ends it; a run that is registered is streamed, by a
/// thread of its own where that could be started.
pub proof fn lemma_connecting_steps(found: bool, known: bool, pending: bool, background: bool)
    ensures
        next_connecting(
            Connecting::FindClient,
            ConnectEvent::Client { found: false, cloud_known: known, cloud_pending: pending },
        ) == Connecting::Off,
        next_connecting(
            Connecting::FindClient,
            ConnectEvent::Client { found: true, cloud_known: false, cloud_pending: true },
        ) == Connecting::AwaitCloud,
        next_connecting(
            Connecting::FindClient,
            ConnectEvent::Client { found: true, cloud_known: true, cloud_pending: pending },
        ) == Connecting::StartRun,
        next_connecting(
            Connecting::FindClient,
            ConnectEvent::Client { found: true, cloud_known: known, cloud_pending: false },
        ) == Connecting::StartRun,
        next_connecting(Connecting::AwaitCloud, ConnectEvent::CloudAwaited)
            == Connecting::StartRun,
        next_connecting(Connecting::StartRun, ConnectEvent::Run { started: true })
            == Connecting::StartUploads,
        next_connecting(Connecting::StartRun, ConnectEvent::Run { started: false })
            == Connecting::Off,
        next_connecting(Connecting::StartUploads, ConnectEvent::Uploads { background }) == (
        Connecting::On { background }),
{
}

/// Uploads are as many seconds apart as the environment says, a minute where it says
/// nothing or no number.
pub proof fn lemma_seconds_between_uploads(n: u64, text: Seq<char>)
    ensures
        upload_secs(None) == 60,
        upload_secs(Some(crate::text::decimal(n as nat))) == n,
        text.len() == 0 || !crate::text::all_digits(text) && text[0] != '+' ==> upload_secs(
            Some(text),
        ) == 60,
{
    crate::text::lemma_unsigned_round_trip(n);
}

/// A step of connecting changes nothing but how far it has come.
pub proof fn lemma_connecting_changes_nothing_else(
    before: TrackerView,
    event: ConnectEvent,
    after: TrackerView,
)
    requires
        connected(before, event, after),
    ensures
        after.streaming == next_connecting(before.streaming, event),
        after.config == before.config,
        after.cpu == before.cpu,
        after.stage == before.stage,
        after.clock == before.clock,
        after.unflushed == before.unflushed,
{
}

/// What a step does not wait for does not move it.
pub proof fn lemma_connecting_waits(step: Connecting, event: ConnectEvent)
    requires
        next_connecting(step, event) != step,
    ensures
        step is FindClient && event is Client || step is AwaitCloud && event is CloudAwaited || step
            is StartRun && event is Run || step is StartUploads && event is Uploads,
{
}

/// Closing, case by case.  A run that was never registered is not closed.  Where
/// batches were uploaded the samples do not go out a second time; where none was,
/// or there was no thread to upload any, all samples go out with the closing
/// request, if there are any.
pub proof fn lemma_closing_cases(uploaded: nat, remaining: nat, background: bool)
    ensures
        closing_of(Connecting::FindClient, uploaded, remaining) == Closing::Nothing,
        closing_of(Connecting::AwaitCloud, uploaded, remaining) == Closing::Nothing,
        closing_of(Connecting::StartRun, uploaded, remaining) == Closing::Nothing,
        closing_of(Connecting::StartUploads, uploaded, remaining) == Closing::Nothing,
        closing_of(Connecting::Off, uploaded, remaining) == Closing::Nothing,
        uploaded > 0 ==> closing_of(Connecting::On { background: true }, uploaded, remaining)
            == Closing::WithoutSamples,
        remaining > 0 ==> closing_of(Connecting::On { background: true }, 0, remaining)
            == Closing::Inline,
        remaining > 0 ==> closing_of(Connecting::On { background: false }, uploaded, remaining)
            == Closing::Inline,
        closing_of(Connecting::On { background }, uploaded, 0) == Closing::WithoutSamples,
{
}

} // verus!
