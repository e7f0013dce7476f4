//! One line of comma-separated values per sample.

use crate::metrics::{CpuMetrics, DiskMetrics, GpuMetrics, NetworkMetrics, Sample};
use crate::number::{Double, Number};
use crate::text::{decimal_text, join_strings, signed_decimal_text};
use vstd::prelude::*;

verus! {

/// The names of the columns.
pub const CSV_HEADER: &'static str = "timestamp,\
     system_processes,system_utime,system_stime,system_cpu_usage,\
     system_memory_free_mib,system_memory_used_mib,system_memory_buffers_mib,\
     system_memory_cached_mib,system_memory_active_mib,system_memory_inactive_mib,\
     system_disk_read_bytes,system_disk_write_bytes,\
     system_disk_space_total_gb,system_disk_space_used_gb,system_disk_space_free_gb,\
     system_net_recv_bytes,system_net_sent_bytes,\
     system_gpu_usage,system_gpu_vram_mib,system_gpu_utilized,\
     process_pid,process_children,process_utime,process_stime,process_cpu_usage,\
     process_memory_mib,process_disk_read_bytes,process_disk_write_bytes,\
     process_gpu_usage,process_gpu_vram_mib,process_gpu_utilized,\
     system_steal_time";

/// The header: `system_` columns for the whole machine, then `process_` columns
/// for the tracked process tree.
///
/// CPU usage is in fractional cores, memory in MiB, traffic in bytes per interval,
/// disk space in GB summed over all mounts.
pub fn csv_header() -> (r: &'static str)
    ensures
        r@ == CSV_HEADER@,
{
    CSV_HEADER
}

// ---------------------------------------------------------------------------
// Columns that are computed
// ---------------------------------------------------------------------------

/// The length of the interval in seconds: as it was measured, or as it was asked
/// for where there is no sample before.
pub open spec fn interval_length(actual_ms: Option<u64>, interval_secs: u64) -> Number {
    match actual_ms {
        Some(ms) => Number::over(Number::whole(ms as int), Number::whole(1000)),
        None => Number::whole(
            if interval_secs <= u32::MAX {
                interval_secs as int
            } else {
                u32::MAX as int
            },
        ),
    }
}

/// The whole bytes that a rate makes of an interval.
pub open spec fn bytes_in(rate: Number, secs: Number) -> int {
    Number::times(rate, secs).whole_part()
}

pub open spec fn disk_read_bytes(disks: Seq<DiskMetrics>, secs: Number) -> int
    decreases disks.len(),
{
    if disks.len() == 0 {
        0
    } else {
        disk_read_bytes(disks.drop_last(), secs) + bytes_in(
            disks.last().read_bytes_per_sec@,
            secs,
        )
    }
}

pub open spec fn disk_write_bytes(disks: Seq<DiskMetrics>, secs: Number) -> int
    decreases disks.len(),
{
    if disks.len() == 0 {
        0
    } else {
        disk_write_bytes(disks.drop_last(), secs) + bytes_in(
            disks.last().write_bytes_per_sec@,
            secs,
        )
    }
}

pub open spec fn net_recv_bytes(nets: Seq<NetworkMetrics>, secs: Number) -> int
    decreases nets.len(),
{
    if nets.len() == 0 {
        0
    } else {
        net_recv_bytes(nets.drop_last(), secs) + bytes_in(nets.last().rx_bytes_per_sec@, secs)
    }
}

pub open spec fn net_sent_bytes(nets: Seq<NetworkMetrics>, secs: Number) -> int
    decreases nets.len(),
{
    if nets.len() == 0 {
        0
    } else {
        net_sent_bytes(nets.drop_last(), secs) + bytes_in(nets.last().tx_bytes_per_sec@, secs)
    }
}

/// What a sum of doubles starts from: the zero that changes nothing it is added
/// to.
pub open spec fn sum_start() -> Number {
    Number::Finite { negative: true, mantissa: 0, power: 0 }
}

/// Bytes in decimal gigabytes.
pub open spec fn gigabytes(bytes: u64) -> Number {
    Number::over(Number::whole(bytes as int), Number::whole(1_000_000_000))
}

/// `start` and the sizes of the mounts, one after the other.
pub open spec fn add_mounts(
    start: Number,
    mounts: Seq<crate::metrics::DiskMountMetrics>,
    free: bool,
) -> Number
    decreases mounts.len(),
{
    if mounts.len() == 0 {
        start
    } else {
        let m = mounts.last();
        Number::plus(
            add_mounts(start, mounts.drop_last(), free),
            gigabytes(
                if free {
                    m.available_bytes
                } else {
                    m.total_bytes
                },
            ),
        )
    }
}

/// The size of all mounts of all disks, or what is free of it.
pub open spec fn disk_space(disks: Seq<DiskMetrics>, free: bool) -> Number
    decreases disks.len(),
{
    if disks.len() == 0 {
        sum_start()
    } else {
        add_mounts(disk_space(disks.drop_last(), free), disks.last().mounts@, free)
    }
}

/// The utilization of all GPUs, as a number of GPUs.
pub open spec fn gpu_usage(gpus: Seq<GpuMetrics>) -> Number
    decreases gpus.len(),
{
    if gpus.len() == 0 {
        sum_start()
    } else {
        Number::plus(
            gpu_usage(gpus.drop_last()),
            Number::over(gpus.last().utilization_pct@, Number::whole(100)),
        )
    }
}

/// The memory in use on all GPUs, in MiB.
pub open spec fn gpu_vram(gpus: Seq<GpuMetrics>) -> Number
    decreases gpus.len(),
{
    if gpus.len() == 0 {
        sum_start()
    } else {
        Number::plus(
            gpu_vram(gpus.drop_last()),
            Number::over(
                Number::whole(gpus.last().vram_used_bytes as int),
                Number::whole(1_048_576),
            ),
        )
    }
}

/// How many GPUs are doing something.
pub open spec fn gpus_in_use(gpus: Seq<GpuMetrics>) -> int
    decreases gpus.len(),
{
    if gpus.len() == 0 {
        0
    } else {
        let own: int = if gpus.last().utilization_pct@.above_zero() {
            1
        } else {
            0
        };
        gpus_in_use(gpus.drop_last()) + own
    }
}

/// A count as a cell takes it; one that does not fit reads as zero.
pub open spec fn known_count(n: int) -> u32 {
    if n <= u32::MAX {
        n as u32
    } else {
        0
    }
}

// ---------------------------------------------------------------------------
// The row
// ---------------------------------------------------------------------------

/// A whole number, or nothing.
pub open spec fn whole_cell(n: Option<int>) -> Seq<char> {
    match n {
        Some(n) => crate::text::signed_decimal(n),
        None => Seq::empty(),
    }
}

/// A number with four decimals, or nothing.
pub open spec fn fraction_cell(d: Option<Double>) -> Seq<char> {
    match d {
        Some(d) => d@.fixed_text(4),
        None => Seq::empty(),
    }
}

pub open spec fn from_u32(n: Option<u32>) -> Option<int> {
    match n {
        Some(n) => Some(n as int),
        None => None,
    }
}

pub open spec fn from_i32(n: Option<i32>) -> Option<int> {
    match n {
        Some(n) => Some(n as int),
        None => None,
    }
}

pub open spec fn from_u128(n: Option<u128>) -> Option<int> {
    match n {
        Some(n) => Some(n as int),
        None => None,
    }
}

/// The columns that describe the machine.
pub open spec fn system_cells(s: Sample, interval_secs: u64) -> Seq<Seq<char>> {
    let secs = interval_length(s.actual_interval_ms, interval_secs);
    let total = disk_space(s.disk@, false);
    let free = disk_space(s.disk@, true);
    seq![
        crate::text::decimal(s.timestamp_secs as nat),
        crate::text::decimal(s.cpu.process_count as nat),
        s.cpu.utime_secs@.fixed_text(3),
        s.cpu.stime_secs@.fixed_text(3),
        s.cpu.utilization_pct@.fixed_text(4),
        crate::text::decimal(s.memory.free_mib as nat),
        crate::text::decimal(s.memory.used_mib as nat),
        crate::text::decimal(s.memory.buffers_mib as nat),
        crate::text::decimal(s.memory.cached_mib as nat),
        crate::text::decimal(s.memory.active_mib as nat),
        crate::text::decimal(s.memory.inactive_mib as nat),
        crate::text::decimal(disk_read_bytes(s.disk@, secs) as nat),
        crate::text::decimal(disk_write_bytes(s.disk@, secs) as nat),
        total.fixed_text(6),
        Number::less(total, free).fixed_text(6),
        free.fixed_text(6),
        crate::text::decimal(net_recv_bytes(s.network@, secs) as nat),
        crate::text::decimal(net_sent_bytes(s.network@, secs) as nat),
        gpu_usage(s.gpu@).fixed_text(4),
        gpu_vram(s.gpu@).fixed_text(4),
        crate::text::decimal(known_count(gpus_in_use(s.gpu@)) as nat),
    ]
}

/// The columns that describe the tracked process tree; what is not known is left
/// empty.
pub open spec fn process_cells(pid: Option<i32>, cpu: CpuMetrics) -> Seq<Seq<char>> {
    seq![
        whole_cell(from_i32(pid)),
        whole_cell(from_u32(cpu.process_child_count)),
        fraction_cell(cpu.process_utime_secs),
        fraction_cell(cpu.process_stime_secs),
        fraction_cell(cpu.process_cores_used),
        whole_cell(from_u128(cpu.process_pss_mib)),
        whole_cell(from_u128(cpu.process_disk_read_bytes)),
        whole_cell(from_u128(cpu.process_disk_write_bytes)),
        fraction_cell(cpu.process_gpu_usage),
        fraction_cell(cpu.process_gpu_vram_mib),
        whole_cell(from_u32(cpu.process_gpu_utilized)),
    ]
}

/// All columns, in the order of the header.
pub open spec fn row_cells(s: Sample, interval_secs: u64) -> Seq<Seq<char>> {
    (system_cells(s, interval_secs) + process_cells(s.tracked_pid, s.cpu)).push(
        s.cpu.steal_time_secs@.shortest_text(),
    )
}

// ---------------------------------------------------------------------------
// Writing it
// ---------------------------------------------------------------------------

/// The length of the interval in seconds.
fn length_of(actual_ms: Option<u64>, interval_secs: u64) -> (r: Number)
    ensures
        r == interval_length(actual_ms, interval_secs),
        r.wf(),
{
    match actual_ms {
        Some(ms) => Number::from_u64(ms).over_whole(1000),
        None => Number::from_u64(
            if interval_secs <= u32::MAX as u64 {
                interval_secs
            } else {
                u32::MAX as u64
            },
        ),
    }
}

/// The whole bytes that a rate makes of an interval.
fn interval_bytes(rate: &Double, secs: Number) -> (r: u64)
    requires
        secs.wf(),
    ensures
        r == bytes_in(rate@, secs),
{
    rate.number().product(secs).to_u64()
}

/// Room for one more summand of 64 bits.
proof fn lemma_sum_fits(sum: int, i: int)
    requires
        0 <= sum <= i * u64::MAX,
        0 <= i < u64::MAX,
    ensures
        sum + u64::MAX <= (i + 1) * u64::MAX,
        (i + 1) * u64::MAX <= u128::MAX,
{
    assert((i + 1) * u64::MAX == i * u64::MAX + u64::MAX) by (nonlinear_arith);
    assert((i + 1) * u64::MAX <= u64::MAX * u64::MAX) by (nonlinear_arith)
        requires
            i + 1 <= u64::MAX,
    ;
}

/// Bytes read from and written to all disks.
fn disk_traffic(disks: &Vec<DiskMetrics>, secs: Number) -> (r: (u128, u128))
    requires
        secs.wf(),
    ensures
        r.0 == disk_read_bytes(disks@, secs),
        r.1 == disk_write_bytes(disks@, secs),
{
    let mut read: u128 = 0;
    let mut written: u128 = 0;
    let mut i: usize = 0;
    while i < disks.len()
        invariant
            i <= disks@.len(),
            secs.wf(),
            read == disk_read_bytes(disks@.take(i as int), secs),
            written == disk_write_bytes(disks@.take(i as int), secs),
            read <= i * u64::MAX,
            written <= i * u64::MAX,
        decreases disks@.len() - i,
    {
        assert(disks@.take(i + 1).drop_last() =~= disks@.take(i as int));
        proof {
            lemma_sum_fits(read as int, i as int);
            lemma_sum_fits(written as int, i as int);
        }
        read = read + interval_bytes(&disks[i].read_bytes_per_sec, secs) as u128;
        written = written + interval_bytes(&disks[i].write_bytes_per_sec, secs) as u128;
        i += 1;
    }
    assert(disks@.take(disks@.len() as int) =~= disks@);
    (read, written)
}

/// Bytes received and sent on all interfaces.
fn net_traffic(nets: &Vec<NetworkMetrics>, secs: Number) -> (r: (u128, u128))
    requires
        secs.wf(),
    ensures
        r.0 == net_recv_bytes(nets@, secs),
        r.1 == net_sent_bytes(nets@, secs),
{
    let mut received: u128 = 0;
    let mut sent: u128 = 0;
    let mut i: usize = 0;
    while i < nets.len()
        invariant
            i <= nets@.len(),
            secs.wf(),
            received == net_recv_bytes(nets@.take(i as int), secs),
            sent == net_sent_bytes(nets@.take(i as int), secs),
            received <= i * u64::MAX,
            sent <= i * u64::MAX,
        decreases nets@.len() - i,
    {
        assert(nets@.take(i + 1).drop_last() =~= nets@.take(i as int));
        proof {
            lemma_sum_fits(received as int, i as int);
            lemma_sum_fits(sent as int, i as int);
        }
        received = received + interval_bytes(&nets[i].rx_bytes_per_sec, secs) as u128;
        sent = sent + interval_bytes(&nets[i].tx_bytes_per_sec, secs) as u128;
        i += 1;
    }
    assert(nets@.take(nets@.len() as int) =~= nets@);
    (received, sent)
}

/// The size of all mounts of all disks, or what is free of it.
fn measure_disk_space(disks: &Vec<DiskMetrics>, free: bool) -> (r: Number)
    ensures
        r == disk_space(disks@, free),
        r.wf(),
{
    let mut total: Number = Number::Finite { negative: true, mantissa: 0, power: 0 };
    let mut i: usize = 0;
    while i < disks.len()
        invariant
            i <= disks@.len(),
            total == disk_space(disks@.take(i as int), free),
            total.wf(),
        decreases disks@.len() - i,
    {
        let mounts = &disks[i].mounts;
        let ghost start = total;
        let mut j: usize = 0;
        while j < mounts.len()
            invariant
                j <= mounts@.len(),
                total == add_mounts(start, mounts@.take(j as int), free),
                total.wf(),
            decreases mounts@.len() - j,
        {
            assert(mounts@.take(j + 1).drop_last() =~= mounts@.take(j as int));
            let bytes: u64 = if free {
                mounts[j].available_bytes
            } else {
                mounts[j].total_bytes
            };
            total = total.sum(Number::from_u64(bytes).over_whole(1_000_000_000));
            j += 1;
        }
        assert(mounts@.take(mounts@.len() as int) =~= mounts@);
        assert(disks@.take(i + 1).drop_last() =~= disks@.take(i as int));
        i += 1;
    }
    assert(disks@.take(disks@.len() as int) =~= disks@);
    total
}

/// Utilization, memory in use and number of all GPUs that do something.
fn measure_gpus(gpus: &Vec<GpuMetrics>) -> (r: (Number, Number, u32))
    ensures
        r.0 == gpu_usage(gpus@),
        r.0.wf(),
        r.1 == gpu_vram(gpus@),
        r.1.wf(),
        r.2 == known_count(gpus_in_use(gpus@)),
{
    let mut usage: Number = Number::Finite { negative: true, mantissa: 0, power: 0 };
    let mut vram: Number = Number::Finite { negative: true, mantissa: 0, power: 0 };
    let mut count: usize = 0;
    let mut i: usize = 0;
    while i < gpus.len()
        invariant
            i <= gpus@.len(),
            usage == gpu_usage(gpus@.take(i as int)),
            usage.wf(),
            vram == gpu_vram(gpus@.take(i as int)),
            vram.wf(),
            count == gpus_in_use(gpus@.take(i as int)),
            count <= i,
        decreases gpus@.len() - i,
    {
        assert(gpus@.take(i + 1).drop_last() =~= gpus@.take(i as int));
        let g: GpuMetrics = gpus[i];
        let pct: Number = g.utilization_pct.number();
        usage = usage.sum(pct.over_whole(100));
        vram = vram.sum(Number::from_u64(g.vram_used_bytes).over_whole(1_048_576));
        if pct.is_positive() {
            count += 1;
        }
        i += 1;
    }
    assert(gpus@.take(gpus@.len() as int) =~= gpus@);
    let in_use: u32 = if count as u64 <= u32::MAX as u64 {
        count as u32
    } else {
        0
    };
    (usage, vram, in_use)
}

fn opt_u32(v: Option<u32>) -> (r: String)
    ensures
        r@ == whole_cell(from_u32(v)),
{
    match v {
        Some(x) => decimal_text(x as u128),
        None => empty_cell(),
    }
}

fn opt_i32(v: Option<i32>) -> (r: String)
    ensures
        r@ == whole_cell(from_i32(v)),
{
    match v {
        Some(x) => signed_decimal_text(x as i64),
        None => empty_cell(),
    }
}

fn opt_u128(v: Option<u128>) -> (r: String)
    ensures
        r@ == whole_cell(from_u128(v)),
{
    match v {
        Some(x) => decimal_text(x),
        None => empty_cell(),
    }
}

fn opt_f4(v: Option<Double>) -> (r: String)
    ensures
        r@ == fraction_cell(v),
{
    match v {
        Some(x) => x.number().fixed(4),
        None => empty_cell(),
    }
}

fn empty_cell() -> (r: String)
    ensures
        r@ == Seq::<char>::empty(),
{
    let r: String = String::new();
    assert(r@ =~= Seq::empty());
    r
}

/// The columns that describe the machine.
fn write_system_cells(s: &Sample, interval_secs: u64) -> (r: Vec<String>)
    ensures
        crate::text::texts_of(r@) == system_cells(*s, interval_secs),
{
    let secs: Number = length_of(s.actual_interval_ms, interval_secs);
    let (disk_read, disk_write) = disk_traffic(&s.disk, secs);
    let disk_space_total: Number = measure_disk_space(&s.disk, false);
    let disk_space_free: Number = measure_disk_space(&s.disk, true);
    let disk_space_used: Number = disk_space_total.difference(disk_space_free);
    let (net_recv, net_sent) = net_traffic(&s.network, secs);
    let (usage, vram, utilized) = measure_gpus(&s.gpu);
    let r: Vec<String> = vec![
        decimal_text(s.timestamp_secs as u128),
        decimal_text(s.cpu.process_count as u128),
        s.cpu.utime_secs.number().fixed(3),
        s.cpu.stime_secs.number().fixed(3),
        s.cpu.utilization_pct.number().fixed(4),
        decimal_text(s.memory.free_mib as u128),
        decimal_text(s.memory.used_mib as u128),
        decimal_text(s.memory.buffers_mib as u128),
        decimal_text(s.memory.cached_mib as u128),
        decimal_text(s.memory.active_mib as u128),
        decimal_text(s.memory.inactive_mib as u128),
        decimal_text(disk_read),
        decimal_text(disk_write),
        disk_space_total.fixed(6),
        disk_space_used.fixed(6),
        disk_space_free.fixed(6),
        decimal_text(net_recv),
        decimal_text(net_sent),
        usage.fixed(4),
        vram.fixed(4),
        decimal_text(utilized as u128),
    ];
    assert(crate::text::texts_of(r@) =~= system_cells(*s, interval_secs));
    r
}

/// The columns that describe the tracked process tree.
fn write_process_cells(s: &Sample) -> (r: Vec<String>)
    ensures
        crate::text::texts_of(r@) == process_cells(s.tracked_pid, s.cpu),
{
    let r: Vec<String> = vec![
        opt_i32(s.tracked_pid),
        opt_u32(s.cpu.process_child_count),
        opt_f4(s.cpu.process_utime_secs),
        opt_f4(s.cpu.process_stime_secs),
        opt_f4(s.cpu.process_cores_used),
        opt_u128(s.cpu.process_pss_mib),
        opt_u128(s.cpu.process_disk_read_bytes),
        opt_u128(s.cpu.process_disk_write_bytes),
        opt_f4(s.cpu.process_gpu_usage),
        opt_f4(s.cpu.process_gpu_vram_mib),
        opt_u32(s.cpu.process_gpu_utilized),
    ];
    assert(crate::text::texts_of(r@) =~= process_cells(s.tracked_pid, s.cpu));
    r
}

/// A sample as a single row, without a newline.
///
/// `interval_secs` is the length of the interval where the sample does not say how
/// long it really was.  Process columns are empty when no process is tracked.
pub fn sample_to_csv_row(s: &Sample, interval_secs: u64) -> (r: String)
    ensures
        r@ == crate::text::joined(row_cells(*s, interval_secs), ','),
{
    let mut cells: Vec<String> = write_system_cells(s, interval_secs);
    let mut rest: Vec<String> = write_process_cells(s);
    let ghost front = cells@;
    let ghost back = rest@;
    cells.append(&mut rest);
    cells.push(s.cpu.steal_time_secs.number().shortest());
    proof {
        assert(crate::text::texts_of(front + back) =~= crate::text::texts_of(front)
            + crate::text::texts_of(back));
        assert(crate::text::texts_of(cells@) =~= row_cells(*s, interval_secs));
    }
    join_strings(&cells, ',')
}

/// The rows of several samples.
pub open spec fn rows_of(samples: Seq<Sample>, interval_secs: u64) -> Seq<Seq<char>> {
    samples.map_values(|s: Sample| crate::text::joined(row_cells(s, interval_secs), ','))
}

/// A header and one row per sample, every one of them ended by a newline.
pub open spec fn report(samples: Seq<Sample>, interval_secs: u64) -> Seq<char> {
    crate::text::joined(seq![CSV_HEADER@] + rows_of(samples, interval_secs), '\n').push('\n')
}

/// A header and one row per sample, every one of them ended by a newline.
pub fn samples_to_csv(samples: &Vec<Sample>, interval_secs: u64) -> (r: String)
    ensures
        r@ == report(samples@, interval_secs),
{
    let mut lines: Vec<String> = Vec::new();
    lines.push(csv_header().to_owned());
    let mut i: usize = 0;
    while i < samples.len()
        invariant
            i <= samples@.len(),
            lines@.len() == i + 1,
            lines@[0]@ == CSV_HEADER@,
            forall|k: int|
                0 < k <= i ==> (#[trigger] lines@[k])@ == crate::text::joined(
                    row_cells(samples@[k - 1], interval_secs),
                    ',',
                ),
        decreases samples@.len() - i,
    {
        lines.push(sample_to_csv_row(&samples[i], interval_secs));
        i += 1;
    }
    assert(crate::text::texts_of(lines@) =~= seq![CSV_HEADER@] + rows_of(
        samples@,
        interval_secs,
    ));
    let mut r: String = join_strings(&lines, '\n');
    r.push('\n');
    r
}

// ---------------------------------------------------------------------------
// Laws
// ---------------------------------------------------------------------------

/// The names of the columns, one by one.
pub open spec fn column_names() -> Seq<Seq<char>> {
    seq![
        "timestamp"@,
        "system_processes"@,
        "system_utime"@,
        "system_stime"@,
        "system_cpu_usage"@,
        "system_memory_free_mib"@,
        "system_memory_used_mib"@,
        "system_memory_buffers_mib"@,
        "system_memory_cached_mib"@,
        "system_memory_active_mib"@,
        "system_memory_inactive_mib"@,
        "system_disk_read_bytes"@,
        "system_disk_write_bytes"@,
        "system_disk_space_total_gb"@,
        "system_disk_space_used_gb"@,
        "system_disk_space_free_gb"@,
        "system_net_recv_bytes"@,
        "system_net_sent_bytes"@,
        "system_gpu_usage"@,
        "system_gpu_vram_mib"@,
        "system_gpu_utilized"@,
        "process_pid"@,
        "process_children"@,
        "process_utime"@,
        "process_stime"@,
        "process_cpu_usage"@,
        "process_memory_mib"@,
        "process_disk_read_bytes"@,
        "process_disk_write_bytes"@,
        "process_gpu_usage"@,
        "process_gpu_vram_mib"@,
        "process_gpu_utilized"@,
        "system_steal_time"@,
    ]
}

/// One more column.
proof fn lemma_one_more_column(header: Seq<char>, names: Seq<Seq<char>>, k: int, at: int)
    requires
        0 < k < names.len(),
        0 <= at,
        at + 1 + names[k].len() <= header.len(),
        header.take(at) == crate::text::joined(names.take(k), ','),
        header[at] == ',',
        header.subrange(at + 1, at + 1 + names[k].len()) == names[k],
    ensures
        header.take(at + 1 + names[k].len()) == crate::text::joined(names.take(k + 1), ','),
{
    assert(names.take(k + 1).drop_last() =~= names.take(k));
    assert(header.take(at + 1 + names[k].len()) =~= header.take(at).push(',') + header.subrange(
        at + 1,
        at + 1 + names[k].len(),
    ));
}

/// The header is its column names, joined by commas.
#[verifier::rlimit(100)]
pub proof fn lemma_header_is_joined()
    ensures
        CSV_HEADER@ == crate::text::joined(column_names(), ','),
{
    let header = CSV_HEADER@;
    let names = column_names();
    reveal_strlit(
        "timestamp,\
         system_processes,system_utime,system_stime,system_cpu_usage,\
         system_memory_free_mib,system_memory_used_mib,system_memory_buffers_mib,\
         system_memory_cached_mib,system_memory_active_mib,system_memory_inactive_mib,\
         system_disk_read_bytes,system_disk_write_bytes,\
         system_disk_space_total_gb,system_disk_space_used_gb,system_disk_space_free_gb,\
         system_net_recv_bytes,system_net_sent_bytes,\
         system_gpu_usage,system_gpu_vram_mib,system_gpu_utilized,\
         process_pid,process_children,process_utime,process_stime,process_cpu_usage,\
         process_memory_mib,process_disk_read_bytes,process_disk_write_bytes,\
         process_gpu_usage,process_gpu_vram_mib,process_gpu_utilized,\
         system_steal_time",
    );
    reveal_strlit("timestamp");
    reveal_strlit("system_processes");
    reveal_strlit("system_utime");
    reveal_strlit("system_stime");
    reveal_strlit("system_cpu_usage");
    reveal_strlit("system_memory_free_mib");
    reveal_strlit("system_memory_used_mib");
    reveal_strlit("system_memory_buffers_mib");
    reveal_strlit("system_memory_cached_mib");
    reveal_strlit("system_memory_active_mib");
    reveal_strlit("system_memory_inactive_mib");
    reveal_strlit("system_disk_read_bytes");
    reveal_strlit("system_disk_write_bytes");
    reveal_strlit("system_disk_space_total_gb");
    reveal_strlit("system_disk_space_used_gb");
    reveal_strlit("system_disk_space_free_gb");
    reveal_strlit("system_net_recv_bytes");
    reveal_strlit("system_net_sent_bytes");
    reveal_strlit("system_gpu_usage");
    reveal_strlit("system_gpu_vram_mib");
    reveal_strlit("system_gpu_utilized");
    reveal_strlit("process_pid");
    reveal_strlit("process_children");
    reveal_strlit("process_utime");
    reveal_strlit("process_stime");
    reveal_strlit("process_cpu_usage");
    reveal_strlit("process_memory_mib");
    reveal_strlit("process_disk_read_bytes");
    reveal_strlit("process_disk_write_bytes");
    reveal_strlit("process_gpu_usage");
    reveal_strlit("process_gpu_vram_mib");
    reveal_strlit("process_gpu_utilized");
    reveal_strlit("system_steal_time");
    assert(header.take(9) =~= crate::text::joined(names.take(1), ','));
    assert(header.subrange(10, 26) =~= names[1]);
    lemma_one_more_column(header, names, 1, 9);
    assert(header.subrange(27, 39) =~= names[2]);
    lemma_one_more_column(header, names, 2, 26);
    assert(header.subrange(40, 52) =~= names[3]);
    lemma_one_more_column(header, names, 3, 39);
    assert(header.subrange(53, 69) =~= names[4]);
    lemma_one_more_column(header, names, 4, 52);
    assert(header.subrange(70, 92) =~= names[5]);
    lemma_one_more_column(header, names, 5, 69);
    assert(header.subrange(93, 115) =~= names[6]);
    lemma_one_more_column(header, names, 6, 92);
    assert(header.subrange(116, 141) =~= names[7]);
    lemma_one_more_column(header, names, 7, 115);
    assert(header.subrange(142, 166) =~= names[8]);
    lemma_one_more_column(header, names, 8, 141);
    assert(header.subrange(167, 191) =~= names[9]);
    lemma_one_more_column(header, names, 9, 166);
    assert(header.subrange(192, 218) =~= names[10]);
    lemma_one_more_column(header, names, 10, 191);
    assert(header.subrange(219, 241) =~= names[11]);
    lemma_one_more_column(header, names, 11, 218);
    assert(header.subrange(242, 265) =~= names[12]);
    lemma_one_more_column(header, names, 12, 241);
    assert(header.subrange(266, 292) =~= names[13]);
    lemma_one_more_column(header, names, 13, 265);
    assert(header.subrange(293, 318) =~= names[14]);
    lemma_one_more_column(header, names, 14, 292);
    assert(header.subrange(319, 344) =~= names[15]);
    lemma_one_more_column(header, names, 15, 318);
    assert(header.subrange(345, 366) =~= names[16]);
    lemma_one_more_column(header, names, 16, 344);
    assert(header.subrange(367, 388) =~= names[17]);
    lemma_one_more_column(header, names, 17, 366);
    assert(header.subrange(389, 405) =~= names[18]);
    lemma_one_more_column(header, names, 18, 388);
    assert(header.subrange(406, 425) =~= names[19]);
    lemma_one_more_column(header, names, 19, 405);
    assert(header.subrange(426, 445) =~= names[20]);
    lemma_one_more_column(header, names, 20, 425);
    assert(header.subrange(446, 457) =~= names[21]);
    lemma_one_more_column(header, names, 21, 445);
    assert(header.subrange(458, 474) =~= names[22]);
    lemma_one_more_column(header, names, 22, 457);
    assert(header.subrange(475, 488) =~= names[23]);
    lemma_one_more_column(header, names, 23, 474);
    assert(header.subrange(489, 502) =~= names[24]);
    lemma_one_more_column(header, names, 24, 488);
    assert(header.subrange(503, 520) =~= names[25]);
    lemma_one_more_column(header, names, 25, 502);
    assert(header.subrange(521, 539) =~= names[26]);
    lemma_one_more_column(header, names, 26, 520);
    assert(header.subrange(540, 563) =~= names[27]);
    lemma_one_more_column(header, names, 27, 539);
    assert(header.subrange(564, 588) =~= names[28]);
    lemma_one_more_column(header, names, 28, 563);
    assert(header.subrange(589, 606) =~= names[29]);
    lemma_one_more_column(header, names, 29, 588);
    assert(header.subrange(607, 627) =~= names[30]);
    lemma_one_more_column(header, names, 30, 606);
    assert(header.subrange(628, 648) =~= names[31]);
    lemma_one_more_column(header, names, 31, 627);
    assert(header.subrange(649, 666) =~= names[32]);
    lemma_one_more_column(header, names, 32, 648);
    assert(header.take(666) =~= header);
    assert(names.take(33) =~= names);
}

/// Letters and underscores only.
pub open spec fn name_text(s: Seq<char>) -> bool {
    forall|i: int| 0 <= i < s.len() ==> ('a' <= #[trigger] s[i] <= 'z' || s[i] == '_')
}

/// Column names are made of letters and underscores.
proof fn lemma_names_are_names()
    ensures
        forall|k: int| 0 <= k < column_names().len() ==> name_text(#[trigger] column_names()[k]),
{
    assert(name_text("timestamp"@)) by {
        reveal_strlit("timestamp");
    }
    assert(name_text("system_processes"@)) by {
        reveal_strlit("system_processes");
    }
    assert(name_text("system_utime"@)) by {
        reveal_strlit("system_utime");
    }
    assert(name_text("system_stime"@)) by {
        reveal_strlit("system_stime");
    }
    assert(name_text("system_cpu_usage"@)) by {
        reveal_strlit("system_cpu_usage");
    }
    assert(name_text("system_memory_free_mib"@)) by {
        reveal_strlit("system_memory_free_mib");
    }
    assert(name_text("system_memory_used_mib"@)) by {
        reveal_strlit("system_memory_used_mib");
    }
    assert(name_text("system_memory_buffers_mib"@)) by {
        reveal_strlit("system_memory_buffers_mib");
    }
    assert(name_text("system_memory_cached_mib"@)) by {
        reveal_strlit("system_memory_cached_mib");
    }
    assert(name_text("system_memory_active_mib"@)) by {
        reveal_strlit("system_memory_active_mib");
    }
    assert(name_text("system_memory_inactive_mib"@)) by {
        reveal_strlit("system_memory_inactive_mib");
    }
    assert(name_text("system_disk_read_bytes"@)) by {
        reveal_strlit("system_disk_read_bytes");
    }
    assert(name_text("system_disk_write_bytes"@)) by {
        reveal_strlit("system_disk_write_bytes");
    }
    assert(name_text("system_disk_space_total_gb"@)) by {
        reveal_strlit("system_disk_space_total_gb");
    }
    assert(name_text("system_disk_space_used_gb"@)) by {
        reveal_strlit("system_disk_space_used_gb");
    }
    assert(name_text("system_disk_space_free_gb"@)) by {
        reveal_strlit("system_disk_space_free_gb");
    }
    assert(name_text("system_net_recv_bytes"@)) by {
        reveal_strlit("system_net_recv_bytes");
    }
    assert(name_text("system_net_sent_bytes"@)) by {
        reveal_strlit("system_net_sent_bytes");
    }
    assert(name_text("system_gpu_usage"@)) by {
        reveal_strlit("system_gpu_usage");
    }
    assert(name_text("system_gpu_vram_mib"@)) by {
        reveal_strlit("system_gpu_vram_mib");
    }
    assert(name_text("system_gpu_utilized"@)) by {
        reveal_strlit("system_gpu_utilized");
    }
    assert(name_text("process_pid"@)) by {
        reveal_strlit("process_pid");
    }
    assert(name_text("process_children"@)) by {
        reveal_strlit("process_children");
    }
    assert(name_text("process_utime"@)) by {
        reveal_strlit("process_utime");
    }
    assert(name_text("process_stime"@)) by {
        reveal_strlit("process_stime");
    }
    assert(name_text("process_cpu_usage"@)) by {
        reveal_strlit("process_cpu_usage");
    }
    assert(name_text("process_memory_mib"@)) by {
        reveal_strlit("process_memory_mib");
    }
    assert(name_text("process_disk_read_bytes"@)) by {
        reveal_strlit("process_disk_read_bytes");
    }
    assert(name_text("process_disk_write_bytes"@)) by {
        reveal_strlit("process_disk_write_bytes");
    }
    assert(name_text("process_gpu_usage"@)) by {
        reveal_strlit("process_gpu_usage");
    }
    assert(name_text("process_gpu_vram_mib"@)) by {
        reveal_strlit("process_gpu_vram_mib");
    }
    assert(name_text("process_gpu_utilized"@)) by {
        reveal_strlit("process_gpu_utilized");
    }
    assert(name_text("system_steal_time"@)) by {
        reveal_strlit("system_steal_time");
    }
    let names = column_names();
    assert forall|k: int| 0 <= k < names.len() implies name_text(#[trigger] names[k]) by {
        if k == 0 {
            assert(names[k] == "timestamp"@);
        }
        if k == 1 {
            assert(names[k] == "system_processes"@);
        }
        if k == 2 {
            assert(names[k] == "system_utime"@);
        }
        if k == 3 {
            assert(names[k] == "system_stime"@);
        }
        if k == 4 {
            assert(names[k] == "system_cpu_usage"@);
        }
        if k == 5 {
            assert(names[k] == "system_memory_free_mib"@);
        }
        if k == 6 {
            assert(names[k] == "system_memory_used_mib"@);
        }
        if k == 7 {
            assert(names[k] == "system_memory_buffers_mib"@);
        }
        if k == 8 {
            assert(names[k] == "system_memory_cached_mib"@);
        }
        if k == 9 {
            assert(names[k] == "system_memory_active_mib"@);
        }
        if k == 10 {
            assert(names[k] == "system_memory_inactive_mib"@);
        }
        if k == 11 {
            assert(names[k] == "system_disk_read_bytes"@);
        }
        if k == 12 {
            assert(names[k] == "system_disk_write_bytes"@);
        }
        if k == 13 {
            assert(names[k] == "system_disk_space_total_gb"@);
        }
        if k == 14 {
            assert(names[k] == "system_disk_space_used_gb"@);
        }
        if k == 15 {
            assert(names[k] == "system_disk_space_free_gb"@);
        }
        if k == 16 {
            assert(names[k] == "system_net_recv_bytes"@);
        }
        if k == 17 {
            assert(names[k] == "system_net_sent_bytes"@);
        }
        if k == 18 {
            assert(names[k] == "system_gpu_usage"@);
        }
        if k == 19 {
            assert(names[k] == "system_gpu_vram_mib"@);
        }
        if k == 20 {
            assert(names[k] == "system_gpu_utilized"@);
        }
        if k == 21 {
            assert(names[k] == "process_pid"@);
        }
        if k == 22 {
            assert(names[k] == "process_children"@);
        }
        if k == 23 {
            assert(names[k] == "process_utime"@);
        }
        if k == 24 {
            assert(names[k] == "process_stime"@);
        }
        if k == 25 {
            assert(names[k] == "process_cpu_usage"@);
        }
        if k == 26 {
            assert(names[k] == "process_memory_mib"@);
        }
        if k == 27 {
            assert(names[k] == "process_disk_read_bytes"@);
        }
        if k == 28 {
            assert(names[k] == "process_disk_write_bytes"@);
        }
        if k == 29 {
            assert(names[k] == "process_gpu_usage"@);
        }
        if k == 30 {
            assert(names[k] == "process_gpu_vram_mib"@);
        }
        if k == 31 {
            assert(names[k] == "process_gpu_utilized"@);
        }
        if k == 32 {
            assert(names[k] == "system_steal_time"@);
        }
    }
}

/// The header has thirty-three columns, and no line breaks or quotes.
pub proof fn lemma_header_columns()
    ensures
        crate::text::pieces(CSV_HEADER@, ',') == column_names(),
        column_names().len() == 33,
        crate::text::free_of(CSV_HEADER@, '\n'),
        crate::text::free_of(CSV_HEADER@, '"'),
        crate::text::free_of(CSV_HEADER@, '\''),
{
    let names = column_names();
    lemma_header_is_joined();
    lemma_names_are_names();
    assert forall|k: int| 0 <= k < names.len() implies crate::text::free_of(
        #[trigger] names[k],
        ',',
    ) && crate::text::free_of(names[k], '\n') && crate::text::free_of(names[k], '"')
        && crate::text::free_of(names[k], '\'') by {
        assert(name_text(names[k]));
    }
    crate::text::lemma_join_then_split(names, ',');
    crate::text::lemma_joined_free_of(names, ',', '\n');
    crate::text::lemma_joined_free_of(names, ',', '"');
    crate::text::lemma_joined_free_of(names, ',', '\'');
}

/// What cells are made of: digits, a point, a sign, and the letters of `inf` and
/// `NaN`.
pub open spec fn cell_text(s: Seq<char>) -> bool {
    forall|i: int| 0 <= i < s.len() ==> cell_char(#[trigger] s[i])
}

pub open spec fn cell_char(c: char) -> bool {
    crate::text::is_digit(c) || c == '.' || c == '-' || c == 'N' || c == 'a' || c == 'i' || c == 'n'
        || c == 'f'
}

proof fn lemma_cell_text_adds(a: Seq<char>, b: Seq<char>)
    requires
        cell_text(a),
        cell_text(b),
    ensures
        cell_text(a + b),
{
    assert forall|i: int| 0 <= i < (a + b).len() implies cell_char(#[trigger] (a + b)[i]) by {
        if i < a.len() {
            assert((a + b)[i] == a[i]);
        } else {
            assert((a + b)[i] == b[i - a.len()]);
        }
    }
}

proof fn lemma_decimal_cell(n: nat)
    ensures
        cell_text(crate::text::decimal(n)),
{
    crate::text::lemma_decimal_digits(n);
    let s = crate::text::decimal(n);
    assert forall|i: int| 0 <= i < s.len() implies cell_char(#[trigger] s[i]) by {
        assert(crate::text::is_digit(s[i]));
    }
}

proof fn lemma_padded_cell(n: nat, k: nat)
    ensures
        cell_text(crate::number::padded(n, k)),
    decreases k,
{
    if k > 0 {
        lemma_padded_cell(n / 10, (k - 1) as nat);
    }
}

proof fn lemma_point_cell(q: nat, k: nat)
    ensures
        cell_text(crate::number::point_text(q, k)),
{
    let whole = crate::text::decimal(q / crate::power::pow10(k));
    let fraction = crate::number::padded(q % crate::power::pow10(k), k);
    lemma_decimal_cell(q / crate::power::pow10(k));
    lemma_padded_cell(q % crate::power::pow10(k), k);
    lemma_cell_text_adds(whole.push('.'), fraction);
}

/// The texts of what is not finite.
proof fn lemma_odd_cells()
    ensures
        cell_text("NaN"@),
        cell_text("inf"@),
        cell_text("-inf"@),
{
    reveal_strlit("NaN");
    reveal_strlit("inf");
    reveal_strlit("-inf");
}

proof fn lemma_fixed_cell(x: Number, k: nat)
    ensures
        cell_text(x.fixed_text(k)),
{
    lemma_odd_cells();
    if let Number::Finite { negative, mantissa, power } = x {
        let text = crate::number::point_text(x.written_steps(k) as nat, k);
        lemma_point_cell(x.written_steps(k) as nat, k);
        lemma_cell_text_adds(seq!['-'], text);
    }
}

proof fn lemma_placed_cell(d: nat, c: nat, s: nat)
    ensures
        cell_text(crate::shortest::placed(d, c, s)),
{
    if c >= s {
        lemma_decimal_cell(d * crate::power::pow10((c - s) as nat));
    } else {
        lemma_point_cell(d, (s - c) as nat);
    }
}

proof fn lemma_shortest_digits_cell(mantissa: nat, power: nat)
    ensures
        cell_text(crate::shortest::shortest_digits(mantissa, power)),
{
    let quarter = crate::shortest::exact_quarter(power) as int;
    let a = 4 * mantissa * quarter;
    let below = if mantissa == crate::number::MANTISSA_NORMAL {
        quarter
    } else {
        2 * quarter
    };
    let closed = mantissa % 2 == 0;
    let c = crate::shortest::largest_cut(
        a,
        below,
        2 * quarter,
        closed,
        crate::text::decimal(a as nat).len(),
    );
    lemma_placed_cell(
        crate::shortest::cut(a, below, 2 * quarter, closed, c) as nat,
        c,
        crate::shortest::exact_decimals(power),
    );
}

proof fn lemma_shortest_cell(x: Number)
    ensures
        cell_text(x.shortest_text()),
{
    lemma_odd_cells();
    if let Number::Finite { negative, mantissa, power } = x {
        let text = if mantissa == 0 {
            seq!['0']
        } else {
            crate::shortest::shortest_digits(mantissa as nat, power as nat)
        };
        lemma_shortest_digits_cell(mantissa as nat, power as nat);
        lemma_cell_text_adds(seq!['-'], text);
    }
}

proof fn lemma_whole_cell(n: Option<int>)
    ensures
        cell_text(whole_cell(n)),
{
    if let Some(n) = n {
        if n < 0 {
            lemma_decimal_cell((-n) as nat);
            lemma_cell_text_adds(seq!['-'], crate::text::decimal((-n) as nat));
        } else {
            lemma_decimal_cell(n as nat);
        }
    }
}

proof fn lemma_fraction_cell(d: Option<Double>)
    ensures
        cell_text(fraction_cell(d)),
{
    if let Some(d) = d {
        lemma_fixed_cell(d@, 4);
    }
}

proof fn lemma_system_cells(s: Sample, interval_secs: u64)
    ensures
        forall|i: int|
            0 <= i < system_cells(s, interval_secs).len() ==> cell_text(
                #[trigger] system_cells(s, interval_secs)[i],
            ),
{
    let secs = interval_length(s.actual_interval_ms, interval_secs);
    let total = disk_space(s.disk@, false);
    let free = disk_space(s.disk@, true);
    lemma_decimal_cell(s.timestamp_secs as nat);
    lemma_decimal_cell(s.cpu.process_count as nat);
    lemma_fixed_cell(s.cpu.utime_secs@, 3);
    lemma_fixed_cell(s.cpu.stime_secs@, 3);
    lemma_fixed_cell(s.cpu.utilization_pct@, 4);
    lemma_decimal_cell(s.memory.free_mib as nat);
    lemma_decimal_cell(s.memory.used_mib as nat);
    lemma_decimal_cell(s.memory.buffers_mib as nat);
    lemma_decimal_cell(s.memory.cached_mib as nat);
    lemma_decimal_cell(s.memory.active_mib as nat);
    lemma_decimal_cell(s.memory.inactive_mib as nat);
    lemma_decimal_cell(disk_read_bytes(s.disk@, secs) as nat);
    lemma_decimal_cell(disk_write_bytes(s.disk@, secs) as nat);
    lemma_fixed_cell(total, 6);
    lemma_fixed_cell(Number::less(total, free), 6);
    lemma_fixed_cell(free, 6);
    lemma_decimal_cell(net_recv_bytes(s.network@, secs) as nat);
    lemma_decimal_cell(net_sent_bytes(s.network@, secs) as nat);
    lemma_fixed_cell(gpu_usage(s.gpu@), 4);
    lemma_fixed_cell(gpu_vram(s.gpu@), 4);
    lemma_decimal_cell(known_count(gpus_in_use(s.gpu@)) as nat);
}

proof fn lemma_process_cells(pid: Option<i32>, cpu: CpuMetrics)
    ensures
        forall|i: int|
            0 <= i < process_cells(pid, cpu).len() ==> cell_text(
                #[trigger] process_cells(pid, cpu)[i],
            ),
{
    lemma_whole_cell(from_i32(pid));
    lemma_whole_cell(from_u32(cpu.process_child_count));
    lemma_fraction_cell(cpu.process_utime_secs);
    lemma_fraction_cell(cpu.process_stime_secs);
    lemma_fraction_cell(cpu.process_cores_used);
    lemma_whole_cell(from_u128(cpu.process_pss_mib));
    lemma_whole_cell(from_u128(cpu.process_disk_read_bytes));
    lemma_whole_cell(from_u128(cpu.process_disk_write_bytes));
    lemma_fraction_cell(cpu.process_gpu_usage);
    lemma_fraction_cell(cpu.process_gpu_vram_mib);
    lemma_whole_cell(from_u32(cpu.process_gpu_utilized));
}

/// A row, split at its commas, is its cells: there are as many as the header has
/// columns, whatever was measured, and the row holds no line breaks and no quotes.
pub proof fn lemma_row_columns(s: Sample, interval_secs: u64)
    ensures
        ({
            let row = crate::text::joined(row_cells(s, interval_secs), ',');
            &&& crate::text::pieces(row, ',') == row_cells(s, interval_secs)
            &&& crate::text::pieces(row, ',').len() == crate::text::pieces(CSV_HEADER@, ',').len()
            &&& crate::text::free_of(row, '\n')
            &&& crate::text::free_of(row, '"')
            &&& crate::text::free_of(row, '\'')
        }),
{
    let cells = row_cells(s, interval_secs);
    let system = system_cells(s, interval_secs);
    let process = process_cells(s.tracked_pid, s.cpu);
    lemma_system_cells(s, interval_secs);
    lemma_process_cells(s.tracked_pid, s.cpu);
    lemma_shortest_cell(s.cpu.steal_time_secs@);
    lemma_header_columns();
    assert(system.len() == 21 && process.len() == 11);
    assert forall|i: int| 0 <= i < cells.len() implies crate::text::free_of(
        #[trigger] cells[i],
        ',',
    ) && crate::text::free_of(cells[i], '\n') && crate::text::free_of(cells[i], '"')
        && crate::text::free_of(cells[i], '\'') by {
        assert(cell_text(cells[i])) by {
            if i < 21 {
                assert(cells[i] == system[i]);
            } else if i < 32 {
                assert(cells[i] == process[i - 21]);
            }
        }
        let c = cells[i];
        assert forall|j: int| 0 <= j < c.len() implies (#[trigger] c[j]) != ',' && c[j] != '\n'
            && c[j] != '"' && c[j] != '\'' by {
            assert(cell_char(c[j]));
        }
    }
    crate::text::lemma_join_then_split(cells, ',');
    crate::text::lemma_joined_free_of(cells, ',', '\n');
    crate::text::lemma_joined_free_of(cells, ',', '"');
    crate::text::lemma_joined_free_of(cells, ',', '\'');
}

/// All process columns are empty when no process is tracked.
pub proof fn lemma_untracked_cells_are_empty(pid: Option<i32>, cpu: CpuMetrics)
    requires
        pid is None,
        crate::metrics::untracked(cpu),
        cpu.process_gpu_usage is None,
        cpu.process_gpu_vram_mib is None,
        cpu.process_gpu_utilized is None,
    ensures
        forall|i: int|
            0 <= i < process_cells(pid, cpu).len() ==> (
            #[trigger] process_cells(pid, cpu)[i]).len() == 0,
{
}

/// Where the real length of the interval is known, the asked-for length does not
/// matter.
pub proof fn lemma_measured_interval_decides(s: Sample, one: u64, other: u64)
    requires
        s.actual_interval_ms is Some,
    ensures
        row_cells(s, one) == row_cells(s, other),
{
}

/// Split at the newlines, a report is its header and its rows, with nothing after
/// the last newline: every line ends with one, and no row breaks a line.
pub proof fn lemma_report_lines(samples: Seq<Sample>, interval_secs: u64)
    ensures
        report(samples, interval_secs).last() == '\n',
        crate::text::pieces(report(samples, interval_secs), '\n') == (seq![CSV_HEADER@] + rows_of(
            samples,
            interval_secs,
        )).push(Seq::empty()),
{
    let lines = seq![CSV_HEADER@] + rows_of(samples, interval_secs);
    lemma_header_columns();
    assert forall|i: int| 0 <= i < lines.len() implies crate::text::free_of(
        #[trigger] lines[i],
        '\n',
    ) by {
        if i > 0 {
            lemma_row_columns(samples[i - 1], interval_secs);
        }
    }
    let all = lines.push(Seq::empty());
    assert forall|i: int| 0 <= i < all.len() implies crate::text::free_of(
        #[trigger] all[i],
        '\n',
    ) by {
        if i < lines.len() {
            assert(crate::text::free_of(lines[i], '\n'));
        }
    }
    assert(all.drop_last() =~= lines);
    assert(report(samples, interval_secs) =~= crate::text::joined(all, '\n'));
    crate::text::lemma_join_then_split(all, '\n');
}

/// A row depends on nothing but the sample and the interval.
pub proof fn lemma_row_is_determined(s: Sample, interval_secs: u64, one: String, other: String)
    requires
        one@ == crate::text::joined(row_cells(s, interval_secs), ','),
        other@ == crate::text::joined(row_cells(s, interval_secs), ','),
    ensures
        one@ == other@,
{
}

} // verus!
