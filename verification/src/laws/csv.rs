//! What the columns of a row mean.

use crate::csv::{
    bytes_in, disk_read_bytes, disk_space, disk_write_bytes, gpu_usage, gpu_vram, gpus_in_use,
    interval_length, net_recv_bytes, net_sent_bytes, report, row_cells, CSV_HEADER,
};
use crate::metrics::{DiskMetrics, DiskMountMetrics, GpuMetrics, NetworkMetrics, Sample};
use crate::number::{Double, Number, MANTISSA_END};
use crate::text::{decimal, digits_value, joined, pieces};
use vstd::prelude::*;

verus! {

/// The name of a column.
pub open spec fn name_of(k: int) -> Seq<char> {
    pieces(CSV_HEADER@, ',')[k]
}

/// What the row of a sample shows in a column.
pub open spec fn shown(s: Sample, interval_secs: u64, k: int) -> Seq<char> {
    pieces(joined(row_cells(s, interval_secs), ','), ',')[k]
}

/// The text of a number with four decimals, or nothing where there is no number.
pub open spec fn four_decimals(x: Option<Double>, text: Seq<char>) -> bool {
    match x {
        Some(d) => text == d@.fixed_text(4),
        None => text.len() == 0,
    }
}

/// The numeral of a whole number, or nothing where there is no number.
pub open spec fn numeral_or_nothing(x: Option<int>, text: Seq<char>) -> bool {
    match x {
        Some(n) => if n < 0 {
            text == seq!['-'] + decimal((-n) as nat)
        } else {
            text == decimal(n as nat)
        },
        None => text.len() == 0,
    }
}

proof fn lemma_shown(s: Sample, interval_secs: u64)
    ensures
        pieces(joined(row_cells(s, interval_secs), ','), ',') == row_cells(s, interval_secs),
        pieces(CSV_HEADER@, ',') == crate::csv::column_names(),
{
    crate::csv::lemma_row_columns(s, interval_secs);
    crate::csv::lemma_header_columns();
}

/// Under the names of the machine's CPU and memory stand the machine's CPU and
/// memory.
pub proof fn lemma_machine_columns(s: Sample, interval_secs: u64)
    ensures
        name_of(0) == "timestamp"@ && shown(s, interval_secs, 0) == decimal(
            s.timestamp_secs as nat,
        ),
        name_of(1) == "system_processes"@ && shown(s, interval_secs, 1) == decimal(
            s.cpu.process_count as nat,
        ),
        name_of(2) == "system_utime"@ && shown(s, interval_secs, 2)
            == s.cpu.utime_secs@.fixed_text(3),
        name_of(3) == "system_stime"@ && shown(s, interval_secs, 3)
            == s.cpu.stime_secs@.fixed_text(3),
        name_of(4) == "system_cpu_usage"@ && shown(s, interval_secs, 4)
            == s.cpu.utilization_pct@.fixed_text(4),
        name_of(5) == "system_memory_free_mib"@ && shown(s, interval_secs, 5) == decimal(
            s.memory.free_mib as nat,
        ),
        name_of(6) == "system_memory_used_mib"@ && shown(s, interval_secs, 6) == decimal(
            s.memory.used_mib as nat,
        ),
        name_of(7) == "system_memory_buffers_mib"@ && shown(s, interval_secs, 7) == decimal(
            s.memory.buffers_mib as nat,
        ),
        name_of(8) == "system_memory_cached_mib"@ && shown(s, interval_secs, 8) == decimal(
            s.memory.cached_mib as nat,
        ),
        name_of(9) == "system_memory_active_mib"@ && shown(s, interval_secs, 9) == decimal(
            s.memory.active_mib as nat,
        ),
        name_of(10) == "system_memory_inactive_mib"@ && shown(s, interval_secs, 10) == decimal(
            s.memory.inactive_mib as nat,
        ),
        name_of(32) == "system_steal_time"@ && shown(s, interval_secs, 32)
            == s.cpu.steal_time_secs@.shortest_text(),
{
    lemma_shown(s, interval_secs);
}

/// Under the names of the process tree's figures stand those figures, and nothing
/// where there is none.
pub proof fn lemma_process_columns(s: Sample, interval_secs: u64)
    ensures
        name_of(21) == "process_pid"@ && numeral_or_nothing(
            match s.tracked_pid {
                Some(p) => Some(p as int),
                None => None,
            },
            shown(s, interval_secs, 21),
        ),
        name_of(22) == "process_children"@ && numeral_or_nothing(
            match s.cpu.process_child_count {
                Some(n) => Some(n as int),
                None => None,
            },
            shown(s, interval_secs, 22),
        ),
        name_of(23) == "process_utime"@ && four_decimals(
            s.cpu.process_utime_secs,
            shown(s, interval_secs, 23),
        ),
        name_of(24) == "process_stime"@ && four_decimals(
            s.cpu.process_stime_secs,
            shown(s, interval_secs, 24),
        ),
        name_of(25) == "process_cpu_usage"@ && four_decimals(
            s.cpu.process_cores_used,
            shown(s, interval_secs, 25),
        ),
        name_of(26) == "process_memory_mib"@ && numeral_or_nothing(
            match s.cpu.process_pss_mib {
                Some(n) => Some(n as int),
                None => None,
            },
            shown(s, interval_secs, 26),
        ),
        name_of(27) == "process_disk_read_bytes"@ && numeral_or_nothing(
            match s.cpu.process_disk_read_bytes {
                Some(n) => Some(n as int),
                None => None,
            },
            shown(s, interval_secs, 27),
        ),
        name_of(28) == "process_disk_write_bytes"@ && numeral_or_nothing(
            match s.cpu.process_disk_write_bytes {
                Some(n) => Some(n as int),
                None => None,
            },
            shown(s, interval_secs, 28),
        ),
        name_of(29) == "process_gpu_usage"@ && four_decimals(
            s.cpu.process_gpu_usage,
            shown(s, interval_secs, 29),
        ),
        name_of(30) == "process_gpu_vram_mib"@ && four_decimals(
            s.cpu.process_gpu_vram_mib,
            shown(s, interval_secs, 30),
        ),
        name_of(31) == "process_gpu_utilized"@ && numeral_or_nothing(
            match s.cpu.process_gpu_utilized {
                Some(n) => Some(n as int),
                None => None,
            },
            shown(s, interval_secs, 31),
        ),
{
    lemma_shown(s, interval_secs);
}

// ---------------------------------------------------------------------------
// Traffic
// ---------------------------------------------------------------------------

/// The interval of a sample is so many whole seconds: as it was measured, or, where
/// it was not, as it was asked for.
pub open spec fn lasts(s: Sample, interval_secs: u64, k: int) -> bool {
    match s.actual_interval_ms {
        Some(ms) => ms == k * 1000,
        None => interval_secs == k && k <= u32::MAX,
    }
}

proof fn lemma_lasts(s: Sample, interval_secs: u64, k: int)
    requires
        lasts(s, interval_secs, k),
        0 <= k,
        k * 1000 < MANTISSA_END,
    ensures
        interval_length(s.actual_interval_ms, interval_secs) == Number::whole(k),
{
    crate::order::lemma_whole_seconds(k);
}

proof fn lemma_whole_bytes(rate: int, k: int)
    requires
        0 <= rate < MANTISSA_END,
        0 <= k < MANTISSA_END,
        rate * k < MANTISSA_END,
    ensures
        bytes_in(Number::whole(rate), Number::whole(k)) == rate * k,
{
    assert(rate * k >= 0) by (nonlinear_arith)
        requires
            rate >= 0,
            k >= 0,
    ;
    crate::order::lemma_whole_product(rate, k);
    crate::order::lemma_whole_part_of_whole(rate * k);
}

/// Network traffic is in bytes per interval: an interface that receives `r` and
/// sends `t` bytes a second shows `r * k` and `t * k` bytes after `k` seconds.
pub proof fn lemma_network_bytes_per_interval(s: Sample, interval_secs: u64, r: int, t: int, k: int)
    requires
        s.network@.len() == 1,
        s.network@[0].rx_bytes_per_sec@ == Number::whole(r),
        s.network@[0].tx_bytes_per_sec@ == Number::whole(t),
        lasts(s, interval_secs, k),
        0 <= k,
        k * 1000 < MANTISSA_END,
        0 <= r < MANTISSA_END,
        0 <= t < MANTISSA_END,
        r * k < MANTISSA_END,
        t * k < MANTISSA_END,
    ensures
        name_of(16) == "system_net_recv_bytes"@ && shown(s, interval_secs, 16) == decimal(
            (r * k) as nat,
        ),
        name_of(17) == "system_net_sent_bytes"@ && shown(s, interval_secs, 17) == decimal(
            (t * k) as nat,
        ),
{
    lemma_shown(s, interval_secs);
    lemma_lasts(s, interval_secs, k);
    lemma_whole_bytes(r, k);
    lemma_whole_bytes(t, k);
    reveal_with_fuel(net_recv_bytes, 2);
    reveal_with_fuel(net_sent_bytes, 2);
}

/// Disk traffic is in bytes per interval: a disk that reads `r` and writes `w`
/// bytes a second shows `r * k` and `w * k` bytes after `k` seconds.
pub proof fn lemma_disk_bytes_per_interval(s: Sample, interval_secs: u64, r: int, w: int, k: int)
    requires
        s.disk@.len() == 1,
        s.disk@[0].read_bytes_per_sec@ == Number::whole(r),
        s.disk@[0].write_bytes_per_sec@ == Number::whole(w),
        lasts(s, interval_secs, k),
        0 <= k,
        k * 1000 < MANTISSA_END,
        0 <= r < MANTISSA_END,
        0 <= w < MANTISSA_END,
        r * k < MANTISSA_END,
        w * k < MANTISSA_END,
    ensures
        name_of(11) == "system_disk_read_bytes"@ && shown(s, interval_secs, 11) == decimal(
            (r * k) as nat,
        ),
        name_of(12) == "system_disk_write_bytes"@ && shown(s, interval_secs, 12) == decimal(
            (w * k) as nat,
        ),
{
    lemma_shown(s, interval_secs);
    lemma_lasts(s, interval_secs, k);
    lemma_whole_bytes(r, k);
    lemma_whole_bytes(w, k);
    reveal_with_fuel(disk_read_bytes, 2);
    reveal_with_fuel(disk_write_bytes, 2);
}

/// What one interface or disk shows, whatever its rate and whatever the interval:
/// the whole bytes of the rate times the length of the interval.
pub proof fn lemma_one_device(s: Sample, interval_secs: u64)
    ensures
        ({
            let secs = match s.actual_interval_ms {
                Some(ms) => Number::over(Number::whole(ms as int), Number::whole(1000)),
                None => if interval_secs <= u32::MAX {
                    Number::whole(interval_secs as int)
                } else {
                    Number::whole(u32::MAX as int)
                },
            };
            &&& s.network@.len() == 1 ==> {
                let n = s.network@[0];
                &&& shown(s, interval_secs, 16) == decimal(
                    Number::times(n.rx_bytes_per_sec@, secs).whole_part() as nat,
                )
                &&& shown(s, interval_secs, 17) == decimal(
                    Number::times(n.tx_bytes_per_sec@, secs).whole_part() as nat,
                )
            }
            &&& s.disk@.len() == 1 ==> {
                let d = s.disk@[0];
                &&& shown(s, interval_secs, 11) == decimal(
                    Number::times(d.read_bytes_per_sec@, secs).whole_part() as nat,
                )
                &&& shown(s, interval_secs, 12) == decimal(
                    Number::times(d.write_bytes_per_sec@, secs).whole_part() as nat,
                )
            }
        }),
{
    lemma_shown(s, interval_secs);
    reveal_with_fuel(net_recv_bytes, 2);
    reveal_with_fuel(net_sent_bytes, 2);
    reveal_with_fuel(disk_read_bytes, 2);
    reveal_with_fuel(disk_write_bytes, 2);
}

proof fn lemma_network_adds(a: Seq<NetworkMetrics>, b: Seq<NetworkMetrics>, secs: Number)
    ensures
        net_recv_bytes(a + b, secs) == net_recv_bytes(a, secs) + net_recv_bytes(b, secs),
        net_sent_bytes(a + b, secs) == net_sent_bytes(a, secs) + net_sent_bytes(b, secs),
        net_recv_bytes(b, secs) >= 0,
        net_sent_bytes(b, secs) >= 0,
    decreases b.len(),
{
    if b.len() == 0 {
        assert(a + b =~= a);
    } else {
        assert((a + b).drop_last() =~= a + b.drop_last());
        lemma_network_adds(a, b.drop_last(), secs);
        lemma_whole_part_not_negative(Number::times(b.last().rx_bytes_per_sec@, secs));
        lemma_whole_part_not_negative(Number::times(b.last().tx_bytes_per_sec@, secs));
    }
}

proof fn lemma_disks_add(a: Seq<DiskMetrics>, b: Seq<DiskMetrics>, secs: Number)
    ensures
        disk_read_bytes(a + b, secs) == disk_read_bytes(a, secs) + disk_read_bytes(b, secs),
        disk_write_bytes(a + b, secs) == disk_write_bytes(a, secs) + disk_write_bytes(b, secs),
        disk_read_bytes(b, secs) >= 0,
        disk_write_bytes(b, secs) >= 0,
    decreases b.len(),
{
    if b.len() == 0 {
        assert(a + b =~= a);
    } else {
        assert((a + b).drop_last() =~= a + b.drop_last());
        lemma_disks_add(a, b.drop_last(), secs);
        lemma_whole_part_not_negative(Number::times(b.last().read_bytes_per_sec@, secs));
        lemma_whole_part_not_negative(Number::times(b.last().write_bytes_per_sec@, secs));
    }
}

proof fn lemma_whole_part_not_negative(x: Number)
    ensures
        x.whole_part() >= 0,
{
    crate::number::lemma_zero_steps(x);
    crate::power::lemma_pow2_positive(1074);
    vstd::arithmetic::div_mod::lemma_div_pos_is_pos(x.steps(), crate::power::pow2(1074) as int);
}

proof fn lemma_traffic_cells(s: Sample, interval_secs: u64)
    ensures
        ({
            let secs = interval_length(s.actual_interval_ms, interval_secs);
            &&& shown(s, interval_secs, 11) == decimal(disk_read_bytes(s.disk@, secs) as nat)
            &&& shown(s, interval_secs, 12) == decimal(disk_write_bytes(s.disk@, secs) as nat)
            &&& shown(s, interval_secs, 16) == decimal(net_recv_bytes(s.network@, secs) as nat)
            &&& shown(s, interval_secs, 17) == decimal(net_sent_bytes(s.network@, secs) as nat)
        }),
{
    lemma_shown(s, interval_secs);
}

/// Traffic adds up: the interfaces and disks of two samples together show the sum
/// of what they show apart.
pub proof fn lemma_traffic_adds_up(whole: Sample, one: Sample, other: Sample, interval_secs: u64)
    requires
        one.actual_interval_ms == whole.actual_interval_ms,
        other.actual_interval_ms == whole.actual_interval_ms,
        whole.network@ == one.network@ + other.network@,
        whole.disk@ == one.disk@ + other.disk@,
    ensures
        digits_value(shown(whole, interval_secs, 11)) == digits_value(
            shown(one, interval_secs, 11),
        ) + digits_value(shown(other, interval_secs, 11)),
        digits_value(shown(whole, interval_secs, 12)) == digits_value(
            shown(one, interval_secs, 12),
        ) + digits_value(shown(other, interval_secs, 12)),
        digits_value(shown(whole, interval_secs, 16)) == digits_value(
            shown(one, interval_secs, 16),
        ) + digits_value(shown(other, interval_secs, 16)),
        digits_value(shown(whole, interval_secs, 17)) == digits_value(
            shown(one, interval_secs, 17),
        ) + digits_value(shown(other, interval_secs, 17)),
{
    let secs = interval_length(whole.actual_interval_ms, interval_secs);
    lemma_traffic_cells(whole, interval_secs);
    lemma_traffic_cells(one, interval_secs);
    lemma_traffic_cells(other, interval_secs);
    let none_n = Seq::<NetworkMetrics>::empty();
    let none_d = Seq::<DiskMetrics>::empty();
    lemma_network_adds(one.network@, other.network@, secs);
    lemma_network_adds(none_n, one.network@, secs);
    lemma_disks_add(one.disk@, other.disk@, secs);
    lemma_disks_add(none_d, one.disk@, secs);
    lemma_decimals(disk_read_bytes(one.disk@, secs), disk_read_bytes(other.disk@, secs));
    lemma_decimals(disk_write_bytes(one.disk@, secs), disk_write_bytes(other.disk@, secs));
    lemma_decimals(net_recv_bytes(one.network@, secs), net_recv_bytes(other.network@, secs));
    lemma_decimals(net_sent_bytes(one.network@, secs), net_sent_bytes(other.network@, secs));
}

proof fn lemma_decimals(a: int, b: int)
    requires
        a >= 0,
        b >= 0,
    ensures
        digits_value(decimal((a + b) as nat)) == digits_value(decimal(a as nat)) + digits_value(
            decimal(b as nat),
        ),
{
    crate::text::lemma_decimal_value(a as nat);
    crate::text::lemma_decimal_value(b as nat);
    crate::text::lemma_decimal_value((a + b) as nat);
}

/// Without interfaces and disks there is no traffic.
pub proof fn lemma_no_devices_no_traffic(s: Sample, interval_secs: u64)
    ensures
        s.network@.len() == 0 ==> digits_value(shown(s, interval_secs, 16)) == 0 && digits_value(
            shown(s, interval_secs, 17),
        ) == 0,
        s.disk@.len() == 0 ==> digits_value(shown(s, interval_secs, 11)) == 0 && digits_value(
            shown(s, interval_secs, 12),
        ) == 0,
{
    lemma_shown(s, interval_secs);
    crate::text::lemma_decimal_value(0);
}

// ---------------------------------------------------------------------------
// Disk space
// ---------------------------------------------------------------------------

/// What a sum of sizes starts from; added to anything it changes nothing.
pub open spec fn start() -> Number {
    Number::Finite { negative: true, mantissa: 0, power: 0 }
}

/// A disk with one more mount at the end.
pub open spec fn with_mount(d: DiskMetrics, longer: DiskMetrics, m: DiskMountMetrics) -> bool {
    longer.mounts@ == d.mounts@.push(m)
}

/// Disk space is summed over all mounts of all disks, in units of a thousand
/// million bytes: one more mount adds its size, and what is free on it, to the
/// sums; a disk without mounts adds nothing.
pub proof fn lemma_disk_space_sums(
    disks: Seq<DiskMetrics>,
    d: DiskMetrics,
    longer: DiskMetrics,
    m: DiskMountMetrics,
)
    ensures
        disk_space(Seq::empty(), false) == start(),
        disk_space(Seq::empty(), true) == start(),
        d.mounts@.len() == 0 ==> disk_space(disks.push(d), false) == disk_space(disks, false)
            && disk_space(disks.push(d), true) == disk_space(disks, true),
        with_mount(d, longer, m) ==> disk_space(disks.push(longer), false) == Number::plus(
            disk_space(disks.push(d), false),
            Number::over(Number::whole(m.total_bytes as int), Number::whole(1_000_000_000)),
        ),
        with_mount(d, longer, m) ==> disk_space(disks.push(longer), true) == Number::plus(
            disk_space(disks.push(d), true),
            Number::over(Number::whole(m.available_bytes as int), Number::whole(1_000_000_000)),
        ),
{
    assert(disks.push(d).drop_last() =~= disks);
    assert(disks.push(longer).drop_last() =~= disks);
    if with_mount(d, longer, m) {
        assert(longer.mounts@.drop_last() =~= d.mounts@);
    }
}

/// The columns of disk space show the sizes of all mounts, what is free of it, and
/// the difference of the two.
pub proof fn lemma_disk_space_columns(s: Sample, interval_secs: u64)
    ensures
        name_of(13) == "system_disk_space_total_gb"@ && shown(s, interval_secs, 13) == disk_space(
            s.disk@,
            false,
        ).fixed_text(6),
        name_of(14) == "system_disk_space_used_gb"@ && shown(s, interval_secs, 14) == Number::less(
            disk_space(s.disk@, false),
            disk_space(s.disk@, true),
        ).fixed_text(6),
        name_of(15) == "system_disk_space_free_gb"@ && shown(s, interval_secs, 15) == disk_space(
            s.disk@,
            true,
        ).fixed_text(6),
{
    lemma_shown(s, interval_secs);
}

proof fn lemma_start_changes_nothing(n: int)
    requires
        0 <= n < MANTISSA_END,
    ensures
        Number::plus(start(), Number::whole(n)) == Number::whole(n),
{
    crate::number::lemma_small_whole_is_exact(n);
    let one = crate::power::pow2(1074) as int;
    crate::power::lemma_pow2_positive(1074);
    assert(0 * crate::power::pow2(0) == 0) by (nonlinear_arith);
    assert(n * one >= 0 && (n * one == 0 ==> n == 0)) by (nonlinear_arith)
        requires
            n >= 0,
            one > 0,
    ;
    if n == 0 {
        crate::power::lemma_pow2_values();
        crate::order::lemma_whole_finite(0, 12);
    }
}

/// A single mount of `t` gigabytes with `f` of them free shows `t`, `t - f` and
/// `f`.
pub proof fn lemma_one_mount(s: Sample, interval_secs: u64, t: int, f: int)
    requires
        s.disk@.len() == 1,
        s.disk@[0].mounts@.len() == 1,
        s.disk@[0].mounts@[0].total_bytes == t * 1_000_000_000,
        s.disk@[0].mounts@[0].available_bytes == f * 1_000_000_000,
        0 <= f <= t,
        t * 1_000_000_000 < MANTISSA_END,
    ensures
        shown(s, interval_secs, 13) == Number::whole(t).fixed_text(6),
        shown(s, interval_secs, 14) == Number::whole(t - f).fixed_text(6),
        shown(s, interval_secs, 15) == Number::whole(f).fixed_text(6),
{
    lemma_shown(s, interval_secs);
    crate::order::lemma_even_quotient(t, 1_000_000_000);
    crate::order::lemma_even_quotient(f, 1_000_000_000);
    lemma_start_changes_nothing(t);
    lemma_start_changes_nothing(f);
    crate::order::lemma_whole_difference(t, f);
    reveal_with_fuel(disk_space, 2);
    reveal_with_fuel(crate::csv::add_mounts, 2);
}

// ---------------------------------------------------------------------------
// GPUs
// ---------------------------------------------------------------------------

/// One more GPU adds its share of a GPU in use and its memory in MiB to the sums.
pub proof fn lemma_gpu_sums(gpus: Seq<GpuMetrics>, g: GpuMetrics)
    ensures
        gpu_usage(Seq::empty()) == start(),
        gpu_vram(Seq::empty()) == start(),
        gpu_usage(gpus.push(g)) == Number::plus(
            gpu_usage(gpus),
            Number::over(g.utilization_pct@, Number::whole(100)),
        ),
        gpu_vram(gpus.push(g)) == Number::plus(
            gpu_vram(gpus),
            Number::over(Number::whole(g.vram_used_bytes as int), Number::whole(1_048_576)),
        ),
{
    assert(gpus.push(g).drop_last() =~= gpus);
}

/// GPUs count as in use when their utilization is above zero.
pub proof fn lemma_gpus_in_use(gpus: Seq<GpuMetrics>)
    ensures
        gpus_in_use(gpus) == gpus.filter(|g: GpuMetrics| g.utilization_pct@.above_zero()).len(),
    decreases gpus.len(),
{
    let busy = |g: GpuMetrics| g.utilization_pct@.above_zero();
    reveal(Seq::filter);
    if gpus.len() > 0 {
        lemma_gpus_in_use(gpus.drop_last());
    }
}

/// The columns of the GPUs show the sums and the count.
pub proof fn lemma_gpu_columns(s: Sample, interval_secs: u64)
    requires
        s.gpu@.len() <= u32::MAX,
    ensures
        name_of(18) == "system_gpu_usage"@ && shown(s, interval_secs, 18) == gpu_usage(
            s.gpu@,
        ).fixed_text(4),
        name_of(19) == "system_gpu_vram_mib"@ && shown(s, interval_secs, 19) == gpu_vram(
            s.gpu@,
        ).fixed_text(4),
        name_of(20) == "system_gpu_utilized"@ && digits_value(shown(s, interval_secs, 20))
            == s.gpu@.filter(|g: GpuMetrics| g.utilization_pct@.above_zero()).len(),
{
    lemma_shown(s, interval_secs);
    lemma_gpus_in_use(s.gpu@);
    let busy = |g: GpuMetrics| g.utilization_pct@.above_zero();
    s.gpu@.lemma_filter_len(busy);
    crate::text::lemma_decimal_value(s.gpu@.filter(busy).len());
}

proof fn lemma_busy_gpus(gpus: Seq<GpuMetrics>, mib: int)
    requires
        0 < gpus.len() < MANTISSA_END,
        0 <= mib,
        mib * 1_048_576 < MANTISSA_END,
        mib * gpus.len() < MANTISSA_END,
        forall|i: int|
            0 <= i < gpus.len() ==> (#[trigger] gpus[i]).utilization_pct@ == Number::whole(100)
                && gpus[i].vram_used_bytes == mib * 1_048_576,
    ensures
        gpu_usage(gpus) == Number::whole(gpus.len() as int),
        gpu_vram(gpus) == Number::whole(mib * gpus.len()),
    decreases gpus.len(),
{
    let n = gpus.len() as int;
    let front = gpus.drop_last();
    assert(gpus[n - 1].utilization_pct@ == Number::whole(100));
    crate::order::lemma_even_quotient(1, 100);
    crate::order::lemma_even_quotient(mib, 1_048_576);
    if n == 1 {
        lemma_start_changes_nothing(1);
        lemma_start_changes_nothing(mib);
        reveal_with_fuel(gpu_usage, 2);
        reveal_with_fuel(gpu_vram, 2);
        assert(mib * 1 == mib) by (nonlinear_arith);
    } else {
        assert forall|i: int| 0 <= i < front.len() implies (
        #[trigger] front[i]).utilization_pct@ == Number::whole(100) && front[i].vram_used_bytes
            == mib * 1_048_576 by {
            assert(front[i] == gpus[i]);
        }
        assert(0 <= mib * (n - 1) && mib * (n - 1) + mib == mib * n) by (nonlinear_arith)
            requires
                mib >= 0,
                n >= 1,
        ;
        lemma_busy_gpus(front, mib);
        crate::order::lemma_whole_sum(n - 1, 1);
        crate::order::lemma_whole_sum(mib * (n - 1), mib);
    }
}

/// GPUs that are fully used, with as many MiB in use on each, show as many GPUs and
/// as many MiB as there are in all.
pub proof fn lemma_fully_used_gpus(s: Sample, interval_secs: u64, mib: int)
    requires
        0 < s.gpu@.len() <= u32::MAX,
        0 <= mib,
        mib * 1_048_576 < MANTISSA_END,
        mib * s.gpu@.len() < MANTISSA_END,
        forall|i: int|
            0 <= i < s.gpu@.len() ==> (#[trigger] s.gpu@[i]).utilization_pct@ == Number::whole(100)
                && s.gpu@[i].vram_used_bytes == mib * 1_048_576,
    ensures
        shown(s, interval_secs, 18) == Number::whole(s.gpu@.len() as int).fixed_text(4),
        shown(s, interval_secs, 19) == Number::whole(mib * s.gpu@.len()).fixed_text(4),
{
    lemma_shown(s, interval_secs);
    lemma_busy_gpus(s.gpu@, mib);
}

// ---------------------------------------------------------------------------
// Reports
// ---------------------------------------------------------------------------

/// A report has a header and one line per sample, in the order of the samples, and
/// each line is the row of its sample.
pub proof fn lemma_report_rows(samples: Seq<Sample>, interval_secs: u64)
    ensures
        ({
            let lines = pieces(report(samples, interval_secs), '\n');
            &&& lines.len() == samples.len() + 2
            &&& lines[0] == CSV_HEADER@
            &&& lines.last().len() == 0
            &&& forall|i: int|
                0 <= i < samples.len() ==> #[trigger] lines[i + 1] == joined(
                    row_cells(samples[i], interval_secs),
                    ',',
                )
        }),
{
    crate::csv::lemma_report_lines(samples, interval_secs);
}

} // verus!
