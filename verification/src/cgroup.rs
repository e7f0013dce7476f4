//! CPU accounting and CPU limits of the control group the tracker runs in.
//!
//! The kernel publishes both as small text files.  What the files say is decided
//! here, from their contents; a file that could not be read has no contents.

use crate::number::Number;
use crate::numeral::read_numeral;
use crate::text::{
    contains_text, has_at, parse_signed, parse_unsigned, same_text, slice_chars, split_at,
    split_words, to_chars, trim_chars,
};
use vstd::prelude::*;

verus! {

/// Unified hierarchy: accounting, with the line `usage_usec`.
pub const CPU_STAT_PATH: &'static str = "/sys/fs/cgroup/cpu.stat";

/// Unified hierarchy: quota and period.
pub const CPU_MAX_PATH: &'static str = "/sys/fs/cgroup/cpu.max";

/// Which CPU accounting source is available for system-level utilization.
#[derive(Debug, Clone, Copy, PartialEq, Eq, Structural)]
pub enum CpuSource {
    /// Unified hierarchy: `usage_usec` in `cpu.stat`.
    CgroupV2,
    /// `cpuacct` controller: nanoseconds in `cpuacct.usage`.
    CgroupV1,
    /// No control group: only `/proc/stat`.
    ProcStat,
}

impl CpuSource {
    /// Whether a control group does the accounting.
    pub open spec fn spec_is_cgroup(self) -> bool {
        self != CpuSource::ProcStat
    }

    /// Whether a control group does the accounting.
    pub fn is_cgroup(self) -> (r: bool)
        ensures
            r == self.spec_is_cgroup(),
    {
        match self {
            CpuSource::ProcStat => false,
            _ => true,
        }
    }
}

/// Effective CPU limit from the scheduler's quota.
#[derive(Debug, Clone, Copy, PartialEq, Eq, Structural)]
pub struct CfsQuota {
    /// Most cores that may be in use at a time, on average; `None` is unlimited.
    pub max_cores: Option<Number>,
}

impl CfsQuota {
    /// The limit, if there is one, is a number.
    pub open spec fn wf(self) -> bool {
        self.max_cores matches Some(q) ==> q.wf()
    }
}

/// The files that say how much of the machine the control group may use, as far
/// as they could be read.
#[derive(Debug, Clone)]
pub struct CgroupFiles {
    /// `cpu.stat` of the unified hierarchy.
    pub cpu_stat: Option<String>,
    /// `cpu.max` of the unified hierarchy.
    pub cpu_max: Option<String>,
    /// `cpuacct.usage` at each place where it may be.
    pub cpuacct_usage: Vec<Option<String>>,
    /// `cpu.cfs_quota_us` and `cpu.cfs_period_us` at each place where they may be.
    pub cfs: Vec<(Option<String>, Option<String>)>,
}

impl CgroupFiles {
    /// The best accounting source that the files show.
    pub open spec fn source(&self) -> CpuSource {
        best_source(contents(self.cpu_stat), all_contents(self.cpuacct_usage@))
    }

    /// The core limit that the files set.
    pub open spec fn limit(&self) -> Option<Number> {
        core_limit(
            contents(self.cpu_max),
            self.cfs@.map_values(
                |f: (Option<String>, Option<String>)| (contents(f.0), contents(f.1)),
            ),
        )
    }
}

/// What each of several files holds.
pub open spec fn all_contents(files: Seq<Option<String>>) -> Seq<Option<Seq<char>>> {
    files.map_values(|f: Option<String>| contents(f))
}

/// What a file holds, if it could be read.
pub open spec fn contents(file: Option<String>) -> Option<Seq<char>> {
    match file {
        Some(text) => Some(text@),
        None => None,
    }
}

/// Where the `cpuacct` controller may be mounted, in order of preference.
pub fn cpuacct_usage_paths() -> (r: Vec<&'static str>)
    ensures
        r@.map_values(|p: &'static str| p@) == seq![
            "/sys/fs/cgroup/cpuacct/cpuacct.usage"@,
            "/sys/fs/cgroup/cpu,cpuacct/cpuacct.usage"@,
            "/sys/fs/cgroup/cpu/cpuacct.usage"@,
        ],
{
    let r: Vec<&'static str> = vec![
        "/sys/fs/cgroup/cpuacct/cpuacct.usage",
        "/sys/fs/cgroup/cpu,cpuacct/cpuacct.usage",
        "/sys/fs/cgroup/cpu/cpuacct.usage",
    ];
    assert(r@.map_values(|p: &'static str| p@) =~= seq![
        "/sys/fs/cgroup/cpuacct/cpuacct.usage"@,
        "/sys/fs/cgroup/cpu,cpuacct/cpuacct.usage"@,
        "/sys/fs/cgroup/cpu/cpuacct.usage"@,
    ]);
    r
}

/// Where the `cpu` controller may keep its quota and its period, in order of
/// preference.
pub fn cfs_quota_paths() -> (r: Vec<(&'static str, &'static str)>)
    ensures
        r@.map_values(|p: (&'static str, &'static str)| (p.0@, p.1@)) == seq![
            ("/sys/fs/cgroup/cpu/cpu.cfs_quota_us"@, "/sys/fs/cgroup/cpu/cpu.cfs_period_us"@),
            (
                "/sys/fs/cgroup/cpu,cpuacct/cpu.cfs_quota_us"@,
                "/sys/fs/cgroup/cpu,cpuacct/cpu.cfs_period_us"@,
            ),
            (
                "/sys/fs/cgroup/cpuacct/cpu.cfs_quota_us"@,
                "/sys/fs/cgroup/cpuacct/cpu.cfs_period_us"@,
            ),
        ],
{
    let r: Vec<(&'static str, &'static str)> = vec![
        ("/sys/fs/cgroup/cpu/cpu.cfs_quota_us", "/sys/fs/cgroup/cpu/cpu.cfs_period_us"),
        (
            "/sys/fs/cgroup/cpu,cpuacct/cpu.cfs_quota_us",
            "/sys/fs/cgroup/cpu,cpuacct/cpu.cfs_period_us",
        ),
        ("/sys/fs/cgroup/cpuacct/cpu.cfs_quota_us", "/sys/fs/cgroup/cpuacct/cpu.cfs_period_us"),
    ];
    assert(r@.map_values(|p: (&'static str, &'static str)| (p.0@, p.1@)) =~= seq![
        ("/sys/fs/cgroup/cpu/cpu.cfs_quota_us"@, "/sys/fs/cgroup/cpu/cpu.cfs_period_us"@),
        (
            "/sys/fs/cgroup/cpu,cpuacct/cpu.cfs_quota_us"@,
            "/sys/fs/cgroup/cpu,cpuacct/cpu.cfs_period_us"@,
        ),
        ("/sys/fs/cgroup/cpuacct/cpu.cfs_quota_us"@, "/sys/fs/cgroup/cpuacct/cpu.cfs_period_us"@),
    ]);
    r
}

// ---------------------------------------------------------------------------
// The accounting source
// ---------------------------------------------------------------------------

/// The best source that the files show: the unified hierarchy before the
/// `cpuacct` controller before `/proc/stat`.
pub open spec fn best_source(
    cpu_stat: Option<Seq<char>>,
    cpuacct_usage: Seq<Option<Seq<char>>>,
) -> CpuSource {
    if cpu_stat matches Some(text) && crate::text::occurs_in(text, "usage_usec"@) {
        CpuSource::CgroupV2
    } else if exists|i: int| 0 <= i < cpuacct_usage.len() && (#[trigger] cpuacct_usage[i]) is Some {
        CpuSource::CgroupV1
    } else {
        CpuSource::ProcStat
    }
}

/// Detects the best available CPU accounting source from the contents of
/// `cpu.stat` and of the `cpuacct.usage` files.
pub fn detect_cpu_source(
    cpu_stat: &Option<String>,
    cpuacct_usage: &Vec<Option<String>>,
) -> (r: CpuSource)
    ensures
        r == best_source(
            contents(*cpu_stat),
            all_contents(cpuacct_usage@),
        ),
{
    if let Some(text) = cpu_stat {
        if contains_text(&to_chars(text.as_str()), &to_chars("usage_usec")) {
            return CpuSource::CgroupV2;
        }
    }
    let ghost files = all_contents(cpuacct_usage@);
    let mut i: usize = 0;
    while i < cpuacct_usage.len()
        invariant
            i <= cpuacct_usage@.len(),
            files == all_contents(cpuacct_usage@),
            forall|k: int| 0 <= k < i ==> (#[trigger] files[k]) is None,
            !(contents(*cpu_stat) matches Some(text) && crate::text::occurs_in(
                text,
                "usage_usec"@,
            )),
        decreases cpuacct_usage@.len() - i,
    {
        if cpuacct_usage[i].is_some() {
            assert(files[i as int] is Some);
            return CpuSource::CgroupV1;
        }
        i += 1;
    }
    CpuSource::ProcStat
}

// ---------------------------------------------------------------------------
// The quota
// ---------------------------------------------------------------------------

/// The limit that `cpu.max` sets: two words, of which the first is a quota and
/// not `max`, and the second a positive period.
pub open spec fn max_limit(text: Seq<char>) -> Option<Number> {
    let parts = crate::text::words(text);
    if parts.len() == 2 && parts[0] != "max"@ {
        match (crate::numeral::numeral(parts[0]), crate::numeral::numeral(parts[1])) {
            (Some(quota), Some(period)) => if period.above_zero() {
                Some(Number::over(quota, period))
            } else {
                None
            },
            _ => None,
        }
    } else {
        None
    }
}

/// The limit that a pair of `cpu.cfs_quota_us` and `cpu.cfs_period_us` sets: both
/// whole numbers, both positive.
pub open spec fn cfs_limit(quota: Option<Seq<char>>, period: Option<Seq<char>>) -> Option<Number> {
    match (quota, period) {
        (Some(q), Some(p)) => match (
            crate::text::signed_number(crate::text::trimmed(q)),
            crate::text::signed_number(crate::text::trimmed(p)),
        ) {
            (Some(q), Some(p)) => if q > 0 && p > 0 {
                Some(Number::over(Number::whole(q), Number::whole(p)))
            } else {
                None
            },
            _ => None,
        },
        _ => None,
    }
}

/// The first limit that one of the pairs sets.
pub open spec fn first_cfs_limit(
    files: Seq<(Option<Seq<char>>, Option<Seq<char>>)>,
) -> Option<Number>
    decreases files.len(),
{
    if files.len() == 0 {
        None
    } else {
        match cfs_limit(files[0].0, files[0].1) {
            Some(limit) => Some(limit),
            None => first_cfs_limit(files.drop_first()),
        }
    }
}

/// The limit that the files set: `cpu.max` first, then the pairs in order.
pub open spec fn core_limit(
    cpu_max: Option<Seq<char>>,
    cfs: Seq<(Option<Seq<char>>, Option<Seq<char>>)>,
) -> Option<Number> {
    match cpu_max {
        Some(text) => match max_limit(text) {
            Some(limit) => Some(limit),
            None => first_cfs_limit(cfs),
        },
        None => first_cfs_limit(cfs),
    }
}

/// The limit that the contents of `cpu.max` set.
fn read_max_limit(text: &String) -> (r: Option<Number>)
    ensures
        r == max_limit(text@),
        r matches Some(q) ==> q.wf(),
{
    let parts: Vec<Vec<char>> = split_words(&to_chars(text.as_str()));
    let ghost texts = parts@.map_values(|p: Vec<char>| p@);
    if parts.len() != 2 {
        return None;
    }
    assert(texts[0] == parts@[0]@ && texts[1] == parts@[1]@);
    if same_text(&parts[0], &to_chars("max")) {
        return None;
    }
    match (read_numeral(&parts[0]), read_numeral(&parts[1])) {
        (Some(quota), Some(period)) => {
            if period.is_positive() {
                Some(quota.quotient(period))
            } else {
                None
            }
        },
        _ => None,
    }
}

/// The limit that the contents of a quota file and a period file set.
fn read_cfs_limit(quota: &Option<String>, period: &Option<String>) -> (r: Option<Number>)
    ensures
        r == cfs_limit(contents(*quota), contents(*period)),
        r matches Some(q) ==> q.wf(),
{
    match (quota, period) {
        (Some(q), Some(p)) => {
            let q: Option<i64> = parse_signed(&trim_chars(&to_chars(q.as_str())));
            let p: Option<i64> = parse_signed(&trim_chars(&to_chars(p.as_str())));
            match (q, p) {
                (Some(q), Some(p)) => {
                    if q > 0 && p > 0 {
                        Some(Number::from_u64(q as u64).over_whole(p as u64))
                    } else {
                        None
                    }
                },
                _ => None,
            }
        },
        _ => None,
    }
}

/// Reads the effective core limit from the contents of `cpu.max` and of the pairs
/// of quota and period files.
pub fn detect_cfs_quota(
    cpu_max: &Option<String>,
    cfs: &Vec<(Option<String>, Option<String>)>,
) -> (r: CfsQuota)
    ensures
        r.max_cores == core_limit(
            contents(*cpu_max),
            cfs@.map_values(
                |f: (Option<String>, Option<String>)| (contents(f.0), contents(f.1)),
            ),
        ),
        r.wf(),
{
    if let Some(text) = cpu_max {
        let limit: Option<Number> = read_max_limit(text);
        if limit.is_some() {
            return CfsQuota { max_cores: limit };
        }
    }
    let ghost files = cfs@.map_values(
        |f: (Option<String>, Option<String>)| (contents(f.0), contents(f.1)),
    );
    let mut i: usize = 0;
    assert(files.skip(0) =~= files);
    while i < cfs.len()
        invariant
            i <= cfs@.len(),
            files == cfs@.map_values(
                |f: (Option<String>, Option<String>)| (contents(f.0), contents(f.1)),
            ),
            core_limit(contents(*cpu_max), files) == first_cfs_limit(files),
            first_cfs_limit(files) == first_cfs_limit(files.skip(i as int)),
        decreases cfs@.len() - i,
    {
        let limit: Option<Number> = read_cfs_limit(&cfs[i].0, &cfs[i].1);
        assert(files.skip(i as int)[0] == files[i as int]);
        assert(files.skip(i as int).drop_first() =~= files.skip(i + 1));
        if limit.is_some() {
            return CfsQuota { max_cores: limit };
        }
        i += 1;
    }
    CfsQuota { max_cores: None }
}

/// The cores that are there to use: all of them, or as many as the quota allows
/// if that is fewer.
pub open spec fn cores_within(physical: int, limit: Option<Number>) -> Number {
    match limit {
        Some(q) => Number::whole(physical).lesser(q),
        None => Number::whole(physical),
    }
}

/// There are never more cores to use than the machine has, or than the quota
/// allows if it is a number.
pub proof fn lemma_cores_within(physical: usize, limit: Option<Number>)
    ensures
        cores_within(physical as int, limit).at_most(Number::whole(physical as int)),
        limit matches Some(q) ==> q is NotANumber || cores_within(physical as int, limit).at_most(
            q,
        ),
{
    crate::order::lemma_whole_is_number(physical as int);
    if let Some(q) = limit {
        crate::order::lemma_lesser(Number::whole(physical as int), q);
    }
}

/// A limit as the kernel writes it, two whole numbers on a line, is their quotient.
pub proof fn lemma_limit_as_written(quota: u64, period: u64)
    requires
        period > 0,
    ensures
        max_limit(
            (crate::text::decimal(quota as nat).push(' ') + crate::text::decimal(
                period as nat,
            )).push('\n'),
        ) == Some(
            Number::over(Number::whole(quota as int), Number::whole(period as int)),
        ),
{
    let q = crate::text::decimal(quota as nat);
    let p = crate::text::decimal(period as nat);
    let text = (q.push(' ') + p).push('\n');
    crate::text::lemma_decimal_digits(quota as nat);
    crate::text::lemma_decimal_digits(period as nat);
    assert forall|i: int| 0 <= i < q.len() implies !crate::text::is_space(#[trigger] q[i]) by {
        assert(crate::text::is_digit(q[i]));
    }
    assert forall|i: int| 0 <= i < p.len() implies !crate::text::is_space(#[trigger] p[i]) by {
        assert(crate::text::is_digit(p[i]));
    }
    let none = Seq::<char>::empty();
    crate::text::lemma_words_of_longer(none, q);
    assert(none + q =~= q);
    assert(q.push(' ').drop_last() =~= q);
    assert(crate::text::words(q.push(' ')) =~= seq![q]);
    crate::text::lemma_words_of_longer(q.push(' '), p);
    assert(text.drop_last() =~= q.push(' ') + p);
    assert(crate::text::words(text) =~= seq![q, p]);
    reveal_strlit("max");
    assert(crate::text::is_digit(q[0]) && "max"@[0] == 'm');
    crate::numeral::lemma_whole_numeral(quota as nat);
    crate::numeral::lemma_whole_numeral(period as nat);
    crate::order::lemma_whole_above_zero(period as int);
}

/// The cores that are there to use.
pub fn effective_cores(physical_cores: usize, quota: &CfsQuota) -> (r: Number)
    requires
        quota.wf(),
    ensures
        r == cores_within(physical_cores as int, quota.max_cores),
        r.wf(),
{
    let all: Number = Number::from_u64(physical_cores as u64);
    match quota.max_cores {
        Some(q) => all.min(q),
        None => all,
    }
}

// ---------------------------------------------------------------------------
// The usage
// ---------------------------------------------------------------------------

/// The first of `lines` that starts with `key` decides: the number that follows
/// is the value.
pub open spec fn keyed_value(lines: Seq<Seq<char>>, key: Seq<char>) -> Option<int>
    decreases lines.len(),
{
    if lines.len() == 0 {
        None
    } else if crate::text::stands_at(lines[0], key, 0) {
        crate::text::unsigned_number(crate::text::trimmed(lines[0].skip(key.len() as int)))
    } else {
        keyed_value(lines.drop_first(), key)
    }
}

/// The microseconds that `cpu.stat` reports.
pub open spec fn usage_usec(cpu_stat: Option<Seq<char>>) -> Option<int> {
    match cpu_stat {
        Some(text) => keyed_value(crate::text::pieces(text, '\n'), "usage_usec "@),
        None => None,
    }
}

/// The nanoseconds that the first readable `cpuacct.usage` file reports.
pub open spec fn usage_ns(files: Seq<Option<Seq<char>>>) -> Option<int>
    decreases files.len(),
{
    if files.len() == 0 {
        None
    } else {
        let first = match files[0] {
            Some(text) => crate::text::unsigned_number(crate::text::trimmed(text)),
            None => None,
        };
        match first {
            Some(n) => Some(n),
            None => usage_ns(files.drop_first()),
        }
    }
}

/// The CPU time that the group has used, in seconds.
pub open spec fn usage_secs(
    source: CpuSource,
    cpu_stat: Option<Seq<char>>,
    cpuacct_usage: Seq<Option<Seq<char>>>,
) -> Option<Number> {
    match source {
        CpuSource::CgroupV2 => match usage_usec(cpu_stat) {
            Some(usec) => Some(Number::over(Number::whole(usec), Number::whole(1_000_000))),
            None => None,
        },
        CpuSource::CgroupV1 => match usage_ns(cpuacct_usage) {
            Some(ns) => Some(Number::over(Number::whole(ns), Number::whole(1_000_000_000))),
            None => None,
        },
        CpuSource::ProcStat => None,
    }
}

/// Reads `usage_usec` from the contents of `cpu.stat` (microseconds, cumulative).
pub fn read_cgroupv2_usage_usec(cpu_stat: &Option<String>) -> (r: Option<u64>)
    ensures
        match r {
            Some(n) => usage_usec(contents(*cpu_stat)) == Some(n as int),
            None => usage_usec(contents(*cpu_stat)) is None,
        },
{
    let text: &String = match cpu_stat {
        Some(text) => text,
        None => return None,
    };
    let lines: Vec<Vec<char>> = split_at(&to_chars(text.as_str()), '\n');
    let key: Vec<char> = to_chars("usage_usec ");
    let ghost texts = lines@.map_values(|p: Vec<char>| p@);
    let mut i: usize = 0;
    assert(texts.skip(0) =~= texts);
    while i < lines.len()
        invariant
            i <= lines@.len(),
            texts == lines@.map_values(|p: Vec<char>| p@),
            key@ == "usage_usec "@,
            contents(*cpu_stat) is Some,
            usage_usec(contents(*cpu_stat)) == keyed_value(texts, key@),
            keyed_value(texts, key@) == keyed_value(texts.skip(i as int), key@),
        decreases lines@.len() - i,
    {
        let line: &Vec<char> = &lines[i];
        assert(texts.skip(i as int)[0] == line@);
        assert(texts.skip(i as int).drop_first() =~= texts.skip(i + 1));
        if has_at(line, &key, 0) {
            let value: Vec<char> = slice_chars(line, key.len(), line.len());
            assert(value@ =~= line@.skip(key@.len() as int));
            return parse_unsigned(&trim_chars(&value));
        }
        i += 1;
    }
    None
}

/// Reads the first `cpuacct.usage` file that holds a number (nanoseconds,
/// cumulative).
pub fn read_cgroupv1_usage_ns(cpuacct_usage: &Vec<Option<String>>) -> (r: Option<u64>)
    ensures
        ({
            let files = all_contents(cpuacct_usage@);
            match r {
                Some(n) => usage_ns(files) == Some(n as int),
                None => usage_ns(files) is None,
            }
        }),
{
    let ghost files = all_contents(cpuacct_usage@);
    let mut i: usize = 0;
    assert(files.skip(0) =~= files);
    while i < cpuacct_usage.len()
        invariant
            i <= cpuacct_usage@.len(),
            files == all_contents(cpuacct_usage@),
            usage_ns(files) == usage_ns(files.skip(i as int)),
        decreases cpuacct_usage@.len() - i,
    {
        assert(files.skip(i as int)[0] == contents(cpuacct_usage@[i as int]));
        assert(files.skip(i as int).drop_first() =~= files.skip(i + 1));
        if let Some(text) = &cpuacct_usage[i] {
            let value: Option<u64> = parse_unsigned(&trim_chars(&to_chars(text.as_str())));
            if value.is_some() {
                return value;
            }
        }
        i += 1;
    }
    None
}

/// Reads the CPU time that the group has used so far, in seconds, from the files of
/// the detected source.  `None` without a control group, or where the files hold no
/// number.
pub fn read_cgroup_usage_secs(
    source: CpuSource,
    cpu_stat: &Option<String>,
    cpuacct_usage: &Vec<Option<String>>,
) -> (r: Option<Number>)
    ensures
        r == usage_secs(source, contents(*cpu_stat), all_contents(cpuacct_usage@)),
        r matches Some(secs) ==> secs.wf(),
{
    match source {
        CpuSource::CgroupV2 => match read_cgroupv2_usage_usec(cpu_stat) {
            Some(usec) => Some(Number::from_u64(usec).over_whole(1_000_000)),
            None => None,
        },
        CpuSource::CgroupV1 => match read_cgroupv1_usage_ns(cpuacct_usage) {
            Some(ns) => Some(Number::from_u64(ns).over_whole(1_000_000_000)),
            None => None,
        },
        CpuSource::ProcStat => None,
    }
}

/// Whatever the files say, the seconds are a double in its one form.
pub proof fn lemma_usage_secs_wf(
    source: CpuSource,
    cpu_stat: Option<Seq<char>>,
    cpuacct_usage: Seq<Option<Seq<char>>>,
)
    ensures
        usage_secs(source, cpu_stat, cpuacct_usage) matches Some(secs) ==> secs.wf(),
{
    if let Some(usec) = usage_usec(cpu_stat) {
        crate::number::lemma_over_wf(Number::whole(usec), Number::whole(1_000_000));
    }
    if let Some(ns) = usage_ns(cpuacct_usage) {
        crate::number::lemma_over_wf(Number::whole(ns), Number::whole(1_000_000_000));
    }
}

} // verus!
