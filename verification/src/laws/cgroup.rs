//! What the files of a control group say.

use crate::cgroup::{
    best_source, cfs_limit, core_limit, cores_within, first_cfs_limit, keyed_value, max_limit,
    usage_secs, CgroupFiles, CpuSource,
};
use crate::number::{Number, MANTISSA_END};
use crate::text::{decimal, is_digit, is_space, joined, trimmed};
use vstd::prelude::*;

verus! {

// ---------------------------------------------------------------------------
// Sources
// ---------------------------------------------------------------------------

/// A `cpu.stat` that mentions `usage_usec` is preferred to anything else; without
/// one, any readable `cpuacct.usage` is; without either, there is no group.
pub proof fn lemma_preferred_source(
    front: Seq<char>,
    back: Seq<char>,
    files: Seq<Option<Seq<char>>>,
    i: int,
)
    ensures
        best_source(Some(front + "usage_usec"@ + back), files) == CpuSource::CgroupV2,
        0 <= i < files.len() && files[i] is Some ==> best_source(None, files)
            == CpuSource::CgroupV1,
        (forall|j: int| 0 <= j < files.len() ==> (#[trigger] files[j]) is None) ==> best_source(
            None,
            files,
        ) == CpuSource::ProcStat,
{
    let text = front + "usage_usec"@ + back;
    let n = front.len() as int;
    assert(text.subrange(n, n + "usage_usec"@.len()) =~= "usage_usec"@);
    assert(crate::text::stands_at(text, "usage_usec"@, n));
}

/// The text of a file, if it could be read.
pub open spec fn text_of(file: Option<String>) -> Option<Seq<char>> {
    match file {
        Some(text) => Some(text@),
        None => None,
    }
}

/// The files of a control group show the source that `cpu.stat` and the
/// `cpuacct.usage` files show, and set the limit that `cpu.max` and the pairs set.
pub proof fn lemma_files_of_a_group(files: CgroupFiles)
    ensures
        files.source() == best_source(
            text_of(files.cpu_stat),
            files.cpuacct_usage@.map_values(|f: Option<String>| text_of(f)),
        ),
        files.limit() == core_limit(
            text_of(files.cpu_max),
            files.cfs@.map_values(
                |f: (Option<String>, Option<String>)| (text_of(f.0), text_of(f.1)),
            ),
        ),
{
    assert(crate::cgroup::all_contents(files.cpuacct_usage@)
        =~= files.cpuacct_usage@.map_values(|f: Option<String>| text_of(f)));
    assert(files.cfs@.map_values(
        |f: (Option<String>, Option<String>)|
            (crate::cgroup::contents(f.0), crate::cgroup::contents(f.1)),
    ) =~= files.cfs@.map_values(
        |f: (Option<String>, Option<String>)| (text_of(f.0), text_of(f.1)),
    ));
}

// ---------------------------------------------------------------------------
// Usage
// ---------------------------------------------------------------------------

/// Digits with white space after them are trimmed to the digits.
proof fn lemma_trimmed_number(n: nat, after: Seq<char>)
    requires
        forall|i: int| 0 <= i < after.len() ==> is_space(#[trigger] after[i]),
    ensures
        trimmed(decimal(n) + after) == decimal(n),
{
    let digits = decimal(n);
    crate::text::lemma_decimal_digits(n);
    assert(is_digit(digits[0]));
    assert(is_digit(digits[digits.len() - 1]));
    assert((digits + after)[0] == digits[0]);
    assert(crate::text::trim_front(digits + after) == digits + after);
    lemma_trim_back(digits, after);
}

proof fn lemma_trim_back(front: Seq<char>, after: Seq<char>)
    requires
        front.len() > 0,
        !is_space(front.last()),
        forall|i: int| 0 <= i < after.len() ==> is_space(#[trigger] after[i]),
    ensures
        crate::text::trim_back(front + after) == front,
    decreases after.len(),
{
    if after.len() == 0 {
        assert(front + after =~= front);
    } else {
        assert((front + after).last() == after[after.len() - 1]);
        assert((front + after).drop_last() =~= front + after.drop_last());
        lemma_trim_back(front, after.drop_last());
    }
}

proof fn lemma_read_number(n: nat)
    requires
        n <= u64::MAX,
    ensures
        crate::text::unsigned_number(decimal(n)) == Some(n as int),
{
    crate::text::lemma_unsigned_round_trip(n as u64);
}

/// The unified hierarchy counts in microseconds: the first line of `cpu.stat` that
/// begins with the key decides, whatever stands before and after it.
pub proof fn lemma_microseconds_are_read(
    before: Seq<Seq<char>>,
    n: u64,
    after: Seq<Seq<char>>,
    files: Seq<Option<Seq<char>>>,
)
    requires
        forall|i: int|
            0 <= i < before.len() ==> crate::text::free_of(#[trigger] before[i], '\n')
                && !crate::text::stands_at(before[i], "usage_usec "@, 0),
        forall|i: int| 0 <= i < after.len() ==> crate::text::free_of(#[trigger] after[i], '\n'),
    ensures
        usage_secs(
            CpuSource::CgroupV2,
            Some(joined(before.push("usage_usec "@ + decimal(n as nat)) + after, '\n')),
            files,
        ) == Some(Number::over(Number::whole(n as int), Number::whole(1_000_000))),
{
    let key = "usage_usec "@;
    let line = key + decimal(n as nat);
    let lines = before.push(line) + after;
    reveal_strlit("usage_usec ");
    crate::text::lemma_decimal_digits(n as nat);
    assert forall|i: int| 0 <= i < lines.len() implies crate::text::free_of(
        #[trigger] lines[i],
        '\n',
    ) by {
        if i < before.len() {
            assert(lines[i] == before[i]);
        } else if i == before.len() {
            assert forall|j: int| 0 <= j < line.len() implies (#[trigger] line[j]) != '\n' by {
                if j >= key.len() {
                    assert(is_digit(decimal(n as nat)[j - key.len()]));
                }
            }
        } else {
            assert(lines[i] == after[i - before.len() - 1]);
        }
    }
    crate::text::lemma_join_then_split(lines, '\n');
    assert(line.subrange(0, key.len() as int) =~= key);
    lemma_keyed(before, line, after, key);
    assert(line.skip(key.len() as int) =~= decimal(n as nat));
    let none = Seq::<char>::empty();
    assert(decimal(n as nat) + none =~= decimal(n as nat));
    lemma_trimmed_number(n as nat, none);
    lemma_read_number(n as nat);
}

proof fn lemma_keyed(
    before: Seq<Seq<char>>,
    line: Seq<char>,
    after: Seq<Seq<char>>,
    key: Seq<char>,
)
    requires
        forall|i: int|
            0 <= i < before.len() ==> !crate::text::stands_at(#[trigger] before[i], key, 0),
        crate::text::stands_at(line, key, 0),
    ensures
        keyed_value(before.push(line) + after, key) == crate::text::unsigned_number(
            trimmed(line.skip(key.len() as int)),
        ),
    decreases before.len(),
{
    let lines = before.push(line) + after;
    if before.len() > 0 {
        assert(lines[0] == before[0]);
        assert(lines.drop_first() =~= before.drop_first().push(line) + after);
        lemma_keyed(before.drop_first(), line, after, key);
    } else {
        assert(lines[0] == line);
    }
}

/// The `cpuacct` controller counts in nanoseconds: the first file that can be read
/// and holds a number decides, white space around it or not.
pub proof fn lemma_nanoseconds_are_read(
    n: u64,
    rest: Seq<Option<Seq<char>>>,
    cpu_stat: Option<Seq<char>>,
)
    ensures
        usage_secs(
            CpuSource::CgroupV1,
            cpu_stat,
            seq![Some(decimal(n as nat).push('\n'))] + rest,
        ) == Some(Number::over(Number::whole(n as int), Number::whole(1_000_000_000))),
        usage_secs(CpuSource::CgroupV1, cpu_stat, seq![None] + rest) == usage_secs(
            CpuSource::CgroupV1,
            cpu_stat,
            rest,
        ),
        usage_secs(CpuSource::CgroupV1, cpu_stat, Seq::empty()) is None,
        usage_secs(CpuSource::CgroupV2, None, rest) is None,
        usage_secs(CpuSource::ProcStat, cpu_stat, rest) is None,
{
    let files = seq![Some(decimal(n as nat).push('\n'))] + rest;
    assert(decimal(n as nat).push('\n') =~= decimal(n as nat) + seq!['\n']);
    lemma_trimmed_number(n as nat, seq!['\n']);
    lemma_read_number(n as nat);
    assert(files[0] == Some(decimal(n as nat).push('\n')));
    let skipped = seq![None::<Seq<char>>] + rest;
    assert(skipped[0] is None);
    assert(skipped.drop_first() =~= rest);
}

// ---------------------------------------------------------------------------
// Limits
// ---------------------------------------------------------------------------

/// A quota file and a period file hold whole numbers; where both are positive the
/// limit is their quotient, and a quota that is not positive sets no limit.
pub proof fn lemma_quota_files(quota: i64, period: i64)
    ensures
        ({
            let limit = cfs_limit(
                Some(crate::text::signed_decimal(quota as int).push('\n')),
                Some(crate::text::signed_decimal(period as int).push('\n')),
            );
            &&& quota > 0 && period > 0 ==> limit == Some(
                Number::over(Number::whole(quota as int), Number::whole(period as int)),
            )
            &&& quota <= 0 || period <= 0 ==> limit is None
        }),
        cfs_limit(None, Some(crate::text::signed_decimal(period as int))) is None,
        cfs_limit(Some(crate::text::signed_decimal(quota as int)), None) is None,
{
    lemma_read_signed(quota);
    lemma_read_signed(period);
}

proof fn lemma_read_signed(n: i64)
    ensures
        crate::text::signed_number(trimmed(crate::text::signed_decimal(n as int).push('\n')))
            == Some(n as int),
{
    let text = crate::text::signed_decimal(n as int);
    let digits = if n < 0 {
        decimal((-n) as nat)
    } else {
        decimal(n as nat)
    };
    crate::text::lemma_decimal_digits((-n) as nat);
    crate::text::lemma_decimal_digits(n as nat);
    assert(is_digit(digits[0]) && is_digit(digits[digits.len() - 1]));
    assert(text.last() == digits.last());
    let whole = text + seq!['\n'];
    assert(text.push('\n') =~= whole);
    assert(whole[0] == text[0]);
    assert(crate::text::trim_front(whole) == whole);
    lemma_trim_back(text, seq!['\n']);
    crate::text::lemma_signed_round_trip(n);
}

/// The first pair of files that sets a limit decides.
pub proof fn lemma_first_pair_decides(
    pair: (Option<Seq<char>>, Option<Seq<char>>),
    rest: Seq<(Option<Seq<char>>, Option<Seq<char>>)>,
)
    ensures
        first_cfs_limit(Seq::empty()) is None,
        cfs_limit(pair.0, pair.1) is Some ==> first_cfs_limit(seq![pair] + rest) == cfs_limit(
            pair.0,
            pair.1,
        ),
        cfs_limit(pair.0, pair.1) is None ==> first_cfs_limit(seq![pair] + rest)
            == first_cfs_limit(rest),
{
    assert((seq![pair] + rest).drop_first() =~= rest);
    assert((seq![pair] + rest)[0] == pair);
}

/// The limit in `cpu.max` goes before those of the pairs; where it sets none, as with
/// the word `max`, or cannot be read, the pairs do.
pub proof fn lemma_unified_limit_goes_first(
    text: Seq<char>,
    period: Seq<char>,
    cfs: Seq<(Option<Seq<char>>, Option<Seq<char>>)>,
)
    requires
        period.len() > 0,
        forall|i: int| 0 <= i < period.len() ==> !is_space(#[trigger] period[i]),
    ensures
        core_limit(None, cfs) == first_cfs_limit(cfs),
        max_limit(text) is Some ==> core_limit(Some(text), cfs) == max_limit(text),
        max_limit(text) is None ==> core_limit(Some(text), cfs) == first_cfs_limit(cfs),
        max_limit("max"@.push(' ') + period) is None,
{
    let max = "max"@;
    reveal_strlit("max");
    let none = Seq::<char>::empty();
    crate::text::lemma_words_of_longer(none, max);
    assert(none + max =~= max);
    assert(max.push(' ').drop_last() =~= max);
    assert(crate::text::words(max.push(' ')) =~= seq![max]);
    crate::text::lemma_words_of_longer(max.push(' '), period);
}

/// A period of zero sets no limit, whatever the quota.
pub proof fn lemma_no_period_no_limit(quota: u64)
    ensures
        max_limit((decimal(quota as nat).push(' ') + decimal(0)).push('\n')) is None,
{
    let q = decimal(quota as nat);
    let p = decimal(0);
    let text = (q.push(' ') + p).push('\n');
    crate::text::lemma_decimal_digits(quota as nat);
    crate::text::lemma_decimal_digits(0);
    assert forall|i: int| 0 <= i < q.len() implies !is_space(#[trigger] q[i]) by {
        assert(is_digit(q[i]));
    }
    assert forall|i: int| 0 <= i < p.len() implies !is_space(#[trigger] p[i]) by {
        assert(is_digit(p[i]));
    }
    let none = Seq::<char>::empty();
    crate::text::lemma_words_of_longer(none, q);
    assert(none + q =~= q);
    assert(q.push(' ').drop_last() =~= q);
    assert(crate::text::words(q.push(' ')) =~= seq![q]);
    crate::text::lemma_words_of_longer(q.push(' '), p);
    assert(text.drop_last() =~= q.push(' ') + p);
    assert(crate::text::words(text) =~= seq![q, p]);
    crate::numeral::lemma_whole_numeral(0);
    crate::power::lemma_pow2_values();
    crate::order::lemma_whole_finite(0, 12);
}

/// A limit needs exactly two words: with fewer or more there is none.
pub proof fn lemma_limit_needs_two_words(text: Seq<char>)
    ensures
        crate::text::words(text).len() != 2 ==> max_limit(text) is None,
{
}

/// Of a limit of `q` whole cores on a machine with `n`, the smaller number can be
/// used; without a limit, all can.
pub proof fn lemma_cores_to_use(n: int, q: int)
    requires
        0 <= n,
        0 <= q,
    ensures
        cores_within(n, None) == Number::whole(n),
        n <= q ==> cores_within(n, Some(Number::whole(q))) == Number::whole(n),
        q <= n < MANTISSA_END ==> cores_within(n, Some(Number::whole(q))) == Number::whole(q),
        cores_within(n, Some(Number::NotANumber)) == Number::whole(n),
{
    crate::order::lemma_whole_is_number(n);
    crate::order::lemma_whole_is_number(q);
    if n <= q {
        crate::order::lemma_whole_monotonic(n, q);
    }
    if q < n < MANTISSA_END {
        crate::number::lemma_small_whole_is_exact(n);
        crate::number::lemma_small_whole_is_exact(q);
        let one = crate::order::one();
        crate::power::lemma_pow2_positive(1074);
        assert(n * one > q * one) by (nonlinear_arith)
            requires
                n > q,
                one > 0,
        ;
    }
}

} // verus!
