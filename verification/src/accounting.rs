//! Sums over the members of a process tree.
//!
//! A snapshot keeps two counters per process: user and system ticks, or bytes
//! read and bytes written.  What the tree used between two snapshots is a sum
//! over its members; what follows says which sum, whatever order the members
//! come in.

use std::collections::HashMap;
use vstd::prelude::*;

verus! {

broadcast use vstd::std_specs::hash::group_hash_axioms;

/// One of the two counters that a snapshot keeps for a process.
#[derive(Debug, Clone, Copy, PartialEq, Eq, Structural)]
pub enum Counter {
    /// User ticks, or bytes read.
    First,
    /// System ticks, or bytes written.
    Second,
}

/// The value of one counter.
pub open spec fn counter(v: (u64, u64), which: Counter) -> u64 {
    match which {
        Counter::First => v.0,
        Counter::Second => v.1,
    }
}

/// How far one counter of `pid` has moved from `prev` to `curr`: nothing for a
/// process that `prev` does not know, and nothing when the counter went back.
pub open spec fn gain(
    prev: Map<i32, (u64, u64)>,
    curr: Map<i32, (u64, u64)>,
    which: Counter,
    pid: i32,
) -> int {
    if prev.contains_key(pid) && counter(curr[pid], which) > counter(prev[pid], which) {
        counter(curr[pid], which) - counter(prev[pid], which)
    } else {
        0
    }
}

/// The sum of `f` over a finite set of processes.
pub open spec fn total_over(pids: Set<i32>, f: spec_fn(i32) -> int) -> int {
    pids.fold(0int, |acc: int, pid: i32| acc + f(pid))
}

/// What all members of `curr` gained since `prev`.
pub open spec fn raw_delta(
    prev: Map<i32, (u64, u64)>,
    curr: Map<i32, (u64, u64)>,
    which: Counter,
) -> int {
    total_over(curr.dom(), |pid: i32| gain(prev, curr, which, pid))
}

/// The processes of `prev` that `curr` no longer knows.
pub open spec fn gone(prev: Map<i32, (u64, u64)>, curr: Map<i32, (u64, u64)>) -> Set<i32> {
    prev.dom().difference(curr.dom())
}

/// What the processes that are gone had counted when they were last seen.
pub open spec fn exited_total(
    prev: Map<i32, (u64, u64)>,
    curr: Map<i32, (u64, u64)>,
    which: Counter,
) -> int {
    total_over(gone(prev, curr), |pid: i32| counter(prev[pid], which) as int)
}

/// A raw delta, less the ticks of exited processes that it counts twice.  When
/// those exceed the raw delta the processes have not exited (their parents would
/// have taken their ticks over), so nothing is taken off.
pub open spec fn corrected(raw: int, exited: int) -> int {
    if exited <= raw {
        raw - exited
    } else {
        raw
    }
}

// ---------------------------------------------------------------------------
// Facts about sums
// ---------------------------------------------------------------------------

/// The sum over no process is zero.
pub proof fn lemma_total_empty(f: spec_fn(i32) -> int)
    ensures
        total_over(Set::empty(), f) == 0,
{
    vstd::set::fold::lemma_fold_empty(0int, |acc: int, pid: i32| acc + f(pid));
}

/// One process more adds its own value to the sum.
pub proof fn lemma_total_insert(pids: Set<i32>, pid: i32, f: spec_fn(i32) -> int)
    requires
        pids.finite(),
        !pids.contains(pid),
    ensures
        total_over(pids.insert(pid), f) == total_over(pids, f) + f(pid),
{
    vstd::set::fold::lemma_fold_insert(pids, 0int, |acc: int, p: i32| acc + f(p), pid);
}

/// Values between zero and `bound` sum up to at most `bound` per process.
pub proof fn lemma_total_bounds(pids: Set<i32>, f: spec_fn(i32) -> int, bound: int)
    requires
        pids.finite(),
        bound >= 0,
        forall|pid: i32| pids.contains(pid) ==> 0 <= #[trigger] f(pid) <= bound,
    ensures
        0 <= total_over(pids, f) <= pids.len() * bound,
    decreases pids.len(),
{
    if pids.len() == 0 {
        assert(pids =~= Set::empty());
        lemma_total_empty(f);
    } else {
        let pid = pids.choose();
        let rest = pids.remove(pid);
        lemma_total_bounds(rest, f, bound);
        lemma_total_insert(rest, pid, f);
        assert(rest.insert(pid) =~= pids);
        assert(pids.len() * bound == rest.len() * bound + bound) by (nonlinear_arith)
            requires
                pids.len() == rest.len() + 1,
        ;
    }
}

/// Equal values have equal sums.
pub proof fn lemma_total_same(pids: Set<i32>, f: spec_fn(i32) -> int, g: spec_fn(i32) -> int)
    requires
        pids.finite(),
        forall|pid: i32| #[trigger] pids.contains(pid) ==> f(pid) == g(pid),
    ensures
        total_over(pids, f) == total_over(pids, g),
    decreases pids.len(),
{
    if pids.len() == 0 {
        assert(pids =~= Set::empty());
        lemma_total_empty(f);
        lemma_total_empty(g);
    } else {
        let pid = pids.choose();
        let rest = pids.remove(pid);
        lemma_total_same(rest, f, g);
        lemma_total_insert(rest, pid, f);
        lemma_total_insert(rest, pid, g);
        assert(rest.insert(pid) =~= pids);
    }
}

/// There are no more than two to the thirty-second process numbers.
pub proof fn lemma_pid_count(pids: Set<i32>)
    requires
        pids.finite(),
    ensures
        pids.len() <= 0x1_0000_0000,
{
    let f = |p: i32| p as int;
    let range = vstd::set_lib::set_int_range(-0x8000_0000, 0x8000_0000);
    vstd::set_lib::lemma_int_range(-0x8000_0000, 0x8000_0000);
    vstd::set_lib::lemma_map_size(pids, pids.map(f), f);
    assert(pids.map(f).subset_of(range));
    vstd::set_lib::lemma_len_subset(pids.map(f), range);
}

/// A sum over counters is far from the limits of a `u128`.
pub proof fn lemma_total_fits(pids: Set<i32>, f: spec_fn(i32) -> int)
    requires
        pids.finite(),
        forall|pid: i32| pids.contains(pid) ==> 0 <= #[trigger] f(pid) <= u64::MAX,
    ensures
        0 <= total_over(pids, f) <= 0x1_0000_0000 * u64::MAX,
{
    lemma_pid_count(pids);
    lemma_total_bounds(pids, f, u64::MAX as int);
    assert(pids.len() * u64::MAX <= 0x1_0000_0000 * u64::MAX) by (nonlinear_arith)
        requires
            pids.len() <= 0x1_0000_0000,
    ;
}

/// What a tree gained is not negative, and neither is what its lost members had.
pub proof fn lemma_totals_not_negative(
    prev: Map<i32, (u64, u64)>,
    curr: Map<i32, (u64, u64)>,
    which: Counter,
)
    requires
        prev.dom().finite(),
        curr.dom().finite(),
    ensures
        0 <= raw_delta(prev, curr, which) <= 0x1_0000_0000 * u64::MAX,
        0 <= exited_total(prev, curr, which) <= 0x1_0000_0000 * u64::MAX,
{
    lemma_total_fits(curr.dom(), |pid: i32| gain(prev, curr, which, pid));
    lemma_total_fits(gone(prev, curr), |pid: i32| counter(prev[pid], which) as int);
}

/// The correction never makes more of a delta, and never a negative number.
pub proof fn lemma_corrected_bounds(raw: int, exited: int)
    requires
        raw >= 0,
        exited >= 0,
    ensures
        0 <= corrected(raw, exited) <= raw,
{
}

/// Exited processes are counted once.  Where a surviving process, `heir`, took over
/// the whole lifetimes of all that exited (what they had counted when last seen,
/// and what they earned after), what remains after the correction is what was
/// earned since: by the heir itself, by those that exited, and by everyone else.
/// It does not matter how many exited or how deep in the tree they were.
pub proof fn lemma_exited_ticks_cancel(
    prev: Map<i32, (u64, u64)>,
    curr: Map<i32, (u64, u64)>,
    which: Counter,
    heir: i32,
    own: nat,
    earned: nat,
)
    requires
        prev.dom().finite(),
        curr.dom().finite(),
        prev.contains_key(heir),
        curr.contains_key(heir),
        counter(curr[heir], which) == counter(prev[heir], which) + own + (exited_total(
            prev,
            curr,
            which,
        ) + earned),
    ensures
        corrected(raw_delta(prev, curr, which), exited_total(prev, curr, which)) == own + earned
            + total_over(curr.dom().remove(heir), |pid: i32| gain(prev, curr, which, pid)),
{
    let f = |pid: i32| gain(prev, curr, which, pid);
    let others = curr.dom().remove(heir);
    lemma_totals_not_negative(prev, curr, which);
    lemma_total_insert(others, heir, f);
    lemma_total_fits(others, f);
    assert(others.insert(heir) =~= curr.dom());
}

/// Where the lost members had counted more than the whole tree gained, they have
/// not been taken over by anyone: the raw delta stands.
pub proof fn lemma_implausible_exit_is_ignored(
    prev: Map<i32, (u64, u64)>,
    curr: Map<i32, (u64, u64)>,
    which: Counter,
)
    requires
        exited_total(prev, curr, which) > raw_delta(prev, curr, which),
    ensures
        corrected(raw_delta(prev, curr, which), exited_total(prev, curr, which)) == raw_delta(
            prev,
            curr,
            which,
        ),
{
}

/// A process that was not there before adds nothing.
pub proof fn lemma_new_process_gains_nothing(
    prev: Map<i32, (u64, u64)>,
    curr: Map<i32, (u64, u64)>,
    which: Counter,
    pid: i32,
)
    requires
        !prev.contains_key(pid),
    ensures
        gain(prev, curr, which, pid) == 0,
{
}

/// The set of the first `i + 1` keys is that of the first `i` and one more.
proof fn lemma_take_set(keys: Seq<i32>, i: int)
    requires
        keys.no_duplicates(),
        0 <= i < keys.len(),
    ensures
        keys.take(i + 1).to_set() == keys.take(i).to_set().insert(keys[i]),
        !keys.take(i).to_set().contains(keys[i]),
        keys.take(i).to_set().finite(),
        keys.take(i).to_set().subset_of(keys.to_set()),
{
    let shorter = keys.take(i);
    let longer = keys.take(i + 1);
    vstd::seq_lib::seq_to_set_is_finite(shorter);
    assert(longer.to_set() =~= shorter.to_set().insert(keys[i])) by {
        assert forall|p: i32| longer.to_set().contains(p) <==> shorter.to_set().insert(
            keys[i],
        ).contains(p) by {
            if longer.contains(p) {
                let k = choose|k: int| 0 <= k < longer.len() && longer[k] == p;
                if k < i {
                    assert(shorter[k] == p);
                }
            }
            if shorter.contains(p) {
                let k = choose|k: int| 0 <= k < shorter.len() && shorter[k] == p;
                assert(longer[k] == p);
            }
            assert(longer[i] == keys[i]);
        }
    }
    assert forall|p: i32| shorter.to_set().contains(p) implies keys.to_set().contains(p) by {
        let k = choose|k: int| 0 <= k < shorter.len() && shorter[k] == p;
        assert(keys[k] == p);
    }
}

// ---------------------------------------------------------------------------
// Computing the sums
// ---------------------------------------------------------------------------

/// The value of one counter.
pub fn read_counter(v: &(u64, u64), which: Counter) -> (r: u64)
    ensures
        r == counter(*v, which),
{
    match which {
        Counter::First => v.0,
        Counter::Second => v.1,
    }
}

/// The processes that a map knows, each once, in no particular order.
pub fn pids_of(m: &HashMap<i32, (u64, u64)>) -> (r: Vec<i32>)
    ensures
        r@.no_duplicates(),
        r@.to_set() == m@.dom(),
{
    let mut r: Vec<i32> = Vec::new();
    for k in it: m.keys()
        invariant
            it.seq() == vstd::std_specs::iter::IteratorSpec::remaining(
                &vstd::std_specs::hash::spec_keys_iter(m),
            ),
            r@ == it.seq().unref().take(it.index()),
    {
        r.push(*k);
    }
    proof {
        let all = vstd::std_specs::iter::IteratorSpec::remaining(
            &vstd::std_specs::hash::spec_keys_iter(m),
        ).unref();
        assert(r@ =~= all);
    }
    r
}

/// What all members of `curr` gained since `prev`, in one counter.
pub fn sum_gains(
    prev: &HashMap<i32, (u64, u64)>,
    curr: &HashMap<i32, (u64, u64)>,
    which: Counter,
) -> (r: u128)
    ensures
        r == raw_delta(prev@, curr@, which),
        r <= 0x1_0000_0000 * u64::MAX,
{
    let pids = pids_of(curr);
    let ghost f = |pid: i32| gain(prev@, curr@, which, pid);
    let mut sum: u128 = 0;
    let mut i: usize = 0;
    proof {
        assert(pids@.take(0).to_set() =~= Set::empty());
        lemma_total_empty(f);
    }
    while i < pids.len()
        invariant
            i <= pids@.len(),
            pids@.no_duplicates(),
            pids@.to_set() == curr@.dom(),
            f == (|pid: i32| gain(prev@, curr@, which, pid)),
            sum == total_over(pids@.take(i as int).to_set(), f),
        decreases pids@.len() - i,
    {
        let pid: i32 = pids[i];
        proof {
            lemma_take_set(pids@, i as int);
            lemma_total_insert(pids@.take(i as int).to_set(), pid, f);
            lemma_total_fits(pids@.take(i as int).to_set(), f);
            assert(pids@.contains(pid));
            assert(curr@.dom().contains(pid));
        }
        if let (Some(c), Some(p)) = (curr.get(&pid), prev.get(&pid)) {
            let now: u64 = read_counter(c, which);
            let before: u64 = read_counter(p, which);
            sum = sum + now.saturating_sub(before) as u128;
        }
        i += 1;
    }
    proof {
        assert(pids@.take(pids@.len() as int) =~= pids@);
        lemma_total_fits(curr@.dom(), f);
    }
    sum
}

/// What the processes of `prev` that are missing from `curr` had counted.
pub fn sum_gone(
    prev: &HashMap<i32, (u64, u64)>,
    curr: &HashMap<i32, (u64, u64)>,
    which: Counter,
) -> (r: u128)
    ensures
        r == exited_total(prev@, curr@, which),
        r <= 0x1_0000_0000 * u64::MAX,
{
    let pids = pids_of(prev);
    let ghost f = |pid: i32| counter(prev@[pid], which) as int;
    let mut sum: u128 = 0;
    let mut i: usize = 0;
    proof {
        assert(pids@.take(0).to_set().difference(curr@.dom()) =~= Set::empty());
        lemma_total_empty(f);
    }
    while i < pids.len()
        invariant
            i <= pids@.len(),
            pids@.no_duplicates(),
            pids@.to_set() == prev@.dom(),
            f == (|pid: i32| counter(prev@[pid], which) as int),
            sum == total_over(pids@.take(i as int).to_set().difference(curr@.dom()), f),
        decreases pids@.len() - i,
    {
        let pid: i32 = pids[i];
        let ghost done = pids@.take(i as int).to_set();
        proof {
            lemma_take_set(pids@, i as int);
            assert(pids@.contains(pid));
            assert(prev@.dom().contains(pid));
            lemma_total_fits(done.difference(curr@.dom()), f);
            if curr@.contains_key(pid) {
                assert(done.insert(pid).difference(curr@.dom()) =~= done.difference(curr@.dom()));
            } else {
                lemma_total_insert(done.difference(curr@.dom()), pid, f);
                assert(done.insert(pid).difference(curr@.dom()) =~= done.difference(
                    curr@.dom(),
                ).insert(pid));
            }
        }
        if !curr.contains_key(&pid) {
            if let Some(p) = prev.get(&pid) {
                sum = sum + read_counter(p, which) as u128;
            }
        }
        i += 1;
    }
    proof {
        assert(pids@.take(pids@.len() as int) =~= pids@);
        lemma_total_fits(gone(prev@, curr@), f);
    }
    sum
}

/// A raw delta, less what it counts twice.
pub fn correct_delta(raw: u128, exited: u128) -> (r: u128)
    ensures
        r == corrected(raw as int, exited as int),
{
    if exited <= raw {
        raw - exited
    } else {
        raw
    }
}

} // verus!
