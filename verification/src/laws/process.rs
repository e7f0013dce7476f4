//! What belongs to a process tree.

use crate::process::{
    child_ticks, counts, is_child, listed_io, listed_ticks, tree_ticks, ProcIo, ProcStat,
};
use vstd::prelude::*;

verus! {

/// The process at place `i` of a list is named there for the last time.
pub open spec fn last_line(stats: Seq<ProcStat>, i: int) -> bool {
    &&& 0 <= i < stats.len()
    &&& forall|j: int| i < j < stats.len() ==> (#[trigger] stats[j]).pid != stats[i].pid
}

/// A process is listed with the ticks of its last line: user ticks first, then
/// system ticks.
pub proof fn lemma_listed_as_last_seen(stats: Seq<ProcStat>, i: int)
    requires
        last_line(stats, i),
    ensures
        listed_ticks(stats).contains_key(stats[i].pid),
        listed_ticks(stats)[stats[i].pid] == (stats[i].user, stats[i].system),
    decreases stats.len(),
{
    let front = stats.drop_last();
    if i < stats.len() - 1 {
        assert(stats[stats.len() - 1].pid != stats[i].pid);
        assert forall|j: int| i < j < front.len() implies (#[trigger] front[j]).pid
            != front[i].pid by {
            assert(front[j] == stats[j]);
        }
        lemma_listed_as_last_seen(front, i);
    }
}

/// Only what stands in the list is listed.
pub proof fn lemma_nothing_else_is_listed(stats: Seq<ProcStat>, pid: i32)
    requires
        listed_ticks(stats).contains_key(pid),
    ensures
        exists|i: int| 0 <= i < stats.len() && (#[trigger] stats[i]).pid == pid,
    decreases stats.len(),
{
    if stats.len() > 0 {
        if stats.last().pid == pid {
            assert(stats[stats.len() - 1].pid == pid);
        } else {
            lemma_nothing_else_is_listed(stats.drop_last(), pid);
            let i = choose|i: int|
                0 <= i < stats.drop_last().len() && (#[trigger] stats.drop_last()[i]).pid == pid;
            assert(stats[i].pid == pid);
        }
    }
}

/// The tree of a root holds its root, if it is listed, and with every member all
/// listed processes whose line names that member as the parent, with the ticks of
/// their last lines.
pub proof fn lemma_tree_is_closed(stats: Seq<ProcStat>, root: i32, i: int)
    requires
        last_line(stats, i),
        stats[i].pid == root || tree_ticks(stats, root).contains_key(stats[i].ppid)
            || stats[i].ppid == root,
    ensures
        tree_ticks(stats, root).contains_key(stats[i].pid),
        tree_ticks(stats, root)[stats[i].pid] == (stats[i].user, stats[i].system),
{
    let (pid, parent) = (stats[i].pid, stats[i].ppid);
    lemma_listed_as_last_seen(stats, i);
    crate::process::lemma_root_in_tree(stats, root);
    if pid != root {
        assert(is_child(stats, parent, pid));
        crate::process::lemma_child_in_tree(stats, root, parent, pid);
    }
}

/// And it holds nothing else: a set of processes that holds the root and, with every
/// process, all that the list gives it as children, holds the whole tree.
pub proof fn lemma_tree_is_no_larger(stats: Seq<ProcStat>, root: i32, family: Set<i32>, pid: i32)
    requires
        family.contains(root),
        forall|i: int|
            0 <= i < stats.len() && family.contains(stats[i].ppid) ==> family.contains(
                (#[trigger] stats[i]).pid,
            ),
        tree_ticks(stats, root).contains_key(pid),
    ensures
        family.contains(pid),
        listed_ticks(stats).contains_key(pid),
{
    assert forall|a: i32, b: i32|
        family.contains(a) && #[trigger] is_child(stats, a, b) implies family.contains(b) by {
        let i = choose|i: int|
            0 <= i < stats.len() && (#[trigger] stats[i]).ppid == a && stats[i].pid == b;
        assert(family.contains(stats[i].pid));
    }
    crate::process::lemma_tree_in_closed_set(stats, root, pid, family);
}

/// Disk traffic is listed as it was read last: bytes read first, then bytes written.
pub proof fn lemma_traffic_as_last_read(reads: Seq<ProcIo>, i: int)
    requires
        0 <= i < reads.len(),
        forall|j: int| i < j < reads.len() ==> (#[trigger] reads[j]).pid != reads[i].pid,
    ensures
        listed_io(reads).contains_key(reads[i].pid),
        listed_io(reads)[reads[i].pid] == (reads[i].read_bytes, reads[i].write_bytes),
    decreases reads.len(),
{
    let front = reads.drop_last();
    if i < reads.len() - 1 {
        assert(reads[reads.len() - 1].pid != reads[i].pid);
        assert forall|j: int| i < j < front.len() implies (#[trigger] front[j]).pid
            != front[i].pid by {
            assert(front[j] == reads[j]);
        }
        lemma_traffic_as_last_read(front, i);
    }
}

/// Only what was read is listed.
pub proof fn lemma_no_other_traffic(reads: Seq<ProcIo>, pid: i32)
    requires
        listed_io(reads).contains_key(pid),
    ensures
        exists|i: int| 0 <= i < reads.len() && (#[trigger] reads[i]).pid == pid,
    decreases reads.len(),
{
    if reads.len() > 0 {
        if reads.last().pid == pid {
            assert(reads[reads.len() - 1].pid == pid);
        } else {
            lemma_no_other_traffic(reads.drop_last(), pid);
            let i = choose|i: int|
                0 <= i < reads.drop_last().len() && (#[trigger] reads.drop_last()[i]).pid == pid;
            assert(reads[i].pid == pid);
        }
    }
}

/// A process accounts for its own ticks and those of the children it has waited for,
/// user ticks with user ticks and system ticks with system ticks.
pub proof fn lemma_own_and_childrens_ticks(
    s: ProcStat,
    pid: i32,
    ppid: i32,
    utime: u64,
    stime: u64,
    cutime: i64,
    cstime: i64,
)
    requires
        counts(s, pid, ppid, utime, stime, cutime, cstime),
    ensures
        s.pid == pid,
        s.ppid == ppid,
        cutime >= 0 ==> s.user == utime + cutime,
        cutime < 0 ==> s.user == utime,
        cstime >= 0 ==> s.system == stime + cstime,
        cstime < 0 ==> s.system == stime,
{
}

/// The ticks of waited-for children count in full, and a negative count not at all.
pub proof fn lemma_waited_for_ticks(c: i64)
    ensures
        c >= 0 ==> child_ticks(c as int) == c,
        c < 0 ==> child_ticks(c as int) == 0,
{
}

} // verus!
