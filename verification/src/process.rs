//! The tracked process tree: which processes belong to it, and what its members
//! used in CPU ticks, memory and disk traffic.

use std::collections::HashMap;
use std::collections::HashSet;
use vstd::prelude::*;

verus! {

broadcast use vstd::std_specs::hash::group_hash_axioms;

/// One line of the process list: who it is, who its parent is, and the ticks it
/// accounts for (its own and those of the children it has waited for).
#[derive(Debug, Clone, Copy, PartialEq, Eq, Structural)]
pub struct ProcStat {
    pub pid: i32,
    pub ppid: i32,
    pub user: u64,
    pub system: u64,
}

/// Ticks of waited-for children count when they are not negative.
pub open spec fn child_ticks(c: int) -> int {
    if c < 0 {
        0
    } else {
        c
    }
}

/// `s` is the line of a process with these counters.
pub open spec fn counts(
    s: ProcStat,
    pid: i32,
    ppid: i32,
    utime: u64,
    stime: u64,
    cutime: i64,
    cstime: i64,
) -> bool {
    &&& s.pid == pid
    &&& s.ppid == ppid
    &&& s.user == utime + child_ticks(cutime as int)
    &&& s.system == stime + child_ticks(cstime as int)
}

impl ProcStat {
    /// Own ticks plus the ticks of waited-for children, so that a child which
    /// both starts and exits between two snapshots is still seen through its
    /// parent.  `None` when a sum does not fit.
    pub fn new(
        pid: i32,
        ppid: i32,
        utime: u64,
        stime: u64,
        cutime: i64,
        cstime: i64,
    ) -> (r: Option<ProcStat>)
        ensures
            r is Some <==> utime + child_ticks(cutime as int) <= u64::MAX && stime + child_ticks(
                cstime as int,
            ) <= u64::MAX,
            r matches Some(s) ==> counts(s, pid, ppid, utime, stime, cutime, cstime),
            r matches Some(s) ==> {
                &&& s.pid == pid
                &&& s.ppid == ppid
                &&& s.user == utime + child_ticks(cutime as int)
                &&& s.system == stime + child_ticks(cstime as int)
            },
    {
        let cu: u64 = if cutime < 0 {
            0
        } else {
            cutime as u64
        };
        let cs: u64 = if cstime < 0 {
            0
        } else {
            cstime as u64
        };
        match (utime.checked_add(cu), stime.checked_add(cs)) {
            (Some(user), Some(system)) => Some(ProcStat { pid, ppid, user, system }),
            _ => None,
        }
    }
}

// ---------------------------------------------------------------------------
// The tree
// ---------------------------------------------------------------------------

/// The list says that `child` has `parent` as its parent.
pub open spec fn is_child(stats: Seq<ProcStat>, parent: i32, child: i32) -> bool {
    exists|i: int|
        0 <= i < stats.len() && (#[trigger] stats[i]).ppid == parent && stats[i].pid == child
}

/// Each process of `path` is a child of the one before it.
pub open spec fn is_descent(stats: Seq<ProcStat>, path: Seq<i32>) -> bool {
    &&& path.len() > 0
    &&& forall|i: int|
        0 <= i < path.len() - 1 ==> is_child(stats, #[trigger] path[i], path[i + 1])
}

/// `pid` is `root` or a descendant of it.
pub open spec fn in_tree(stats: Seq<ProcStat>, root: i32, pid: i32) -> bool {
    exists|path: Seq<i32>|
        #[trigger] is_descent(stats, path) && path.first() == root && path.last() == pid
}

/// The ticks that a process list holds for each process; a later line for the
/// same process replaces an earlier one.
pub open spec fn listed_ticks(stats: Seq<ProcStat>) -> Map<i32, (u64, u64)>
    decreases stats.len(),
{
    if stats.len() == 0 {
        Map::empty()
    } else {
        let s = stats.last();
        listed_ticks(stats.drop_last()).insert(s.pid, (s.user, s.system))
    }
}

/// What a process list says of the tree under `root`: the ticks of every listed
/// process that is `root` or descends from it.
pub open spec fn tree_ticks(stats: Seq<ProcStat>, root: i32) -> Map<i32, (u64, u64)> {
    Map::new(
        |pid: i32| listed_ticks(stats).contains_key(pid) && in_tree(stats, root, pid),
        |pid: i32| listed_ticks(stats)[pid],
    )
}

/// A process list names finitely many processes.
pub proof fn lemma_tree_ticks_finite(stats: Seq<ProcStat>, root: i32)
    ensures
        tree_ticks(stats, root).dom().finite(),
{
    lemma_listed_ticks_finite(stats);
    assert(tree_ticks(stats, root).dom().subset_of(listed_ticks(stats).dom()));
    vstd::set_lib::lemma_len_subset(tree_ticks(stats, root).dom(), listed_ticks(stats).dom());
}

proof fn lemma_listed_ticks_finite(stats: Seq<ProcStat>)
    ensures
        listed_ticks(stats).dom().finite(),
    decreases stats.len(),
{
    if stats.len() > 0 {
        lemma_listed_ticks_finite(stats.drop_last());
    }
}

/// The root is in its own tree.
pub proof fn lemma_root_in_tree(stats: Seq<ProcStat>, root: i32)
    ensures
        in_tree(stats, root, root),
{
    let path = seq![root];
    assert(is_descent(stats, path));
}

/// A child of a member is a member.
pub proof fn lemma_child_in_tree(stats: Seq<ProcStat>, root: i32, parent: i32, child: i32)
    requires
        in_tree(stats, root, parent),
        is_child(stats, parent, child),
    ensures
        in_tree(stats, root, child),
{
    let path = choose|path: Seq<i32>|
        #[trigger] is_descent(stats, path) && path.first() == root && path.last() == parent;
    let longer = path.push(child);
    assert forall|i: int| 0 <= i < longer.len() - 1 implies is_child(
        stats,
        #[trigger] longer[i],
        longer[i + 1],
    ) by {
        if i < path.len() - 1 {
            assert(longer[i] == path[i] && longer[i + 1] == path[i + 1]);
        }
    }
    assert(is_descent(stats, longer));
    assert(longer.first() == root && longer.last() == child);
}

/// A set that holds the root and the children of everything it holds, holds the
/// whole tree.
pub proof fn lemma_tree_in_closed_set(stats: Seq<ProcStat>, root: i32, pid: i32, closed: Set<i32>)
    requires
        in_tree(stats, root, pid),
        closed.contains(root),
        forall|a: i32, b: i32|
            closed.contains(a) && #[trigger] is_child(stats, a, b) ==> closed.contains(b),
    ensures
        closed.contains(pid),
{
    let path = choose|path: Seq<i32>|
        #[trigger] is_descent(stats, path) && path.first() == root && path.last() == pid;
    lemma_path_in_closed_set(stats, path, closed, path.len() - 1);
}

proof fn lemma_path_in_closed_set(stats: Seq<ProcStat>, path: Seq<i32>, closed: Set<i32>, i: int)
    requires
        is_descent(stats, path),
        closed.contains(path.first()),
        forall|a: i32, b: i32|
            closed.contains(a) && #[trigger] is_child(stats, a, b) ==> closed.contains(b),
        0 <= i < path.len(),
    ensures
        closed.contains(path[i]),
    decreases i,
{
    if i > 0 {
        lemma_path_in_closed_set(stats, path, closed, i - 1);
        assert(is_child(stats, path[i - 1], path[i - 1 + 1]));
    }
}

/// The children that a process list gives to each parent.
fn children_of(stats: &Vec<ProcStat>) -> (r: HashMap<i32, Vec<i32>>)
    ensures
        forall|a: i32, b: i32|
            #[trigger] is_child(stats@, a, b) <==> r@.contains_key(a) && r@[a]@.contains(b),
{
    let mut r: HashMap<i32, Vec<i32>> = HashMap::new();
    let mut i: usize = 0;
    while i < stats.len()
        invariant
            i <= stats@.len(),
            forall|a: i32, b: i32|
                #[trigger] is_child(stats@.take(i as int), a, b) <==> r@.contains_key(a)
                    && r@[a]@.contains(b),
        decreases stats@.len() - i,
    {
        let s: ProcStat = stats[i];
        let ghost before = r@;
        let mut kids: Vec<i32> = match r.remove(&s.ppid) {
            Some(kids) => kids,
            None => Vec::new(),
        };
        let ghost old_kids = kids@;
        kids.push(s.pid);
        r.insert(s.ppid, kids);
        proof {
            assert(kids@ == old_kids.push(s.pid));
            let shorter = stats@.take(i as int);
            let longer = stats@.take(i + 1);
            assert forall|a: i32, b: i32| #[trigger] is_child(longer, a, b) <==> r@.contains_key(a)
                && r@[a]@.contains(b) by {
                let was = is_child(shorter, a, b);
                if is_child(longer, a, b) {
                    let k = choose|k: int|
                        0 <= k < longer.len() && (#[trigger] longer[k]).ppid == a && longer[k].pid
                            == b;
                    if k < i {
                        assert(shorter[k].ppid == a && shorter[k].pid == b);
                        assert(before.contains_key(a) && before[a]@.contains(b));
                        if a == s.ppid {
                            let j = choose|j: int| 0 <= j < old_kids.len() && old_kids[j] == b;
                            assert(kids@[j] == b);
                        }
                    } else {
                        assert(kids@[old_kids.len() as int] == b);
                    }
                }
                if r@.contains_key(a) && r@[a]@.contains(b) {
                    if a == s.ppid {
                        let j = choose|j: int| 0 <= j < kids@.len() && kids@[j] == b;
                        if j < old_kids.len() {
                            assert(old_kids[j] == b);
                            assert(before.contains_key(a) && before[a]@.contains(b));
                            let k = choose|k: int|
                                0 <= k < shorter.len() && (#[trigger] shorter[k]).ppid == a
                                    && shorter[k].pid == b;
                            assert(longer[k].ppid == a && longer[k].pid == b);
                        } else {
                            assert(longer[i as int].ppid == a && longer[i as int].pid == b);
                        }
                    } else {
                        assert(before.contains_key(a) && before[a]@.contains(b));
                        let k = choose|k: int|
                            0 <= k < shorter.len() && (#[trigger] shorter[k]).ppid == a
                                && shorter[k].pid == b;
                        assert(longer[k].ppid == a && longer[k].pid == b);
                    }
                }
            }
        }
        i += 1;
    }
    assert(stats@.take(stats@.len() as int) =~= stats@);
    r
}

/// The ticks that a process list gives to each process.
fn ticks_of(stats: &Vec<ProcStat>) -> (r: HashMap<i32, (u64, u64)>)
    ensures
        r@ == listed_ticks(stats@),
{
    let mut r: HashMap<i32, (u64, u64)> = HashMap::new();
    let mut i: usize = 0;
    while i < stats.len()
        invariant
            i <= stats@.len(),
            r@ == listed_ticks(stats@.take(i as int)),
        decreases stats@.len() - i,
    {
        let s: ProcStat = stats[i];
        r.insert(s.pid, (s.user, s.system));
        assert(stats@.take(i + 1).drop_last() =~= stats@.take(i as int));
        i += 1;
    }
    assert(stats@.take(stats@.len() as int) =~= stats@);
    r
}

/// Every process that the list names, and `root`.
spec fn known_pids(stats: Seq<ProcStat>, root: i32) -> Set<i32> {
    stats.map_values(|s: ProcStat| s.pid).to_set().insert(root)
}

proof fn lemma_known_pids(stats: Seq<ProcStat>, root: i32)
    ensures
        known_pids(stats, root).finite(),
        forall|a: i32, b: i32| #[trigger]
            is_child(stats, a, b) ==> known_pids(stats, root).contains(b),
{
    let pids = stats.map_values(|s: ProcStat| s.pid);
    vstd::seq_lib::seq_to_set_is_finite(pids);
    assert forall|a: i32, b: i32| #[trigger] is_child(stats, a, b) implies known_pids(
        stats,
        root,
    ).contains(b) by {
        let k = choose|k: int|
            0 <= k < stats.len() && (#[trigger] stats[k]).ppid == a && stats[k].pid == b;
        assert(pids[k] == b);
        assert(pids.contains(b));
    }
}

/// The ticks of every listed process in the tree under `root_pid`, the root
/// included.  A process that is not listed (it has exited) is left out; its
/// listed descendants are not.
#[verifier::rlimit(50)]
pub fn process_tree_ticks(root_pid: i32, stats: &Vec<ProcStat>) -> (r: HashMap<i32, (u64, u64)>)
    ensures
        r@ == tree_ticks(stats@, root_pid),
{
    let children = children_of(stats);
    let ticks_for = ticks_of(stats);
    let mut result: HashMap<i32, (u64, u64)> = HashMap::new();
    let mut seen: HashSet<i32> = HashSet::new();
    seen.insert(root_pid);
    let mut queue: Vec<i32> = Vec::new();
    queue.push(root_pid);
    let ghost known = known_pids(stats@, root_pid);
    proof {
        lemma_root_in_tree(stats@, root_pid);
        lemma_known_pids(stats@, root_pid);
        assert(queue@[0] == root_pid);
    }
    while queue.len() > 0
        invariant
            known.finite(),
            forall|a: i32, b: i32| #[trigger] is_child(stats@, a, b) ==> known.contains(b),
            forall|a: i32, b: i32| #[trigger]
                is_child(stats@, a, b) <==> children@.contains_key(a) && children@[a]@.contains(b),
            ticks_for@ == listed_ticks(stats@),
            seen@.subset_of(known),
            seen@.contains(root_pid),
            queue@.no_duplicates(),
            forall|q: i32| #[trigger] queue@.contains(q) ==> seen@.contains(q),
            forall|p: i32| #[trigger] seen@.contains(p) ==> in_tree(stats@, root_pid, p),
            forall|a: i32, b: i32|
                seen@.contains(a) && !queue@.contains(a) && #[trigger] is_child(stats@, a, b)
                    ==> seen@.contains(b),
            forall|p: i32| #[trigger]
                result@.contains_key(p) <==> seen@.contains(p) && !queue@.contains(p)
                    && ticks_for@.contains_key(p),
            forall|p: i32| #[trigger] result@.contains_key(p) ==> result@[p] == ticks_for@[p],
        decreases known.len() - seen@.len(), queue@.len(),
    {
        let ghost queue0 = queue@;
        let ghost seen0 = seen@;
        let pid: i32 = match queue.pop() {
            Some(pid) => pid,
            None => root_pid,
        };
        proof {
            assert(queue0[queue0.len() - 1] == pid);
            assert(queue0.contains(pid));
            assert(queue@ =~= queue0.drop_last());
            assert forall|q: i32| #[trigger] queue@.contains(q) implies queue0.contains(q) && q
                != pid by {
                let j = choose|j: int| 0 <= j < queue@.len() && queue@[j] == q;
                assert(queue0[j] == q);
            }
            assert forall|q: i32| queue0.contains(q) && q != pid implies #[trigger] queue@.contains(
                q,
            ) by {
                let j = choose|j: int| 0 <= j < queue0.len() && queue0[j] == q;
                assert(queue@[j] == q);
            }
        }
        if let Some(ticks) = ticks_for.get(&pid) {
            result.insert(pid, *ticks);
        }
        let ghost queue1 = queue@;
        if let Some(kids) = children.get(&pid) {
            let mut i: usize = 0;
            while i < kids.len()
                invariant
                    i <= kids@.len(),
                    known.finite(),
                    children@.contains_key(pid),
                    children@[pid] == *kids,
                    forall|a: i32, b: i32| #[trigger] is_child(stats@, a, b) ==> known.contains(b),
                    forall|a: i32, b: i32| #[trigger]
                        is_child(stats@, a, b) <==> children@.contains_key(a)
                            && children@[a]@.contains(b),
                    seen0.contains(pid),
                    seen0.subset_of(seen@),
                    seen@.subset_of(known),
                    in_tree(stats@, root_pid, pid),
                    queue@.no_duplicates(),
                    !queue@.contains(pid),
                    forall|q: i32| #[trigger] queue@.contains(q) ==> seen@.contains(q),
                    forall|q: i32| #[trigger]
                        queue@.contains(q) <==> queue1.contains(q) || (seen@.contains(q)
                            && !seen0.contains(q)),
                    forall|p: i32| #[trigger] seen@.contains(p) ==> in_tree(stats@, root_pid, p),
                    forall|k: int| 0 <= k < i ==> seen@.contains(#[trigger] kids@[k]),
                    seen@ == seen0 ==> queue@ == queue1,
                decreases kids@.len() - i,
            {
                let kid: i32 = kids[i];
                proof {
                    assert(kids@.contains(kid));
                    assert(is_child(stats@, pid, kid));
                    lemma_child_in_tree(stats@, root_pid, pid, kid);
                }
                if !seen.contains(&kid) {
                    let ghost queue2 = queue@;
                    seen.insert(kid);
                    queue.push(kid);
                    proof {
                        assert(!queue2.contains(kid));
                        assert(queue@.no_duplicates()) by {
                            assert forall|a: int, b: int|
                                0 <= a < queue@.len() && 0 <= b < queue@.len() && a
                                    != b implies queue@[a] != queue@[b] by {
                                if a < queue2.len() {
                                    assert(queue2.contains(queue2[a]));
                                }
                                if b < queue2.len() {
                                    assert(queue2.contains(queue2[b]));
                                }
                            }
                        }
                        assert forall|q: i32| #[trigger] queue@.contains(q) <==> queue2.contains(q)
                            || q == kid by {
                            if queue2.contains(q) {
                                let j = choose|j: int| 0 <= j < queue2.len() && queue2[j] == q;
                                assert(queue@[j] == q);
                            }
                            if q == kid {
                                assert(queue@[queue2.len() as int] == kid);
                            }
                        }
                        assert(!seen0.contains(kid));
                        assert(seen@.contains(kid));
                    }
                }
                i += 1;
            }
            proof {
                assert forall|b: i32| #[trigger] is_child(stats@, pid, b) implies seen@.contains(
                    b,
                ) by {
                    let k = choose|k: int| 0 <= k < kids@.len() && kids@[k] == b;
                    assert(seen@.contains(kids@[k]));
                }
            }
        }
        proof {
            assert(seen0.subset_of(seen@));
            vstd::set_lib::lemma_len_subset(seen0, seen@);
            vstd::set_lib::lemma_len_subset(seen@, known);
            if seen@.len() == seen0.len() {
                vstd::set_lib::lemma_subset_equality(seen0, seen@);
            }
        }
    }
    proof {
        assert forall|p: i32| in_tree(stats@, root_pid, p) implies #[trigger] seen@.contains(p) by {
            lemma_tree_in_closed_set(stats@, root_pid, p, seen@);
        }
        assert(result@ =~= tree_ticks(stats@, root_pid));
    }
    result
}

// ---------------------------------------------------------------------------
// Disk traffic
// ---------------------------------------------------------------------------

/// What one process has read from and written to storage so far.
#[derive(Debug, Clone, Copy, PartialEq, Eq, Structural)]
pub struct ProcIo {
    pub pid: i32,
    pub read_bytes: u64,
    pub write_bytes: u64,
}

/// The bytes that a list holds for each process; a later entry for the same
/// process replaces an earlier one.
pub open spec fn listed_io(reads: Seq<ProcIo>) -> Map<i32, (u64, u64)>
    decreases reads.len(),
{
    if reads.len() == 0 {
        Map::empty()
    } else {
        let r = reads.last();
        listed_io(reads.drop_last()).insert(r.pid, (r.read_bytes, r.write_bytes))
    }
}

/// A list holds finitely many processes.
pub proof fn lemma_listed_io_finite(reads: Seq<ProcIo>)
    ensures
        listed_io(reads).dom().finite(),
    decreases reads.len(),
{
    if reads.len() > 0 {
        lemma_listed_io_finite(reads.drop_last());
    }
}

/// Cumulative disk traffic by process.  A process whose counters cannot be read
/// is simply not listed, and counts for nothing.
pub fn process_tree_io(reads: &Vec<ProcIo>) -> (r: HashMap<i32, (u64, u64)>)
    ensures
        r@ == listed_io(reads@),
{
    let mut r: HashMap<i32, (u64, u64)> = HashMap::new();
    let mut i: usize = 0;
    while i < reads.len()
        invariant
            i <= reads@.len(),
            r@ == listed_io(reads@.take(i as int)),
        decreases reads@.len() - i,
    {
        let io: ProcIo = reads[i];
        r.insert(io.pid, (io.read_bytes, io.write_bytes));
        assert(reads@.take(i + 1).drop_last() =~= reads@.take(i as int));
        i += 1;
    }
    assert(reads@.take(reads@.len() as int) =~= reads@);
    r
}

// ---------------------------------------------------------------------------
// Memory
// ---------------------------------------------------------------------------

/// What one process holds in memory, as far as it can be read.
#[derive(Debug, Clone, Copy, PartialEq, Eq, Structural)]
pub struct ProcMemory {
    /// Proportional set size, in bytes.
    pub pss_bytes: Option<u64>,
    /// Resident set size, in KiB.
    pub rss_kib: Option<u64>,
}

/// Proportional set sizes, each rounded down to whole KiB, added up.
pub open spec fn pss_kib_sum(reads: Seq<ProcMemory>) -> int
    decreases reads.len(),
{
    if reads.len() == 0 {
        0
    } else {
        let own = match reads.last().pss_bytes {
            Some(bytes) => bytes as int / 1024,
            None => 0,
        };
        pss_kib_sum(reads.drop_last()) + own
    }
}

/// Resident set sizes in KiB, added up.
pub open spec fn rss_kib_sum(reads: Seq<ProcMemory>) -> int
    decreases reads.len(),
{
    if reads.len() == 0 {
        0
    } else {
        let own = match reads.last().rss_kib {
            Some(kib) => kib as int,
            None => 0,
        };
        rss_kib_sum(reads.drop_last()) + own
    }
}

/// Proportional and resident set size of the tree, each in whole MiB.
pub fn process_tree_memory_mib(reads: &Vec<ProcMemory>) -> (r: (u128, u128))
    ensures
        r.0 == pss_kib_sum(reads@) / 1024,
        r.1 == rss_kib_sum(reads@) / 1024,
{
    let mut pss_kib: u128 = 0;
    let mut rss_kib: u128 = 0;
    let mut i: usize = 0;
    while i < reads.len()
        invariant
            i <= reads@.len(),
            pss_kib == pss_kib_sum(reads@.take(i as int)),
            rss_kib == rss_kib_sum(reads@.take(i as int)),
            pss_kib <= i * u64::MAX,
            rss_kib <= i * u64::MAX,
        decreases reads@.len() - i,
    {
        let m: ProcMemory = reads[i];
        assert(reads@.take(i + 1).drop_last() =~= reads@.take(i as int));
        assert(i * u64::MAX + u64::MAX <= (i + 1) * u64::MAX && (i + 1) * u64::MAX <= u64::MAX
            * u64::MAX) by (nonlinear_arith)
            requires
                i + 1 <= u64::MAX,
        ;
        if let Some(bytes) = m.pss_bytes {
            pss_kib = pss_kib + (bytes / 1024) as u128;
        }
        if let Some(kib) = m.rss_kib {
            rss_kib = rss_kib + kib as u128;
        }
        i += 1;
    }
    assert(reads@.take(reads@.len() as int) =~= reads@);
    (pss_kib / 1024, rss_kib / 1024)
}

} // verus!
