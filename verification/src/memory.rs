//! The memory of a machine and of its processes, with the totals of the
//! process tree worked out.

use vstd::prelude::*;
use std::collections::HashMap;
use tree_ds::prelude::Tree;
use crate::storage::{Storage, storage_from_bytes, storage_bits, law_round_trip};
use std::cmp::Ordering;
use itertools::Itertools;
use crate::process::{ProcessMemoryInfo, VIRTUAL_ROOT_PID, INIT_PID, rooted};
use crate::tree::{TreeError, TreeNode, tree_nodes, has_node, node_pos};
use crate::forest::{build_tree, process_forest, process_nodes};
use crate::totals::{
    memory_bits, with_totals, nonroot_fit, descends, aggregate_total_memory,
    lemma_below_root, lemma_node_pos, lemma_with_totals_same, lemma_forest_holds, lemma_forest_walk,
    subtree_bits, sum_over, lemma_child_pos, lemma_split_at_children,
    law_totals_do_not_depend_on_walk, fits_under_root, law_fit_does_not_depend_on_walk,
};
use crate::limits::is_rooted;
use crate::process::lemma_walk_keys_distinct;

verus! {

/// One process as it was read: its pid, its own memory in bytes, and where it
/// stands.
pub struct ProcessSample {
    pub pid: u32,
    pub raw_memory: u64,
    pub name: String,
    pub exe: Option<String>,
    pub parent: Option<u32>,
    pub root: Option<String>,
}

/// The record kept for a process read as `s`: its memory written in units,
/// with a total that is its own memory until the tree's totals are worked
/// out.
pub open spec fn sample_record(s: ProcessSample) -> ProcessMemoryInfo {
    ProcessMemoryInfo {
        memory: storage_from_bytes(s.raw_memory),
        raw_memory: s.raw_memory,
        name: s.name,
        exe: s.exe,
        parent: s.parent,
        root: s.root,
        total_memory: storage_from_bytes(s.raw_memory),
    }
}

/// The records of the processes read, by pid; where a pid was read twice, the
/// later read stands.
pub open spec fn sample_map(samples: Seq<ProcessSample>) -> Map<u32, ProcessMemoryInfo>
    decreases samples.len(),
{
    if samples.len() == 0 {
        Map::empty()
    } else {
        sample_map(samples.drop_last()).insert(
            samples.last().pid,
            sample_record(samples.last()),
        )
    }
}

/// What the process tree gives each process as its total: a process that the
/// tree holds, but for the init process, gets what it holds together with
/// its descendants; the others keep their own memory.
pub open spec fn tree_totals(
    t: Seq<TreeNode>,
    m: Map<u32, ProcessMemoryInfo>,
) -> Map<u32, ProcessMemoryInfo> {
    with_totals(t, m, |k: u32| rooted(m, k))
}

/// Whether, in every process tree of `m`, what each process holds together
/// with its descendants fits in 64 bits.
pub open spec fn forest_totals_fit(m: Map<u32, ProcessMemoryInfo>) -> bool {
    forall|t: Seq<TreeNode>| #[trigger] process_forest(t, m) ==> nonroot_fit(t, memory_bits(m))
}

/// Whether `pid` is a known process that hangs directly under the virtual
/// root or under the init process.
pub open spec fn top_level(m: Map<u32, ProcessMemoryInfo>, pid: u32) -> bool {
    &&& m.contains_key(pid)
    &&& m[pid].parent is None || m[pid].parent == Some(INIT_PID)
}

/// The bytes of a record's total.
pub open spec fn total_bits(p: ProcessMemoryInfo) -> u64 {
    storage_bits(p.total_memory)
}

/// How many processes of `m` are top level.
pub open spec fn top_level_count(m: Map<u32, ProcessMemoryInfo>) -> nat {
    m.dom().filter(|k: u32| top_level(m, k)).len()
}

/// `rows` are the `n` top-level processes of `m` with the largest totals, or
/// all of them where there are fewer, each with its record, largest total
/// first: no top-level process left out has a larger total than one taken.
pub open spec fn top_rows(
    m: Map<u32, ProcessMemoryInfo>,
    n: nat,
    rows: Seq<(u32, ProcessMemoryInfo)>,
) -> bool {
    &&& rows.len() == if n < top_level_count(m) {
        n
    } else {
        top_level_count(m)
    }
    &&& forall|i: int|
        0 <= i < rows.len() ==> top_level(m, #[trigger] rows[i].0) && rows[i].1 == m[rows[i].0]
    &&& forall|i: int, j: int| 0 <= i < j < rows.len() ==> #[trigger] rows[i].0 != #[trigger] rows[j].0
    &&& forall|i: int, j: int|
        0 <= i < j < rows.len() ==> total_bits(#[trigger] rows[i].1) >= total_bits(#[trigger] rows[j].1)
    &&& forall|pid: u32, i: int|
        #![trigger top_level(m, pid), rows[i]]
        top_level(m, pid) && 0 <= i < rows.len() && (forall|j: int|
            0 <= j < rows.len() ==> #[trigger] rows[j].0 != pid) ==> total_bits(rows[i].1)
            >= total_bits(m[pid])
}

/// Orders pairs of a total and a pid by their totals, the larger first.
fn larger_total_first(a: &(u64, u32), b: &(u64, u32)) -> (o: Ordering)
    ensures
        o == Ordering::Less <==> a.0 > b.0,
        o == Ordering::Equal <==> a.0 == b.0,
        o == Ordering::Greater <==> a.0 < b.0,
{
    if a.0 > b.0 {
        Ordering::Less
    } else if a.0 < b.0 {
        Ordering::Greater
    } else {
        Ordering::Equal
    }
}

/// `Itertools::sorted_by` with `larger_total_first`: the same pairs, ordered
/// by their totals, the larger first. The sort is stable: pairs with equal
/// totals keep their order.
#[verifier::external_body]
fn sorted_by_total(v: Vec<(u64, u32)>) -> (r: Vec<(u64, u32)>)
    ensures
        r@.to_multiset() == v@.to_multiset(),
        forall|i: int, j: int| 0 <= i < j < r@.len() ==> r@[i].0 >= r@[j].0,
        v@.no_duplicates() ==> forall|i: int, j: int|
            0 <= i < j < r@.len() && r@[i].0 == r@[j].0 ==> v@.index_of(r@[i]) < v@.index_of(
                r@[j],
            ),
{
    v.into_iter().sorted_by(|a, b| larger_total_first(a, b)).collect()
}

/// Every process tree of the same processes gives every process the same
/// total: the totals do not depend on the order in which the processes were
/// walked.
pub proof fn law_tree_totals_do_not_depend_on_walk(
    t1: Seq<TreeNode>,
    t2: Seq<TreeNode>,
    m: Map<u32, ProcessMemoryInfo>,
)
    requires
        process_forest(t1, m),
        process_forest(t2, m),
    ensures
        tree_totals(t1, m) == tree_totals(t2, m),
{
    assert forall|k: u32| #[trigger] m.contains_key(k) implies tree_totals(t1, m)[k] == tree_totals(t2, m)[k] by {
        lemma_forest_holds(t1, m, k);
        lemma_forest_holds(t2, m, k);
        if has_node(t1, k) {
            law_totals_do_not_depend_on_walk(t1, t2, m, k);
        }
    }
    assert(tree_totals(t1, m) =~= tree_totals(t2, m));
}

/// The bytes of each process's total in `r`.
pub open spec fn total_bytes_in(r: Map<u32, ProcessMemoryInfo>) -> spec_fn(u32) -> nat {
    |c: u32| storage_bits(r[c].total_memory) as nat
}

/// A process read last under its pid keeps what was read: its bytes, name,
/// program, parent and root, with a total that is its own memory until the
/// tree's totals are worked out; and the records are exactly those of the
/// pids read.
pub proof fn law_process_map_keeps_last_read(samples: Seq<ProcessSample>, i: int)
    requires
        0 <= i < samples.len(),
        forall|j: int| i < j < samples.len() ==> #[trigger] samples[j].pid != samples[i].pid,
    ensures
        sample_map(samples).contains_key(samples[i].pid),
        sample_map(samples)[samples[i].pid].raw_memory == samples[i].raw_memory,
        storage_bits(sample_map(samples)[samples[i].pid].memory) == samples[i].raw_memory,
        sample_map(samples)[samples[i].pid].total_memory == sample_map(samples)[samples[i].pid].memory,
        sample_map(samples)[samples[i].pid].name == samples[i].name,
        sample_map(samples)[samples[i].pid].exe == samples[i].exe,
        sample_map(samples)[samples[i].pid].parent == samples[i].parent,
        sample_map(samples)[samples[i].pid].root == samples[i].root,
        forall|pid: u32|
            #[trigger] sample_map(samples).contains_key(pid) <==> exists|j: int|
                0 <= j < samples.len() && samples[j].pid == pid,
    decreases samples.len(),
{
    let n = samples.len();
    let rest = samples.drop_last();
    law_round_trip(samples[i].raw_memory);
    if i < n - 1 {
        assert forall|j: int| i < j < rest.len() implies #[trigger] rest[j].pid != rest[i].pid by {
            assert(rest[j] == samples[j]);
        }
        law_process_map_keeps_last_read(rest, i);
        assert(rest[i] == samples[i]);
        assert(samples[n - 1].pid != samples[i].pid);
    } else if n > 1 {
        law_process_map_keeps_last_read(rest, n - 2);
    }
    if n > 1 {
        law_process_map_keeps_last_read(rest, n - 2);
    } else {
        assert(sample_map(rest) =~= Map::<u32, ProcessMemoryInfo>::empty());
    }
    assert forall|pid: u32| #[trigger] sample_map(samples).contains_key(pid) <==> exists|j: int|
        0 <= j < samples.len() && samples[j].pid == pid by {
        assert(sample_map(samples).contains_key(pid) <==> (sample_map(rest).contains_key(pid)
            || samples[n - 1].pid == pid));
        assert(sample_map(rest).contains_key(pid) <==> exists|j: int| 0 <= j < rest.len() && rest[j].pid == pid);
        if exists|j: int| 0 <= j < samples.len() && samples[j].pid == pid {
            let j = choose|j: int| 0 <= j < samples.len() && samples[j].pid == pid;
            if j < n - 1 {
                assert(rest[j].pid == pid);
            }
        }
        if exists|j: int| 0 <= j < rest.len() && rest[j].pid == pid {
            let j = choose|j: int| 0 <= j < rest.len() && rest[j].pid == pid;
            assert(samples[j].pid == pid);
        }
    }
}

/// In the process tree, the total of every process that it holds, but for
/// the init process, is its own memory together with the totals of its
/// children: what a process holds is what it holds itself and all that its
/// descendants hold, at any depth.
pub proof fn law_total_is_own_plus_children(t: Seq<TreeNode>, m: Map<u32, ProcessMemoryInfo>, p: u32)
    requires
        process_forest(t, m),
        nonroot_fit(t, memory_bits(m)),
        forall|k: u32| #[trigger] m.contains_key(k) ==> m[k].total_memory == m[k].memory,
        rooted(m, p),
        p != INIT_PID,
    ensures
        has_node(t, p),
        tree_totals(t, m)[p].memory == m[p].memory,
        storage_bits(tree_totals(t, m)[p].total_memory) == storage_bits(m[p].memory) + sum_over(
            t[node_pos(t, p)].2,
            total_bytes_in(tree_totals(t, m)),
        ),
{
    let mb = memory_bits(m);
    let r = tree_totals(t, m);
    lemma_forest_holds(t, m, p);
    let j = choose|j: int| #![trigger t[j]] 1 <= j < t.len() && t[j].0 == p;
    lemma_node_pos(t, p, j);
    let i = j;
    assert(t[0].0 != t[i].0);
    assert(subtree_bits(t, mb, i) <= u64::MAX);
    law_round_trip(subtree_bits(t, mb, i) as u64);
    let f = total_bytes_in(r);
    assert forall|k: int| 0 <= k < t[i].2.len() implies #[trigger] f(t[i].2[k]) == subtree_bits(
        t,
        mb,
        node_pos(t, t[i].2[k]),
    ) by {
        let c = t[i].2[k];
        lemma_child_pos(t, i, k);
        let q = node_pos(t, c);
        assert(rooted(m, t[q].0));
        assert(t[0].0 != t[q].0);
        lemma_forest_holds(t, m, c);
        if c != INIT_PID {
            assert(subtree_bits(t, mb, q) <= u64::MAX);
            law_round_trip(subtree_bits(t, mb, q) as u64);
        }
    }
    lemma_split_at_children(t, mb, i, f);
}

/// The init process, and every process that the process tree does not
/// hold, keeps its record as it was read: its total stays its own memory.
pub proof fn law_others_keep_own_memory(t: Seq<TreeNode>, m: Map<u32, ProcessMemoryInfo>, p: u32)
    requires
        forall|k: u32| #[trigger] m.contains_key(k) ==> m[k].total_memory == m[k].memory,
        m.contains_key(p),
        !rooted(m, p) || p == INIT_PID,
    ensures
        tree_totals(t, m)[p] == m[p],
        tree_totals(t, m)[p].total_memory == m[p].memory,
{
}

/// The largest top-level processes are ordered by their totals, the bytes
/// of each process together with its descendants, largest first; each comes
/// with its own record; and no top-level process left out has a larger
/// total than one listed.
pub proof fn law_first_orders_by_total(m: Map<u32, ProcessMemoryInfo>, n: nat, rows: Seq<(u32, ProcessMemoryInfo)>)
    requires
        top_rows(m, n, rows),
    ensures
        forall|i: int|
            0 <= i < rows.len() ==> m.contains_key(#[trigger] rows[i].0) && rows[i].1 == m[rows[i].0]
                && (m[rows[i].0].parent is None || m[rows[i].0].parent == Some(INIT_PID)),
        forall|i: int, j: int|
            0 <= i < j < rows.len() ==> storage_bits(#[trigger] rows[i].1.total_memory) >= storage_bits(
                #[trigger] rows[j].1.total_memory,
            ),
        forall|pid: u32, i: int|
            #![trigger m[pid], rows[i]]
            m.contains_key(pid) && (m[pid].parent is None || m[pid].parent == Some(INIT_PID)) && 0 <= i
                < rows.len() && (forall|j: int| 0 <= j < rows.len() ==> #[trigger] rows[j].0 != pid)
                ==> storage_bits(rows[i].1.total_memory) >= storage_bits(m[pid].total_memory),
{
    assert forall|i: int, j: int| 0 <= i < j < rows.len() implies storage_bits(
        #[trigger] rows[i].1.total_memory,
    ) >= storage_bits(#[trigger] rows[j].1.total_memory) by {
        assert(total_bits(rows[i].1) >= total_bits(rows[j].1));
    }
    assert forall|pid: u32, i: int|
        #![trigger m[pid], rows[i]]
        m.contains_key(pid) && (m[pid].parent is None || m[pid].parent == Some(INIT_PID)) && 0 <= i
            < rows.len() && (forall|j: int| 0 <= j < rows.len() ==> #[trigger] rows[j].0 != pid)
            implies storage_bits(rows[i].1.total_memory) >= storage_bits(m[pid].total_memory) by {
        assert(top_level(m, pid));
        assert(total_bits(rows[i].1) >= total_bits(m[pid]));
    }
}

/// The memory of the machine and of each of its processes.
pub struct Memory {
    pub total_memory: Storage,
    pub used_memory: Storage,
    pub total_swap: Storage,
    pub used_swap: Storage,
    pub processes: HashMap<u32, ProcessMemoryInfo>,
}

/// A copy of an optional string.
fn copy_text(s: &Option<String>) -> (r: Option<String>)
    ensures
        r == *s,
{
    match s {
        Some(text) => Some(text.clone()),
        None => None,
    }
}

/// The records of the processes read, by pid; where a pid was read twice, the
/// later read stands.
pub fn process_map(samples: &Vec<ProcessSample>) -> (processes: HashMap<u32, ProcessMemoryInfo>)
    ensures
        processes@ == sample_map(samples@),
{
    let mut processes: HashMap<u32, ProcessMemoryInfo> = HashMap::new();
    let mut idx: usize = 0;
    while idx < samples.len()
        invariant
            0 <= idx <= samples.len(),
            processes@ == sample_map(samples@.take(idx as int)),
        decreases samples.len() - idx,
    {
        let sample = &samples[idx];
        let raw_memory = sample.raw_memory;
        let memory = Storage::from_bytes(raw_memory);
        let total = memory;
        let info = ProcessMemoryInfo {
            memory,
            raw_memory,
            name: sample.name.clone(),
            exe: copy_text(&sample.exe),
            parent: sample.parent,
            root: copy_text(&sample.root),
            total_memory: total,
        };
        processes.insert(sample.pid, info);
        proof {
            assert(samples@.take(idx + 1).drop_last() =~= samples@.take(idx as int));
        }
        idx += 1;
    }
    proof {
        assert(samples@.take(samples.len() as int) =~= samples@);
    }
    processes
}

impl Memory {
    /// The memory of the machine and its processes from what was read: the
    /// amounts written in units, a record for each process, and each
    /// process's total worked out over the process tree.
    pub fn from_snapshot(
        total_memory: u64,
        used_memory: u64,
        total_swap: u64,
        used_swap: u64,
        samples: Vec<ProcessSample>,
    ) -> (mem: Memory)
        requires
            !rooted(sample_map(samples@), VIRTUAL_ROOT_PID),
            forest_totals_fit(sample_map(samples@)),
        ensures
            mem.total_memory == storage_from_bytes(total_memory),
            mem.used_memory == storage_from_bytes(used_memory),
            mem.total_swap == storage_from_bytes(total_swap),
            mem.used_swap == storage_from_bytes(used_swap),
            exists|t: Seq<TreeNode>| #[trigger] process_forest(t, sample_map(samples@)),
            forall|t: Seq<TreeNode>|
                #[trigger] process_forest(t, sample_map(samples@)) ==> mem.processes@
                    == tree_totals(t, sample_map(samples@)),
    {
        let total_memory = Storage::from_bytes(total_memory);
        let used_memory = Storage::from_bytes(used_memory);
        let total_swap = Storage::from_bytes(total_swap);
        let used_swap = Storage::from_bytes(used_swap);
        let mut processes = process_map(&samples);
        let ghost base = processes@;
        let tree = build_tree(&processes).unwrap();
        let ghost t = tree_nodes(tree);
        proof {
            assert(process_forest(t, base));
            assert(nonroot_fit(t, memory_bits(base)));
            lemma_forest_walk(t, base, memory_bits(base));
        }
        aggregate_total_memory(&tree, &mut processes);
        proof {
            lemma_node_pos(t, VIRTUAL_ROOT_PID, 0);
            assert forall|k: u32| base.contains_key(k) && k != INIT_PID && has_node(t, k) implies (
            has_node(t, VIRTUAL_ROOT_PID) && k != VIRTUAL_ROOT_PID && descends(
                t,
                node_pos(t, VIRTUAL_ROOT_PID),
                node_pos(t, k),
            )) == rooted(base, k) by {
                let j = choose|j: int| 0 <= j < t.len() && t[j].0 == k;
                lemma_node_pos(t, k, j);
                if rooted(base, k) {
                    lemma_below_root(t, base, j);
                }
                if k != VIRTUAL_ROOT_PID {
                    assert(j != 0);
                }
            }
            lemma_with_totals_same(
                t,
                base,
                |k: u32|
                    has_node(t, VIRTUAL_ROOT_PID) && k != VIRTUAL_ROOT_PID && descends(
                        t,
                        node_pos(t, VIRTUAL_ROOT_PID),
                        node_pos(t, k),
                    ),
                |k: u32| rooted(base, k),
            );
            assert forall|t2: Seq<TreeNode>| #[trigger] process_forest(t2, base) implies processes@
                == tree_totals(t2, base) by {
                law_tree_totals_do_not_depend_on_walk(t, t2, base);
            }
        }
        Memory { total_memory, used_memory, total_swap, used_swap, processes }
    }

    /// Whether a memory can be made of what was read: no process with the
    /// virtual root's pid hangs, through its line of parents, under a process
    /// with no parent, and what each process holds together with its
    /// descendants fits in 64 bits.
    pub fn snapshot_fits(samples: &Vec<ProcessSample>) -> (r: bool)
        ensures
            r == (!rooted(sample_map(samples@), VIRTUAL_ROOT_PID) && forest_totals_fit(
                sample_map(samples@),
            )),
    {
        let processes = process_map(samples);
        let ghost m = processes@;
        if is_rooted(&processes, VIRTUAL_ROOT_PID) {
            return false;
        }
        let tree = build_tree(&processes).unwrap();
        let r = fits_under_root(&tree, &processes);
        proof {
            let t = tree_nodes(tree);
            if r {
                assert forall|t2: Seq<TreeNode>| #[trigger] process_forest(t2, m) implies nonroot_fit(
                    t2,
                    memory_bits(m),
                ) by {
                    law_fit_does_not_depend_on_walk(t, t2, m);
                }
            } else {
                assert(process_forest(t, m));
            }
        }
        r
    }

    /// The process tree of this memory's processes; building it never fails.
    /// It holds the virtual root, then each process whose line of parents ends
    /// in a process with no parent, once, under its parent; the first node
    /// with an id lists the nodes that hang under that id as its children.
    /// Where no process with the virtual root's pid is among those, ids are
    /// unique, so each node lists exactly the nodes that hang under it.
    pub fn tree(&self) -> (r: Result<Tree<u32, ()>, TreeError>)
        ensures
            r is Ok,
            r matches Ok(t) ==> process_nodes(tree_nodes(t), self.processes@),
            r matches Ok(t) ==> (!rooted(self.processes@, VIRTUAL_ROOT_PID) ==> process_forest(
                tree_nodes(t),
                self.processes@,
            )),
    {
        build_tree(&self.processes)
    }
    /// The `n` top-level processes, those with no parent or with the init
    /// process as parent, with the largest totals, largest first, each with a
    /// copy of its record.
    pub fn first(&self, n: usize) -> (rows: Vec<(u32, ProcessMemoryInfo)>)
        ensures
            top_rows(self.processes@, n as nat, rows@),
    {
        let ghost m = self.processes@;
        let mut candidates: Vec<(u64, u32)> = Vec::new();
        let ghost mut visited: Set<u32> = Set::empty();
        for (pid, process) in it: self.processes.iter()
            invariant
                m == self.processes@,
                visited.finite(),
                forall|k: int| 0 <= k < it.index() ==> visited.contains(*(#[trigger] it.seq()[k]).0),
                forall|v: u32|
                    visited.contains(v) ==> exists|k: int|
                        0 <= k < it.index() && *(#[trigger] it.seq()[k]).0 == v,
                it.index() == it.seq().len() ==> visited == m.dom(),
                forall|j: int|
                    0 <= j < candidates@.len() ==> {
                        &&& visited.contains((#[trigger] candidates@[j]).1)
                        &&& top_level(m, candidates@[j].1)
                        &&& candidates@[j].0 == total_bits(m[candidates@[j].1])
                    },
                forall|v: u32|
                    visited.contains(v) && top_level(m, v) ==> exists|j: int|
                        0 <= j < candidates@.len() && (#[trigger] candidates@[j]).1 == v,
                forall|a: int, b: int|
                    0 <= a < b < candidates@.len() ==> (#[trigger] candidates@[a]).1 != (
                    #[trigger] candidates@[b]).1,
        {
            let ghost idx = it.index();
            proof {
                let sq = it.seq();
                assert(sq[idx] == (pid, process));
                if visited.contains(*pid) {
                    let k = choose|k: int| 0 <= k < idx && *(#[trigger] sq[k]).0 == *pid;
                    lemma_walk_keys_distinct(sq, m, k, idx);
                }
            }
            let ghost before = candidates@;
            if matches!(process.parent, None | Some(1)) {
                candidates.push((process.total_memory.to_bytes(), *pid));
            }
            proof {
                assert(*process == m[*pid]);
                assert forall|j: int| 0 <= j < before.len() implies candidates@[j] == before[j] by {}
                if top_level(m, *pid) {
                    assert(candidates@[before.len() as int].1 == *pid);
                }
                assert forall|v: u32| visited.insert(*pid).contains(v) && top_level(m, v) implies exists|j: int|
                    0 <= j < candidates@.len() && (#[trigger] candidates@[j]).1 == v by {
                    if v == *pid {
                        assert(candidates@[before.len() as int].1 == *pid);
                    } else {
                        let j = choose|j: int| 0 <= j < before.len() && (#[trigger] before[j]).1 == v;
                        assert(candidates@[j] == before[j]);
                    }
                }
                visited = visited.insert(*pid);
                assert forall|v: u32| visited.contains(v) implies exists|k: int|
                    0 <= k < idx + 1 && *(#[trigger] it.seq()[k]).0 == v by {
                    if v != *pid {
                        let k = choose|k: int| 0 <= k < idx && *(#[trigger] it.seq()[k]).0 == v;
                    }
                }
                assert forall|v: u32|
                    m.dom().contains(v) && idx + 1 == it.seq().len() implies visited.contains(v) by {
                    let k = choose|k: int| 0 <= k < it.seq().len() && it.seq()[k] == (&v, &m[v]);
                    if k < idx {
                        assert(visited.contains(*it.seq()[k].0));
                    }
                }
                assert(idx + 1 == it.seq().len() ==> visited =~= m.dom());
            }
        }
        let ghost cand = candidates@;
        proof {
            assert(visited == m.dom());
            assert(cand.no_duplicates());
            let pids = cand.map_values(|e: (u64, u32)| e.1);
            assert(pids.to_set() =~= m.dom().filter(|k: u32| top_level(m, k))) by {
                assert forall|v: u32| m.dom().filter(|k: u32| top_level(m, k)).contains(v) implies pids.to_set().contains(v) by {
                    let j = choose|j: int| 0 <= j < cand.len() && (#[trigger] cand[j]).1 == v;
                    assert(pids[j] == v);
                }
                assert forall|v: u32| pids.to_set().contains(v) implies m.dom().filter(|k: u32| top_level(m, k)).contains(v) by {
                    let j = choose|j: int| 0 <= j < pids.len() && pids[j] == v;
                    assert(top_level(m, cand[j].1));
                }
            }
            assert(pids.no_duplicates()) by {
                assert forall|a: int, b: int| 0 <= a < pids.len() && 0 <= b < pids.len() && a != b implies pids[a] != pids[b] by {
                    if a < b {
                        assert(cand[a].1 != cand[b].1);
                    } else {
                        assert(cand[b].1 != cand[a].1);
                    }
                }
            }
            pids.unique_seq_to_set();
            assert(cand.len() == top_level_count(m));
            cand.lemma_multiset_has_no_duplicates();
        }
        let sorted = sorted_by_total(candidates);
        let ghost srt = sorted@;
        proof {
            broadcast use vstd::seq_lib::group_to_multiset_ensures;
            assert(srt.to_multiset().len() == cand.to_multiset().len());
            assert(srt.len() == cand.len());
            assert forall|x: (u64, u32)| srt.contains(x) <==> cand.contains(x) by {
                assert(srt.to_multiset().count(x) == cand.to_multiset().count(x));
            }
            assert forall|x: (u64, u32)| srt.to_multiset().contains(x) implies srt.to_multiset().count(x) == 1 by {}
            srt.lemma_multiset_has_no_duplicates_conv();
        }
        let count = if n < sorted.len() {
            n
        } else {
            sorted.len()
        };
        let mut rows: Vec<(u32, ProcessMemoryInfo)> = Vec::new();
        let mut i: usize = 0;
        while i < count
            invariant
                0 <= i <= count,
                count <= srt.len(),
                sorted@ == srt,
                m == self.processes@,
                forall|x: (u64, u32)| #[trigger] srt.contains(x) ==> cand.contains(x),
                forall|j: int|
                    0 <= j < cand.len() ==> {
                        &&& top_level(m, (#[trigger] cand[j]).1)
                        &&& cand[j].0 == total_bits(m[cand[j].1])
                    },
                rows@.len() == i,
                forall|j: int| 0 <= j < i ==> #[trigger] rows@[j] == (srt[j].1, m[srt[j].1]),
            decreases count - i,
        {
            proof {
                assert(srt.contains(srt[i as int]));
                let j = choose|j: int| 0 <= j < cand.len() && cand[j] == srt[i as int];
                assert(top_level(m, cand[j].1));
            }
            let pid = sorted[i].1;
            match self.processes.get(&pid) {
                Some(process) => {
                    rows.push((pid, process.duplicate()));
                },
                None => {},
            }
            i += 1;
        }
        proof {
            let r = rows@;
            assert forall|a: int| 0 <= a < srt.len() implies top_level(m, (#[trigger] srt[a]).1)
                && srt[a].0 == total_bits(m[srt[a].1]) by {
                assert(srt.contains(srt[a]));
                let j = choose|j: int| 0 <= j < cand.len() && cand[j] == srt[a];
                assert(top_level(m, cand[j].1));
            }
            assert forall|a: int, b: int| 0 <= a < b < r.len() implies #[trigger] r[a].0 != #[trigger] r[b].0 by {
                assert(r[a] == (srt[a].1, m[srt[a].1]));
                assert(r[b] == (srt[b].1, m[srt[b].1]));
                assert(srt[a] != srt[b]);
            }
            assert forall|a: int, b: int| 0 <= a < b < r.len() implies total_bits(#[trigger] r[a].1)
                >= total_bits(#[trigger] r[b].1) by {
                assert(r[a] == (srt[a].1, m[srt[a].1]));
                assert(r[b] == (srt[b].1, m[srt[b].1]));
            }
            assert forall|pid: u32, a: int|
                #![trigger top_level(m, pid), r[a]]
                top_level(m, pid) && 0 <= a < r.len() && (forall|j: int|
                    0 <= j < r.len() ==> #[trigger] r[j].0 != pid) implies total_bits(r[a].1)
                >= total_bits(m[pid]) by {
                let j = choose|j: int| 0 <= j < cand.len() && (#[trigger] cand[j]).1 == pid;
                assert(cand.contains(cand[j]));
                assert(srt.contains(cand[j]));
                let p = choose|p: int| 0 <= p < srt.len() && srt[p] == cand[j];
                if p < r.len() {
                    assert(r[p].0 == pid);
                }
                assert(r[a] == (srt[a].1, m[srt[a].1]));
            }
        }
        rows
    }
}

} // verus!
