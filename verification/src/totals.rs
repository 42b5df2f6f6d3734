//! The memory that each process holds together with its descendants in the
//! process tree.

use vstd::prelude::*;
use std::collections::HashMap;
use tree_ds::prelude::Tree;
use crate::storage::{Storage, storage_bits, storage_from_bytes, law_round_trip, law_sum_adds_bytes};
use crate::process::{ProcessMemoryInfo, INIT_PID, VIRTUAL_ROOT_PID, parent_key, rooted};
use crate::tree::{TreeNode, tree_nodes, has_node, first_position, children_of, node_pos, lemma_first_pos};
use crate::forest::{unique_ids, children_after, process_forest};

verus! {

broadcast use crate::tree::lemma_node_pos_found;

/// The bytes of each known process's own memory.
pub open spec fn memory_bits(m: Map<u32, ProcessMemoryInfo>) -> Map<u32, u64> {
    Map::new(|k: u32| m.contains_key(k), |k: u32| storage_bits(m[k].memory))
}

/// The bytes of a process's own memory, or none for a process not known.
pub open spec fn own_bits(mb: Map<u32, u64>, pid: u32) -> nat {
    if mb.contains_key(pid) {
        mb[pid] as nat
    } else {
        0
    }
}

/// The bytes that the node at position `i` gives back: the init process's own
/// memory alone, and for any other process its own memory together with what
/// its children give back.
pub open spec fn subtree_bits(t: Seq<TreeNode>, mb: Map<u32, u64>, i: int) -> nat
    decreases t.len() - i, t[i].2.len() + 1,
{
    if 0 <= i < t.len() {
        if t[i].0 == INIT_PID {
            own_bits(mb, INIT_PID)
        } else {
            own_bits(mb, t[i].0) + children_bits(t, mb, i, t[i].2.len() as int)
        }
    } else {
        0
    }
}

/// What the first `k` children of the node at position `i` give back; a child
/// that stands nowhere after it gives nothing.
pub open spec fn children_bits(t: Seq<TreeNode>, mb: Map<u32, u64>, i: int, k: int) -> nat
    decreases t.len() - i, k,
{
    if 0 <= i < t.len() && 0 < k <= t[i].2.len() {
        let c = t[i].2[k - 1];
        let j = node_pos(t, c);
        children_bits(t, mb, i, k - 1) + if i < j < t.len() && t[j].0 == c {
            subtree_bits(t, mb, j)
        } else {
            0
        }
    } else {
        0
    }
}

/// The node at position `j` stands at or below the node at position `i`.
pub open spec fn descends(t: Seq<TreeNode>, i: int, j: int) -> bool
    decreases t.len() - i,
{
    &&& 0 <= i < t.len()
    &&& i == j || exists|k: int|
        #![trigger t[i].2[k]]
        0 <= k < t[i].2.len() && {
            let q = node_pos(t, t[i].2[k]);
            &&& i < q < t.len()
            &&& t[q].0 == t[i].2[k]
            &&& descends(t, q, j)
        }
}

/// The node at position `j` stands at or below the `k`-th child of the node
/// at position `i`.
pub open spec fn below_child(t: Seq<TreeNode>, i: int, k: int, j: int) -> bool {
    let q = node_pos(t, t[i].2[k]);
    &&& 0 <= i < t.len()
    &&& 0 <= k < t[i].2.len()
    &&& i < q < t.len()
    &&& t[q].0 == t[i].2[k]
    &&& descends(t, q, j)
}

/// A tree whose ids are unique and whose children stand after their parents.
pub open spec fn tree_shape(t: Seq<TreeNode>) -> bool {
    &&& unique_ids(t)
    &&& children_after(t)
}

/// Whether what every node at or below the node at position `i` gives back
/// fits in 64 bits.
pub open spec fn fits_below(t: Seq<TreeNode>, mb: Map<u32, u64>, i: int) -> bool {
    forall|j: int| #[trigger] descends(t, i, j) ==> subtree_bits(t, mb, j) <= u64::MAX
}

/// Whether what every node but the virtual root gives back fits in 64 bits.
pub open spec fn nonroot_fit(t: Seq<TreeNode>, mb: Map<u32, u64>) -> bool {
    forall|j: int|
        0 <= j < t.len() && t[j].0 != VIRTUAL_ROOT_PID ==> #[trigger] subtree_bits(t, mb, j)
            <= u64::MAX
}

/// A record with its total set to `total`.
pub open spec fn with_total(p: ProcessMemoryInfo, total: Storage) -> ProcessMemoryInfo {
    ProcessMemoryInfo { total_memory: total, ..p }
}

/// `m` with the total of every process that `chosen` picks, that stands in
/// the tree and is not the init process, set to what its node gives back.
pub open spec fn with_totals(
    t: Seq<TreeNode>,
    m: Map<u32, ProcessMemoryInfo>,
    chosen: spec_fn(u32) -> bool,
) -> Map<u32, ProcessMemoryInfo> {
    Map::new(
        |k: u32| m.contains_key(k),
        |k: u32|
            if chosen(k) && k != INIT_PID && has_node(t, k) {
                with_total(
                    m[k],
                    storage_from_bytes(subtree_bits(t, memory_bits(m), node_pos(t, k)) as u64),
                )
            } else {
                m[k]
            },
    )
}

/// Working out totals changes totals alone: the table keeps its keys, every
/// record keeps all but its total, and the records of the init process and
/// of the processes not chosen stay as they were.
pub proof fn law_totals_change_only_totals(
    t: Seq<TreeNode>,
    m: Map<u32, ProcessMemoryInfo>,
    chosen: spec_fn(u32) -> bool,
)
    ensures
        with_totals(t, m, chosen).dom() == m.dom(),
        forall|k: u32|
            m.contains_key(k) ==> #[trigger] with_totals(t, m, chosen)[k] == with_total(
                m[k],
                with_totals(t, m, chosen)[k].total_memory,
            ),
        forall|k: u32|
            m.contains_key(k) && (!chosen(k) || k == INIT_PID) ==> #[trigger] with_totals(t, m, chosen)[k]
                == m[k],
{
    assert(with_totals(t, m, chosen).dom() =~= m.dom());
}

/// What the first children give back grows with how many are counted.
proof fn lemma_children_bits_grow(t: Seq<TreeNode>, mb: Map<u32, u64>, i: int, k: int, n: int)
    requires
        0 <= k <= n,
        0 <= i < t.len(),
        n <= t[i].2.len(),
    ensures
        children_bits(t, mb, i, k) <= children_bits(t, mb, i, n),
    decreases n - k,
{
    if k < n {
        lemma_children_bits_grow(t, mb, i, k, n - 1);
    }
}

/// With unique ids, the node that has an id stands at that id's position.
pub(crate) proof fn lemma_node_pos(t: Seq<TreeNode>, id: u32, i: int)
    requires
        unique_ids(t),
        0 <= i < t.len(),
        t[i].0 == id,
    ensures
        node_pos(t, id) == i,
{
    assert forall|j: int| 0 <= j < i implies t[j].0 != id by {
        assert(t[j].0 != t[i].0);
    }
    lemma_first_pos(t, id, i);
}

/// Setting totals leaves every process's own memory as it was.
proof fn lemma_with_totals_memory(
    t: Seq<TreeNode>,
    m: Map<u32, ProcessMemoryInfo>,
    chosen: spec_fn(u32) -> bool,
)
    ensures
        memory_bits(with_totals(t, m, chosen)) == memory_bits(m),
{
    assert(memory_bits(with_totals(t, m, chosen)) =~= memory_bits(m));
}

/// Setting the totals that one choice picks and then those that another
/// picks sets the totals that either picks.
proof fn lemma_with_totals_twice(
    t: Seq<TreeNode>,
    m: Map<u32, ProcessMemoryInfo>,
    first: spec_fn(u32) -> bool,
    second: spec_fn(u32) -> bool,
)
    ensures
        with_totals(t, with_totals(t, m, first), second) == with_totals(
            t,
            m,
            |k: u32| first(k) || second(k),
        ),
{
    lemma_with_totals_memory(t, m, first);
    assert(with_totals(t, with_totals(t, m, first), second) =~= with_totals(
        t,
        m,
        |k: u32| first(k) || second(k),
    ));
}

/// Picking nothing sets nothing.
proof fn lemma_with_totals_none(t: Seq<TreeNode>, m: Map<u32, ProcessMemoryInfo>)
    ensures
        with_totals(t, m, |k: u32| false) == m,
{
    assert(with_totals(t, m, |k: u32| false) =~= m);
}

/// Two choices that agree on every process set the same totals.
pub(crate) proof fn lemma_with_totals_same(
    t: Seq<TreeNode>,
    m: Map<u32, ProcessMemoryInfo>,
    a: spec_fn(u32) -> bool,
    b: spec_fn(u32) -> bool,
)
    requires
        forall|k: u32| m.contains_key(k) && k != INIT_PID && has_node(t, k) ==> (a(k) <==> b(k)),
    ensures
        with_totals(t, m, a) == with_totals(t, m, b),
{
    assert(with_totals(t, m, a) =~= with_totals(t, m, b));
}

/// A node stands at or below another exactly when it is that node or stands
/// at or below one of its children.
proof fn lemma_descends_unfold(t: Seq<TreeNode>, i: int, j: int)
    ensures
        descends(t, i, j) <==> (0 <= i < t.len() && (i == j || exists|k: int|
            0 <= k < t[i].2.len() && #[trigger] below_child(t, i, k, j))),
{
    if descends(t, i, j) && i != j {
        let k = choose|k: int|
            #![trigger t[i].2[k]]
            0 <= k < t[i].2.len() && {
                let q = node_pos(t, t[i].2[k]);
                &&& i < q < t.len()
                &&& t[q].0 == t[i].2[k]
                &&& descends(t, q, j)
            };
        assert(below_child(t, i, k, j));
    }
    if 0 <= i < t.len() && i != j && exists|k: int|
        0 <= k < t[i].2.len() && #[trigger] below_child(t, i, k, j) {
        let k = choose|k: int| 0 <= k < t[i].2.len() && #[trigger] below_child(t, i, k, j);
        let c = t[i].2[k];
        assert(descends(t, node_pos(t, c), j));
    }
}

/// The processes at or below the first `k + 1` children of a node are those
/// at or below the first `k` and those at or below the next one.
proof fn lemma_next_child(t: Seq<TreeNode>, i: int, k: int)
    requires
        0 <= k,
    ensures
        forall|key: u32|
            #![trigger node_pos(t, key)]
            (exists|kk: int| 0 <= kk < k && below_child(t, i, kk, node_pos(t, key))) || below_child(
                t,
                i,
                k,
                node_pos(t, key),
            ) <==> exists|kk: int| 0 <= kk < k + 1 && below_child(t, i, kk, node_pos(t, key)),
{
    assert forall|key: u32|
        #![trigger node_pos(t, key)]
        (exists|kk: int| 0 <= kk < k && below_child(t, i, kk, node_pos(t, key))) || below_child(
            t,
            i,
            k,
            node_pos(t, key),
        ) <==> exists|kk: int| 0 <= kk < k + 1 && below_child(t, i, kk, node_pos(t, key)) by {
        let j = node_pos(t, key);
        if exists|kk: int| 0 <= kk < k + 1 && below_child(t, i, kk, j) {
            let kk = choose|kk: int| 0 <= kk < k + 1 && below_child(t, i, kk, j);
            if kk < k {
                assert(exists|kk: int| 0 <= kk < k && below_child(t, i, kk, j));
            }
        }
    }
}

/// A node stands at or below another only at or after its position.
proof fn lemma_descends_after(t: Seq<TreeNode>, i: int, j: int)
    requires
        descends(t, i, j),
    ensures
        i <= j,
    decreases t.len() - i,
{
    if i != j {
        lemma_descends_unfold(t, i, j);
        let k = choose|k: int| 0 <= k < t[i].2.len() && #[trigger] below_child(t, i, k, j);
        lemma_descends_after(t, node_pos(t, t[i].2[k]), j);
    }
}

/// A node at or below another stands within the tree.
proof fn lemma_descends_in_range(t: Seq<TreeNode>, i: int, j: int)
    requires
        descends(t, i, j),
    ensures
        0 <= j < t.len(),
    decreases t.len() - i,
{
    if i != j {
        lemma_descends_unfold(t, i, j);
        let k = choose|k: int| 0 <= k < t[i].2.len() && #[trigger] below_child(t, i, k, j);
        lemma_descends_in_range(t, node_pos(t, t[i].2[k]), j);
    }
}

/// What fits at and below a node fits at and below each child that the tree
/// holds after it.
proof fn lemma_fits_child(t: Seq<TreeNode>, mb: Map<u32, u64>, i: int, k: int)
    requires
        0 <= i < t.len(),
        0 <= k < t[i].2.len(),
        has_node(t, t[i].2[k]),
        i < node_pos(t, t[i].2[k]),
        fits_below(t, mb, i),
    ensures
        fits_below(t, mb, node_pos(t, t[i].2[k])),
{
    assert forall|j: int| #[trigger] descends(t, node_pos(t, t[i].2[k]), j) implies subtree_bits(t, mb, j) <= u64::MAX by {
        assert(below_child(t, i, k, j));
        lemma_descends_unfold(t, i, j);
    }
}

/// Every child named at or below the node at position `i` that the tree
/// holds has its first node after the node that names it: the walk down
/// from `i`, which finds each child by its id, goes forward and ends.
pub open spec fn walk_forward(t: Seq<TreeNode>, i: int) -> bool {
    forall|j: int, k: int|
        #![trigger descends(t, i, j), t[j].2[k]]
        descends(t, i, j) && 0 <= k < t[j].2.len() && has_node(t, t[j].2[k]) ==> j < node_pos(
            t,
            t[j].2[k],
        )
}

/// Every node at or below the node at position `i`, but that node, gives
/// back what fits in 64 bits.
pub open spec fn fits_under(t: Seq<TreeNode>, mb: Map<u32, u64>, i: int) -> bool {
    forall|j: int| #[trigger] descends(t, i, j) && j != i ==> subtree_bits(t, mb, j) <= u64::MAX
}

/// A child that the tree holds, of a node whose walk goes forward, stands
/// after it, and the walk goes forward from it too.
proof fn lemma_walk_child(t: Seq<TreeNode>, i: int, k: int)
    requires
        walk_forward(t, i),
        0 <= i < t.len(),
        0 <= k < t[i].2.len(),
        has_node(t, t[i].2[k]),
    ensures
        i < node_pos(t, t[i].2[k]) < t.len(),
        t[node_pos(t, t[i].2[k])].0 == t[i].2[k],
        walk_forward(t, node_pos(t, t[i].2[k])),
{
    lemma_descends_unfold(t, i, i);
    let q = node_pos(t, t[i].2[k]);
    assert(i < q);
    assert forall|j: int, kk: int|
        #![trigger descends(t, q, j), t[j].2[kk]]
        descends(t, q, j) && 0 <= kk < t[j].2.len() && has_node(t, t[j].2[kk]) implies j < node_pos(
            t,
            t[j].2[kk],
        ) by {
        assert(below_child(t, i, k, j));
        lemma_descends_unfold(t, i, j);
    }
}

/// With unique ids and children after their parents, every walk goes
/// forward.
proof fn lemma_shape_walk(t: Seq<TreeNode>, i: int)
    requires
        tree_shape(t),
    ensures
        walk_forward(t, i),
{
    assert forall|j: int, k: int|
        #![trigger descends(t, i, j), t[j].2[k]]
        descends(t, i, j) && 0 <= k < t[j].2.len() && has_node(t, t[j].2[k]) implies j < node_pos(
            t,
            t[j].2[k],
        ) by {
        lemma_descends_in_range(t, i, j);
        lemma_child_pos(t, j, k);
    }
}

/// What `calculate_subtree_memory` gives back and leaves behind for `pid`.
pub open spec fn subtree_result(
    t: Seq<TreeNode>,
    m: Map<u32, ProcessMemoryInfo>,
    pid: u32,
    total: Storage,
    after: Map<u32, ProcessMemoryInfo>,
) -> bool {
    if has_node(t, pid) {
        let i = node_pos(t, pid);
        &&& storage_bits(total) == subtree_bits(t, memory_bits(m), i)
        &&& pid != INIT_PID ==> total == storage_from_bytes(
            subtree_bits(t, memory_bits(m), i) as u64,
        )
        &&& pid == INIT_PID ==> total == (if m.contains_key(INIT_PID) {
            m[INIT_PID].memory
        } else {
            storage_from_bytes(0)
        })
        &&& after == with_totals(t, m, |k: u32| descends(t, i, node_pos(t, k)))
    } else {
        &&& total == storage_from_bytes(0)
        &&& after == m
    }
}

/// The child at `k` of the node at `i` stands after it, at its own position.
pub(crate) proof fn lemma_child_pos(t: Seq<TreeNode>, i: int, k: int)
    requires
        tree_shape(t),
        0 <= i < t.len(),
        0 <= k < t[i].2.len(),
    ensures
        i < node_pos(t, t[i].2[k]) < t.len(),
        t[node_pos(t, t[i].2[k])].0 == t[i].2[k],
        has_node(t, t[i].2[k]),
{
    let j = choose|j: int| #![trigger t[j]] i < j < t.len() && t[j].0 == t[i].2[k] && t[j].1 == Some(t[i].0);
    lemma_node_pos(t, t[i].2[k], j);
}

/// Works out what the process `pid` holds together with its descendants,
/// and sets that as the total of each process at or below it, but for the
/// init process, whose total stays its own memory and which gives back its
/// own memory alone. A pid that the tree does not hold gives nothing and
/// changes nothing. Each child is found by its id, so where the tree holds
/// `pid` the walk down from it must go forward.
fn calculate_subtree_memory(
    tree: &Tree<u32, ()>,
    processes: &mut HashMap<u32, ProcessMemoryInfo>,
    pid: u32,
) -> (total: Storage)
    requires
        has_node(tree_nodes(*tree), pid) ==> walk_forward(tree_nodes(*tree), node_pos(tree_nodes(*tree), pid)),
        has_node(tree_nodes(*tree), pid) ==> fits_below(
            tree_nodes(*tree),
            memory_bits(old(processes)@),
            node_pos(tree_nodes(*tree), pid),
        ),
    ensures
        subtree_result(tree_nodes(*tree), old(processes)@, pid, total, final(processes)@),
    decreases (if has_node(tree_nodes(*tree), pid) {
        tree_nodes(*tree).len() - node_pos(tree_nodes(*tree), pid)
    } else {
        0
    }),
{
    let ghost t = tree_nodes(*tree);
    let ghost m0 = processes@;
    let ghost mb = memory_bits(m0);
    proof {
        law_round_trip(0);
    }
    let children_ids = match children_of(tree, pid) {
        Some(v) => v,
        None => {
            return Storage::from_bytes(0);
        },
    };
    let ghost i = node_pos(t, pid);
    proof {
        let fi = choose|fi: int| #![trigger t[fi]] first_position(t, pid, fi) && children_ids@ == t[fi].2;
        lemma_first_pos(t, pid, fi);
        assert(has_node(t, pid));
        lemma_with_totals_none(t, m0);
    }
    if pid == INIT_PID {
        let mut k: usize = 0;
        while k < children_ids.len()
            invariant
                t == tree_nodes(*tree),
                0 <= i < t.len(),
                t[i].0 == pid,
                pid == INIT_PID,
                children_ids@ == t[i].2,
                walk_forward(t, i),
                fits_below(t, mb, i),
                mb == memory_bits(m0),
                0 <= k <= children_ids.len(),
                processes@ == with_totals(
                    t,
                    m0,
                    |key: u32| exists|kk: int| 0 <= kk < k && below_child(t, i, kk, node_pos(t, key)),
                ),
            decreases children_ids.len() - k,
        {
            let child = children_ids[k];
            let ghost done = |key: u32| exists|kk: int| 0 <= kk < k && below_child(t, i, kk, node_pos(t, key));
            let ghost mid = processes@;
            proof {
                lemma_with_totals_memory(t, m0, done);
                if has_node(t, child) {
                    lemma_walk_child(t, i, k as int);
                    lemma_fits_child(t, mb, i, k as int);
                }
            }
            let _ = calculate_subtree_memory(tree, processes, child);
            proof {
                lemma_child_step(t, m0, mid, processes@, i, k as int, done);
                lemma_next_child(t, i, k as int);
                lemma_with_totals_same(
                    t,
                    m0,
                    |key: u32| done(key) || below_child(t, i, k as int, node_pos(t, key)),
                    |key: u32| exists|kk: int| 0 <= kk < k + 1 && below_child(t, i, kk, node_pos(t, key)),
                );
            }
            k += 1;
        }
        proof {
            assert forall|key: u32| m0.contains_key(key) && key != INIT_PID && has_node(t, key) implies
                (exists|kk: int| 0 <= kk < k && below_child(t, i, kk, node_pos(t, key))) == descends(t, i, node_pos(t, key)) by {
                lemma_descends_unfold(t, i, node_pos(t, key));
            }
            lemma_with_totals_same(
                t,
                m0,
                |key: u32| exists|kk: int| 0 <= kk < k && below_child(t, i, kk, node_pos(t, key)),
                |key: u32| descends(t, i, node_pos(t, key)),
            );
        }
        return match processes.get(&INIT_PID) {
            Some(p) => p.memory,
            None => Storage::from_bytes(0),
        };
    }
    let mut children_total = Storage::from_bytes(0);
    let mut k: usize = 0;
    while k < children_ids.len()
        invariant
            t == tree_nodes(*tree),
            0 <= i < t.len(),
            t[i].0 == pid,
            pid != INIT_PID,
            children_ids@ == t[i].2,
            walk_forward(t, i),
            fits_below(t, mb, i),
            mb == memory_bits(m0),
            0 <= k <= children_ids.len(),
            storage_bits(children_total) == children_bits(t, mb, i, k as int),
            processes@ == with_totals(
                t,
                m0,
                |key: u32| exists|kk: int| 0 <= kk < k && below_child(t, i, kk, node_pos(t, key)),
            ),
        decreases children_ids.len() - k,
    {
        let child = children_ids[k];
        let ghost done = |key: u32| exists|kk: int| 0 <= kk < k && below_child(t, i, kk, node_pos(t, key));
        let ghost mid = processes@;
        proof {
            lemma_with_totals_memory(t, m0, done);
            if has_node(t, child) {
                lemma_walk_child(t, i, k as int);
                lemma_fits_child(t, mb, i, k as int);
            }
        }
        let child_total = calculate_subtree_memory(tree, processes, child);
        proof {
            lemma_child_step(t, m0, mid, processes@, i, k as int, done);
            lemma_next_child(t, i, k as int);
            lemma_with_totals_same(
                t,
                m0,
                |key: u32| done(key) || below_child(t, i, k as int, node_pos(t, key)),
                |key: u32| exists|kk: int| 0 <= kk < k + 1 && below_child(t, i, kk, node_pos(t, key)),
            );
            let q = node_pos(t, child);
            if has_node(t, child) {
                assert(children_bits(t, mb, i, k + 1) == children_bits(t, mb, i, k as int) + subtree_bits(t, mb, q));
            } else {
                assert(children_bits(t, mb, i, k + 1) == children_bits(t, mb, i, k as int));
            }
            lemma_children_bits_grow(t, mb, i, k + 1, t[i].2.len() as int);
            lemma_descends_unfold(t, i, i);
            assert(subtree_bits(t, mb, i) <= u64::MAX);
            law_sum_adds_bytes(children_total, child_total);
        }
        children_total = children_total + child_total;
        k += 1;
    }
    let self_memory = match processes.get(&pid) {
        Some(p) => p.memory,
        None => Storage::from_bytes(0),
    };
    proof {
        assert forall|key: u32| m0.contains_key(key) && key != INIT_PID && has_node(t, key) implies
            (exists|kk: int| 0 <= kk < k && below_child(t, i, kk, node_pos(t, key))) == (descends(t, i, node_pos(t, key)) && key != pid) by {
            lemma_descends_unfold(t, i, node_pos(t, key));
            if key != pid {
                assert(t[node_pos(t, key)].0 == key);
            } else {
                if exists|kk: int| 0 <= kk < k && below_child(t, i, kk, node_pos(t, key)) {
                    let kk = choose|kk: int| 0 <= kk < k && below_child(t, i, kk, node_pos(t, key));
                    lemma_descends_after(t, node_pos(t, t[i].2[kk]), node_pos(t, key));
                }
            }
        }
        lemma_with_totals_same(
            t,
            m0,
            |key: u32| exists|kk: int| 0 <= kk < k && below_child(t, i, kk, node_pos(t, key)),
            |key: u32| descends(t, i, node_pos(t, key)) && key != pid,
        );
        lemma_with_totals_memory(t, m0, |key: u32| descends(t, i, node_pos(t, key)) && key != pid);
        assert(storage_bits(self_memory) == own_bits(mb, pid));
        lemma_descends_unfold(t, i, i);
        assert(subtree_bits(t, mb, i) <= u64::MAX);
        law_sum_adds_bytes(self_memory, children_total);
    }
    let total = &self_memory + &children_total;
    let ghost before = processes@;
    if let Some(mut process) = processes.remove(&pid) {
        process.total_memory = total;
        processes.insert(pid, process);
    }
    proof {
        assert(processes@ =~= with_totals(t, m0, |key: u32| descends(t, i, node_pos(t, key))));
    }
    total
}

/// What working out the child at `k` of the node at `i` leaves behind, from
/// the totals already set for the children before it, is the totals set for
/// those and for the processes at or below that child.
proof fn lemma_child_step(
    t: Seq<TreeNode>,
    m0: Map<u32, ProcessMemoryInfo>,
    mid: Map<u32, ProcessMemoryInfo>,
    after: Map<u32, ProcessMemoryInfo>,
    i: int,
    k: int,
    done: spec_fn(u32) -> bool,
)
    requires
        0 <= i < t.len(),
        0 <= k < t[i].2.len(),
        has_node(t, t[i].2[k]) ==> i < node_pos(t, t[i].2[k]),
        mid == with_totals(t, m0, done),
        exists|total: Storage| subtree_result(t, mid, t[i].2[k], total, after),
    ensures
        after == with_totals(
            t,
            m0,
            |key: u32| done(key) || below_child(t, i, k, node_pos(t, key)),
        ),
{
    let c = t[i].2[k];
    let q = node_pos(t, c);
    let step = |key: u32| below_child(t, i, k, node_pos(t, key));
    lemma_with_totals_memory(t, m0, done);
    if has_node(t, c) {
        lemma_with_totals_same(t, mid, |key: u32| descends(t, q, node_pos(t, key)), step);
    } else {
        assert forall|key: u32| !#[trigger] below_child(t, i, k, node_pos(t, key)) by {
            if below_child(t, i, k, node_pos(t, key)) {
                assert(t[q].0 == c);
            }
        }
        lemma_with_totals_none(t, mid);
        lemma_with_totals_same(t, mid, |key: u32| false, step);
    }
    lemma_with_totals_twice(t, m0, done, step);
}

/// Standing at or below is transitive.
proof fn lemma_descends_trans(t: Seq<TreeNode>, a: int, b: int, c: int)
    requires
        descends(t, a, b),
        descends(t, b, c),
    ensures
        descends(t, a, c),
    decreases t.len() - a,
{
    if a != b {
        lemma_descends_unfold(t, a, b);
        let k = choose|k: int| 0 <= k < t[a].2.len() && #[trigger] below_child(t, a, k, b);
        let q = node_pos(t, t[a].2[k]);
        lemma_descends_trans(t, q, b, c);
        assert(below_child(t, a, k, c));
        lemma_descends_after(t, b, c);
        lemma_descends_unfold(t, a, c);
    }
}

/// In the process tree every node stands at or below the virtual root.
pub proof fn lemma_below_root(t: Seq<TreeNode>, m: Map<u32, ProcessMemoryInfo>, j: int)
    requires
        process_forest(t, m),
        0 <= j < t.len(),
    ensures
        descends(t, 0, j),
    decreases j,
{
    if j == 0 {
        lemma_descends_unfold(t, 0, 0);
    } else {
        let pk = parent_key(m, t[j].0);
        let p = choose|p: int| #![trigger t[p]] 0 <= p < j && t[p].0 == pk;
        lemma_below_root(t, m, p);
        assert(t[p].2.contains(t[j].0));
        let k = choose|k: int| 0 <= k < t[p].2.len() && t[p].2[k] == t[j].0;
        lemma_node_pos(t, t[j].0, j);
        lemma_descends_unfold(t, j, j);
        assert(below_child(t, p, k, j));
        lemma_descends_unfold(t, p, j);
        lemma_descends_trans(t, 0, p, j);
    }
}

/// Works out the totals of every process that hangs, directly or through
/// others, under the virtual root; where the tree holds no virtual root,
/// nothing changes. Each node is found by its id, so the walk down from the
/// virtual root must go forward: where it came back to a node above, it
/// would not end.
pub(crate) fn aggregate_total_memory(tree: &Tree<u32, ()>, processes: &mut HashMap<u32, ProcessMemoryInfo>)
    requires
        has_node(tree_nodes(*tree), VIRTUAL_ROOT_PID) ==> walk_forward(
            tree_nodes(*tree),
            node_pos(tree_nodes(*tree), VIRTUAL_ROOT_PID),
        ),
        has_node(tree_nodes(*tree), VIRTUAL_ROOT_PID) ==> fits_under(
            tree_nodes(*tree),
            memory_bits(old(processes)@),
            node_pos(tree_nodes(*tree), VIRTUAL_ROOT_PID),
        ),
    ensures
        final(processes)@ == with_totals(
            tree_nodes(*tree),
            old(processes)@,
            |key: u32|
                has_node(tree_nodes(*tree), VIRTUAL_ROOT_PID) && key != VIRTUAL_ROOT_PID
                    && descends(
                    tree_nodes(*tree),
                    node_pos(tree_nodes(*tree), VIRTUAL_ROOT_PID),
                    node_pos(tree_nodes(*tree), key),
                ),
        ),
{
    let ghost t = tree_nodes(*tree);
    let ghost m0 = processes@;
    let ghost mb = memory_bits(m0);
    let ghost chosen = |key: u32|
        has_node(t, VIRTUAL_ROOT_PID) && key != VIRTUAL_ROOT_PID && descends(
            t,
            node_pos(t, VIRTUAL_ROOT_PID),
            node_pos(t, key),
        );
    proof {
        lemma_with_totals_none(t, m0);
    }
    if let Some(children) = children_of(tree, VIRTUAL_ROOT_PID) {
        let ghost i = node_pos(t, VIRTUAL_ROOT_PID);
        proof {
            let fi = choose|fi: int|
                #![trigger t[fi]]
                first_position(t, VIRTUAL_ROOT_PID, fi) && children@ == t[fi].2;
            lemma_first_pos(t, VIRTUAL_ROOT_PID, fi);
        }
        let mut k: usize = 0;
        while k < children.len()
            invariant
                t == tree_nodes(*tree),
                0 <= i < t.len(),
                t[i].0 == VIRTUAL_ROOT_PID,
                children@ == t[i].2,
                walk_forward(t, i),
                fits_under(t, mb, i),
                mb == memory_bits(m0),
                0 <= k <= children.len(),
                processes@ == with_totals(
                    t,
                    m0,
                    |key: u32| exists|kk: int| 0 <= kk < k && below_child(t, i, kk, node_pos(t, key)),
                ),
            decreases children.len() - k,
        {
            let child_pid = children[k];
            let ghost done = |key: u32| exists|kk: int| 0 <= kk < k && below_child(t, i, kk, node_pos(t, key));
            let ghost mid = processes@;
            proof {
                lemma_with_totals_memory(t, m0, done);
                if has_node(t, child_pid) {
                    lemma_walk_child(t, i, k as int);
                    let q = node_pos(t, child_pid);
                    assert forall|j: int| #[trigger] descends(t, q, j) implies subtree_bits(t, mb, j) <= u64::MAX by {
                        assert(below_child(t, i, k as int, j));
                        lemma_descends_unfold(t, i, j);
                        lemma_descends_after(t, q, j);
                    }
                }
            }
            let _ = calculate_subtree_memory(tree, processes, child_pid);
            proof {
                lemma_child_step(t, m0, mid, processes@, i, k as int, done);
                lemma_next_child(t, i, k as int);
                lemma_with_totals_same(
                    t,
                    m0,
                    |key: u32| done(key) || below_child(t, i, k as int, node_pos(t, key)),
                    |key: u32| exists|kk: int| 0 <= kk < k + 1 && below_child(t, i, kk, node_pos(t, key)),
                );
            }
            k += 1;
        }
        proof {
            assert forall|key: u32| m0.contains_key(key) && key != INIT_PID && has_node(t, key) implies
                (exists|kk: int| 0 <= kk < k && below_child(t, i, kk, node_pos(t, key))) == chosen(key) by {
                lemma_descends_unfold(t, i, node_pos(t, key));
                if key != VIRTUAL_ROOT_PID {
                    assert(t[node_pos(t, key)].0 == key);
                } else {
                    if exists|kk: int| 0 <= kk < k && below_child(t, i, kk, node_pos(t, key)) {
                        let kk = choose|kk: int| 0 <= kk < k && below_child(t, i, kk, node_pos(t, key));
                        lemma_descends_after(t, node_pos(t, t[i].2[kk]), node_pos(t, key));
                    }
                }
            }
            lemma_with_totals_same(
                t,
                m0,
                |key: u32| exists|kk: int| 0 <= kk < k && below_child(t, i, kk, node_pos(t, key)),
                chosen,
            );
        }
    } else {
        proof {
            lemma_with_totals_same(t, m0, |key: u32| false, chosen);
        }
    }
}

/// In the process tree the walk down from the virtual root goes forward, and
/// what fits at every node but the virtual root fits under it.
pub(crate) proof fn lemma_forest_walk(t: Seq<TreeNode>, m: Map<u32, ProcessMemoryInfo>, mb: Map<u32, u64>)
    requires
        process_forest(t, m),
        nonroot_fit(t, mb),
    ensures
        has_node(t, VIRTUAL_ROOT_PID),
        walk_forward(t, node_pos(t, VIRTUAL_ROOT_PID)),
        fits_under(t, mb, node_pos(t, VIRTUAL_ROOT_PID)),
{
    lemma_node_pos(t, VIRTUAL_ROOT_PID, 0);
    lemma_shape_walk(t, 0);
    assert forall|j: int| #[trigger] descends(t, 0, j) && j != 0 implies subtree_bits(t, mb, j) <= u64::MAX by {
        lemma_descends_in_range(t, 0, j);
        assert(t[0].0 != t[j].0);
    }
}

/// The sum of `f` over the ids of `s`.
pub open spec fn sum_over(s: Seq<u32>, f: spec_fn(u32) -> nat) -> nat
    decreases s.len(),
{
    if s.len() == 0 {
        0
    } else {
        sum_over(s.drop_last(), f) + f(s.last())
    }
}

/// What a node's children give back is the sum of what each gives back.
proof fn lemma_children_bits_sum(t: Seq<TreeNode>, mb: Map<u32, u64>, i: int, k: int)
    requires
        tree_shape(t),
        0 <= i < t.len(),
        0 <= k <= t[i].2.len(),
    ensures
        children_bits(t, mb, i, k) == sum_over(
            t[i].2.take(k),
            |c: u32| subtree_bits(t, mb, node_pos(t, c)),
        ),
    decreases k,
{
    if k > 0 {
        lemma_children_bits_sum(t, mb, i, k - 1);
        lemma_child_pos(t, i, k - 1);
        assert(t[i].2.take(k).drop_last() =~= t[i].2.take(k - 1));
    }
}

/// Taking one id out of a sequence takes what it adds out of the sum.
proof fn lemma_sum_remove(s: Seq<u32>, f: spec_fn(u32) -> nat, p: int)
    requires
        0 <= p < s.len(),
    ensures
        sum_over(s, f) == sum_over(s.remove(p), f) + f(s[p]),
    decreases s.len(),
{
    if p < s.len() - 1 {
        lemma_sum_remove(s.drop_last(), f, p);
        assert(s.remove(p).drop_last() =~= s.drop_last().remove(p));
        assert(s.remove(p).last() == s.last());
    } else {
        assert(s.remove(p) =~= s.drop_last());
    }
}

/// Two sequences that hold the same ids, each once, have the same sum.
proof fn lemma_sum_same_ids(s1: Seq<u32>, s2: Seq<u32>, f: spec_fn(u32) -> nat)
    requires
        s1.no_duplicates(),
        s2.no_duplicates(),
        s1.to_set() == s2.to_set(),
    ensures
        sum_over(s1, f) == sum_over(s2, f),
    decreases s1.len(),
{
    if s1.len() == 0 {
        if s2.len() > 0 {
            assert(s2.to_set().contains(s2[0]));
        }
    } else {
        let x = s1.last();
        assert(s1.to_set().contains(x));
        assert(s2.contains(x));
        let p = s2.index_of(x);
        let s2r = s2.remove(p);
        lemma_sum_remove(s2, f, p);
        let s1r = s1.drop_last();
        assert forall|a: int, b: int| 0 <= a < s2r.len() && 0 <= b < s2r.len() && a != b implies s2r[a] != s2r[b] by {
            let aa = if a < p { a } else { a + 1 };
            let bb = if b < p { b } else { b + 1 };
            assert(s2r[a] == s2[aa] && s2r[b] == s2[bb]);
        }
        assert(s1r.to_set() =~= s2r.to_set()) by {
            assert forall|y: u32| s1r.to_set().contains(y) implies s2r.to_set().contains(y) by {
                let a = choose|a: int| 0 <= a < s1r.len() && s1r[a] == y;
                assert(s1[a] == y && a != s1.len() - 1);
                assert(y != x);
                assert(s1.to_set().contains(y));
                let b = choose|b: int| 0 <= b < s2.len() && s2[b] == y;
                assert(b != p);
                if b < p {
                    assert(s2r[b] == y);
                } else {
                    assert(s2r[b - 1] == y);
                }
            }
            assert forall|y: u32| s2r.to_set().contains(y) implies s1r.to_set().contains(y) by {
                let b = choose|b: int| 0 <= b < s2r.len() && s2r[b] == y;
                let bb = if b < p { b } else { b + 1 };
                assert(s2[bb] == y && bb != p);
                assert(y != x);
                assert(s2.to_set().contains(y));
                let a = choose|a: int| 0 <= a < s1.len() && s1[a] == y;
                assert(a != s1.len() - 1);
                assert(s1r[a] == y);
            }
        }
        lemma_sum_same_ids(s1r, s2r, f);
    }
}

/// Two functions that agree on the ids of a sequence give the same sum.
proof fn lemma_sum_agree(s: Seq<u32>, f: spec_fn(u32) -> nat, g: spec_fn(u32) -> nat)
    requires
        forall|c: u32| s.contains(c) ==> f(c) == g(c),
    ensures
        sum_over(s, f) == sum_over(s, g),
    decreases s.len(),
{
    if s.len() > 0 {
        assert forall|c: u32| s.drop_last().contains(c) implies f(c) == g(c) by {
            let a = choose|a: int| 0 <= a < s.drop_last().len() && s.drop_last()[a] == c;
            assert(s[a] == c);
            assert(s.contains(c));
        }
        lemma_sum_agree(s.drop_last(), f, g);
        assert(s.contains(s.last()));
    }
}

/// A process tree holds the virtual root and exactly the rooted processes.
pub(crate) proof fn lemma_forest_holds(t: Seq<TreeNode>, m: Map<u32, ProcessMemoryInfo>, pid: u32)
    requires
        process_forest(t, m),
    ensures
        has_node(t, pid) <==> (pid == VIRTUAL_ROOT_PID || rooted(m, pid)),
{
    if has_node(t, pid) && pid != VIRTUAL_ROOT_PID {
        let j = choose|j: int| 0 <= j < t.len() && t[j].0 == pid;
        assert(j != 0);
        assert(rooted(m, t[j].0));
    }
    if rooted(m, pid) {
        let j = choose|j: int| #![trigger t[j]] 1 <= j < t.len() && t[j].0 == pid;
    }
    if pid == VIRTUAL_ROOT_PID {
        assert(t[0].0 == pid);
    }
}

/// In a process tree, the children of the node of `pid` are exactly the
/// rooted processes whose parent key is `pid`.
proof fn lemma_forest_children(t: Seq<TreeNode>, m: Map<u32, ProcessMemoryInfo>, pid: u32, c: u32)
    requires
        process_forest(t, m),
        has_node(t, pid),
    ensures
        t[node_pos(t, pid)].2.contains(c) <==> (rooted(m, c) && c != VIRTUAL_ROOT_PID && parent_key(
            m,
            c,
        ) == pid),
{
    let i = node_pos(t, pid);
    if t[i].2.contains(c) {
        let k = choose|k: int| 0 <= k < t[i].2.len() && t[i].2[k] == c;
        let j = choose|j: int|
            #![trigger t[j]]
            i < j < t.len() && t[j].0 == t[i].2[k] && t[j].1 == Some(t[i].0);
        assert(j >= 1);
        assert(rooted(m, t[j].0));
        if c == VIRTUAL_ROOT_PID {
            assert(t[0].0 == t[j].0);
        }
    }
    if rooted(m, c) && c != VIRTUAL_ROOT_PID && parent_key(m, c) == pid {
        let j = choose|j: int| #![trigger t[j]] 1 <= j < t.len() && t[j].0 == c;
        let p = choose|p: int| #![trigger t[p]] 0 <= p < j && t[p].0 == parent_key(m, t[j].0);
        lemma_node_pos(t, pid, p);
        assert(t[p].2.contains(t[j].0));
    }
}

/// What each process holds together with its descendants does not depend on
/// the order in which the processes were walked: every process tree of the
/// same processes gives each process the same amount.
pub proof fn law_totals_do_not_depend_on_walk(
    t1: Seq<TreeNode>,
    t2: Seq<TreeNode>,
    m: Map<u32, ProcessMemoryInfo>,
    pid: u32,
)
    requires
        process_forest(t1, m),
        process_forest(t2, m),
        has_node(t1, pid),
    ensures
        has_node(t2, pid),
        subtree_bits(t1, memory_bits(m), node_pos(t1, pid)) == subtree_bits(
            t2,
            memory_bits(m),
            node_pos(t2, pid),
        ),
    decreases t1.len() - node_pos(t1, pid),
{
    let mb = memory_bits(m);
    lemma_forest_holds(t1, m, pid);
    lemma_forest_holds(t2, m, pid);
    let i1 = node_pos(t1, pid);
    let i2 = node_pos(t2, pid);
    if pid != INIT_PID {
        let l1 = t1[i1].2;
        let l2 = t2[i2].2;
        assert(l1.to_set() =~= l2.to_set()) by {
            assert forall|c: u32| l1.to_set().contains(c) <==> l2.to_set().contains(c) by {
                lemma_forest_children(t1, m, pid, c);
                lemma_forest_children(t2, m, pid, c);
            }
        }
        let f1 = |c: u32| subtree_bits(t1, mb, node_pos(t1, c));
        let f2 = |c: u32| subtree_bits(t2, mb, node_pos(t2, c));
        assert forall|c: u32| l2.contains(c) implies f2(c) == f1(c) by {
            assert(l1.to_set().contains(c));
            let k = choose|k: int| 0 <= k < l1.len() && l1[k] == c;
            lemma_child_pos(t1, i1, k);
            law_totals_do_not_depend_on_walk(t1, t2, m, c);
        }
        lemma_children_bits_sum(t1, mb, i1, l1.len() as int);
        lemma_children_bits_sum(t2, mb, i2, l2.len() as int);
        assert(l1.take(l1.len() as int) =~= l1);
        assert(l2.take(l2.len() as int) =~= l2);
        lemma_sum_agree(l2, f2, f1);
        lemma_sum_same_ids(l1, l2, f1);
    }
}

/// In a tree of unique ids with children after their parents, what a node
/// other than the init process gives back is its own memory and the sum of
/// `f` over its children, where `f` agrees with what each child gives back.
pub(crate) proof fn lemma_split_at_children(
    t: Seq<TreeNode>,
    mb: Map<u32, u64>,
    i: int,
    f: spec_fn(u32) -> nat,
)
    requires
        tree_shape(t),
        0 <= i < t.len(),
        t[i].0 != INIT_PID,
        forall|k: int|
            0 <= k < t[i].2.len() ==> #[trigger] f(t[i].2[k]) == subtree_bits(t, mb, node_pos(t, t[i].2[k])),
    ensures
        subtree_bits(t, mb, i) == own_bits(mb, t[i].0) + sum_over(t[i].2, f),
{
    let l = t[i].2;
    lemma_children_bits_sum(t, mb, i, l.len() as int);
    assert(l.take(l.len() as int) =~= l);
    assert forall|c: u32| l.contains(c) implies f(c) == subtree_bits(t, mb, node_pos(t, c)) by {
        let k = choose|k: int| 0 <= k < l.len() && l[k] == c;
        assert(f(l[k]) == subtree_bits(t, mb, node_pos(t, l[k])));
    }
    lemma_sum_agree(l, f, |c: u32| subtree_bits(t, mb, node_pos(t, c)));
}

/// What the process `pid` holds together with its descendants, worked out
/// as `calculate_subtree_memory` works it out but with every sum checked:
/// nothing where some sum at or below it leaves 64 bits. A pid that the tree
/// does not hold gives 0.
fn checked_subtree_total(
    tree: &Tree<u32, ()>,
    processes: &HashMap<u32, ProcessMemoryInfo>,
    pid: u32,
) -> (r: Option<u64>)
    requires
        tree_shape(tree_nodes(*tree)),
    ensures
        has_node(tree_nodes(*tree), pid) ==> (r is Some <==> fits_below(
            tree_nodes(*tree),
            memory_bits(processes@),
            node_pos(tree_nodes(*tree), pid),
        )),
        has_node(tree_nodes(*tree), pid) ==> (r matches Some(x) ==> x == subtree_bits(
            tree_nodes(*tree),
            memory_bits(processes@),
            node_pos(tree_nodes(*tree), pid),
        )),
        !has_node(tree_nodes(*tree), pid) ==> r == Some(0u64),
    decreases tree_nodes(*tree).len() - node_pos(tree_nodes(*tree), pid),
{
    let ghost t = tree_nodes(*tree);
    let ghost mb = memory_bits(processes@);
    let children_ids = match children_of(tree, pid) {
        Some(v) => v,
        None => {
            return Some(0);
        },
    };
    let ghost i = node_pos(t, pid);
    proof {
        let fi = choose|fi: int| #![trigger t[fi]] first_position(t, pid, fi) && children_ids@ == t[fi].2;
        lemma_node_pos(t, pid, fi);
        lemma_descends_unfold(t, i, i);
    }
    let own = match processes.get(&pid) {
        Some(p) => p.memory.to_bytes(),
        None => 0,
    };
    let mut acc: u64 = 0;
    let mut k: usize = 0;
    while k < children_ids.len()
        invariant
            t == tree_nodes(*tree),
            mb == memory_bits(processes@),
            0 <= i < t.len(),
            t[i].0 == pid,
            children_ids@ == t[i].2,
            tree_shape(t),
            0 <= k <= children_ids.len(),
            own == own_bits(mb, pid),
            pid != INIT_PID ==> acc == children_bits(t, mb, i, k as int),
            forall|kk: int| 0 <= kk < k ==> #[trigger] fits_below(t, mb, node_pos(t, t[i].2[kk])),
        decreases children_ids.len() - k,
    {
        let child = children_ids[k];
        proof {
            lemma_child_pos(t, i, k as int);
        }
        let child_total = checked_subtree_total(tree, processes, child);
        match child_total {
            None => {
                proof {
                    if fits_below(t, mb, i) {
                        lemma_fits_child(t, mb, i, k as int);
                    }
                }
                return None;
            },
            Some(x) => {
                if pid != INIT_PID {
                    proof {
                        lemma_children_bits_grow(t, mb, i, k + 1, t[i].2.len() as int);
                    }
                    match acc.checked_add(x) {
                        Some(sum) => {
                            acc = sum;
                        },
                        None => {
                            proof {
                                assert(children_bits(t, mb, i, k + 1) == acc + x);
                                assert(subtree_bits(t, mb, i) > u64::MAX);
                                assert(descends(t, i, i));
                                assert(!fits_below(t, mb, i));
                            }
                            return None;
                        },
                    }
                }
            },
        }
        k += 1;
    }
    let total = if pid == INIT_PID {
        Some(own)
    } else {
        own.checked_add(acc)
    };
    proof {
        if total is Some {
            assert forall|j: int| #[trigger] descends(t, i, j) implies subtree_bits(t, mb, j) <= u64::MAX by {
                lemma_descends_unfold(t, i, j);
                if i != j {
                    let kk = choose|kk: int| 0 <= kk < t[i].2.len() && #[trigger] below_child(t, i, kk, j);
                    assert(fits_below(t, mb, node_pos(t, t[i].2[kk])));
                }
            }
        }
    }
    total
}

/// Whether what every process that hangs under the virtual root holds
/// together with its descendants fits in 64 bits.
pub(crate) fn fits_under_root(tree: &Tree<u32, ()>, processes: &HashMap<u32, ProcessMemoryInfo>) -> (r: bool)
    requires
        process_forest(tree_nodes(*tree), processes@),
    ensures
        r == nonroot_fit(tree_nodes(*tree), memory_bits(processes@)),
{
    let ghost t = tree_nodes(*tree);
    let ghost m = processes@;
    let ghost mb = memory_bits(m);
    proof {
        lemma_node_pos(t, VIRTUAL_ROOT_PID, 0);
    }
    let children = match children_of(tree, VIRTUAL_ROOT_PID) {
        Some(v) => v,
        None => {
            return true;
        },
    };
    proof {
        let fi = choose|fi: int| #![trigger t[fi]] first_position(t, VIRTUAL_ROOT_PID, fi) && children@ == t[fi].2;
        lemma_node_pos(t, VIRTUAL_ROOT_PID, fi);
    }
    let mut k: usize = 0;
    while k < children.len()
        invariant
            t == tree_nodes(*tree),
            m == processes@,
            mb == memory_bits(m),
            tree_shape(t),
            t.len() >= 1,
            t[0].0 == VIRTUAL_ROOT_PID,
            node_pos(t, VIRTUAL_ROOT_PID) == 0,
            children@ == t[0].2,
            0 <= k <= children.len(),
            forall|kk: int| 0 <= kk < k ==> #[trigger] fits_below(t, mb, node_pos(t, t[0].2[kk])),
        decreases children.len() - k,
    {
        let child = children[k];
        proof {
            lemma_child_pos(t, 0, k as int);
        }
        match checked_subtree_total(tree, processes, child) {
            None => {
                proof {
                    let q = node_pos(t, child);
                    let j = choose|j: int| #[trigger] descends(t, q, j) && subtree_bits(t, mb, j) > u64::MAX;
                    lemma_descends_after(t, q, j);
                    lemma_descends_in_range(t, q, j);
                    assert(t[0].0 != t[j].0);
                }
                return false;
            },
            Some(_) => {},
        }
        k += 1;
    }
    proof {
        assert forall|j: int|
            0 <= j < t.len() && t[j].0 != VIRTUAL_ROOT_PID implies #[trigger] subtree_bits(t, mb, j)
            <= u64::MAX by {
            lemma_below_root(t, m, j);
            lemma_descends_unfold(t, 0, j);
            assert(j != 0);
            let kk = choose|kk: int| 0 <= kk < t[0].2.len() && #[trigger] below_child(t, 0, kk, j);
            assert(fits_below(t, mb, node_pos(t, t[0].2[kk])));
        }
    }
    true
}

/// Whether what each process holds together with its descendants fits in 64
/// bits in one process tree holds in every process tree of the same
/// processes.
pub proof fn law_fit_does_not_depend_on_walk(
    t1: Seq<TreeNode>,
    t2: Seq<TreeNode>,
    m: Map<u32, ProcessMemoryInfo>,
)
    requires
        process_forest(t1, m),
        process_forest(t2, m),
        nonroot_fit(t1, memory_bits(m)),
    ensures
        nonroot_fit(t2, memory_bits(m)),
{
    let mb = memory_bits(m);
    assert forall|j: int|
        0 <= j < t2.len() && t2[j].0 != VIRTUAL_ROOT_PID implies #[trigger] subtree_bits(t2, mb, j)
        <= u64::MAX by {
        let pid = t2[j].0;
        lemma_node_pos(t2, pid, j);
        lemma_forest_holds(t2, m, pid);
        lemma_forest_holds(t1, m, pid);
        law_totals_do_not_depend_on_walk(t1, t2, m, pid);
        let j1 = node_pos(t1, pid);
        assert(t1[j1].0 == pid);
    }
}

} // verus!
