//! Building the process tree: every process hangs under its parent, and the
//! processes with no parent hang under a virtual root.

use vstd::prelude::*;
use std::collections::{HashMap, HashSet};
use tree_ds::prelude::Tree;
use crate::process::{
    ProcessMemoryInfo, VIRTUAL_ROOT_PID, parent_key, rooted, rooted_within, lemma_walk_keys_distinct,
};
use crate::tree::{
    TreeError, TreeNode, tree_nodes, tree_unshared, new_tree, add_node, has_node, first_position,
    lemma_first_position_unique,
};

verus! {

/// Every id occurs once.
pub open spec fn unique_ids(t: Seq<TreeNode>) -> bool {
    forall|i: int, j: int|
        #![trigger t[i], t[j]]
        0 <= i < t.len() && 0 <= j < t.len() && i != j ==> t[i].0 != t[j].0
}

/// Every node but the first is a known process that hangs under its parent
/// key, whose node comes before it.
pub open spec fn parent_links(t: Seq<TreeNode>, m: Map<u32, ProcessMemoryInfo>) -> bool {
    forall|i: int|
        #![trigger t[i]]
        1 <= i < t.len() ==> {
            &&& m.contains_key(t[i].0)
            &&& t[i].1 == Some(parent_key(m, t[i].0))
            &&& exists|j: int| #![trigger t[j]] 0 <= j < i && t[j].0 == parent_key(m, t[i].0)
        }
}

/// Every child named by a node is a later node that hangs under it.
pub open spec fn children_after(t: Seq<TreeNode>) -> bool {
    forall|i: int, k: int|
        #![trigger t[i].2[k]]
        0 <= i < t.len() && 0 <= k < t[i].2.len() ==> exists|j: int|
            #![trigger t[j]]
            i < j < t.len() && t[j].0 == t[i].2[k] && t[j].1 == Some(t[i].0)
}

/// Every node that hangs under an earlier node is among its children.
pub open spec fn children_complete(t: Seq<TreeNode>) -> bool {
    forall|i: int, j: int|
        #![trigger t[i], t[j]]
        0 <= i < j < t.len() && t[j].1 == Some(t[i].0) ==> t[i].2.contains(t[j].0)
}

/// No node names a child twice.
pub open spec fn children_unique(t: Seq<TreeNode>) -> bool {
    forall|i: int| #![trigger t[i]] 0 <= i < t.len() ==> t[i].2.no_duplicates()
}

/// How the nodes of a tree are linked: ids are unique, every node but the
/// first hangs under the node of its process's parent key, which comes
/// before it, and every node's children are exactly the nodes that hang
/// under it, each once, each after it.
pub open spec fn tree_links(t: Seq<TreeNode>, m: Map<u32, ProcessMemoryInfo>) -> bool {
    &&& unique_ids(t)
    &&& parent_links(t, m)
    &&& children_after(t)
    &&& children_complete(t)
    &&& children_unique(t)
}

/// The first node is the virtual root, with no parent.
pub open spec fn virtual_root_first(t: Seq<TreeNode>) -> bool {
    t.len() >= 1 && t[0].0 == VIRTUAL_ROOT_PID && t[0].1 is None
}

/// The process tree of `m`: the virtual root first, then exactly the
/// processes whose line of parents ends in a process with no parent, each
/// hanging under its parent, or under the virtual root where it has none.
pub open spec fn process_forest(t: Seq<TreeNode>, m: Map<u32, ProcessMemoryInfo>) -> bool {
    &&& virtual_root_first(t)
    &&& tree_links(t, m)
    &&& forall|i: int| #![trigger t[i]] 1 <= i < t.len() ==> rooted(m, t[i].0)
    &&& forall|pid: u32|
        #![trigger rooted(m, pid)]
        rooted(m, pid) ==> exists|i: int| #![trigger t[i]] 1 <= i < t.len() && t[i].0 == pid
}

/// How children are listed where an id may occur twice: every child named
/// by a node is a later node that hangs under it, each once; the first node
/// with an id lists every later node that hangs under that id, and a node
/// that is not the first with its id lists none.
pub open spec fn children_listed(t: Seq<TreeNode>) -> bool {
    &&& children_after(t)
    &&& children_unique(t)
    &&& forall|i: int, j: int|
        #![trigger t[i], t[j]]
        0 <= i < j < t.len() && first_position(t, t[i].0, i) && t[j].1 == Some(t[i].0) ==> t[i].2.contains(
            t[j].0,
        )
    &&& forall|i: int|
        #![trigger t[i]]
        0 <= i < t.len() && !first_position(t, t[i].0, i) ==> t[i].2.len() == 0
}

/// The virtual root first, then each process whose line of parents ends in
/// a process with no parent, once, hanging under its parent, or under the
/// virtual root where it has none, whose node comes before it; children are
/// listed as `children_listed` says.
pub open spec fn process_nodes(t: Seq<TreeNode>, m: Map<u32, ProcessMemoryInfo>) -> bool {
    &&& virtual_root_first(t)
    &&& parent_links(t, m)
    &&& children_listed(t)
    &&& forall|i: int, j: int|
        #![trigger t[i], t[j]]
        1 <= i < t.len() && 1 <= j < t.len() && i != j ==> t[i].0 != t[j].0
    &&& forall|i: int| #![trigger t[i]] 1 <= i < t.len() ==> rooted(m, t[i].0)
    &&& forall|pid: u32|
        #![trigger rooted(m, pid)]
        rooted(m, pid) ==> exists|i: int| #![trigger t[i]] 1 <= i < t.len() && t[i].0 == pid
}

/// Past the virtual root, `t` holds a node for `c` whose parent is `p`.
pub open spec fn hangs_under(t: Seq<TreeNode>, c: u32, p: Option<u32>) -> bool {
    exists|i: int| #![trigger t[i]] 1 <= i < t.len() && t[i].0 == c && t[i].1 == p
}

/// Two trees that hold the processes of one table as `build_tree` builds
/// them, whatever the order in which the table was walked, hold the same
/// ids, and the same processes each under the same parent.
pub proof fn law_tree_does_not_depend_on_walk(
    t1: Seq<TreeNode>,
    t2: Seq<TreeNode>,
    m: Map<u32, ProcessMemoryInfo>,
)
    requires
        process_nodes(t1, m),
        process_nodes(t2, m),
    ensures
        forall|x: u32| has_node(t1, x) <==> has_node(t2, x),
        forall|c: u32, p: Option<u32>|
            #![trigger hangs_under(t1, c, p)]
            #![trigger hangs_under(t2, c, p)]
            hangs_under(t1, c, p) <==> hangs_under(t2, c, p),
{
    assert forall|x: u32| has_node(t1, x) implies has_node(t2, x) by {
        let i = choose|i: int| 0 <= i < t1.len() && t1[i].0 == x;
        if i >= 1 {
            assert(rooted(m, t1[i].0));
            let j = choose|j: int| #![trigger t2[j]] 1 <= j < t2.len() && t2[j].0 == x;
        } else {
            assert(t2[0].0 == x);
        }
    }
    assert forall|x: u32| has_node(t2, x) implies has_node(t1, x) by {
        let i = choose|i: int| 0 <= i < t2.len() && t2[i].0 == x;
        if i >= 1 {
            assert(rooted(m, t2[i].0));
            let j = choose|j: int| #![trigger t1[j]] 1 <= j < t1.len() && t1[j].0 == x;
        } else {
            assert(t1[0].0 == x);
        }
    }
    assert forall|c: u32, p: Option<u32>| hangs_under(t1, c, p) implies hangs_under(t2, c, p) by {
        let i = choose|i: int| #![trigger t1[i]] 1 <= i < t1.len() && t1[i].0 == c && t1[i].1 == p;
        assert(rooted(m, t1[i].0));
        let j = choose|j: int| #![trigger t2[j]] 1 <= j < t2.len() && t2[j].0 == c;
    }
    assert forall|c: u32, p: Option<u32>| hangs_under(t2, c, p) implies hangs_under(t1, c, p) by {
        let j = choose|j: int| #![trigger t2[j]] 1 <= j < t2.len() && t2[j].0 == c && t2[j].1 == p;
        assert(rooted(m, t2[j].0));
        let i = choose|i: int| #![trigger t1[i]] 1 <= i < t1.len() && t1[i].0 == c;
    }
}

/// While the tree is built: past the virtual root the tree holds each added
/// process once, hanging under its parent key, and every added process is
/// rooted.
spec fn nodes_ok(t: Seq<TreeNode>, m: Map<u32, ProcessMemoryInfo>, added: Set<u32>) -> bool {
    &&& parent_links(t, m)
    &&& children_listed(t)
    &&& forall|i: int| #![trigger t[i]] 1 <= i < t.len() ==> added.contains(t[i].0)
    &&& forall|i: int, j: int|
        #![trigger t[i], t[j]]
        1 <= i < t.len() && 1 <= j < t.len() && i != j ==> t[i].0 != t[j].0
    &&& forall|a: u32|
        #[trigger] added.contains(a) ==> rooted(m, a) && exists|i: int|
            #![trigger t[i]]
            1 <= i < t.len() && t[i].0 == a
}

/// While the tree is built: every process that was added stands in the tree
/// past the virtual root.
spec fn shape_ok(t: Seq<TreeNode>, added: Set<u32>) -> bool {
    &&& virtual_root_first(t)
    &&& forall|a: u32| #[trigger] added.contains(a) ==> has_node(t, a)
}

/// While the tree is built: the tree is linked, holds exactly the processes
/// added past the virtual root, and every process added is rooted.
spec fn tree_ok(t: Seq<TreeNode>, m: Map<u32, ProcessMemoryInfo>, added: Set<u32>) -> bool {
    &&& tree_links(t, m)
    &&& forall|i: int| #![trigger t[i]] 1 <= i < t.len() ==> added.contains(t[i].0)
    &&& forall|a: u32| #[trigger] added.contains(a) ==> rooted(m, a)
}

/// While the tree is built: what waits to be added. Every process visited
/// and not added has a parent and waits either in the list of its parent's
/// pending children or among `waiting`; a pending list holds visited
/// processes, each once, that have that parent and are not added; only the
/// current process may have been added with pending children left.
spec fn pending_ok(
    m: Map<u32, ProcessMemoryInfo>,
    pend: Map<u32, Vec<u32>>,
    added: Set<u32>,
    visited: Set<u32>,
    waiting: Set<u32>,
    cur: Option<u32>,
) -> bool {
    &&& forall|a: u32| #[trigger] added.contains(a) ==> visited.contains(a)
    &&& forall|v: u32| #[trigger] visited.contains(v) ==> m.contains_key(v)
    &&& forall|p: u32, k: int|
        #![trigger pend[p]@[k]]
        pend.contains_key(p) && 0 <= k < pend[p]@.len() ==> {
            &&& visited.contains(pend[p]@[k])
            &&& !added.contains(pend[p]@[k])
            &&& !waiting.contains(pend[p]@[k])
            &&& m[pend[p]@[k]].parent == Some(p)
        }
    &&& forall|p: u32| #[trigger] pend.contains_key(p) ==> pend[p]@.no_duplicates()
    &&& forall|p: u32| #[trigger] pend.contains_key(p) && added.contains(p) ==> cur == Some(p)
    &&& forall|w: u32|
        #[trigger] waiting.contains(w) ==> {
            &&& visited.contains(w)
            &&& !added.contains(w)
            &&& m[w].parent matches Some(p) && added.contains(p)
        }
    &&& forall|v: u32|
        #[trigger] visited.contains(v) && !added.contains(v) ==> (m[v].parent matches Some(p)
            && (waiting.contains(v) || (pend.contains_key(p) && pend[p]@.contains(v))))
    &&& forall|v: u32| #[trigger] visited.contains(v) && m[v].parent is None ==> added.contains(v)
}

/// A process whose parent is rooted, or that has none, is rooted.
proof fn lemma_rooted_child(m: Map<u32, ProcessMemoryInfo>, c: u32)
    requires
        m.contains_key(c),
        m[c].parent matches Some(p) ==> rooted(m, p),
    ensures
        rooted(m, c),
{
    match m[c].parent {
        None => {
            assert(rooted_within(m, c, 0));
        },
        Some(p) => {
            let n = choose|n: nat| rooted_within(m, p, n);
            assert(rooted_within(m, c, n + 1));
        },
    }
}

/// `after` is `before` with `c` added under the node of `p` at `i`, as
/// `add_node` adds it.
pub open spec fn added_under(
    before: Seq<TreeNode>,
    after: Seq<TreeNode>,
    c: u32,
    p: u32,
    i: int,
) -> bool {
    &&& first_position(before, p, i)
    &&& after == before.update(i, (before[i].0, before[i].1, before[i].2.push(c))).push(
        (c, Some(p), Seq::<u32>::empty()),
    )
}

/// What stays and what is new when `c` is added under `p`.
proof fn lemma_added_under_facts(before: Seq<TreeNode>, after: Seq<TreeNode>, c: u32, p: u32, i: int)
    requires
        added_under(before, after, c, p, i),
    ensures
        after.len() == before.len() + 1,
        after[before.len() as int] == (c, Some(p), Seq::<u32>::empty()),
        after[i] == (before[i].0, before[i].1, before[i].2.push(c)),
        before[i].0 == p,
        forall|j: int| 0 <= j < before.len() && j != i ==> #[trigger] after[j] == before[j],
        forall|j: int|
            0 <= j < before.len() ==> #[trigger] after[j].0 == before[j].0 && after[j].1
                == before[j].1,
{
}

proof fn lemma_add_children_after(before: Seq<TreeNode>, after: Seq<TreeNode>, c: u32, p: u32, i: int)
    requires
        added_under(before, after, c, p, i),
        children_after(before),
    ensures
        children_after(after),
{
    lemma_added_under_facts(before, after, c, p, i);
    let n = before.len();
    assert forall|a: int, k: int|
        #![trigger after[a].2[k]]
        0 <= a < after.len() && 0 <= k < after[a].2.len() implies exists|j: int|
            #![trigger after[j]]
            a < j < after.len() && after[j].0 == after[a].2[k] && after[j].1 == Some(after[a].0) by {
        if a == i && k == before[i].2.len() {
            assert(after[n as int].0 == after[a].2[k]);
        } else {
            assert(after[a].2[k] == before[a].2[k]);
            let j = choose|j: int|
                #![trigger before[j]]
                a < j < n && before[j].0 == before[a].2[k] && before[j].1 == Some(before[a].0);
            assert(after[j].0 == before[j].0);
        }
    }
}

proof fn lemma_add_children_complete(
    before: Seq<TreeNode>,
    after: Seq<TreeNode>,
    c: u32,
    p: u32,
    i: int,
)
    requires
        added_under(before, after, c, p, i),
        children_complete(before),
        unique_ids(before),
    ensures
        children_complete(after),
{
    lemma_added_under_facts(before, after, c, p, i);
    let n = before.len();
    assert forall|a: int, b: int|
        #![trigger after[a], after[b]]
        0 <= a < b < after.len() && after[b].1 == Some(after[a].0) implies after[a].2.contains(
        after[b].0) by {
        if b < n {
            assert(before[a].2.contains(before[b].0));
            let k = choose|k: int| 0 <= k < before[a].2.len() && before[a].2[k] == before[b].0;
            if a == i {
                assert(after[a].2[k] == before[a].2[k]);
            }
        } else {
            if a != i {
                assert(before[a].0 != before[i].0);
            }
            assert(after[i].2[before[i].2.len() as int] == c);
        }
    }
}

proof fn lemma_add_children_unique(
    before: Seq<TreeNode>,
    after: Seq<TreeNode>,
    c: u32,
    p: u32,
    i: int,
)
    requires
        added_under(before, after, c, p, i),
        children_unique(before),
        !before[i].2.contains(c),
    ensures
        children_unique(after),
{
    lemma_added_under_facts(before, after, c, p, i);
    assert forall|a: int| #![trigger after[a]] 0 <= a < after.len() implies after[a].2.no_duplicates() by {
        if a == i {
            assert(before[i].2.no_duplicates());
            let s = before[i].2.push(c);
            assert forall|x: int, y: int|
                0 <= x < s.len() && 0 <= y < s.len() && x != y implies s[x] != s[y] by {
                if x < before[i].2.len() && y < before[i].2.len() {
                    assert(s[x] == before[i].2[x] && s[y] == before[i].2[y]);
                } else if x < before[i].2.len() {
                    assert(before[i].2.contains(s[x]));
                } else {
                    assert(before[i].2.contains(s[y]));
                }
            }
        }
    }
}

proof fn lemma_add_unique_ids(before: Seq<TreeNode>, after: Seq<TreeNode>, c: u32, p: u32, i: int)
    requires
        added_under(before, after, c, p, i),
        unique_ids(before),
        forall|j: int| 0 <= j < before.len() ==> before[j].0 != c,
    ensures
        unique_ids(after),
{
    lemma_added_under_facts(before, after, c, p, i);
    let n = before.len();
    assert forall|a: int, b: int|
        #![trigger after[a], after[b]]
        0 <= a < after.len() && 0 <= b < after.len() && a != b implies after[a].0
        != after[b].0 by {
        if a < n && b < n {
            assert(before[a].0 != before[b].0);
        }
    }
}

proof fn lemma_add_parent_links(
    before: Seq<TreeNode>,
    after: Seq<TreeNode>,
    m: Map<u32, ProcessMemoryInfo>,
    c: u32,
    i: int,
)
    requires
        added_under(before, after, c, parent_key(m, c), i),
        parent_links(before, m),
        m.contains_key(c),
    ensures
        parent_links(after, m),
{
    let p = parent_key(m, c);
    lemma_added_under_facts(before, after, c, p, i);
    let n = before.len();
    assert forall|a: int|
        #![trigger after[a]]
        1 <= a < after.len() implies {
            &&& m.contains_key(after[a].0)
            &&& after[a].1 == Some(parent_key(m, after[a].0))
            &&& exists|j: int| #![trigger after[j]] 0 <= j < a && after[j].0 == parent_key(m, after[a].0)
        } by {
        if a < n {
            let j = choose|j: int|
                #![trigger before[j]]
                0 <= j < a && before[j].0 == parent_key(m, before[a].0);
            assert(after[j].0 == before[j].0);
        } else {
            assert(after[i].0 == p);
        }
    }
}

/// Adding a new rooted process under the node of its parent key keeps the
/// tree linked and holding exactly the processes added.
proof fn lemma_add_keeps_tree(
    before: Seq<TreeNode>,
    after: Seq<TreeNode>,
    m: Map<u32, ProcessMemoryInfo>,
    added: Set<u32>,
    c: u32,
    i: int,
)
    requires
        virtual_root_first(before),
        tree_ok(before, m, added),
        shape_ok(before, added),
        !rooted(m, VIRTUAL_ROOT_PID),
        !added.contains(c),
        m.contains_key(c),
        rooted(m, c),
        added_under(before, after, c, parent_key(m, c), i),
    ensures
        tree_ok(after, m, added.insert(c)),
{
    let p = parent_key(m, c);
    lemma_added_under_facts(before, after, c, p, i);
    let n = before.len();
    assert(c != VIRTUAL_ROOT_PID);
    assert forall|j: int| 0 <= j < n implies before[j].0 != c by {
        if j >= 1 {
            assert(added.contains(before[j].0));
        }
    }
    assert(!before[i].2.contains(c)) by {
        if before[i].2.contains(c) {
            let k = choose|k: int| 0 <= k < before[i].2.len() && before[i].2[k] == c;
            let j = choose|j: int|
                #![trigger before[j]]
                i < j < n && before[j].0 == before[i].2[k] && before[j].1 == Some(before[i].0);
        }
    }
    lemma_add_unique_ids(before, after, c, p, i);
    lemma_add_parent_links(before, after, m, c, i);
    lemma_add_children_after(before, after, c, p, i);
    lemma_add_children_complete(before, after, c, p, i);
    lemma_add_children_unique(before, after, c, p, i);
    assert forall|a: int| #![trigger after[a]] 1 <= a < after.len() implies added.insert(c).contains(
        after[a].0) by {
        if a < n {
            assert(added.contains(before[a].0));
        }
    }
    assert forall|a: u32| #[trigger] added.insert(c).contains(a) implies rooted(m, a) by {}
}


/// Adding `c`, which no node names as a child, under the first node of `p`
/// keeps children listed.
proof fn lemma_add_children_listed(before: Seq<TreeNode>, after: Seq<TreeNode>, c: u32, p: u32, i: int)
    requires
        added_under(before, after, c, p, i),
        children_listed(before),
        !before[i].2.contains(c),
    ensures
        children_listed(after),
{
    lemma_added_under_facts(before, after, c, p, i);
    lemma_add_children_after(before, after, c, p, i);
    lemma_add_children_unique(before, after, c, p, i);
    let n = before.len();
    assert forall|a: int| 0 <= a < n implies first_position(after, after[a].0, a) == first_position(
        before,
        before[a].0,
        a,
    ) by {
        if first_position(before, before[a].0, a) {
            assert forall|j: int| 0 <= j < a implies after[j].0 != after[a].0 by {
                assert(before[j].0 != before[a].0);
            }
        }
        if first_position(after, after[a].0, a) {
            assert forall|j: int| 0 <= j < a implies before[j].0 != before[a].0 by {
                assert(after[j].0 != after[a].0);
            }
        }
    }
    assert forall|a: int, b: int|
        #![trigger after[a], after[b]]
        0 <= a < b < after.len() && first_position(after, after[a].0, a) && after[b].1 == Some(
            after[a].0,
        ) implies after[a].2.contains(after[b].0) by {
        if b < n {
            assert(before[a].2.contains(before[b].0));
            let k = choose|k: int| 0 <= k < before[a].2.len() && before[a].2[k] == before[b].0;
            if a == i {
                assert(after[a].2[k] == before[a].2[k]);
            }
        } else {
            lemma_first_position_unique(before, p, a, i);
            assert(after[i].2[before[i].2.len() as int] == c);
        }
    }
    assert forall|a: int|
        #![trigger after[a]]
        0 <= a < after.len() && !first_position(after, after[a].0, a) implies after[a].2.len() == 0 by {
        if a < n {
            assert(!first_position(before, before[a].0, a));
            assert(a != i);
        }
    }
}

/// Adding a new rooted process under the node of its parent key keeps each
/// added process once past the virtual root.
proof fn lemma_add_keeps_nodes(
    before: Seq<TreeNode>,
    after: Seq<TreeNode>,
    m: Map<u32, ProcessMemoryInfo>,
    added: Set<u32>,
    c: u32,
    i: int,
)
    requires
        virtual_root_first(before),
        nodes_ok(before, m, added),
        !added.contains(c),
        m.contains_key(c),
        rooted(m, c),
        added_under(before, after, c, parent_key(m, c), i),
    ensures
        nodes_ok(after, m, added.insert(c)),
{
    let p = parent_key(m, c);
    lemma_added_under_facts(before, after, c, p, i);
    let n = before.len();
    lemma_add_parent_links(before, after, m, c, i);
    assert(!before[i].2.contains(c)) by {
        if before[i].2.contains(c) {
            let k = choose|k: int| 0 <= k < before[i].2.len() && before[i].2[k] == c;
            let j = choose|j: int|
                #![trigger before[j]]
                i < j < n && before[j].0 == before[i].2[k] && before[j].1 == Some(before[i].0);
            assert(added.contains(before[j].0));
        }
    }
    lemma_add_children_listed(before, after, c, p, i);
    assert forall|a: int| #![trigger after[a]] 1 <= a < after.len() implies added.insert(c).contains(
        after[a].0) by {
        if a < n {
            assert(added.contains(before[a].0));
        }
    }
    assert forall|a: int, b: int|
        #![trigger after[a], after[b]]
        1 <= a < after.len() && 1 <= b < after.len() && a != b implies after[a].0 != after[b].0 by {
        if a < n && b < n {
            assert(before[a].0 != before[b].0);
        } else if a < n {
            assert(added.contains(before[a].0));
        } else {
            assert(added.contains(before[b].0));
        }
    }
    assert forall|x: u32| #[trigger] added.insert(c).contains(x) implies rooted(m, x) && exists|a: int|
        #![trigger after[a]]
        1 <= a < after.len() && after[a].0 == x by {
        if x == c {
            assert(after[n as int].0 == c);
        } else {
            let a = choose|a: int| #![trigger before[a]] 1 <= a < n && before[a].0 == x;
            assert(after[a].0 == before[a].0);
        }
    }
}

/// Adding a node under a node that stands in the tree, or pushing the first
/// root, keeps the virtual root first and every added process in the tree.
proof fn lemma_add_keeps_shape(
    before: Seq<TreeNode>,
    after: Seq<TreeNode>,
    added: Set<u32>,
    c: u32,
    i: int,
    p: u32,
)
    requires
        shape_ok(before, added),
        added_under(before, after, c, p, i),
    ensures
        shape_ok(after, added.insert(c)),
{
    lemma_added_under_facts(before, after, c, p, i);
    let n = before.len();
    assert forall|a: u32| #[trigger] added.insert(c).contains(a) implies has_node(after, a) by {
        if a == c {
            assert(after[n as int].0 == c);
        } else {
            let j = choose|j: int| 0 <= j < n && before[j].0 == a;
            assert(after[j].0 == before[j].0);
        }
    }
}

/// Taking the pending children of the current process out of the pending
/// map makes them wait.
proof fn lemma_pending_take(
    m: Map<u32, ProcessMemoryInfo>,
    pend: Map<u32, Vec<u32>>,
    added: Set<u32>,
    visited: Set<u32>,
    waiting: Set<u32>,
    x: u32,
)
    requires
        pending_ok(m, pend, added, visited, waiting, Some(x)),
        added.contains(x),
        pend.contains_key(x),
    ensures
        pending_ok(m, pend.remove(x), added, visited, waiting.union(pend[x]@.to_set()), None),
{
    let list = pend[x]@;
    let w2 = waiting.union(list.to_set());
    let p2 = pend.remove(x);
    assert forall|p: u32, k: int|
        #![trigger p2[p]@[k]]
        p2.contains_key(p) && 0 <= k < p2[p]@.len() implies !w2.contains(p2[p]@[k]) by {
        let v = p2[p]@[k];
        assert(pend[p]@[k] == v);
        if list.to_set().contains(v) {
            let kk = choose|kk: int| 0 <= kk < list.len() && list[kk] == v;
            assert(pend[x]@[kk] == v);
        }
    }
    assert forall|w: u32| #[trigger] w2.contains(w) implies {
        &&& visited.contains(w)
        &&& !added.contains(w)
        &&& m[w].parent matches Some(p) && added.contains(p)
    } by {
        if !waiting.contains(w) {
            let kk = choose|kk: int| 0 <= kk < list.len() && list[kk] == w;
            assert(pend[x]@[kk] == w);
        }
    }
    assert forall|v: u32| #[trigger] visited.contains(v) && !added.contains(v) implies (
    m[v].parent matches Some(p) && (w2.contains(v) || (p2.contains_key(p) && p2[p]@.contains(v))))
        by {
        if let Some(p) = m[v].parent {
            if !waiting.contains(v) && p == x {
                assert(list.to_set().contains(v));
            }
        }
    }
}

/// A process that is added to the tree stops waiting and becomes the
/// current process.
proof fn lemma_pending_add(
    m: Map<u32, ProcessMemoryInfo>,
    pend: Map<u32, Vec<u32>>,
    added: Set<u32>,
    visited: Set<u32>,
    waiting: Set<u32>,
    c: u32,
)
    requires
        pending_ok(m, pend, added, visited, waiting, None),
        waiting.contains(c),
    ensures
        pending_ok(m, pend, added.insert(c), visited, waiting.remove(c), Some(c)),
{
    assert forall|p: u32, k: int|
        #![trigger pend[p]@[k]]
        pend.contains_key(p) && 0 <= k < pend[p]@.len() implies pend[p]@[k] != c by {}
}

/// A process visited for the first time that is added at once becomes the
/// current process.
proof fn lemma_pending_visit_add(
    m: Map<u32, ProcessMemoryInfo>,
    pend: Map<u32, Vec<u32>>,
    added: Set<u32>,
    visited: Set<u32>,
    pid: u32,
)
    requires
        pending_ok(m, pend, added, visited, Set::empty(), None),
        !visited.contains(pid),
        m.contains_key(pid),
    ensures
        pending_ok(m, pend, added.insert(pid), visited.insert(pid), Set::empty(), Some(pid)),
{
    assert forall|p: u32, k: int|
        #![trigger pend[p]@[k]]
        pend.contains_key(p) && 0 <= k < pend[p]@.len() implies pend[p]@[k] != pid by {}
}

/// A process visited for the first time whose parent is not added waits in
/// its parent's pending list.
proof fn lemma_pending_visit_wait(
    m: Map<u32, ProcessMemoryInfo>,
    pend: Map<u32, Vec<u32>>,
    added: Set<u32>,
    visited: Set<u32>,
    pid: u32,
    p: u32,
    list: Seq<u32>,
)
    requires
        pending_ok(m, pend, added, visited, Set::empty(), None),
        !visited.contains(pid),
        m.contains_key(pid),
        m[pid].parent == Some(p),
        !added.contains(p),
        list == (if pend.contains_key(p) {
            pend[p]@.push(pid)
        } else {
            seq![pid]
        }),
    ensures
        forall|nv: Vec<u32>|
            nv@ == list ==> pending_ok(
                m,
                #[trigger] pend.insert(p, nv),
                added,
                visited.insert(pid),
                Set::empty(),
                None,
            ),
{
    assert forall|nv: Vec<u32>| nv@ == list implies pending_ok(
        m,
        #[trigger] pend.insert(p, nv),
        added,
        visited.insert(pid),
        Set::empty(),
        None,
    ) by {
        let p2 = pend.insert(p, nv);
        let v2 = visited.insert(pid);
        assert forall|q: u32, k: int|
            #![trigger p2[q]@[k]]
            p2.contains_key(q) && 0 <= k < p2[q]@.len() implies {
                &&& v2.contains(p2[q]@[k])
                &&& !added.contains(p2[q]@[k])
                &&& !Set::<u32>::empty().contains(p2[q]@[k])
                &&& m[p2[q]@[k]].parent == Some(q)
            } by {
            if q == p && pend.contains_key(p) && k < pend[p]@.len() {
                assert(p2[q]@[k] == pend[p]@[k]);
            } else if q != p {
                assert(p2[q]@[k] == pend[q]@[k]);
            }
        }
        assert forall|q: u32| #[trigger] p2.contains_key(q) implies p2[q]@.no_duplicates() by {
            if q == p && pend.contains_key(p) {
                let old_list = pend[p]@;
                assert forall|x: int, y: int|
                    0 <= x < list.len() && 0 <= y < list.len() && x != y implies list[x]
                    != list[y] by {
                    if x < old_list.len() && y < old_list.len() {
                    } else if x < old_list.len() {
                        assert(pend[p]@[x] == list[x]);
                    } else {
                        assert(pend[p]@[y] == list[y]);
                    }
                }
            }
        }
        assert forall|v: u32| #[trigger] v2.contains(v) && !added.contains(v) implies (
        m[v].parent matches Some(pp) && (Set::<u32>::empty().contains(v) || (p2.contains_key(pp)
            && p2[pp]@.contains(v)))) by {
            if v == pid {
                assert(list[list.len() - 1] == pid);
            } else if let Some(pp) = m[v].parent {
                if pp == p {
                    let kk = choose|kk: int| 0 <= kk < pend[p]@.len() && pend[p]@[kk] == v;
                    assert(list[kk] == v);
                }
            }
        }
    }
}

/// When every process has been visited and none waits outside the pending
/// lists, every rooted process has been added.
proof fn lemma_rooted_added(
    m: Map<u32, ProcessMemoryInfo>,
    pend: Map<u32, Vec<u32>>,
    added: Set<u32>,
    pid: u32,
    n: nat,
)
    requires
        pending_ok(m, pend, added, m.dom(), Set::empty(), None),
        rooted_within(m, pid, n),
    ensures
        added.contains(pid),
    decreases n,
{
    assert(m.dom().contains(pid));
    if let Some(p) = m[pid].parent {
        lemma_rooted_added(m, pend, added, p, (n - 1) as nat);
        if !added.contains(pid) {
            assert(pend.contains_key(p) && added.contains(p));
        }
    }
}

/// The processes that wait under `from` within `steps` steps: those in the
/// pending list of `from`, and those in the pending list of one that waits
/// under `from` within fewer steps.
pub open spec fn waiting_within(pend: Map<u32, Vec<u32>>, from: u32, steps: nat) -> Set<u32>
    decreases steps,
{
    if steps == 0 {
        Set::empty()
    } else {
        let fewer = waiting_within(pend, from, (steps - 1) as nat);
        Set::new(
            |x: u32|
                (pend.contains_key(from) && pend[from]@.contains(x)) || exists|y: u32|
                    #[trigger] fewer.contains(y) && pend.contains_key(y) && pend[y]@.contains(x),
        )
    }
}

/// The processes that wait, directly or through others, under `from`.
pub open spec fn waiting_under(pend: Map<u32, Vec<u32>>, from: u32) -> Set<u32> {
    Set::new(|x: u32| exists|steps: nat| #[trigger] waiting_within(pend, from, steps).contains(x))
}

/// Every list of `pend` under a key of `keys` holds only ids of `within`.
#[verifier::opaque]
pub open spec fn lists_within(pend: Map<u32, Vec<u32>>, keys: Set<u32>, within: Set<u32>) -> bool {
    forall|k: u32, x: u32|
        #![trigger keys.contains(k), pend[k]@.contains(x)]
        keys.contains(k) && pend.contains_key(k) && pend[k]@.contains(x) ==> within.contains(x)
}

/// `t1` is `t0` grown by new nodes whose ids are exactly those of `n`, taken
/// from the lists of `pend`: the nodes of `t0` keep their ids and parents and
/// only gain children, and only the nodes of `p` and of the ids of `n` change
/// at all; each new node comes after those of `t0`, has an id of `n` and
/// hangs under the key of a list of `pend` that holds it, which is `p` or the
/// id of an earlier new node; and every id of `n` has a new node.
#[verifier::opaque]
pub open spec fn grown_by(
    t0: Seq<TreeNode>,
    t1: Seq<TreeNode>,
    p: u32,
    n: Set<u32>,
    pend: Map<u32, Vec<u32>>,
) -> bool {
    &&& t0.len() <= t1.len()
    &&& forall|i: int|
        #![trigger t1[i]]
        0 <= i < t0.len() ==> t1[i].0 == t0[i].0 && t1[i].1 == t0[i].1 && t0[i].2.is_prefix_of(t1[i].2)
    &&& forall|i: int|
        #![trigger t1[i]]
        0 <= i < t0.len() && t0[i].0 != p && !n.contains(t0[i].0) ==> t1[i] == t0[i]
    &&& forall|j: int|
        #![trigger t1[j]]
        t0.len() <= j < t1.len() ==> {
            &&& n.contains(t1[j].0)
            &&& t1[j].1 matches Some(k) && pend.contains_key(k) && pend[k]@.contains(t1[j].0) && (k
                == p || exists|jj: int| #![trigger t1[jj]] t0.len() <= jj < j && t1[jj].0 == k)
        }
    &&& forall|x: u32|
        #[trigger] n.contains(x) ==> exists|j: int| #![trigger t1[j]] t0.len() <= j < t1.len() && t1[j].0 == x
}

/// A tree that did not change has grown by nothing.
proof fn lemma_grown_none(t: Seq<TreeNode>, p: u32, pend: Map<u32, Vec<u32>>)
    ensures
        grown_by(t, t, p, Set::empty(), pend),
{
    reveal(grown_by);
    reveal(lists_within);
    assert forall|i: int| #![trigger t[i]] 0 <= i < t.len() implies t[i].2.is_prefix_of(t[i].2) by {
        assert(t[i].2 =~= t[i].2.subrange(0, t[i].2.len() as int));
    }
}

/// Adding `c`, held by the list of `p`, under `p` grows the tree by `c`.
proof fn lemma_grown_add(
    before: Seq<TreeNode>,
    after: Seq<TreeNode>,
    c: u32,
    p: u32,
    i: int,
    pend: Map<u32, Vec<u32>>,
)
    requires
        added_under(before, after, c, p, i),
        pend.contains_key(p),
        pend[p]@.contains(c),
    ensures
        grown_by(before, after, p, set![c], pend),
{
    reveal(grown_by);
    reveal(lists_within);
    lemma_added_under_facts(before, after, c, p, i);
    let n = before.len();
    assert forall|j: int| #![trigger after[j]] 0 <= j < n implies before[j].2.is_prefix_of(after[j].2) by {
        if j == i {
            assert(before[i].2 =~= after[i].2.subrange(0, before[i].2.len() as int));
        } else {
            assert(before[j].2 =~= after[j].2.subrange(0, before[j].2.len() as int));
        }
    }
    assert forall|x: u32| #[trigger] set![c].contains(x) implies exists|j: int|
        #![trigger after[j]]
        n <= j < after.len() && after[j].0 == x by {
        assert(after[n as int].0 == c);
    }
}

/// Growing by `n1` and then, from `q`, by `n2` out of a part of the same
/// lists grows by both.
proof fn lemma_grown_trans(
    t0: Seq<TreeNode>,
    t1: Seq<TreeNode>,
    t2: Seq<TreeNode>,
    p: u32,
    q: u32,
    n1: Set<u32>,
    n2: Set<u32>,
    pend: Map<u32, Vec<u32>>,
    pend2: Map<u32, Vec<u32>>,
)
    requires
        grown_by(t0, t1, p, n1, pend),
        grown_by(t1, t2, q, n2, pend2),
        q == p || n1.contains(q),
        forall|k: u32| #[trigger] pend2.contains_key(k) ==> pend.contains_key(k) && pend[k] == pend2[k],
    ensures
        grown_by(t0, t2, p, n1.union(n2), pend),
{
    reveal(grown_by);
    reveal(lists_within);
    let a = t0.len();
    let b = t1.len();
    assert forall|i: int| #![trigger t2[i]] 0 <= i < a implies t2[i].0 == t0[i].0 && t2[i].1 == t0[i].1
        && t0[i].2.is_prefix_of(t2[i].2) by {
        assert(t1[i].0 == t0[i].0);
        assert(t0[i].2 =~= t2[i].2.subrange(0, t0[i].2.len() as int)) by {
            assert(t0[i].2 =~= t1[i].2.subrange(0, t0[i].2.len() as int));
            assert(t1[i].2 =~= t2[i].2.subrange(0, t1[i].2.len() as int));
        }
    }
    assert forall|i: int|
        #![trigger t2[i]]
        0 <= i < a && t0[i].0 != p && !n1.union(n2).contains(t0[i].0) implies t2[i] == t0[i] by {
        assert(t1[i] == t0[i]);
        if q != p {
            assert(t1[i].0 != q);
        }
    }
    assert forall|j: int| #![trigger t2[j]] a <= j < t2.len() implies {
        &&& n1.union(n2).contains(t2[j].0)
        &&& t2[j].1 matches Some(k) && pend.contains_key(k) && pend[k]@.contains(t2[j].0) && (k == p
            || exists|jj: int| #![trigger t2[jj]] a <= jj < j && t2[jj].0 == k)
    } by {
        if j < b {
            assert(t2[j].0 == t1[j].0 && t2[j].1 == t1[j].1);
            let k = t1[j].1->Some_0;
            if k != p {
                let jj = choose|jj: int| #![trigger t1[jj]] a <= jj < j && t1[jj].0 == k;
                assert(t2[jj].0 == t1[jj].0);
            }
        } else {
            let k = t2[j].1->Some_0;
            assert(pend2.contains_key(k));
            if k == q {
                if q != p {
                    let jj = choose|jj: int| #![trigger t1[jj]] a <= jj < b && t1[jj].0 == q;
                    assert(t2[jj].0 == t1[jj].0);
                }
            } else {
                let jj = choose|jj: int| #![trigger t2[jj]] b <= jj < j && t2[jj].0 == k;
            }
        }
    }
    assert forall|x: u32| #[trigger] n1.union(n2).contains(x) implies exists|j: int|
        #![trigger t2[j]]
        a <= j < t2.len() && t2[j].0 == x by {
        if n1.contains(x) {
            let j = choose|j: int| #![trigger t1[j]] a <= j < b && t1[j].0 == x;
            assert(t2[j].0 == t1[j].0);
        } else {
            let j = choose|j: int| #![trigger t2[j]] b <= j < t2.len() && t2[j].0 == x;
        }
    }
}

/// What waits within `steps` steps under `p` lies in a set that holds the
/// lists of `p` and of its own members.
proof fn lemma_waiting_within_closed(pend: Map<u32, Vec<u32>>, p: u32, n: Set<u32>, x: u32, steps: nat)
    requires
        lists_within(pend, n.insert(p), n),
        waiting_within(pend, p, steps).contains(x),
    ensures
        n.contains(x),
    decreases steps,
{
    reveal(lists_within);
    let fewer = waiting_within(pend, p, (steps - 1) as nat);
    if pend.contains_key(p) && pend[p]@.contains(x) {
        assert(n.insert(p).contains(p));
    } else {
        let y = choose|y: u32| #[trigger] fewer.contains(y) && pend.contains_key(y) && pend[y]@.contains(x);
        lemma_waiting_within_closed(pend, p, n, y, (steps - 1) as nat);
        assert(n.insert(p).contains(y));
    }
}

/// The id of every new node waits under `p`.
proof fn lemma_new_node_waits(
    t0: Seq<TreeNode>,
    t1: Seq<TreeNode>,
    p: u32,
    n: Set<u32>,
    pend: Map<u32, Vec<u32>>,
    j: int,
)
    requires
        grown_by(t0, t1, p, n, pend),
        t0.len() <= j < t1.len(),
    ensures
        waiting_under(pend, p).contains(t1[j].0),
    decreases j,
{
    reveal(grown_by);
    let k = t1[j].1->Some_0;
    if k == p {
        assert(waiting_within(pend, p, 1).contains(t1[j].0));
    } else {
        let jj = choose|jj: int| #![trigger t1[jj]] t0.len() <= jj < j && t1[jj].0 == k;
        lemma_new_node_waits(t0, t1, p, n, pend, jj);
        let s = choose|s: nat| #[trigger] waiting_within(pend, p, s).contains(k);
        assert(waiting_within(pend, p, s + 1).contains(t1[j].0));
    }
}

/// The ids that a tree grew by from `p`, where the set holds the lists of
/// `p` and of its own members, are exactly those that wait under `p`.
proof fn lemma_grown_is_waiting(
    t0: Seq<TreeNode>,
    t1: Seq<TreeNode>,
    p: u32,
    n: Set<u32>,
    pend: Map<u32, Vec<u32>>,
)
    requires
        grown_by(t0, t1, p, n, pend),
        lists_within(pend, n.insert(p), n),
    ensures
        n == waiting_under(pend, p),
{
    assert forall|x: u32| waiting_under(pend, p).contains(x) implies n.contains(x) by {
        let s = choose|s: nat| #[trigger] waiting_within(pend, p, s).contains(x);
        lemma_waiting_within_closed(pend, p, n, x, s);
    }
    assert forall|x: u32| n.contains(x) implies waiting_under(pend, p).contains(x) by {
        reveal(grown_by);
        let j = choose|j: int| #![trigger t1[j]] t0.len() <= j < t1.len() && t1[j].0 == x;
        lemma_new_node_waits(t0, t1, p, n, pend, j);
    }
    assert(n =~= waiting_under(pend, p));
}

/// Nodes of a tree stay in it as it grows.
proof fn lemma_grown_keeps_node(
    t0: Seq<TreeNode>,
    t1: Seq<TreeNode>,
    p: u32,
    n: Set<u32>,
    pend: Map<u32, Vec<u32>>,
    x: u32,
)
    requires
        grown_by(t0, t1, p, n, pend),
        has_node(t0, x),
    ensures
        has_node(t1, x),
{
    reveal(grown_by);
    let i = choose|i: int| 0 <= i < t0.len() && t0[i].0 == x;
    assert(t1[i].0 == t0[i].0);
}

/// After `child_id`, held by the list of `parent_id`, was added under it and
/// the processes waiting under it in turn, the tree has grown from `t0` by
/// what was got before together with `child_id` and what waited under it,
/// exactly the lists of those and of `parent_id` are gone from the pending
/// map, and the lists of all that was got but `parent_id` hold only what was
/// got.
proof fn lemma_child_done(
    t0: Seq<TreeNode>,
    before: Seq<TreeNode>,
    t_a: Seq<TreeNode>,
    t_f: Seq<TreeNode>,
    p0: Map<u32, Vec<u32>>,
    pend_a: Map<u32, Vec<u32>>,
    pend_f: Map<u32, Vec<u32>>,
    got: Set<u32>,
    parent_id: u32,
    child_id: u32,
)
    requires
        grown_by(t0, before, parent_id, got, p0),
        grown_by(before, t_a, parent_id, set![child_id], p0),
        pend_a == p0.remove_keys(got.insert(parent_id)),
        lists_within(p0, got.remove(parent_id), got),
        ({
            let d = waiting_under(pend_a, child_id);
            &&& pend_f == pend_a.remove_keys(d.insert(child_id))
            &&& lists_within(pend_a, d.insert(child_id), d)
            &&& grown_by(t_a, t_f, child_id, d, pend_a)
        }),
    ensures
        ({
            let got2 = got.insert(child_id).union(waiting_under(pend_a, child_id));
            &&& grown_by(t0, t_f, parent_id, got2, p0)
            &&& pend_f == p0.remove_keys(got2.insert(parent_id))
            &&& lists_within(p0, got2.remove(parent_id), got2)
        }),
{
    reveal(grown_by);
    reveal(lists_within);
    let d = waiting_under(pend_a, child_id);
    let got_a = got.insert(child_id);
    let got2 = got_a.union(d);
    lemma_grown_trans(t0, before, t_a, parent_id, parent_id, got, set![child_id], p0, p0);
    assert(got.union(set![child_id]) =~= got_a);
    lemma_grown_trans(t0, t_a, t_f, parent_id, child_id, got_a, d, p0, pend_a);
    assert(pend_f =~= p0.remove_keys(got2.insert(parent_id)));
    assert forall|k: u32, x: u32|
        #![trigger got2.remove(parent_id).contains(k), p0[k]@.contains(x)]
        got2.remove(parent_id).contains(k) && p0.contains_key(k) && p0[k]@.contains(x) implies got2.contains(x) by {
        if got.contains(k) {
            assert(got.remove(parent_id).contains(k));
            assert(got.contains(x));
        } else {
            assert(d.insert(child_id).contains(k));
            assert(pend_a.contains_key(k));
            assert(pend_a[k] == p0[k]);
            assert(pend_a[k]@.contains(x));
        }
    }
}

/// The process tree is being built: the tree is in shape for the processes
/// added so far.
spec fn state_ok(t: Seq<TreeNode>, m: Map<u32, ProcessMemoryInfo>, added: Set<u32>) -> bool {
    &&& shape_ok(t, added)
    &&& !rooted(m, VIRTUAL_ROOT_PID) ==> tree_ok(t, m, added)
    &&& nodes_ok(t, m, added)
}

/// Adds the processes that wait under `parent_id`, which has a node, each
/// under it, and in turn the processes that wait under each of them. Exactly
/// the processes that wait under `parent_id`, directly or through others, are
/// added, each with a new node under a process whose list held it; their
/// lists and that of `parent_id` leave the pending map, and nothing else of
/// it changes. While the process tree is built, the tree stays in shape.
fn process_pending(
    tree: &mut Tree<u32, ()>,
    pending_children: &mut HashMap<u32, Vec<u32>>,
    added: &mut HashSet<u32>,
    parent_id: u32,
    Ghost(m): Ghost<Map<u32, ProcessMemoryInfo>>,
    Ghost(visited): Ghost<Set<u32>>,
    Ghost(waiting): Ghost<Set<u32>>,
) -> (r: Result<(), TreeError>)
    requires
        has_node(tree_nodes(*old(tree)), parent_id),
        tree_unshared(*old(tree)),
    ensures
        r is Ok,
        tree_unshared(*final(tree)),
        ({
            let d = waiting_under(old(pending_children)@, parent_id);
            &&& final(added)@ == old(added)@.union(d)
            &&& final(pending_children)@ == old(pending_children)@.remove_keys(d.insert(parent_id))
            &&& lists_within(old(pending_children)@, d.insert(parent_id), d)
            &&& grown_by(tree_nodes(*old(tree)), tree_nodes(*final(tree)), parent_id, d, old(pending_children)@)
        }),
        (visited.finite() && old(added)@.contains(parent_id) && state_ok(tree_nodes(*old(tree)), m, old(added)@)
            && pending_ok(m, old(pending_children)@, old(added)@, visited, waiting, Some(parent_id)))
            ==> (state_ok(tree_nodes(*final(tree)), m, final(added)@) && pending_ok(
            m,
            final(pending_children)@,
            final(added)@,
            visited,
            waiting,
            None,
        )),
    decreases old(pending_children)@.dom().len(),
{
    let ghost t0 = tree_nodes(*tree);
    let ghost p0 = pending_children@;
    let ghost a0 = added@;
    let ghost building = visited.finite() && a0.contains(parent_id) && state_ok(t0, m, a0) && pending_ok(
        m,
        p0,
        a0,
        visited,
        waiting,
        Some(parent_id),
    );
    proof {
        lemma_grown_none(t0, parent_id, p0);
        vstd::std_specs::hash::axiom_hashmap_view_finite_dom(*pending_children);
    }
    if let Some(children) = pending_children.remove(&parent_id) {
        let ghost list = children@;
        let ghost mut got: Set<u32> = Set::empty();
        proof {
            assert(pending_children@ =~= p0.remove_keys(got.insert(parent_id)));
            assert(lists_within(p0, got.remove(parent_id), got)) by {
                reveal(lists_within);
            }
            assert(added@ =~= a0.union(got));
            if building {
                lemma_pending_take(m, p0, a0, visited, waiting, parent_id);
                assert(list.subrange(0, list.len() as int) =~= list);
                assert forall|k: int| 0 <= k < list.len() implies m[#[trigger] list[k]].parent == Some(
                    parent_id,
                ) by {
                    assert(p0[parent_id]@[k] == list[k]);
                }
            }
        }
        let mut i: usize = 0;
        while i < children.len()
            invariant
                0 <= i <= children.len(),
                children@ == list,
                t0 == tree_nodes(*old(tree)),
                p0 == old(pending_children)@,
                a0 == old(added)@,
                p0.contains_key(parent_id),
                list == p0[parent_id]@,
                p0.dom().finite(),
                has_node(t0, parent_id),
                has_node(tree_nodes(*tree), parent_id),
                tree_unshared(*tree),
                added@ == a0.union(got),
                pending_children@ == p0.remove_keys(got.insert(parent_id)),
                lists_within(p0, got.remove(parent_id), got),
                forall|k: int| 0 <= k < i ==> got.contains(#[trigger] list[k]),
                grown_by(t0, tree_nodes(*tree), parent_id, got, p0),
                building == (visited.finite() && a0.contains(parent_id) && state_ok(t0, m, a0) && pending_ok(
                    m,
                    p0,
                    a0,
                    visited,
                    waiting,
                    Some(parent_id),
                )),
                building ==> {
                    &&& visited.finite()
                    &&& list.no_duplicates()
                    &&& forall|k: int| 0 <= k < list.len() ==> !waiting.contains(#[trigger] list[k])
                    &&& forall|k: int| 0 <= k < list.len() ==> m[#[trigger] list[k]].parent == Some(parent_id)
                    &&& added@.contains(parent_id)
                    &&& state_ok(tree_nodes(*tree), m, added@)
                    &&& pending_ok(
                        m,
                        pending_children@,
                        added@,
                        visited,
                        waiting.union(list.subrange(i as int, list.len() as int).to_set()),
                        None,
                    )
                },
            decreases children.len() - i,
        {
            let child_id = children[i];
            let ghost w = waiting.union(list.subrange(i as int, list.len() as int).to_set());
            let ghost rest = waiting.union(list.subrange(i + 1, list.len() as int).to_set());
            let ghost before = tree_nodes(*tree);
            let ghost added_before = added@;
            proof {
                if building {
                    assert(list.subrange(i as int, list.len() as int)[0] == child_id);
                    assert(w.contains(child_id));
                    let sub = list.subrange(i as int, list.len() as int);
                    let sub1 = list.subrange(i + 1, list.len() as int);
                    assert(w.remove(child_id) =~= rest) by {
                        assert forall|x: u32| #[trigger] w.remove(child_id).contains(x) implies rest.contains(x) by {
                            if !waiting.contains(x) {
                                assert(sub.contains(x));
                                let k = choose|k: int| 0 <= k < sub.len() && sub[k] == x;
                                if k != 0 {
                                    assert(sub1[k - 1] == x);
                                }
                            }
                        }
                        assert forall|x: u32| #[trigger] rest.contains(x) implies w.remove(child_id).contains(x) by {
                            if !waiting.contains(x) {
                                assert(sub1.contains(x));
                                let k = choose|k: int| 0 <= k < sub1.len() && sub1[k] == x;
                                assert(sub[k + 1] == x);
                                assert(list[i + 1 + k] == x);
                                assert(list[i as int] == child_id);
                            }
                        }
                    }
                }
            }
            match add_node(tree, child_id, Some(parent_id)) {
                Ok(_) => {},
                Err(e) => {
                    return Err(e);
                },
            }
            added.insert(child_id);
            proof {
                let after = tree_nodes(*tree);
                let k = choose|k: int| #![trigger before[k]] first_position(before, parent_id, k) && after == before.update(
                    k,
                    (before[k].0, before[k].1, before[k].2.push(child_id)),
                ).push((child_id, Some(parent_id), Seq::<u32>::empty()));
                assert(added_under(before, after, child_id, parent_id, k));
                lemma_added_under_facts(before, after, child_id, parent_id, k);
                assert(after[before.len() as int].0 == child_id);
                assert(list[i as int] == child_id);
                lemma_grown_add(before, after, child_id, parent_id, k, p0);
                if building {
                    lemma_add_keeps_shape(before, after, added_before, child_id, k, parent_id);
                    assert(m.contains_key(child_id));
                    assert(parent_key(m, child_id) == parent_id);
                    lemma_rooted_child(m, child_id);
                    lemma_add_keeps_nodes(before, after, m, added_before, child_id, k);
                    if !rooted(m, VIRTUAL_ROOT_PID) {
                        lemma_add_keeps_tree(before, after, m, added_before, child_id, k);
                    }
                    lemma_pending_add(m, pending_children@, added_before, visited, w, child_id);
                }
                let pd = pending_children@.dom();
                assert(pd.subset_of(p0.dom().remove(parent_id)));
                vstd::set_lib::lemma_len_subset(pd, p0.dom().remove(parent_id));
            }
            let ghost t_a = tree_nodes(*tree);
            let ghost pend_a = pending_children@;
            let ghost added_a = added@;
            match process_pending(
                tree,
                pending_children,
                added,
                child_id,
                Ghost(m),
                Ghost(visited),
                Ghost(rest),
            ) {
                Ok(()) => {},
                Err(e) => {
                    return Err(e);
                },
            }
            proof {
                lemma_child_done(
                    t0,
                    before,
                    t_a,
                    tree_nodes(*tree),
                    p0,
                    pend_a,
                    pending_children@,
                    got,
                    parent_id,
                    child_id,
                );
                let d = waiting_under(pend_a, child_id);
                let got2 = got.insert(child_id).union(d);
                assert(added@ =~= a0.union(got2));
                assert forall|kk: int| 0 <= kk < i + 1 implies got2.contains(#[trigger] list[kk]) by {
                    if kk < i {
                        assert(got.contains(list[kk]));
                    }
                }
                got = got2;
                lemma_grown_keeps_node(t0, tree_nodes(*tree), parent_id, got, p0, parent_id);
            }
            i += 1;
        }
        proof {
            if building {
                assert(waiting.union(list.subrange(i as int, list.len() as int).to_set()) =~= waiting);
            }
            assert(lists_within(p0, got.insert(parent_id), got)) by {
                reveal(lists_within);
                assert forall|k: u32, x: u32|
                    #![trigger got.insert(parent_id).contains(k), p0[k]@.contains(x)]
                    got.insert(parent_id).contains(k) && p0.contains_key(k) && p0[k]@.contains(x) implies got.contains(
                    x) by {
                    if k == parent_id {
                        let kk = choose|kk: int| 0 <= kk < list.len() && list[kk] == x;
                        assert(got.contains(list[kk]));
                    } else {
                        assert(got.remove(parent_id).contains(k));
                    }
                }
            }
            lemma_grown_is_waiting(t0, tree_nodes(*tree), parent_id, got, p0);
        }
    } else {
        proof {
            let got = Set::<u32>::empty();
            assert(pending_children@ =~= p0.remove_keys(got.insert(parent_id)));
            assert(lists_within(p0, got.insert(parent_id), got)) by {
                reveal(lists_within);
            }
            lemma_grown_is_waiting(t0, tree_nodes(*tree), parent_id, got, p0);
            assert(added@ =~= a0.union(got));
        }
    }
    Ok(())
}

/// Builds the process tree of `processes`: a virtual root with pid 0, under
/// it every process with no parent, and under each process the processes
/// whose parent it is. A process whose line of parents does not end in a
/// process with no parent is left out. Every addition succeeds. A process
/// with the virtual root's pid gets a node of its own, but what hangs under
/// it is added under the first node with that pid, the virtual root.
pub(crate) fn build_tree(processes: &HashMap<u32, ProcessMemoryInfo>) -> (r: Result<
    Tree<u32, ()>,
    TreeError,
>)
    ensures
        r is Ok,
        r matches Ok(t) ==> process_nodes(tree_nodes(t), processes@),
        r matches Ok(t) ==> (!rooted(processes@, VIRTUAL_ROOT_PID) ==> process_forest(
            tree_nodes(t),
            processes@,
        )),
{
    let ghost m = processes@;
    let mut tree = new_tree(Some("Process Tree"));
    match add_node(&mut tree, VIRTUAL_ROOT_PID, None) {
        Ok(_) => {},
        Err(e) => {
            return Err(e);
        },
    }
    let mut pending_children: HashMap<u32, Vec<u32>> = HashMap::new();
    let mut added: HashSet<u32> = HashSet::new();
    let ghost mut visited: Set<u32> = Set::empty();
    proof {
        let t = tree_nodes(tree);
        assert(t.len() == 1 && t[0] == (VIRTUAL_ROOT_PID, None::<u32>, Seq::<u32>::empty()));
        assert(children_after(t));
        assert(children_complete(t));
        assert(children_unique(t));
        assert(unique_ids(t));
        assert(parent_links(t, m));
    }
    for (pid, process) in it: processes.iter()
        invariant
            m == processes@,
            visited.finite(),
            forall|k: int| 0 <= k < it.index() ==> visited.contains(*(#[trigger] it.seq()[k]).0),
            forall|v: u32| visited.contains(v) ==> exists|k: int| 0 <= k < it.index() && *(#[trigger] it.seq()[k]).0 == v,
            shape_ok(tree_nodes(tree), added@),
            !rooted(m, VIRTUAL_ROOT_PID) ==> tree_ok(tree_nodes(tree), m, added@),
            nodes_ok(tree_nodes(tree), m, added@),
            tree_unshared(tree),
            pending_ok(m, pending_children@, added@, visited, Set::empty(), None),
            it.index() == it.seq().len() ==> visited == m.dom(),
    {
        let ghost idx = it.index();
        let ghost before = tree_nodes(tree);
        let ghost added_before = added@;
        let ghost pend_before = pending_children@;
        proof {
            let sq = it.seq();
            assert(sq[idx] == (pid, process));
            if visited.contains(*pid) {
                let k = choose|k: int| 0 <= k < idx && *(#[trigger] sq[k]).0 == *pid;
                lemma_walk_keys_distinct(sq, m, k, idx);
            }
            assert(m.contains_key(*pid));
        }
        let parent = process.parent;
        let attach = match parent {
            None => Some(VIRTUAL_ROOT_PID),
            Some(parent_pid) => if added.contains(&parent_pid) {
                Some(parent_pid)
            } else {
                None
            },
        };
        match attach {
            Some(under) => {
                proof {
                    assert(under == parent_key(m, *pid));
                    if under != VIRTUAL_ROOT_PID {
                        assert(added_before.contains(under));
                    }
                    assert(has_node(before, under));
                }
                match add_node(&mut tree, *pid, Some(under)) {
                    Ok(_) => {},
                    Err(e) => {
                        return Err(e);
                    },
                }
                added.insert(*pid);
                proof {
                    let after = tree_nodes(tree);
                    let k = choose|k: int|
                        #![trigger before[k]]
                        first_position(before, under, k) && after == before.update(
                            k,
                            (before[k].0, before[k].1, before[k].2.push(*pid)),
                        ).push((*pid, Some(under), Seq::<u32>::empty()));
                    assert(added_under(before, after, *pid, under, k));
                    lemma_added_under_facts(before, after, *pid, under, k);
                    assert(after[before.len() as int].0 == *pid);
                    lemma_add_keeps_shape(before, after, added_before, *pid, k, under);
                    lemma_rooted_child(m, *pid);
                    lemma_add_keeps_nodes(before, after, m, added_before, *pid, k);
                    if !rooted(m, VIRTUAL_ROOT_PID) {
                        lemma_add_keeps_tree(before, after, m, added_before, *pid, k);
                    }
                    lemma_pending_visit_add(m, pend_before, added_before, visited, *pid);
                    visited = visited.insert(*pid);
                }
                match process_pending(
                    &mut tree,
                    &mut pending_children,
                    &mut added,
                    *pid,
                    Ghost(m),
                    Ghost(visited),
                    Ghost(Set::empty()),
                ) {
                    Ok(()) => {},
                    Err(e) => {
                        return Err(e);
                    },
                }
            },
            None => {
                let parent_pid = match parent {
                    Some(p) => p,
                    None => VIRTUAL_ROOT_PID,
                };
                match pending_children.remove(&parent_pid) {
                    Some(mut waiting_list) => {
                        waiting_list.push(*pid);
                        pending_children.insert(parent_pid, waiting_list);
                    },
                    None => {
                        pending_children.insert(parent_pid, vec![*pid]);
                    },
                }
                proof {
                    let list = if pend_before.contains_key(parent_pid) {
                        pend_before[parent_pid]@.push(*pid)
                    } else {
                        seq![*pid]
                    };
                    lemma_pending_visit_wait(
                        m,
                        pend_before,
                        added_before,
                        visited,
                        *pid,
                        parent_pid,
                        list,
                    );
                    assert(pending_children@ =~= pend_before.insert(
                        parent_pid,
                        pending_children@[parent_pid],
                    ));
                    visited = visited.insert(*pid);
                }
            },
        }
        proof {
            assert(it.seq()[idx] == (pid, process));
            assert forall|v: u32| visited.contains(v) implies exists|k: int|
                0 <= k < idx + 1 && *(#[trigger] it.seq()[k]).0 == v by {
                if v != *pid {
                    let k = choose|k: int| 0 <= k < idx && *(#[trigger] it.seq()[k]).0 == v;
                }
            }
            assert forall|v: u32| m.dom().contains(v) && idx + 1 == it.seq().len() implies visited.contains(v) by {
                assert(it.seq().contains((&v, &m[v])));
                let k = choose|k: int| 0 <= k < it.seq().len() && it.seq()[k] == (&v, &m[v]);
                assert(*it.seq()[k].0 == v);
                if k < idx {
                    assert(visited.contains(*it.seq()[k].0));
                }
            }
            assert(idx + 1 == it.seq().len() ==> visited =~= m.dom());
        }
    }
    proof {
        assert(visited == m.dom());
        assert forall|pid: u32| rooted(m, pid) implies added@.contains(pid) by {
            let n = choose|n: nat| rooted_within(m, pid, n);
            lemma_rooted_added(m, pending_children@, added@, pid, n);
        }
        let t = tree_nodes(tree);
        assert forall|pid: u32| #[trigger] rooted(m, pid) implies exists|i: int|
            #![trigger t[i]]
            1 <= i < t.len() && t[i].0 == pid by {
            assert(added@.contains(pid));
        }
        assert(process_nodes(t, m));
        if !rooted(m, VIRTUAL_ROOT_PID) {
            assert(process_forest(t, m));
        }
    }
    Ok(tree)
}

} // verus!
