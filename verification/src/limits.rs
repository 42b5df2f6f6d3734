//! Whether a line of parents ends in a process with no parent, worked out by
//! walking up it.

use vstd::prelude::*;
use std::collections::HashMap;
use crate::process::{ProcessMemoryInfo, rooted, rooted_within};

verus! {

/// The process `k` steps up the line of parents of `x`; the walk stays at a
/// process with no parent.
pub open spec fn ancestor(m: Map<u32, ProcessMemoryInfo>, x: u32, k: nat) -> u32
    decreases k,
{
    if k == 0 {
        x
    } else {
        let a = ancestor(m, x, (k - 1) as nat);
        match m[a].parent {
            Some(p) => p,
            None => a,
        }
    }
}

/// Reaching a process with no parent within `n` steps means reaching it
/// within any more steps.
proof fn lemma_rooted_grow(m: Map<u32, ProcessMemoryInfo>, x: u32, n: nat, n2: nat)
    requires
        rooted_within(m, x, n),
        n <= n2,
    ensures
        rooted_within(m, x, n2),
    decreases n,
{
    if let Some(p) = m[x].parent {
        lemma_rooted_grow(m, p, (n - 1) as nat, (n2 - 1) as nat);
    }
}

/// Where the first `k` processes up the line all have parents, the process
/// `k` steps up reaches a process with no parent `k` steps sooner.
proof fn lemma_rooted_steps(m: Map<u32, ProcessMemoryInfo>, x: u32, n: nat, k: nat)
    requires
        rooted_within(m, x, n),
        k <= n,
        forall|j: nat| j < k ==> (#[trigger] m[ancestor(m, x, j)]).parent is Some,
    ensures
        rooted_within(m, ancestor(m, x, k), (n - k) as nat),
    decreases k,
{
    if k > 0 {
        lemma_rooted_steps(m, x, n, (k - 1) as nat);
        assert(m[ancestor(m, x, (k - 1) as nat)].parent is Some);
    }
}

/// Where the first `k` processes up the line are known and have parents and
/// the one `k` steps up has none, the line ends within `k` steps.
proof fn lemma_rooted_back(m: Map<u32, ProcessMemoryInfo>, x: u32, k: nat, n: nat)
    requires
        forall|j: nat|
            j < k ==> m.contains_key(ancestor(m, x, j)) && (#[trigger] m[ancestor(m, x, j)]).parent is Some,
        rooted_within(m, ancestor(m, x, k), n),
    ensures
        rooted_within(m, x, n + k),
    decreases k,
{
    if k > 0 {
        let a = ancestor(m, x, (k - 1) as nat);
        assert(m[a].parent is Some);
        assert(rooted_within(m, a, n + 1));
        assert forall|j: nat| j < (k - 1) as nat implies m.contains_key(ancestor(m, x, j))
            && (#[trigger] m[ancestor(m, x, j)]).parent is Some by {}
        lemma_rooted_back(m, x, (k - 1) as nat, n + 1);
    }
}

/// Two steps at which the line is at the same process stay together.
proof fn lemma_ancestor_shift(m: Map<u32, ProcessMemoryInfo>, x: u32, a: nat, b: nat, j: nat)
    requires
        ancestor(m, x, a) == ancestor(m, x, b),
    ensures
        ancestor(m, x, a + j) == ancestor(m, x, b + j),
    decreases j,
{
    if j > 0 {
        lemma_ancestor_shift(m, x, a, b, (j - 1) as nat);
    }
}

/// A line of parents that ends in a process with no parent ends within as
/// many steps as there are known processes.
proof fn lemma_rooted_bound(m: Map<u32, ProcessMemoryInfo>, x: u32, n: nat)
    requires
        m.dom().finite(),
        rooted_within(m, x, n),
    ensures
        rooted_within(m, x, m.dom().len()),
    decreases n,
{
    if n <= m.dom().len() {
        lemma_rooted_grow(m, x, n, m.dom().len());
    } else {
        // Some process within the first `n` steps has no parent, and the line
        // ends there, sooner; else the line repeats a process and ends
        // sooner still.
        if exists|j: nat| j < n && (#[trigger] m[ancestor(m, x, j)]).parent is None {
            let k = lemma_first_without_parent(m, x, n);
            lemma_rooted_steps(m, x, n, k);
            assert(rooted_within(m, ancestor(m, x, k), 0));
            assert forall|j: nat| j < k implies m.contains_key(ancestor(m, x, j))
                && (#[trigger] m[ancestor(m, x, j)]).parent is Some by {
                lemma_rooted_steps(m, x, n, j);
            }
            lemma_rooted_back(m, x, k, 0);
            lemma_rooted_grow(m, x, k, (n - 1) as nat);
            lemma_rooted_bound(m, x, (n - 1) as nat);
        } else {
            let s = Seq::new(n + 1, |k: int| ancestor(m, x, k as nat));
            assert forall|k: int| 0 <= k < s.len() implies m.contains_key(#[trigger] s[k]) by {
                lemma_rooted_steps(m, x, n, k as nat);
            }
            assert(s.to_set().subset_of(m.dom()));
            vstd::set_lib::lemma_len_subset(s.to_set(), m.dom());
            if s.no_duplicates() {
                s.unique_seq_to_set();
            }
            let (a, b) = choose|a: int, b: int|
                0 <= a < s.len() && 0 <= b < s.len() && a != b && s[a] == s[b];
            let (lo, hi) = if a < b {
                (a as nat, b as nat)
            } else {
                (b as nat, a as nat)
            };
            lemma_rooted_steps(m, x, n, n);
            lemma_ancestor_shift(m, x, lo, hi, (n - hi) as nat);
            assert(ancestor(m, x, (lo + n - hi) as nat) == ancestor(m, x, n));
            assert(m[ancestor(m, x, (lo + n - hi) as nat)].parent is None);
        }
    }
}

/// The first step up the line of `x`, within `n`, at a process with no
/// parent, where there is one.
proof fn lemma_first_without_parent(m: Map<u32, ProcessMemoryInfo>, x: u32, n: nat) -> (k: nat)
    requires
        exists|j: nat| j < n && (#[trigger] m[ancestor(m, x, j)]).parent is None,
    ensures
        k < n,
        m[ancestor(m, x, k)].parent is None,
        forall|j: nat| j < k ==> (#[trigger] m[ancestor(m, x, j)]).parent is Some,
    decreases n,
{
    if exists|j: nat| j < (n - 1) as nat && (#[trigger] m[ancestor(m, x, j)]).parent is None {
        lemma_first_without_parent(m, x, (n - 1) as nat)
    } else {
        (n - 1) as nat
    }
}

/// Whether the line of parents of `pid` ends in a process with no parent,
/// every process on the way being known.
pub fn is_rooted(processes: &HashMap<u32, ProcessMemoryInfo>, pid: u32) -> (r: bool)
    ensures
        r == rooted(processes@, pid),
{
    let ghost m = processes@;
    let limit = processes.len();
    let mut cur = pid;
    let mut steps: usize = 0;
    proof {
        if rooted(m, pid) {
            let n = choose|n: nat| rooted_within(m, pid, n);
            lemma_rooted_bound(m, pid, n);
        }
    }
    loop
        invariant
            m == processes@,
            limit == m.dom().len(),
            steps <= limit,
            rooted(m, pid) <==> rooted(m, cur),
            rooted(m, cur) ==> rooted_within(m, cur, (limit - steps) as nat),
        decreases limit - steps,
    {
        match processes.get(&cur) {
            None => {
                return false;
            },
            Some(process) => match process.parent {
                None => {
                    proof {
                        assert(rooted_within(m, cur, 0));
                    }
                    return true;
                },
                Some(p) => {
                    proof {
                        if rooted(m, p) {
                            let n = choose|n: nat| rooted_within(m, p, n);
                            assert(rooted_within(m, cur, n + 1));
                        }
                        if rooted(m, cur) {
                            assert(rooted_within(m, p, (limit - steps - 1) as nat));
                        }
                    }
                    if steps >= limit {
                        return false;
                    }
                    cur = p;
                    steps = steps + 1;
                },
            },
        }
    }
}

} // verus!
