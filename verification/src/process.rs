//! The memory that one process holds, and how processes hang under their
//! parents.

use vstd::prelude::*;
use crate::storage::Storage;

verus! {

/// The pid under which processes with no parent hang in the process tree;
/// no process of its own stands there.
pub const VIRTUAL_ROOT_PID: u32 = 0;

/// The pid of the init process, whose descendants are not counted into it.
pub const INIT_PID: u32 = 1;

/// The memory of one process and where it stands.
#[derive(Clone, Debug)]
pub struct ProcessMemoryInfo {
    /// The process's own memory.
    pub memory: Storage,
    /// The process's own memory, in bytes as they were read.
    pub raw_memory: u64,
    pub name: String,
    pub exe: Option<String>,
    pub parent: Option<u32>,
    pub root: Option<String>,
    /// The memory of the process together with its descendants.
    pub total_memory: Storage,
}

impl ProcessMemoryInfo {
    /// An equal copy of this record.
    pub fn duplicate(&self) -> (r: Self)
        ensures
            r == *self,
    {
        let exe = match &self.exe {
            Some(s) => Some(s.clone()),
            None => None,
        };
        let root = match &self.root {
            Some(s) => Some(s.clone()),
            None => None,
        };
        ProcessMemoryInfo {
            memory: self.memory,
            raw_memory: self.raw_memory,
            name: self.name.clone(),
            exe,
            parent: self.parent,
            root,
            total_memory: self.total_memory,
        }
    }
}

/// The pid under which `pid` hangs in the process tree: its parent, or the
/// virtual root where it has none.
pub open spec fn parent_key(m: Map<u32, ProcessMemoryInfo>, pid: u32) -> u32 {
    match m[pid].parent {
        Some(p) => p,
        None => VIRTUAL_ROOT_PID,
    }
}

/// Whether, within `n` steps up its line of parents, `pid` reaches a process
/// with no parent, every process on the way being known.
pub open spec fn rooted_within(m: Map<u32, ProcessMemoryInfo>, pid: u32, n: nat) -> bool
    decreases n,
{
    &&& m.contains_key(pid)
    &&& match m[pid].parent {
        None => true,
        Some(p) => n > 0 && rooted_within(m, p, (n - 1) as nat),
    }
}

/// Whether the line of parents of `pid` ends in a process with no parent,
/// every process on the way being known: the processes that the process
/// tree holds.
pub open spec fn rooted(m: Map<u32, ProcessMemoryInfo>, pid: u32) -> bool {
    exists|n: nat| rooted_within(m, pid, n)
}

/// The keys of the pairs that a walk over a map gives are distinct.
pub proof fn lemma_walk_keys_distinct(
    sq: Seq<(&u32, &ProcessMemoryInfo)>,
    m: Map<u32, ProcessMemoryInfo>,
    a: int,
    b: int,
)
    requires
        sq.len() == m.dom().len(),
        m.dom().finite(),
        forall|i: int| 0 <= i < sq.len() ==> m.contains_key(*(#[trigger] sq[i]).0),
        forall|v: u32| m.contains_key(v) ==> sq.contains((&v, &m[v])),
        0 <= a < sq.len(),
        0 <= b < sq.len(),
        a != b,
    ensures
        *sq[a].0 != *sq[b].0,
{
    let ks = sq.map_values(|e: (&u32, &ProcessMemoryInfo)| *e.0);
    assert(ks.to_set() =~= m.dom()) by {
        assert forall|v: u32| m.dom().contains(v) implies ks.to_set().contains(v) by {
            let j = choose|j: int| 0 <= j < sq.len() && sq[j] == (&v, &m[v]);
            assert(ks[j] == v);
        }
        assert forall|v: u32| ks.to_set().contains(v) implies m.dom().contains(v) by {
            let j = choose|j: int| 0 <= j < ks.len() && ks[j] == v;
            assert(m.contains_key(*sq[j].0));
        }
    }
    ks.lemma_no_dup_set_cardinality();
    assert(ks[a] != ks[b]);
}

} // verus!
