//! What the application's commands answer: facts about the system, and the
//! machine's memory with its largest processes.

use vstd::prelude::*;
use crate::process::ProcessMemoryInfo;
use crate::memory::{Memory, top_rows};

verus! {

/// How many processes an answer lists when the caller names no number.
pub const DEFAULT_TOP_PROCESSES: usize = 20;

/// The fewest processes an answer lists.
pub const MIN_TOP_PROCESSES: usize = 1;

/// The most processes an answer lists.
pub const MAX_TOP_PROCESSES: usize = 200;

/// Facts about the operating system and the machine.
pub struct SystemInfo {
    pub os_name: Option<String>,
    pub kernel_version: Option<String>,
    pub os_version: Option<String>,
    pub long_os_version: Option<String>,
    pub host_name: Option<String>,
    pub cpu_count: usize,
}

/// One listed process: its pid and its record.
pub struct ProcessMemoryRow {
    pub pid: u32,
    pub info: ProcessMemoryInfo,
}

/// The machine's memory together with its largest top-level processes.
pub struct UsedMemorySnapshot {
    pub memory: Memory,
    pub top_processes: Vec<ProcessMemoryRow>,
}

/// How many processes an answer lists for the number the caller asked for:
/// the default where none was named, and never fewer than the fewest nor
/// more than the most.
pub open spec fn top_count_spec(top_n: Option<usize>) -> usize {
    let n = match top_n {
        Some(n) => n,
        None => DEFAULT_TOP_PROCESSES,
    };
    if n < MIN_TOP_PROCESSES {
        MIN_TOP_PROCESSES
    } else if n > MAX_TOP_PROCESSES {
        MAX_TOP_PROCESSES
    } else {
        n
    }
}

/// The pid and record of each listed process.
pub open spec fn row_pairs(rows: Seq<ProcessMemoryRow>) -> Seq<(u32, ProcessMemoryInfo)> {
    rows.map_values(|r: ProcessMemoryRow| (r.pid, r.info))
}

/// An answer lists 20 processes where the caller names no number, and the
/// number named clamped to 1 through 200 otherwise: that number itself where
/// it lies between them.
pub proof fn law_top_count_clamps(n: usize)
    ensures
        top_count_spec(None) == 20,
        1 <= n <= 200 ==> top_count_spec(Some(n)) == n,
        n < 1 ==> top_count_spec(Some(n)) == 1,
        n > 200 ==> top_count_spec(Some(n)) == 200,
{
}

/// Each row's pair is the row's own pid and record, in the rows' order.
pub proof fn law_rows_are_pairs(rows: Seq<ProcessMemoryRow>)
    ensures
        row_pairs(rows).len() == rows.len(),
        forall|i: int|
            0 <= i < rows.len() ==> #[trigger] row_pairs(rows)[i] == (rows[i].pid, rows[i].info),
{
}

/// How many processes an answer lists for the number the caller asked for.
pub fn top_count(top_n: Option<usize>) -> (n: usize)
    ensures
        n == top_count_spec(top_n),
        MIN_TOP_PROCESSES <= n <= MAX_TOP_PROCESSES,
{
    let n = match top_n {
        Some(n) => n,
        None => DEFAULT_TOP_PROCESSES,
    };
    if n < MIN_TOP_PROCESSES {
        MIN_TOP_PROCESSES
    } else if n > MAX_TOP_PROCESSES {
        MAX_TOP_PROCESSES
    } else {
        n
    }
}

impl UsedMemorySnapshot {
    /// The answer for `memory`: the memory itself and, largest first, the
    /// top-level processes with the largest totals, as many as `top_count`
    /// gives for `top_n`.
    pub fn from_memory(memory: Memory, top_n: Option<usize>) -> (snap: UsedMemorySnapshot)
        ensures
            snap.memory == memory,
            top_rows(memory.processes@, top_count_spec(top_n) as nat, row_pairs(snap.top_processes@)),
            exists|pairs: Vec<(u32, ProcessMemoryInfo)>|
                call_ensures(Memory::first, (&memory, top_count_spec(top_n)), pairs) && row_pairs(
                    snap.top_processes@,
                ) == pairs@,
            exists|pairs: Vec<(u32, ProcessMemoryInfo)>|
                #![trigger call_ensures(Memory::first, (&memory, top_count_spec(top_n)), pairs)]
                call_ensures(Memory::first, (&memory, top_count_spec(top_n)), pairs)
                    && snap.top_processes@.len() == pairs@.len() && forall|i: int|
                    0 <= i < pairs@.len() ==> #[trigger] snap.top_processes@[i].pid == pairs@[i].0
                        && snap.top_processes@[i].info == pairs@[i].1,
    {
        let n = top_count(top_n);
        let first = Memory::first;
        let pairs = first(&memory, n);
        let mut top_processes: Vec<ProcessMemoryRow> = Vec::new();
        let mut i: usize = 0;
        while i < pairs.len()
            invariant
                0 <= i <= pairs.len(),
                top_processes@.len() == i,
                row_pairs(top_processes@) == pairs@.take(i as int),
            decreases pairs.len() - i,
        {
            let pid = pairs[i].0;
            let info = pairs[i].1.duplicate();
            let ghost before = top_processes@;
            top_processes.push(ProcessMemoryRow { pid, info });
            proof {
                assert(pairs@[i as int] == (pid, info));
                assert forall|j: int| 0 <= j < i + 1 implies #[trigger] row_pairs(top_processes@)[j] == pairs@.take(i + 1)[j] by {
                    if j < i {
                        assert(top_processes@[j] == before[j]);
                        assert(row_pairs(before)[j] == pairs@.take(i as int)[j]);
                    }
                }
                assert(row_pairs(top_processes@) =~= pairs@.take(i + 1));
            }
            i += 1;
        }
        proof {
            assert(pairs@.take(pairs.len() as int) =~= pairs@);
            law_rows_are_pairs(top_processes@);
            assert forall|i: int| 0 <= i < pairs@.len() implies #[trigger] top_processes@[i].pid
                == pairs@[i].0 && top_processes@[i].info == pairs@[i].1 by {
                assert(row_pairs(top_processes@)[i] == pairs@[i]);
            }
        }
        UsedMemorySnapshot { memory, top_processes }
    }
}

} // verus!
