use memory_usage::commands::{top_count, UsedMemorySnapshot};
use memory_usage::memory::{process_map, Memory, ProcessSample};
use memory_usage::process::ProcessMemoryInfo;
use memory_usage::storage::{Storage, Unit};
use tree_ds::prelude::Tree;

const KIB: u64 = 1024;
const MIB: u64 = 1024 * 1024;

fn sample(pid: u32, raw_memory: u64, parent: Option<u32>) -> ProcessSample {
    ProcessSample {
        pid,
        raw_memory,
        name: format!("proc{}", pid),
        exe: Some(format!("/bin/proc{}", pid)),
        parent,
        root: None,
    }
}

/// init (1) with a child (2) and grandchild (3); a parentless process (4)
/// with a child (5); a process whose parent is unknown (6); a process that is
/// its own parent (7).
fn samples() -> Vec<ProcessSample> {
    vec![
        sample(1, 100 * MIB, None),
        sample(2, 10 * MIB, Some(1)),
        sample(3, 5 * MIB, Some(2)),
        sample(4, 50 * MIB, None),
        sample(5, 20 * MIB, Some(4)),
        sample(6, 7 * MIB, Some(99)),
        sample(7, 3 * KIB, Some(7)),
    ]
}

fn memory() -> Memory {
    let s = samples();
    assert!(Memory::snapshot_fits(&s));
    Memory::from_snapshot(16 * 1024 * MIB, 8 * 1024 * MIB, 2 * 1024 * MIB, 0, s)
}

fn total_of(mem: &Memory, pid: u32) -> u64 {
    mem.processes.get(&pid).unwrap().total_memory.to_bytes()
}

fn sorted_children(tree: &Tree<u32, ()>, pid: u32) -> Vec<u32> {
    let mut ids = tree.get_node_by_id(&pid).unwrap().get_children_ids().unwrap();
    ids.sort();
    ids
}

#[test]
fn test_unit_names() {
    let names: Vec<String> = [Unit::B, Unit::KB, Unit::MB, Unit::GB, Unit::TB, Unit::PB]
        .iter()
        .map(|u| u.name())
        .collect();
    assert_eq!(names, vec!["B", "KB", "MB", "GB", "TB", "PB"]);
}

#[test]
fn test_getters() {
    let s = Storage::new(3, 256, Unit::MB);
    assert_eq!(s.quotient(), 3);
    assert_eq!(s.remainder(), 256);
    assert_eq!(s.unit(), Unit::MB);
}

#[test]
fn test_to_bytes_of_remainder_past_one_unit() {
    // Not well formed: the remainder's bits are set into the shifted quotient.
    assert_eq!(Storage::new(1, 2048, Unit::KB).to_bytes(), 1024 | 2048);
    assert_eq!(Storage::new(1, 1024, Unit::KB).to_bytes(), 1024);
    // Bytes ignore the remainder.
    assert_eq!(Storage::new(5, 7, Unit::B).to_bytes(), 5);
}

#[test]
fn test_from_bytes_largest() {
    assert_eq!(Storage::from_bytes(u64::MAX), Storage::new(16383, (1u64 << 50) - 1, Unit::PB));
    assert_eq!(Storage::from_bytes(u64::MAX).to_bytes(), u64::MAX);
}

#[test]
fn test_normalized_round_trip() {
    for s in [
        Storage::new(0, 0, Unit::B),
        Storage::new(1023, 0, Unit::B),
        Storage::new(3, 256, Unit::MB),
        Storage::new(1023, 1023, Unit::KB),
        Storage::new(100, 512, Unit::PB),
    ] {
        assert_eq!(Storage::from_bytes(s.to_bytes()), s);
    }
}

#[test]
fn test_add_storages() {
    let a = Storage::from_bytes(1024);
    let b = Storage::from_bytes(512);
    let expected = Storage::new(1, 512, Unit::KB);
    assert_eq!(a + b, expected);
    assert_eq!(a + &b, expected);
    assert_eq!(&a + b, expected);
    assert_eq!(&a + &b, expected);
    assert_eq!(b + a, expected);
    let c = Storage::from_bytes(MIB - 1536);
    assert_eq!((a + b) + c, a + (b + c));
    assert_eq!((a + b) + c, Storage::new(1, 0, Unit::MB));
}

#[test]
fn test_add_renormalizes() {
    // A storage that is not normalized adds by its bytes.
    let odd = Storage::new(2048, 0, Unit::KB);
    assert_eq!(odd + Storage::from_bytes(0), Storage::new(2, 0, Unit::MB));
}

#[test]
fn test_top_count() {
    assert_eq!(top_count(None), 20);
    assert_eq!(top_count(Some(0)), 1);
    assert_eq!(top_count(Some(1)), 1);
    assert_eq!(top_count(Some(7)), 7);
    assert_eq!(top_count(Some(200)), 200);
    assert_eq!(top_count(Some(500)), 200);
}

#[test]
fn test_process_map_keeps_later_read() {
    let s = vec![sample(3, 10, None), sample(3, 20, Some(1))];
    let m = process_map(&s);
    assert_eq!(m.len(), 1);
    let info: &ProcessMemoryInfo = m.get(&3).unwrap();
    assert_eq!(info.raw_memory, 20);
    assert_eq!(info.parent, Some(1));
    assert_eq!(info.memory, Storage::from_bytes(20));
}

#[test]
fn test_memory_amounts() {
    let mem = memory();
    assert_eq!(mem.total_memory, Storage::new(16, 0, Unit::GB));
    assert_eq!(mem.used_memory, Storage::new(8, 0, Unit::GB));
    assert_eq!(mem.total_swap, Storage::new(2, 0, Unit::GB));
    assert_eq!(mem.used_swap, Storage::new(0, 0, Unit::B));
    assert_eq!(mem.processes.len(), 7);
}

#[test]
fn test_subtree_totals() {
    let mem = memory();
    // The init process keeps its own memory.
    assert_eq!(total_of(&mem, 1), 100 * MIB);
    assert_eq!(total_of(&mem, 2), 15 * MIB);
    assert_eq!(total_of(&mem, 3), 5 * MIB);
    assert_eq!(total_of(&mem, 4), 70 * MIB);
    assert_eq!(total_of(&mem, 5), 20 * MIB);
    // Processes outside the tree keep their own memory.
    assert_eq!(total_of(&mem, 6), 7 * MIB);
    assert_eq!(total_of(&mem, 7), 3 * KIB);
    assert_eq!(
        mem.processes.get(&4).unwrap().total_memory,
        Storage::new(70, 0, Unit::MB)
    );
}

#[test]
fn test_tree_shape() {
    let mem = memory();
    let tree = mem.tree().unwrap();
    assert_eq!(sorted_children(&tree, 0), vec![1, 4]);
    assert_eq!(sorted_children(&tree, 1), vec![2]);
    assert_eq!(sorted_children(&tree, 2), vec![3]);
    assert_eq!(sorted_children(&tree, 4), vec![5]);
    assert!(tree.get_node_by_id(&6).is_none());
    assert!(tree.get_node_by_id(&7).is_none());
}

#[test]
fn test_first_orders_top_level_by_total() {
    let mem = memory();
    let first = mem.first(10);
    let pids: Vec<u32> = first.iter().map(|(pid, _)| *pid).collect();
    assert_eq!(pids, vec![1, 4, 2]);
    assert_eq!(first[1].1.name, "proc4");
    assert_eq!(first[1].1.total_memory.to_bytes(), 70 * MIB);
    let two: Vec<u32> = mem.first(2).iter().map(|(pid, _)| *pid).collect();
    assert_eq!(two, vec![1, 4]);
    assert!(mem.first(0).is_empty());
}

#[test]
fn test_first_with_equal_totals() {
    let s = vec![sample(10, 5 * KIB, None), sample(11, 5 * KIB, None), sample(12, 9 * KIB, None)];
    let mem = Memory::from_snapshot(0, 0, 0, 0, s);
    let first = mem.first(3);
    assert_eq!(first[0].0, 12);
    let mut rest: Vec<u32> = vec![first[1].0, first[2].0];
    rest.sort();
    assert_eq!(rest, vec![10, 11]);
}

#[test]
fn test_used_memory_snapshot() {
    let snap = UsedMemorySnapshot::from_memory(memory(), Some(2));
    let pids: Vec<u32> = snap.top_processes.iter().map(|r| r.pid).collect();
    assert_eq!(pids, vec![1, 4]);
    assert_eq!(snap.top_processes[1].info.total_memory.to_bytes(), 70 * MIB);
    assert_eq!(snap.memory.processes.len(), 7);
    let all = UsedMemorySnapshot::from_memory(memory(), None);
    assert_eq!(all.top_processes.len(), 3);
}

#[test]
fn test_snapshot_fits() {
    assert!(Memory::snapshot_fits(&samples()));
    // A process with the virtual root's pid that hangs under no parent.
    assert!(!Memory::snapshot_fits(&vec![sample(0, 1, None)]));
    // One with that pid whose line of parents never ends is fine.
    assert!(Memory::snapshot_fits(&vec![sample(0, 1, Some(5))]));
    // Totals past 64 bits.
    assert!(!Memory::snapshot_fits(&vec![
        sample(2, u64::MAX, None),
        sample(3, 1, Some(2))
    ]));
    // The same amounts side by side are fine.
    assert!(Memory::snapshot_fits(&vec![sample(2, u64::MAX, None), sample(3, 1, None)]));
    // The init process does not add its descendants.
    assert!(Memory::snapshot_fits(&vec![
        sample(1, u64::MAX, None),
        sample(3, 1, Some(1))
    ]));
}

#[test]
fn test_first_sorts_many() {
    // Totals that the map's walk order does not follow.
    let totals: Vec<u64> = vec![7, 3, 11, 5, 13, 2, 17, 19, 1, 23, 29, 31];
    let s: Vec<ProcessSample> = totals
        .iter()
        .enumerate()
        .map(|(k, t)| sample(100 + k as u32, t * KIB, None))
        .collect();
    let mem = Memory::from_snapshot(0, 0, 0, 0, s);
    let got: Vec<u64> = mem.first(12).iter().map(|(_, p)| p.total_memory.to_bytes() / KIB).collect();
    let mut expected = totals.clone();
    expected.sort_by(|a, b| b.cmp(a));
    assert_eq!(got, expected);
    let top3: Vec<u32> = mem.first(3).iter().map(|(pid, _)| *pid).collect();
    assert_eq!(top3, vec![111, 110, 109]);
}

#[test]
fn test_is_rooted() {
    let m = process_map(&samples());
    assert!(memory_usage::limits::is_rooted(&m, 3));
    assert!(memory_usage::limits::is_rooted(&m, 1));
    assert!(!memory_usage::limits::is_rooted(&m, 6));
    assert!(!memory_usage::limits::is_rooted(&m, 7));
    assert!(!memory_usage::limits::is_rooted(&m, 42));
}

/// A process whose pid is the virtual root's still gets one node under its
/// parent; its children are found under the first node with that pid.
#[test]
fn test_tree_with_process_at_root_pid() {
    let s = vec![sample(5, 4 * KIB, None), sample(0, 2 * KIB, Some(5)), sample(7, KIB, Some(0))];
    let mem = Memory {
        total_memory: Storage::from_bytes(0),
        used_memory: Storage::from_bytes(0),
        total_swap: Storage::from_bytes(0),
        used_swap: Storage::from_bytes(0),
        processes: process_map(&s),
    };
    let tree = mem.tree().unwrap();
    let nodes: Vec<(u32, Option<u32>)> = tree
        .get_nodes()
        .iter()
        .map(|n| (n.get_node_id().unwrap(), n.get_parent_id().unwrap()))
        .collect();
    assert_eq!(nodes.len(), 4);
    assert_eq!(nodes[0], (0, None));
    let mut rest = nodes[1..].to_vec();
    rest.sort();
    assert_eq!(rest, vec![(0, Some(5)), (5, Some(0)), (7, Some(0))]);
    assert_eq!(sorted_children(&tree, 0), vec![5, 7]);
    assert_eq!(sorted_children(&tree, 5), vec![0]);
    for n in tree.get_nodes().iter().skip(1) {
        if n.get_node_id().unwrap() != 5 {
            assert!(n.get_children_ids().unwrap().is_empty());
        }
    }
}

/// Working out totals changes nothing but totals.
#[test]
fn test_totals_change_only_totals() {
    let mem = memory();
    let read = process_map(&samples());
    let mut keys: Vec<u32> = mem.processes.keys().copied().collect();
    keys.sort();
    assert_eq!(keys, vec![1, 2, 3, 4, 5, 6, 7]);
    for (pid, before) in read.iter() {
        let after = mem.processes.get(pid).unwrap();
        assert_eq!(after.memory, before.memory);
        assert_eq!(after.raw_memory, before.raw_memory);
        assert_eq!(after.name, before.name);
        assert_eq!(after.exe, before.exe);
        assert_eq!(after.parent, before.parent);
        assert_eq!(after.root, before.root);
    }
    assert_eq!(mem.processes.get(&1).unwrap().total_memory, read.get(&1).unwrap().total_memory);
}
