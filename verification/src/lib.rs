//! Memory usage of a machine and of its processes: storage sizes in binary
//! units, a process tree and the memory that each process tree holds.

pub mod storage;
pub mod tree;
pub mod process;
pub mod forest;
pub mod totals;
pub mod memory;
pub mod commands;
pub mod limits;
