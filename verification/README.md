# memory_usage

Memory of a machine and of its processes, with binary storage units and the
total memory that each process holds together with its descendants.

- `src/` is the verified library:
  - `storage`: `Storage` and `Unit`, amounts written as whole units plus a
    remainder, with their addition;
  - `process`: the record of one process and when its line of parents ends
    in a process with no parent;
  - `tree`: the `tree_ds` tree, with the calls the library makes into it;
  - `forest`: building the process tree;
  - `totals`: working out each process's total over the tree;
  - `limits`: walking up a line of parents;
  - `memory`: `Memory`, made from what was read, and its largest top-level
    processes;
  - `commands`: the answers of the application's commands.
- `app/` reads the system with `sysinfo`, calls the library, and gives
  serializable copies of its answers; it also shows storages as decimals.
- `tests/` holds the tests.
