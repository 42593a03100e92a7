# freertos

The core of a small real-time kernel in the FreeRTOS mould, written in Verus
with its proofs.

- `src/` is the verified library:
  - `list` — item lists in an arena: sorted and cursor insertion, removal,
    round-robin turns (`get_owner_of_next_entry`).
  - `tasks`, `task_global`, `task_queue`, `kernel` — task control blocks,
    the scheduler state and its invariant, ready/delayed/suspended lists,
    the tick, context switches, event lists and time-outs.
  - `heap_1`, `port` — the bump heap and the port's stack set-up.
  - `uart`, `irq`, `tick_config` — serial-port text, interrupt dispatch and
    timer reload values; the board's registers are written by the caller.
  - `linkedlist`, `mmuconf`, `mmutest` — the paged-memory simulator (TLB,
    page table, LRU replacement) and its workloads.
  - `spigot` — the digits of pi, four at a time, by a spigot.
- `tests/` runs the library on concrete scenarios.
- `app/` is the demonstration program: it sends the library's bytes to
  standard output and runs the memory or the pi workload on request.
