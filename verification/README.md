# chaos_kernel

A model of an operating system kernel, written in Verus: its locks and queues, signals,
timers, scheduling, memory, files, configuration tree, inter-process communication, processes
and system calls. Every function carries a contract that says what it returns and what it
changes; the laws that hold across functions stand as public proof functions whose names begin
with `law_`.

The kernel is one value that is changed by one call at a time. Where a thread would wait, the
library says so in its result (`ParkStep`, `RecvStep`, an `Option`), and the caller sleeps.
What tasks share is held in tables and named by its place in them, with the number of its
references beside it.

- `src/sync.rs`, `src/channel.rs`, `src/signal.rs`, `src/timer.rs`, `src/sched.rs`,
  `src/trap.rs`: the parts that need nothing else.
- `src/memory/`: addresses, frames, regions, slabs, and blocks of pages.
- `src/fs/`: open files, pipes, watches, caches, mounts, the disk and its queue, kernel
  objects, and the configuration tree.
- `src/ipc.rs`, `src/process/`, `src/kernel/`: semaphores and shared memory, tasks, and the
  kernel with its system calls.
- `src/text.rs`, `src/strmap.rs`, `src/bytes.rs`, `src/tables.rs`: text, bytes and tables.
- `tests/`: the library at work on concrete values.
- `app/`: the kernel shared by threads of a host, memory for its stacks, and its values as
  text.
