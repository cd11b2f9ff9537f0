# kcore

The core of a small capability kernel, written in Verus: every function of the
library carries a contract, and Verus proves it.

- `src/` is the library. Tables of objects, handles, processes, jobs, channels,
  ports, memory objects, devices and frames; the scheduler; the driver
  lifecycle; wake accounting; paging; the heap; and, in `src/exec/`, the
  executive that joins them. `src/loader.rs` is the process lifecycle,
  `src/machine_lock.rs` the lock over what CPUs share.
- `tests/` runs the library on concrete values.
- `app/` is what a machine needs around it: real locks, waiting, context
  switches and printed lines.

Each table has a view, a mathematical value that says what it holds, and each
operation says what the new view is. An operation that suspends its caller is
two functions: one up to the switch it returns, one for when the thread runs
again. Names that begin with `law_` are statements about several operations
together.

What the core asks of an address space, a frame allocator, a DMA unit or an
interrupt controller is a trait whose implementations keep a record of what they
were asked, so a contract can say it.

What an operation did and only has to be told is handed back as records; `app/`
prints them.
