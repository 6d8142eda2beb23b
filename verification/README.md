# pacer

Pressure-adaptive concurrent epoch reclamation, verified with Verus.

Threads that update shared data retire the nodes that they replace. A retired
node may be freed once no snapshot can reach it. How eagerly a thread frees
follows its snapshot pressure, the smoothed share of snapshots among its
operations: aggressively while it is low, at the rate of retirement while it is
moderate, and held back, up to a limit, while it is high.

- `src/` is the library. Verus checks all of it but what is claimed of the
  exchange of an atomic word in `src/access.rs`; of the clock and the waiting
  hint in `src/waiting.rs` nothing is claimed.
- `tests/` runs it, and holds its arithmetic against that of the machine.
- `app/` has the benchmarks: threads, the clock, printing, and the tree behind
  its C interface.

## How it is specified

Shared words are atomics of `std`. Each access appends what it did to a ghost
trace of the thread, as does each reading of the clock, and the contracts say
which accesses an operation makes and how its result follows from what they
returned. Laws about several threads are
stated over every interleaving of such traces, in a memory that acts on one
access at a time; that snapshots are never torn is also stated in a memory that
orders accesses no more than their memory orders ask for.

Double-precision numbers are handled as bit patterns. Their arithmetic is
defined as the exact result rounded to nearest, ties to even, and the code that
computes it is proved to do that.

## Limits

A loop that waits for another thread or for a time gives up after 2^64 - 1
rounds, since every loop has to be shown to end; taking a snapshot then returns
nothing. Registering more threads than there are slots returns nothing. Counters
of a single thread are assumed not to be exhausted; shared counters wrap around.

Retired nodes are freed by draining a bag. One that is dropped leaks what it
still holds.
