# monitor

Monitors, a bounded message buffer and counting semaphores on top of
`parking_lot`, with the decisions they make verified by Verus.

- `src/` is the verified library.
  - `monitor.rs`: building a monitor (data behind a mutex plus one condition
    variable per marker type), the message type, the state of a bounded
    buffer (a first-in first-out queue that never exceeds its capacity), and
    the consumer's decision on each polled message.
  - `semaphores.rs`: semaphores and the decision behind taking permits,
    processes that wait on and release semaphores (grouped by identity so
    that each semaphore is touched once, by its multiplicity), and sequences
    of processes.
  - `sync.rs`: the primitives of `parking_lot` and `std` that the library
    holds, and the trusted calls into them.
  - `utils.rs`: signalling a condition variable.
- `app/` holds what blocks: locking a monitor and waiting on its conditions,
  the blocking buffer operations, waiting for permits, running a sequence on
  threads, and the producer/consumer demonstration.
- `tests/` exercises the library.
