# kestrel-timer

A hierarchical timing wheel for timers: a lower layer (L0) of fine ticks for
short delays and an upper layer (L1) of coarse ticks, with rounds, for long
ones, all counted in nanoseconds. Tasks due in L1 move down to L0 when their
L1 tick comes; tasks in L0 fire when the L0 counter reaches their slot.
Periodic tasks are scheduled again each time they fire.

## Layout

- `src/` — the library, verified with Verus:
  - `wheel.rs`: the two-layer wheel (insert, cancel, postpone, their batch
    forms, and `advance`), with its invariant and contracts over an abstract
    view of slots, counters and the task index;
  - `laws.rs`: properties across operations — cancelling twice, insert then
    cancel, when an L0 task fires, when an L1 task moves down, the period of
    periodic tasks in either layer, postponed tasks in either layer, handle
    numbers, batch cancel and batch insert against their single forms;
  - `config.rs`: configurations and their validating builders;
  - `ringbuf.rs`, `spsc.rs`: a power-of-two ring buffer and the state of a
    single-producer single-consumer channel built on it;
  - `oneshot.rs`, `notify.rs`, `service.rs`: the byte encoding of completion
    states, the single-waiter notifier's state machine, and the decisions of
    the service's background loop;
  - `task.rs`, `index.rs`, `duration.rs`, `text.rs`, `error.rs`: task types,
    the task index (an `FxHashMap`), durations, decimal rendering, errors.
- `app/` — the tokio runtime around the library: the tick loop that advances
  the wheel and runs callbacks, completion channels, task handles, and the
  notification service.
- `tests/` — tests of the library.
