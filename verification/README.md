# Packet scheduler

A scheduler for an interactive judge: packets of seven types arrive over
time, each must go along the path of nodes of its type, and calls of a node
run batches of packets on one of several cores. The library decides which
calls to send and when; the program around it talks to the judge.

## Layout

- `src/` — the verified library.
  - `types.rs`: graph, packets, durations.
  - `libb.rs`: an index set with O(1) add/remove and a seeded xorshift generator.
  - `calculator.rs`: the table of path durations and the task and core estimates.
  - `greedy.rs`: the greedy scheduler's state, its event queue, batch sizes, task splitting.
  - `planning.rs`: candidate tasks at a receive or when a core is free.
  - `run.rs`: the greedy scheduler as a state machine (`GreedyRun::step`),
    with ghost clocks for the time, each core and each packet, and each
    packet's position on its path.
  - `fallback.rs`: the simple scheduler for when time runs short.
  - `protocol.rs`: parsing of the judge's lines.
  - `mock.rs`: the fixed local graph, a seeded problem generator and a mock judge.
  - `interactor.rs`: the commands exchanged with the judge, each recorded in
    the interactor's log.
  - `tester.rs`, `tracker.rs`: a referee that records histories and counts the score.
  - `laws.rs`: properties that relate several operations or hold of whole runs.
- `tests/` — tests of the library, end-to-end runs against the mock judge among them.
- `app/` — the program: reading and writing the judge's lines, the loop that
  drives a scheduler, the order optimizer and the score (floating point).

## Bounds

The judge's statement gives the problem's sizes; the library adds bounds of
its own, well above them, so that its integer arithmetic is proved free of
overflow (`src/types.rs`, `src/run.rs`):

- `MAX_T`: the last time at which the judge may be asked for packets.
- `MAX_COST`: the largest cost of one node call, special work, core switch
  or receive; costs are never negative.
- `MAX_PACKETS`, `MAX_CORES`: the largest subtask and the most cores.
- `MAX_TIME`: every time stamp and deadline the schedulers handle.
- `RUN_TIME_CAP`: the latest time at which a scheduler step may start; a
  step moves the scheduler's horizon by at most `STEP_SPAN`.

The app checks each of these before it hands the judge's values to the
library.

## What is not here

Inserting new tasks into a running schedule (interrupting a core) is not
part of the scheduler; the design notes leave it as future work.
