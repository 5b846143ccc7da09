# cardamon_core

The decision logic of the Cardamon command-line tool, written in Verus and
proved against its contracts.

- `src/pid.rs`: reading process ids as decimal `u32`, with the same outcome
  (and the same error kind) as `str::parse::<u32>`.
- `src/processes.rs`: adding the processes named on the command line to an
  execution plan, ids first, container names last.
- `src/intervals.rs`, `src/order.rs`: ordering power metrics newest first
  (a stable sort by time stamp, via `itertools`) and pairing neighbours into
  intervals; proofs that the order is unique and that the intervals cover
  exactly the span of the time stamps.
- `src/stats.rs`, `src/clock.rs`: the dataset query of the `stats` command,
  run durations and `dd/mm/yy HH:MM` start labels (calendar fields from
  `chrono`).
- `src/startup.rs`: configuration path, region-code and carbon-intensity
  steps, and the defaults of environment settings.

`app/` holds the program around it: argument parsing, database access, HTTP
lookups, the floating-point energy model and the printed tables.
