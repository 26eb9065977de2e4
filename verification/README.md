# icbm

ICBM (Integrated Container BenchMark) rates a machine for Rust development: it
starts Ubuntu and NixOS containers, installs Rust in each, runs a multi-crate
build while sampling CPU, memory and wall-clock time, scores every step and
reports the results.

## Layout

- `src/` — the library, verified with Verus:
  - `bench.rs` — the benchmark plan: step order, commands, and when a failed
    step aborts the run.
  - `score.rs` — the overall score (rounded average of the scoring steps) and
    its rating.
  - `report.rs` — report text: labels, score bars, the host block, step lines,
    the leaderboard and its ranking, and the splitting of a report into chunks
    for the webhook.
  - `vm.rs` — flavours and providers, container names and images, the output
    tail kept of a command.
  - `metrics.rs` — the host description and the memory figures of a step.
  - `models.rs` — the task status machine, tasks, trees and events.
  - `meta.rs` — task metadata, kept in ascending key order.
  - `utils.rs` — case conversion, truncation, clamping and the string-keyed
    registry.
  - `sort.rs`, `primes.rs` — parallel merge sort, the `Sorter` abstraction, and
    the sieve of Eratosthenes.
  - `ids.rs`, `worker.rs`, `text.rs`, `order.rs`, `paint.rs` — identifiers, the
    ticker, string building blocks and escape sequences, ordering laws and
    terminal colours.
- `tests/` — tests of the library.
- `app/` — the command-line program: container management, sampling, the
  floating-point parts of scoring, printing and posting reports, and the async
  workspace exercise.
