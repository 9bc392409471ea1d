# mega-bench-reporter

Continuous benchmark-overhead tracking: turns "a commit landed" into structured
data on disk — raw metrics, charts, and factual events (regression / recovery /
digest).

The rules of the reporter are a library whose behaviour is stated in contracts
and proved with [Verus](https://github.com/verus-lang/verus). The program around
it runs `git`, `cargo` and the profilers, reads and writes files, and draws.

## Layout

| path | what it holds |
|---|---|
| `src/config.rs`, `src/lane.rs` | repos, tuning, and how settings are resolved and checked |
| `src/criterion_results.rs`, `src/instructions.rs` | the two metric lanes: rows, callgrind profiles, ratios against a baseline |
| `src/state.rs` | rolling medians, regression latches, rebaselining |
| `src/pipeline.rs`, `src/carry.rs` | the steps of a run and what becomes of its results; re-rendering a run from its record |
| `src/storage.rs`, `src/dates.rs`, `src/paths.rs` | commit records and where they are kept |
| `src/compare.rs`, `src/digest.rs`, `src/charts.rs`, `src/cards.rs` | comparison table, trend windows, chart layouts, card templates |
| `src/flamegraph.rs`, `src/measure.rs`, `src/git.rs`, `src/subprocess.rs` | the decisions and arguments behind the other subcommands |
| `src/double.rs`, `src/decimals.rs`, `src/numerals.rs` | 64-bit floating point on integers, and how numbers are written |
| `src/text.rs`, `src/strmap.rs`, `src/keyed.rs`, `src/sorting.rs`, `src/json.rs` | text, ordered maps, sorting, JSON values |
| `src/canary.rs` | the two workloads of the instrumentation canary |
| `tests/` | tests of the library |
| `app/` | the command-line program |

Functions named `law_…` are properties of the library as a whole. What is taken
on trust of `time`, `serde_json`, `inferno`, `rustc-demangle` and the standard
library stands in the few functions whose bodies Verus does not read; each says
which call it makes and what it claims of it.

## Charts

Chart text needs `assets/fonts/DejaVuSans.ttf`, beside the executable or in the
working directory. Without it the charts of a run are skipped with a note and
the rest of the run is written; a digest that is due fails and is tried again at
the next commit, and `trend` ends in an error.
