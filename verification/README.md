# subms

A small perf harness: record nanosecond samples per named stage, summarise
them (percentiles, mean, standard deviation, log2 histogram, jitter,
downsampled timeline), check p99 gates, compare runs, and write a stable JSON
shape. The library in `src/` is verified with Verus; `app/` holds the parts
that touch the process (writers, stdin, environment, files, `/proc`, sleeping,
threads) and the floating-point reports.

## Layout

| module | what it holds |
|---|---|
| `harness` | stages, observer hook, paced (coordinated-omission) recording, the run's identity, ISO-8601 stamps, `key=value` input |
| `bench`, `stats`, `summary` | summaries and their statistics, windowed and sweep summaries, the p99 gate |
| `diff` | stage pairing and per-metric nanosecond deltas between two summaries |
| `render`, `units` | the text table, the JSON shape, human-readable durations |
| `json`, `json_round_trip`, `json_shape` | order-preserving JSON values, pretty and compact printers, parser, the proofs that printed text parses back, and that the summary and sweep texts are such documents |
| `feature`, `bench_config` | the feature manifest (classification, merge-writes) and the per-recipe config document |
| `timer`, `util`, `env`, `params`, `recipe`, `bench_loops`, `placement` | stopwatch, LCG, environment values, parameter parsing, recipes, loop helpers, `/proc` text |
| `text`, `strmap`, `keymap` | strings, decimal and JSON text, sorted maps keyed by strings |

Contracts are stated over views (`Seq`, `Map`, `JsonV`) and spec functions;
laws that relate several operations (read after write on JSON objects and
documents, save-then-load round trips, ordered percentiles, the most
restrictive roll-up, wire-value round trips, member order kept by merges and
setters, the line structure of the text tables, a lean summary being the full
one without timelines) are public proof functions next to the code they speak
of.
