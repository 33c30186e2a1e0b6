# KernelWhisper core

KernelWhisper correlates CPU-side pressure with GPU utilization and reports
why accelerators are underused. This crate is its logic, with every function
proved against its contract;
`app/` is the service around it (tracers, HTTP API, CLI stream, dashboard
entry points).

Layout of `src/`:

- `text` — character-level text: lines, words, trimming, search, decimal
  numbers, as `str`'s methods compute them.
- `stacks` — parsers for `perf script` and macOS `sample` output.
- `flame`, `profiler`, `counts` — flame graph trees, the profile aggregator,
  and the proof that a merged graph shows inclusive sample counts.
- `engine`, `rules` — the detection window, rule priority and snapshot
  cadence; the texts of each finding.
- `tracer` — tracer selection, the mock signal, `ps` and `/proc/stat` parsing.
- `storage` — the insight log.
- `dashboard` — HTML insight cards and issue tallies.
- `playbook`, `types` — the bundled playbook and shared enums.

Floating-point work (window averages, rule thresholds, confidence scores,
printed percentages) lives in `app/`, which hands the library its outcomes.
