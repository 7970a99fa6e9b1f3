# latency_bench

A pointer-chasing memory latency benchmark whose logic is verified with Verus.

- `src/bench/size_grid.rs`: the schedule of working-set sizes (doublings with one
  midpoint between each pair), with its exact contents and ordering laws.
- `src/bench/cycle_builder.rs`: the seeded Fisher-Yates shuffle and the chase array
  that links a shuffled order of indices into one cycle through every index.
- `src/bench/timing.rs`: the chase and the step function of the adaptive trial; the
  program reads the cycle counter and feeds each reading to the step.
- `src/analysis/infer.rs`, `src/infer.rs`: knee classification, zone merging and
  region cutting of the latency report. Ratios are floats, which stay in the program;
  the library works on integer keys that order as the ratios do.
- `src/config.rs`: run settings.
- `app/`: the program: cycle-counter reads, CPU pinning, float statistics, result
  files and report printing.
