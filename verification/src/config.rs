use vstd::prelude::*;

verus! {

/// Settings of a benchmark run.
pub struct Config {
    /// Smallest working set, in bytes.
    pub min_bytes: u64,
    /// Largest working set, in bytes.
    pub max_bytes: u64,
    /// Measured trials per working-set size.
    pub trials: u32,
    /// Unmeasured trials run first at each size.
    pub warmup_trials: u32,
    /// Seed of the chase-array shuffle.
    pub seed: u64,
    /// Accesses chased between two readings of the cycle counter.
    pub chunk_accesses: u64,
    /// Cycles a trial runs for at least.
    pub target_cycles: u64,
    /// CPU core the benchmark pins itself to.
    pub pin_core: usize,
}

impl Default for Config {
    /// The settings of a standard run: 4 KiB to 512 MiB, nine trials after one warm-up,
    /// seed 0xC0FFEE, chunks of 65536 accesses, 200 million cycles per trial, core 0.
    fn default() -> (r: Self)
        ensures
            r.min_bytes == 4 * 1024,
            r.max_bytes == 512 * 1024 * 1024,
            r.trials == 9,
            r.warmup_trials == 1,
            r.seed == 0xC0FFEE,
            r.chunk_accesses == 65_536,
            r.target_cycles == 200_000_000,
            r.pin_core == 0,
    {
        Self {
            min_bytes: 4 * 1024,
            max_bytes: 512 * 1024 * 1024,
            trials: 9,
            warmup_trials: 1,
            seed: 0xC0FFEE,
            chunk_accesses: 65_536,
            target_cycles: 200_000_000,
            pin_core: 0,
        }
    }
}

} // verus!
