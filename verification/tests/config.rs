use latency_bench::config::Config;

#[test]
fn default_config_matches_the_standard_run() {
    let c = Config::default();
    assert_eq!(c.min_bytes, 4096);
    assert_eq!(c.max_bytes, 536_870_912);
    assert_eq!(c.trials, 9);
    assert_eq!(c.warmup_trials, 1);
    assert_eq!(c.seed, 0xC0FFEE);
    assert_eq!(c.chunk_accesses, 65_536);
    assert_eq!(c.target_cycles, 200_000_000);
    assert_eq!(c.pin_core, 0);
}
