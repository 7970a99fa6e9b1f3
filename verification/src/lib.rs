//! Building blocks of a pointer-chasing memory latency benchmark: the grid of
//! working-set sizes, the randomized single-cycle chase arrays, the chase itself
//! with the decisions of its adaptive trial, the run settings, and the integer side
//! of the latency knee inference (the staged pipeline in `analysis::infer`, and the
//! size-based zone merging of the single-pass report in `infer`).
pub mod analysis;
pub mod bench;
pub mod config;
pub mod infer;
