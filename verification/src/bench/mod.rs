pub mod cycle_builder;
pub mod size_grid;
pub mod timing;
