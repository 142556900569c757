//! Spatial reasoning and allocation engine for a turn-based harvesting game
//! on a hexagonal grid: topology, distance fields, path search and a greedy
//! per-turn allocation planner.

pub mod grid;
pub mod distance;
pub mod search;
pub mod tracker;
pub mod mode;
pub mod planner;
pub mod embedding;
