//! Procedural generation of one dungeon level: non-overlapping rooms on a
//! fixed-size tile grid, joined by L-shaped corridors.

pub mod grid;
pub mod rect;
pub mod rng;
pub mod map_builder;
pub mod reachability;
