//! A territory map engine: a world of non-overlapping integer chunks grouped
//! into labeled territories, with border extraction and graph coloring.

pub mod error;
pub mod geometry;
pub mod territory;
pub mod border;
pub mod coloring;
pub mod world;
