//! Grid path planning: wavefront flood fill, batched best-first search and
//! sampling-based tree planners over a two-dimensional occupancy grid.

pub mod grid;
pub mod line;
pub mod plan;
pub mod measure;
pub mod double;
pub mod grassfire;
pub mod a_star;
pub mod tree;
pub mod rrt;
