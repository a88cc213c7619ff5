//! Puzzle machinery with machine-checked contracts: a best-first search over
//! a graph given by two functions, the min-heap that is its frontier, and a
//! sea floor on which two herds of sea cucumbers move.

pub mod dijkstra;
pub mod graph;
pub mod heap;
pub mod progress;
pub mod sea_floor;
