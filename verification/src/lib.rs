//! A maze solver built on a dense, index-addressed graph.
//!
//! A black/white raster image of a maze, presented as a boolean wall/open
//! grid, is compressed into a graph of junctions and corridors by a single
//! raster scan, and a breadth-first search over that graph finds the
//! coordinate of a reachable boundary exit.
#![verifier::loop_isolation(false)]

pub mod graph;
pub mod maze;
