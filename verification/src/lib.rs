//! A layered routing graph over hexagonal cells, with verified construction
//! and shortest-path search.

pub mod bfs;
pub mod bytes;
pub mod frontier;
pub mod graph;
pub mod hexagon_graph;
pub mod matrix;
pub mod paths;
pub mod search;
pub mod text;

pub use crate::graph::{Edge, Graph, Node};
