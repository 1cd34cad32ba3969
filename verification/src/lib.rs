//! A weighted graph of named locations with point-to-point pathfinding.
//!
//! The graph maps string ids to nodes; each node carries a 2-D coordinate
//! and an ordered neighbor mapping whose weights are the integer Euclidean
//! distances between the endpoints' coordinates. Three resumable search
//! engines — breadth-first, depth-first, and a Dijkstra-style shortest-path
//! search — advance one micro-step per call so a caller can interleave
//! steps with other work and inspect frontier and visited state in between.

pub mod adj_matrix;
pub mod bfs;
pub mod dfs;
pub mod dijk;
pub mod graph;
pub mod ids;
pub mod node;
pub mod point;
pub mod search;
