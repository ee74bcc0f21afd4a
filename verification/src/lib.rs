//! Shortest-path search (A*) over a small directed graph of points, with the
//! 2D vector arithmetic it is built on.
//!
//! Coordinates are fixed-point: a [`vector::Vector`] holds whole numbers of a
//! unit that the caller chooses, and distances are whole numbers of the same
//! unit. The cost of a step along a connection is the Euclidean distance
//! rounded up, and the estimate of what is left to the target is the
//! Euclidean distance rounded down. So the estimate never exceeds what any
//! route costs, and [`path::Pathfinder::pathfind`] returns a cheapest route.
//!
//! - [`vector`]: the vectors and their distances.
//! - [`path`]: the graph, its nodes and connections, and the search.
//! - [`search`]: the mathematical model of the search, of which the contract
//!   of the search speaks.
//! - [`bookkeeping`], [`routes`], [`cheapest`]: what holds at every point of a
//!   search, and why.
//! - [`laws`]: what holds of every graph and of every search.

pub mod bookkeeping;
pub mod cheapest;
pub mod laws;
pub mod path;
pub mod routes;
pub mod search;
pub mod vector;
