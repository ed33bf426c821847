//! Route search over a road network: a dense-indexed graph built from map
//! ways, and searches for routes whose length falls inside a distance window.
//!
//! Coordinates are held in units of 1e-7 degrees and lengths in millimetres,
//! so that every computation on them is exact integer arithmetic.
pub mod model;
pub mod graph;
pub mod builder;
pub mod search;
pub mod reach;
pub mod hybrid;
pub mod routes;
pub mod parser;
pub mod benchmarking;
