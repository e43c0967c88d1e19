//! A grid-based shortest-path search engine.
//!
//! The library maintains a dense row-major 2-D grid of cells, runs an
//! informed best-first search (A*) over it with 8-connected adjacency and a
//! uniform step cost, and reconstructs the found path by walking a
//! predecessor map backward from the end cell.
//!
//! Cell scores are held in fixed point (see [`math::SCALE`]) so that every
//! score computation and comparison is exact integer arithmetic.

pub mod grid;
pub mod math;
pub mod search;
