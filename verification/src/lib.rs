//! Three-dimensional bin packing: the data model of items, containers and
//! rotations, and the greedy packing procedure, verified with Verus.
//!
//! The library is generic in the scalar type `T` of lengths and positions.
//! Every step that only moves, selects or counts values is verified here;
//! the arithmetic and comparisons on lengths (which the packing program
//! performs on `f64`) are supplied by the caller as functions.

pub mod algo;
pub mod entity;
pub mod packing;
