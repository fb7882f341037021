//! A toolkit for assembling and simulating two-dimensional crafts: point
//! masses ("nodes") joined by constraint links ("rods").
//!
//! The crate holds the structural model, the editing operations that keep
//! the model's indices consistent, and the decisions of the Verlet solver.
//! Coordinates and lengths are single-precision numbers carried by their
//! bit patterns: the crate compares them and moves them around, and leaves
//! every arithmetic operation on them to its caller.

pub mod scalar;
pub mod craft;
pub mod settings;
pub mod scenes;
