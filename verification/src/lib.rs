//! A position-based (Verlet) 2D particle simulation: circular bodies are
//! integrated under gravity, confined to a circular boundary, and separated
//! pairwise when they overlap.  All state lives in fixed-point world
//! coordinates so that every step of the pipeline carries an exact contract.

use vstd::prelude::*;

pub mod fp;
pub mod vec2;
pub mod geometry;
pub mod model;
pub mod world;
pub mod laws;
pub mod grid;
pub mod timer;

verus! {

/// The failure kinds of the simulation: both are rejected at the call
/// boundary, before any state changes.
#[derive(Clone, Copy, PartialEq, Eq, Structural, Debug)]
pub enum SimError {
    /// A non-positive or over-large time step.
    InvalidTimestep,
    /// A degenerate shape template: non-positive extent or no points.
    InvalidGeometry,
}

} // verus!
