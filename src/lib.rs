//! A flocking simulation over a region quadtree, on fixed-point integer coordinates.
//!
//! `geometry` holds points and axis-aligned boxes, `quadtree` the spatial index,
//! `vector` the integer length operations, `sums` the sums the rules are stated with,
//! and `boids` the agent set with its separation, alignment and cohesion rules.
use vstd::prelude::*;

pub mod boids;
pub mod geometry;
pub mod quadtree;
pub mod sums;
pub mod vector;

verus! {

} // verus!
