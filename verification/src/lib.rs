//! Geometry for a canvas of images: packing shapes without overlap, and
//! picking circular areas under a pointer.
//!
//! All geometry is exact and works on an integer grid. A caller that thinks
//! in fractions chooses how many grid units make one of its units. Where a
//! result cannot be whole, the way it is rounded is part of the contract:
//! a vector scaled to a length is rounded away from zero, a centroid is
//! rounded down, and the parts of a split edge add up to the edge.
//!
//! - [`vec2`] and [`arith`]: vectors and the arithmetic under them
//! - [`outline`]: convex outlines as sequences of edge vectors
//! - [`minkowski`]: the Minkowski sum of two outlines
//! - [`halves`]: the Minkowski sum of outlines whose edges are split in two
//! - [`convex`]: convex outlines, and that their Minkowski sum is convex
//! - [`shape`]: outlines at a place and their vertices
//! - [`overlap`]: whether two shapes overlap, and whether one holds a point
//! - [`offset`]: widening a shape
//! - [`placement`]: a place for a shape among shapes that are placed
//! - [`clearance`]: what a placed shape keeps clear of
//! - [`picking`]: the areas that a pointer hits, from front to back
//! - [`schedule`]: a latch for one frame and commands that run for a while

pub mod arith;
pub mod clearance;
pub mod convex;
pub mod halves;
pub mod minkowski;
pub mod offset;
pub mod outline;
pub mod overlap;
pub mod picking;
pub mod placement;
pub mod schedule;
pub mod shape;
pub mod vec2;
