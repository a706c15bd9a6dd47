//! Procedural meshes from single-variable functions.
//!
//! A function `f` over a domain is sampled adaptively into a ring of points
//! (more points where the slope changes most), optionally closed by its mirror
//! image, and a surface is stitched from one or more rings.
//!
//! Real numbers never enter this crate as values: every real that a decision
//! depends on is handed over as its *order key*, a `u32` that orders as the
//! real does, and the points themselves are carried as an opaque type `P`.
//! All geometry (evaluating `f`, slopes, midpoints) is done by the caller's
//! closures; all choices (which interval to split, which boundary points to
//! mirror, how the triangles are indexed) are made and proved here.
pub mod error;
pub mod sampling;
pub mod surface;
