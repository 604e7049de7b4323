//! Integer-only rasterization of variable-width line strokes.
//!
//! The core of the crate is a family of incremental (Bresenham-style)
//! algorithms: a single-pixel digital-line stepper, a thick-line rasterizer
//! that extrudes perpendicular ribs from the centerline, an alternative
//! rasterizer that walks parallel offset lines, an integer antialiasing
//! coverage model, and a closed-form segment intersection utility.
//! Everything works on plain integer coordinates; drawing produces a
//! sequence of pixel writes that a caller feeds to whatever display it has.

pub mod geometry;
pub mod stepper;
pub mod thick;
pub mod intersect;
pub mod aa;
pub mod parallel;
