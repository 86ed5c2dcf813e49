//! Accumulates the long-run visit density of a chaotic plane recurrence in a
//! shared 2D histogram and turns snapshots of it into RGBA frames: counts
//! are normalized to exact unit-interval fractions, colored by a palette,
//! and placed through a pan/zoom viewport. The floating-point recurrences
//! themselves live in the driving application; everything that touches the
//! histogram, the color pipeline, and the viewport arithmetic is verified
//! here.

pub mod chaos;
pub mod color;
pub mod symmetry;
