//! A software (CPU-only) triangle rasterizer, verified with Verus.
//!
//! The library turns a triangle mesh, loaded from a line-oriented text
//! description, into a flat 2D pixel buffer: mesh parsing, 3D-to-canvas
//! projection, back-face culling, light-intensity shading, Bresenham line
//! drawing, and barycentric triangle filling.
//!
//! All geometry is carried in signed 64-bit fixed-point numbers with
//! [`fixed::SCALE`] units per 1.0, so every arithmetic step has an exact,
//! machine-checked meaning; window presentation and file reading live
//! outside the library.

pub mod color;
pub mod fixed;
pub mod geometry;
pub mod obj;
pub mod render;
