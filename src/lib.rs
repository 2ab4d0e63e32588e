//! Plotting of real and complex functions onto a small square RGB grid, with
//! a pannable, zoomable viewport driven by single-key commands.
//!
//! Function-space coordinates are fixed-point integers (see [`fixed`]), the
//! zoom factor is a power of two, and every pixel write is clipped to the grid.
pub mod fixed;
pub mod point;
pub mod viewport;
pub mod screen;
pub mod grapher;

pub use grapher::Grapher;
pub use point::Point;
pub use viewport::{Control, Viewport};
