//! Escape-time sampling of the Mandelbrot iteration over a rectangular grid
//! of the complex plane.
pub mod complex;
pub mod field_map;
