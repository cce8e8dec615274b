//! A verified Mandelbrot-set renderer.
//!
//! The plane is modelled in fixed-point arithmetic: a coordinate is an `i64`
//! holding the real value times [`mandelbrot::SCALE`]. Every step of the
//! escape-time iteration, the pixel-to-plane mapping, the image buffer and
//! the plain-text pixmap codec are verified against exact contracts.

pub mod complex;
pub mod image;
pub mod mandelbrot;
pub mod pixmap;
