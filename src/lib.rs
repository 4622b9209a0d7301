//! Escape-time rendering of the Mandelbrot set.
//!
//! `complex` holds complex numbers over integer scalars. The engine computes
//! in fixed point (`fixed`): `member` decides the membership of one point,
//! `viewport` maps pixels to points, `render` cuts a grid into row bands and
//! computes a whole frame, `color` turns memberships into RGB bytes.
//! `navigate` pans and zooms a viewport; `parse` and `decimal` read sizes,
//! numbers and points from text.
pub mod color;
pub mod decimal;
pub mod complex;
pub mod fixed;
pub mod member;
pub mod navigate;
pub mod parse;
pub mod render;
pub mod viewport;
