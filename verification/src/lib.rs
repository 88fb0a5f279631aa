//! Geographic point-in-country lookup and ASCII map rendering over
//! fixed-point (microdegree) coordinates.

pub mod geo;
pub mod label;
pub mod render;
