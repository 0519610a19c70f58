//! Layered arithmetic circuits.
pub mod circuit;
pub mod gate;
pub mod layer;
