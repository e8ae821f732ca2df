//! A path tracer over saturating decimal fixed-point arithmetic.

pub mod fixed;
pub mod frame;
pub mod model;
pub mod physics;
pub mod render;
pub mod rmath;
pub mod trig;
