//! Verified core of a color-picking engine.
//!
//! Colors are held in a fixed-point model: every channel is an integer
//! number of 1/65536 units, so the conversion math, the gradient
//! synthesis and the pointer-to-color mapping are exact integer
//! computations with machine-checked contracts.  The surrounding UI
//! converts between this model and its own floating-point colors.

pub mod arg;
pub mod color;
pub mod fixed;
pub mod image;
pub mod uv;
