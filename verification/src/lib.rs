//! Software rasteriser for an articulated-chain visualiser.
//!
//! The drawing routines write into a flat `u32` pixel buffer of a fixed
//! frame size; every routine states exactly which pixels it colours and
//! that it leaves every other pixel untouched.

pub mod render;
