//! Propagation of distributions through neural network layers.
pub mod backend;
pub mod binary64;
pub mod burn_sdp;
pub mod dense;
pub mod gaussian;
pub mod laws;
pub mod matrix;
pub mod scalar;
pub mod tensor;
pub mod vector;
pub mod violation;

pub use crate::vector::{propagate_linear, propagate_relu, propagate_sequential, Layer, Moments};
