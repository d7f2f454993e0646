//! Distribution propagation on batches of tensors.
//!
//! Tracks batched Gaussian marginal means and per-feature variances through
//! linear, fixed-matrix and rectifier layers. Linear maps propagate variance
//! exactly under the diagonal assumption; rectifiers evaluate the closed-form
//! univariate moments of Frey & Hinton (1999) with numerical tail handling.
//!
//! The default [`Moments`] path approximates covariance as diagonal: covariance
//! between features or batch rows is not stored.
//!
//! Callers must supply finite tensor values, nonnegative variances and scales,
//! and valid positive-semidefinite covariance matrices. Shapes and element
//! formats are checked, tensor contents are not. Negative Gaussian tails use
//! continued fractions to avoid cancellation; linear tail limits apply at eight
//! standard deviations. At zero variance, masks select deterministic outputs.
pub mod cauchy;
pub mod cross;
pub mod diagonal;
pub mod full;
pub mod rectify;

pub use crate::burn_sdp::cauchy::{propagate_linear_cauchy, propagate_relu_cauchy, Cauchy};
pub use crate::burn_sdp::cross::{
    propagate_linear_cross_covariance, propagate_relu_cross_covariance,
};
pub use crate::burn_sdp::diagonal::{
    propagate_conv2d, propagate_linear, propagate_linear_bayes, propagate_matmul_left,
    propagate_residual_add, propagate_residual_add_correlated, Moments,
};
pub use crate::burn_sdp::full::{propagate_linear_full, propagate_relu_full, MomentsFull};
pub use crate::burn_sdp::rectify::{propagate_leaky_relu, propagate_relu};
