//! What holds of propagation as a whole.
//!
//! Every law is a proof function: its parameters are the law's inputs, its
//! `requires` what the law needs of them and of the arithmetic, and its
//! `ensures` the law, stated over the specifications of the functions involved.
//!
//! Laws that survive rounding ask for little of the arithmetic, as named by the
//! predicates of [`arithmetic`]. Laws that hold only up to rounding are stated
//! for exact arithmetic, and for double precision with a bound on the error.
pub mod accuracy;
pub mod active;
pub mod affine;
pub mod arithmetic;
pub mod between;
pub mod cauchy;
pub mod composition;
pub mod convolution;
pub mod cross;
pub mod diagonal;
pub mod double;
pub mod faults;
pub mod finite;
pub mod forms;
pub mod full;
pub mod functions;
pub mod instances;
pub mod layers;
pub mod means;
pub mod messages;
pub mod mills;
pub mod moments;
pub mod nearest;
pub mod normal;
pub mod numbers;
pub mod ordered;
pub mod pairs;
pub mod partial;
pub mod positive;
pub mod powers;
pub mod raised;
pub mod ratio;
pub mod rectified;
pub mod reflection;
pub mod scaling;
pub mod second;
pub mod semidefinite;
pub mod signs;
pub mod spread;
pub mod stein;
pub mod sums;
pub mod symmetry;
pub mod tables;
pub mod tame;
pub mod tensors;
pub mod unit;
pub mod vector;
