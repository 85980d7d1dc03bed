//! Verified linear solvers and eigensolvers.
//!
//! The algorithms are written over the number types of [`scalar`], and every contract says which
//! operations are carried out on them, in which order. What the results are for, where nothing is
//! rounded, is stated and proved in the modules [`exact`], [`fourier`], [`convolution`],
//! [`direct::substitution`], [`eigen::orthonormal`], [`eigen::rayleigh_ritz`],
//! [`eigen::free_pencil`], [`eigen::meaning`], [`iterative::identities`],
//! [`iterative::unitary`], [`iterative::frame`], [`iterative::minimal`], [`iterative::meaning`]
//! and [`rational_fit::meaning`].
pub mod bttb;
pub mod complex;
pub mod convolution;
pub mod direct;
pub mod eigen;
pub mod error;
pub mod exact;
pub mod fft;
pub mod fourier;
pub mod index;
pub mod iterative;
pub mod operator;
pub mod order;
pub mod rational_fit;
pub mod scalar;
pub mod sparse;
pub mod vector;
