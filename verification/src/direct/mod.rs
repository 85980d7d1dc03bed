//! Direct solvers for linear systems.
pub mod dense_lu;
pub mod substitution;
