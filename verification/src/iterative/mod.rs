//! Iterative solvers for linear systems.
pub mod complex_gmres;
pub mod complex_lgmres;
pub mod frame;
pub mod identities;
pub mod meaning;
pub mod minimal;
pub mod unitary;
