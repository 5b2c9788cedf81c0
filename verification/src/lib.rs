//! Exact linear algebra: dense and sparse matrices of rational numbers, with
//! direct and iterative solvers for linear systems.
//!
//! The entries are arbitrary-precision rationals ([`rational`]), so every
//! operation is exact and is specified over the real numbers. Both kinds of
//! storage ([`dense`], [`sparse`]) are specified by one mathematical model
//! ([`model`]) and reached through one interface ([`common`]); what they
//! share is written once ([`fill`], [`gauss`], [`text`]).
//!
//! The proofs stand beside the code: row operations keep the kernel
//! ([`kernel`], [`rowops`]) and change the determinant in a known way
//! ([`det`], [`det_swap`], [`det_rows`]); a finished elimination solves the
//! system it started from ([`solution`]); a matrix is singular exactly
//! when its determinant is zero ([`regular`]); the adjoint over the
//! determinant is an inverse ([`adjugate`]). The laws of the algebra are
//! collected in [`laws`], the step-by-step meaning of the iterative
//! solvers in [`iterative`]; neither conjugate gradients ([`descent`]) nor
//! over-relaxation with a parameter between 0 and 2 ([`relaxation`]) ever
//! lets the residual grow.

pub mod adjugate;
pub mod algebra;
pub mod common;
pub mod dense;
pub mod descent;
pub mod det;
pub mod det_rows;
pub mod det_swap;
pub mod fill;
pub mod gauss;
pub mod iterative;
pub mod kernel;
pub mod laws;
pub mod model;
pub mod rational;
pub mod reals;
pub mod regular;
pub mod relaxation;
pub mod rowops;
pub mod solution;
pub mod sparse;
pub mod text;
