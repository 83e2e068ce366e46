//! A statistical-analysis core over exact rational arithmetic.
//!
//! Given a rectangular dataset of named numeric and categorical columns,
//! the library builds dummy-coded design matrices, fits ordinary least
//! squares by the normal equations, and derives the classical test
//! statistics for Welch and paired t-tests, one- and two-way analysis of
//! variance (Type II sums of squares), multiple linear regression, and the
//! exact parts of principal component and factor analysis.
//!
//! Every quantity the library computes is an exact rational number; the
//! irrational steps of an analysis (square roots, distribution tail
//! probabilities, eigendecomposition and singular values) are left to the
//! caller, who hands back plain values that the library then orders,
//! combines and checks exactly.

pub mod error;
pub mod rational;
pub mod sums;
pub mod matrix;
pub mod solve;
pub mod levels;
pub mod design;
pub mod ols;
pub mod descr;
pub mod ttest;
pub mod anova;
pub mod regression;
pub mod multivar;
pub mod vecalg;
pub mod dataset;
