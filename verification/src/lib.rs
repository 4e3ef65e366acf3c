//! Table-driven one-dimensional function approximation over exact rational
//! samples: a stateful bracket locator (bisection with hunt acceleration),
//! linear, polynomial (Neville) and cubic-spline evaluators, polynomial
//! coefficient extraction, and a dense Gauss-Jordan solver.

pub mod errors;
pub mod rat;
pub mod search;
pub mod interpolator;
pub mod linear;
pub mod polynomial;
pub mod polynomial_coefficients;
pub mod spline;
pub mod gaussj;
