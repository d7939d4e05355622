//! Signal-driven portfolio construction over exact rational arithmetic.
//!
//! The pipeline ranks assets by a composite signal, encodes the ranking as
//! Black-Litterman views, blends them with market-implied equilibrium
//! returns, and derives normalized portfolio weights by mean-variance
//! optimization. All numbers are exact rationals, so every contract states
//! the result of a computation exactly.

pub mod laws;
pub mod litterman;
pub mod market;
pub mod matrix;
pub mod qseq;
pub mod rat;
pub mod signal;
pub mod views;
