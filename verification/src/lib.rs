//! Reconstruction of a polynomial from a finite integer sequence by the
//! method of finite differences: a difference-table builder, a Newton
//! forward-difference evaluator, a basis-conversion (signed Stirling) table,
//! an exact-rational coefficient reconstructor, and a polynomial formatter.
pub mod arith;
pub mod coeffs;
pub mod eval;
pub mod format;
pub mod render;
pub mod stirling;
pub mod table;
