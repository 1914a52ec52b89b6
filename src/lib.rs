//! Small numeric and text utilities with machine-checked contracts.
//!
//! Every function is pure and total; where the arithmetic may exceed the
//! result type it wraps modulo the type's width, and the contracts say so.

pub mod numeric;
pub mod text;
pub mod workload;
