//! Expressions over records and their evaluation.

pub mod comparison;
pub mod execution;
pub mod float;
