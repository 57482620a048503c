//! The product of two inputs: cartesian, or joined on equal keys.

pub mod join;
pub mod processor;
pub mod result;
