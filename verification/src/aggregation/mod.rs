//! Grouping and aggregation.

pub mod aggregator;
pub mod bags;
pub mod counts;
pub mod groups;
pub mod processor;
pub mod result;
pub mod tally;
pub mod view;
