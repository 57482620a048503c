//! Incremental streaming dataflow: records, operator state and the relational
//! operators (selection, product, aggregation) that keep materialized views
//! up to date under a stream of inserts, deletes and updates; the graph of
//! a pipeline and its epochs; and the ingestion of changes, with the
//! settings of the Ethereum connector.

pub mod aggregation;
pub mod codec;
pub mod dag;
pub mod epoch;
pub mod errors;
pub mod ethereum;
pub mod expression;
pub mod ingestion;
pub mod node;
pub mod prefix_transaction;
pub mod product;
pub mod relation;
pub mod selection;
pub mod storage;
pub mod types;
