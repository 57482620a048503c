//! The operator of a node, whichever it is: what the executor asks of
//! every operator, handed on to the one that the node holds.

use vstd::prelude::*;
use crate::aggregation::processor::{
    aggregate_outcome,
    change_encodable,
    AggregationProcessor,
    AggregationValue,
};
use crate::errors::{ExecutionError, PipelineErrorValue, PortHandle};
use crate::product::join::join_failure;
use crate::product::processor::{product_outcome, FromProcessor};
use crate::selection::{select, SelectionProcessor};
use crate::storage::{handle_of, state_open, Environment, Transaction};
use crate::types::{operation_values, Operation};

verus! {

/// The operator of a node.
pub enum NodeProcessor {
    Selection(SelectionProcessor),
    Product(FromProcessor),
    Aggregation(AggregationProcessor),
}

impl NodeProcessor {
    /// Prepares the operator: it opens its databases.
    pub fn init(&mut self, env: &mut Environment) -> (res: Result<(), ExecutionError>)
        ensures
            res is Ok,
            match *old(self) {
                NodeProcessor::Selection(p) => *final(self) == *old(self) && final(env)@ == old(
                    env,
                )@,
                NodeProcessor::Product(p) => {
                    &&& *final(self) is Product
                    &&& (*final(self))->Product_0.operator == p.operator
                    &&& (*final(self))->Product_0.db == Some(handle_of(old(env)@, "product"@))
                    &&& final(env)@ == state_open(old(env)@, "product"@, true)
                },
                NodeProcessor::Aggregation(p) => {
                    &&& *final(self) is Aggregation
                    &&& (*final(self))->Aggregation_0@ == (AggregationValue {
                        db: Some(handle_of(old(env)@, "aggr"@)),
                        aggregators_db: Some(
                            handle_of(state_open(old(env)@, "aggr"@, false), "aggr_data"@),
                        ),
                        meta_db: Some(
                            handle_of(
                                state_open(
                                    state_open(old(env)@, "aggr"@, false),
                                    "aggr_data"@,
                                    false,
                                ),
                                "meta"@,
                            ),
                        ),
                        ..p@
                    })
                    &&& final(env)@ == state_open(
                        state_open(state_open(old(env)@, "aggr"@, false), "aggr_data"@, false),
                        "meta"@,
                        false,
                    )
                },
            },
    {
        match self {
            NodeProcessor::Selection(p) => p.init(),
            NodeProcessor::Product(p) => p.init(env),
            NodeProcessor::Aggregation(p) => p.init(env),
        }
    }

    /// The changes to forward for a change that came on `from_port`, in
    /// order, as the operator of the node gives them. An aggregation
    /// whose columns do not lie within its output is refused.
    pub fn process(&mut self, from_port: PortHandle, op: Operation, txn: &mut Transaction) -> (res:
        Result<Vec<Operation>, ExecutionError>)
        ensures
            match *old(self) {
                NodeProcessor::Selection(p) => *final(self) == *old(self) && final(txn)@ == old(
                    txn,
                )@ && match select(p.expression@, op@) {
                    Ok(ops) => res is Ok && operation_values(res->Ok_0@) == ops,
                    Err(e) => res matches Err(ExecutionError::InternalError(cause)) && cause@ == e,
                },
                NodeProcessor::Product(p) => *final(self) == *old(self) && match product_outcome(
                    p.operator@,
                    p.db,
                    from_port,
                    op@,
                    old(txn)@,
                ) {
                    Ok((ops, tables)) => res is Ok && operation_values(res->Ok_0@) == ops
                        && final(txn)@ == tables,
                    Err(e) => res is Err && join_failure(res->Err_0) == Some(e),
                },
                NodeProcessor::Aggregation(p) => *final(self) is Aggregation
                    && (*final(self))->Aggregation_0@ == p@ && if !p@.wf() {
                    res matches Err(ExecutionError::InvalidOperation(_)) && final(txn)@ == old(
                        txn,
                    )@
                } else {
                    match p@.db {
                        None => res matches Err(ExecutionError::InvalidDatabase) && final(txn)@
                            == old(txn)@,
                        Some(d) => match aggregate_outcome(p@, old(txn)@, d, op@) {
                            Ok((out, tables)) => res is Ok && operation_values(res->Ok_0@) == out
                                && final(txn)@ == tables,
                            Err(PipelineErrorValue::InternalStorageError(e)) => res matches Err(
                                ExecutionError::InternalDatabaseError(cause),
                            ) && cause == e,
                            Err(e) => res matches Err(ExecutionError::InternalError(cause))
                                && cause@ == e,
                        },
                    }
                },
            },
            *old(self) is Aggregation && res is Ok ==> change_encodable(
                (*old(self))->Aggregation_0@,
                op@,
            ),
    {
        match self {
            NodeProcessor::Selection(p) => p.process(from_port, op),
            NodeProcessor::Product(p) => p.process(from_port, op, txn),
            NodeProcessor::Aggregation(p) => {
                if p.is_well_formed() {
                    p.process(from_port, op, txn)
                } else {
                    Err(
                        ExecutionError::InvalidOperation(
                            "a column of the aggregation lies outside its output".to_string(),
                        ),
                    )
                }
            },
        }
    }

    /// Ends an epoch. What the operators wrote is in the transaction
    /// already.
    pub fn commit(&self, epoch: u64, txn: &Transaction) -> (res: Result<(), ExecutionError>)
        ensures
            res is Ok,
    {
        match self {
            NodeProcessor::Selection(p) => p.commit(epoch),
            NodeProcessor::Product(p) => p.commit(epoch, txn),
            NodeProcessor::Aggregation(p) => p.commit(epoch, txn),
        }
    }
}

} // verus!
