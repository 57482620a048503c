//! Selection: the operator that lets through the changes that a predicate
//! accepts, and rewrites an update that crosses the predicate into a delete
//! or an insert.

use vstd::multiset::*;
use vstd::prelude::*;
use crate::errors::{ExecutionError, PipelineError, PipelineErrorValue, PortHandle};
use crate::expression::execution::{eval, Expression, ExpressionValue};
use crate::relation::{apply_operation, apply_operations, lemma_apply_concatenation, lemma_apply_one};
use crate::types::{
    operation_values,
    Field,
    FieldValue,
    Operation,
    OperationValue,
    Record,
    RecordValue,
    Schema,
};

verus! {

/// Whether the predicate accepts the record: whether it evaluates to true. A
/// null or any other value counts as not accepted.
pub open spec fn accepts(predicate: ExpressionValue, record: RecordValue) -> Result<
    bool,
    PipelineErrorValue,
> {
    match eval(predicate, record) {
        Ok(v) => Ok(v == FieldValue::Boolean(true)),
        Err(e) => Err(e),
    }
}

/// What selection emits for a change. An insert or a delete passes where
/// its record is accepted. An update passes where both records are, becomes
/// a delete of the old record where only that is accepted, an insert of the
/// new one where only that is, and nothing where neither is.
pub open spec fn select(predicate: ExpressionValue, op: OperationValue) -> Result<
    Seq<OperationValue>,
    PipelineErrorValue,
> {
    match op {
        OperationValue::Delete { old } => match accepts(predicate, old) {
            Err(e) => Err(e),
            Ok(o) => Ok(
                if o {
                    seq![op]
                } else {
                    seq![]
                },
            ),
        },
        OperationValue::Insert { new } => match accepts(predicate, new) {
            Err(e) => Err(e),
            Ok(n) => Ok(
                if n {
                    seq![op]
                } else {
                    seq![]
                },
            ),
        },
        OperationValue::Update { old, new } => match accepts(predicate, old) {
            Err(e) => Err(e),
            Ok(o) => match accepts(predicate, new) {
                Err(e) => Err(e),
                Ok(n) => Ok(
                    if o && n {
                        seq![op]
                    } else if o {
                        seq![OperationValue::Delete { old }]
                    } else if n {
                        seq![OperationValue::Insert { new }]
                    } else {
                        seq![]
                    },
                ),
            },
        },
    }
}

/// The operator of a `WHERE` clause. It keeps no state.
#[derive(Debug)]
pub struct SelectionProcessor {
    pub expression: Box<Expression>,
    pub input_schema: Schema,
}

impl SelectionProcessor {
    pub fn new(input_schema: Schema, expression: Box<Expression>) -> (res: Self)
        ensures
            res.input_schema == input_schema,
            res.expression == expression,
    {
        SelectionProcessor { input_schema, expression }
    }

    /// The delete of a copy of `record`.
    pub fn delete(&self, record: &Record) -> (res: Operation)
        ensures
            res@ == (OperationValue::Delete { old: record@ }),
    {
        Operation::Delete { old: record.clone() }
    }

    /// The insert of a copy of `record`.
    pub fn insert(&self, record: &Record) -> (res: Operation)
        ensures
            res@ == (OperationValue::Insert { new: record@ }),
    {
        Operation::Insert { new: record.clone() }
    }

    /// Whether the predicate accepts `record`.
    pub fn fulfills(&self, record: &Record) -> (res: Result<bool, PipelineError>)
        ensures
            match accepts(self.expression@, record@) {
                Ok(b) => res == Ok::<bool, PipelineError>(b),
                Err(e) => res is Err && res->Err_0@ == e,
            },
    {
        match self.expression.evaluate(record, &self.input_schema) {
            Ok(v) => Ok(v.equals(&Field::Boolean(true))),
            Err(e) => Err(e),
        }
    }

    /// Prepares the operator. Selection has nothing to prepare.
    pub fn init(&mut self) -> (res: Result<(), ExecutionError>)
        ensures
            res is Ok,
            *final(self) == *old(self),
    {
        Ok(())
    }

    /// Ends an epoch. Selection has nothing to write.
    pub fn commit(&self, epoch: u64) -> (res: Result<(), ExecutionError>)
        ensures
            res is Ok,
    {
        Ok(())
    }

    /// The changes to forward for `op`, in order. A failure of the
    /// predicate on a record comes back as an internal error.
    pub fn process(&mut self, from_port: PortHandle, op: Operation) -> (res: Result<
        Vec<Operation>,
        ExecutionError,
    >)
        ensures
            *final(self) == *old(self),
            match select(old(self).expression@, op@) {
                Ok(ops) => res is Ok && operation_values(res->Ok_0@) == ops,
                Err(e) => res matches Err(ExecutionError::InternalError(cause)) && cause@ == e,
            },
    {
        let mut out: Vec<Operation> = Vec::new();
        match op {
            Operation::Delete { old: ref old_record } => {
                let keep = match self.fulfills(old_record) {
                    Ok(b) => b,
                    Err(e) => {
                        return Err(ExecutionError::InternalError(e));
                    },
                };
                if keep {
                    out.push(op);
                }
            },
            Operation::Insert { new: ref new_record } => {
                let keep = match self.fulfills(new_record) {
                    Ok(b) => b,
                    Err(e) => {
                        return Err(ExecutionError::InternalError(e));
                    },
                };
                if keep {
                    out.push(op);
                }
            },
            Operation::Update { old: ref old_record, new: ref new_record } => {
                let old_fulfilled = match self.fulfills(old_record) {
                    Ok(b) => b,
                    Err(e) => {
                        return Err(ExecutionError::InternalError(e));
                    },
                };
                let new_fulfilled = match self.fulfills(new_record) {
                    Ok(b) => b,
                    Err(e) => {
                        return Err(ExecutionError::InternalError(e));
                    },
                };
                if old_fulfilled && new_fulfilled {
                    out.push(op);
                } else if old_fulfilled {
                    out.push(self.delete(old_record));
                } else if new_fulfilled {
                    out.push(self.insert(new_record));
                }
            },
        }
        assert(operation_values(out@) =~= select(self.expression@, op@)->Ok_0);
        Ok(out)
    }
}

/// What selection emits for a stream of changes: what it emits for each,
/// one after the other.
pub open spec fn select_stream(predicate: ExpressionValue, stream: Seq<OperationValue>) -> Result<
    Seq<OperationValue>,
    PipelineErrorValue,
>
    decreases stream.len(),
{
    if stream.len() == 0 {
        Ok(seq![])
    } else {
        match select_stream(predicate, stream.drop_last()) {
            Err(e) => Err(e),
            Ok(before) => match select(predicate, stream.last()) {
                Err(e) => Err(e),
                Ok(ops) => Ok(before + ops),
            },
        }
    }
}

/// The records of a relation that the predicate accepts.
pub open spec fn selected(predicate: ExpressionValue, bag: Multiset<RecordValue>) -> Multiset<
    RecordValue,
> {
    bag.filter(|r: RecordValue| accepts(predicate, r) == Ok::<bool, PipelineErrorValue>(true))
}

/// One step of selection keeps the output relation the selection of the
/// input relation.
pub proof fn lemma_select_step(
    predicate: ExpressionValue,
    bag: Multiset<RecordValue>,
    op: OperationValue,
)
    requires
        select(predicate, op) is Ok,
    ensures
        apply_operations(selected(predicate, bag), select(predicate, op)->Ok_0) == selected(
            predicate,
            apply_operation(bag, op),
        ),
{
    broadcast use group_multiset_axioms;

    let out = select(predicate, op)->Ok_0;
    let before = selected(predicate, bag);
    let after = selected(predicate, apply_operation(bag, op));
    if out.len() == 0 {
        assert(before =~= after);
    } else {
        assert(out =~= seq![out[0]]);
        lemma_apply_one(before, out[0]);
        assert(apply_operation(before, out[0]) =~= after);
    }
}

/// Delta correctness of selection: the relation built from the changes
/// that selection emits for a stream is the selection of the relation built
/// from the stream itself.
pub proof fn lemma_selection_delta_correct(
    predicate: ExpressionValue,
    stream: Seq<OperationValue>,
)
    requires
        select_stream(predicate, stream) is Ok,
    ensures
        apply_operations(Multiset::empty(), select_stream(predicate, stream)->Ok_0) == selected(
            predicate,
            apply_operations(Multiset::empty(), stream),
        ),
    decreases stream.len(),
{
    broadcast use group_multiset_axioms;

    if stream.len() == 0 {
        assert(selected(predicate, Multiset::empty()) =~= Multiset::<RecordValue>::empty());
    } else {
        let before = select_stream(predicate, stream.drop_last())->Ok_0;
        let ops = select(predicate, stream.last())->Ok_0;
        lemma_selection_delta_correct(predicate, stream.drop_last());
        lemma_apply_concatenation(Multiset::empty(), before, ops);
        lemma_select_step(
            predicate,
            apply_operations(Multiset::empty(), stream.drop_last()),
            stream.last(),
        );
    }
}

} // verus!
