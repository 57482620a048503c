//! The operator of `FROM ... JOIN`: it turns every change of an input into
//! the changes of the joined rows.

use vstd::prelude::*;
use crate::errors::{ExecutionError, PortHandle};
use crate::product::join::{
    join_failure,
    join_outcome,
    joined_view,
    JoinAction,
    JoinFailure,
    JoinSource,
    JoinSourceValue,
    JoinedValue,
};
use crate::storage::{handle_of, state_open, Database, Environment, TableValue, Transaction};
use crate::types::{operation_values, Operation, OperationValue, Record, RecordValue};

verus! {

/// The operator of a product.
#[derive(Debug)]
pub struct FromProcessor {
    /// The join.
    pub operator: JoinSource,
    /// The database of the join's indexes and stores.
    pub db: Option<Database>,
}

/// The change of the output that a joined record stands for.
pub open spec fn joined_operation(joined: JoinedValue) -> OperationValue {
    match joined.0 {
        JoinAction::Insert => OperationValue::Insert { new: joined.1 },
        JoinAction::Delete => OperationValue::Delete { old: joined.1 },
    }
}

/// The changes of the output that joined records stand for, in order.
pub open spec fn joined_operations(joined: Seq<JoinedValue>) -> Seq<OperationValue> {
    Seq::new(joined.len(), |i: int| joined_operation(joined[i]))
}

/// What a join gives where the operator has a database.
pub open spec fn product_join(
    j: JoinSourceValue,
    db: Option<Database>,
    action: JoinAction,
    from_port: PortHandle,
    record: RecordValue,
    tables: Seq<TableValue>,
) -> Result<(Seq<JoinedValue>, Seq<TableValue>), JoinFailure> {
    match db {
        None => Err(JoinFailure::InvalidDatabase),
        Some(d) => join_outcome(j, action, from_port, record, d, tables),
    }
}

/// What the update of a record gives: the old record leaves, then the new
/// one comes.
pub open spec fn product_update(
    j: JoinSourceValue,
    db: Option<Database>,
    from_port: PortHandle,
    old_record: RecordValue,
    new: RecordValue,
    tables: Seq<TableValue>,
) -> Result<((Seq<JoinedValue>, Seq<JoinedValue>), Seq<TableValue>), JoinFailure> {
    match product_join(j, db, JoinAction::Delete, from_port, old_record, tables) {
        Err(e) => Err(e),
        Ok((old_joined, between)) => match product_join(
            j,
            db,
            JoinAction::Insert,
            from_port,
            new,
            between,
        ) {
            Err(e) => Err(e),
            Ok((new_joined, after)) => Ok(((old_joined, new_joined), after)),
        },
    }
}

/// What a change on a port gives: the changes of the joined rows, and the
/// databases after it. An insert joins the new record, a delete the old
/// one, an update the old one and then the new one.
pub open spec fn product_outcome(
    j: JoinSourceValue,
    db: Option<Database>,
    from_port: PortHandle,
    op: OperationValue,
    tables: Seq<TableValue>,
) -> Result<(Seq<OperationValue>, Seq<TableValue>), JoinFailure> {
    match op {
        OperationValue::Delete { old } => match product_join(
            j,
            db,
            JoinAction::Delete,
            from_port,
            old,
            tables,
        ) {
            Err(e) => Err(e),
            Ok((joined, after)) => Ok((joined_operations(joined), after)),
        },
        OperationValue::Insert { new } => match product_join(
            j,
            db,
            JoinAction::Insert,
            from_port,
            new,
            tables,
        ) {
            Err(e) => Err(e),
            Ok((joined, after)) => Ok((joined_operations(joined), after)),
        },
        OperationValue::Update { old, new } => match product_update(
            j,
            db,
            from_port,
            old,
            new,
            tables,
        ) {
            Err(e) => Err(e),
            Ok(((old_joined, new_joined), after)) => Ok(
                (joined_operations(old_joined) + joined_operations(new_joined), after),
            ),
        },
    }
}

/// Appends the changes that joined records stand for.
fn forward(records: &Vec<(JoinAction, Record, Vec<u8>)>, out: &mut Vec<Operation>)
    ensures
        operation_values(final(out)@) == operation_values(old(out)@) + joined_operations(
            joined_view(records@),
        ),
{
    let ghost before = operation_values(out@);
    let ghost all = joined_operations(joined_view(records@));
    let mut i: usize = 0;
    assert(operation_values(out@) =~= before + all.take(0));
    while i < records.len()
        invariant
            i <= records.len(),
            all == joined_operations(joined_view(records@)),
            operation_values(out@) == before + all.take(i as int),
        decreases records.len() - i,
    {
        let ghost so_far = operation_values(out@);
        let record = records[i].1.clone();
        let op = match records[i].0 {
            JoinAction::Insert => Operation::Insert { new: record },
            JoinAction::Delete => Operation::Delete { old: record },
        };
        let ghost op_value = op@;
        out.push(op);
        proof {
            assert(op_value == all[i as int]);
            assert(operation_values(out@) =~= so_far.push(op_value));
            assert(before + all.take(i + 1) =~= so_far.push(op_value));
        }
        i += 1;
    }
    assert(all.take(i as int) =~= all);
}

impl FromProcessor {
    /// The operator of the given join. Its database is opened by `init`.
    pub fn new(operator: JoinSource) -> (res: Self)
        ensures
            res.operator == operator,
            res.db is None,
    {
        FromProcessor { operator, db: None }
    }

    /// Opens the database of the join, one that sorts duplicates.
    pub fn init_store(&mut self, env: &mut Environment) -> (res: Result<(), ExecutionError>)
        ensures
            res is Ok,
            final(self).operator == old(self).operator,
            final(self).db == Some(handle_of(old(env)@, "product"@)),
            final(env)@ == state_open(old(env)@, "product"@, true),
    {
        self.db = Some(env.open_database("product", true));
        Ok(())
    }

    /// Prepares the operator: opens its database.
    pub fn init(&mut self, env: &mut Environment) -> (res: Result<(), ExecutionError>)
        ensures
            res is Ok,
            final(self).operator == old(self).operator,
            final(self).db == Some(handle_of(old(env)@, "product"@)),
            final(env)@ == state_open(old(env)@, "product"@, true),
    {
        self.init_store(env)
    }

    /// Ends an epoch. What the join wrote is in the transaction already.
    pub fn commit(&self, epoch: u64, txn: &Transaction) -> (res: Result<(), ExecutionError>)
        ensures
            res is Ok,
    {
        Ok(())
    }

    /// A record leaves an input: the joined rows that leave with it. Where
    /// the join fails, nothing is written.
    pub fn delete(&self, from_port: PortHandle, record: &Record, txn: &mut Transaction) -> (res:
        Result<Vec<(JoinAction, Record, Vec<u8>)>, ExecutionError>)
        ensures
            match product_join(
                self.operator@,
                self.db,
                JoinAction::Delete,
                from_port,
                record@,
                old(txn)@,
            ) {
                Ok((joined, tables)) => res is Ok && joined_view(res->Ok_0@) == joined
                    && final(txn)@ == tables,
                Err(e) => res is Err && join_failure(res->Err_0) == Some(e) && final(txn)@
                    == old(txn)@,
            },
    {
        let database = match self.db {
            Some(d) => d,
            None => {
                return Err(ExecutionError::InvalidDatabase);
            },
        };
        self.operator.execute(JoinAction::Delete, from_port, record, &database, txn)
    }

    /// A record comes to an input: the joined rows that come with it. Where
    /// the join fails, nothing is written.
    pub fn insert(&self, from_port: PortHandle, record: &Record, txn: &mut Transaction) -> (res:
        Result<Vec<(JoinAction, Record, Vec<u8>)>, ExecutionError>)
        ensures
            match product_join(
                self.operator@,
                self.db,
                JoinAction::Insert,
                from_port,
                record@,
                old(txn)@,
            ) {
                Ok((joined, tables)) => res is Ok && joined_view(res->Ok_0@) == joined
                    && final(txn)@ == tables,
                Err(e) => res is Err && join_failure(res->Err_0) == Some(e) && final(txn)@
                    == old(txn)@,
            },
            res is Ok ==> crate::codec::storable_values(record@.values),
    {
        let database = match self.db {
            Some(d) => d,
            None => {
                return Err(ExecutionError::InvalidDatabase);
            },
        };
        self.operator.execute(JoinAction::Insert, from_port, record, &database, txn)
    }

    /// A record of an input changes: the joined rows that leave with the
    /// old record, and those that come with the new one. Where the old
    /// record cannot leave, nothing is written; where the new one cannot
    /// come, the old one has left.
    pub fn update(
        &self,
        from_port: PortHandle,
        old_record: &Record,
        new: &Record,
        txn: &mut Transaction,
    ) -> (res: Result<
        (Vec<(JoinAction, Record, Vec<u8>)>, Vec<(JoinAction, Record, Vec<u8>)>),
        ExecutionError,
    >)
        ensures
            match product_update(
                self.operator@,
                self.db,
                from_port,
                old_record@,
                new@,
                old(txn)@,
            ) {
                Ok(((old_joined, new_joined), tables)) => res is Ok && joined_view(res->Ok_0.0@)
                    == old_joined && joined_view(res->Ok_0.1@) == new_joined && final(txn)@
                    == tables,
                Err(e) => res is Err && join_failure(res->Err_0) == Some(e),
            },
            res is Err ==> final(txn)@ == match product_join(
                self.operator@,
                self.db,
                JoinAction::Delete,
                from_port,
                old_record@,
                old(txn)@,
            ) {
                Ok((_, tables)) => tables,
                Err(_) => old(txn)@,
            },
            res is Ok ==> crate::codec::storable_values(new@.values),
    {
        let database = match self.db {
            Some(d) => d,
            None => {
                return Err(ExecutionError::InvalidDatabase);
            },
        };
        let old_records = self.operator.execute(
            JoinAction::Delete,
            from_port,
            old_record,
            &database,
            txn,
        )?;
        let new_records = self.operator.execute(
            JoinAction::Insert,
            from_port,
            new,
            &database,
            txn,
        )?;
        Ok((old_records, new_records))
    }

    /// The changes to forward for a change that came on `from_port`, in
    /// order. Where the operator fails, the transaction stays as it is,
    /// but for an update that fails on the new record: then the old one
    /// has left already.
    pub fn process(&mut self, from_port: PortHandle, op: Operation, txn: &mut Transaction) -> (res:
        Result<Vec<Operation>, ExecutionError>)
        ensures
            *final(self) == *old(self),
            match product_outcome(old(self).operator@, old(self).db, from_port, op@, old(txn)@) {
                Ok((ops, tables)) => res is Ok && operation_values(res->Ok_0@) == ops
                    && final(txn)@ == tables,
                Err(e) => res is Err && join_failure(res->Err_0) == Some(e),
            },
            res is Err ==> final(txn)@ == match op@ {
                OperationValue::Update { old: leaving, new: coming } => match product_join(
                    old(self).operator@,
                    old(self).db,
                    JoinAction::Delete,
                    from_port,
                    leaving,
                    old(txn)@,
                ) {
                    Ok((_, tables)) => tables,
                    Err(_) => old(txn)@,
                },
                _ => old(txn)@,
            },
            res is Ok ==> match op@ {
                OperationValue::Insert { new } => crate::codec::storable_values(new.values),
                OperationValue::Update { old: leaving, new: coming } => crate::codec::storable_values(
                    coming.values,
                ),
                OperationValue::Delete { old: leaving } => true,
            },
    {
        let mut out: Vec<Operation> = Vec::new();
        assert(operation_values(out@) =~= Seq::<OperationValue>::empty());
        match op {
            Operation::Delete { old: ref old_record } => {
                let records = self.delete(from_port, old_record, txn)?;
                forward(&records, &mut out);
            },
            Operation::Insert { new: ref new_record } => {
                let records = self.insert(from_port, new_record, txn)?;
                forward(&records, &mut out);
            },
            Operation::Update { old: ref old_record, new: ref new_record } => {
                let (old_join_records, new_join_records) = self.update(
                    from_port,
                    old_record,
                    new_record,
                    txn,
                )?;
                forward(&old_join_records, &mut out);
                forward(&new_join_records, &mut out);
            },
        }
        assert(operation_values(out@) =~= product_outcome(
            self.operator@,
            self.db,
            from_port,
            op@,
            old(txn)@,
        )->Ok_0.0);
        Ok(out)
    }
}

/// The operator emits no update: the change of a row that takes part in
/// joined rows is emitted as the deletes of the joined rows of the row
/// before and the inserts of those of the row after.
pub proof fn lemma_product_emits_no_update(
    j: JoinSourceValue,
    db: Option<Database>,
    from_port: PortHandle,
    op: OperationValue,
    tables: Seq<TableValue>,
    i: int,
)
    requires
        product_outcome(j, db, from_port, op, tables) is Ok,
        0 <= i < product_outcome(j, db, from_port, op, tables)->Ok_0.0.len(),
    ensures
        !(product_outcome(j, db, from_port, op, tables)->Ok_0.0[i] is Update),
{
}

} // verus!
