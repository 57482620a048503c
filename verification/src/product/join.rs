//! The join of two inputs, kept up to date change by change.
//!
//! Each input has an index from the join key of its records to their
//! primary keys, and a store from the primary key of a record to the
//! record. Both live in one database that sorts duplicates, under keys that
//! start with the input's port. A record that comes or goes is joined with
//! what the index and the store of the other input hold for its join key;
//! only then are the index and the store of its own input brought up to
//! date, so that a record never meets itself.

use vstd::prelude::*;
use crate::codec::{
    be_bytes,
    decode_record_values,
    decode_values,
    encode_field,
    encode_record_values,
    storable_values,
    encode_values,
    put_be,
    put_bytes,
};
use crate::errors::{
    DeserializationError,
    ExecutionError,
    JoinError,
    PortHandle,
    StorageError,
    TypeError,
    TypeErrorValue,
};
use crate::storage::{
    state_del,
    state_put,
    table_get,
    table_get_all,
    values_of,
    Database,
    TableValue,
    Transaction,
    Values,
};
use crate::types::{field_values, Field, FieldValue, Record, RecordValue};

verus! {

/// Whether joined records come or go.
#[derive(Clone, Copy, Debug, PartialEq, Eq, Structural)]
pub enum JoinAction {
    Insert,
    Delete,
}

/// One input of a join: its port, the columns that it is joined on, and the
/// columns of its primary key.
#[derive(Debug)]
pub struct JoinTable {
    pub port: PortHandle,
    pub join_key: Vec<usize>,
    pub primary_key: Vec<usize>,
}

/// The mathematical value of a [`JoinTable`].
pub struct JoinTableValue {
    pub port: PortHandle,
    pub join_key: Seq<usize>,
    pub primary_key: Seq<usize>,
}

impl View for JoinTable {
    type V = JoinTableValue;

    open spec fn view(&self) -> JoinTableValue {
        JoinTableValue {
            port: self.port,
            join_key: self.join_key@,
            primary_key: self.primary_key@,
        }
    }
}

impl JoinTable {
    pub fn new(port: PortHandle, join_key: Vec<usize>, primary_key: Vec<usize>) -> (res: Self)
        ensures
            res.port == port,
            res.join_key == join_key,
            res.primary_key == primary_key,
    {
        JoinTable { port, join_key, primary_key }
    }
}

/// A join of a left and a right input on equal join keys. Without join
/// columns every record of one input meets every record of the other.
#[derive(Debug)]
pub struct JoinSource {
    pub left: JoinTable,
    pub right: JoinTable,
}

/// The mathematical value of a [`JoinSource`].
pub struct JoinSourceValue {
    pub left: JoinTableValue,
    pub right: JoinTableValue,
}

impl View for JoinSource {
    type V = JoinSourceValue;

    open spec fn view(&self) -> JoinSourceValue {
        JoinSourceValue { left: self.left@, right: self.right@ }
    }
}

/// Why a join fails.
pub enum JoinFailure {
    /// The operator has no database yet.
    InvalidDatabase,
    /// The change came on a port that is no input of the join.
    Join(JoinError),
    /// A key column is not in the record, or a stored record cannot be
    /// read.
    Type(TypeErrorValue),
    /// The storage failed.
    Database(StorageError),
    /// The index names a record that the store does not hold.
    RecordNotFound,
}

/// The failure that an error stands for.
pub open spec fn join_failure(e: ExecutionError) -> Option<JoinFailure> {
    match e {
        ExecutionError::InvalidDatabase => Some(JoinFailure::InvalidDatabase),
        ExecutionError::JoinError(j) => Some(JoinFailure::Join(j)),
        ExecutionError::InternalTypeError(t) => Some(JoinFailure::Type(t@)),
        ExecutionError::InternalDatabaseError(s) => Some(JoinFailure::Database(s)),
        ExecutionError::RecordNotFound => Some(JoinFailure::RecordNotFound),
        _ => None,
    }
}

/// The encodings of the first `n` of the given columns of a record, one
/// after the other.
pub open spec fn projection(values: Seq<FieldValue>, columns: Seq<usize>, n: nat) -> Result<
    Seq<u8>,
    JoinFailure,
>
    decreases n,
{
    if n == 0 {
        Ok(Seq::empty())
    } else {
        match projection(values, columns, (n - 1) as nat) {
            Err(e) => Err(e),
            Ok(before) => if columns[n - 1] < values.len() {
                Ok(before + encode_field(values[columns[n - 1] as int]))
            } else {
                Err(JoinFailure::Type(TypeErrorValue::InvalidFieldIndex(columns[n - 1])))
            },
        }
    }
}

pub proof fn lemma_projection_error(values: Seq<FieldValue>, columns: Seq<usize>, n: nat, m: nat)
    requires
        n <= m,
        projection(values, columns, n) is Err,
    ensures
        projection(values, columns, m) == projection(values, columns, n),
    decreases m - n,
{
    if n < m {
        lemma_projection_error(values, columns, n, (m - 1) as nat);
    }
}

/// The key of the index of an input for a join key.
pub open spec fn index_key(port: PortHandle, join_key: Seq<u8>) -> Seq<u8> {
    be_bytes(port as nat, 2) + seq![0u8] + join_key
}

/// The key of the store of an input for a primary key.
pub open spec fn store_key(port: PortHandle, primary_key: Seq<u8>) -> Seq<u8> {
    be_bytes(port as nat, 2) + seq![1u8] + primary_key
}

/// The first `n` values without those in the given columns.
pub open spec fn without_columns(values: Seq<FieldValue>, columns: Seq<usize>, n: nat) -> Seq<
    FieldValue,
>
    decreases n,
{
    if n == 0 {
        Seq::empty()
    } else {
        let before = without_columns(values, columns, (n - 1) as nat);
        if columns.contains((n - 1) as usize) {
            before
        } else {
            before.push(values[n - 1])
        }
    }
}

/// A joined record: the values of the left record, then those of the right
/// record that are not join columns.
pub open spec fn joined_values(
    left: Seq<FieldValue>,
    right: Seq<FieldValue>,
    right_join_key: Seq<usize>,
) -> Seq<FieldValue> {
    left + without_columns(right, right_join_key, right.len())
}

/// A record of the output.
pub open spec fn joined_record(values: Seq<FieldValue>) -> RecordValue {
    RecordValue { schema_id: None, values, version: None }
}

/// What a join gives for one record: whether it comes or goes, the joined
/// record, and the join key.
pub type JoinedValue = (JoinAction, RecordValue, Seq<u8>);

/// The record of `from_left`'s side joined with the first `n` records of
/// the other side that the index names, in the index's order.
pub open spec fn joined_with(
    j: JoinSourceValue,
    from_left: bool,
    action: JoinAction,
    values: Seq<FieldValue>,
    join_key: Seq<u8>,
    peers: Values,
    table: TableValue,
    n: nat,
) -> Result<Seq<JoinedValue>, JoinFailure>
    decreases n,
{
    if n == 0 {
        Ok(Seq::empty())
    } else {
        match joined_with(j, from_left, action, values, join_key, peers, table, (n - 1) as nat) {
            Err(e) => Err(e),
            Ok(before) => {
                let peer_port = if from_left {
                    j.right.port
                } else {
                    j.left.port
                };
                match table_get(table, store_key(peer_port, peers[n - 1])) {
                    None => Err(JoinFailure::RecordNotFound),
                    Some(bytes) => match decode_values(bytes) {
                        Err(e) => Err(
                            JoinFailure::Type(TypeErrorValue::DeserializationError(e)),
                        ),
                        Ok(peer) => Ok(
                            before.push(
                                (
                                    action,
                                    joined_record(
                                        if from_left {
                                            joined_values(values, peer, j.right.join_key)
                                        } else {
                                            joined_values(peer, values, j.right.join_key)
                                        },
                                    ),
                                    join_key,
                                ),
                            ),
                        ),
                    },
                }
            },
        }
    }
}

pub proof fn lemma_joined_with_error(
    j: JoinSourceValue,
    from_left: bool,
    action: JoinAction,
    values: Seq<FieldValue>,
    join_key: Seq<u8>,
    peers: Values,
    table: TableValue,
    n: nat,
    m: nat,
)
    requires
        n <= m,
        joined_with(j, from_left, action, values, join_key, peers, table, n) is Err,
    ensures
        joined_with(j, from_left, action, values, join_key, peers, table, m) == joined_with(
            j,
            from_left,
            action,
            values,
            join_key,
            peers,
            table,
            n,
        ),
    decreases m - n,
{
    if n < m {
        lemma_joined_with_error(
            j,
            from_left,
            action,
            values,
            join_key,
            peers,
            table,
            n,
            (m - 1) as nat,
        );
    }
}

/// The failure of a change on a port that is no input of the join.
pub open spec fn port_failure(action: JoinAction, port: PortHandle) -> JoinFailure {
    match action {
        JoinAction::Insert => JoinFailure::Join(JoinError::InsertPortError(port)),
        JoinAction::Delete => JoinFailure::Join(JoinError::DeletePortError(port)),
    }
}

/// The databases after the index and the store of an input have taken a
/// record in or let it go.
pub open spec fn after_join(
    tables: Seq<TableValue>,
    db: Database,
    action: JoinAction,
    port: PortHandle,
    join_key: Seq<u8>,
    primary_key: Seq<u8>,
    values: Seq<FieldValue>,
) -> Seq<TableValue> {
    match action {
        JoinAction::Insert => state_put(
            state_put(tables, db, index_key(port, join_key), primary_key),
            db,
            store_key(port, primary_key),
            encode_values(values),
        ),
        JoinAction::Delete => state_del(
            state_del(tables, db, index_key(port, join_key), Some(primary_key)),
            db,
            store_key(port, primary_key),
            None,
        ),
    }
}

/// What a record that comes or goes on a port gives: the record joined
/// with every record of the other input that has its join key, in the
/// order of their primary keys, and the databases with the record taken
/// into, or out of, the index and the store of its own input.
pub open spec fn join_outcome(
    j: JoinSourceValue,
    action: JoinAction,
    from_port: PortHandle,
    record: RecordValue,
    db: Database,
    tables: Seq<TableValue>,
) -> Result<(Seq<JoinedValue>, Seq<TableValue>), JoinFailure> {
    if from_port != j.left.port && from_port != j.right.port {
        Err(port_failure(action, from_port))
    } else {
        let from_left = from_port == j.left.port;
        let own = if from_left {
            j.left
        } else {
            j.right
        };
        let peer = if from_left {
            j.right
        } else {
            j.left
        };
        match projection(record.values, own.join_key, own.join_key.len()) {
            Err(e) => Err(e),
            Ok(join_key) => match projection(record.values, own.primary_key, own.primary_key.len()) {
                Err(e) => Err(e),
                Ok(primary_key) => if db.id >= tables.len() {
                    Err(JoinFailure::Database(StorageError::InvalidDatabase))
                } else {
                    let table = tables[db.id as int];
                    let peers = table_get_all(table, index_key(peer.port, join_key));
                    match joined_with(
                        j,
                        from_left,
                        action,
                        record.values,
                        join_key,
                        peers,
                        table,
                        peers.len(),
                    ) {
                        Err(e) => Err(e),
                        Ok(joined) => Ok(
                            (
                                joined,
                                after_join(
                                    tables,
                                    db,
                                    action,
                                    own.port,
                                    join_key,
                                    primary_key,
                                    record.values,
                                ),
                            ),
                        ),
                    }
                },
            },
        }
    }
}

/// The views of what a join gives.
pub open spec fn joined_view(joined: Seq<(JoinAction, Record, Vec<u8>)>) -> Seq<JoinedValue> {
    Seq::new(joined.len(), |i: int| (joined[i].0, joined[i].1@, joined[i].2@))
}

/// The encodings of the given columns of a record, one after the other.
fn project(values: &Vec<Field>, columns: &Vec<usize>) -> (res: Result<Vec<u8>, ExecutionError>)
    ensures
        match projection(field_values(values@), columns@, columns@.len()) {
            Ok(bytes) => res is Ok && res->Ok_0@ == bytes,
            Err(e) => res is Err && join_failure(res->Err_0) == Some(e),
        },
{
    let mut out: Vec<u8> = Vec::new();
    let mut i: usize = 0;
    while i < columns.len()
        invariant
            i <= columns.len(),
            projection(field_values(values@), columns@, i as nat) == Ok::<Seq<u8>, JoinFailure>(
                out@,
            ),
        decreases columns.len() - i,
    {
        let column = columns[i];
        if column >= values.len() {
            proof {
                lemma_projection_error(
                    field_values(values@),
                    columns@,
                    (i + 1) as nat,
                    columns@.len(),
                );
            }
            return Err(ExecutionError::InternalTypeError(TypeError::InvalidFieldIndex(column)));
        }
        let bytes = values[column].encode();
        put_bytes(&mut out, bytes.as_slice());
        i += 1;
    }
    Ok(out)
}

/// A key of the database: the port, a byte that tells the index from the
/// store, and the key.
fn port_key(port: PortHandle, kind: u8, key: &Vec<u8>) -> (res: Vec<u8>)
    ensures
        res@ == be_bytes(port as nat, 2) + seq![kind] + key@,
{
    let mut out: Vec<u8> = Vec::new();
    put_be(&mut out, port as u128, 2);
    out.push(kind);
    put_bytes(&mut out, key.as_slice());
    out
}

/// The values of a record without those in the given columns.
fn drop_columns(values: &Vec<Field>, columns: &Vec<usize>, out: &mut Vec<Field>)
    ensures
        field_values(final(out)@) == field_values(old(out)@) + without_columns(
            field_values(values@),
            columns@,
            values@.len(),
        ),
{
    let ghost before = field_values(out@);
    let ghost all = field_values(values@);
    let mut i: usize = 0;
    assert(field_values(out@) =~= before + without_columns(all, columns@, 0));
    while i < values.len()
        invariant
            i <= values.len(),
            all == field_values(values@),
            field_values(out@) == before + without_columns(all, columns@, i as nat),
        decreases values.len() - i,
    {
        let ghost so_far = field_values(out@);
        let mut is_key = false;
        let mut k: usize = 0;
        while k < columns.len()
            invariant
                k <= columns.len(),
                is_key == columns@.take(k as int).contains(i),
            decreases columns.len() - k,
        {
            assert(columns@.take(k + 1) =~= columns@.take(k as int).push(columns@[k as int]));
            if columns[k] == i {
                is_key = true;
                assert(columns@.take(k + 1)[k as int] == i);
            } else {
                assert(columns@.take(k as int).push(columns@[k as int]).contains(i)
                    ==> columns@.take(k as int).contains(i)) by {
                    let s = columns@.take(k as int).push(columns@[k as int]);
                    if s.contains(i) {
                        let w = choose|w: int| 0 <= w < s.len() && s[w] == i;
                        assert(w < k);
                        assert(columns@.take(k as int)[w] == i);
                    }
                }
                assert(columns@.take(k as int).contains(i) ==> columns@.take(k + 1).contains(i))
                    by {
                    if columns@.take(k as int).contains(i) {
                        let w = choose|w: int|
                            0 <= w < columns@.take(k as int).len() && columns@.take(k as int)[w]
                                == i;
                        assert(columns@.take(k + 1)[w] == i);
                    }
                }
            }
            k += 1;
        }
        assert(columns@.take(k as int) =~= columns@);
        if !is_key {
            out.push(values[i].clone());
            assert(field_values(out@) =~= so_far.push(all[i as int]));
            assert(before + without_columns(all, columns@, i as nat).push(all[i as int])
                =~= so_far.push(all[i as int]));
        }
        i += 1;
    }
}

impl JoinSource {
    pub fn new(left: JoinTable, right: JoinTable) -> (res: Self)
        ensures
            res.left == left,
            res.right == right,
    {
        JoinSource { left, right }
    }

    /// A joined record: the values of `left`, then those of `right` that
    /// are not join columns.
    fn join_records(&self, left: &Vec<Field>, right: &Vec<Field>) -> (res: Record)
        ensures
            res@ == joined_record(
                joined_values(field_values(left@), field_values(right@), self@.right.join_key),
            ),
    {
        let mut values = crate::types::clone_fields(left);
        drop_columns(right, &self.right.join_key, &mut values);
        Record::new(None, values, None)
    }

    /// Joins a record that comes or goes on `from_port` with the records
    /// of the other input, and takes it into, or out of, the index and the
    /// store of its own input. Where the join fails, nothing is written.
    /// A record that was taken in can be stored.
    pub fn execute(
        &self,
        action: JoinAction,
        from_port: PortHandle,
        record: &Record,
        database: &Database,
        txn: &mut Transaction,
    ) -> (res: Result<Vec<(JoinAction, Record, Vec<u8>)>, ExecutionError>)
        ensures
            match join_outcome(self@, action, from_port, record@, *database, old(txn)@) {
                Ok((joined, tables)) => res is Ok && joined_view(res->Ok_0@) == joined
                    && final(txn)@ == tables,
                Err(e) => res is Err && join_failure(res->Err_0) == Some(e) && final(txn)@
                    == old(txn)@,
            },
            res is Ok && action == JoinAction::Insert ==> storable_values(record@.values),
    {
        if from_port != self.left.port && from_port != self.right.port {
            return Err(
                ExecutionError::JoinError(
                    match action {
                        JoinAction::Insert => JoinError::InsertPortError(from_port),
                        JoinAction::Delete => JoinError::DeletePortError(from_port),
                    },
                ),
            );
        }
        let from_left = from_port == self.left.port;
        let (own, peer) = if from_left {
            (&self.left, &self.right)
        } else {
            (&self.right, &self.left)
        };
        let join_key = project(&record.values, &own.join_key)?;
        let primary_key = project(&record.values, &own.primary_key)?;
        let db = *database;
        let peers = match txn.get_all(db, port_key(peer.port, 0, &join_key).as_slice()) {
            Ok(p) => p,
            Err(e) => {
                return Err(ExecutionError::InternalDatabaseError(e));
            },
        };
        let ghost table = txn@[db.id as int];
        let ghost values = record@.values;
        let mut out: Vec<(JoinAction, Record, Vec<u8>)> = Vec::new();
        let mut n: usize = 0;
        assert(joined_view(out@) =~= Seq::<JoinedValue>::empty());
        while n < peers.len()
            invariant
                n <= peers.len(),
                db.id < txn@.len(),
                db == *database,
                txn@ == old(txn)@,
                table == txn@[db.id as int],
                values == record@.values,
                from_port == self.left.port || from_port == self.right.port,
                from_left == (from_port == self.left.port),
                peer.port == if from_left {
                    self.right.port
                } else {
                    self.left.port
                },
                own@ == if from_left {
                    self@.left
                } else {
                    self@.right
                },
                projection(values, own@.join_key, own@.join_key.len()) == Ok::<
                    Seq<u8>,
                    JoinFailure,
                >(join_key@),
                projection(values, own@.primary_key, own@.primary_key.len()) == Ok::<
                    Seq<u8>,
                    JoinFailure,
                >(primary_key@),
                values_of(peers@) == table_get_all(table, index_key(peer.port, join_key@)),
                joined_with(
                    self@,
                    from_left,
                    action,
                    values,
                    join_key@,
                    values_of(peers@),
                    table,
                    n as nat,
                ) == Ok::<Seq<JoinedValue>, JoinFailure>(joined_view(out@)),
            decreases peers.len() - n,
        {
            let ghost before = joined_view(out@);
            proof {
                if joined_with(
                    self@,
                    from_left,
                    action,
                    values,
                    join_key@,
                    values_of(peers@),
                    table,
                    (n + 1) as nat,
                ) is Err {
                    lemma_joined_with_error(
                        self@,
                        from_left,
                        action,
                        values,
                        join_key@,
                        values_of(peers@),
                        table,
                        (n + 1) as nat,
                        peers@.len(),
                    );
                }
            }
            let key = port_key(peer.port, 1, &peers[n]);
            let bytes = match txn.get(db, key.as_slice()) {
                Ok(Some(b)) => b,
                Ok(None) => {
                    return Err(ExecutionError::RecordNotFound);
                },
                Err(e) => {
                    return Err(ExecutionError::InternalDatabaseError(e));
                },
            };
            let peer_values = match decode_record_values(bytes.as_slice()) {
                Ok(v) => v,
                Err(e) => {
                    return Err(
                        ExecutionError::InternalTypeError(TypeError::DeserializationError(e)),
                    );
                },
            };
            let joined = if from_left {
                self.join_records(&record.values, &peer_values)
            } else {
                self.join_records(&peer_values, &record.values)
            };
            let ghost joined_value = joined@;
            out.push((action, joined, crate::storage::copy_bytes(join_key.as_slice())));
            assert(joined_view(out@) =~= before.push((action, joined_value, join_key@)));
            n += 1;
        }
        let index = port_key(own.port, 0, &join_key);
        let store = port_key(own.port, 1, &primary_key);
        match action {
            JoinAction::Insert => {
                let encoded = encode_record_values(&record.values);
                match txn.put(db, index.as_slice(), primary_key.as_slice()) {
                    Ok(()) => {},
                    Err(e) => {
                        return Err(ExecutionError::InternalDatabaseError(e));
                    },
                }
                match txn.put(db, store.as_slice(), encoded.as_slice()) {
                    Ok(()) => {},
                    Err(e) => {
                        return Err(ExecutionError::InternalDatabaseError(e));
                    },
                }
            },
            JoinAction::Delete => {
                match txn.del(db, index.as_slice(), Some(primary_key.as_slice())) {
                    Ok(_) => {},
                    Err(e) => {
                        return Err(ExecutionError::InternalDatabaseError(e));
                    },
                }
                match txn.del(db, store.as_slice(), None) {
                    Ok(_) => {},
                    Err(e) => {
                        return Err(ExecutionError::InternalDatabaseError(e));
                    },
                }
            },
        }
        Ok(out)
    }
}

} // verus!
