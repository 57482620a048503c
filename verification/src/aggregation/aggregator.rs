//! Aggregators: what a measure keeps of the rows of a group, and how an
//! inserted, deleted or updated row changes it.
//!
//! Every aggregator works on the state that the last call left (none for a
//! new group) and gives the measure's new value and its new state. Sums
//! are kept in 64 bits and wrap around. A number of rows never falls below
//! zero and never wraps around: a row that leaves where none is counted,
//! and a row that comes where the number has no room, are refused. A null
//! does not contribute to a sum or an average; every row counts for
//! `COUNT`.

use vstd::prelude::*;
use crate::codec::{
    be_bytes,
    be_value,
    get_be,
    lemma_be_bytes_len,
    lemma_be_value_bound,
    lemma_be_value_of_bytes,
    lemma_pow256_values,
    put_be,
};
use crate::errors::{PipelineError, PipelineErrorValue, StorageError};
use crate::prefix_transaction::{prefixed_key, PrefixTransaction};
use crate::storage::{
    state_del,
    state_extreme,
    state_get,
    state_put,
    Database,
    TableValue,
    Transaction,
};
use crate::expression::execution::field_type_of;
use crate::expression::float::{
    float_at,
    float_at_place,
    float_key,
    float_ordinal,
    float_place,
    lemma_float_ordinal,
};
use crate::types::{Field, FieldType, FieldValue};

verus! {

/// The aggregate functions.
#[derive(Clone, Copy, Debug, PartialEq, Eq, Structural)]
pub enum Aggregator {
    Count,
    Sum,
    Avg,
    Min,
    Max,
}

/// The three ways in which a row changes a group.
#[derive(Clone, Copy, Debug, PartialEq, Eq, Structural)]
pub enum AggregatorOperation {
    Insert,
    Delete,
    Update,
}

/// What an aggregator gives: the measure's value and the state to keep.
#[derive(Debug, PartialEq, Eq)]
pub struct AggregationResult {
    pub value: Field,
    pub state: Option<Vec<u8>>,
}

/// The mathematical value of an [`AggregationResult`].
pub struct AggregationResultValue {
    pub value: FieldValue,
    pub state: Option<Seq<u8>>,
}

impl View for AggregationResult {
    type V = AggregationResultValue;

    open spec fn view(&self) -> AggregationResultValue {
        AggregationResultValue {
            value: self.value@,
            state: match self.state {
                Some(s) => Some(s@),
                None => None,
            },
        }
    }
}

impl AggregationResult {
    pub fn new(value: Field, state: Option<Vec<u8>>) -> (res: Self)
        ensures
            res.value == value,
            res.state == state,
    {
        AggregationResult { value, state }
    }
}

/// The name of an aggregator, as errors give it.
pub open spec fn aggregator_name(aggregator: Aggregator) -> Seq<char> {
    match aggregator {
        Aggregator::Count => "COUNT"@,
        Aggregator::Sum => "SUM"@,
        Aggregator::Avg => "AVG"@,
        Aggregator::Min => "MIN"@,
        Aggregator::Max => "MAX"@,
    }
}

/// A 64-bit integer in eight bytes.
pub open spec fn write_i64(x: i64) -> Seq<u8> {
    be_bytes(x as u64 as nat, 8)
}

/// The 64-bit integer that eight bytes hold.
pub open spec fn read_i64(bytes: Seq<u8>) -> i64 {
    be_value(bytes) as u64 as i64
}

/// The running number that a state holds: zero where there is no state
/// yet.
pub open spec fn state_number(state: Option<Seq<u8>>) -> Result<i64, PipelineErrorValue> {
    match state {
        None => Ok(0),
        Some(s) => if s.len() == 8 {
            Ok(read_i64(s))
        } else {
            Err(PipelineErrorValue::InternalStorageError(StorageError::DeserializationError))
        },
    }
}

/// The sum and the number of rows that the state of an average holds.
pub open spec fn state_average(state: Option<Seq<u8>>) -> Result<(i64, i64), PipelineErrorValue> {
    match state {
        None => Ok((0, 0)),
        Some(s) => if s.len() == 16 {
            Ok((read_i64(s.subrange(0, 8)), read_i64(s.subrange(8, 16))))
        } else {
            Err(PipelineErrorValue::InternalStorageError(StorageError::DeserializationError))
        },
    }
}

/// What a value adds to a sum: the integer, nothing for a null, and a
/// failure for anything else.
pub open spec fn contribution(aggregator: Aggregator, value: FieldValue) -> Result<
    Option<i64>,
    PipelineErrorValue,
> {
    match value {
        FieldValue::Int(i) => Ok(Some(i)),
        FieldValue::Null => Ok(None),
        _ => Err(PipelineErrorValue::InvalidOperandType(aggregator_name(aggregator))),
    }
}

/// The quotient of `a` by `b`, rounded towards zero.
pub open spec fn truncated_quotient(a: int, b: int) -> int {
    if a >= 0 {
        a / b
    } else {
        -((-a) / b)
    }
}

/// The value of an average: null over no rows.
pub open spec fn average_value(sum: i64, rows: i64) -> FieldValue {
    if rows <= 0 {
        FieldValue::Null
    } else {
        FieldValue::Int(truncated_quotient(sum as int, rows as int) as i64)
    }
}

/// A sum after the deleted value has left and the inserted one has come.
pub open spec fn moved_sum(sum: i64, deleted: Option<i64>, inserted: Option<i64>) -> i64 {
    let without = match deleted {
        Some(d) => sum.wrapping_sub(d),
        None => sum,
    };
    match inserted {
        Some(i) => without.wrapping_add(i),
        None => without,
    }
}

/// Whether a number of rows can move: a row leaves only where there is
/// one, and a row comes only where the number has room for it.
pub open spec fn rows_can_move(rows: i64, deleted: bool, inserted: bool) -> bool {
    &&& deleted ==> rows >= 1
    &&& inserted && !deleted ==> 0 <= rows < i64::MAX
}

/// A number of rows after one row has left and one has come, as far as
/// there is one of each.
pub open spec fn moved_rows(rows: i64, deleted: bool, inserted: bool) -> i64 {
    let without = if deleted {
        rows.wrapping_sub(1)
    } else {
        rows
    };
    if inserted {
        without.wrapping_add(1)
    } else {
        without
    }
}

/// What the row that leaves and the row that comes add to a sum. An insert
/// has no row that leaves, a delete none that comes. The value that leaves
/// is looked at first.
pub open spec fn contributions(
    aggregator: Aggregator,
    op: AggregatorOperation,
    deleted: FieldValue,
    inserted: FieldValue,
) -> Result<(Option<i64>, Option<i64>), PipelineErrorValue> {
    let d = if op == AggregatorOperation::Insert {
        Ok(None)
    } else {
        contribution(aggregator, deleted)
    };
    let i = if op == AggregatorOperation::Delete {
        Ok(None)
    } else {
        contribution(aggregator, inserted)
    };
    match d {
        Err(e) => Err(e),
        Ok(d) => match i {
            Err(e) => Err(e),
            Ok(i) => Ok((d, i)),
        },
    }
}

/// What an aggregator that keeps all that it needs in its state makes of a
/// state and a change.
///
/// `COUNT` counts every row. `SUM` and `AVG` take integers: any other
/// return type is refused, before the state and the values are looked at.
/// `deleted` is read for a delete and an update, `inserted` for an insert
/// and an update. `MIN` and `MAX` keep the values of the group in the
/// storage and are not among these aggregators.
pub open spec fn aggregate_value(
    aggregator: Aggregator,
    op: AggregatorOperation,
    state: Option<Seq<u8>>,
    deleted: FieldValue,
    inserted: FieldValue,
    return_type: FieldType,
) -> Result<AggregationResultValue, PipelineErrorValue> {
    match aggregator {
        Aggregator::Count => match state_number(state) {
            Err(e) => Err(e),
            Ok(rows) => if !rows_can_move(
                rows,
                op != AggregatorOperation::Insert,
                op != AggregatorOperation::Delete,
            ) {
                Err(PipelineErrorValue::InternalStorageError(StorageError::CountOutOfRange))
            } else {
                let after = moved_rows(
                    rows,
                    op != AggregatorOperation::Insert,
                    op != AggregatorOperation::Delete,
                );
                Ok(
                    AggregationResultValue {
                        value: FieldValue::Int(after),
                        state: Some(write_i64(after)),
                    },
                )
            },
        },
        Aggregator::Sum => if return_type != FieldType::Int {
            Err(PipelineErrorValue::InvalidReturnType(aggregator_name(aggregator)))
        } else {
            match state_number(state) {
                Err(e) => Err(e),
                Ok(sum) => match contributions(aggregator, op, deleted, inserted) {
                    Err(e) => Err(e),
                    Ok((d, i)) => {
                        let after = moved_sum(sum, d, i);
                        Ok(
                            AggregationResultValue {
                                value: FieldValue::Int(after),
                                state: Some(write_i64(after)),
                            },
                        )
                    },
                },
            }
        },
        Aggregator::Avg => if return_type != FieldType::Int {
            Err(PipelineErrorValue::InvalidReturnType(aggregator_name(aggregator)))
        } else {
            match state_average(state) {
                Err(e) => Err(e),
                Ok((sum, rows)) => match contributions(aggregator, op, deleted, inserted) {
                    Err(e) => Err(e),
                    Ok((d, i)) => if !rows_can_move(rows, d is Some, i is Some) {
                        Err(
                            PipelineErrorValue::InternalStorageError(
                                StorageError::CountOutOfRange,
                            ),
                        )
                    } else {
                        let sum_after = moved_sum(sum, d, i);
                        let rows_after = moved_rows(rows, d is Some, i is Some);
                        Ok(
                            AggregationResultValue {
                                value: average_value(sum_after, rows_after),
                                state: Some(write_i64(sum_after) + write_i64(rows_after)),
                            },
                        )
                    },
                },
            }
        },
        Aggregator::Min | Aggregator::Max => Err(
            PipelineErrorValue::InvalidOperator(aggregator_name(aggregator)),
        ),
    }
}

/// An update is a delete followed by an insert: the state that the delete
/// leaves, handed to the insert, gives the value and the state of the
/// update.
pub proof fn lemma_update_is_delete_then_insert(
    aggregator: Aggregator,
    state: Option<Seq<u8>>,
    deleted: FieldValue,
    inserted: FieldValue,
    return_type: FieldType,
)
    requires
        aggregate_value(
            aggregator,
            AggregatorOperation::Delete,
            state,
            deleted,
            inserted,
            return_type,
        ) is Ok,
        contribution(aggregator, inserted) is Ok || aggregator == Aggregator::Count,
    ensures
        aggregate_value(
            aggregator,
            AggregatorOperation::Update,
            state,
            deleted,
            inserted,
            return_type,
        ) == aggregate_value(
            aggregator,
            AggregatorOperation::Insert,
            aggregate_value(
                aggregator,
                AggregatorOperation::Delete,
                state,
                deleted,
                inserted,
                return_type,
            )->Ok_0.state,
            deleted,
            inserted,
            return_type,
        ),
{
    lemma_pow256_values();
    let mid = aggregate_value(
        aggregator,
        AggregatorOperation::Delete,
        state,
        deleted,
        inserted,
        return_type,
    )->Ok_0.state->Some_0;
    match aggregator {
        Aggregator::Count => {
            let rows = state_number(state)->Ok_0;
            lemma_read_write_i64(rows.wrapping_sub(1));
        },
        Aggregator::Sum => {
            let sum = state_number(state)->Ok_0;
            let d = contribution(aggregator, deleted)->Ok_0;
            lemma_read_write_i64(moved_sum(sum, d, None));
        },
        Aggregator::Avg => {
            let (sum, rows) = state_average(state)->Ok_0;
            let d = contribution(aggregator, deleted)->Ok_0;
            let s = moved_sum(sum, d, None);
            let r = moved_rows(rows, d is Some, false);
            lemma_read_write_i64(s);
            lemma_read_write_i64(r);
            assert(mid.subrange(0, 8) =~= write_i64(s));
            assert(mid.subrange(8, 16) =~= write_i64(r));
        },
        _ => {},
    }
}

/// A number that was written is read back.
pub proof fn lemma_read_write_i64(x: i64)
    ensures
        write_i64(x).len() == 8,
        read_i64(write_i64(x)) == x,
{
    lemma_pow256_values();
    lemma_be_bytes_len(x as u64 as nat, 8);
    lemma_be_value_of_bytes(x as u64 as nat, 8);
    assert(x as u64 as i64 == x) by (bit_vector);
}

/// Reads the number at `start`.
fn number_at(bytes: &[u8], start: usize) -> (res: i64)
    requires
        start + 8 <= bytes.len(),
    ensures
        res == read_i64(bytes@.subrange(start as int, start + 8)),
{
    proof {
        lemma_pow256_values();
        lemma_be_value_bound(bytes@.subrange(start as int, start + 8));
    }
    get_be(bytes, start, 8) as u64 as i64
}

/// Appends a number.
fn put_number(buf: &mut Vec<u8>, x: i64)
    ensures
        final(buf)@ == old(buf)@ + write_i64(x),
{
    put_be(buf, (x as u64) as u128, 8);
}

/// Computes [`state_number`].
fn read_state_number(state: Option<&[u8]>) -> (res: Result<i64, PipelineError>)
    ensures
        match state_number(
            match state {
                Some(s) => Some(s@),
                None => None,
            },
        ) {
            Ok(x) => res == Ok::<i64, PipelineError>(x),
            Err(e) => res is Err && res->Err_0@ == e,
        },
{
    match state {
        None => Ok(0),
        Some(s) => {
            if s.len() == 8 {
                assert(s@.subrange(0, 8) =~= s@);
                Ok(number_at(s, 0))
            } else {
                Err(PipelineError::InternalStorageError(StorageError::DeserializationError))
            }
        },
    }
}

/// Computes [`state_average`].
fn read_state_average(state: Option<&[u8]>) -> (res: Result<(i64, i64), PipelineError>)
    ensures
        match state_average(
            match state {
                Some(s) => Some(s@),
                None => None,
            },
        ) {
            Ok(x) => res == Ok::<(i64, i64), PipelineError>(x),
            Err(e) => res is Err && res->Err_0@ == e,
        },
{
    match state {
        None => Ok((0, 0)),
        Some(s) => {
            if s.len() == 16 {
                Ok((number_at(s, 0), number_at(s, 8)))
            } else {
                Err(PipelineError::InternalStorageError(StorageError::DeserializationError))
            }
        },
    }
}

/// The name of an aggregator.
fn name_of(aggregator: Aggregator) -> (res: String)
    ensures
        res@ == aggregator_name(aggregator),
{
    match aggregator {
        Aggregator::Count => "COUNT".to_owned(),
        Aggregator::Sum => "SUM".to_owned(),
        Aggregator::Avg => "AVG".to_owned(),
        Aggregator::Min => "MIN".to_owned(),
        Aggregator::Max => "MAX".to_owned(),
    }
}

/// Computes [`contribution`].
fn contribution_of(aggregator: Aggregator, value: &Field) -> (res: Result<
    Option<i64>,
    PipelineError,
>)
    ensures
        match contribution(aggregator, value@) {
            Ok(x) => res == Ok::<Option<i64>, PipelineError>(x),
            Err(e) => res is Err && res->Err_0@ == e,
        },
{
    match value {
        Field::Int(i) => Ok(Some(*i)),
        Field::Null => Ok(None),
        _ => Err(PipelineError::InvalidOperandType(name_of(aggregator))),
    }
}

/// Computes [`contributions`].
fn contributions_of(
    aggregator: Aggregator,
    op: AggregatorOperation,
    deleted: &Field,
    inserted: &Field,
) -> (res: Result<(Option<i64>, Option<i64>), PipelineError>)
    ensures
        match contributions(aggregator, op, deleted@, inserted@) {
            Ok(x) => res == Ok::<(Option<i64>, Option<i64>), PipelineError>(x),
            Err(e) => res is Err && res->Err_0@ == e,
        },
{
    let d = match op {
        AggregatorOperation::Insert => None,
        _ => match contribution_of(aggregator, deleted) {
            Ok(d) => d,
            Err(e) => {
                return Err(e);
            },
        },
    };
    let i = match op {
        AggregatorOperation::Delete => None,
        _ => match contribution_of(aggregator, inserted) {
            Ok(i) => i,
            Err(e) => {
                return Err(e);
            },
        },
    };
    Ok((d, i))
}

/// Computes [`moved_sum`].
fn move_sum(sum: i64, deleted: Option<i64>, inserted: Option<i64>) -> (res: i64)
    ensures
        res == moved_sum(sum, deleted, inserted),
{
    let without = match deleted {
        Some(d) => sum.wrapping_sub(d),
        None => sum,
    };
    match inserted {
        Some(i) => without.wrapping_add(i),
        None => without,
    }
}

/// Computes [`rows_can_move`].
fn rows_move(rows: i64, deleted: bool, inserted: bool) -> (res: bool)
    ensures
        res == rows_can_move(rows, deleted, inserted),
{
    if deleted {
        rows >= 1
    } else if inserted {
        0 <= rows && rows < i64::MAX
    } else {
        true
    }
}

/// Computes [`moved_rows`].
fn move_rows(rows: i64, deleted: bool, inserted: bool) -> (res: i64)
    ensures
        res == moved_rows(rows, deleted, inserted),
{
    let without = if deleted {
        rows.wrapping_sub(1)
    } else {
        rows
    };
    if inserted {
        without.wrapping_add(1)
    } else {
        without
    }
}

/// Computes [`average_value`].
fn average_of(sum: i64, rows: i64) -> (res: Field)
    ensures
        res@ == average_value(sum, rows),
{
    if rows <= 0 {
        Field::Null
    } else if sum >= 0 {
        Field::Int(((sum as u64) / (rows as u64)) as i64)
    } else {
        let magnitude: u64 = if sum == i64::MIN {
            0x8000_0000_0000_0000
        } else {
            (-sum) as u64
        };
        let quotient = magnitude / (rows as u64);
        if quotient == 0x8000_0000_0000_0000 {
            Field::Int(i64::MIN)
        } else {
            Field::Int(-(quotient as i64))
        }
    }
}

/// The number that a count holds: none where there is no count.
pub open spec fn count_value(found: Option<Seq<u8>>) -> Result<u64, PipelineErrorValue> {
    match found {
        None => Ok(0),
        Some(v) => if v.len() == 8 {
            Ok(be_value(v) as u64)
        } else {
            Err(PipelineErrorValue::InternalStorageError(StorageError::DeserializationError))
        },
    }
}

/// Whether a count can move by `delta`: down only as far as zero, and up
/// only as far as eight bytes hold.
pub open spec fn count_can_move(curr: u64, delta: u64, decr: bool) -> bool {
    if decr {
        delta <= curr
    } else {
        curr + delta <= u64::MAX
    }
}

/// The count under `key` before, and the databases after it has moved by
/// `delta`, up or down. A count of zero is not kept. A count that cannot
/// move that far is refused, and the databases stay as they are.
pub open spec fn count_moved(
    tables: Seq<TableValue>,
    db: Database,
    key: Seq<u8>,
    delta: u64,
    decr: bool,
) -> Result<(u64, Seq<TableValue>), PipelineErrorValue> {
    match state_get(tables, db, key) {
        Err(e) => Err(PipelineErrorValue::InternalStorageError(e)),
        Ok(found) => match count_value(found) {
            Err(e) => Err(e),
            Ok(curr) => if !count_can_move(curr, delta, decr) {
                Err(PipelineErrorValue::InternalStorageError(StorageError::CountOutOfRange))
            } else {
                let new_val = if decr {
                    curr - delta
                } else {
                    curr + delta
                };
                Ok(
                    (
                        curr,
                        if new_val > 0 {
                            state_put(tables, db, key, be_bytes(new_val as nat, 8))
                        } else {
                            state_del(tables, db, key, None)
                        },
                    ),
                )
            },
        },
    }
}

/// Moves the count under `key` by `delta`, up or, with `decr`, down. A
/// count of zero is not kept. Gives the count before. A count that cannot
/// move that far, a count that cannot be read and a handle that names no
/// database are refused, and nothing is written then.
pub fn move_count(txn: &mut Transaction, db: Database, key: &[u8], delta: u64, decr: bool) -> (res:
    Result<u64, PipelineError>)
    ensures
        final(txn)@.len() == old(txn)@.len(),
        match count_moved(old(txn)@, db, key@, delta, decr) {
            Ok((curr, tables)) => res == Ok::<u64, PipelineError>(curr) && final(txn)@ == tables,
            Err(e) => res is Err && res->Err_0@ == e && final(txn)@ == old(txn)@,
        },
{
    let curr_count: u64 = match txn.get(db, key) {
        Err(e) => {
            return Err(PipelineError::InternalStorageError(e));
        },
        Ok(Some(b)) => {
            if b.len() != 8 {
                return Err(PipelineError::InternalStorageError(StorageError::DeserializationError));
            }
            proof {
                lemma_pow256_values();
                lemma_be_value_bound(b@);
                assert(b@.subrange(0, 8) =~= b@);
            }
            get_be(b.as_slice(), 0, 8) as u64
        },
        Ok(None) => 0,
    };
    if (decr && curr_count < delta) || (!decr && delta > u64::MAX - curr_count) {
        return Err(PipelineError::InternalStorageError(StorageError::CountOutOfRange));
    }
    let new_val = if decr {
        curr_count - delta
    } else {
        curr_count + delta
    };
    if new_val > 0 {
        let mut value: Vec<u8> = Vec::new();
        put_be(&mut value, new_val as u128, 8);
        assert(value@ =~= be_bytes(new_val as nat, 8));
        match txn.put(db, key, value.as_slice()) {
            Ok(()) => {},
            Err(e) => {
                return Err(PipelineError::InternalStorageError(e));
            },
        }
    } else {
        match txn.del(db, key, None) {
            Ok(_) => {},
            Err(e) => {
                return Err(PipelineError::InternalStorageError(e));
            },
        }
    }
    Ok(curr_count)
}

/// The key under which a value of the group of a measure is counted: eight
/// bytes that come in byte order as the integers come in their order.
pub open spec fn sort_key(i: i64) -> Seq<u8> {
    be_bytes((i + 0x8000_0000_0000_0000) as nat, 8)
}

/// The integer of a key.
pub open spec fn sorted_value(key: Seq<u8>) -> i64 {
    (be_value(key) - 0x8000_0000_0000_0000) as i64
}

/// The key of a value of a measure in the database of the aggregators:
/// the prefix of the measure, then the key of the value.
pub open spec fn bag_key(prefix: u32, i: i64) -> Seq<u8> {
    prefixed_key(prefix, sort_key(i))
}

/// The databases after a value has come to, or with `decr` gone from, the
/// values of a measure. No value changes nothing.
pub open spec fn bag_moved(
    tables: Seq<TableValue>,
    db: Database,
    prefix: u32,
    value: Option<i64>,
    decr: bool,
) -> Result<Seq<TableValue>, PipelineErrorValue> {
    match value {
        None => Ok(tables),
        Some(i) => match count_moved(tables, db, bag_key(prefix, i), 1, decr) {
            Err(e) => Err(e),
            Ok((_, moved)) => Ok(moved),
        },
    }
}

/// The least, or with `least` unset the greatest, of the values of a
/// measure: a null where there are none.
pub open spec fn extreme_value(
    tables: Seq<TableValue>,
    db: Database,
    prefix: u32,
    least: bool,
) -> Result<FieldValue, PipelineErrorValue> {
    match state_extreme(tables, db, be_bytes(prefix as nat, 4), least) {
        Err(e) => Err(PipelineErrorValue::InternalStorageError(e)),
        Ok(None) => Ok(FieldValue::Null),
        Ok(Some(key)) => if key.len() == 12 {
            Ok(FieldValue::Int(sorted_value(key.subrange(4, 12))))
        } else {
            Err(PipelineErrorValue::InternalStorageError(StorageError::DeserializationError))
        },
    }
}

/// Whether the values of a type are ordered and can be counted by `MIN`
/// and `MAX`: integers with and without sign, timestamps, dates and
/// floats.
pub open spec fn ordered_type(t: FieldType) -> bool {
    t == FieldType::Int || t == FieldType::UInt || t == FieldType::Timestamp || t
        == FieldType::Date || t == FieldType::Float
}

/// The place of a value in the order of the values of its type: the
/// integer, the timestamp and the date themselves, an integer without sign
/// moved down by two to the power 63, and for a float its place in the
/// total order of the floats. A value of another type has none.
pub open spec fn ordinal_of(value: FieldValue) -> Option<i64> {
    match value {
        FieldValue::Int(i) => Some(i),
        FieldValue::UInt(u) => Some((u - 0x8000_0000_0000_0000) as i64),
        FieldValue::Timestamp(t) => Some(t),
        FieldValue::Date(d) => Some(d as i64),
        FieldValue::Float(bits) => Some(float_ordinal(bits)),
        _ => None,
    }
}

/// The date at a place: the first or the last date for a place before or
/// behind all dates.
pub open spec fn date_at(place: i64) -> i32 {
    if place < i32::MIN {
        i32::MIN
    } else if place > i32::MAX {
        i32::MAX
    } else {
        place as i32
    }
}

/// The value of a type at a place of its order. Of two floats that are the
/// same number it is one: positive zero, and one NaN.
pub open spec fn value_at(t: FieldType, place: i64) -> FieldValue {
    match t {
        FieldType::UInt => FieldValue::UInt((place + 0x8000_0000_0000_0000) as u64),
        FieldType::Timestamp => FieldValue::Timestamp(place),
        FieldType::Date => FieldValue::Date(date_at(place)),
        FieldType::Float => FieldValue::Float(float_at(place)),
        _ => FieldValue::Int(place),
    }
}

/// A value that has a place is the value of its type at that place, or,
/// for a float, the same number.
pub proof fn lemma_value_at_place(value: FieldValue)
    requires
        ordinal_of(value) is Some,
    ensures
        ({
            let shown = value_at(field_type_of(value)->Some_0, ordinal_of(value)->Some_0);
            match value {
                FieldValue::Float(bits) => shown is Float && float_key(shown->Float_0)
                    == float_key(bits),
                _ => shown == value,
            }
        }),
        ordered_type(field_type_of(value)->Some_0),
{
    match value {
        FieldValue::Float(bits) => {
            lemma_float_ordinal(bits, bits);
        },
        _ => {},
    }
}

/// What `MIN` and `MAX` count for a value of a measure of the type: the
/// place of the value, nothing for a null, and a failure for a value of
/// another type.
pub open spec fn counted_place(aggregator: Aggregator, t: FieldType, value: FieldValue) -> Result<
    FieldValue,
    PipelineErrorValue,
> {
    if value is Null {
        Ok(FieldValue::Null)
    } else if field_type_of(value) == Some(t) && ordinal_of(value) is Some {
        Ok(FieldValue::Int(ordinal_of(value)->Some_0))
    } else {
        Err(PipelineErrorValue::InvalidOperandType(aggregator_name(aggregator)))
    }
}

/// The places of the value that leaves and of the value that comes. The
/// value that leaves is looked at first, and only what the change reads.
pub open spec fn counted_places(
    aggregator: Aggregator,
    t: FieldType,
    op: AggregatorOperation,
    deleted: FieldValue,
    inserted: FieldValue,
) -> Result<(FieldValue, FieldValue), PipelineErrorValue> {
    let d = if op == AggregatorOperation::Insert {
        Ok(FieldValue::Null)
    } else {
        counted_place(aggregator, t, deleted)
    };
    let i = if op == AggregatorOperation::Delete {
        Ok(FieldValue::Null)
    } else {
        counted_place(aggregator, t, inserted)
    };
    match d {
        Err(e) => Err(e),
        Ok(d) => match i {
            Err(e) => Err(e),
            Ok(i) => Ok((d, i)),
        },
    }
}

/// The value of a measure of the type, for the place that was found: a
/// null where none was.
pub open spec fn shown_value(t: FieldType, found: FieldValue) -> FieldValue {
    match found {
        FieldValue::Int(place) => value_at(t, place),
        _ => found,
    }
}

/// What `MIN` and `MAX` make of the places of the value that leaves and of
/// the value that comes: the place that leaves is counted down behind the
/// prefix of the measure, the place that comes is counted up, and the
/// least, or the greatest, place that is counted then is found.
pub open spec fn counted_outcome(
    aggregator: Aggregator,
    op: AggregatorOperation,
    deleted: FieldValue,
    inserted: FieldValue,
    prefix: u32,
    db: Database,
    tables: Seq<TableValue>,
) -> Result<(FieldValue, Seq<TableValue>), PipelineErrorValue> {
    match contributions(aggregator, op, deleted, inserted) {
        Err(e) => Err(e),
        Ok((d, i)) => match bag_moved(tables, db, prefix, d, true) {
            Err(e) => Err(e),
            Ok(without) => match bag_moved(without, db, prefix, i, false) {
                Err(e) => Err(e),
                Ok(moved) => match extreme_value(moved, db, prefix, aggregator == Aggregator::Min) {
                    Err(e) => Err(e),
                    Ok(value) => Ok((value, moved)),
                },
            },
        },
    }
}

/// What an aggregator makes of a state and a change, and the databases
/// after it.
///
/// `MIN` and `MAX` take integers with and without sign, timestamps, dates
/// and floats, each for a measure of its own type. They count the place of every value of the
/// group behind the prefix of the measure in the database of the
/// aggregators: the value that leaves is counted down, the value that
/// comes is counted up, and the value at the least, or the greatest, place
/// that is counted then is the value of the measure. Their state is the
/// encoding of that value. The other aggregators leave the databases as
/// they are.
pub open spec fn aggregate_stored(
    aggregator: Aggregator,
    op: AggregatorOperation,
    state: Option<Seq<u8>>,
    deleted: FieldValue,
    inserted: FieldValue,
    return_type: FieldType,
    prefix: u32,
    db: Database,
    tables: Seq<TableValue>,
) -> Result<(AggregationResultValue, Seq<TableValue>), PipelineErrorValue> {
    if aggregator == Aggregator::Min || aggregator == Aggregator::Max {
        if !ordered_type(return_type) {
            Err(PipelineErrorValue::InvalidReturnType(aggregator_name(aggregator)))
        } else {
            match counted_places(aggregator, return_type, op, deleted, inserted) {
                Err(e) => Err(e),
                Ok((d, i)) => match counted_outcome(aggregator, op, d, i, prefix, db, tables) {
                    Err(e) => Err(e),
                    Ok((found, moved)) => {
                        let value = shown_value(return_type, found);
                        Ok(
                            (
                                AggregationResultValue {
                                    value,
                                    state: Some(crate::codec::encode_field(value)),
                                },
                                moved,
                            ),
                        )
                    },
                },
            }
        }
    } else {
        match aggregate_value(aggregator, op, state, deleted, inserted, return_type) {
            Err(e) => Err(e),
            Ok(r) => Ok((r, tables)),
        }
    }
}

/// Whether an aggregator keeps all that it needs in its state.
pub open spec fn keeps_state_only(aggregator: Aggregator) -> bool {
    aggregator != Aggregator::Min && aggregator != Aggregator::Max
}

/// Computes [`sort_key`].
fn sort_key_bytes(i: i64) -> (res: Vec<u8>)
    ensures
        res@ == sort_key(i),
{
    let mut out: Vec<u8> = Vec::new();
    put_be(&mut out, (i as i128 + 0x8000_0000_0000_0000) as u128, 8);
    out
}

/// A value comes to, or with `decr` goes from, the values of a measure.
fn move_bag(
    ptx: &PrefixTransaction,
    txn: &mut Transaction,
    db: Database,
    value: Option<i64>,
    decr: bool,
) -> (res: Result<(), PipelineError>)
    ensures
        final(txn)@.len() == old(txn)@.len(),
        match bag_moved(old(txn)@, db, ptx.prefix, value, decr) {
            Ok(tables) => res is Ok && final(txn)@ == tables,
            Err(e) => res is Err && res->Err_0@ == e,
        },
{
    match value {
        None => Ok(()),
        Some(i) => {
            let key = ptx.key(sort_key_bytes(i).as_slice());
            match move_count(txn, db, key.as_slice(), 1, decr) {
                Ok(_) => Ok(()),
                Err(e) => Err(e),
            }
        },
    }
}

/// Computes [`extreme_value`].
fn read_extreme(ptx: &PrefixTransaction, txn: &Transaction, db: Database, least: bool) -> (res:
    Result<Field, PipelineError>)
    ensures
        match extreme_value(txn@, db, ptx.prefix, least) {
            Ok(v) => res is Ok && res->Ok_0@ == v,
            Err(e) => res is Err && res->Err_0@ == e,
        },
{
    let empty: Vec<u8> = Vec::new();
    let prefix = ptx.key(empty.as_slice());
    assert(prefix@ =~= be_bytes(ptx.prefix as nat, 4));
    match txn.extreme_key(db, prefix.as_slice(), least) {
        Err(e) => Err(PipelineError::InternalStorageError(e)),
        Ok(None) => Ok(Field::Null),
        Ok(Some(key)) => {
            if key.len() == 12 {
                proof {
                    lemma_pow256_values();
                    lemma_be_value_bound(key@.subrange(4, 12));
                }
                let shifted = get_be(key.as_slice(), 4, 8);
                Ok(Field::Int((shifted as i128 - 0x8000_0000_0000_0000) as i64))
            } else {
                Err(PipelineError::InternalStorageError(StorageError::DeserializationError))
            }
        },
    }
}

/// Computes [`counted_place`].
fn place_of(aggregator: Aggregator, t: FieldType, value: &Field) -> (res: Result<
    Field,
    PipelineError,
>)
    ensures
        match counted_place(aggregator, t, value@) {
            Ok(x) => res is Ok && res->Ok_0@ == x,
            Err(e) => res is Err && res->Err_0@ == e,
        },
{
    match (value, t) {
        (Field::Null, _) => Ok(Field::Null),
        (Field::Int(i), FieldType::Int) => Ok(Field::Int(*i)),
        (Field::UInt(u), FieldType::UInt) => Ok(
            Field::Int((*u as i128 - 0x8000_0000_0000_0000) as i64),
        ),
        (Field::Timestamp(x), FieldType::Timestamp) => Ok(Field::Int(*x)),
        (Field::Date(d), FieldType::Date) => Ok(Field::Int(*d as i64)),
        (Field::Float(bits), FieldType::Float) => Ok(Field::Int(float_place(*bits))),
        _ => Err(PipelineError::InvalidOperandType(name_of(aggregator))),
    }
}

/// Computes [`shown_value`].
fn show_value(t: FieldType, found: Field) -> (res: Field)
    ensures
        res@ == shown_value(t, found@),
{
    match found {
        Field::Int(place) => match t {
            FieldType::UInt => Field::UInt((place as i128 + 0x8000_0000_0000_0000) as u64),
            FieldType::Timestamp => Field::Timestamp(place),
            FieldType::Date => Field::Date(
                if place < i32::MIN as i64 {
                    i32::MIN
                } else if place > i32::MAX as i64 {
                    i32::MAX
                } else {
                    place as i32
                },
            ),
            FieldType::Float => Field::Float(float_at_place(place)),
            _ => Field::Int(place),
        },
        other => other,
    }
}

impl Aggregator {
    /// Applies a change to a state. `deleted` is read for a delete and an
    /// update, `inserted` for an insert and an update. `MIN` and `MAX`
    /// count the values of the group behind the prefix of `ptx` in the
    /// database `db`; the other aggregators leave the storage as it is.
    pub fn apply(
        &self,
        op: AggregatorOperation,
        cur_state: Option<&[u8]>,
        deleted: &Field,
        inserted: &Field,
        return_type: FieldType,
        ptx: &PrefixTransaction,
        txn: &mut Transaction,
        db: Database,
    ) -> (res: Result<AggregationResult, PipelineError>)
        ensures
            final(txn)@.len() == old(txn)@.len(),
            match aggregate_stored(
                *self,
                op,
                match cur_state {
                    Some(s) => Some(s@),
                    None => None,
                },
                deleted@,
                inserted@,
                return_type,
                ptx.prefix,
                db,
                old(txn)@,
            ) {
                Ok((v, tables)) => res is Ok && res->Ok_0@ == v && final(txn)@ == tables,
                Err(e) => res is Err && res->Err_0@ == e,
            },
    {
        match self {
            Aggregator::Count => {
                let rows = match read_state_number(cur_state) {
                    Ok(x) => x,
                    Err(e) => {
                        return Err(e);
                    },
                };
                let leaves = !matches!(op, AggregatorOperation::Insert);
                let comes = !matches!(op, AggregatorOperation::Delete);
                if !rows_move(rows, leaves, comes) {
                    return Err(PipelineError::InternalStorageError(StorageError::CountOutOfRange));
                }
                let after = move_rows(rows, leaves, comes);
                let mut state: Vec<u8> = Vec::new();
                put_number(&mut state, after);
                assert(state@ =~= write_i64(after));
                Ok(AggregationResult::new(Field::Int(after), Some(state)))
            },
            Aggregator::Sum => {
                if !matches!(return_type, FieldType::Int) {
                    return Err(PipelineError::InvalidReturnType(name_of(*self)));
                }
                let sum = match read_state_number(cur_state) {
                    Ok(x) => x,
                    Err(e) => {
                        return Err(e);
                    },
                };
                let (d, i) = match contributions_of(*self, op, deleted, inserted) {
                    Ok(x) => x,
                    Err(e) => {
                        return Err(e);
                    },
                };
                let after = move_sum(sum, d, i);
                let mut state: Vec<u8> = Vec::new();
                put_number(&mut state, after);
                assert(state@ =~= write_i64(after));
                Ok(AggregationResult::new(Field::Int(after), Some(state)))
            },
            Aggregator::Avg => {
                if !matches!(return_type, FieldType::Int) {
                    return Err(PipelineError::InvalidReturnType(name_of(*self)));
                }
                let (sum, rows) = match read_state_average(cur_state) {
                    Ok(x) => x,
                    Err(e) => {
                        return Err(e);
                    },
                };
                let (d, i) = match contributions_of(*self, op, deleted, inserted) {
                    Ok(x) => x,
                    Err(e) => {
                        return Err(e);
                    },
                };
                if !rows_move(rows, d.is_some(), i.is_some()) {
                    return Err(PipelineError::InternalStorageError(StorageError::CountOutOfRange));
                }
                let sum_after = move_sum(sum, d, i);
                let rows_after = move_rows(rows, d.is_some(), i.is_some());
                let mut state: Vec<u8> = Vec::new();
                put_number(&mut state, sum_after);
                put_number(&mut state, rows_after);
                assert(state@ =~= write_i64(sum_after) + write_i64(rows_after));
                Ok(AggregationResult::new(average_of(sum_after, rows_after), Some(state)))
            },
            Aggregator::Min | Aggregator::Max => {
                if !matches!(
                    return_type,
                    FieldType::Int | FieldType::UInt | FieldType::Timestamp | FieldType::Date
                        | FieldType::Float
                ) {
                    return Err(PipelineError::InvalidReturnType(name_of(*self)));
                }
                let leaving = match op {
                    AggregatorOperation::Insert => Field::Null,
                    _ => place_of(*self, return_type, deleted)?,
                };
                let coming = match op {
                    AggregatorOperation::Delete => Field::Null,
                    _ => place_of(*self, return_type, inserted)?,
                };
                let (d, i) = match contributions_of(*self, op, &leaving, &coming) {
                    Ok(x) => x,
                    Err(e) => {
                        return Err(e);
                    },
                };
                move_bag(ptx, txn, db, d, true)?;
                move_bag(ptx, txn, db, i, false)?;
                let found = read_extreme(ptx, txn, db, matches!(self, Aggregator::Min))?;
                let value = show_value(return_type, found);
                let state = value.encode();
                Ok(AggregationResult::new(value, Some(state)))
            },
        }
    }

    /// A row comes to the group: `new` is what the measure's expression
    /// gives on it.
    pub fn insert(
        &self,
        cur_state: Option<&[u8]>,
        new: &Field,
        return_type: FieldType,
        ptx: &PrefixTransaction,
        txn: &mut Transaction,
        db: Database,
    ) -> (res: Result<AggregationResult, PipelineError>)
        ensures
            final(txn)@.len() == old(txn)@.len(),
            match aggregate_stored(
                *self,
                AggregatorOperation::Insert,
                match cur_state {
                    Some(s) => Some(s@),
                    None => None,
                },
                new@,
                new@,
                return_type,
                ptx.prefix,
                db,
                old(txn)@,
            ) {
                Ok((v, tables)) => res is Ok && res->Ok_0@ == v && final(txn)@ == tables,
                Err(e) => res is Err && res->Err_0@ == e,
            },
    {
        self.apply(AggregatorOperation::Insert, cur_state, new, new, return_type, ptx, txn, db)
    }

    /// A row leaves the group: `old_value` is what the measure's
    /// expression gives on it.
    pub fn delete(
        &self,
        cur_state: Option<&[u8]>,
        old_value: &Field,
        return_type: FieldType,
        ptx: &PrefixTransaction,
        txn: &mut Transaction,
        db: Database,
    ) -> (res: Result<AggregationResult, PipelineError>)
        ensures
            final(txn)@.len() == old(txn)@.len(),
            match aggregate_stored(
                *self,
                AggregatorOperation::Delete,
                match cur_state {
                    Some(s) => Some(s@),
                    None => None,
                },
                old_value@,
                old_value@,
                return_type,
                ptx.prefix,
                db,
                old(txn)@,
            ) {
                Ok((v, tables)) => res is Ok && res->Ok_0@ == v && final(txn)@ == tables,
                Err(e) => res is Err && res->Err_0@ == e,
            },
    {
        self.apply(
            AggregatorOperation::Delete,
            cur_state,
            old_value,
            old_value,
            return_type,
            ptx,
            txn,
            db,
        )
    }

    /// A row of the group changes: `old_value` and `new` are what the
    /// measure's expression gave and gives on it.
    pub fn update(
        &self,
        cur_state: Option<&[u8]>,
        old_value: &Field,
        new: &Field,
        return_type: FieldType,
        ptx: &PrefixTransaction,
        txn: &mut Transaction,
        db: Database,
    ) -> (res: Result<AggregationResult, PipelineError>)
        ensures
            final(txn)@.len() == old(txn)@.len(),
            match aggregate_stored(
                *self,
                AggregatorOperation::Update,
                match cur_state {
                    Some(s) => Some(s@),
                    None => None,
                },
                old_value@,
                new@,
                return_type,
                ptx.prefix,
                db,
                old(txn)@,
            ) {
                Ok((v, tables)) => res is Ok && res->Ok_0@ == v && final(txn)@ == tables,
                Err(e) => res is Err && res->Err_0@ == e,
            },
    {
        self.apply(
            AggregatorOperation::Update,
            cur_state,
            old_value,
            new,
            return_type,
            ptx,
            txn,
            db,
        )
    }
}

} // verus!
