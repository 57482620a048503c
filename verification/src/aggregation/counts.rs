//! The row counts of the groups: after every change the count that is kept
//! for a group is the number of rows of the input in that group, and a
//! group without rows has neither a count nor a state.

use vstd::multiset::*;
use vstd::prelude::*;
use crate::aggregation::aggregator::AggregatorOperation;
use crate::aggregation::processor::{
    aggregate_outcome,
    delete_outcome,
    group_key,
    group_state,
    insert_outcome,
    measure_step,
    measures_fold,
    record_key,
    segment_count,
    start_of_measures,
    update_outcome,
    AggregationValue,
    Progress,
};
use crate::codec::{
    be_bytes,
    be_value,
    lemma_be_bytes_len,
    lemma_be_value_of_bytes,
    lemma_pow256_values,
};
use crate::errors::PipelineErrorValue;
use crate::relation::apply_operation;
use crate::storage::{table_get, Database, TableValue};
use crate::types::{OperationValue, RecordValue};

verus! {

/// The number of rows of a relation in the group with the key.
pub open spec fn group_rows(p: AggregationValue, bag: Multiset<RecordValue>, key: Seq<u8>) -> nat {
    bag.filter(
        |r: RecordValue| group_key(p.dimensions, r) == Ok::<Seq<u8>, PipelineErrorValue>(key),
    ).len()
}

/// Whether the counts that are kept are those of the relation: a group
/// with rows has their number as its count and has a state, a group
/// without rows has neither.
pub open spec fn counts_consistent(
    p: AggregationValue,
    tables: Seq<TableValue>,
    db: Database,
    bag: Multiset<RecordValue>,
) -> bool {
    &&& db.id < tables.len()
    &&& !tables[db.id as int].dup_sort
    &&& forall|key: Seq<u8>|
        {
            let n = #[trigger] group_rows(p, bag, key);
            &&& table_get(tables[db.id as int], record_key(key, 1)) == if n > 0 {
                Some(be_bytes(n, 8))
            } else {
                None
            }
            &&& n > 0 <==> table_get(tables[db.id as int], record_key(key, 0)) is Some
        }
}

/// Whether no group of the relation has more rows than a count can hold.
pub open spec fn countable(p: AggregationValue, bag: Multiset<RecordValue>) -> bool {
    forall|key: Seq<u8>| #[trigger] group_rows(p, bag, key) < 0x1_0000_0000_0000_0000
}

/// A row that comes is one more row of its group and of no other.
pub proof fn lemma_group_rows_insert(
    p: AggregationValue,
    bag: Multiset<RecordValue>,
    r: RecordValue,
    key: Seq<u8>,
)
    ensures
        group_rows(p, bag.insert(r), key) == group_rows(p, bag, key) + if group_key(
            p.dimensions,
            r,
        ) == Ok::<Seq<u8>, PipelineErrorValue>(key) {
            1nat
        } else {
            0nat
        },
{
    broadcast use group_multiset_axioms;

    let f = |r: RecordValue| group_key(p.dimensions, r) == Ok::<Seq<u8>, PipelineErrorValue>(key);
    if f(r) {
        assert(bag.insert(r).filter(f) =~= bag.filter(f).insert(r));
    } else {
        assert(bag.insert(r).filter(f) =~= bag.filter(f));
    }
}

/// A row that goes is one row less of its group and of no other.
pub proof fn lemma_group_rows_remove(
    p: AggregationValue,
    bag: Multiset<RecordValue>,
    r: RecordValue,
    key: Seq<u8>,
)
    requires
        bag.contains(r),
    ensures
        group_rows(p, bag, key) == group_rows(p, bag.remove(r), key) + if group_key(
            p.dimensions,
            r,
        ) == Ok::<Seq<u8>, PipelineErrorValue>(key) {
            1nat
        } else {
            0nat
        },
{
    broadcast use group_multiset_axioms;

    assert(bag.remove(r).insert(r) =~= bag);
    lemma_group_rows_insert(p, bag.remove(r), r, key);
}

/// A group's key in a dataset tells the dataset and the group apart from
/// all others.
pub proof fn lemma_record_key_injective(a: Seq<u8>, da: u16, b: Seq<u8>, db: u16)
    requires
        record_key(a, da) == record_key(b, db),
    ensures
        a == b,
        da == db,
{
    lemma_pow256_values();
    lemma_be_bytes_len(da as nat, 2);
    lemma_be_bytes_len(db as nat, 2);
    lemma_be_value_of_bytes(da as nat, 2);
    lemma_be_value_of_bytes(db as nat, 2);
    let ka = record_key(a, da);
    let kb = record_key(b, db);
    assert(ka.subrange(0, 2) =~= be_bytes(da as nat, 2));
    assert(kb.subrange(0, 2) =~= be_bytes(db as nat, 2));
    assert(ka.subrange(2, ka.len() as int) =~= a);
    assert(kb.subrange(2, kb.len() as int) =~= b);
}

/// An aggregator leaves every database but that of the aggregators as it
/// is.
pub proof fn lemma_aggregator_keeps_table(
    aggregator: crate::aggregation::aggregator::Aggregator,
    op: AggregatorOperation,
    state: Option<Seq<u8>>,
    deleted: crate::types::FieldValue,
    inserted: crate::types::FieldValue,
    return_type: crate::types::FieldType,
    prefix: u32,
    store: Database,
    tables: Seq<TableValue>,
    db: Database,
)
    requires
        crate::aggregation::aggregator::aggregate_stored(
            aggregator,
            op,
            state,
            deleted,
            inserted,
            return_type,
            prefix,
            store,
            tables,
        ) is Ok,
        store != db,
        db.id < tables.len(),
    ensures
        ({
            let after = crate::aggregation::aggregator::aggregate_stored(
                aggregator,
                op,
                state,
                deleted,
                inserted,
                return_type,
                prefix,
                store,
                tables,
            )->Ok_0.1;
            &&& after.len() == tables.len()
            &&& after[db.id as int] == tables[db.id as int]
        }),
{
}

/// A measure leaves every database but those of the prefix counter and of
/// the aggregators as it is.
pub proof fn lemma_measure_keeps_table(
    p: AggregationValue,
    op: AggregatorOperation,
    cur_state: Option<Seq<u8>>,
    deleted: Option<RecordValue>,
    inserted: Option<RecordValue>,
    m: crate::aggregation::processor::MeasureValue,
    acc: Progress,
    db: Database,
)
    requires
        measure_step(p, op, cur_state, deleted, inserted, m, acc) is Ok,
        p.meta_db != Some(db),
        p.aggregators_db != Some(db),
        db.id < acc.tables.len(),
    ensures
        measure_step(p, op, cur_state, deleted, inserted, m, acc)->Ok_0.tables.len()
            == acc.tables.len(),
        measure_step(p, op, cur_state, deleted, inserted, m, acc)->Ok_0.tables[db.id as int]
            == acc.tables[db.id as int],
{
    let cur = crate::aggregation::processor::current_data(cur_state, acc.offset)->Ok_0;
    let (d, i) = crate::aggregation::processor::operands(m.expression, op, deleted, inserted)->Ok_0;
    let (prefix, tables) = crate::aggregation::processor::measure_prefix(
        cur,
        acc.tables,
        p.meta_db,
    )->Ok_0;
    let return_type = crate::aggregation::processor::measure_type(p, m)->Ok_0;
    lemma_aggregator_keeps_table(
        m.aggregator,
        op,
        match cur {
            Some((_, data)) => data.state,
            None => None,
        },
        d,
        i,
        return_type,
        prefix,
        p.aggregators_db->Some_0,
        tables,
        db,
    );
}

/// The measures leave every database but those of the prefix counter and
/// of the aggregators as it is.
pub proof fn lemma_measures_keep_table(
    p: AggregationValue,
    op: AggregatorOperation,
    cur_state: Option<Seq<u8>>,
    deleted: Option<RecordValue>,
    inserted: Option<RecordValue>,
    n: nat,
    init: Progress,
    db: Database,
)
    requires
        measures_fold(p, op, cur_state, deleted, inserted, n, init) is Ok,
        p.meta_db != Some(db),
        p.aggregators_db != Some(db),
        db.id < init.tables.len(),
    ensures
        measures_fold(p, op, cur_state, deleted, inserted, n, init)->Ok_0.tables.len()
            == init.tables.len(),
        measures_fold(p, op, cur_state, deleted, inserted, n, init)->Ok_0.tables[db.id as int]
            == init.tables[db.id as int],
    decreases n,
{
    if n > 0 {
        lemma_measures_keep_table(p, op, cur_state, deleted, inserted, (n - 1) as nat, init, db);
        let acc = measures_fold(p, op, cur_state, deleted, inserted, (n - 1) as nat, init)->Ok_0;
        lemma_measure_keeps_table(p, op, cur_state, deleted, inserted, p.measures[n - 1], acc, db);
    }
}

/// The keys of two datasets, or of two groups, are different.
proof fn lemma_keys_apart(key: Seq<u8>, other: Seq<u8>)
    ensures
        record_key(key, 1) != record_key(other, 0),
        record_key(key, 0) != record_key(other, 1),
        key != other ==> record_key(key, 0) != record_key(other, 0),
        key != other ==> record_key(key, 1) != record_key(other, 1),
{
    if record_key(key, 1) == record_key(other, 0) {
        lemma_record_key_injective(key, 1, other, 0);
    }
    if record_key(key, 0) == record_key(other, 1) {
        lemma_record_key_injective(key, 0, other, 1);
    }
    if record_key(key, 0) == record_key(other, 0) {
        lemma_record_key_injective(key, 0, other, 0);
    }
    if record_key(key, 1) == record_key(other, 1) {
        lemma_record_key_injective(key, 1, other, 1);
    }
}

/// A count that was written is read back.
proof fn lemma_count_read_back(n: nat)
    requires
        n < 0x1_0000_0000_0000_0000,
    ensures
        be_bytes(n, 8).len() == 8,
        be_value(be_bytes(n, 8)) == n,
{
    lemma_pow256_values();
    lemma_be_bytes_len(n, 8);
    lemma_be_value_of_bytes(n, 8);
}

/// The counts stay those of the relation when a row comes.
pub proof fn lemma_insert_keeps_counts(
    p: AggregationValue,
    tables: Seq<TableValue>,
    db: Database,
    bag: Multiset<RecordValue>,
    new: RecordValue,
)
    requires
        counts_consistent(p, tables, db, bag),
        countable(p, bag.insert(new)),
        p.meta_db != Some(db),
        p.aggregators_db != Some(db),
        insert_outcome(p, tables, db, new) is Ok,
    ensures
        counts_consistent(p, insert_outcome(p, tables, db, new)->Ok_0.1, db, bag.insert(new)),
{
    reveal(insert_outcome);
    let after = insert_outcome(p, tables, db, new)->Ok_0.1;
    let hash = group_key(p.dimensions, new)->Ok_0;
    let n = group_rows(p, bag, hash);
    lemma_group_rows_insert(p, bag, new, hash);
    assert(group_rows(p, bag.insert(new), hash) == n + 1);
    lemma_count_read_back(n);
    lemma_count_read_back(n + 1);
    let counted = segment_count(tables, db, record_key(hash, 1), 1, false)->Ok_0.1;
    let cur_state = group_state(counted, db, hash)->Ok_0;
    let pr = measures_fold(
        p,
        AggregatorOperation::Insert,
        cur_state,
        None,
        Some(new),
        p.measures.len(),
        start_of_measures(counted, p.width),
    )->Ok_0;
    lemma_measures_keep_table(
        p,
        AggregatorOperation::Insert,
        cur_state,
        None,
        Some(new),
        p.measures.len(),
        start_of_measures(counted, p.width),
        db,
    );
    assert forall|key: Seq<u8>|
        {
            let m = #[trigger] group_rows(p, bag.insert(new), key);
            &&& table_get(after[db.id as int], record_key(key, 1)) == if m > 0 {
                Some(be_bytes(m, 8))
            } else {
                None
            }
            &&& m > 0 <==> table_get(after[db.id as int], record_key(key, 0)) is Some
        } by {
        lemma_group_rows_insert(p, bag, new, key);
        lemma_keys_apart(key, hash);
        let before = group_rows(p, bag, key);
        assert(table_get(tables[db.id as int], record_key(key, 1)) == if before > 0 {
            Some(be_bytes(before, 8))
        } else {
            None
        });
    }
}

/// The counts stay those of the relation when a row goes.
pub proof fn lemma_delete_keeps_counts(
    p: AggregationValue,
    tables: Seq<TableValue>,
    db: Database,
    bag: Multiset<RecordValue>,
    old_record: RecordValue,
)
    requires
        counts_consistent(p, tables, db, bag),
        countable(p, bag),
        bag.contains(old_record),
        p.meta_db != Some(db),
        p.aggregators_db != Some(db),
        delete_outcome(p, tables, db, old_record) is Ok,
    ensures
        counts_consistent(
            p,
            delete_outcome(p, tables, db, old_record)->Ok_0.1,
            db,
            bag.remove(old_record),
        ),
{
    reveal(delete_outcome);
    let after = delete_outcome(p, tables, db, old_record)->Ok_0.1;
    let hash = group_key(p.dimensions, old_record)->Ok_0;
    let n = group_rows(p, bag, hash);
    lemma_group_rows_remove(p, bag, old_record, hash);
    assert(n == group_rows(p, bag.remove(old_record), hash) + 1);
    lemma_count_read_back(n);
    lemma_count_read_back((n - 1) as nat);
    let counted = segment_count(tables, db, record_key(hash, 1), 1, true)->Ok_0.1;
    let cur_state = group_state(counted, db, hash)->Ok_0;
    lemma_measures_keep_table(
        p,
        AggregatorOperation::Delete,
        cur_state,
        Some(old_record),
        None,
        p.measures.len(),
        start_of_measures(counted, p.width),
        db,
    );
    assert forall|key: Seq<u8>|
        {
            let m = #[trigger] group_rows(p, bag.remove(old_record), key);
            &&& table_get(after[db.id as int], record_key(key, 1)) == if m > 0 {
                Some(be_bytes(m, 8))
            } else {
                None
            }
            &&& m > 0 <==> table_get(after[db.id as int], record_key(key, 0)) is Some
        } by {
        lemma_group_rows_remove(p, bag, old_record, key);
        lemma_keys_apart(key, hash);
        let before = group_rows(p, bag, key);
        assert(table_get(tables[db.id as int], record_key(key, 1)) == if before > 0 {
            Some(be_bytes(before, 8))
        } else {
            None
        });
    }
}

/// The counts stay those of the relation when a row changes within its
/// group.
pub proof fn lemma_update_keeps_counts(
    p: AggregationValue,
    tables: Seq<TableValue>,
    db: Database,
    bag: Multiset<RecordValue>,
    old_record: RecordValue,
    new: RecordValue,
)
    requires
        counts_consistent(p, tables, db, bag),
        bag.contains(old_record),
        p.meta_db != Some(db),
        p.aggregators_db != Some(db),
        group_key(p.dimensions, old_record) is Ok,
        group_key(p.dimensions, old_record) == group_key(p.dimensions, new),
        update_outcome(
            p,
            tables,
            db,
            old_record,
            new,
            group_key(p.dimensions, old_record)->Ok_0,
        ) is Ok,
    ensures
        counts_consistent(
            p,
            update_outcome(
                p,
                tables,
                db,
                old_record,
                new,
                group_key(p.dimensions, old_record)->Ok_0,
            )->Ok_0.1,
            db,
            bag.remove(old_record).insert(new),
        ),
{
    reveal(update_outcome);
    let hash = group_key(p.dimensions, old_record)->Ok_0;
    let after = update_outcome(p, tables, db, old_record, new, hash)->Ok_0.1;
    let cur_state = group_state(tables, db, hash)->Ok_0;
    lemma_measures_keep_table(
        p,
        AggregatorOperation::Update,
        cur_state,
        Some(old_record),
        Some(new),
        p.measures.len(),
        start_of_measures(tables, p.width),
        db,
    );
    assert forall|key: Seq<u8>|
        {
            let m = #[trigger] group_rows(p, bag.remove(old_record).insert(new), key);
            &&& table_get(after[db.id as int], record_key(key, 1)) == if m > 0 {
                Some(be_bytes(m, 8))
            } else {
                None
            }
            &&& m > 0 <==> table_get(after[db.id as int], record_key(key, 0)) is Some
        } by {
        lemma_group_rows_remove(p, bag, old_record, key);
        lemma_group_rows_insert(p, bag.remove(old_record), new, key);
        lemma_keys_apart(key, hash);
        let before = group_rows(p, bag, key);
        assert(table_get(tables[db.id as int], record_key(key, 1)) == if before > 0 {
            Some(be_bytes(before, 8))
        } else {
            None
        });
    }
}

/// Count consistency: where the counts that are kept are those of the
/// relation, they are so again after any change that the operator takes
/// in, and no group outgrows its count. The change must delete only what
/// the relation holds, and the database of the groups must be neither
/// that of the prefix counter nor that of the aggregators.
pub proof fn lemma_aggregate_keeps_counts(
    p: AggregationValue,
    tables: Seq<TableValue>,
    db: Database,
    bag: Multiset<RecordValue>,
    op: OperationValue,
)
    requires
        counts_consistent(p, tables, db, bag),
        countable(p, bag),
        match op {
            OperationValue::Insert { new } => true,
            OperationValue::Delete { old } => bag.contains(old),
            OperationValue::Update { old, new } => bag.contains(old),
        },
        p.meta_db != Some(db),
        p.aggregators_db != Some(db),
        aggregate_outcome(p, tables, db, op) is Ok,
    ensures
        counts_consistent(
            p,
            aggregate_outcome(p, tables, db, op)->Ok_0.1,
            db,
            apply_operation(bag, op),
        ),
        countable(p, apply_operation(bag, op)),
{
    lemma_accepted_is_countable(p, tables, db, bag, op);
    match op {
        OperationValue::Insert { new } => {
            lemma_insert_keeps_counts(p, tables, db, bag, new);
        },
        OperationValue::Delete { old } => {
            lemma_delete_keeps_counts(p, tables, db, bag, old);
        },
        OperationValue::Update { old, new } => {
            if group_key(p.dimensions, old) == group_key(p.dimensions, new) {
                lemma_update_keeps_counts(p, tables, db, bag, old, new);
            } else {
                lemma_delete_keeps_counts(p, tables, db, bag, old);
                let between = delete_outcome(p, tables, db, old)->Ok_0.1;
                lemma_insert_keeps_counts(p, between, db, bag.remove(old), new);
            }
        },
    }
}

/// Before any change the counts are those of the empty relation: a
/// database without entries holds no count and no state.
pub proof fn lemma_empty_counts(p: AggregationValue, tables: Seq<TableValue>, db: Database)
    requires
        db.id < tables.len(),
        !tables[db.id as int].dup_sort,
        tables[db.id as int].data == Map::<Seq<u8>, crate::storage::Values>::empty(),
    ensures
        counts_consistent(p, tables, db, Multiset::empty()),
        countable(p, Multiset::empty()),
{
    broadcast use group_multiset_axioms;

    assert forall|key: Seq<u8>| #[trigger] group_rows(p, Multiset::empty(), key) == 0 by {
        let f = |r: RecordValue|
            group_key(p.dimensions, r) == Ok::<Seq<u8>, PipelineErrorValue>(key);
        assert(Multiset::<RecordValue>::empty().filter(f) =~= Multiset::<RecordValue>::empty());
    }
}

/// A row that is taken in leaves every group with a number of rows that
/// its count holds: the count of the row's group could rise.
pub proof fn lemma_insert_is_countable(
    p: AggregationValue,
    tables: Seq<TableValue>,
    db: Database,
    bag: Multiset<RecordValue>,
    new: RecordValue,
)
    requires
        counts_consistent(p, tables, db, bag),
        countable(p, bag),
        insert_outcome(p, tables, db, new) is Ok,
    ensures
        countable(p, bag.insert(new)),
{
    reveal(insert_outcome);
    let hash = group_key(p.dimensions, new)->Ok_0;
    let n = group_rows(p, bag, hash);
    lemma_count_read_back(n);
    assert(table_get(tables[db.id as int], record_key(hash, 1)) == if n > 0 {
        Some(be_bytes(n, 8))
    } else {
        None
    });
    assert(segment_count(tables, db, record_key(hash, 1), 1, false) is Ok);
    assert(n + 1 < 0x1_0000_0000_0000_0000);
    assert forall|key: Seq<u8>| #[trigger]
        group_rows(p, bag.insert(new), key) < 0x1_0000_0000_0000_0000 by {
        lemma_group_rows_insert(p, bag, new, key);
        assert(group_rows(p, bag, key) < 0x1_0000_0000_0000_0000);
    }
}

/// A change that is taken in leaves every group with a number of rows
/// that its count holds.
pub proof fn lemma_accepted_is_countable(
    p: AggregationValue,
    tables: Seq<TableValue>,
    db: Database,
    bag: Multiset<RecordValue>,
    op: OperationValue,
)
    requires
        counts_consistent(p, tables, db, bag),
        countable(p, bag),
        match op {
            OperationValue::Insert { new } => true,
            OperationValue::Delete { old } => bag.contains(old),
            OperationValue::Update { old, new } => bag.contains(old),
        },
        p.meta_db != Some(db),
        p.aggregators_db != Some(db),
        aggregate_outcome(p, tables, db, op) is Ok,
    ensures
        countable(p, apply_operation(bag, op)),
{
    match op {
        OperationValue::Insert { new } => {
            lemma_insert_is_countable(p, tables, db, bag, new);
        },
        OperationValue::Delete { old } => {
            assert forall|key: Seq<u8>| #[trigger]
                group_rows(p, bag.remove(old), key) < 0x1_0000_0000_0000_0000 by {
                lemma_group_rows_remove(p, bag, old, key);
                assert(group_rows(p, bag, key) < 0x1_0000_0000_0000_0000);
            }
        },
        OperationValue::Update { old, new } => {
            let rest = bag.remove(old);
            assert forall|key: Seq<u8>| #[trigger]
                group_rows(p, rest, key) < 0x1_0000_0000_0000_0000 by {
                lemma_group_rows_remove(p, bag, old, key);
                assert(group_rows(p, bag, key) < 0x1_0000_0000_0000_0000);
            }
            if group_key(p.dimensions, old) == group_key(p.dimensions, new) {
                reveal(update_outcome);
                assert forall|key: Seq<u8>| #[trigger]
                    group_rows(p, rest.insert(new), key) < 0x1_0000_0000_0000_0000 by {
                    lemma_group_rows_remove(p, bag, old, key);
                    lemma_group_rows_insert(p, rest, new, key);
                    assert(group_rows(p, bag, key) < 0x1_0000_0000_0000_0000);
                }
            } else {
                lemma_delete_keeps_counts(p, tables, db, bag, old);
                let between = delete_outcome(p, tables, db, old)->Ok_0.1;
                lemma_insert_is_countable(p, between, db, rest, new);
            }
        },
    }
}

/// Whether the count and the state of a group are the same in two lists
/// of databases.
pub open spec fn group_untouched(
    tables: Seq<TableValue>,
    after: Seq<TableValue>,
    db: Database,
    key: Seq<u8>,
) -> bool {
    &&& table_get(after[db.id as int], record_key(key, 1)) == table_get(
        tables[db.id as int],
        record_key(key, 1),
    )
    &&& table_get(after[db.id as int], record_key(key, 0)) == table_get(
        tables[db.id as int],
        record_key(key, 0),
    )
}

/// A row that comes leaves the count and the state of every group but its
/// own.
pub proof fn lemma_insert_leaves_other_groups(
    p: AggregationValue,
    tables: Seq<TableValue>,
    db: Database,
    new: RecordValue,
    other: Seq<u8>,
)
    requires
        db.id < tables.len(),
        !tables[db.id as int].dup_sort,
        p.meta_db != Some(db),
        p.aggregators_db != Some(db),
        insert_outcome(p, tables, db, new) is Ok,
        group_key(p.dimensions, new) != Ok::<Seq<u8>, PipelineErrorValue>(other),
    ensures
        group_untouched(tables, insert_outcome(p, tables, db, new)->Ok_0.1, db, other),
{
    reveal(insert_outcome);
    let hash = group_key(p.dimensions, new)->Ok_0;
    let counted = segment_count(tables, db, record_key(hash, 1), 1, false)->Ok_0.1;
    let cur_state = group_state(counted, db, hash)->Ok_0;
    lemma_measures_keep_table(
        p,
        AggregatorOperation::Insert,
        cur_state,
        None,
        Some(new),
        p.measures.len(),
        start_of_measures(counted, p.width),
        db,
    );
    lemma_keys_apart(other, hash);
    lemma_keys_apart(hash, other);
}

/// A row that goes leaves the count and the state of every group but its
/// own; and where it was the last row of its group, that group has
/// neither a count nor a state afterwards.
pub proof fn lemma_delete_leaves_other_groups(
    p: AggregationValue,
    tables: Seq<TableValue>,
    db: Database,
    old_record: RecordValue,
    other: Seq<u8>,
)
    requires
        db.id < tables.len(),
        !tables[db.id as int].dup_sort,
        p.meta_db != Some(db),
        p.aggregators_db != Some(db),
        delete_outcome(p, tables, db, old_record) is Ok,
    ensures
        ({
            let hash = group_key(p.dimensions, old_record)->Ok_0;
            let after = delete_outcome(p, tables, db, old_record)->Ok_0.1;
            &&& other != hash ==> group_untouched(tables, after, db, other)
            &&& table_get(tables[db.id as int], record_key(hash, 1)) == Some(be_bytes(1, 8))
                ==> table_get(after[db.id as int], record_key(hash, 1)) is None && table_get(
                after[db.id as int],
                record_key(hash, 0),
            ) is None && delete_outcome(p, tables, db, old_record)->Ok_0.0 is Delete
        }),
{
    reveal(delete_outcome);
    let hash = group_key(p.dimensions, old_record)->Ok_0;
    let counted = segment_count(tables, db, record_key(hash, 1), 1, true)->Ok_0.1;
    let cur_state = group_state(counted, db, hash)->Ok_0;
    lemma_measures_keep_table(
        p,
        AggregatorOperation::Delete,
        cur_state,
        Some(old_record),
        None,
        p.measures.len(),
        start_of_measures(counted, p.width),
        db,
    );
    lemma_keys_apart(other, hash);
    lemma_keys_apart(hash, other);
    lemma_keys_apart(hash, hash);
    lemma_count_read_back(1);
}

} // verus!
