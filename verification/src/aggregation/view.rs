//! The output of the aggregation as the rows of its groups: for every
//! change of the input, what the operator emits is the row of each group
//! that the change touches as it was over the relation before the change,
//! and as it is over the relation after it.

use vstd::multiset::*;
use vstd::prelude::*;
use crate::aggregation::aggregator::{
    keeps_state_only,
    ordinal_of,
    lemma_read_write_i64,
    AggregatorOperation,
};
use crate::aggregation::bags::{bag_at, bag_stored, counts_moved, lemma_bag_moved_elsewhere};
use crate::aggregation::counts::{
    countable,
    counts_consistent,
    group_rows,
    lemma_aggregator_keeps_table,
    lemma_accepted_is_countable,
    lemma_delete_keeps_counts,
    lemma_empty_counts,
    lemma_group_rows_insert,
    lemma_group_rows_remove,
    lemma_insert_keeps_counts,
    lemma_record_key_injective,
    lemma_update_keeps_counts,
};
use crate::aggregation::groups::{
    created_entries,
    group_bytes,
    lemma_measures_of_group,
    lemma_measures_of_new_group,
    stepped_entries,
    stepped_entry,
    storable,
    with_measures,
};
use crate::aggregation::processor::{
    aggregate_outcome,
    counter_value,
    delete_outcome,
    filled_dimensions,
    group_key,
    group_state,
    insert_outcome,
    lemma_versioned,
    measure_type,
    measures_fold,
    next_counter,
    null_values,
    operands,
    output_record,
    record_key,
    segment_count,
    start_of_measures,
    unversioned,
    update_outcome,
    versioned,
    AggregationDataValue,
    AggregationValue,
};
use crate::aggregation::tally::{
    counts_after,
    empty_tally,
    lemma_aggregator_keeps_measure_over,
    lemma_extreme_of_same,
    lemma_tally_insert,
    lemma_tally_of_empty_group,
    lemma_tally_remove,
    lemma_value_counts_bound,
    lemma_value_counts_insert,
    lemma_value_counts_remove,
    measure_over,
    tally_after,
    tally_of,
    value_counts,
};
use crate::codec::{be_bytes, lemma_be_bytes_len, lemma_be_value_of_bytes, lemma_pow256_values};
use crate::errors::PipelineErrorValue;
use crate::relation::apply_operation;
use crate::storage::{
    handle_of,
    index_of_name,
    state_del,
    state_open,
    state_put,
    table_get,
    Database,
    TableValue,
    Values,
};
use crate::types::{FieldValue, OperationValue, RecordValue};

verus! {

/// The prefix of every measure of every group.
pub type Prefixes = spec_fn(Seq<u8>, int) -> u32;

/// The counts that the database of the aggregators holds for a measure of
/// a group: those of the values of the measure's argument for `MIN` and
/// `MAX`, and none for the aggregators that keep a tally.
pub open spec fn counts_for(
    p: AggregationValue,
    m: int,
    bag: Multiset<RecordValue>,
    key: Seq<u8>,
) -> spec_fn(i64) -> nat {
    if keeps_state_only(p.measures[m].aggregator) {
        |i: i64| 0nat
    } else {
        value_counts(p, p.measures[m].expression, bag, key)
    }
}

/// The entries of a group whose measures are those of the rows of the
/// group in a relation, with the given prefixes.
pub open spec fn expected_entries(
    p: AggregationValue,
    bag: Multiset<RecordValue>,
    key: Seq<u8>,
    prefixes: Prefixes,
) -> Seq<AggregationDataValue> {
    Seq::new(
        p.measures.len(),
        |m: int|
            {
                let r = measure_over(
                    p.measures[m].aggregator,
                    tally_of(p, p.measures[m].expression, bag, key),
                    value_counts(p, p.measures[m].expression, bag, key),
                    measure_type(p, p.measures[m])->Ok_0,
                );
                AggregationDataValue { value: r.value, state: r.state, prefix: prefixes(key, m) }
            },
    )
}

/// The values of the measures of a group over a relation, in their
/// columns.
pub open spec fn group_values(p: AggregationValue, bag: Multiset<RecordValue>, key: Seq<u8>) -> Seq<
    FieldValue,
> {
    with_measures(
        null_values(p.width),
        p,
        expected_entries(p, bag, key, |k: Seq<u8>, m: int| 0u32),
        p.measures.len(),
    )
}

/// The row of a group over a relation: the values of the measures over the
/// rows of the group, and the dimensions as they are on `record`, a row of
/// the group.
pub open spec fn group_row(
    p: AggregationValue,
    bag: Multiset<RecordValue>,
    key: Seq<u8>,
    record: RecordValue,
) -> RecordValue {
    output_record(
        filled_dimensions(
            p.dimensions,
            record,
            group_values(p, bag, key),
            p.dimensions.len(),
        )->Ok_0,
    )
}

/// Whether the state that is kept for every group with rows is that of the
/// measures over the rows of the group.
pub open spec fn states_consistent(
    p: AggregationValue,
    tables: Seq<TableValue>,
    db: Database,
    bag: Multiset<RecordValue>,
    prefixes: Prefixes,
) -> bool {
    forall|key: Seq<u8>| #[trigger]
        group_rows(p, bag, key) > 0 ==> table_get(tables[db.id as int], record_key(key, 0)) == Some(
            versioned(group_bytes(expected_entries(p, bag, key, prefixes))),
        )
}

/// The prefix that the counter stands at.
pub open spec fn counter_of(tables: Seq<TableValue>, meta: Database) -> u32 {
    counter_value(table_get(tables[meta.id as int], seq![1u8]))->Ok_0
}

/// Whether nothing is kept behind a prefix.
pub open spec fn unused_prefix(t: TableValue, prefix: u32) -> bool {
    bag_at(t, prefix, |i: i64| 0nat)
}

/// Whether a group has rows and `m` is one of the measures.
pub open spec fn measure_in_use(
    p: AggregationValue,
    bag: Multiset<RecordValue>,
    key: Seq<u8>,
    m: int,
) -> bool {
    group_rows(p, bag, key) > 0 && 0 <= m < p.measures.len()
}

/// Whether the database of the aggregators holds, behind the prefix of
/// every measure of every group with rows, the counts of the values of
/// that measure; no two measures have the same prefix; and nothing is kept
/// behind the prefixes that the counter has not handed out yet.
pub open spec fn bags_consistent(
    p: AggregationValue,
    tables: Seq<TableValue>,
    bag: Multiset<RecordValue>,
    prefixes: Prefixes,
) -> bool {
    let store = p.aggregators_db->Some_0;
    let meta = p.meta_db->Some_0;
    &&& p.aggregators_db is Some
    &&& p.meta_db is Some
    &&& store != meta
    &&& store.id < tables.len()
    &&& !tables[store.id as int].dup_sort
    &&& tables[store.id as int].data.dom().finite()
    &&& meta.id < tables.len()
    &&& !tables[meta.id as int].dup_sort
    &&& counter_value(table_get(tables[meta.id as int], seq![1u8])) is Ok
    &&& forall|key: Seq<u8>, m: int|
        #![trigger prefixes(key, m)]
        measure_in_use(p, bag, key, m) ==> bag_at(
            tables[store.id as int],
            prefixes(key, m),
            counts_for(p, m, bag, key),
        ) && prefixes(key, m) <= counter_of(tables, meta)
    &&& forall|k1: Seq<u8>, m1: int, k2: Seq<u8>, m2: int|
        #![trigger prefixes(k1, m1), prefixes(k2, m2)]
        measure_in_use(p, bag, k1, m1) && measure_in_use(p, bag, k2, m2) && prefixes(k1, m1)
            == prefixes(k2, m2) ==> k1 == k2 && m1 == m2
    &&& forall|prefix: u32|
        prefix > counter_of(tables, meta) ==> #[trigger] unused_prefix(
            tables[store.id as int],
            prefix,
        )
}

/// The change of the output for a row that comes: the insert of its
/// group's row where the group had no rows, and else the update of the
/// group's row.
pub open spec fn expected_insert(
    p: AggregationValue,
    bag: Multiset<RecordValue>,
    new: RecordValue,
) -> OperationValue {
    let key = group_key(p.dimensions, new)->Ok_0;
    if group_rows(p, bag, key) == 0 {
        OperationValue::Insert { new: group_row(p, bag.insert(new), key, new) }
    } else {
        OperationValue::Update {
            old: group_row(p, bag, key, new),
            new: group_row(p, bag.insert(new), key, new),
        }
    }
}

/// The change of the output for a row that goes: the delete of its group's
/// row where it was the group's last row, and else the update of the
/// group's row.
pub open spec fn expected_delete(
    p: AggregationValue,
    bag: Multiset<RecordValue>,
    old_record: RecordValue,
) -> OperationValue {
    let key = group_key(p.dimensions, old_record)->Ok_0;
    if group_rows(p, bag, key) == 1 {
        OperationValue::Delete { old: group_row(p, bag, key, old_record) }
    } else {
        OperationValue::Update {
            old: group_row(p, bag, key, old_record),
            new: group_row(p, bag.remove(old_record), key, old_record),
        }
    }
}

/// The changes of the output for a change of the input, from the relation
/// before the change alone.
pub open spec fn expected_changes(
    p: AggregationValue,
    bag: Multiset<RecordValue>,
    op: OperationValue,
) -> Seq<OperationValue> {
    match op {
        OperationValue::Insert { new } => seq![expected_insert(p, bag, new)],
        OperationValue::Delete { old } => seq![expected_delete(p, bag, old)],
        OperationValue::Update { old, new } => {
            let key = group_key(p.dimensions, old)->Ok_0;
            if group_key(p.dimensions, old) == group_key(p.dimensions, new) {
                seq![
                    OperationValue::Update {
                        old: group_row(p, bag, key, old),
                        new: group_row(p, bag.remove(old).insert(new), key, new),
                    },
                ]
            } else {
                seq![
                    expected_delete(p, bag, old),
                    expected_insert(p, bag.remove(old), new),
                ]
            }
        },
    }
}

/// Counts that are the same are held by the same databases.
pub proof fn lemma_bag_at_same(
    t: TableValue,
    prefix: u32,
    a: spec_fn(i64) -> nat,
    b: spec_fn(i64) -> nat,
)
    requires
        bag_at(t, prefix, a),
        forall|i: i64| #[trigger] a(i) == b(i),
    ensures
        bag_at(t, prefix, b),
{
    assert forall|i: i64|
        #[trigger] table_get(t, crate::aggregation::aggregator::bag_key(prefix, i)) == if b(i) > 0 {
            Some(be_bytes(b(i), 8))
        } else {
            None
        } by {
        assert(a(i) == b(i));
    }
    assert forall|i: i64| #[trigger] b(i) < 0x1_0000_0000_0000_0000 by {
        assert(a(i) == b(i));
        assert(a(i) < 0x1_0000_0000_0000_0000);
    }
    assert forall|key: Seq<u8>|
        #![trigger t.data.contains_key(key)]
        t.data.contains_key(key) && crate::storage::has_prefix(
            key,
            be_bytes(prefix as nat, 4),
        ) implies exists|i: i64|
        key == #[trigger] crate::aggregation::aggregator::bag_key(prefix, i) && b(i) > 0 by {
        let i = choose|i: i64|
            key == #[trigger] crate::aggregation::aggregator::bag_key(prefix, i) && a(i) > 0;
        assert(a(i) == b(i));
    }
}

/// The value and the state of a measure over a relation are short: the
/// value is a number, a timestamp, a date or a null, the state a few
/// bytes.
pub proof fn lemma_measure_storable(
    p: AggregationValue,
    bag: Multiset<RecordValue>,
    key: Seq<u8>,
    j: int,
)
    requires
        0 <= j < p.measures.len(),
    ensures
        ({
            let r = measure_over(
                p.measures[j].aggregator,
                tally_of(p, p.measures[j].expression, bag, key),
                value_counts(p, p.measures[j].expression, bag, key),
                measure_type(p, p.measures[j])->Ok_0,
            );
            &&& r.value is Int || r.value is UInt || r.value is Timestamp || r.value is Date
                || r.value is Float || r.value is Null
            &&& r.state is Some
            &&& 0 < r.state->Some_0.len() <= 16
            &&& crate::codec::encode_field(r.value).len() <= 9
        }),
{
    let t = tally_of(p, p.measures[j].expression, bag, key);
    let r = measure_over(
        p.measures[j].aggregator,
        t,
        value_counts(p, p.measures[j].expression, bag, key),
        measure_type(p, p.measures[j])->Ok_0,
    );
    match r.value {
        FieldValue::Int(i) => {
            lemma_be_bytes_len(i as u64 as nat, 8);
        },
        FieldValue::Timestamp(i) => {
            lemma_be_bytes_len(i as u64 as nat, 8);
        },
        FieldValue::Float(bits) => {
            lemma_be_bytes_len(bits as nat, 8);
        },
        FieldValue::UInt(u) => {
            lemma_be_bytes_len(u as nat, 8);
        },
        FieldValue::Date(d) => {
            lemma_be_bytes_len(d as u32 as nat, 4);
        },
        _ => {},
    }
    lemma_read_write_i64(crate::aggregation::tally::wrap_i64(t.rows));
    lemma_read_write_i64(crate::aggregation::tally::wrap_i64(t.sum));
    lemma_read_write_i64(crate::aggregation::tally::wrap_i64(t.counted));
}

/// The entries of the measures over a relation can be stored.
pub proof fn lemma_expected_storable(
    p: AggregationValue,
    bag: Multiset<RecordValue>,
    key: Seq<u8>,
    prefixes: Prefixes,
)
    ensures
        expected_entries(p, bag, key, prefixes).len() == p.measures.len(),
        forall|j: int|
            0 <= j < p.measures.len() ==> storable(
                #[trigger] expected_entries(p, bag, key, prefixes)[j],
            ),
{
    assert forall|j: int| 0 <= j < p.measures.len() implies storable(
        #[trigger] expected_entries(p, bag, key, prefixes)[j],
    ) by {
        lemma_measure_storable(p, bag, key, j);
    }
}

/// Only the values of the entries count for the output.
pub proof fn lemma_with_measures_values(
    values: Seq<FieldValue>,
    p: AggregationValue,
    a: Seq<AggregationDataValue>,
    b: Seq<AggregationDataValue>,
    n: nat,
)
    requires
        forall|j: int| 0 <= j < n ==> (#[trigger] a[j]).value == b[j].value,
    ensures
        with_measures(values, p, a, n) == with_measures(values, p, b, n),
    decreases n,
{
    if n > 0 {
        lemma_with_measures_values(values, p, a, b, (n - 1) as nat);
        assert(a[n - 1].value == b[n - 1].value);
    }
}

/// The values of the measures of a group, from entries with any prefixes.
pub proof fn lemma_group_values(
    p: AggregationValue,
    bag: Multiset<RecordValue>,
    key: Seq<u8>,
    entries: Seq<AggregationDataValue>,
)
    requires
        entries.len() == p.measures.len(),
        forall|j: int|
            0 <= j < p.measures.len() ==> (#[trigger] entries[j]).value == measure_over(
                p.measures[j].aggregator,
                tally_of(p, p.measures[j].expression, bag, key),
                value_counts(p, p.measures[j].expression, bag, key),
                measure_type(p, p.measures[j])->Ok_0,
            ).value,
    ensures
        with_measures(null_values(p.width), p, entries, p.measures.len()) == group_values(
            p,
            bag,
            key,
        ),
{
    lemma_with_measures_values(
        null_values(p.width),
        p,
        entries,
        expected_entries(p, bag, key, |k: Seq<u8>, m: int| 0u32),
        p.measures.len(),
    );
}

/// Whether a change of the rows of a group moves the measures of the group
/// from those over one relation to those over another: for every measure
/// whose argument can be evaluated, the tally and the counts of the values
/// over the second relation are those over the first after the change; a
/// value that leaves is counted, and no count outgrows 64 bits.
pub open spec fn measures_move(
    p: AggregationValue,
    op: AggregatorOperation,
    deleted: Option<RecordValue>,
    inserted: Option<RecordValue>,
    bag: Multiset<RecordValue>,
    after: Multiset<RecordValue>,
    key: Seq<u8>,
) -> bool {
    forall|m: int|
        0 <= m < p.measures.len() && operands(
            (#[trigger] p.measures[m]).expression,
            op,
            deleted,
            inserted,
        ) is Ok ==> measure_moves(p, op, deleted, inserted, bag, after, key, m)
}

/// Whether a change moves one measure of a group.
pub open spec fn measure_moves(
    p: AggregationValue,
    op: AggregatorOperation,
    deleted: Option<RecordValue>,
    inserted: Option<RecordValue>,
    bag: Multiset<RecordValue>,
    after: Multiset<RecordValue>,
    key: Seq<u8>,
    m: int,
) -> bool {
    let e = p.measures[m].expression;
    let (d, i) = operands(e, op, deleted, inserted)->Ok_0;
    &&& tally_of(p, e, after, key) == tally_after(tally_of(p, e, bag, key), op, d, i)
    &&& forall|x: i64| #[trigger]
        value_counts(p, e, after, key)(x) == counts_after(value_counts(p, e, bag, key), op, d, i)(x)
    &&& op != AggregatorOperation::Insert ==> (ordinal_of(d) matches Some(x) ==> value_counts(
        p,
        e,
        bag,
        key,
    )(x) > 0)
    &&& op != AggregatorOperation::Delete ==> (ordinal_of(i) matches Some(x) ==> counts_moved(
        value_counts(p, e, bag, key),
        if op == AggregatorOperation::Insert {
            None
        } else {
            ordinal_of(d)
        },
        true,
    )(x) + 1 < 0x1_0000_0000_0000_0000)
}

/// Whether a database is one that the aggregators can count in.
pub open spec fn store_in_order(p: AggregationValue, tables: Seq<TableValue>) -> bool {
    &&& tables.len() <= usize::MAX
    &&& p.aggregators_db is Some
    &&& p.aggregators_db->Some_0.id < tables.len()
    &&& !tables[p.aggregators_db->Some_0.id as int].dup_sort
    &&& tables[p.aggregators_db->Some_0.id as int].data.dom().finite()
}

/// Whether two lists of databases differ in that of the aggregators at
/// most.
pub open spec fn same_but_store(
    p: AggregationValue,
    tables: Seq<TableValue>,
    after: Seq<TableValue>,
) -> bool {
    &&& after.len() == tables.len()
    &&& forall|x: int|
        0 <= x < tables.len() && x != p.aggregators_db->Some_0.id ==> #[trigger] after[x]
            == tables[x]
}

/// A change of the rows of a group leads from the entry of a measure over
/// the relation before to its entry over the relation after, and from the
/// counts of its values before to those after.
proof fn lemma_step_expected(
    p: AggregationValue,
    op: AggregatorOperation,
    deleted: Option<RecordValue>,
    inserted: Option<RecordValue>,
    bag: Multiset<RecordValue>,
    after: Multiset<RecordValue>,
    key: Seq<u8>,
    prefixes: Prefixes,
    tables: Seq<TableValue>,
    m: int,
)
    requires
        0 <= m < p.measures.len(),
        store_in_order(p, tables),
        bag_at(
            tables[p.aggregators_db->Some_0.id as int],
            prefixes(key, m),
            counts_for(p, m, bag, key),
        ),
        stepped_entry(
            p,
            op,
            deleted,
            inserted,
            p.measures[m],
            expected_entries(p, bag, key, prefixes)[m],
            tables,
        ) is Ok,
        measures_move(p, op, deleted, inserted, bag, after, key),
    ensures
        ({
            let (entry, t) = stepped_entry(
                p,
                op,
                deleted,
                inserted,
                p.measures[m],
                expected_entries(p, bag, key, prefixes)[m],
                tables,
            )->Ok_0;
            &&& entry == expected_entries(p, after, key, prefixes)[m]
            &&& store_in_order(p, t)
            &&& same_but_store(p, tables, t)
            &&& bag_at(
                t[p.aggregators_db->Some_0.id as int],
                prefixes(key, m),
                counts_for(p, m, after, key),
            )
        }),
{
    let mv = p.measures[m];
    let e = mv.expression;
    let store = p.aggregators_db->Some_0;
    let entry = expected_entries(p, bag, key, prefixes)[m];
    let (d, i) = operands(e, op, deleted, inserted)->Ok_0;
    let rt = measure_type(p, mv)->Ok_0;
    assert(p.measures[m] == mv);
    assert(measure_moves(p, op, deleted, inserted, bag, after, key, m));
    let counts = value_counts(p, e, bag, key);
    lemma_aggregator_keeps_measure_over(
        mv.aggregator,
        op,
        tally_of(p, e, bag, key),
        counts,
        entry.state,
        d,
        i,
        rt,
        entry.prefix,
        store,
        tables,
    );
    let outcome = crate::aggregation::aggregator::aggregate_stored(
        mv.aggregator,
        op,
        entry.state,
        d,
        i,
        rt,
        entry.prefix,
        store,
        tables,
    )->Ok_0;
    let moved = counts_after(counts, op, d, i);
    let now = value_counts(p, e, after, key);
    assert forall|x: i64| #[trigger] moved(x) == now(x) by {
        assert(value_counts(p, e, after, key)(x) == counts_after(counts, op, d, i)(x));
    }
    lemma_extreme_of_same(moved, now, true);
    lemma_extreme_of_same(moved, now, false);
    if !keeps_state_only(mv.aggregator) {
        lemma_bag_at_same(outcome.1[store.id as int], entry.prefix, moved, now);
    }
    assert forall|x: int| 0 <= x < tables.len() && x != store.id implies #[trigger] outcome.1[x]
        == tables[x] by {
        lemma_aggregator_keeps_table(
            mv.aggregator,
            op,
            entry.state,
            d,
            i,
            rt,
            entry.prefix,
            store,
            tables,
            Database { id: x as usize },
        );
    }
}

/// A change of a measure leaves what is counted behind every other prefix.
proof fn lemma_step_elsewhere(
    p: AggregationValue,
    op: AggregatorOperation,
    deleted: Option<RecordValue>,
    inserted: Option<RecordValue>,
    mv: crate::aggregation::processor::MeasureValue,
    entry: AggregationDataValue,
    tables: Seq<TableValue>,
    other: u32,
    counts: spec_fn(i64) -> nat,
)
    requires
        p.aggregators_db is Some,
        stepped_entry(p, op, deleted, inserted, mv, entry, tables) is Ok,
        bag_stored(tables, p.aggregators_db->Some_0, other, counts),
        other != entry.prefix,
    ensures
        bag_stored(
            stepped_entry(p, op, deleted, inserted, mv, entry, tables)->Ok_0.1,
            p.aggregators_db->Some_0,
            other,
            counts,
        ),
{
    let store = p.aggregators_db->Some_0;
    let (d, i) = operands(mv.expression, op, deleted, inserted)->Ok_0;
    if !keeps_state_only(mv.aggregator) {
        let (leaving, coming) = crate::aggregation::aggregator::counted_places(
            mv.aggregator,
            measure_type(p, mv)->Ok_0,
            op,
            d,
            i,
        )->Ok_0;
        let (a, b) = crate::aggregation::aggregator::contributions(
            mv.aggregator,
            op,
            leaving,
            coming,
        )->Ok_0;
        lemma_bag_moved_elsewhere(tables, store, entry.prefix, a, true, other, counts);
        let without = crate::aggregation::aggregator::bag_moved(
            tables,
            store,
            entry.prefix,
            a,
            true,
        )->Ok_0;
        lemma_bag_moved_elsewhere(without, store, entry.prefix, b, false, other, counts);
    }
}

/// Whether the prefixes of the measures of a group are all different.
pub open spec fn prefixes_apart(p: AggregationValue, key: Seq<u8>, prefixes: Prefixes) -> bool {
    forall|a: int, b: int|
        #![trigger prefixes(key, a), prefixes(key, b)]
        0 <= a < p.measures.len() && 0 <= b < p.measures.len() && prefixes(key, a) == prefixes(
            key,
            b,
        ) ==> a == b
}

/// The counts that the database of the aggregators holds for the measures
/// of a group while a change is under way: those after the change for the
/// first `n` measures, those before it for the others.
pub open spec fn bags_under_way(
    p: AggregationValue,
    t: TableValue,
    bag: Multiset<RecordValue>,
    after: Multiset<RecordValue>,
    key: Seq<u8>,
    prefixes: Prefixes,
    n: nat,
) -> bool {
    forall|m: int|
        #![trigger prefixes(key, m)]
        0 <= m < p.measures.len() ==> bag_at(
            t,
            prefixes(key, m),
            if m < n {
                counts_for(p, m, after, key)
            } else {
                counts_for(p, m, bag, key)
            },
        )
}

/// A change of the rows of a group leads from the entries of the group
/// over the relation before to its entries over the relation after, and
/// from the counts of the values of its measures before to those after.
pub proof fn lemma_stepped_expected(
    p: AggregationValue,
    op: AggregatorOperation,
    deleted: Option<RecordValue>,
    inserted: Option<RecordValue>,
    bag: Multiset<RecordValue>,
    after: Multiset<RecordValue>,
    key: Seq<u8>,
    prefixes: Prefixes,
    tables: Seq<TableValue>,
    n: nat,
)
    requires
        n <= p.measures.len(),
        store_in_order(p, tables),
        prefixes_apart(p, key, prefixes),
        bags_under_way(
            p,
            tables[p.aggregators_db->Some_0.id as int],
            bag,
            after,
            key,
            prefixes,
            0,
        ),
        stepped_entries(
            p,
            op,
            deleted,
            inserted,
            expected_entries(p, bag, key, prefixes),
            tables,
            n,
        ) is Ok,
        measures_move(p, op, deleted, inserted, bag, after, key),
    ensures
        ({
            let (changed, t) = stepped_entries(
                p,
                op,
                deleted,
                inserted,
                expected_entries(p, bag, key, prefixes),
                tables,
                n,
            )->Ok_0;
            &&& changed == expected_entries(p, after, key, prefixes).take(n as int)
            &&& store_in_order(p, t)
            &&& same_but_store(p, tables, t)
            &&& bags_under_way(
                p,
                t[p.aggregators_db->Some_0.id as int],
                bag,
                after,
                key,
                prefixes,
                n,
            )
        }),
    decreases n,
{
    let entries = expected_entries(p, bag, key, prefixes);
    let store = p.aggregators_db->Some_0;
    if n == 0 {
        assert(expected_entries(p, after, key, prefixes).take(0) =~= Seq::<
            AggregationDataValue,
        >::empty());
    } else {
        let k = (n - 1) as nat;
        lemma_stepped_expected(p, op, deleted, inserted, bag, after, key, prefixes, tables, k);
        let (before, t) = stepped_entries(p, op, deleted, inserted, entries, tables, k)->Ok_0;
        assert(bag_at(t[store.id as int], prefixes(key, k as int), counts_for(p, k as int, bag, key)));
        lemma_step_expected(p, op, deleted, inserted, bag, after, key, prefixes, t, k as int);
        let (entry, stored) = stepped_entry(
            p,
            op,
            deleted,
            inserted,
            p.measures[k as int],
            entries[k as int],
            t,
        )->Ok_0;
        assert(before.push(entry) =~= expected_entries(p, after, key, prefixes).take(n as int));
        assert forall|m: int|
            #![trigger prefixes(key, m)]
            0 <= m < p.measures.len() implies bag_at(
            stored[store.id as int],
            prefixes(key, m),
            if m < n {
                counts_for(p, m, after, key)
            } else {
                counts_for(p, m, bag, key)
            },
        ) by {
            if m != k {
                let counts = if m < k {
                    counts_for(p, m, after, key)
                } else {
                    counts_for(p, m, bag, key)
                };
                assert(bag_at(t[store.id as int], prefixes(key, m), counts));
                assert(prefixes(key, m) != prefixes(key, k as int));
                lemma_step_elsewhere(
                    p,
                    op,
                    deleted,
                    inserted,
                    p.measures[k as int],
                    entries[k as int],
                    t,
                    prefixes(key, m),
                    counts,
                );
            }
        }
    }
}

/// A change of the rows of a group leaves what is counted behind the
/// prefixes of the other groups.
pub proof fn lemma_stepped_elsewhere(
    p: AggregationValue,
    op: AggregatorOperation,
    deleted: Option<RecordValue>,
    inserted: Option<RecordValue>,
    entries: Seq<AggregationDataValue>,
    tables: Seq<TableValue>,
    n: nat,
    other: u32,
    counts: spec_fn(i64) -> nat,
)
    requires
        n <= p.measures.len(),
        n <= entries.len(),
        p.aggregators_db is Some,
        stepped_entries(p, op, deleted, inserted, entries, tables, n) is Ok,
        bag_stored(tables, p.aggregators_db->Some_0, other, counts),
        forall|j: int| 0 <= j < n ==> (#[trigger] entries[j]).prefix != other,
    ensures
        bag_stored(
            stepped_entries(p, op, deleted, inserted, entries, tables, n)->Ok_0.1,
            p.aggregators_db->Some_0,
            other,
            counts,
        ),
    decreases n,
{
    if n > 0 {
        let k = (n - 1) as nat;
        lemma_stepped_elsewhere(p, op, deleted, inserted, entries, tables, k, other, counts);
        let t = stepped_entries(p, op, deleted, inserted, entries, tables, k)->Ok_0.1;
        assert(entries[k as int].prefix != other);
        lemma_step_elsewhere(
            p,
            op,
            deleted,
            inserted,
            p.measures[k as int],
            entries[k as int],
            t,
            other,
            counts,
        );
    }
}

/// An aggregator leaves what is counted behind every prefix but its own.
proof fn lemma_aggregate_elsewhere(
    aggregator: crate::aggregation::aggregator::Aggregator,
    op: AggregatorOperation,
    state: Option<Seq<u8>>,
    deleted: FieldValue,
    inserted: FieldValue,
    return_type: crate::types::FieldType,
    prefix: u32,
    store: Database,
    tables: Seq<TableValue>,
    other: u32,
    counts: spec_fn(i64) -> nat,
)
    requires
        crate::aggregation::aggregator::aggregate_stored(
            aggregator,
            op,
            state,
            deleted,
            inserted,
            return_type,
            prefix,
            store,
            tables,
        ) is Ok,
        bag_stored(tables, store, other, counts),
        other != prefix,
    ensures
        bag_stored(
            crate::aggregation::aggregator::aggregate_stored(
                aggregator,
                op,
                state,
                deleted,
                inserted,
                return_type,
                prefix,
                store,
                tables,
            )->Ok_0.1,
            store,
            other,
            counts,
        ),
{
    if !keeps_state_only(aggregator) {
        let (leaving, coming) = crate::aggregation::aggregator::counted_places(
            aggregator,
            return_type,
            op,
            deleted,
            inserted,
        )->Ok_0;
        let (a, b) = crate::aggregation::aggregator::contributions(
            aggregator,
            op,
            leaving,
            coming,
        )->Ok_0;
        lemma_bag_moved_elsewhere(tables, store, prefix, a, true, other, counts);
        let without = crate::aggregation::aggregator::bag_moved(tables, store, prefix, a, true)->Ok_0;
        lemma_bag_moved_elsewhere(without, store, prefix, b, false, other, counts);
    }
}

/// Whether the prefix counter can be read and moved on without touching
/// the database of the aggregators.
pub open spec fn counter_in_order(p: AggregationValue, tables: Seq<TableValue>) -> bool {
    &&& p.meta_db is Some
    &&& p.meta_db != p.aggregators_db
    &&& p.meta_db->Some_0.id < tables.len()
    &&& !tables[p.meta_db->Some_0.id as int].dup_sort
    &&& counter_value(table_get(tables[p.meta_db->Some_0.id as int], seq![1u8])) is Ok
}

/// Whether two lists of databases differ in that of the aggregators and in
/// that of the prefix counter at most.
pub open spec fn same_but_store_and_counter(
    p: AggregationValue,
    tables: Seq<TableValue>,
    after: Seq<TableValue>,
) -> bool {
    &&& after.len() == tables.len()
    &&& forall|x: int|
        0 <= x < tables.len() && x != p.aggregators_db->Some_0.id && x != p.meta_db->Some_0.id
            ==> #[trigger] after[x] == tables[x]
}

/// The counter hands out the prefix after the one that it stands at, and
/// stands at that prefix then. Nothing else changes.
proof fn lemma_next_counter(p: AggregationValue, tables: Seq<TableValue>)
    requires
        tables.len() <= usize::MAX,
        counter_in_order(p, tables),
        next_counter(tables, p.meta_db) is Ok,
    ensures
        ({
            let (prefix, counted) = next_counter(tables, p.meta_db)->Ok_0;
            &&& prefix == counter_of(tables, p.meta_db->Some_0) + 1
            &&& counter_in_order(p, counted)
            &&& counter_of(counted, p.meta_db->Some_0) == prefix
            &&& counted.len() == tables.len()
            &&& forall|x: int|
                0 <= x < tables.len() && x != p.meta_db->Some_0.id ==> #[trigger] counted[x]
                    == tables[x]
        }),
{
    lemma_pow256_values();
    let c = counter_of(tables, p.meta_db->Some_0);
    lemma_be_bytes_len((c + 1) as nat, 4);
    lemma_be_value_of_bytes((c + 1) as nat, 4);
}

/// Whether the entries that were created for a new group are those of the
/// measures over the relation after the row has come, with the prefixes
/// that follow the counter.
pub open spec fn created_as_expected(
    p: AggregationValue,
    after: Multiset<RecordValue>,
    key: Seq<u8>,
    first: int,
    created: Seq<AggregationDataValue>,
    n: nat,
) -> bool {
    &&& created.len() == n
    &&& forall|j: int|
        0 <= j < n ==> (#[trigger] created[j]) == (AggregationDataValue {
            value: measure_over(
                p.measures[j].aggregator,
                tally_of(p, p.measures[j].expression, after, key),
                value_counts(p, p.measures[j].expression, after, key),
                measure_type(p, p.measures[j])->Ok_0,
            ).value,
            state: measure_over(
                p.measures[j].aggregator,
                tally_of(p, p.measures[j].expression, after, key),
                value_counts(p, p.measures[j].expression, after, key),
                measure_type(p, p.measures[j])->Ok_0,
            ).state,
            prefix: (first + j) as u32,
        })
}

/// The entries that are created for a group without rows when a row comes
/// are the entries of the group over the relation with the row; their
/// prefixes are those that follow the counter, which stands at the last of
/// them afterwards; behind each the database of the aggregators holds the
/// counts of the values of its measure; and behind the prefixes that
/// follow, nothing.
pub proof fn lemma_created_expected(
    p: AggregationValue,
    new: RecordValue,
    bag: Multiset<RecordValue>,
    key: Seq<u8>,
    tables: Seq<TableValue>,
    n: nat,
)
    requires
        n <= p.measures.len(),
        store_in_order(p, tables),
        counter_in_order(p, tables),
        forall|prefix: u32|
            prefix > counter_of(tables, p.meta_db->Some_0) ==> #[trigger] unused_prefix(
                tables[p.aggregators_db->Some_0.id as int],
                prefix,
            ),
        group_rows(p, bag, key) == 0,
        created_entries(p, AggregatorOperation::Insert, None, Some(new), tables, n) is Ok,
        measures_move(p, AggregatorOperation::Insert, None, Some(new), bag, bag.insert(new), key),
    ensures
        ({
            let (created, t) = created_entries(
                p,
                AggregatorOperation::Insert,
                None,
                Some(new),
                tables,
                n,
            )->Ok_0;
            let first = counter_of(tables, p.meta_db->Some_0) + 1;
            &&& created_as_expected(p, bag.insert(new), key, first, created, n)
            &&& first + n <= u32::MAX + 1
            &&& store_in_order(p, t)
            &&& counter_in_order(p, t)
            &&& counter_of(t, p.meta_db->Some_0) == first + n - 1
            &&& same_but_store_and_counter(p, tables, t)
            &&& forall|j: int|
                0 <= j < n ==> bag_at(
                    t[p.aggregators_db->Some_0.id as int],
                    #[trigger] ((first + j) as u32),
                    counts_for(p, j, bag.insert(new), key),
                )
            &&& forall|prefix: u32|
                prefix >= first + n ==> #[trigger] unused_prefix(
                    t[p.aggregators_db->Some_0.id as int],
                    prefix,
                )
        }),
    decreases n,
{
    let op = AggregatorOperation::Insert;
    let store = p.aggregators_db->Some_0;
    let meta = p.meta_db->Some_0;
    let after = bag.insert(new);
    let first = counter_of(tables, meta) + 1;
    if n > 0 {
        let k = (n - 1) as nat;
        lemma_created_expected(p, new, bag, key, tables, k);
        let (before, t) = created_entries(p, op, None, Some(new), tables, k)->Ok_0;
        let (created, last) = created_entries(p, op, None, Some(new), tables, n)->Ok_0;
        let mv = p.measures[k as int];
        let e = mv.expression;
        assert(p.measures[k as int] == mv);
        let (d, i) = operands(e, op, None, Some(new))->Ok_0;
        lemma_next_counter(p, t);
        let (prefix, counted) = next_counter(t, p.meta_db)->Ok_0;
        let rt = measure_type(p, mv)->Ok_0;
        assert(prefix == first + k);
        assert(counted[store.id as int] == t[store.id as int]);
        let zero = |x: i64| 0nat;
        assert(unused_prefix(t[store.id as int], prefix));
        assert(measure_moves(p, op, None, Some(new), bag, after, key, k as int));
        lemma_tally_of_empty_group(p, e, bag, key);
        lemma_aggregator_keeps_measure_over(
            mv.aggregator,
            op,
            empty_tally(),
            zero,
            None,
            d,
            i,
            rt,
            prefix,
            store,
            counted,
        );
        let outcome = crate::aggregation::aggregator::aggregate_stored(
            mv.aggregator,
            op,
            None,
            d,
            i,
            rt,
            prefix,
            store,
            counted,
        )->Ok_0;
        let moved = counts_after(zero, op, d, i);
        let now = value_counts(p, e, after, key);
        assert forall|x: i64| #[trigger] moved(x) == now(x) by {
            lemma_value_counts_bound(p, e, bag, key, x);
            assert(value_counts(p, e, after, key)(x) == counts_after(
                value_counts(p, e, bag, key),
                op,
                d,
                i,
            )(x));
        }
        lemma_extreme_of_same(moved, now, true);
        lemma_extreme_of_same(moved, now, false);
        if !keeps_state_only(mv.aggregator) {
            lemma_bag_at_same(outcome.1[store.id as int], prefix, moved, now);
        }
        assert(created =~= before.push(created[k as int]));
        assert forall|x: int|
            0 <= x < tables.len() && x != store.id implies #[trigger] outcome.1[x] == counted[x] by {
            lemma_aggregator_keeps_table(
                mv.aggregator,
                op,
                None,
                d,
                i,
                rt,
                prefix,
                store,
                counted,
                Database { id: x as usize },
            );
        }
        assert(outcome.1[meta.id as int] == counted[meta.id as int]);
        assert forall|j: int| 0 <= j < n implies bag_at(
            last[store.id as int],
            #[trigger] ((first + j) as u32),
            counts_for(p, j, after, key),
        ) by {
            if j < k {
                assert(bag_at(t[store.id as int], (first + j) as u32, counts_for(p, j, after, key)));
                lemma_aggregate_elsewhere(
                    mv.aggregator,
                    op,
                    None,
                    d,
                    i,
                    rt,
                    prefix,
                    store,
                    counted,
                    (first + j) as u32,
                    counts_for(p, j, after, key),
                );
            }
        }
        assert forall|other: u32| other >= first + n implies #[trigger] unused_prefix(
            last[store.id as int],
            other,
        ) by {
            assert(unused_prefix(t[store.id as int], other));
            lemma_aggregate_elsewhere(
                mv.aggregator,
                op,
                None,
                d,
                i,
                rt,
                prefix,
                store,
                counted,
                other,
                zero,
            );
        }
    }
}

/// Creating the entries of a new group leaves what is counted behind the
/// prefixes that the counter had handed out before.
pub proof fn lemma_created_elsewhere(
    p: AggregationValue,
    new: RecordValue,
    tables: Seq<TableValue>,
    n: nat,
    other: u32,
    counts: spec_fn(i64) -> nat,
)
    requires
        n <= p.measures.len(),
        store_in_order(p, tables),
        counter_in_order(p, tables),
        created_entries(p, AggregatorOperation::Insert, None, Some(new), tables, n) is Ok,
        bag_stored(tables, p.aggregators_db->Some_0, other, counts),
        other <= counter_of(tables, p.meta_db->Some_0),
    ensures
        ({
            let t = created_entries(
                p,
                AggregatorOperation::Insert,
                None,
                Some(new),
                tables,
                n,
            )->Ok_0.1;
            &&& bag_stored(t, p.aggregators_db->Some_0, other, counts)
            &&& counter_in_order(p, t)
            &&& t.len() == tables.len()
            &&& counter_of(t, p.meta_db->Some_0) >= counter_of(tables, p.meta_db->Some_0)
        }),
    decreases n,
{
    let op = AggregatorOperation::Insert;
    let store = p.aggregators_db->Some_0;
    if n > 0 {
        let k = (n - 1) as nat;
        lemma_created_elsewhere(p, new, tables, k, other, counts);
        let (before, t) = created_entries(p, op, None, Some(new), tables, k)->Ok_0;
        let mv = p.measures[k as int];
        let (d, i) = operands(mv.expression, op, None, Some(new))->Ok_0;
        lemma_next_counter(p, t);
        let (prefix, counted) = next_counter(t, p.meta_db)->Ok_0;
        let rt = measure_type(p, mv)->Ok_0;
        assert(counted[store.id as int] == t[store.id as int]);
        lemma_aggregate_elsewhere(
            mv.aggregator,
            op,
            None,
            d,
            i,
            rt,
            prefix,
            store,
            counted,
            other,
            counts,
        );
        let outcome = crate::aggregation::aggregator::aggregate_stored(
            mv.aggregator,
            op,
            None,
            d,
            i,
            rt,
            prefix,
            store,
            counted,
        )->Ok_0;
        lemma_aggregator_keeps_table(
            mv.aggregator,
            op,
            None,
            d,
            i,
            rt,
            prefix,
            store,
            counted,
            p.meta_db->Some_0,
        );
    }
}

/// Whether a change of the rows of a group leaves the other groups: each
/// has as many rows after it, with the same tallies and the same counts of
/// values.
pub open spec fn others_same(
    p: AggregationValue,
    bag: Multiset<RecordValue>,
    after: Multiset<RecordValue>,
    key: Seq<u8>,
) -> bool {
    forall|other: Seq<u8>|
        other != key ==> #[trigger] group_rows(p, after, other) == group_rows(p, bag, other)
            && group_same(p, bag, after, other)
}

/// Whether a group has the same tallies and counts of values in two
/// relations.
pub open spec fn group_same(
    p: AggregationValue,
    bag: Multiset<RecordValue>,
    after: Multiset<RecordValue>,
    key: Seq<u8>,
) -> bool {
    forall|m: int|
        0 <= m < p.measures.len() ==> tally_of(p, (#[trigger] p.measures[m]).expression, after, key)
            == tally_of(p, p.measures[m].expression, bag, key) && forall|x: i64| #[trigger]
            value_counts(p, p.measures[m].expression, after, key)(x) == value_counts(
                p,
                p.measures[m].expression,
                bag,
                key,
            )(x)
}

/// The entries of a group that is the same in two relations are the same.
pub proof fn lemma_entries_same(
    p: AggregationValue,
    bag: Multiset<RecordValue>,
    after: Multiset<RecordValue>,
    key: Seq<u8>,
    prefixes: Prefixes,
    others: Prefixes,
)
    requires
        group_same(p, bag, after, key),
        forall|m: int| 0 <= m < p.measures.len() ==> #[trigger] others(key, m) == prefixes(key, m),
    ensures
        expected_entries(p, after, key, others) == expected_entries(p, bag, key, prefixes),
        forall|m: int, x: i64|
            0 <= m < p.measures.len() ==> #[trigger] counts_for(p, m, after, key)(x) == counts_for(
                p,
                m,
                bag,
                key,
            )(x),
{
    assert forall|m: int| 0 <= m < p.measures.len() implies (#[trigger] expected_entries(
        p,
        after,
        key,
        others,
    )[m]) == expected_entries(p, bag, key, prefixes)[m] by {
        let e = p.measures[m].expression;
        assert(p.measures[m].expression == e);
        assert(others(key, m) == prefixes(key, m));
        assert forall|x: i64| #[trigger]
            value_counts(p, e, after, key)(x) == value_counts(p, e, bag, key)(x) by {}
        lemma_extreme_of_same(value_counts(p, e, after, key), value_counts(p, e, bag, key), true);
        lemma_extreme_of_same(value_counts(p, e, after, key), value_counts(p, e, bag, key), false);
    }
    assert(expected_entries(p, after, key, others) =~= expected_entries(p, bag, key, prefixes));
    assert forall|m: int, x: i64| 0 <= m < p.measures.len() implies #[trigger] counts_for(
        p,
        m,
        after,
        key,
    )(x) == counts_for(p, m, bag, key)(x) by {
        let e = p.measures[m].expression;
        assert(p.measures[m].expression == e);
        assert(value_counts(p, e, after, key)(x) == value_counts(p, e, bag, key)(x));
    }
}

/// A row that comes to a group moves the measures of that group and leaves
/// the other groups.
pub proof fn lemma_insert_moves(p: AggregationValue, bag: Multiset<RecordValue>, new: RecordValue)
    requires
        group_key(p.dimensions, new) is Ok,
        countable(p, bag.insert(new)),
    ensures
        measures_move(
            p,
            AggregatorOperation::Insert,
            None,
            Some(new),
            bag,
            bag.insert(new),
            group_key(p.dimensions, new)->Ok_0,
        ),
        others_same(p, bag, bag.insert(new), group_key(p.dimensions, new)->Ok_0),
        group_rows(p, bag.insert(new), group_key(p.dimensions, new)->Ok_0) == group_rows(
            p,
            bag,
            group_key(p.dimensions, new)->Ok_0,
        ) + 1,
{
    let key = group_key(p.dimensions, new)->Ok_0;
    let op = AggregatorOperation::Insert;
    let after = bag.insert(new);
    lemma_group_rows_insert(p, bag, new, key);
    assert forall|m: int|
        0 <= m < p.measures.len() && operands(
            (#[trigger] p.measures[m]).expression,
            op,
            None,
            Some(new),
        ) is Ok implies measure_moves(p, op, None, Some(new), bag, after, key, m) by {
        let e = p.measures[m].expression;
        let (d, i) = operands(e, op, None, Some(new))->Ok_0;
        lemma_tally_insert(p, e, bag, key, new);
        assert forall|x: i64| #[trigger]
            value_counts(p, e, after, key)(x) == counts_after(
                value_counts(p, e, bag, key),
                op,
                d,
                i,
            )(x) by {
            lemma_value_counts_insert(p, e, bag, key, new, x);
        }
        match ordinal_of(i) {
            Some(x) => {
                lemma_value_counts_bound(p, e, bag, key, x);
                assert(group_rows(p, after, key) < 0x1_0000_0000_0000_0000);
            },
            None => {},
        }
    }
    assert forall|other: Seq<u8>| other != key implies #[trigger] group_rows(p, after, other)
        == group_rows(p, bag, other) && group_same(p, bag, after, other) by {
        lemma_group_rows_insert(p, bag, new, other);
        assert forall|m: int| 0 <= m < p.measures.len() implies tally_of(
            p,
            (#[trigger] p.measures[m]).expression,
            after,
            other,
        ) == tally_of(p, p.measures[m].expression, bag, other) && forall|x: i64| #[trigger]
            value_counts(p, p.measures[m].expression, after, other)(x) == value_counts(
                p,
                p.measures[m].expression,
                bag,
                other,
            )(x) by {
            let e = p.measures[m].expression;
            lemma_tally_insert(p, e, bag, other, new);
            assert forall|x: i64| #[trigger]
                value_counts(p, e, after, other)(x) == value_counts(p, e, bag, other)(x) by {
                lemma_value_counts_insert(p, e, bag, other, new, x);
            }
        }
    }
}

/// A row that goes from a group moves the measures of that group and
/// leaves the other groups.
pub proof fn lemma_delete_moves(
    p: AggregationValue,
    bag: Multiset<RecordValue>,
    old_record: RecordValue,
)
    requires
        group_key(p.dimensions, old_record) is Ok,
        bag.contains(old_record),
    ensures
        measures_move(
            p,
            AggregatorOperation::Delete,
            Some(old_record),
            None,
            bag,
            bag.remove(old_record),
            group_key(p.dimensions, old_record)->Ok_0,
        ),
        others_same(p, bag, bag.remove(old_record), group_key(p.dimensions, old_record)->Ok_0),
        group_rows(p, bag, group_key(p.dimensions, old_record)->Ok_0) == group_rows(
            p,
            bag.remove(old_record),
            group_key(p.dimensions, old_record)->Ok_0,
        ) + 1,
{
    let key = group_key(p.dimensions, old_record)->Ok_0;
    let op = AggregatorOperation::Delete;
    let after = bag.remove(old_record);
    lemma_group_rows_remove(p, bag, old_record, key);
    assert forall|m: int|
        0 <= m < p.measures.len() && operands(
            (#[trigger] p.measures[m]).expression,
            op,
            Some(old_record),
            None,
        ) is Ok implies measure_moves(p, op, Some(old_record), None, bag, after, key, m) by {
        let e = p.measures[m].expression;
        let (d, i) = operands(e, op, Some(old_record), None)->Ok_0;
        lemma_tally_remove(p, e, bag, key, old_record);
        assert forall|x: i64| #[trigger]
            value_counts(p, e, after, key)(x) == counts_after(
                value_counts(p, e, bag, key),
                op,
                d,
                i,
            )(x) by {
            lemma_value_counts_remove(p, e, bag, key, old_record, x);
        }
        match ordinal_of(d) {
            Some(x) => {
                lemma_value_counts_remove(p, e, bag, key, old_record, x);
            },
            None => {},
        }
    }
    assert forall|other: Seq<u8>| other != key implies #[trigger] group_rows(p, after, other)
        == group_rows(p, bag, other) && group_same(p, bag, after, other) by {
        lemma_group_rows_remove(p, bag, old_record, other);
        assert forall|m: int| 0 <= m < p.measures.len() implies tally_of(
            p,
            (#[trigger] p.measures[m]).expression,
            after,
            other,
        ) == tally_of(p, p.measures[m].expression, bag, other) && forall|x: i64| #[trigger]
            value_counts(p, p.measures[m].expression, after, other)(x) == value_counts(
                p,
                p.measures[m].expression,
                bag,
                other,
            )(x) by {
            let e = p.measures[m].expression;
            lemma_tally_remove(p, e, bag, other, old_record);
            assert forall|x: i64| #[trigger]
                value_counts(p, e, after, other)(x) == value_counts(p, e, bag, other)(x) by {
                lemma_value_counts_remove(p, e, bag, other, old_record, x);
            }
        }
    }
}

/// A row that changes within its group moves the measures of that group
/// and leaves the other groups.
pub proof fn lemma_update_moves(
    p: AggregationValue,
    bag: Multiset<RecordValue>,
    old_record: RecordValue,
    new: RecordValue,
)
    requires
        group_key(p.dimensions, old_record) is Ok,
        group_key(p.dimensions, old_record) == group_key(p.dimensions, new),
        bag.contains(old_record),
        countable(p, bag),
    ensures
        measures_move(
            p,
            AggregatorOperation::Update,
            Some(old_record),
            Some(new),
            bag,
            bag.remove(old_record).insert(new),
            group_key(p.dimensions, old_record)->Ok_0,
        ),
        others_same(
            p,
            bag,
            bag.remove(old_record).insert(new),
            group_key(p.dimensions, old_record)->Ok_0,
        ),
        group_rows(p, bag.remove(old_record).insert(new), group_key(p.dimensions, new)->Ok_0)
            == group_rows(p, bag, group_key(p.dimensions, new)->Ok_0),
        group_rows(p, bag, group_key(p.dimensions, new)->Ok_0) > 0,
{
    let key = group_key(p.dimensions, old_record)->Ok_0;
    let op = AggregatorOperation::Update;
    let rest = bag.remove(old_record);
    let after = rest.insert(new);
    lemma_group_rows_remove(p, bag, old_record, key);
    lemma_group_rows_insert(p, rest, new, key);
    assert forall|m: int|
        0 <= m < p.measures.len() && operands(
            (#[trigger] p.measures[m]).expression,
            op,
            Some(old_record),
            Some(new),
        ) is Ok implies measure_moves(p, op, Some(old_record), Some(new), bag, after, key, m) by {
        let e = p.measures[m].expression;
        let (d, i) = operands(e, op, Some(old_record), Some(new))->Ok_0;
        lemma_tally_remove(p, e, bag, key, old_record);
        lemma_tally_insert(p, e, rest, key, new);
        assert forall|x: i64| #[trigger]
            value_counts(p, e, after, key)(x) == counts_after(
                value_counts(p, e, bag, key),
                op,
                d,
                i,
            )(x) by {
            lemma_value_counts_remove(p, e, bag, key, old_record, x);
            lemma_value_counts_insert(p, e, rest, key, new, x);
        }
        match ordinal_of(d) {
            Some(x) => {
                lemma_value_counts_remove(p, e, bag, key, old_record, x);
            },
            None => {},
        }
        match ordinal_of(i) {
            Some(x) => {
                lemma_value_counts_remove(p, e, bag, key, old_record, x);
                lemma_value_counts_bound(p, e, rest, key, x);
                assert(group_rows(p, bag, key) < 0x1_0000_0000_0000_0000);
            },
            None => {},
        }
    }
    assert forall|other: Seq<u8>| other != key implies #[trigger] group_rows(p, after, other)
        == group_rows(p, bag, other) && group_same(p, bag, after, other) by {
        lemma_group_rows_remove(p, bag, old_record, other);
        lemma_group_rows_insert(p, rest, new, other);
        assert forall|m: int| 0 <= m < p.measures.len() implies tally_of(
            p,
            (#[trigger] p.measures[m]).expression,
            after,
            other,
        ) == tally_of(p, p.measures[m].expression, bag, other) && forall|x: i64| #[trigger]
            value_counts(p, p.measures[m].expression, after, other)(x) == value_counts(
                p,
                p.measures[m].expression,
                bag,
                other,
            )(x) by {
            let e = p.measures[m].expression;
            lemma_tally_remove(p, e, bag, other, old_record);
            lemma_tally_insert(p, e, rest, other, new);
            assert forall|x: i64| #[trigger]
                value_counts(p, e, after, other)(x) == value_counts(p, e, bag, other)(x) by {
                lemma_value_counts_remove(p, e, bag, other, old_record, x);
                lemma_value_counts_insert(p, e, rest, other, new, x);
            }
        }
    }
}

/// What the measures make of a change of the rows of a group that has
/// rows: the values of the group over the relation before and over the
/// relation after go into the output, the state of the group over the
/// relation after is written, and the database of the aggregators holds the
/// counts of the relation after.
proof fn lemma_change_of_group(
    p: AggregationValue,
    op: AggregatorOperation,
    deleted: Option<RecordValue>,
    inserted: Option<RecordValue>,
    bag: Multiset<RecordValue>,
    after: Multiset<RecordValue>,
    key: Seq<u8>,
    prefixes: Prefixes,
    tables: Seq<TableValue>,
)
    requires
        tables.len() <= usize::MAX,
        bags_consistent(p, tables, bag, prefixes),
        group_rows(p, bag, key) > 0,
        measures_move(p, op, deleted, inserted, bag, after, key),
        others_same(p, bag, after, key),
        measures_fold(
            p,
            op,
            Some(group_bytes(expected_entries(p, bag, key, prefixes))),
            deleted,
            inserted,
            p.measures.len(),
            start_of_measures(tables, p.width),
        ) is Ok,
    ensures
        ({
            let pr = measures_fold(
                p,
                op,
                Some(group_bytes(expected_entries(p, bag, key, prefixes))),
                deleted,
                inserted,
                p.measures.len(),
                start_of_measures(tables, p.width),
            )->Ok_0;
            &&& pr.out_delete == group_values(p, bag, key)
            &&& pr.out_insert == group_values(p, after, key)
            &&& pr.next_state == group_bytes(expected_entries(p, after, key, prefixes))
            &&& same_but_store(p, tables, pr.tables)
            &&& bags_consistent(p, pr.tables, after, prefixes)
        }),
{
    let n = p.measures.len();
    let store = p.aggregators_db->Some_0;
    let meta = p.meta_db->Some_0;
    let entries = expected_entries(p, bag, key, prefixes);
    let now = expected_entries(p, after, key, prefixes);
    lemma_expected_storable(p, bag, key, prefixes);
    lemma_measures_of_group(p, op, deleted, inserted, entries, tables, n);
    assert forall|m: int|
        #![trigger prefixes(key, m)]
        0 <= m < p.measures.len() implies bag_at(
        tables[store.id as int],
        prefixes(key, m),
        counts_for(p, m, bag, key),
    ) by {
        assert(measure_in_use(p, bag, key, m));
    }
    assert forall|a: int, b: int|
        #![trigger prefixes(key, a), prefixes(key, b)]
        0 <= a < p.measures.len() && 0 <= b < p.measures.len() && prefixes(key, a) == prefixes(
            key,
            b,
        ) implies a == b by {
        assert(measure_in_use(p, bag, key, a) && measure_in_use(p, bag, key, b));
    }
    lemma_stepped_expected(p, op, deleted, inserted, bag, after, key, prefixes, tables, n);
    let (changed, t) = stepped_entries(p, op, deleted, inserted, entries, tables, n)->Ok_0;
    assert(now.take(n as int) =~= now);
    lemma_group_values(p, bag, key, entries);
    lemma_group_values(p, after, key, now);
    assert(t[meta.id as int] == tables[meta.id as int]);
    assert forall|k: Seq<u8>, m: int|
        #![trigger prefixes(k, m)]
        measure_in_use(p, after, k, m) implies bag_at(
        t[store.id as int],
        prefixes(k, m),
        counts_for(p, m, after, k),
    ) && prefixes(k, m) <= counter_of(t, meta) by {
        if k == key {
            assert(measure_in_use(p, bag, key, m));
        } else {
            assert(group_rows(p, after, k) == group_rows(p, bag, k));
            assert(measure_in_use(p, bag, k, m));
            assert forall|j: int| 0 <= j < n implies (#[trigger] entries[j]).prefix != prefixes(
                k,
                m,
            ) by {
                assert(measure_in_use(p, bag, key, j));
                assert(entries[j].prefix == prefixes(key, j));
            }
            lemma_stepped_elsewhere(
                p,
                op,
                deleted,
                inserted,
                entries,
                tables,
                n,
                prefixes(k, m),
                counts_for(p, m, bag, k),
            );
            assert(group_same(p, bag, after, k));
            lemma_entries_same(p, bag, after, k, prefixes, prefixes);
            lemma_bag_at_same(
                t[store.id as int],
                prefixes(k, m),
                counts_for(p, m, bag, k),
                counts_for(p, m, after, k),
            );
        }
    }
    assert forall|k1: Seq<u8>, m1: int, k2: Seq<u8>, m2: int|
        #![trigger prefixes(k1, m1), prefixes(k2, m2)]
        measure_in_use(p, after, k1, m1) && measure_in_use(p, after, k2, m2) && prefixes(k1, m1)
            == prefixes(k2, m2) implies k1 == k2 && m1 == m2 by {
        assert(group_rows(p, after, k1) > 0 ==> group_rows(p, bag, k1) > 0);
        assert(group_rows(p, after, k2) > 0 ==> group_rows(p, bag, k2) > 0);
        assert(measure_in_use(p, bag, k1, m1) && measure_in_use(p, bag, k2, m2));
    }
    assert forall|prefix: u32| prefix > counter_of(t, meta) implies #[trigger] unused_prefix(
        t[store.id as int],
        prefix,
    ) by {
        assert(unused_prefix(tables[store.id as int], prefix));
        assert forall|j: int| 0 <= j < n implies (#[trigger] entries[j]).prefix != prefix by {
            assert(measure_in_use(p, bag, key, j));
            assert(entries[j].prefix == prefixes(key, j));
        }
        lemma_stepped_elsewhere(
            p,
            op,
            deleted,
            inserted,
            entries,
            tables,
            n,
            prefix,
            |i: i64| 0nat,
        );
    }
}

/// What the measures make of the first row of a group: its prefixes are
/// those that follow the counter; the values of the group over the
/// relation with the row go into the output, the state of the group is
/// written, and the database of the aggregators holds the counts of the
/// relation with the row.
proof fn lemma_new_group(
    p: AggregationValue,
    new: RecordValue,
    bag: Multiset<RecordValue>,
    key: Seq<u8>,
    prefixes: Prefixes,
    tables: Seq<TableValue>,
) -> (others: Prefixes)
    requires
        tables.len() <= usize::MAX,
        bags_consistent(p, tables, bag, prefixes),
        group_rows(p, bag, key) == 0,
        group_rows(p, bag.insert(new), key) > 0,
        measures_move(p, AggregatorOperation::Insert, None, Some(new), bag, bag.insert(new), key),
        others_same(p, bag, bag.insert(new), key),
        measures_fold(
            p,
            AggregatorOperation::Insert,
            None,
            None,
            Some(new),
            p.measures.len(),
            start_of_measures(tables, p.width),
        ) is Ok,
    ensures
        ({
            let pr = measures_fold(
                p,
                AggregatorOperation::Insert,
                None,
                None,
                Some(new),
                p.measures.len(),
                start_of_measures(tables, p.width),
            )->Ok_0;
            &&& pr.out_insert == group_values(p, bag.insert(new), key)
            &&& pr.next_state == group_bytes(expected_entries(p, bag.insert(new), key, others))
            &&& same_but_store_and_counter(p, tables, pr.tables)
            &&& bags_consistent(p, pr.tables, bag.insert(new), others)
            &&& forall|k: Seq<u8>, m: int| k != key ==> #[trigger] others(k, m) == prefixes(k, m)
        }),
{
    let op = AggregatorOperation::Insert;
    let n = p.measures.len();
    let store = p.aggregators_db->Some_0;
    let meta = p.meta_db->Some_0;
    let after = bag.insert(new);
    let first = counter_of(tables, meta) + 1;
    let others = |k: Seq<u8>, m: int|
        if k == key {
            (first + m) as u32
        } else {
            prefixes(k, m)
        };
    lemma_measures_of_new_group(p, op, None, Some(new), tables, n);
    lemma_created_expected(p, new, bag, key, tables, n);
    let (created, t) = created_entries(p, op, None, Some(new), tables, n)->Ok_0;
    assert forall|j: int| 0 <= j < n implies (#[trigger] created[j]) == expected_entries(
        p,
        after,
        key,
        others,
    )[j] by {
        assert(others(key, j) == (first + j) as u32);
    }
    assert(created =~= expected_entries(p, after, key, others));
    lemma_group_values(p, after, key, created);
    assert forall|k: Seq<u8>, m: int|
        #![trigger others(k, m)]
        measure_in_use(p, after, k, m) implies bag_at(
        t[store.id as int],
        others(k, m),
        counts_for(p, m, after, k),
    ) && others(k, m) <= counter_of(t, meta) by {
        if k == key {
            assert(others(key, m) == (first + m) as u32);
            assert(bag_at(t[store.id as int], (first + m) as u32, counts_for(p, m, after, key)));
        } else {
            assert(group_rows(p, after, k) == group_rows(p, bag, k));
            assert(measure_in_use(p, bag, k, m));
            assert(others(k, m) == prefixes(k, m));
            lemma_created_elsewhere(
                p,
                new,
                tables,
                n,
                prefixes(k, m),
                counts_for(p, m, bag, k),
            );
            assert(group_same(p, bag, after, k));
            lemma_entries_same(p, bag, after, k, prefixes, prefixes);
            lemma_bag_at_same(
                t[store.id as int],
                prefixes(k, m),
                counts_for(p, m, bag, k),
                counts_for(p, m, after, k),
            );
        }
    }
    assert forall|k1: Seq<u8>, m1: int, k2: Seq<u8>, m2: int|
        #![trigger others(k1, m1), others(k2, m2)]
        measure_in_use(p, after, k1, m1) && measure_in_use(p, after, k2, m2) && others(k1, m1)
            == others(k2, m2) implies k1 == k2 && m1 == m2 by {
        if k1 != key {
            assert(group_rows(p, after, k1) == group_rows(p, bag, k1));
            assert(measure_in_use(p, bag, k1, m1));
            assert(prefixes(k1, m1) <= counter_of(tables, meta));
        }
        if k2 != key {
            assert(group_rows(p, after, k2) == group_rows(p, bag, k2));
            assert(measure_in_use(p, bag, k2, m2));
            assert(prefixes(k2, m2) <= counter_of(tables, meta));
        }
        assert(others(key, m1) == (first + m1) as u32);
        assert(others(key, m2) == (first + m2) as u32);
    }
    assert forall|prefix: u32| prefix > counter_of(t, meta) implies #[trigger] unused_prefix(
        t[store.id as int],
        prefix,
    ) by {}
    others
}

/// Whether what the operator keeps is what the relation asks for: the
/// counts, the states of the groups with the given prefixes, and what the
/// aggregators have counted behind those prefixes. The database of the
/// groups is neither that of the prefix counter nor that of the
/// aggregators.
pub open spec fn consistent(
    p: AggregationValue,
    tables: Seq<TableValue>,
    db: Database,
    bag: Multiset<RecordValue>,
    prefixes: Prefixes,
) -> bool {
    &&& tables.len() <= usize::MAX
    &&& p.meta_db != Some(db)
    &&& p.aggregators_db != Some(db)
    &&& counts_consistent(p, tables, db, bag)
    &&& states_consistent(p, tables, db, bag, prefixes)
    &&& bags_consistent(p, tables, bag, prefixes)
}

/// The databases after the count of the group of a row has moved.
pub open spec fn counted_tables(
    p: AggregationValue,
    tables: Seq<TableValue>,
    db: Database,
    record: RecordValue,
    decr: bool,
) -> Seq<TableValue> {
    segment_count(
        tables,
        db,
        record_key(group_key(p.dimensions, record)->Ok_0, 1),
        1,
        decr,
    )->Ok_0.1
}

/// Moving the count of a group leaves the other databases and what is
/// under every state's key.
proof fn lemma_counted_frame(
    p: AggregationValue,
    tables: Seq<TableValue>,
    db: Database,
    record: RecordValue,
    decr: bool,
)
    requires
        db.id < tables.len(),
        !tables[db.id as int].dup_sort,
        group_key(p.dimensions, record) is Ok,
        segment_count(
            tables,
            db,
            record_key(group_key(p.dimensions, record)->Ok_0, 1),
            1,
            decr,
        ) is Ok,
    ensures
        counted_tables(p, tables, db, record, decr).len() == tables.len(),
        !counted_tables(p, tables, db, record, decr)[db.id as int].dup_sort,
        forall|x: int|
            0 <= x < tables.len() && x != db.id ==> #[trigger] counted_tables(
                p,
                tables,
                db,
                record,
                decr,
            )[x] == tables[x],
        forall|key: Seq<u8>|
            table_get(
                counted_tables(p, tables, db, record, decr)[db.id as int],
                #[trigger] record_key(key, 0),
            ) == table_get(tables[db.id as int], record_key(key, 0)),
{
    let hash = group_key(p.dimensions, record)->Ok_0;
    assert forall|key: Seq<u8>|
        table_get(
            counted_tables(p, tables, db, record, decr)[db.id as int],
            #[trigger] record_key(key, 0),
        ) == table_get(tables[db.id as int], record_key(key, 0)) by {
        if record_key(key, 0) == record_key(hash, 1) {
            lemma_record_key_injective(key, 0, hash, 1);
        }
    }
}

/// Writing the state of a group leaves the states of the other groups.
proof fn lemma_state_written(
    tables: Seq<TableValue>,
    db: Database,
    hash: Seq<u8>,
    bytes: Seq<u8>,
    key: Seq<u8>,
)
    requires
        db.id < tables.len(),
        !tables[db.id as int].dup_sort,
    ensures
        table_get(state_put(tables, db, record_key(hash, 0), bytes)[db.id as int], record_key(key, 0))
            == if key == hash {
            Some(bytes)
        } else {
            table_get(tables[db.id as int], record_key(key, 0))
        },
{
    if record_key(key, 0) == record_key(hash, 0) {
        lemma_record_key_injective(key, 0, hash, 0);
    }
}

/// Removing the state of a group leaves the states of the other groups.
proof fn lemma_state_removed(tables: Seq<TableValue>, db: Database, hash: Seq<u8>, key: Seq<u8>)
    requires
        db.id < tables.len(),
        !tables[db.id as int].dup_sort,
    ensures
        table_get(state_del(tables, db, record_key(hash, 0), None)[db.id as int], record_key(key, 0))
            == if key == hash {
            None
        } else {
            table_get(tables[db.id as int], record_key(key, 0))
        },
{
    if record_key(key, 0) == record_key(hash, 0) {
        lemma_record_key_injective(key, 0, hash, 0);
    }
}

/// What the aggregators have counted is the same in two lists of
/// databases that agree in the database of the aggregators and in that of
/// the prefix counter.
proof fn lemma_bags_frame(
    p: AggregationValue,
    tables: Seq<TableValue>,
    after: Seq<TableValue>,
    bag: Multiset<RecordValue>,
    prefixes: Prefixes,
)
    requires
        bags_consistent(p, tables, bag, prefixes),
        after.len() == tables.len(),
        after[p.aggregators_db->Some_0.id as int] == tables[p.aggregators_db->Some_0.id as int],
        after[p.meta_db->Some_0.id as int] == tables[p.meta_db->Some_0.id as int],
    ensures
        bags_consistent(p, after, bag, prefixes),
{
    let store = p.aggregators_db->Some_0;
    let meta = p.meta_db->Some_0;
    assert(counter_of(after, meta) == counter_of(tables, meta));
    assert forall|prefix: u32| prefix > counter_of(after, meta) implies #[trigger] unused_prefix(
        after[store.id as int],
        prefix,
    ) by {
        assert(unused_prefix(tables[store.id as int], prefix));
    }
}

/// Delta correctness for a row that comes: the operator emits the change
/// of the group's row from the relation before to the relation after, and
/// what it keeps is what the relation after asks for. The prefixes of the
/// groups that had rows stay; a group that the row founds gets new ones.
pub proof fn lemma_insert_is_delta_correct(
    p: AggregationValue,
    tables: Seq<TableValue>,
    db: Database,
    bag: Multiset<RecordValue>,
    new: RecordValue,
    prefixes: Prefixes,
) -> (others: Prefixes)
    requires
        consistent(p, tables, db, bag, prefixes),
        countable(p, bag.insert(new)),
        insert_outcome(p, tables, db, new) is Ok,
    ensures
        insert_outcome(p, tables, db, new)->Ok_0.0 == expected_insert(p, bag, new),
        consistent(p, insert_outcome(p, tables, db, new)->Ok_0.1, db, bag.insert(new), others),
{
    lemma_insert_keeps_counts(p, tables, db, bag, new);
    reveal(insert_outcome);
    let op = AggregatorOperation::Insert;
    let grown = bag.insert(new);
    let after = insert_outcome(p, tables, db, new)->Ok_0.1;
    let key = group_key(p.dimensions, new)->Ok_0;
    let counted = counted_tables(p, tables, db, new, false);
    let cur_state = group_state(counted, db, key)->Ok_0;
    let pr = measures_fold(
        p,
        op,
        cur_state,
        None,
        Some(new),
        p.measures.len(),
        start_of_measures(counted, p.width),
    )->Ok_0;
    lemma_counted_frame(p, tables, db, new, false);
    lemma_versioned(group_bytes(expected_entries(p, bag, key, prefixes)));
    assert(group_state(counted, db, key) == unversioned(
        table_get(tables[db.id as int], record_key(key, 0)),
    ));
    lemma_bags_frame(p, tables, counted, bag, prefixes);
    lemma_insert_moves(p, bag, new);
    assert(after == state_put(pr.tables, db, record_key(key, 0), versioned(pr.next_state)));
    let others = if group_rows(p, bag, key) > 0 {
        lemma_change_of_group(p, op, None, Some(new), bag, grown, key, prefixes, counted);
        prefixes
    } else {
        lemma_new_group(p, new, bag, key, prefixes, counted)
    };
    assert(pr.tables[db.id as int] == counted[db.id as int]);
    lemma_bags_frame(p, pr.tables, after, grown, others);
    assert forall|other: Seq<u8>| #[trigger] group_rows(p, grown, other) > 0 implies table_get(
        after[db.id as int],
        record_key(other, 0),
    ) == Some(versioned(group_bytes(expected_entries(p, grown, other, others)))) by {
        lemma_state_written(pr.tables, db, key, versioned(pr.next_state), other);
        if other != key {
            assert(group_rows(p, grown, other) == group_rows(p, bag, other));
            assert(group_same(p, bag, grown, other));
            lemma_entries_same(p, bag, grown, other, prefixes, others);
        }
    }
    others
}

/// Delta correctness for a row that goes: the operator emits the change of
/// the group's row from the relation before to the relation after, and
/// what it keeps is what the relation after asks for, with the prefixes
/// that the groups had.
pub proof fn lemma_delete_is_delta_correct(
    p: AggregationValue,
    tables: Seq<TableValue>,
    db: Database,
    bag: Multiset<RecordValue>,
    old_record: RecordValue,
    prefixes: Prefixes,
)
    requires
        consistent(p, tables, db, bag, prefixes),
        countable(p, bag),
        bag.contains(old_record),
        delete_outcome(p, tables, db, old_record) is Ok,
    ensures
        delete_outcome(p, tables, db, old_record)->Ok_0.0 == expected_delete(p, bag, old_record),
        consistent(
            p,
            delete_outcome(p, tables, db, old_record)->Ok_0.1,
            db,
            bag.remove(old_record),
            prefixes,
        ),
{
    lemma_delete_keeps_counts(p, tables, db, bag, old_record);
    reveal(delete_outcome);
    let op = AggregatorOperation::Delete;
    let rest = bag.remove(old_record);
    let after = delete_outcome(p, tables, db, old_record)->Ok_0.1;
    let key = group_key(p.dimensions, old_record)->Ok_0;
    let n = group_rows(p, bag, key);
    lemma_pow256_values();
    lemma_be_bytes_len(n, 8);
    lemma_be_value_of_bytes(n, 8);
    let counted = counted_tables(p, tables, db, old_record, true);
    let cur_state = group_state(counted, db, key)->Ok_0;
    let pr = measures_fold(
        p,
        op,
        cur_state,
        Some(old_record),
        None,
        p.measures.len(),
        start_of_measures(counted, p.width),
    )->Ok_0;
    lemma_counted_frame(p, tables, db, old_record, true);
    lemma_versioned(group_bytes(expected_entries(p, bag, key, prefixes)));
    assert(group_state(counted, db, key) == unversioned(
        table_get(tables[db.id as int], record_key(key, 0)),
    ));
    lemma_bags_frame(p, tables, counted, bag, prefixes);
    lemma_delete_moves(p, bag, old_record);
    lemma_change_of_group(p, op, Some(old_record), None, bag, rest, key, prefixes, counted);
    assert(pr.tables[db.id as int] == counted[db.id as int]);
    lemma_bags_frame(p, pr.tables, after, rest, prefixes);
    assert forall|other: Seq<u8>| #[trigger] group_rows(p, rest, other) > 0 implies table_get(
        after[db.id as int],
        record_key(other, 0),
    ) == Some(versioned(group_bytes(expected_entries(p, rest, other, prefixes)))) by {
        lemma_state_written(pr.tables, db, key, versioned(pr.next_state), other);
        lemma_state_removed(pr.tables, db, key, other);
        if other != key {
            assert(group_rows(p, rest, other) == group_rows(p, bag, other));
            assert(group_same(p, bag, rest, other));
            lemma_entries_same(p, bag, rest, other, prefixes, prefixes);
        }
    }
}

/// Delta correctness for a row that changes within its group: the
/// operator emits the update of the group's row from the relation before
/// to the relation after, and what it keeps is what the relation after
/// asks for, with the prefixes that the groups had.
pub proof fn lemma_update_is_delta_correct(
    p: AggregationValue,
    tables: Seq<TableValue>,
    db: Database,
    bag: Multiset<RecordValue>,
    old_record: RecordValue,
    new: RecordValue,
    prefixes: Prefixes,
)
    requires
        consistent(p, tables, db, bag, prefixes),
        countable(p, bag),
        bag.contains(old_record),
        group_key(p.dimensions, old_record) is Ok,
        group_key(p.dimensions, old_record) == group_key(p.dimensions, new),
        update_outcome(
            p,
            tables,
            db,
            old_record,
            new,
            group_key(p.dimensions, old_record)->Ok_0,
        ) is Ok,
    ensures
        ({
            let key = group_key(p.dimensions, old_record)->Ok_0;
            let moved = bag.remove(old_record).insert(new);
            let outcome = update_outcome(p, tables, db, old_record, new, key)->Ok_0;
            &&& outcome.0 == OperationValue::Update {
                old: group_row(p, bag, key, old_record),
                new: group_row(p, moved, key, new),
            }
            &&& consistent(p, outcome.1, db, moved, prefixes)
        }),
{
    lemma_update_keeps_counts(p, tables, db, bag, old_record, new);
    reveal(update_outcome);
    let op = AggregatorOperation::Update;
    let key = group_key(p.dimensions, old_record)->Ok_0;
    let moved = bag.remove(old_record).insert(new);
    let after = update_outcome(p, tables, db, old_record, new, key)->Ok_0.1;
    let cur_state = group_state(tables, db, key)->Ok_0;
    let pr = measures_fold(
        p,
        op,
        cur_state,
        Some(old_record),
        Some(new),
        p.measures.len(),
        start_of_measures(tables, p.width),
    )->Ok_0;
    lemma_versioned(group_bytes(expected_entries(p, bag, key, prefixes)));
    lemma_update_moves(p, bag, old_record, new);
    lemma_change_of_group(p, op, Some(old_record), Some(new), bag, moved, key, prefixes, tables);
    assert(pr.tables[db.id as int] == tables[db.id as int]);
    lemma_bags_frame(p, pr.tables, after, moved, prefixes);
    assert forall|other: Seq<u8>| #[trigger] group_rows(p, moved, other) > 0 implies table_get(
        after[db.id as int],
        record_key(other, 0),
    ) == Some(versioned(group_bytes(expected_entries(p, moved, other, prefixes)))) by {
        lemma_state_written(pr.tables, db, key, versioned(pr.next_state), other);
        if other != key {
            assert(group_rows(p, moved, other) == group_rows(p, bag, other));
            assert(group_same(p, bag, moved, other));
            lemma_entries_same(p, bag, moved, other, prefixes, prefixes);
        }
    }
}

/// Delta correctness of the aggregation: for every change of the input
/// that the operator takes in, what it emits is what the rows of the
/// groups over the relation before the change and over the relation after
/// it differ by, and the counts, the states and what the aggregators have
/// counted are those of the relation after the change, in which no group
/// has outgrown its count. The change must delete only what the relation
/// holds.
pub proof fn lemma_aggregate_is_delta_correct(
    p: AggregationValue,
    tables: Seq<TableValue>,
    db: Database,
    bag: Multiset<RecordValue>,
    op: OperationValue,
    prefixes: Prefixes,
) -> (others: Prefixes)
    requires
        consistent(p, tables, db, bag, prefixes),
        countable(p, bag),
        match op {
            OperationValue::Insert { new } => true,
            OperationValue::Delete { old } => bag.contains(old),
            OperationValue::Update { old, new } => bag.contains(old),
        },
        aggregate_outcome(p, tables, db, op) is Ok,
    ensures
        aggregate_outcome(p, tables, db, op)->Ok_0.0 == expected_changes(p, bag, op),
        consistent(
            p,
            aggregate_outcome(p, tables, db, op)->Ok_0.1,
            db,
            apply_operation(bag, op),
            others,
        ),
        countable(p, apply_operation(bag, op)),
{
    lemma_accepted_is_countable(p, tables, db, bag, op);
    match op {
        OperationValue::Insert { new } => lemma_insert_is_delta_correct(
            p,
            tables,
            db,
            bag,
            new,
            prefixes,
        ),
        OperationValue::Delete { old } => {
            lemma_delete_is_delta_correct(p, tables, db, bag, old, prefixes);
            prefixes
        },
        OperationValue::Update { old, new } => {
            if group_key(p.dimensions, old) == group_key(p.dimensions, new) {
                lemma_update_is_delta_correct(p, tables, db, bag, old, new, prefixes);
                prefixes
            } else {
                lemma_delete_is_delta_correct(p, tables, db, bag, old, prefixes);
                lemma_accepted_is_countable(
                    p,
                    tables,
                    db,
                    bag,
                    OperationValue::Delete { old },
                );
                let between = delete_outcome(p, tables, db, old)->Ok_0.1;
                lemma_insert_is_delta_correct(p, between, db, bag.remove(old), new, prefixes)
            }
        },
    }
}

/// Before any change what the operator keeps is what the empty relation
/// asks for, whatever the prefixes: the database of the groups and that
/// of the aggregators hold nothing, and the prefix counter can be read.
pub proof fn lemma_empty_consistent(
    p: AggregationValue,
    tables: Seq<TableValue>,
    db: Database,
    prefixes: Prefixes,
)
    requires
        tables.len() <= usize::MAX,
        p.meta_db is Some,
        p.aggregators_db is Some,
        p.meta_db != Some(db),
        p.aggregators_db != Some(db),
        p.meta_db != p.aggregators_db,
        db.id < tables.len(),
        p.meta_db->Some_0.id < tables.len(),
        p.aggregators_db->Some_0.id < tables.len(),
        !tables[db.id as int].dup_sort,
        !tables[p.meta_db->Some_0.id as int].dup_sort,
        !tables[p.aggregators_db->Some_0.id as int].dup_sort,
        tables[db.id as int].data == Map::<Seq<u8>, Values>::empty(),
        tables[p.aggregators_db->Some_0.id as int].data == Map::<Seq<u8>, Values>::empty(),
        counter_value(table_get(tables[p.meta_db->Some_0.id as int], seq![1u8])) is Ok,
    ensures
        consistent(p, tables, db, Multiset::empty(), prefixes),
        countable(p, Multiset::empty()),
{
    broadcast use group_multiset_axioms;

    lemma_empty_counts(p, tables, db);
    assert forall|key: Seq<u8>| #[trigger] group_rows(p, Multiset::empty(), key) == 0 by {
        let f = |r: RecordValue|
            group_key(p.dimensions, r) == Ok::<Seq<u8>, PipelineErrorValue>(key);
        assert(Multiset::<RecordValue>::empty().filter(f) =~= Multiset::<RecordValue>::empty());
    }
    let store = p.aggregators_db->Some_0;
    assert(tables[store.id as int].data.dom() =~= Set::<Seq<u8>>::empty());
}

/// The databases of an environment in which those of the operator have
/// just been opened, and no others.
pub open spec fn opened_tables() -> Seq<TableValue> {
    state_open(
        state_open(state_open(Seq::<TableValue>::empty(), "aggr"@, false), "aggr_data"@, false),
        "meta"@,
        false,
    )
}

/// Whether the databases of the operator are those that it opens in an
/// environment that had none.
pub open spec fn opened_first(p: AggregationValue) -> bool {
    let none = Seq::<TableValue>::empty();
    &&& p.db == Some(handle_of(none, "aggr"@))
    &&& p.aggregators_db == Some(handle_of(state_open(none, "aggr"@, false), "aggr_data"@))
    &&& p.meta_db == Some(
        handle_of(state_open(state_open(none, "aggr"@, false), "aggr_data"@, false), "meta"@),
    )
}

/// An operator that has opened its databases in an environment that had
/// none keeps what the empty relation asks for.
pub proof fn lemma_opened_consistent(p: AggregationValue, prefixes: Prefixes)
    requires
        opened_first(p),
    ensures
        consistent(p, opened_tables(), p.db->Some_0, Multiset::empty(), prefixes),
        countable(p, Multiset::empty()),
{
    reveal_strlit("aggr");
    reveal_strlit("aggr_data");
    reveal_strlit("meta");
    reveal_with_fuel(index_of_name, 4);
    let none = Seq::<TableValue>::empty();
    let one = state_open(none, "aggr"@, false);
    let two = state_open(one, "aggr_data"@, false);
    let three = state_open(two, "meta"@, false);
    assert("aggr"@.len() != "aggr_data"@.len());
    assert("aggr"@[0] != "meta"@[0]);
    assert("aggr_data"@.len() != "meta"@.len());
    assert(one =~= seq![TableValue { name: "aggr"@, dup_sort: false, data: Map::empty() }]);
    assert(one.drop_last() =~= none);
    assert(index_of_name(one, "aggr_data"@) is None);
    assert(two =~= seq![
        TableValue { name: "aggr"@, dup_sort: false, data: Map::empty() },
        TableValue { name: "aggr_data"@, dup_sort: false, data: Map::empty() },
    ]);
    assert(two.drop_last() =~= one);
    assert(index_of_name(two, "meta"@) is None);
    assert(three =~= seq![
        TableValue { name: "aggr"@, dup_sort: false, data: Map::empty() },
        TableValue { name: "aggr_data"@, dup_sort: false, data: Map::empty() },
        TableValue { name: "meta"@, dup_sort: false, data: Map::empty() },
    ]);
    assert(p.db == Some(Database { id: 0 }));
    assert(p.aggregators_db == Some(Database { id: 1 }));
    assert(p.meta_db == Some(Database { id: 2 }));
    lemma_empty_consistent(p, three, p.db->Some_0, prefixes);
}

} // verus!
