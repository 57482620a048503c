//! The result of the aggregation over a relation, group by group, and how
//! the changes that the operator emits lead from the result over the
//! relation before a change to the result over the relation after it.

use vstd::multiset::*;
use vstd::prelude::*;
use crate::aggregation::counts::{
    countable,
    counts_consistent,
    group_rows,
    lemma_group_rows_insert,
    lemma_group_rows_remove,
};
use crate::aggregation::aggregator::AggregatorOperation;
use crate::aggregation::processor::{
    aggregate_outcome,
    change_encodable,
    delete_outcome,
    dimensions_encodable,
    encoded_dimensions,
    filled_dimensions,
    group_key,
    group_state,
    insert_outcome,
    measures_fold,
    record_key,
    segment_count,
    start_of_measures,
    update_outcome,
    AggregationValue,
    DimensionValue,
    Progress,
};
use crate::aggregation::tally::{
    in_group,
    lemma_tally_insert,
    lemma_tally_remove,
    lemma_value_counts_insert,
    lemma_value_counts_remove,
    tally_of,
    value_counts,
};
use crate::aggregation::view::{
    consistent,
    lemma_opened_consistent,
    opened_first,
    opened_tables,
    expected_changes,
    expected_delete,
    expected_insert,
    group_row,
    group_same,
    group_values,
    lemma_aggregate_is_delta_correct,
    lemma_entries_same,
    Prefixes,
};
use crate::codec::{encodable, encode_field, lemma_encoding_is_prefix_free};
use crate::errors::PipelineErrorValue;
use crate::expression::execution::eval;
use crate::relation::{
    apply_operation,
    apply_operations,
    fit_keyed,
    fits_keyed,
    keyed_after,
    keyed_after_all,
};
use crate::storage::{Database, TableValue};
use crate::types::{FieldValue, OperationValue, RecordValue};

verus! {

/// The encodings of values, one after the other.
pub open spec fn concatenated(values: Seq<FieldValue>) -> Seq<u8>
    decreases values.len(),
{
    if values.len() == 0 {
        Seq::empty()
    } else {
        encode_field(values[0]) + concatenated(values.drop_first())
    }
}

/// What the first `n` dimensions give on a record.
pub open spec fn dimension_values(dimensions: Seq<DimensionValue>, record: RecordValue, n: nat) -> Seq<
    FieldValue,
> {
    Seq::new(n, |i: int| eval(dimensions[i].expression, record)->Ok_0)
}

proof fn lemma_concatenated_push(values: Seq<FieldValue>, v: FieldValue)
    ensures
        concatenated(values.push(v)) == concatenated(values) + encode_field(v),
    decreases values.len(),
{
    if values.len() == 0 {
        assert(values.push(v).drop_first() =~= Seq::<FieldValue>::empty());
        assert(concatenated(values.push(v).drop_first()) =~= Seq::<u8>::empty());
        assert(values.push(v)[0] == v);
        assert(concatenated(values.push(v)) =~= concatenated(values) + encode_field(v));
    } else {
        lemma_concatenated_push(values.drop_first(), v);
        assert(values.push(v).drop_first() =~= values.drop_first().push(v));
        assert(concatenated(values.push(v)) =~= concatenated(values) + encode_field(v));
    }
}

/// The key of a group is the encodings of what the dimensions give.
proof fn lemma_key_is_concatenated(
    dimensions: Seq<DimensionValue>,
    record: RecordValue,
    n: nat,
)
    requires
        encoded_dimensions(dimensions, record, n) is Ok,
    ensures
        encoded_dimensions(dimensions, record, n)->Ok_0 == concatenated(
            dimension_values(dimensions, record, n),
        ),
        forall|i: int| 0 <= i < n ==> (#[trigger] eval(dimensions[i].expression, record)) is Ok,
    decreases n,
{
    if n > 0 {
        let k = (n - 1) as nat;
        lemma_key_is_concatenated(dimensions, record, k);
        let v = eval(dimensions[k as int].expression, record)->Ok_0;
        lemma_concatenated_push(dimension_values(dimensions, record, k), v);
        assert(dimension_values(dimensions, record, n) =~= dimension_values(
            dimensions,
            record,
            k,
        ).push(v));
    }
}

/// Values with the same encodings, one after the other, are the same
/// values.
proof fn lemma_concatenated_injective(a: Seq<FieldValue>, b: Seq<FieldValue>)
    requires
        a.len() == b.len(),
        concatenated(a) == concatenated(b),
        forall|i: int| 0 <= i < a.len() ==> encodable(#[trigger] a[i]),
        forall|i: int| 0 <= i < b.len() ==> encodable(#[trigger] b[i]),
    ensures
        a == b,
    decreases a.len(),
{
    if a.len() > 0 {
        lemma_encoding_is_prefix_free(
            a[0],
            concatenated(a.drop_first()),
            b[0],
            concatenated(b.drop_first()),
        );
        assert forall|i: int| 0 <= i < a.drop_first().len() implies encodable(
            #[trigger] a.drop_first()[i],
        ) by {
            assert(a.drop_first()[i] == a[i + 1]);
        }
        assert forall|i: int| 0 <= i < b.drop_first().len() implies encodable(
            #[trigger] b.drop_first()[i],
        ) by {
            assert(b.drop_first()[i] == b[i + 1]);
        }
        lemma_concatenated_injective(a.drop_first(), b.drop_first());
        assert(a =~= seq![a[0]] + a.drop_first());
        assert(b =~= seq![b[0]] + b.drop_first());
    } else {
        assert(a =~= b);
    }
}

/// The rows of a group agree on every dimension.
pub proof fn lemma_rows_of_a_group_agree(
    p: AggregationValue,
    key: Seq<u8>,
    a: RecordValue,
    b: RecordValue,
)
    requires
        in_group(p, a, key),
        in_group(p, b, key),
        dimensions_encodable(p, a),
        dimensions_encodable(p, b),
    ensures
        forall|i: int|
            0 <= i < p.dimensions.len() ==> (#[trigger] eval(p.dimensions[i].expression, a)) is Ok
                && eval(p.dimensions[i].expression, a) == eval(p.dimensions[i].expression, b),
{
    let n = p.dimensions.len();
    if n > 0 {
        lemma_key_is_concatenated(p.dimensions, a, n);
        lemma_key_is_concatenated(p.dimensions, b, n);
        let va = dimension_values(p.dimensions, a, n);
        let vb = dimension_values(p.dimensions, b, n);
        assert forall|i: int| 0 <= i < n implies encodable(#[trigger] va[i]) by {
            assert(encodable(eval(p.dimensions[i].expression, a)->Ok_0));
        }
        assert forall|i: int| 0 <= i < n implies encodable(#[trigger] vb[i]) by {
            assert(encodable(eval(p.dimensions[i].expression, b)->Ok_0));
        }
        lemma_concatenated_injective(va, vb);
        assert forall|i: int| 0 <= i < n implies (#[trigger] eval(
            p.dimensions[i].expression,
            a,
        )) is Ok && eval(p.dimensions[i].expression, a) == eval(p.dimensions[i].expression, b) by {
            assert(va[i] == vb[i]);
        }
    }
}

/// The dimensions fill an output record alike from every row of a group.
pub proof fn lemma_dimensions_of_a_group(
    p: AggregationValue,
    key: Seq<u8>,
    a: RecordValue,
    b: RecordValue,
    values: Seq<FieldValue>,
    n: nat,
)
    requires
        n <= p.dimensions.len(),
        in_group(p, a, key),
        in_group(p, b, key),
        dimensions_encodable(p, a),
        dimensions_encodable(p, b),
    ensures
        filled_dimensions(p.dimensions, a, values, n) is Ok,
        filled_dimensions(p.dimensions, a, values, n) == filled_dimensions(
            p.dimensions,
            b,
            values,
            n,
        ),
    decreases n,
{
    lemma_rows_of_a_group_agree(p, key, a, b);
    if n > 0 {
        lemma_dimensions_of_a_group(p, key, a, b, values, (n - 1) as nat);
        assert(eval(p.dimensions[n - 1].expression, a) is Ok);
    }
}

/// A row of the group with the key, where the group has rows.
pub open spec fn row_of_group(p: AggregationValue, bag: Multiset<RecordValue>, key: Seq<u8>) -> RecordValue {
    choose|r: RecordValue| bag.contains(r) && in_group(p, r, key)
}

/// The result of the aggregation over a relation: for every group with
/// rows the row of the group, under the key of the group.
pub open spec fn query_result(p: AggregationValue, bag: Multiset<RecordValue>) -> Map<
    Seq<u8>,
    RecordValue,
> {
    Map::new(
        |key: Seq<u8>| group_rows(p, bag, key) > 0,
        |key: Seq<u8>| group_row(p, bag, key, row_of_group(p, bag, key)),
    )
}

/// Whether what the dimensions give on every row of a relation can be
/// encoded.
pub open spec fn relation_encodable(p: AggregationValue, bag: Multiset<RecordValue>) -> bool {
    forall|r: RecordValue| bag.contains(r) ==> #[trigger] dimensions_encodable(p, r)
}

/// A group with rows has a row.
proof fn lemma_group_has_row(p: AggregationValue, bag: Multiset<RecordValue>, key: Seq<u8>)
    requires
        group_rows(p, bag, key) > 0,
    ensures
        bag.contains(row_of_group(p, bag, key)),
        in_group(p, row_of_group(p, bag, key), key),
{
    broadcast use group_multiset_axioms;

    let f = |r: RecordValue| group_key(p.dimensions, r) == Ok::<Seq<u8>, PipelineErrorValue>(key);
    let filtered = bag.filter(f);
    let r = filtered.choose();
    assert(filtered.len() > 0);
    assert(filtered.count(r) > 0) by {
        axiom_choose_count(filtered);
    }
    assert(bag.contains(r) && in_group(p, r, key));
}

/// The row of a group over a relation is the same from whichever row of
/// the group the dimensions are taken.
pub proof fn lemma_group_row_from_any_row(
    p: AggregationValue,
    bag: Multiset<RecordValue>,
    key: Seq<u8>,
    a: RecordValue,
    b: RecordValue,
)
    requires
        in_group(p, a, key),
        in_group(p, b, key),
        dimensions_encodable(p, a),
        dimensions_encodable(p, b),
    ensures
        group_row(p, bag, key, a) == group_row(p, bag, key, b),
{
    lemma_dimensions_of_a_group(p, key, a, b, group_values(p, bag, key), p.dimensions.len());
}

/// The values of the measures of a group are the same in two relations in
/// which the group is the same.
proof fn lemma_group_values_same(
    p: AggregationValue,
    bag: Multiset<RecordValue>,
    other: Multiset<RecordValue>,
    key: Seq<u8>,
)
    requires
        group_same(p, other, bag, key),
    ensures
        group_values(p, bag, key) == group_values(p, other, key),
{
    let zero = |k: Seq<u8>, m: int| 0u32;
    lemma_entries_same(p, other, bag, key, zero, zero);
}

/// A group that is the same in a first and a second relation, and in the
/// second and a third, is the same in the first and the third.
proof fn lemma_groups_same(
    p: AggregationValue,
    a: Multiset<RecordValue>,
    b: Multiset<RecordValue>,
    c: Multiset<RecordValue>,
    key: Seq<u8>,
)
    requires
        group_same(p, a, b, key),
        group_same(p, b, c, key),
    ensures
        group_same(p, a, c, key),
{
    assert forall|m: int| 0 <= m < p.measures.len() implies tally_of(
        p,
        (#[trigger] p.measures[m]).expression,
        c,
        key,
    ) == tally_of(p, p.measures[m].expression, a, key) && forall|x: i64| #[trigger]
        value_counts(p, p.measures[m].expression, c, key)(x) == value_counts(
            p,
            p.measures[m].expression,
            a,
            key,
        )(x) by {
        let e = p.measures[m].expression;
        assert forall|x: i64| #[trigger]
            value_counts(p, e, c, key)(x) == value_counts(p, e, a, key)(x) by {
            assert(value_counts(p, e, c, key)(x) == value_counts(p, e, b, key)(x));
        }
    }
}

/// A row that comes to a group or goes from it leaves every other group
/// the same.
proof fn lemma_other_group_same(
    p: AggregationValue,
    bag: Multiset<RecordValue>,
    r: RecordValue,
    other: Seq<u8>,
)
    requires
        !in_group(p, r, other),
    ensures
        group_same(p, bag, bag.insert(r), other),
        bag.contains(r) ==> group_same(p, bag, bag.remove(r), other),
{
    assert forall|m: int| 0 <= m < p.measures.len() implies tally_of(
        p,
        (#[trigger] p.measures[m]).expression,
        bag.insert(r),
        other,
    ) == tally_of(p, p.measures[m].expression, bag, other) && forall|x: i64| #[trigger]
        value_counts(p, p.measures[m].expression, bag.insert(r), other)(x) == value_counts(
            p,
            p.measures[m].expression,
            bag,
            other,
        )(x) by {
        let e = p.measures[m].expression;
        lemma_tally_insert(p, e, bag, other, r);
        assert forall|x: i64| #[trigger]
            value_counts(p, e, bag.insert(r), other)(x) == value_counts(p, e, bag, other)(x) by {
            lemma_value_counts_insert(p, e, bag, other, r, x);
        }
    }
    if bag.contains(r) {
        assert forall|m: int| 0 <= m < p.measures.len() implies tally_of(
            p,
            (#[trigger] p.measures[m]).expression,
            bag.remove(r),
            other,
        ) == tally_of(p, p.measures[m].expression, bag, other) && forall|x: i64| #[trigger]
            value_counts(p, p.measures[m].expression, bag.remove(r), other)(x) == value_counts(
                p,
                p.measures[m].expression,
                bag,
                other,
            )(x) by {
            let e = p.measures[m].expression;
            lemma_tally_remove(p, e, bag, other, r);
            assert forall|x: i64| #[trigger]
                value_counts(p, e, bag.remove(r), other)(x) == value_counts(p, e, bag, other)(x) by {
                lemma_value_counts_remove(p, e, bag, other, r, x);
            }
        }
    }
}

/// The result over a relation with one more row: the insert or the update
/// of the row's group fits the result before and leads to the result
/// after.
pub proof fn lemma_result_after_insert(
    p: AggregationValue,
    bag: Multiset<RecordValue>,
    new: RecordValue,
)
    requires
        relation_encodable(p, bag),
        dimensions_encodable(p, new),
        group_key(p.dimensions, new) is Ok,
    ensures
        fits_keyed(
            query_result(p, bag),
            group_key(p.dimensions, new)->Ok_0,
            expected_insert(p, bag, new),
        ),
        keyed_after(
            query_result(p, bag),
            group_key(p.dimensions, new)->Ok_0,
            expected_insert(p, bag, new),
        ) == query_result(p, bag.insert(new)),
{
    broadcast use group_multiset_axioms;

    let key = group_key(p.dimensions, new)->Ok_0;
    let before = query_result(p, bag);
    let after = query_result(p, bag.insert(new));
    let moved = keyed_after(before, key, expected_insert(p, bag, new));
    lemma_group_rows_insert(p, bag, new, key);
    if group_rows(p, bag, key) > 0 {
        lemma_group_has_row(p, bag, key);
        lemma_group_row_from_any_row(p, bag, key, new, row_of_group(p, bag, key));
    }
    assert forall|other: Seq<u8>|
        #![trigger moved.dom().contains(other)]
        #![trigger after.dom().contains(other)]
        moved.dom().contains(other) == after.dom().contains(other) && (moved.dom().contains(other)
            ==> moved[other] == after[other]) by {
        lemma_group_rows_insert(p, bag, new, other);
        if group_rows(p, bag.insert(new), other) > 0 {
            lemma_group_has_row(p, bag.insert(new), other);
            let r = row_of_group(p, bag.insert(new), other);
            assert(dimensions_encodable(p, r)) by {
                if r != new {
                    assert(bag.contains(r));
                }
            }
            if other == key {
                lemma_group_row_from_any_row(p, bag.insert(new), key, new, r);
            } else {
                lemma_group_has_row(p, bag, other);
                let q = row_of_group(p, bag, other);
                lemma_other_group_same(p, bag, new, other);
                lemma_group_values_same(p, bag.insert(new), bag, other);
                lemma_dimensions_of_a_group(
                    p,
                    other,
                    r,
                    q,
                    group_values(p, bag, other),
                    p.dimensions.len(),
                );
            }
        }
    }
    assert(moved =~= after);
}

/// The result over a relation with one row less: the delete or the update
/// of the row's group fits the result before and leads to the result
/// after.
pub proof fn lemma_result_after_delete(
    p: AggregationValue,
    bag: Multiset<RecordValue>,
    old_record: RecordValue,
)
    requires
        relation_encodable(p, bag),
        bag.contains(old_record),
        group_key(p.dimensions, old_record) is Ok,
    ensures
        fits_keyed(
            query_result(p, bag),
            group_key(p.dimensions, old_record)->Ok_0,
            expected_delete(p, bag, old_record),
        ),
        keyed_after(
            query_result(p, bag),
            group_key(p.dimensions, old_record)->Ok_0,
            expected_delete(p, bag, old_record),
        ) == query_result(p, bag.remove(old_record)),
{
    broadcast use group_multiset_axioms;

    let key = group_key(p.dimensions, old_record)->Ok_0;
    let before = query_result(p, bag);
    let rest = bag.remove(old_record);
    let after = query_result(p, rest);
    let moved = keyed_after(before, key, expected_delete(p, bag, old_record));
    lemma_group_rows_remove(p, bag, old_record, key);
    lemma_group_has_row(p, bag, key);
    assert(dimensions_encodable(p, old_record));
    lemma_group_row_from_any_row(p, bag, key, old_record, row_of_group(p, bag, key));
    assert forall|other: Seq<u8>|
        #![trigger moved.dom().contains(other)]
        #![trigger after.dom().contains(other)]
        moved.dom().contains(other) == after.dom().contains(other) && (moved.dom().contains(other)
            ==> moved[other] == after[other]) by {
        lemma_group_rows_remove(p, bag, old_record, other);
        if group_rows(p, rest, other) > 0 {
            lemma_group_has_row(p, rest, other);
            let r = row_of_group(p, rest, other);
            assert(bag.contains(r));
            assert(dimensions_encodable(p, r));
            if other == key {
                lemma_group_row_from_any_row(p, rest, key, old_record, r);
            } else {
                lemma_group_has_row(p, bag, other);
                let q = row_of_group(p, bag, other);
                lemma_other_group_same(p, bag, old_record, other);
                lemma_group_values_same(p, rest, bag, other);
                lemma_dimensions_of_a_group(
                    p,
                    other,
                    r,
                    q,
                    group_values(p, bag, other),
                    p.dimensions.len(),
                );
            }
        }
    }
    assert(moved =~= after);
}

/// The result over a relation in which a row has changed within its
/// group: the update of the group fits the result before and leads to the
/// result after.
pub proof fn lemma_result_after_update(
    p: AggregationValue,
    bag: Multiset<RecordValue>,
    old_record: RecordValue,
    new: RecordValue,
)
    requires
        relation_encodable(p, bag),
        dimensions_encodable(p, new),
        bag.contains(old_record),
        group_key(p.dimensions, old_record) is Ok,
        group_key(p.dimensions, old_record) == group_key(p.dimensions, new),
    ensures
        ({
            let key = group_key(p.dimensions, old_record)->Ok_0;
            let moved = bag.remove(old_record).insert(new);
            let change = OperationValue::Update {
                old: group_row(p, bag, key, old_record),
                new: group_row(p, moved, key, new),
            };
            &&& fits_keyed(query_result(p, bag), key, change)
            &&& keyed_after(query_result(p, bag), key, change) == query_result(p, moved)
        }),
{
    broadcast use group_multiset_axioms;

    let key = group_key(p.dimensions, old_record)->Ok_0;
    let rest = bag.remove(old_record);
    let moved_bag = rest.insert(new);
    let change = OperationValue::Update {
        old: group_row(p, bag, key, old_record),
        new: group_row(p, moved_bag, key, new),
    };
    let before = query_result(p, bag);
    let after = query_result(p, moved_bag);
    let moved = keyed_after(before, key, change);
    lemma_group_rows_remove(p, bag, old_record, key);
    lemma_group_has_row(p, bag, key);
    assert(dimensions_encodable(p, old_record));
    lemma_group_row_from_any_row(p, bag, key, old_record, row_of_group(p, bag, key));
    assert forall|other: Seq<u8>|
        #![trigger moved.dom().contains(other)]
        #![trigger after.dom().contains(other)]
        moved.dom().contains(other) == after.dom().contains(other) && (moved.dom().contains(other)
            ==> moved[other] == after[other]) by {
        lemma_group_rows_remove(p, bag, old_record, other);
        lemma_group_rows_insert(p, rest, new, other);
        if group_rows(p, moved_bag, other) > 0 {
            lemma_group_has_row(p, moved_bag, other);
            let r = row_of_group(p, moved_bag, other);
            assert(dimensions_encodable(p, r)) by {
                if r != new {
                    assert(rest.contains(r));
                    assert(bag.contains(r));
                }
            }
            if other == key {
                lemma_group_row_from_any_row(p, moved_bag, key, new, r);
            } else {
                lemma_group_has_row(p, bag, other);
                let q = row_of_group(p, bag, other);
                lemma_other_group_same(p, bag, old_record, other);
                lemma_other_group_same(p, rest, new, other);
                lemma_groups_same(p, bag, rest, moved_bag, other);
                lemma_group_values_same(p, moved_bag, bag, other);
                lemma_dimensions_of_a_group(
                    p,
                    other,
                    r,
                    q,
                    group_values(p, bag, other),
                    p.dimensions.len(),
                );
            }
        }
    }
    assert(moved =~= after);
}

/// The keys of the groups that the changes of the output for a change of
/// the input are about, one for each.
pub open spec fn touched_groups(p: AggregationValue, op: OperationValue) -> Seq<Seq<u8>> {
    match op {
        OperationValue::Insert { new } => seq![group_key(p.dimensions, new)->Ok_0],
        OperationValue::Delete { old } => seq![group_key(p.dimensions, old)->Ok_0],
        OperationValue::Update { old, new } => if group_key(p.dimensions, old) == group_key(
            p.dimensions,
            new,
        ) {
            seq![group_key(p.dimensions, old)->Ok_0]
        } else {
            seq![group_key(p.dimensions, old)->Ok_0, group_key(p.dimensions, new)->Ok_0]
        },
    }
}

/// The changes of the output that are expected for a change of the input
/// fit the result over the relation before the change and lead to the
/// result over the relation after it.
pub proof fn lemma_expected_changes_keep_result(
    p: AggregationValue,
    bag: Multiset<RecordValue>,
    op: OperationValue,
)
    requires
        relation_encodable(p, bag),
        change_encodable(p, op),
        match op {
            OperationValue::Insert { new } => group_key(p.dimensions, new) is Ok,
            OperationValue::Delete { old } => bag.contains(old) && group_key(p.dimensions, old) is Ok,
            OperationValue::Update { old, new } => bag.contains(old) && group_key(
                p.dimensions,
                old,
            ) is Ok && group_key(p.dimensions, new) is Ok,
        },
    ensures
        fit_keyed(query_result(p, bag), touched_groups(p, op), expected_changes(p, bag, op)),
        keyed_after_all(query_result(p, bag), touched_groups(p, op), expected_changes(p, bag, op))
            == query_result(p, apply_operation(bag, op)),
{
    let emitted = expected_changes(p, bag, op);
    let keys = touched_groups(p, op);
    reveal_with_fuel(keyed_after_all, 3);
    reveal_with_fuel(fit_keyed, 3);
    match op {
        OperationValue::Insert { new } => {
            lemma_result_after_insert(p, bag, new);
            assert(emitted.drop_last() =~= Seq::<OperationValue>::empty());
        },
        OperationValue::Delete { old } => {
            lemma_result_after_delete(p, bag, old);
            assert(emitted.drop_last() =~= Seq::<OperationValue>::empty());
        },
        OperationValue::Update { old, new } => {
            if group_key(p.dimensions, old) == group_key(p.dimensions, new) {
                lemma_result_after_update(p, bag, old, new);
                assert(emitted.drop_last() =~= Seq::<OperationValue>::empty());
            } else {
                lemma_result_after_delete(p, bag, old);
                lemma_relation_stays_encodable(p, bag, OperationValue::Delete { old });
                lemma_result_after_insert(p, bag.remove(old), new);
                assert(emitted.drop_last() =~= seq![expected_delete(p, bag, old)]);
                assert(keys.drop_last() =~= seq![group_key(p.dimensions, old)->Ok_0]);
                assert(emitted.drop_last().drop_last() =~= Seq::<OperationValue>::empty());
            }
        },
    }
}

/// What the dimensions give on the rows of a relation can still be encoded
/// after a change whose records are so.
pub proof fn lemma_relation_stays_encodable(
    p: AggregationValue,
    bag: Multiset<RecordValue>,
    op: OperationValue,
)
    requires
        relation_encodable(p, bag),
        change_encodable(p, op),
    ensures
        relation_encodable(p, apply_operation(bag, op)),
{
    broadcast use group_multiset_axioms;

    assert forall|r: RecordValue| apply_operation(bag, op).contains(r) implies #[trigger]
        dimensions_encodable(p, r) by {
        match op {
            OperationValue::Insert { new } => {
                if r != new {
                    assert(bag.contains(r));
                }
            },
            OperationValue::Delete { old } => {
                assert(bag.contains(r));
            },
            OperationValue::Update { old, new } => {
                if r != new {
                    assert(bag.remove(old).contains(r));
                    assert(bag.contains(r));
                }
            },
        }
    }
}

/// Delta correctness of the aggregation, over its result: the changes that
/// the operator emits for a change of the input fit the result of the
/// aggregation over the relation before the change, and applied to it they
/// give the result of the aggregation over the relation after the change.
/// What the operator keeps is what the relation after the change asks
/// for, so that the same holds of the next change.
///
/// The change must delete only what the relation holds, and what the
/// dimensions give must be short enough to be encoded.
pub proof fn lemma_aggregation_keeps_result(
    p: AggregationValue,
    tables: Seq<TableValue>,
    db: Database,
    bag: Multiset<RecordValue>,
    op: OperationValue,
    prefixes: Prefixes,
) -> (others: Prefixes)
    requires
        consistent(p, tables, db, bag, prefixes),
        countable(p, bag),
        relation_encodable(p, bag),
        change_encodable(p, op),
        match op {
            OperationValue::Insert { new } => true,
            OperationValue::Delete { old } => bag.contains(old),
            OperationValue::Update { old, new } => bag.contains(old),
        },
        aggregate_outcome(p, tables, db, op) is Ok,
    ensures
        fit_keyed(
            query_result(p, bag),
            touched_groups(p, op),
            aggregate_outcome(p, tables, db, op)->Ok_0.0,
        ),
        keyed_after_all(
            query_result(p, bag),
            touched_groups(p, op),
            aggregate_outcome(p, tables, db, op)->Ok_0.0,
        ) == query_result(p, apply_operation(bag, op)),
        consistent(
            p,
            aggregate_outcome(p, tables, db, op)->Ok_0.1,
            db,
            apply_operation(bag, op),
            others,
        ),
        relation_encodable(p, apply_operation(bag, op)),
        countable(p, apply_operation(bag, op)),
{
    let others = lemma_aggregate_is_delta_correct(p, tables, db, bag, op, prefixes);
    lemma_outcome_has_keys(p, tables, db, op);
    lemma_expected_changes_keep_result(p, bag, op);
    lemma_relation_stays_encodable(p, bag, op);
    others
}

/// A change that the operator takes in has group keys.
proof fn lemma_outcome_has_keys(
    p: AggregationValue,
    tables: Seq<TableValue>,
    db: Database,
    op: OperationValue,
)
    requires
        aggregate_outcome(p, tables, db, op) is Ok,
    ensures
        match op {
            OperationValue::Insert { new } => group_key(p.dimensions, new) is Ok,
            OperationValue::Delete { old } => group_key(p.dimensions, old) is Ok,
            OperationValue::Update { old, new } => group_key(p.dimensions, old) is Ok && group_key(
                p.dimensions,
                new,
            ) is Ok,
        },
{
    reveal(crate::aggregation::processor::insert_outcome);
    reveal(crate::aggregation::processor::delete_outcome);
}

/// The databases after the operator has taken in a stream of changes.
pub open spec fn tables_after_stream(
    p: AggregationValue,
    tables: Seq<TableValue>,
    db: Database,
    stream: Seq<OperationValue>,
) -> Seq<TableValue>
    decreases stream.len(),
{
    if stream.len() == 0 {
        tables
    } else {
        aggregate_outcome(
            p,
            tables_after_stream(p, tables, db, stream.drop_last()),
            db,
            stream.last(),
        )->Ok_0.1
    }
}

/// The result after the changes that the operator emits for a stream of
/// changes of the input.
pub open spec fn result_after_stream(
    p: AggregationValue,
    tables: Seq<TableValue>,
    db: Database,
    result: Map<Seq<u8>, RecordValue>,
    stream: Seq<OperationValue>,
) -> Map<Seq<u8>, RecordValue>
    decreases stream.len(),
{
    if stream.len() == 0 {
        result
    } else {
        keyed_after_all(
            result_after_stream(p, tables, db, result, stream.drop_last()),
            touched_groups(p, stream.last()),
            aggregate_outcome(
                p,
                tables_after_stream(p, tables, db, stream.drop_last()),
                db,
                stream.last(),
            )->Ok_0.0,
        )
    }
}

/// Whether the operator takes in every change of a stream, each change
/// deletes only what the relation holds when it comes, and what the
/// dimensions give can be encoded.
pub open spec fn stream_accepted(
    p: AggregationValue,
    tables: Seq<TableValue>,
    db: Database,
    bag: Multiset<RecordValue>,
    stream: Seq<OperationValue>,
) -> bool
    decreases stream.len(),
{
    if stream.len() == 0 {
        true
    } else {
        let before = apply_operations(bag, stream.drop_last());
        &&& stream_accepted(p, tables, db, bag, stream.drop_last())
        &&& aggregate_outcome(
            p,
            tables_after_stream(p, tables, db, stream.drop_last()),
            db,
            stream.last(),
        ) is Ok
        &&& change_encodable(p, stream.last())
        &&& match stream.last() {
            OperationValue::Insert { new } => true,
            OperationValue::Delete { old } => before.contains(old),
            OperationValue::Update { old, new } => before.contains(old),
        }
    }
}

/// Delta correctness of the aggregation over a stream: the changes that
/// the operator emits for the changes of a stream, applied in order to the
/// result of the aggregation over the relation that the stream started
/// from, give the result of the aggregation over the relation that the
/// stream leads to.
pub proof fn lemma_aggregation_of_stream(
    p: AggregationValue,
    tables: Seq<TableValue>,
    db: Database,
    bag: Multiset<RecordValue>,
    stream: Seq<OperationValue>,
    prefixes: Prefixes,
) -> (others: Prefixes)
    requires
        consistent(p, tables, db, bag, prefixes),
        countable(p, bag),
        relation_encodable(p, bag),
        stream_accepted(p, tables, db, bag, stream),
    ensures
        result_after_stream(p, tables, db, query_result(p, bag), stream) == query_result(
            p,
            apply_operations(bag, stream),
        ),
        consistent(
            p,
            tables_after_stream(p, tables, db, stream),
            db,
            apply_operations(bag, stream),
            others,
        ),
        countable(p, apply_operations(bag, stream)),
        relation_encodable(p, apply_operations(bag, stream)),
    decreases stream.len(),
{
    if stream.len() > 0 {
        let between = lemma_aggregation_of_stream(p, tables, db, bag, stream.drop_last(), prefixes);
        lemma_aggregation_keeps_result(
            p,
            tables_after_stream(p, tables, db, stream.drop_last()),
            db,
            apply_operations(bag, stream.drop_last()),
            stream.last(),
            between,
        )
    } else {
        prefixes
    }
}

/// A stream that is taken in in two parts gives what it gives when it is
/// taken in at once: an operator that takes in the rest of a stream from
/// the databases that the first part left, as it does when a pipeline is
/// started again from what was committed, leaves the same databases, and
/// its changes lead to the same result.
pub proof fn lemma_aggregation_resumes(
    p: AggregationValue,
    tables: Seq<TableValue>,
    db: Database,
    result: Map<Seq<u8>, RecordValue>,
    first: Seq<OperationValue>,
    rest: Seq<OperationValue>,
)
    ensures
        tables_after_stream(p, tables, db, first + rest) == tables_after_stream(
            p,
            tables_after_stream(p, tables, db, first),
            db,
            rest,
        ),
        result_after_stream(p, tables, db, result, first + rest) == result_after_stream(
            p,
            tables_after_stream(p, tables, db, first),
            db,
            result_after_stream(p, tables, db, result, first),
            rest,
        ),
    decreases rest.len(),
{
    if rest.len() == 0 {
        assert(first + rest =~= first);
    } else {
        lemma_aggregation_resumes(p, tables, db, result, first, rest.drop_last());
        assert((first + rest).drop_last() =~= first + rest.drop_last());
        assert((first + rest).last() == rest.last());
    }
}

/// Delta correctness of the aggregation from the start. An operator
/// that has opened its databases in an environment that had none takes in
/// a stream of changes, each of which deletes only what the relation holds
/// when it comes. Then the changes that it emits, applied in order to the
/// empty result, give the result of the aggregation over the relation that
/// the stream builds; and the counts that it keeps are those of that
/// relation: the number of rows of every group that has rows, and no
/// count and no state for any other.
pub proof fn lemma_aggregation_from_start(p: AggregationValue, stream: Seq<OperationValue>)
    requires
        opened_first(p),
        stream_accepted(p, opened_tables(), p.db->Some_0, Multiset::empty(), stream),
    ensures
        result_after_stream(
            p,
            opened_tables(),
            p.db->Some_0,
            Map::<Seq<u8>, RecordValue>::empty(),
            stream,
        ) == query_result(p, apply_operations(Multiset::empty(), stream)),
        counts_consistent(
            p,
            tables_after_stream(p, opened_tables(), p.db->Some_0, stream),
            p.db->Some_0,
            apply_operations(Multiset::empty(), stream),
        ),
{
    let prefixes = |k: Seq<u8>, m: int| 0u32;
    lemma_opened_consistent(p, prefixes);
    lemma_empty_result(p);
    let others = lemma_aggregation_of_stream(
        p,
        opened_tables(),
        p.db->Some_0,
        Multiset::empty(),
        stream,
        prefixes,
    );
}

/// The result of the aggregation over the empty relation is empty.
pub proof fn lemma_empty_result(p: AggregationValue)
    ensures
        query_result(p, Multiset::empty()) == Map::<Seq<u8>, RecordValue>::empty(),
        relation_encodable(p, Multiset::empty()),
{
    broadcast use group_multiset_axioms;

    assert forall|key: Seq<u8>| #[trigger] group_rows(p, Multiset::empty(), key) == 0 by {
        let f = |r: RecordValue|
            group_key(p.dimensions, r) == Ok::<Seq<u8>, PipelineErrorValue>(key);
        assert(Multiset::<RecordValue>::empty().filter(f) =~= Multiset::<RecordValue>::empty());
    }
    assert(query_result(p, Multiset::empty()) =~= Map::<Seq<u8>, RecordValue>::empty());
}

/// Whether a column of the output is that of a dimension.
pub open spec fn dimension_column(p: AggregationValue, c: int) -> bool {
    exists|j: int| 0 <= j < p.dimensions.len() && at_column(#[trigger] p.dimensions[j], c)
}

/// Whether a dimension has the column as its own.
pub open spec fn at_column(d: DimensionValue, c: int) -> bool {
    match d.position {
        Some(q) => q == c,
        None => false,
    }
}

/// The measures leave the width of the output records.
proof fn lemma_measures_keep_width(
    p: AggregationValue,
    op: AggregatorOperation,
    cur_state: Option<Seq<u8>>,
    deleted: Option<RecordValue>,
    inserted: Option<RecordValue>,
    n: nat,
    init: Progress,
)
    requires
        p.wf(),
        n <= p.measures.len(),
        init.out_delete.len() == p.width,
        init.out_insert.len() == p.width,
        measures_fold(p, op, cur_state, deleted, inserted, n, init) is Ok,
    ensures
        measures_fold(p, op, cur_state, deleted, inserted, n, init)->Ok_0.out_delete.len()
            == p.width,
        measures_fold(p, op, cur_state, deleted, inserted, n, init)->Ok_0.out_insert.len()
            == p.width,
    decreases n,
{
    if n > 0 {
        lemma_measures_keep_width(p, op, cur_state, deleted, inserted, (n - 1) as nat, init);
        assert(p.measures[n - 1].position < p.width);
    }
}

/// The column of a dimension holds what the dimension gives on the row,
/// whatever the record held before: two rows on which the dimensions give
/// the same fill it alike.
proof fn lemma_dimension_columns(
    dimensions: Seq<DimensionValue>,
    a: RecordValue,
    b: RecordValue,
    out_a: Seq<FieldValue>,
    out_b: Seq<FieldValue>,
    n: nat,
    c: int,
)
    requires
        n <= dimensions.len(),
        forall|i: int|
            0 <= i < dimensions.len() ==> #[trigger] eval(dimensions[i].expression, a) == eval(
                dimensions[i].expression,
                b,
            ),
        filled_dimensions(dimensions, a, out_a, n) is Ok,
        filled_dimensions(dimensions, b, out_b, n) is Ok,
        out_a.len() == out_b.len(),
        0 <= c < out_a.len(),
        forall|j: int|
            0 <= j < dimensions.len() ==> match (#[trigger] dimensions[j]).position {
                Some(q) => q < out_a.len(),
                None => true,
            },
        exists|j: int| 0 <= j < n && at_column(#[trigger] dimensions[j], c),
    ensures
        filled_dimensions(dimensions, a, out_a, n)->Ok_0.len() == out_a.len(),
        filled_dimensions(dimensions, b, out_b, n)->Ok_0.len() == out_a.len(),
        filled_dimensions(dimensions, a, out_a, n)->Ok_0[c] == filled_dimensions(
            dimensions,
            b,
            out_b,
            n,
        )->Ok_0[c],
    decreases n,
{
    let last = dimensions[n - 1];
    lemma_filled_width(dimensions, a, out_a, (n - 1) as nat);
    lemma_filled_width(dimensions, b, out_b, (n - 1) as nat);
    assert(eval(last.expression, a) == eval(last.expression, b));
    if !at_column(last, c) {
        let j = choose|j: int| 0 <= j < n && at_column(#[trigger] dimensions[j], c);
        assert(j < n - 1);
        lemma_dimension_columns(dimensions, a, b, out_a, out_b, (n - 1) as nat, c);
    }
}

/// The dimensions leave the width of an output record.
proof fn lemma_filled_width(
    dimensions: Seq<DimensionValue>,
    record: RecordValue,
    out: Seq<FieldValue>,
    n: nat,
)
    requires
        n <= dimensions.len(),
        forall|j: int|
            0 <= j < dimensions.len() ==> match (#[trigger] dimensions[j]).position {
                Some(q) => q < out.len(),
                None => true,
            },
        filled_dimensions(dimensions, record, out, n) is Ok,
    ensures
        filled_dimensions(dimensions, record, out, n)->Ok_0.len() == out.len(),
    decreases n,
{
    if n > 0 {
        lemma_filled_width(dimensions, record, out, (n - 1) as nat);
        assert(dimensions[n - 1].position matches Some(q) ==> q < out.len());
    }
}

/// The update of the row of a group, as the operator makes it from the
/// row that leaves the group and the row that comes to it, leaves the
/// columns of the dimensions as they are.
proof fn lemma_update_of_group(
    p: AggregationValue,
    a: RecordValue,
    b: RecordValue,
    out_a: Seq<FieldValue>,
    out_b: Seq<FieldValue>,
    c: int,
)
    requires
        p.wf(),
        group_key(p.dimensions, a) is Ok,
        group_key(p.dimensions, a) == group_key(p.dimensions, b),
        a == b || (dimensions_encodable(p, a) && dimensions_encodable(p, b)),
        filled_dimensions(p.dimensions, a, out_a, p.dimensions.len()) is Ok,
        filled_dimensions(p.dimensions, b, out_b, p.dimensions.len()) is Ok,
        out_a.len() == p.width,
        out_b.len() == p.width,
        0 <= c < p.width,
        dimension_column(p, c),
    ensures
        filled_dimensions(p.dimensions, a, out_a, p.dimensions.len())->Ok_0.len() == out_a.len(),
        filled_dimensions(p.dimensions, b, out_b, p.dimensions.len())->Ok_0.len() == out_a.len(),
        filled_dimensions(p.dimensions, a, out_a, p.dimensions.len())->Ok_0[c]
            == filled_dimensions(p.dimensions, b, out_b, p.dimensions.len())->Ok_0[c],
{
    if a != b {
        lemma_rows_of_a_group_agree(p, group_key(p.dimensions, a)->Ok_0, a, b);
    }
    lemma_dimension_columns(p.dimensions, a, b, out_a, out_b, p.dimensions.len(), c);
}

/// Every update that the operator emits is the update of the row of one
/// group: the row before and the row after are as wide as the output, and
/// agree in the column of every dimension. A change of the dimensions of
/// a row is the delete of one row and the insert of another. What the
/// dimensions give on the rows of an update of the input must be short
/// enough to be encoded.
pub proof fn lemma_updates_keep_dimensions(
    p: AggregationValue,
    tables: Seq<TableValue>,
    db: Database,
    op: OperationValue,
    i: int,
    c: int,
)
    requires
        p.wf(),
        aggregate_outcome(p, tables, db, op) is Ok,
        change_encodable(p, op),
        0 <= i < aggregate_outcome(p, tables, db, op)->Ok_0.0.len(),
        aggregate_outcome(p, tables, db, op)->Ok_0.0[i] is Update,
        0 <= c < p.width,
        dimension_column(p, c),
    ensures
        ({
            let out = aggregate_outcome(p, tables, db, op)->Ok_0.0[i];
            &&& out->Update_old.values.len() == p.width
            &&& out->Update_new.values.len() == p.width
            &&& out->Update_old.values[c] == out->Update_new.values[c]
        }),
{
    match op {
        OperationValue::Insert { new } => {
            lemma_insert_keeps_dimensions(p, tables, db, new, c);
        },
        OperationValue::Delete { old } => {
            lemma_delete_keeps_dimensions(p, tables, db, old, c);
        },
        OperationValue::Update { old, new } => {
            if group_key(p.dimensions, old) == group_key(p.dimensions, new) {
                lemma_update_keeps_dimensions(p, tables, db, old, new, c);
            } else {
                let between = delete_outcome(p, tables, db, old)->Ok_0.1;
                if i == 0 {
                    lemma_delete_keeps_dimensions(p, tables, db, old, c);
                } else {
                    lemma_insert_keeps_dimensions(p, between, db, new, c);
                }
            }
        },
    }
}

/// The update that the update of a row within its group gives leaves the
/// columns of the dimensions.
proof fn lemma_update_keeps_dimensions(
    p: AggregationValue,
    tables: Seq<TableValue>,
    db: Database,
    old_record: RecordValue,
    new: RecordValue,
    c: int,
)
    requires
        p.wf(),
        group_key(p.dimensions, old_record) is Ok,
        group_key(p.dimensions, old_record) == group_key(p.dimensions, new),
        dimensions_encodable(p, old_record),
        dimensions_encodable(p, new),
        update_outcome(
            p,
            tables,
            db,
            old_record,
            new,
            group_key(p.dimensions, old_record)->Ok_0,
        ) is Ok,
        0 <= c < p.width,
        dimension_column(p, c),
    ensures
        ({
            let key = group_key(p.dimensions, old_record)->Ok_0;
            let out = update_outcome(p, tables, db, old_record, new, key)->Ok_0.0;
            &&& out is Update
            &&& out->Update_old.values.len() == p.width
            &&& out->Update_new.values.len() == p.width
            &&& out->Update_old.values[c] == out->Update_new.values[c]
        }),
{
    reveal(update_outcome);
    let key = group_key(p.dimensions, old_record)->Ok_0;
    let cur_state = group_state(tables, db, key)->Ok_0;
    let init = start_of_measures(tables, p.width);
    lemma_measures_keep_width(
        p,
        AggregatorOperation::Update,
        cur_state,
        Some(old_record),
        Some(new),
        p.measures.len(),
        init,
    );
    let pr = measures_fold(
        p,
        AggregatorOperation::Update,
        cur_state,
        Some(old_record),
        Some(new),
        p.measures.len(),
        init,
    )->Ok_0;
    lemma_update_of_group(p, old_record, new, pr.out_delete, pr.out_insert, c);
}

/// The update that the insert of a row gives leaves the columns of the
/// dimensions.
proof fn lemma_insert_keeps_dimensions(
    p: AggregationValue,
    tables: Seq<TableValue>,
    db: Database,
    new: RecordValue,
    c: int,
)
    requires
        p.wf(),
        insert_outcome(p, tables, db, new) is Ok,
        insert_outcome(p, tables, db, new)->Ok_0.0 is Update,
        0 <= c < p.width,
        dimension_column(p, c),
    ensures
        ({
            let out = insert_outcome(p, tables, db, new)->Ok_0.0;
            &&& out->Update_old.values.len() == p.width
            &&& out->Update_new.values.len() == p.width
            &&& out->Update_old.values[c] == out->Update_new.values[c]
        }),
{
    reveal(insert_outcome);
    let key = group_key(p.dimensions, new)->Ok_0;
    let counted = segment_count(tables, db, record_key(key, 1), 1, false)->Ok_0.1;
    let cur_state = group_state(counted, db, key)->Ok_0;
    let init = start_of_measures(counted, p.width);
    lemma_measures_keep_width(
        p,
        AggregatorOperation::Insert,
        cur_state,
        None,
        Some(new),
        p.measures.len(),
        init,
    );
    let pr = measures_fold(
        p,
        AggregatorOperation::Insert,
        cur_state,
        None,
        Some(new),
        p.measures.len(),
        init,
    )->Ok_0;
    lemma_update_of_group(p, new, new, pr.out_delete, pr.out_insert, c);
}

/// The update that the delete of a row gives leaves the columns of the
/// dimensions.
proof fn lemma_delete_keeps_dimensions(
    p: AggregationValue,
    tables: Seq<TableValue>,
    db: Database,
    old_record: RecordValue,
    c: int,
)
    requires
        p.wf(),
        delete_outcome(p, tables, db, old_record) is Ok,
        delete_outcome(p, tables, db, old_record)->Ok_0.0 is Update,
        0 <= c < p.width,
        dimension_column(p, c),
    ensures
        ({
            let out = delete_outcome(p, tables, db, old_record)->Ok_0.0;
            &&& out->Update_old.values.len() == p.width
            &&& out->Update_new.values.len() == p.width
            &&& out->Update_old.values[c] == out->Update_new.values[c]
        }),
{
    reveal(delete_outcome);
    let key = group_key(p.dimensions, old_record)->Ok_0;
    let counted = segment_count(tables, db, record_key(key, 1), 1, true)->Ok_0.1;
    let cur_state = group_state(counted, db, key)->Ok_0;
    let init = start_of_measures(counted, p.width);
    lemma_measures_keep_width(
        p,
        AggregatorOperation::Delete,
        cur_state,
        Some(old_record),
        None,
        p.measures.len(),
        init,
    );
    let pr = measures_fold(
        p,
        AggregatorOperation::Delete,
        cur_state,
        Some(old_record),
        None,
        p.measures.len(),
        init,
    )->Ok_0;
    lemma_update_of_group(p, old_record, old_record, pr.out_delete, pr.out_insert, c);
}

} // verus!
