//! What the measures of a group are over the rows of the group: the
//! number of rows, the sum of a measure's argument over them, and the
//! number of rows on which the argument is an integer. The aggregators
//! keep these numbers, wrapped around to 64 bits.

use vstd::multiset::*;
use vstd::prelude::*;
use crate::aggregation::aggregator::{
    aggregate_stored,
    aggregate_value,
    keeps_state_only,
    average_value,
    contributions,
    counted_outcome,
    counted_places,
    ordinal_of,
    shown_value,
    lemma_read_write_i64,
    moved_rows,
    moved_sum,
    state_average,
    state_number,
    write_i64,
    AggregationResultValue,
    Aggregator,
    AggregatorOperation,
};
use crate::aggregation::bags::{bag_stored, counts_moved, is_extreme_value};
use crate::aggregation::counts::{group_rows, lemma_group_rows_remove};
use crate::storage::{Database, TableValue};
use crate::aggregation::processor::{group_key, AggregationValue};
use crate::errors::PipelineErrorValue;
use crate::expression::execution::{eval, ExpressionValue};
use crate::relation::{lemma_sum_over_insert, lemma_sum_over_remove, sum_over};
use crate::types::{FieldType, FieldValue, RecordValue};

verus! {

/// The 64-bit integer that an integer wraps around to.
pub open spec fn wrap_i64(x: int) -> i64 {
    let r = x % 0x1_0000_0000_0000_0000;
    if r > 0x7FFF_FFFF_FFFF_FFFF {
        (r - 0x1_0000_0000_0000_0000) as i64
    } else {
        r as i64
    }
}

/// Adding and subtracting with wrap-around is adding and subtracting, and
/// wrapping around.
pub proof fn lemma_wrapping(a: i64, t: int, i: i64)
    requires
        a == wrap_i64(t),
    ensures
        a.wrapping_add(i) == wrap_i64(t + i),
        a.wrapping_sub(i) == wrap_i64(t - i),
        wrap_i64(a as int) == a,
{
    let n = 0x1_0000_0000_0000_0000int;
    let q = t / n;
    assert(t == n * q + t % n) by (nonlinear_arith)
        requires
            n == 0x1_0000_0000_0000_0000int,
            q == t / n,
    ;
    assert((t + i) % n == ((t % n) + i) % n) by (nonlinear_arith)
        requires
            n == 0x1_0000_0000_0000_0000int,
    ;
    assert((t - i) % n == ((t % n) - i) % n) by (nonlinear_arith)
        requires
            n == 0x1_0000_0000_0000_0000int,
    ;
    assert((a + i) % n == ((t % n) + i) % n) by (nonlinear_arith)
        requires
            n == 0x1_0000_0000_0000_0000int,
            a == t % n || a == t % n - n,
    ;
    assert((a - i) % n == ((t % n) - i) % n) by (nonlinear_arith)
        requires
            n == 0x1_0000_0000_0000_0000int,
            a == t % n || a == t % n - n,
    ;
    lemma_wrap_of_sum(a + i);
    lemma_wrap_of_sum(a - i);
    lemma_wrap_of_sum(a as int);
}

/// What an integer near the 64-bit range wraps around to.
proof fn lemma_wrap_of_sum(x: int)
    requires
        -0x1_0000_0000_0000_0000 <= x < 0x1_0000_0000_0000_0000,
    ensures
        wrap_i64(x) == if x > 0x7FFF_FFFF_FFFF_FFFF {
            x - 0x1_0000_0000_0000_0000
        } else if x < -0x8000_0000_0000_0000 {
            x + 0x1_0000_0000_0000_0000
        } else {
            x
        },
{
    let n = 0x1_0000_0000_0000_0000int;
    if x >= 0 {
        assert(x % n == x) by (nonlinear_arith)
            requires
                0 <= x < n,
                n == 0x1_0000_0000_0000_0000int,
        ;
    } else {
        assert(x % n == x + n) by (nonlinear_arith)
            requires
                -n <= x < 0,
                n == 0x1_0000_0000_0000_0000int,
        ;
    }
}

/// The numbers that the measures of a group are made of.
pub struct Tally {
    /// How many rows the group has.
    pub rows: int,
    /// The sum of the argument over the rows on which it is an integer.
    pub sum: int,
    /// On how many rows the argument is an integer.
    pub counted: int,
}

/// The integer that a value adds to a sum.
pub open spec fn addend(value: FieldValue) -> int {
    match value {
        FieldValue::Int(i) => i as int,
        _ => 0,
    }
}

/// A tally with one more row, on which the argument has the value.
pub open spec fn tally_with(t: Tally, value: FieldValue) -> Tally {
    Tally {
        rows: t.rows + 1,
        sum: t.sum + addend(value),
        counted: t.counted + if value is Int {
            1int
        } else {
            0int
        },
    }
}

/// A tally with one row less, on which the argument had the value.
pub open spec fn tally_without(t: Tally, value: FieldValue) -> Tally {
    Tally {
        rows: t.rows - 1,
        sum: t.sum - addend(value),
        counted: t.counted - if value is Int {
            1int
        } else {
            0int
        },
    }
}

/// The tally after a change.
pub open spec fn tally_after(
    t: Tally,
    op: AggregatorOperation,
    deleted: FieldValue,
    inserted: FieldValue,
) -> Tally {
    match op {
        AggregatorOperation::Insert => tally_with(t, inserted),
        AggregatorOperation::Delete => tally_without(t, deleted),
        AggregatorOperation::Update => tally_with(tally_without(t, deleted), inserted),
    }
}

/// The value and the state of a measure over a tally: the count of the
/// rows, the sum, or the sum by the number of rows that were added up, each
/// number wrapped around to 64 bits. `MIN` and `MAX` are not made of a
/// tally: for them this is a null without a state.
pub open spec fn measure_of(aggregator: Aggregator, t: Tally) -> AggregationResultValue {
    match aggregator {
        Aggregator::Count => AggregationResultValue {
            value: FieldValue::Int(wrap_i64(t.rows)),
            state: Some(write_i64(wrap_i64(t.rows))),
        },
        Aggregator::Sum => AggregationResultValue {
            value: FieldValue::Int(wrap_i64(t.sum)),
            state: Some(write_i64(wrap_i64(t.sum))),
        },
        Aggregator::Avg => AggregationResultValue {
            value: average_value(wrap_i64(t.sum), wrap_i64(t.counted)),
            state: Some(write_i64(wrap_i64(t.sum)) + write_i64(wrap_i64(t.counted))),
        },
        Aggregator::Min | Aggregator::Max => AggregationResultValue {
            value: FieldValue::Null,
            state: None,
        },
    }
}

/// The tally of no rows.
pub open spec fn empty_tally() -> Tally {
    Tally { rows: 0, sum: 0, counted: 0 }
}

/// A wrapped number of rows moves as the number does.
proof fn lemma_moved_rows(t: int, deleted: bool, inserted: bool)
    ensures
        moved_rows(wrap_i64(t), deleted, inserted) == wrap_i64(
            t - if deleted {
                1int
            } else {
                0int
            } + if inserted {
                1int
            } else {
                0int
            },
        ),
{
    lemma_wrapping(wrap_i64(t), t, 1);
    lemma_wrapping(wrap_i64(t).wrapping_sub(1), t - 1, 1);
}

/// A wrapped sum moves as the sum does.
proof fn lemma_moved_sum(t: int, deleted: Option<i64>, inserted: Option<i64>)
    ensures
        moved_sum(wrap_i64(t), deleted, inserted) == wrap_i64(
            t - match deleted {
                Some(d) => d as int,
                None => 0,
            } + match inserted {
                Some(i) => i as int,
                None => 0,
            },
        ),
{
    let without = match deleted {
        Some(d) => wrap_i64(t).wrapping_sub(d),
        None => wrap_i64(t),
    };
    let t_without = t - match deleted {
        Some(d) => d as int,
        None => 0,
    };
    match deleted {
        Some(d) => {
            lemma_wrapping(wrap_i64(t), t, d);
        },
        None => {},
    }
    match inserted {
        Some(i) => {
            lemma_wrapping(without, t_without, i);
        },
        None => {},
    }
}

/// What the row that leaves and the row that comes add to a tally.
proof fn lemma_contributions(
    aggregator: Aggregator,
    op: AggregatorOperation,
    t: Tally,
    deleted: FieldValue,
    inserted: FieldValue,
)
    requires
        contributions(aggregator, op, deleted, inserted) is Ok,
    ensures
        ({
            let (d, i) = contributions(aggregator, op, deleted, inserted)->Ok_0;
            let after = tally_after(t, op, deleted, inserted);
            &&& after.sum == t.sum - match d {
                Some(d) => d as int,
                None => 0,
            } + match i {
                Some(i) => i as int,
                None => 0,
            }
            &&& after.counted == t.counted - if d is Some {
                1int
            } else {
                0int
            } + if i is Some {
                1int
            } else {
                0int
            }
        }),
{
}

/// An aggregator keeps the measure of the tally: from the state of the
/// measure over a tally a change leads to the measure over the tally after
/// the change. No state stands for the tally of no rows.
pub proof fn lemma_aggregator_keeps_measure(
    aggregator: Aggregator,
    op: AggregatorOperation,
    t: Tally,
    state: Option<Seq<u8>>,
    deleted: FieldValue,
    inserted: FieldValue,
    return_type: FieldType,
)
    requires
        state == measure_of(aggregator, t).state || (state is None && t == empty_tally()),
        aggregate_value(aggregator, op, state, deleted, inserted, return_type) is Ok,
    ensures
        aggregate_value(aggregator, op, state, deleted, inserted, return_type)->Ok_0 == measure_of(
            aggregator,
            tally_after(t, op, deleted, inserted),
        ),
{
    let after = tally_after(t, op, deleted, inserted);
    lemma_read_write_i64(wrap_i64(t.rows));
    lemma_read_write_i64(wrap_i64(t.sum));
    lemma_read_write_i64(wrap_i64(t.counted));
    assert(wrap_i64(0) == 0);
    match aggregator {
        Aggregator::Count => {
            assert(state_number(state) == Ok::<i64, PipelineErrorValue>(wrap_i64(t.rows)));
            lemma_moved_rows(
                t.rows,
                op != AggregatorOperation::Insert,
                op != AggregatorOperation::Delete,
            );
        },
        Aggregator::Sum => {
            assert(state_number(state) == Ok::<i64, PipelineErrorValue>(wrap_i64(t.sum)));
            let (d, i) = contributions(aggregator, op, deleted, inserted)->Ok_0;
            lemma_contributions(aggregator, op, t, deleted, inserted);
            lemma_moved_sum(t.sum, d, i);
        },
        Aggregator::Avg => {
            if state is Some {
                let s = state->Some_0;
                assert(s.subrange(0, 8) =~= write_i64(wrap_i64(t.sum)));
                assert(s.subrange(8, 16) =~= write_i64(wrap_i64(t.counted)));
            }
            assert(state_average(state) == Ok::<(i64, i64), PipelineErrorValue>(
                (wrap_i64(t.sum), wrap_i64(t.counted)),
            ));
            let (d, i) = contributions(aggregator, op, deleted, inserted)->Ok_0;
            lemma_contributions(aggregator, op, t, deleted, inserted);
            lemma_moved_sum(t.sum, d, i);
            lemma_moved_rows(t.counted, d is Some, i is Some);
        },
        _ => {},
    }
}

/// Whether a row is in the group with the key.
pub open spec fn in_group(p: AggregationValue, r: RecordValue, key: Seq<u8>) -> bool {
    group_key(p.dimensions, r) == Ok::<Seq<u8>, PipelineErrorValue>(key)
}

/// One for a row of the group, nothing for any other.
pub open spec fn rows_of(p: AggregationValue, key: Seq<u8>) -> spec_fn(RecordValue) -> int {
    |r: RecordValue|
        if in_group(p, r, key) {
            1int
        } else {
            0int
        }
}

/// What a row of the group adds to the sum of an expression.
pub open spec fn addends_of(p: AggregationValue, e: ExpressionValue, key: Seq<u8>) -> spec_fn(
    RecordValue,
) -> int {
    |r: RecordValue|
        if in_group(p, r, key) {
            match eval(e, r) {
                Ok(v) => addend(v),
                Err(_) => 0,
            }
        } else {
            0int
        }
}

/// One for a row of the group on which the expression is an integer.
pub open spec fn counted_of(p: AggregationValue, e: ExpressionValue, key: Seq<u8>) -> spec_fn(
    RecordValue,
) -> int {
    |r: RecordValue|
        if in_group(p, r, key) && eval(e, r) is Ok && eval(e, r)->Ok_0 is Int {
            1int
        } else {
            0int
        }
}

/// The tally of an expression over the rows of a group of a relation.
pub open spec fn tally_of(
    p: AggregationValue,
    e: ExpressionValue,
    bag: Multiset<RecordValue>,
    key: Seq<u8>,
) -> Tally {
    Tally {
        rows: sum_over(bag, rows_of(p, key)),
        sum: sum_over(bag, addends_of(p, e, key)),
        counted: sum_over(bag, counted_of(p, e, key)),
    }
}

/// A row that comes to a group moves the tally of the group by its value,
/// and leaves the tallies of the other groups.
pub proof fn lemma_tally_insert(
    p: AggregationValue,
    e: ExpressionValue,
    bag: Multiset<RecordValue>,
    key: Seq<u8>,
    r: RecordValue,
)
    requires
        eval(e, r) is Ok || !in_group(p, r, key),
    ensures
        tally_of(p, e, bag.insert(r), key) == if in_group(p, r, key) {
            tally_with(tally_of(p, e, bag, key), eval(e, r)->Ok_0)
        } else {
            tally_of(p, e, bag, key)
        },
{
    lemma_sum_over_insert(bag, rows_of(p, key), r);
    lemma_sum_over_insert(bag, addends_of(p, e, key), r);
    lemma_sum_over_insert(bag, counted_of(p, e, key), r);
}

/// A row that leaves a group moves the tally of the group back by its
/// value, and leaves the tallies of the other groups.
pub proof fn lemma_tally_remove(
    p: AggregationValue,
    e: ExpressionValue,
    bag: Multiset<RecordValue>,
    key: Seq<u8>,
    r: RecordValue,
)
    requires
        bag.contains(r),
        eval(e, r) is Ok || !in_group(p, r, key),
    ensures
        tally_of(p, e, bag.remove(r), key) == if in_group(p, r, key) {
            tally_without(tally_of(p, e, bag, key), eval(e, r)->Ok_0)
        } else {
            tally_of(p, e, bag, key)
        },
{
    lemma_sum_over_remove(bag, rows_of(p, key), r);
    lemma_sum_over_remove(bag, addends_of(p, e, key), r);
    lemma_sum_over_remove(bag, counted_of(p, e, key), r);
}

/// The rows of a tally are the rows of the group.
pub proof fn lemma_tally_rows(p: AggregationValue, bag: Multiset<RecordValue>, key: Seq<u8>)
    ensures
        sum_over(bag, rows_of(p, key)) == group_rows(p, bag, key),
    decreases bag.len(),
{
    broadcast use group_multiset_axioms;

    if bag.len() == 0 {
        let f = |r: RecordValue|
            group_key(p.dimensions, r) == Ok::<Seq<u8>, PipelineErrorValue>(key);
        assert(bag =~= Multiset::empty());
        assert(bag.filter(f) =~= Multiset::<RecordValue>::empty());
    } else {
        let x = bag.choose();
        assert(bag.contains(x));
        lemma_group_rows_remove(p, bag, x, key);
        lemma_tally_rows(p, bag.remove(x), key);
    }
}

/// A group without rows has the tally of no rows.
pub proof fn lemma_tally_of_empty_group(
    p: AggregationValue,
    e: ExpressionValue,
    bag: Multiset<RecordValue>,
    key: Seq<u8>,
)
    requires
        group_rows(p, bag, key) == 0,
    ensures
        tally_of(p, e, bag, key) == empty_tally(),
{
    broadcast use group_multiset_axioms;

    let f = |r: RecordValue| group_key(p.dimensions, r) == Ok::<Seq<u8>, PipelineErrorValue>(key);
    assert forall|r: RecordValue| bag.contains(r) implies !in_group(p, r, key) by {
        if in_group(p, r, key) {
            assert(bag.filter(f).count(r) > 0);
            assert(bag.filter(f).len() > 0) by {
                axiom_count_le_len(bag.filter(f), r);
            }
        }
    }
    crate::relation::lemma_sum_over_zero(bag, rows_of(p, key));
    crate::relation::lemma_sum_over_zero(bag, addends_of(p, e, key));
    crate::relation::lemma_sum_over_zero(bag, counted_of(p, e, key));
}

/// Whether an expression gives, on a record, a value at the place.
pub open spec fn at_place(e: ExpressionValue, r: RecordValue, i: i64) -> bool {
    eval(e, r) is Ok && ordinal_of(eval(e, r)->Ok_0) == Some(i)
}

/// One for a row of the group on which the expression gives a value at
/// the place.
pub open spec fn value_counter(
    p: AggregationValue,
    e: ExpressionValue,
    key: Seq<u8>,
    i: i64,
) -> spec_fn(RecordValue) -> int {
    |r: RecordValue|
        if in_group(p, r, key) && at_place(e, r, i) {
            1int
        } else {
            0int
        }
}

/// How often every place is that of the value of an expression on the
/// rows of a group of a relation.
pub open spec fn value_counts(
    p: AggregationValue,
    e: ExpressionValue,
    bag: Multiset<RecordValue>,
    key: Seq<u8>,
) -> spec_fn(i64) -> nat {
    |i: i64| sum_over(bag, value_counter(p, e, key, i)) as nat
}

/// A row that comes to a group is counted with its value, and no other
/// row is.
pub proof fn lemma_value_counts_insert(
    p: AggregationValue,
    e: ExpressionValue,
    bag: Multiset<RecordValue>,
    key: Seq<u8>,
    r: RecordValue,
    i: i64,
)
    ensures
        value_counts(p, e, bag, key)(i) >= 0,
        value_counts(p, e, bag.insert(r), key)(i) == value_counts(p, e, bag, key)(i) + if in_group(
            p,
            r,
            key,
        ) && at_place(e, r, i) {
            1nat
        } else {
            0nat
        },
{
    let f = value_counter(p, e, key, i);
    lemma_sum_over_insert(bag, f, r);
    lemma_value_counts_bound(p, e, bag, key, i);
    lemma_value_counts_bound(p, e, bag.insert(r), key, i);
}

/// A row that goes from a group is no longer counted with its value.
pub proof fn lemma_value_counts_remove(
    p: AggregationValue,
    e: ExpressionValue,
    bag: Multiset<RecordValue>,
    key: Seq<u8>,
    r: RecordValue,
    i: i64,
)
    requires
        bag.contains(r),
    ensures
        value_counts(p, e, bag, key)(i) == value_counts(p, e, bag.remove(r), key)(i) + if in_group(
            p,
            r,
            key,
        ) && at_place(e, r, i) {
            1nat
        } else {
            0nat
        },
{
    let f = value_counter(p, e, key, i);
    lemma_sum_over_remove(bag, f, r);
    lemma_value_counts_bound(p, e, bag, key, i);
    lemma_value_counts_bound(p, e, bag.remove(r), key, i);
}

/// No value is counted more often than the group has rows.
pub proof fn lemma_value_counts_bound(
    p: AggregationValue,
    e: ExpressionValue,
    bag: Multiset<RecordValue>,
    key: Seq<u8>,
    i: i64,
)
    ensures
        0 <= sum_over(bag, value_counter(p, e, key, i)) <= group_rows(p, bag, key),
        value_counts(p, e, bag, key)(i) <= group_rows(p, bag, key),
{
    let zero = |r: RecordValue| 0int;
    crate::relation::lemma_sum_over_zero(bag, zero);
    crate::relation::lemma_sum_over_monotone(bag, zero, value_counter(p, e, key, i));
    crate::relation::lemma_sum_over_monotone(bag, value_counter(p, e, key, i), rows_of(p, key));
    lemma_tally_rows(p, bag, key);
}

/// The least, or with `least` unset the greatest, of the places that are
/// counted: a null where none is.
pub open spec fn extreme_of(counts: spec_fn(i64) -> nat, least: bool) -> FieldValue {
    if exists|v: i64| is_extreme_value(counts, least, v) {
        FieldValue::Int(choose|v: i64| is_extreme_value(counts, least, v))
    } else {
        FieldValue::Null
    }
}

/// The value and the state of a measure over the rows of a group: that of
/// the tally for the aggregators that keep a tally, and for `MIN` and
/// `MAX` the value of the measure's type at the least or the greatest
/// place that is counted, with its encoding as the state.
pub open spec fn measure_over(
    aggregator: Aggregator,
    t: Tally,
    counts: spec_fn(i64) -> nat,
    return_type: FieldType,
) -> AggregationResultValue {
    if keeps_state_only(aggregator) {
        measure_of(aggregator, t)
    } else {
        let value = shown_value(return_type, extreme_of(counts, aggregator == Aggregator::Min));
        AggregationResultValue { value, state: Some(crate::codec::encode_field(value)) }
    }
}

/// The least and the greatest of the values that are counted are what
/// they are of counts that are the same.
pub proof fn lemma_extreme_of_same(
    a: spec_fn(i64) -> nat,
    b: spec_fn(i64) -> nat,
    least: bool,
)
    requires
        forall|i: i64| #[trigger] a(i) == b(i),
    ensures
        extreme_of(a, least) == extreme_of(b, least),
{
    if exists|v: i64| is_extreme_value(a, least, v) {
        let v = choose|v: i64| is_extreme_value(a, least, v);
        assert(is_extreme_value(b, least, v)) by {
            assert(a(v) == b(v));
            assert forall|w: i64| #[trigger] b(w) > 0 implies if least {
                v <= w
            } else {
                v >= w
            } by {
                assert(a(w) == b(w));
            }
        }
        lemma_extreme_is(b, least, v);
    } else {
        if exists|v: i64| is_extreme_value(b, least, v) {
            let v = choose|v: i64| is_extreme_value(b, least, v);
            assert(is_extreme_value(a, least, v)) by {
                assert(a(v) == b(v));
                assert forall|w: i64| #[trigger] a(w) > 0 implies if least {
                    v <= w
                } else {
                    v >= w
                } by {
                    assert(a(w) == b(w));
                }
            }
        }
    }
}

/// A value that is the least, or the greatest, of the values that are
/// counted is the one.
pub proof fn lemma_extreme_is(counts: spec_fn(i64) -> nat, least: bool, v: i64)
    requires
        is_extreme_value(counts, least, v),
    ensures
        extreme_of(counts, least) == FieldValue::Int(v),
{
    let w = choose|w: i64| is_extreme_value(counts, least, w);
    assert(counts(w) > 0 && counts(v) > 0);
}

/// Where no value is counted, there is no least and no greatest.
pub proof fn lemma_extreme_of_none(counts: spec_fn(i64) -> nat, least: bool)
    requires
        forall|w: i64| #[trigger] counts(w) == 0,
    ensures
        extreme_of(counts, least) == FieldValue::Null,
{
    if exists|v: i64| is_extreme_value(counts, least, v) {
        let v = choose|v: i64| is_extreme_value(counts, least, v);
        assert(counts(v) == 0);
    }
}

/// The counts after a change: the place of the value that leaves is
/// counted down, that of the value that comes is counted up, as far as
/// the values have places.
pub open spec fn counts_after(
    counts: spec_fn(i64) -> nat,
    op: AggregatorOperation,
    deleted: FieldValue,
    inserted: FieldValue,
) -> spec_fn(i64) -> nat {
    counts_moved(
        counts_moved(
            counts,
            if op == AggregatorOperation::Insert {
                None
            } else {
                ordinal_of(deleted)
            },
            true,
        ),
        if op == AggregatorOperation::Delete {
            None
        } else {
            ordinal_of(inserted)
        },
        false,
    )
}

/// An aggregator keeps the measure over the rows of the group: from the
/// state of the measure a change leads to the measure after the change.
/// An aggregator that keeps a tally starts from the state of the measure of
/// the tally, or from no state for the tally of no rows, and leaves the
/// databases as they are. `MIN` and `MAX` start from the counts that the
/// database of the aggregators holds behind the prefix of the measure, and
/// leave the counts after the change there.
pub proof fn lemma_aggregator_keeps_measure_over(
    aggregator: Aggregator,
    op: AggregatorOperation,
    t: Tally,
    counts: spec_fn(i64) -> nat,
    state: Option<Seq<u8>>,
    deleted: FieldValue,
    inserted: FieldValue,
    return_type: FieldType,
    prefix: u32,
    store: Database,
    tables: Seq<TableValue>,
)
    requires
        keeps_state_only(aggregator) ==> state == measure_of(aggregator, t).state || (state is None
            && t == empty_tally()),
        !keeps_state_only(aggregator) ==> bag_stored(tables, store, prefix, counts),
        !keeps_state_only(aggregator) && op != AggregatorOperation::Insert ==> (ordinal_of(
            deleted,
        ) matches Some(d) ==> counts(d) > 0),
        !keeps_state_only(aggregator) && op != AggregatorOperation::Delete ==> (ordinal_of(
            inserted,
        ) matches Some(i) ==> counts_moved(
            counts,
            if op == AggregatorOperation::Insert {
                None
            } else {
                ordinal_of(deleted)
            },
            true,
        )(i) + 1 < 0x1_0000_0000_0000_0000),
        aggregate_stored(
            aggregator,
            op,
            state,
            deleted,
            inserted,
            return_type,
            prefix,
            store,
            tables,
        ) is Ok,
    ensures
        ({
            let outcome = aggregate_stored(
                aggregator,
                op,
                state,
                deleted,
                inserted,
                return_type,
                prefix,
                store,
                tables,
            )->Ok_0;
            let after = counts_after(counts, op, deleted, inserted);
            &&& outcome.0 == measure_over(
                aggregator,
                tally_after(t, op, deleted, inserted),
                after,
                return_type,
            )
            &&& keeps_state_only(aggregator) ==> outcome.1 == tables
            &&& !keeps_state_only(aggregator) ==> bag_stored(outcome.1, store, prefix, after)
        }),
{
    if keeps_state_only(aggregator) {
        lemma_aggregator_keeps_measure(aggregator, op, t, state, deleted, inserted, return_type);
    } else {
        let (leaving, coming) = counted_places(aggregator, return_type, op, deleted, inserted)->Ok_0;
        let (d, i) = contributions(aggregator, op, leaving, coming)->Ok_0;
        assert(d == if op == AggregatorOperation::Insert {
            None
        } else {
            ordinal_of(deleted)
        });
        assert(i == if op == AggregatorOperation::Delete {
            None
        } else {
            ordinal_of(inserted)
        });
        let least = aggregator == Aggregator::Min;
        crate::aggregation::bags::lemma_extreme_of_counted(
            aggregator,
            op,
            state,
            leaving,
            coming,
            prefix,
            store,
            tables,
            counts,
        );
        let after = counts_after(counts, op, deleted, inserted);
        let found = counted_outcome(aggregator, op, leaving, coming, prefix, store, tables)->Ok_0.0;
        match found {
            FieldValue::Int(v) => {
                lemma_extreme_is(after, least, v);
            },
            _ => {
                lemma_extreme_of_none(after, least);
            },
        }
    }
}

} // verus!
