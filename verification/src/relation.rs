//! A relation as a bag of records, and what a stream of changes makes of it.

use vstd::multiset::*;
use vstd::prelude::*;
use crate::types::{OperationValue, RecordValue};

verus! {

/// The relation after one change: an insert adds its record, a delete takes
/// one copy of its record away, an update does both.
pub open spec fn apply_operation(bag: Multiset<RecordValue>, op: OperationValue) -> Multiset<
    RecordValue,
> {
    match op {
        OperationValue::Insert { new } => bag.insert(new),
        OperationValue::Delete { old } => bag.remove(old),
        OperationValue::Update { old, new } => bag.remove(old).insert(new),
    }
}

/// The relation after the changes of `ops`, in order.
pub open spec fn apply_operations(bag: Multiset<RecordValue>, ops: Seq<OperationValue>) -> Multiset<
    RecordValue,
>
    decreases ops.len(),
{
    if ops.len() == 0 {
        bag
    } else {
        apply_operation(apply_operations(bag, ops.drop_last()), ops.last())
    }
}

/// Applying two streams one after the other is applying their
/// concatenation.
pub proof fn lemma_apply_concatenation(
    bag: Multiset<RecordValue>,
    a: Seq<OperationValue>,
    b: Seq<OperationValue>,
)
    ensures
        apply_operations(bag, a + b) == apply_operations(apply_operations(bag, a), b),
    decreases b.len(),
{
    if b.len() == 0 {
        assert(a + b =~= a);
    } else {
        lemma_apply_concatenation(bag, a, b.drop_last());
        assert((a + b).drop_last() =~= a + b.drop_last());
    }
}

/// Applying a stream of one change is applying the change.
pub proof fn lemma_apply_one(bag: Multiset<RecordValue>, op: OperationValue)
    ensures
        apply_operations(bag, seq![op]) == apply_operation(bag, op),
{
    assert(seq![op].drop_last() =~= Seq::<OperationValue>::empty());
    reveal_with_fuel(apply_operations, 2);
}

/// The sum of what `f` gives on the rows of a relation, a row that is
/// there several times counted as often.
pub open spec fn sum_over(bag: Multiset<RecordValue>, f: spec_fn(RecordValue) -> int) -> int
    decreases bag.len(),
{
    if bag.len() == 0 {
        0
    } else {
        let r = bag.choose();
        f(r) + sum_over(bag.remove(r), f)
    }
}

/// Any row of the relation can be taken out of the sum first.
pub proof fn lemma_sum_over_remove(
    bag: Multiset<RecordValue>,
    f: spec_fn(RecordValue) -> int,
    r: RecordValue,
)
    requires
        bag.contains(r),
    ensures
        sum_over(bag, f) == f(r) + sum_over(bag.remove(r), f),
    decreases bag.len(),
{
    broadcast use group_multiset_axioms;

    assert(bag.len() > 0) by {
        if bag.len() == 0 {
            lemma_multiset_empty_len(bag);
        }
    }
    let x = bag.choose();
    assert(bag.contains(x));
    if x != r {
        assert(bag.remove(x).contains(r));
        assert(bag.remove(r).contains(x));
        lemma_sum_over_remove(bag.remove(x), f, r);
        lemma_sum_over_remove(bag.remove(r), f, x);
        assert(bag.remove(x).remove(r) =~= bag.remove(r).remove(x));
    }
}

/// A row that comes adds what `f` gives on it.
pub proof fn lemma_sum_over_insert(
    bag: Multiset<RecordValue>,
    f: spec_fn(RecordValue) -> int,
    r: RecordValue,
)
    ensures
        sum_over(bag.insert(r), f) == sum_over(bag, f) + f(r),
{
    broadcast use group_multiset_axioms;

    assert(bag.insert(r).remove(r) =~= bag);
    lemma_sum_over_remove(bag.insert(r), f, r);
}

/// Where `f` gives nothing on any row, the sum is nothing.
pub proof fn lemma_sum_over_zero(bag: Multiset<RecordValue>, f: spec_fn(RecordValue) -> int)
    requires
        forall|r: RecordValue| bag.contains(r) ==> #[trigger] f(r) == 0,
    ensures
        sum_over(bag, f) == 0,
    decreases bag.len(),
{
    broadcast use group_multiset_axioms;

    if bag.len() > 0 {
        let x = bag.choose();
        assert(bag.contains(x));
        assert forall|r: RecordValue| bag.remove(x).contains(r) implies #[trigger] f(r) == 0 by {
            assert(bag.contains(r));
        }
        lemma_sum_over_zero(bag.remove(x), f);
    }
}

/// A relation whose rows are told apart by a key, after a change of the
/// row under a key: an insert or an update puts the new row there, a
/// delete takes the row away.
pub open spec fn keyed_after<K>(
    rows: Map<K, RecordValue>,
    key: K,
    change: OperationValue,
) -> Map<K, RecordValue> {
    match change {
        OperationValue::Insert { new } => rows.insert(key, new),
        OperationValue::Update { old, new } => rows.insert(key, new),
        OperationValue::Delete { old } => rows.remove(key),
    }
}

/// Whether a change fits the row under a key: an insert comes where there
/// is no row, and an update or a delete names the row that is there.
pub open spec fn fits_keyed<K>(
    rows: Map<K, RecordValue>,
    key: K,
    change: OperationValue,
) -> bool {
    match change {
        OperationValue::Insert { new } => !rows.contains_key(key),
        OperationValue::Update { old, new } => rows.contains_key(key) && rows[key] == old,
        OperationValue::Delete { old } => rows.contains_key(key) && rows[key] == old,
    }
}

/// The rows after changes, each under its key, in order.
pub open spec fn keyed_after_all<K>(
    rows: Map<K, RecordValue>,
    keys: Seq<K>,
    changes: Seq<OperationValue>,
) -> Map<K, RecordValue>
    decreases changes.len(),
{
    if changes.len() == 0 {
        rows
    } else {
        keyed_after(
            keyed_after_all(rows, keys.drop_last(), changes.drop_last()),
            keys.last(),
            changes.last(),
        )
    }
}

/// Whether changes, each under its key, fit the rows one after the other.
pub open spec fn fit_keyed<K>(
    rows: Map<K, RecordValue>,
    keys: Seq<K>,
    changes: Seq<OperationValue>,
) -> bool
    decreases changes.len(),
{
    if changes.len() == 0 {
        true
    } else {
        fit_keyed(rows, keys.drop_last(), changes.drop_last()) && fits_keyed(
            keyed_after_all(rows, keys.drop_last(), changes.drop_last()),
            keys.last(),
            changes.last(),
        )
    }
}

/// Changes under keys, followed by more changes under more keys, fit and
/// lead where the first lead and then the others.
pub proof fn lemma_keyed_concatenation<K>(
    rows: Map<K, RecordValue>,
    first_keys: Seq<K>,
    first: Seq<OperationValue>,
    more_keys: Seq<K>,
    more: Seq<OperationValue>,
)
    requires
        first_keys.len() == first.len(),
        more_keys.len() == more.len(),
    ensures
        keyed_after_all(rows, first_keys + more_keys, first + more) == keyed_after_all(
            keyed_after_all(rows, first_keys, first),
            more_keys,
            more,
        ),
        fit_keyed(rows, first_keys + more_keys, first + more) == (fit_keyed(rows, first_keys, first)
            && fit_keyed(keyed_after_all(rows, first_keys, first), more_keys, more)),
    decreases more.len(),
{
    if more.len() == 0 {
        assert(first_keys + more_keys =~= first_keys);
        assert(first + more =~= first);
    } else {
        lemma_keyed_concatenation(rows, first_keys, first, more_keys.drop_last(), more.drop_last());
        assert((first_keys + more_keys).drop_last() =~= first_keys + more_keys.drop_last());
        assert((first + more).drop_last() =~= first + more.drop_last());
        assert((first_keys + more_keys).last() == more_keys.last());
        assert((first + more).last() == more.last());
    }
}

/// Where `f` gives no more than `g` on every row, its sum is no more.
pub proof fn lemma_sum_over_monotone(
    bag: Multiset<RecordValue>,
    f: spec_fn(RecordValue) -> int,
    g: spec_fn(RecordValue) -> int,
)
    requires
        forall|r: RecordValue| bag.contains(r) ==> #[trigger] f(r) <= g(r),
    ensures
        sum_over(bag, f) <= sum_over(bag, g),
    decreases bag.len(),
{
    broadcast use group_multiset_axioms;

    if bag.len() > 0 {
        let x = bag.choose();
        assert(bag.contains(x));
        assert forall|r: RecordValue| bag.remove(x).contains(r) implies #[trigger] f(r) <= g(r) by {
            assert(bag.contains(r));
        }
        lemma_sum_over_monotone(bag.remove(x), f, g);
        lemma_sum_over_remove(bag, g, x);
    }
}

} // verus!
