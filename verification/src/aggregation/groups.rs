//! The state of a group as a list of entries, one for each measure, and
//! what a change makes of it: every measure keeps its prefix, and its
//! value and state move as its aggregator says. What is written for a
//! group is what is read for it at the next change.

use vstd::prelude::*;
use crate::aggregation::aggregator::{
    aggregate_stored,
    lemma_read_write_i64,
    write_i64,
    Aggregator,
    AggregatorOperation,
};
use crate::aggregation::processor::{
    current_data,
    decode_entry,
    encode_entry,
    measure_step,
    measure_type,
    measures_fold,
    next_counter,
    null_values,
    operands,
    start_of_measures,
    AggregationDataValue,
    AggregationValue,
    MeasureValue,
    Progress,
};
use crate::codec::{
    be_bytes,
    encodable,
    encode_field,
    lemma_be_bytes_len,
    lemma_be_value_of_bytes,
    lemma_decode_encode,
    lemma_pow256_values,
};
use crate::errors::PipelineErrorValue;
use crate::storage::{Database, TableValue};
use crate::types::{FieldType, FieldValue, RecordValue};

verus! {

/// Whether an entry can be stored and read back: its value can be encoded
/// in at most 65535 bytes, and its state, where it has one, has at least
/// one byte and at most 65535.
pub open spec fn storable(d: AggregationDataValue) -> bool {
    &&& encodable(d.value)
    &&& encode_field(d.value).len() <= 0xFFFF
    &&& match d.state {
        Some(s) => 0 < s.len() <= 0xFFFF,
        None => true,
    }
}

/// The bytes of an entry.
pub open spec fn entry_bytes(d: AggregationDataValue) -> Seq<u8> {
    let v = encode_field(d.value);
    let s = match d.state {
        Some(s) => s,
        None => Seq::empty(),
    };
    be_bytes(d.prefix as nat, 4) + be_bytes(v.len(), 2) + v + be_bytes(s.len(), 2) + s
}

/// The bytes of the entries of a group, one after the other.
pub open spec fn group_bytes(entries: Seq<AggregationDataValue>) -> Seq<u8>
    decreases entries.len(),
{
    if entries.len() == 0 {
        Seq::empty()
    } else {
        group_bytes(entries.drop_last()) + entry_bytes(entries.last())
    }
}

/// The bytes of the entries from `i` on.
pub open spec fn group_bytes_from(entries: Seq<AggregationDataValue>, i: int) -> Seq<u8>
    decreases entries.len() - i,
{
    if i < 0 || i >= entries.len() {
        Seq::empty()
    } else {
        entry_bytes(entries[i]) + group_bytes_from(entries, i + 1)
    }
}

/// An entry that was written is read back, whatever follows it.
pub proof fn lemma_decode_entry(d: AggregationDataValue, rest: Seq<u8>)
    requires
        storable(d),
    ensures
        decode_entry(entry_bytes(d) + rest) == Ok::<
            (nat, AggregationDataValue),
            PipelineErrorValue,
        >((entry_bytes(d).len(), d)),
        encode_entry(d.prefix, d.value, d.state) == Ok::<Seq<u8>, PipelineErrorValue>(
            entry_bytes(d),
        ),
{
    lemma_pow256_values();
    let v = encode_field(d.value);
    let s = match d.state {
        Some(s) => s,
        None => Seq::empty(),
    };
    let buf = entry_bytes(d) + rest;
    lemma_be_bytes_len(d.prefix as nat, 4);
    lemma_be_bytes_len(v.len(), 2);
    lemma_be_bytes_len(s.len(), 2);
    lemma_be_value_of_bytes(d.prefix as nat, 4);
    lemma_be_value_of_bytes(v.len(), 2);
    lemma_be_value_of_bytes(s.len(), 2);
    lemma_decode_encode(d.value);
    let vl = v.len() as int;
    let sl = s.len() as int;
    assert(buf.subrange(0, 4) =~= be_bytes(d.prefix as nat, 4));
    assert(buf.subrange(4, 6) =~= be_bytes(v.len(), 2));
    assert(buf.subrange(6, 6 + vl) =~= v);
    assert(buf.subrange(6 + vl, 8 + vl) =~= be_bytes(s.len(), 2));
    assert(buf.subrange(8 + vl, 8 + vl + sl) =~= s);
    assert(entry_bytes(d).len() == 8 + vl + sl);
}

/// The bytes of a group are those of its first entries followed by those
/// of the others.
pub proof fn lemma_group_split(entries: Seq<AggregationDataValue>, i: int)
    requires
        0 <= i <= entries.len(),
    ensures
        group_bytes(entries) == group_bytes(entries.take(i)) + group_bytes_from(entries, i),
    decreases entries.len() - i,
{
    if i == entries.len() {
        assert(entries.take(i) =~= entries);
        assert(group_bytes(entries) + Seq::<u8>::empty() =~= group_bytes(entries));
    } else {
        lemma_group_split(entries, i + 1);
        assert(entries.take(i + 1).drop_last() =~= entries.take(i));
        assert(group_bytes(entries.take(i + 1)) == group_bytes(entries.take(i)) + entry_bytes(
            entries[i],
        ));
        assert(group_bytes(entries.take(i)) + (entry_bytes(entries[i]) + group_bytes_from(
            entries,
            i + 1,
        )) =~= (group_bytes(entries.take(i)) + entry_bytes(entries[i])) + group_bytes_from(
            entries,
            i + 1,
        ));
    }
}

/// What the state of a group holds of its measure `i` is the group's entry
/// `i`.
pub proof fn lemma_current_entry(entries: Seq<AggregationDataValue>, i: int)
    requires
        0 <= i < entries.len(),
        forall|j: int| 0 <= j < entries.len() ==> storable(#[trigger] entries[j]),
    ensures
        current_data(Some(group_bytes(entries)), group_bytes(entries.take(i)).len()) == Ok::<
            Option<(nat, AggregationDataValue)>,
            PipelineErrorValue,
        >(Some((entry_bytes(entries[i]).len(), entries[i]))),
        group_bytes(entries.take(i + 1)).len() == group_bytes(entries.take(i)).len() + entry_bytes(
            entries[i],
        ).len(),
{
    lemma_group_split(entries, i);
    let head = group_bytes(entries.take(i));
    let tail = group_bytes_from(entries, i);
    assert((head + tail).skip(head.len() as int) =~= tail);
    lemma_decode_entry(entries[i], group_bytes_from(entries, i + 1));
    assert(entries.take(i + 1).drop_last() =~= entries.take(i));
}

/// What a change makes of the entry of a measure, and the databases after
/// it: the measure keeps its prefix, and its aggregator gives the new value
/// and state.
pub open spec fn stepped_entry(
    p: AggregationValue,
    op: AggregatorOperation,
    deleted: Option<RecordValue>,
    inserted: Option<RecordValue>,
    m: MeasureValue,
    entry: AggregationDataValue,
    tables: Seq<TableValue>,
) -> Result<(AggregationDataValue, Seq<TableValue>), PipelineErrorValue> {
    match operands(m.expression, op, deleted, inserted) {
        Err(e) => Err(e),
        Ok((d, i)) => match measure_type(p, m) {
            Err(e) => Err(e),
            Ok(return_type) => match aggregate_stored(
                m.aggregator,
                op,
                entry.state,
                d,
                i,
                return_type,
                entry.prefix,
                p.aggregators_db->Some_0,
                tables,
            ) {
                Err(e) => Err(e),
                Ok((r, stored)) => match encode_entry(entry.prefix, r.value, r.state) {
                    Err(e) => Err(e),
                    Ok(_) => Ok(
                        (
                            AggregationDataValue {
                                value: r.value,
                                state: r.state,
                                prefix: entry.prefix,
                            },
                            stored,
                        ),
                    ),
                },
            },
        },
    }
}

/// What a change makes of the first `n` entries of a group, and the
/// databases after it. The first failure is the result.
pub open spec fn stepped_entries(
    p: AggregationValue,
    op: AggregatorOperation,
    deleted: Option<RecordValue>,
    inserted: Option<RecordValue>,
    entries: Seq<AggregationDataValue>,
    tables: Seq<TableValue>,
    n: nat,
) -> Result<(Seq<AggregationDataValue>, Seq<TableValue>), PipelineErrorValue>
    decreases n,
{
    if n == 0 {
        Ok((Seq::empty(), tables))
    } else {
        match stepped_entries(p, op, deleted, inserted, entries, tables, (n - 1) as nat) {
            Err(e) => Err(e),
            Ok((before, t)) => match stepped_entry(
                p,
                op,
                deleted,
                inserted,
                p.measures[n - 1],
                entries[n - 1],
                t,
            ) {
                Err(e) => Err(e),
                Ok((entry, stored)) => Ok((before.push(entry), stored)),
            },
        }
    }
}

/// The output values with the values of the first `n` entries in the
/// columns of their measures.
pub open spec fn with_measures(
    values: Seq<FieldValue>,
    p: AggregationValue,
    entries: Seq<AggregationDataValue>,
    n: nat,
) -> Seq<FieldValue>
    decreases n,
{
    if n == 0 {
        values
    } else {
        with_measures(values, p, entries, (n - 1) as nat).update(
            p.measures[n - 1].position as int,
            entries[n - 1].value,
        )
    }
}

/// What an aggregator gives can be stored: the value is a number, a
/// timestamp, a date or a null, and there is a state of a few bytes.
pub proof fn lemma_aggregate_shape(
    aggregator: Aggregator,
    op: AggregatorOperation,
    state: Option<Seq<u8>>,
    deleted: FieldValue,
    inserted: FieldValue,
    return_type: FieldType,
    prefix: u32,
    store: Database,
    tables: Seq<TableValue>,
)
    requires
        aggregate_stored(
            aggregator,
            op,
            state,
            deleted,
            inserted,
            return_type,
            prefix,
            store,
            tables,
        ) is Ok,
    ensures
        ({
            let r = aggregate_stored(
                aggregator,
                op,
                state,
                deleted,
                inserted,
                return_type,
                prefix,
                store,
                tables,
            )->Ok_0.0;
            &&& r.value is Int || r.value is UInt || r.value is Timestamp || r.value is Date
                || r.value is Float || r.value is Null
            &&& r.state is Some
            &&& 0 < r.state->Some_0.len() <= 16
        }),
{
    let r = aggregate_stored(
        aggregator,
        op,
        state,
        deleted,
        inserted,
        return_type,
        prefix,
        store,
        tables,
    )->Ok_0.0;
    match r.value {
        FieldValue::Int(x) => {
            lemma_read_write_i64(x);
            lemma_be_bytes_len(x as u64 as nat, 8);
        },
        FieldValue::Timestamp(x) => {
            lemma_be_bytes_len(x as u64 as nat, 8);
        },
        FieldValue::Float(bits) => {
            lemma_be_bytes_len(bits as nat, 8);
        },
        FieldValue::UInt(u) => {
            lemma_be_bytes_len(u as nat, 8);
        },
        FieldValue::Date(d) => {
            lemma_be_bytes_len(d as u32 as nat, 4);
        },
        _ => {},
    }
    match aggregator {
        Aggregator::Avg => {
            let s = r.state->Some_0;
            assert(exists|a: i64, b: i64| s == write_i64(a) + write_i64(b));
            let (a, b) = choose|a: i64, b: i64| s == write_i64(a) + write_i64(b);
            lemma_read_write_i64(a);
            lemma_read_write_i64(b);
        },
        _ => {},
    }
}

/// An entry that a change has made can be stored, and has the prefix that
/// it had.
pub proof fn lemma_stepped_entry_storable(
    p: AggregationValue,
    op: AggregatorOperation,
    deleted: Option<RecordValue>,
    inserted: Option<RecordValue>,
    m: MeasureValue,
    entry: AggregationDataValue,
    tables: Seq<TableValue>,
)
    requires
        stepped_entry(p, op, deleted, inserted, m, entry, tables) is Ok,
    ensures
        storable(stepped_entry(p, op, deleted, inserted, m, entry, tables)->Ok_0.0),
        stepped_entry(p, op, deleted, inserted, m, entry, tables)->Ok_0.0.prefix == entry.prefix,
{
    let (d, i) = operands(m.expression, op, deleted, inserted)->Ok_0;
    let t = measure_type(p, m)->Ok_0;
    lemma_aggregate_shape(
        m.aggregator,
        op,
        entry.state,
        d,
        i,
        t,
        entry.prefix,
        p.aggregators_db->Some_0,
        tables,
    );
}

/// The changed entries of a group can be stored, there are as many as
/// were changed, and each has the prefix that it had.
pub proof fn lemma_stepped_entries_storable(
    p: AggregationValue,
    op: AggregatorOperation,
    deleted: Option<RecordValue>,
    inserted: Option<RecordValue>,
    entries: Seq<AggregationDataValue>,
    tables: Seq<TableValue>,
    n: nat,
)
    requires
        stepped_entries(p, op, deleted, inserted, entries, tables, n) is Ok,
    ensures
        stepped_entries(p, op, deleted, inserted, entries, tables, n)->Ok_0.0.len() == n,
        forall|j: int|
            0 <= j < n ==> storable(
                #[trigger] stepped_entries(p, op, deleted, inserted, entries, tables, n)->Ok_0.0[j],
            ) && stepped_entries(p, op, deleted, inserted, entries, tables, n)->Ok_0.0[j].prefix
                == entries[j].prefix,
    decreases n,
{
    if n > 0 {
        lemma_stepped_entries_storable(p, op, deleted, inserted, entries, tables, (n - 1) as nat);
        let t = stepped_entries(p, op, deleted, inserted, entries, tables, (n - 1) as nat)->Ok_0.1;
        lemma_stepped_entry_storable(
            p,
            op,
            deleted,
            inserted,
            p.measures[n - 1],
            entries[n - 1],
            t,
        );
    }
}

/// The measures of a group that has a state: they read the group's
/// entries, change each as its aggregator says, and write the changed
/// entries. The old values go into the record to delete, the new ones into
/// the record to insert.
#[verifier::rlimit(50)]
pub proof fn lemma_measures_of_group(
    p: AggregationValue,
    op: AggregatorOperation,
    deleted: Option<RecordValue>,
    inserted: Option<RecordValue>,
    entries: Seq<AggregationDataValue>,
    tables: Seq<TableValue>,
    n: nat,
)
    requires
        n <= p.measures.len(),
        entries.len() == p.measures.len(),
        forall|j: int| 0 <= j < entries.len() ==> storable(#[trigger] entries[j]),
    ensures
        measures_fold(
            p,
            op,
            Some(group_bytes(entries)),
            deleted,
            inserted,
            n,
            start_of_measures(tables, p.width),
        ) == match stepped_entries(p, op, deleted, inserted, entries, tables, n) {
            Err(e) => Err::<Progress, PipelineErrorValue>(e),
            Ok((changed, after)) => Ok(
                Progress {
                    tables: after,
                    offset: group_bytes(entries.take(n as int)).len(),
                    next_state: group_bytes(changed),
                    out_delete: with_measures(null_values(p.width), p, entries, n),
                    out_insert: with_measures(null_values(p.width), p, changed, n),
                },
            ),
        },
    decreases n,
{
    let start = start_of_measures(tables, p.width);
    let state = Some(group_bytes(entries));
    if n == 0 {
        assert(entries.take(0) =~= Seq::<AggregationDataValue>::empty());
    } else {
        let k = (n - 1) as nat;
        lemma_measures_of_group(p, op, deleted, inserted, entries, tables, k);
        match stepped_entries(p, op, deleted, inserted, entries, tables, k) {
            Err(e) => {},
            Ok((before, t)) => {
                lemma_stepped_entries_storable(p, op, deleted, inserted, entries, tables, k);
                lemma_current_entry(entries, k as int);
                let acc = measures_fold(p, op, state, deleted, inserted, k, start)->Ok_0;
                let m = p.measures[k as int];
                match stepped_entry(p, op, deleted, inserted, m, entries[k as int], t) {
                    Err(e) => {
                        assert(measure_step(p, op, state, deleted, inserted, m, acc) == Err::<
                            Progress,
                            PipelineErrorValue,
                        >(e));
                    },
                    Ok((entry, stored)) => {
                        lemma_stepped_entry_storable(
                            p,
                            op,
                            deleted,
                            inserted,
                            m,
                            entries[k as int],
                            t,
                        );
                        lemma_decode_entry(entry, Seq::empty());
                        let changed = before.push(entry);
                        assert(changed.drop_last() =~= before);
                        assert(with_measures(null_values(p.width), p, changed, k)
                            == with_measures(null_values(p.width), p, before, k)) by {
                            lemma_with_measures_prefix(
                                null_values(p.width),
                                p,
                                changed,
                                before,
                                k,
                            );
                        }
                    },
                }
            },
        }
    }
}

/// Only the first `n` entries count for the first `n` measures.
pub proof fn lemma_with_measures_prefix(
    values: Seq<FieldValue>,
    p: AggregationValue,
    a: Seq<AggregationDataValue>,
    b: Seq<AggregationDataValue>,
    n: nat,
)
    requires
        forall|j: int| 0 <= j < n ==> a[j] == b[j],
    ensures
        with_measures(values, p, a, n) == with_measures(values, p, b, n),
    decreases n,
{
    if n > 0 {
        lemma_with_measures_prefix(values, p, a, b, (n - 1) as nat);
    }
}

/// The entries that a change makes for the first `n` measures of a group
/// that has no state yet, and the databases after the prefix counter has
/// given each its prefix and each aggregator has worked behind it.
pub open spec fn created_entries(
    p: AggregationValue,
    op: AggregatorOperation,
    deleted: Option<RecordValue>,
    inserted: Option<RecordValue>,
    tables: Seq<TableValue>,
    n: nat,
) -> Result<(Seq<AggregationDataValue>, Seq<TableValue>), PipelineErrorValue>
    decreases n,
{
    if n == 0 {
        Ok((Seq::empty(), tables))
    } else {
        match created_entries(p, op, deleted, inserted, tables, (n - 1) as nat) {
            Err(e) => Err(e),
            Ok((before, t)) => {
                let m = p.measures[n - 1];
                match operands(m.expression, op, deleted, inserted) {
                    Err(e) => Err(e),
                    Ok((d, i)) => match next_counter(t, p.meta_db) {
                        Err(e) => Err(e),
                        Ok((prefix, counted)) => match measure_type(p, m) {
                            Err(e) => Err(e),
                            Ok(return_type) => match aggregate_stored(
                                m.aggregator,
                                op,
                                None,
                                d,
                                i,
                                return_type,
                                prefix,
                                p.aggregators_db->Some_0,
                                counted,
                            ) {
                                Err(e) => Err(e),
                                Ok((r, stored)) => match encode_entry(prefix, r.value, r.state) {
                                    Err(e) => Err(e),
                                    Ok(_) => Ok(
                                        (
                                            before.push(
                                                AggregationDataValue {
                                                    value: r.value,
                                                    state: r.state,
                                                    prefix,
                                                },
                                            ),
                                            stored,
                                        ),
                                    ),
                                },
                            },
                        },
                    },
                }
            },
        }
    }
}

/// The created entries of a group can be stored, and there are as many as
/// were asked for.
pub proof fn lemma_created_entries_storable(
    p: AggregationValue,
    op: AggregatorOperation,
    deleted: Option<RecordValue>,
    inserted: Option<RecordValue>,
    tables: Seq<TableValue>,
    n: nat,
)
    requires
        created_entries(p, op, deleted, inserted, tables, n) is Ok,
    ensures
        created_entries(p, op, deleted, inserted, tables, n)->Ok_0.0.len() == n,
        forall|j: int|
            0 <= j < n ==> storable(
                #[trigger] created_entries(p, op, deleted, inserted, tables, n)->Ok_0.0[j],
            ),
    decreases n,
{
    if n > 0 {
        lemma_created_entries_storable(p, op, deleted, inserted, tables, (n - 1) as nat);
        let (before, t) = created_entries(p, op, deleted, inserted, tables, (n - 1) as nat)->Ok_0;
        let m = p.measures[n - 1];
        let (d, i) = operands(m.expression, op, deleted, inserted)->Ok_0;
        let (prefix, counted) = next_counter(t, p.meta_db)->Ok_0;
        let rt = measure_type(p, m)->Ok_0;
        lemma_aggregate_shape(
            m.aggregator,
            op,
            None,
            d,
            i,
            rt,
            prefix,
            p.aggregators_db->Some_0,
            counted,
        );
    }
}

/// The measures of a group that has no state yet: each gets a prefix from
/// the counter and starts from no state. Nothing goes into the record to
/// delete.
pub proof fn lemma_measures_of_new_group(
    p: AggregationValue,
    op: AggregatorOperation,
    deleted: Option<RecordValue>,
    inserted: Option<RecordValue>,
    tables: Seq<TableValue>,
    n: nat,
)
    requires
        n <= p.measures.len(),
    ensures
        measures_fold(p, op, None, deleted, inserted, n, start_of_measures(tables, p.width))
            == match created_entries(p, op, deleted, inserted, tables, n) {
            Err(e) => Err::<Progress, PipelineErrorValue>(e),
            Ok((created, counted)) => Ok(
                Progress {
                    tables: counted,
                    offset: 0,
                    next_state: group_bytes(created),
                    out_delete: null_values(p.width),
                    out_insert: with_measures(null_values(p.width), p, created, n),
                },
            ),
        },
    decreases n,
{
    if n > 0 {
        let k = (n - 1) as nat;
        lemma_measures_of_new_group(p, op, deleted, inserted, tables, k);
        match created_entries(p, op, deleted, inserted, tables, k) {
            Err(e) => {},
            Ok((before, t)) => {
                lemma_created_entries_storable(p, op, deleted, inserted, tables, k);
                match created_entries(p, op, deleted, inserted, tables, n) {
                    Err(e) => {},
                    Ok((created, counted)) => {
                        lemma_created_entries_storable(p, op, deleted, inserted, tables, n);
                        lemma_decode_entry(created[k as int], Seq::empty());
                        assert(created.drop_last() =~= before);
                        lemma_with_measures_prefix(null_values(p.width), p, created, before, k);
                    },
                }
            },
        }
    }
}

} // verus!
