//! The operator of `GROUP BY`: it keeps, for every group, how many rows it
//! has and what each measure holds, and turns every change of a row into
//! the change of the group's row in the output.
//!
//! One database holds two datasets, each keyed by the dataset's number in
//! two bytes and the group's key: the measures' state of the group, and the
//! number of its rows. A second database holds the counter from which the
//! measures get their prefixes, a third what the aggregators keep for
//! themselves.

use vstd::prelude::*;
use crate::aggregation::aggregator::{
    aggregate_stored,
    count_moved,
    move_count,
    Aggregator,
    AggregatorOperation,
};
use crate::codec::{
    be_bytes,
    be_value,
    copy_range,
    encodable,
    encode_field,
    decode_field,
    get_be,
    lemma_be_value_bound,
    lemma_pow256_values,
    put_be,
    put_bytes,
};
use crate::errors::{
    ExecutionError,
    PipelineError,
    PipelineErrorValue,
    PortHandle,
    StorageError,
    TypeError,
    TypeErrorValue,
};
use crate::expression::execution::{eval, type_of, Expression, ExpressionValue};
use crate::prefix_transaction::PrefixTransaction;
use crate::storage::{
    handle_of,
    state_del,
    state_get,
    state_open,
    state_put,
    Database,
    Environment,
    TableValue,
    Transaction,
};
use crate::types::{
    Field,
    FieldValue,
    Operation,
    OperationValue,
    Record,
    RecordValue,
    Schema,
    SchemaValue,
};

verus! {

/// One column of the output.
#[derive(Debug)]
pub enum FieldRule {
    /// A grouping expression, whether its value is a column of the output,
    /// and the column's name. One that is no column still groups.
    Dimension(Box<Expression>, bool, String),
    /// An aggregated expression: the aggregator's argument, the aggregator
    /// and the column's name.
    Measure(Box<Expression>, Aggregator, String),
}

/// The mathematical value of a [`FieldRule`].
pub enum FieldRuleValue {
    Dimension(ExpressionValue, bool, Seq<char>),
    Measure(ExpressionValue, Aggregator, Seq<char>),
}

impl View for FieldRule {
    type V = FieldRuleValue;

    open spec fn view(&self) -> FieldRuleValue {
        match self {
            FieldRule::Dimension(e, included, name) => FieldRuleValue::Dimension(
                e@,
                *included,
                name@,
            ),
            FieldRule::Measure(e, aggregator, name) => FieldRuleValue::Measure(
                e@,
                *aggregator,
                name@,
            ),
        }
    }
}

/// The key under which the prefix counter is kept.
pub const COUNTER_KEY: u8 = 1;

/// The dataset of the measures' state.
pub const AGG_VALUES_DATASET_ID: u16 = 0x0000;

/// The dataset of the groups' row counts.
pub const AGG_COUNT_DATASET_ID: u16 = 0x0001;

/// The key of the one group that there is without dimensions.
pub const AGG_DEFAULT_DIMENSION_ID: u8 = 0xFF;

/// The version of the layout of a group's state: the first byte of every
/// state that is stored.
pub const STATE_VERSION: u8 = 1;

/// What the state of a group holds of one measure.
pub struct AggregationData<'a> {
    pub value: Field,
    pub state: Option<&'a [u8]>,
    pub prefix: u32,
}

/// The mathematical value of an [`AggregationData`].
pub struct AggregationDataValue {
    pub value: FieldValue,
    pub state: Option<Seq<u8>>,
    pub prefix: u32,
}

impl<'a> View for AggregationData<'a> {
    type V = AggregationDataValue;

    open spec fn view(&self) -> AggregationDataValue {
        AggregationDataValue {
            value: self.value@,
            state: match self.state {
                Some(s) => Some(s@),
                None => None,
            },
            prefix: self.prefix,
        }
    }
}

impl<'a> AggregationData<'a> {
    pub fn new(value: Field, state: Option<&'a [u8]>, prefix: u32) -> (res: Self)
        ensures
            res.value == value,
            res.state == state,
            res.prefix == prefix,
    {
        AggregationData { value, state, prefix }
    }
}

/// A measure of the output: its argument, its aggregator and its column.
pub struct MeasureValue {
    pub expression: ExpressionValue,
    pub aggregator: Aggregator,
    pub position: usize,
}

/// A dimension: its expression and, where it is in the output, its column.
pub struct DimensionValue {
    pub expression: ExpressionValue,
    pub position: Option<usize>,
}

/// The measures as values.
pub open spec fn measures_view(measures: Seq<(Box<Expression>, Box<Aggregator>, usize)>) -> Seq<
    MeasureValue,
> {
    Seq::new(
        measures.len(),
        |i: int|
            MeasureValue {
                expression: measures[i].0@,
                aggregator: *measures[i].1,
                position: measures[i].2,
            },
    )
}

/// The dimensions as values.
pub open spec fn dimensions_view(dimensions: Seq<(Box<Expression>, Option<usize>)>) -> Seq<
    DimensionValue,
> {
    Seq::new(
        dimensions.len(),
        |i: int| DimensionValue { expression: dimensions[i].0@, position: dimensions[i].1 },
    )
}

/// Whether a rule makes a column of the output.
pub open spec fn is_output(rule: FieldRuleValue) -> bool {
    match rule {
        FieldRuleValue::Dimension(_, included, _) => included,
        FieldRuleValue::Measure(_, _, _) => true,
    }
}

/// How many columns the rules make.
pub open spec fn output_width(rules: Seq<FieldRuleValue>) -> nat
    decreases rules.len(),
{
    if rules.len() == 0 {
        0
    } else {
        output_width(rules.drop_last()) + if is_output(rules.last()) {
            1nat
        } else {
            0nat
        }
    }
}

/// The measures of the rules, in order. The column of a rule is the number
/// of rules before it that make a column.
pub open spec fn rule_measures(rules: Seq<FieldRuleValue>) -> Seq<MeasureValue>
    decreases rules.len(),
{
    if rules.len() == 0 {
        Seq::empty()
    } else {
        let before = rule_measures(rules.drop_last());
        match rules.last() {
            FieldRuleValue::Measure(expression, aggregator, _) => before.push(
                MeasureValue {
                    expression,
                    aggregator,
                    position: output_width(rules.drop_last()) as usize,
                },
            ),
            _ => before,
        }
    }
}

/// The dimensions of the rules, in order.
pub open spec fn rule_dimensions(rules: Seq<FieldRuleValue>) -> Seq<DimensionValue>
    decreases rules.len(),
{
    if rules.len() == 0 {
        Seq::empty()
    } else {
        let before = rule_dimensions(rules.drop_last());
        match rules.last() {
            FieldRuleValue::Dimension(expression, included, _) => before.push(
                DimensionValue {
                    expression,
                    position: if included {
                        Some(output_width(rules.drop_last()) as usize)
                    } else {
                        None
                    },
                },
            ),
            _ => before,
        }
    }
}

/// The rules as values.
pub open spec fn rules_view(rules: Seq<FieldRule>) -> Seq<FieldRuleValue> {
    Seq::new(rules.len(), |i: int| rules[i]@)
}

/// The measures and the dimensions of an aggregation.
pub type OutputRules = (
    Vec<(Box<Expression>, Box<Aggregator>, usize)>,
    Vec<(Box<Expression>, Option<usize>)>,
);

pub proof fn lemma_output_width_bound(rules: Seq<FieldRuleValue>)
    ensures
        output_width(rules) <= rules.len(),
    decreases rules.len(),
{
    if rules.len() > 0 {
        lemma_output_width_bound(rules.drop_last());
    }
}

/// Every column of the measures and the dimensions of some rules lies
/// within the width of the output.
pub proof fn lemma_rule_positions(rules: Seq<FieldRuleValue>)
    ensures
        forall|i: int|
            0 <= i < rule_measures(rules).len() ==> (#[trigger] rule_measures(rules)[i]).position
                < output_width(rules),
        forall|i: int|
            0 <= i < rule_dimensions(rules).len() ==> match (#[trigger] rule_dimensions(
                rules,
            )[i]).position {
                Some(p) => p < output_width(rules),
                None => true,
            },
    decreases rules.len(),
{
    if rules.len() > 0 {
        lemma_rule_positions(rules.drop_last());
        lemma_output_width_bound(rules.drop_last());
    }
}

/// Sorts the rules into measures and dimensions and gives each its column.
pub fn populate_rules(output_field_rules: &[FieldRule]) -> (res: Result<OutputRules, PipelineError>)
    ensures
        res is Ok,
        measures_view(res->Ok_0.0@) == rule_measures(rules_view(output_field_rules@)),
        dimensions_view(res->Ok_0.1@) == rule_dimensions(rules_view(output_field_rules@)),
{
    let mut out_measures: Vec<(Box<Expression>, Box<Aggregator>, usize)> = Vec::new();
    let mut out_dimensions: Vec<(Box<Expression>, Option<usize>)> = Vec::new();
    let mut position: usize = 0;
    let mut i: usize = 0;
    let ghost rules = rules_view(output_field_rules@);
    assert(rules.take(0) =~= Seq::<FieldRuleValue>::empty());
    assert(measures_view(out_measures@) =~= rule_measures(rules.take(0)));
    assert(dimensions_view(out_dimensions@) =~= rule_dimensions(rules.take(0)));
    while i < output_field_rules.len()
        invariant
            i <= output_field_rules.len(),
            rules == rules_view(output_field_rules@),
            position == output_width(rules.take(i as int)),
            measures_view(out_measures@) == rule_measures(rules.take(i as int)),
            dimensions_view(out_dimensions@) == rule_dimensions(rules.take(i as int)),
        decreases output_field_rules.len() - i,
    {
        proof {
            assert(rules.take(i + 1).drop_last() =~= rules.take(i as int));
            assert(rules.take(i + 1).last() == output_field_rules@[i as int]@);
            lemma_output_width_bound(rules.take(i as int));
        }
        let ghost before_measures = measures_view(out_measures@);
        let ghost before_dimensions = dimensions_view(out_dimensions@);
        match &output_field_rules[i] {
            FieldRule::Measure(pre_aggr, aggr, _name) => {
                let e: Expression = (&**pre_aggr).clone();
                out_measures.push((Box::new(e), Box::new(*aggr), position));
                assert(measures_view(out_measures@) =~= before_measures.push(
                    MeasureValue { expression: pre_aggr@, aggregator: *aggr, position },
                ));
                position += 1;
            },
            FieldRule::Dimension(expression, is_value, _name) => {
                let e: Expression = (&**expression).clone();
                if *is_value {
                    out_dimensions.push((Box::new(e), Some(position)));
                    assert(dimensions_view(out_dimensions@) =~= before_dimensions.push(
                        DimensionValue { expression: expression@, position: Some(position) },
                    ));
                    position += 1;
                } else {
                    out_dimensions.push((Box::new(e), None));
                    assert(dimensions_view(out_dimensions@) =~= before_dimensions.push(
                        DimensionValue { expression: expression@, position: None },
                    ));
                }
            },
        }
        i += 1;
    }
    assert(rules.take(i as int) =~= rules);
    Ok((out_measures, out_dimensions))
}

/// The encodings of what the first `n` dimensions give on a record, one
/// after the other.
pub open spec fn encoded_dimensions(
    dimensions: Seq<DimensionValue>,
    record: RecordValue,
    n: nat,
) -> Result<Seq<u8>, PipelineErrorValue>
    decreases n,
{
    if n == 0 {
        Ok(Seq::empty())
    } else {
        match encoded_dimensions(dimensions, record, (n - 1) as nat) {
            Err(e) => Err(e),
            Ok(before) => match eval(dimensions[n - 1].expression, record) {
                Err(e) => Err(e),
                Ok(v) => Ok(before + encode_field(v)),
            },
        }
    }
}

/// Whether what the dimensions give on a record can be encoded: every
/// string and byte string among it is short enough for its length to be
/// written.
pub open spec fn dimensions_encodable(p: AggregationValue, record: RecordValue) -> bool {
    forall|i: int|
        0 <= i < p.dimensions.len() ==> encodable(
            #[trigger] eval(p.dimensions[i].expression, record)->Ok_0,
        )
}

/// Whether what the dimensions give on the records of a change can be
/// encoded.
pub open spec fn change_encodable(p: AggregationValue, op: OperationValue) -> bool {
    match op {
        OperationValue::Insert { new } => dimensions_encodable(p, new),
        OperationValue::Delete { old } => dimensions_encodable(p, old),
        OperationValue::Update { old, new } => dimensions_encodable(p, old)
            && dimensions_encodable(p, new),
    }
}

/// The key of a record's group: the encodings of what the dimensions give
/// on it, or one byte `0xFF` where there are no dimensions.
pub open spec fn group_key(dimensions: Seq<DimensionValue>, record: RecordValue) -> Result<
    Seq<u8>,
    PipelineErrorValue,
> {
    if dimensions.len() == 0 {
        Ok(seq![0xFFu8])
    } else {
        encoded_dimensions(dimensions, record, dimensions.len())
    }
}

/// The key of a group in a dataset.
pub open spec fn record_key(hash: Seq<u8>, dataset: u16) -> Seq<u8> {
    be_bytes(dataset as nat, 2) + hash
}

/// Whether a result holds the bytes or the error that `expected` names.
pub open spec fn bytes_agree(
    res: Result<Vec<u8>, PipelineError>,
    expected: Result<Seq<u8>, PipelineErrorValue>,
) -> bool {
    match expected {
        Ok(v) => res is Ok && res->Ok_0@ == v,
        Err(e) => res is Err && res->Err_0@ == e,
    }
}

/// The encodings of what the dimensions give on `record`, one after the
/// other. Where there is a key, every dimension could be evaluated and
/// what it gave could be encoded.
pub fn get_key(
    schema: &Schema,
    record: &Record,
    out_dimensions: &[(Box<Expression>, Option<usize>)],
) -> (res: Result<Vec<u8>, PipelineError>)
    ensures
        bytes_agree(
            res,
            encoded_dimensions(
                dimensions_view(out_dimensions@),
                record@,
                out_dimensions@.len(),
            ),
        ),
        res is Ok ==> forall|i: int|
            0 <= i < out_dimensions@.len() ==> eval(
                dimensions_view(out_dimensions@)[i].expression,
                record@,
            ) is Ok && encodable(
                #[trigger] eval(dimensions_view(out_dimensions@)[i].expression, record@)->Ok_0,
            ),
{
    let mut res_buffer: Vec<u8> = Vec::new();
    let mut i: usize = 0;
    while i < out_dimensions.len()
        invariant
            i <= out_dimensions.len(),
            encoded_dimensions(dimensions_view(out_dimensions@), record@, i as nat) == Ok::<
                Seq<u8>,
                PipelineErrorValue,
            >(res_buffer@),
            forall|j: int|
                0 <= j < i ==> eval(dimensions_view(out_dimensions@)[j].expression, record@)
                    is Ok && encodable(
                    #[trigger] eval(dimensions_view(out_dimensions@)[j].expression, record@)->Ok_0,
                ),
        decreases out_dimensions.len() - i,
    {
        let value = match out_dimensions[i].0.evaluate(record, schema) {
            Ok(v) => v,
            Err(e) => {
                proof {
                    lemma_encoded_dimensions_error(
                        dimensions_view(out_dimensions@),
                        record@,
                        (i + 1) as nat,
                        out_dimensions@.len(),
                    );
                }
                return Err(e);
            },
        };
        let bytes = value.encode();
        put_bytes(&mut res_buffer, bytes.as_slice());
        i += 1;
    }
    Ok(res_buffer)
}

/// A failure among the first dimensions is the failure of all of them.
pub proof fn lemma_encoded_dimensions_error(
    dimensions: Seq<DimensionValue>,
    record: RecordValue,
    n: nat,
    m: nat,
)
    requires
        n <= m,
        encoded_dimensions(dimensions, record, n) is Err,
    ensures
        encoded_dimensions(dimensions, record, m) == encoded_dimensions(dimensions, record, n),
    decreases m - n,
{
    if n < m {
        lemma_encoded_dimensions_error(dimensions, record, n, (m - 1) as nat);
    }
}

/// What the state of a group holds of one measure, as it is stored: the
/// measure's prefix in four bytes, the length of the encoded value in two,
/// the encoded value, the length of the aggregator's state in two, and that
/// state. A value or a state of more than 65535 bytes cannot be stored.
pub open spec fn encode_entry(prefix: u32, value: FieldValue, state: Option<Seq<u8>>) -> Result<
    Seq<u8>,
    PipelineErrorValue,
> {
    let v = encode_field(value);
    let s = match state {
        Some(s) => s,
        None => Seq::empty(),
    };
    if v.len() > 0xFFFF || s.len() > 0xFFFF {
        Err(PipelineErrorValue::InternalStorageError(StorageError::SerializationError))
    } else {
        Ok(be_bytes(prefix as nat, 4) + be_bytes(v.len(), 2) + v + be_bytes(s.len(), 2) + s)
    }
}

/// The failure of a buffer that ends too early.
pub open spec fn truncated() -> PipelineErrorValue {
    PipelineErrorValue::InternalTypeError(
        TypeErrorValue::DeserializationError(crate::errors::DeserializationError::BadDataLength),
    )
}

/// What stands at the start of a buffer, and how many bytes it takes. A
/// state of no bytes reads as no state.
pub open spec fn decode_entry(buf: Seq<u8>) -> Result<(nat, AggregationDataValue), PipelineErrorValue> {
    if buf.len() < 6 {
        Err(truncated())
    } else {
        let prefix = be_value(buf.subrange(0, 4)) as u32;
        let value_len = be_value(buf.subrange(4, 6)) as int;
        if buf.len() < 6 + value_len + 2 {
            Err(truncated())
        } else {
            match decode_field(buf.subrange(6, 6 + value_len)) {
                Err(e) => Err(
                    PipelineErrorValue::InternalTypeError(TypeErrorValue::DeserializationError(e)),
                ),
                Ok(value) => {
                    let state_len = be_value(buf.subrange(6 + value_len, 8 + value_len)) as int;
                    if buf.len() < 8 + value_len + state_len {
                        Err(truncated())
                    } else {
                        Ok(
                            (
                                (8 + value_len + state_len) as nat,
                                AggregationDataValue {
                                    value,
                                    state: if state_len > 0 {
                                        Some(
                                            buf.subrange(
                                                8 + value_len,
                                                8 + value_len + state_len,
                                            ),
                                        )
                                    } else {
                                        None
                                    },
                                    prefix,
                                },
                            ),
                        )
                    }
                },
            }
        }
    }
}

/// The bytes of an optional byte string.
pub open spec fn optional_bytes(state: Option<Vec<u8>>) -> Option<Seq<u8>> {
    match state {
        Some(s) => Some(s@),
        None => None,
    }
}

/// The operator of `GROUP BY`.
#[derive(Debug)]
pub struct AggregationProcessor {
    pub out_dimensions: Vec<(Box<Expression>, Option<usize>)>,
    pub out_measures: Vec<(Box<Expression>, Box<Aggregator>, usize)>,
    pub width: usize,
    pub db: Option<Database>,
    pub meta_db: Option<Database>,
    pub aggregators_db: Option<Database>,
    pub input_schema: Schema,
}

/// The mathematical value of an [`AggregationProcessor`].
pub struct AggregationValue {
    pub dimensions: Seq<DimensionValue>,
    pub measures: Seq<MeasureValue>,
    pub width: nat,
    pub db: Option<Database>,
    pub meta_db: Option<Database>,
    pub aggregators_db: Option<Database>,
    pub input_schema: SchemaValue,
}

impl View for AggregationProcessor {
    type V = AggregationValue;

    open spec fn view(&self) -> AggregationValue {
        AggregationValue {
            dimensions: dimensions_view(self.out_dimensions@),
            measures: measures_view(self.out_measures@),
            width: self.width as nat,
            db: self.db,
            meta_db: self.meta_db,
            aggregators_db: self.aggregators_db,
            input_schema: self.input_schema@,
        }
    }
}

impl AggregationValue {
    /// Every column of a measure or a dimension lies within the width of
    /// the output.
    pub open spec fn wf(self) -> bool {
        &&& forall|i: int|
            0 <= i < self.measures.len() ==> (#[trigger] self.measures[i]).position < self.width
        &&& forall|i: int|
            0 <= i < self.dimensions.len() ==> match (#[trigger] self.dimensions[i]).position {
                Some(p) => p < self.width,
                None => true,
            }
    }
}

/// What has been made of the measures so far: the databases, how far the
/// group's state was read, the new state written, and the two records of
/// the output as far as they are filled.
pub struct Progress {
    pub tables: Seq<TableValue>,
    pub offset: nat,
    pub next_state: Seq<u8>,
    pub out_delete: Seq<FieldValue>,
    pub out_insert: Seq<FieldValue>,
}

/// What the group's state holds of the next measure, and how many bytes
/// that takes: nothing where the group has no state.
pub open spec fn current_data(cur_state: Option<Seq<u8>>, offset: nat) -> Result<
    Option<(nat, AggregationDataValue)>,
    PipelineErrorValue,
> {
    match cur_state {
        None => Ok(None),
        Some(s) => match decode_entry(s.skip(offset as int)) {
            Err(e) => Err(e),
            Ok(x) => Ok(Some(x)),
        },
    }
}

/// What a measure's argument gives on the row that leaves and on the row
/// that comes. An insert has only a row that comes, a delete only one that
/// leaves: both values are that row's then.
pub open spec fn operands(
    expression: ExpressionValue,
    op: AggregatorOperation,
    deleted: Option<RecordValue>,
    inserted: Option<RecordValue>,
) -> Result<(FieldValue, FieldValue), PipelineErrorValue> {
    match op {
        AggregatorOperation::Insert => match eval(expression, inserted->Some_0) {
            Err(e) => Err(e),
            Ok(v) => Ok((v, v)),
        },
        AggregatorOperation::Delete => match eval(expression, deleted->Some_0) {
            Err(e) => Err(e),
            Ok(v) => Ok((v, v)),
        },
        AggregatorOperation::Update => match eval(expression, deleted->Some_0) {
            Err(e) => Err(e),
            Ok(d) => match eval(expression, inserted->Some_0) {
                Err(e) => Err(e),
                Ok(i) => Ok((d, i)),
            },
        },
    }
}

/// A failure of the storage as a failure of the operator.
pub open spec fn storage_failure(e: StorageError) -> PipelineErrorValue {
    PipelineErrorValue::InternalStorageError(e)
}

/// The number that the counter stands at: one where it was never counted.
pub open spec fn counter_value(found: Option<Seq<u8>>) -> Result<u32, PipelineErrorValue> {
    match found {
        None => Ok(1),
        Some(v) => if v.len() == 4 {
            Ok(be_value(v) as u32)
        } else {
            Err(storage_failure(StorageError::DeserializationError))
        },
    }
}

/// The next prefix, and the databases with the counter moved on. The
/// counter only rises: at its last value it hands out nothing more.
pub open spec fn next_counter(tables: Seq<TableValue>, meta_db: Option<Database>) -> Result<
    (u32, Seq<TableValue>),
    PipelineErrorValue,
> {
    match meta_db {
        None => Err(storage_failure(StorageError::InvalidDatabase)),
        Some(db) => match state_get(tables, db, seq![1u8]) {
            Err(e) => Err(storage_failure(e)),
            Ok(found) => match counter_value(found) {
                Err(e) => Err(e),
                Ok(c) => if c == u32::MAX {
                    Err(storage_failure(StorageError::CounterExhausted))
                } else {
                    Ok(
                        (
                            (c + 1) as u32,
                            state_put(tables, db, seq![1u8], be_bytes((c + 1) as nat, 4)),
                        ),
                    )
                },
            },
        },
    }
}

/// The prefix of a measure: the one that the group's state holds, or a new
/// one from the counter where the group has no state.
pub open spec fn measure_prefix(
    cur: Option<(nat, AggregationDataValue)>,
    tables: Seq<TableValue>,
    meta_db: Option<Database>,
) -> Result<(u32, Seq<TableValue>), PipelineErrorValue> {
    match cur {
        Some((_, data)) => Ok((data.prefix, tables)),
        None => next_counter(tables, meta_db),
    }
}

/// The type of a measure's argument, and that there is a database for the
/// aggregators.
pub open spec fn measure_type(p: AggregationValue, m: MeasureValue) -> Result<
    crate::types::FieldType,
    PipelineErrorValue,
> {
    match type_of(m.expression, p.input_schema) {
        Err(e) => Err(e),
        Ok(t) => if p.aggregators_db is None {
            Err(storage_failure(StorageError::InvalidDatabase))
        } else {
            Ok(t.return_type)
        },
    }
}

/// One measure: reads what the state holds of it, evaluates its argument,
/// finds its prefix, lets the aggregator work behind that prefix in the
/// database of the aggregators, and writes the value into the output and
/// the new state behind the state of the measures before it. The old value
/// goes into the record to delete where there was one.
pub open spec fn measure_step(
    p: AggregationValue,
    op: AggregatorOperation,
    cur_state: Option<Seq<u8>>,
    deleted: Option<RecordValue>,
    inserted: Option<RecordValue>,
    m: MeasureValue,
    acc: Progress,
) -> Result<Progress, PipelineErrorValue> {
    match current_data(cur_state, acc.offset) {
        Err(e) => Err(e),
        Ok(cur) => match operands(m.expression, op, deleted, inserted) {
            Err(e) => Err(e),
            Ok((d, i)) => match measure_prefix(cur, acc.tables, p.meta_db) {
                Err(e) => Err(e),
                Ok((prefix, tables)) => match measure_type(p, m) {
                    Err(e) => Err(e),
                    Ok(return_type) => match aggregate_stored(
                        m.aggregator,
                        op,
                        match cur {
                            Some((_, data)) => data.state,
                            None => None,
                        },
                        d,
                        i,
                        return_type,
                        prefix,
                        p.aggregators_db->Some_0,
                        tables,
                    ) {
                        Err(e) => Err(e),
                        Ok((r, stored)) => match encode_entry(prefix, r.value, r.state) {
                            Err(e) => Err(e),
                            Ok(bytes) => Ok(
                                Progress {
                                    tables: stored,
                                    offset: match cur {
                                        Some((len, _)) => acc.offset + len,
                                        None => acc.offset,
                                    },
                                    next_state: acc.next_state + bytes,
                                    out_delete: match cur {
                                        Some((_, data)) => acc.out_delete.update(
                                            m.position as int,
                                            data.value,
                                        ),
                                        None => acc.out_delete,
                                    },
                                    out_insert: acc.out_insert.update(m.position as int, r.value),
                                },
                            ),
                        },
                    },
                },
            },
        },
    }
}

/// The first `n` measures, one after the other. The first failure is the
/// result.
pub open spec fn measures_fold(
    p: AggregationValue,
    op: AggregatorOperation,
    cur_state: Option<Seq<u8>>,
    deleted: Option<RecordValue>,
    inserted: Option<RecordValue>,
    n: nat,
    init: Progress,
) -> Result<Progress, PipelineErrorValue>
    decreases n,
{
    if n == 0 {
        Ok(init)
    } else {
        match measures_fold(p, op, cur_state, deleted, inserted, (n - 1) as nat, init) {
            Err(e) => Err(e),
            Ok(acc) => measure_step(p, op, cur_state, deleted, inserted, p.measures[n - 1], acc),
        }
    }
}

/// A failure among the first measures is the failure of all of them.
pub proof fn lemma_measures_fold_error(
    p: AggregationValue,
    op: AggregatorOperation,
    cur_state: Option<Seq<u8>>,
    deleted: Option<RecordValue>,
    inserted: Option<RecordValue>,
    n: nat,
    m: nat,
    init: Progress,
)
    requires
        n <= m,
        measures_fold(p, op, cur_state, deleted, inserted, n, init) is Err,
    ensures
        measures_fold(p, op, cur_state, deleted, inserted, m, init) == measures_fold(
            p,
            op,
            cur_state,
            deleted,
            inserted,
            n,
            init,
        ),
    decreases m - n,
{
    if n < m {
        lemma_measures_fold_error(p, op, cur_state, deleted, inserted, n, (m - 1) as nat, init);
    }
}

/// The output record with the values of the first `n` dimensions on
/// `record` in their columns. A dimension that is no column is not
/// evaluated.
pub open spec fn filled_dimensions(
    dimensions: Seq<DimensionValue>,
    record: RecordValue,
    out: Seq<FieldValue>,
    n: nat,
) -> Result<Seq<FieldValue>, PipelineErrorValue>
    decreases n,
{
    if n == 0 {
        Ok(out)
    } else {
        match filled_dimensions(dimensions, record, out, (n - 1) as nat) {
            Err(e) => Err(e),
            Ok(before) => match dimensions[n - 1].position {
                None => Ok(before),
                Some(p) => match eval(dimensions[n - 1].expression, record) {
                    Err(e) => Err(e),
                    Ok(v) => Ok(before.update(p as int, v)),
                },
            },
        }
    }
}

pub proof fn lemma_filled_dimensions_error(
    dimensions: Seq<DimensionValue>,
    record: RecordValue,
    out: Seq<FieldValue>,
    n: nat,
    m: nat,
)
    requires
        n <= m,
        filled_dimensions(dimensions, record, out, n) is Err,
    ensures
        filled_dimensions(dimensions, record, out, m) == filled_dimensions(
            dimensions,
            record,
            out,
            n,
        ),
    decreases m - n,
{
    if n < m {
        lemma_filled_dimensions_error(dimensions, record, out, n, (m - 1) as nat);
    }
}

/// The count under `key` before, and the databases after it has moved by
/// `delta`, up or down. A count of zero is not kept, and a count that
/// would fall below zero or outgrow its eight bytes is refused.
pub open spec fn segment_count(
    tables: Seq<TableValue>,
    db: Database,
    key: Seq<u8>,
    delta: u64,
    decr: bool,
) -> Result<(u64, Seq<TableValue>), PipelineErrorValue> {
    count_moved(tables, db, key, delta, decr)
}

/// A record of the output.
pub open spec fn output_record(values: Seq<FieldValue>) -> RecordValue {
    RecordValue { schema_id: None, values, version: None }
}

/// An output record with every column null.
pub open spec fn null_values(width: nat) -> Seq<FieldValue> {
    Seq::new(width, |i: int| FieldValue::Null)
}

/// The state of a group as it is stored: the version of the layout, then
/// what the state holds of each measure.
pub open spec fn versioned(state: Seq<u8>) -> Seq<u8> {
    seq![STATE_VERSION] + state
}

/// What a stored state holds of the measures: what follows the version. A
/// state without the version, or with another, cannot be read.
pub open spec fn unversioned(found: Option<Seq<u8>>) -> Result<
    Option<Seq<u8>>,
    PipelineErrorValue,
> {
    match found {
        None => Ok(None),
        Some(v) => if v.len() > 0 && v[0] == STATE_VERSION {
            Ok(Some(v.skip(1)))
        } else {
            Err(storage_failure(StorageError::DeserializationError))
        },
    }
}

/// The state of a group, read from its dataset.
pub open spec fn group_state(tables: Seq<TableValue>, db: Database, hash: Seq<u8>) -> Result<
    Option<Seq<u8>>,
    PipelineErrorValue,
> {
    match state_get(tables, db, record_key(hash, 0)) {
        Err(e) => Err(storage_failure(e)),
        Ok(s) => unversioned(s),
    }
}

/// A state that is stored is read back as it was.
pub proof fn lemma_versioned(state: Seq<u8>)
    ensures
        unversioned(Some(versioned(state))) == Ok::<Option<Seq<u8>>, PipelineErrorValue>(
            Some(state),
        ),
{
    assert(versioned(state).skip(1) =~= state);
}

/// Where the measures start from.
pub open spec fn start_of_measures(tables: Seq<TableValue>, width: nat) -> Progress {
    Progress {
        tables,
        offset: 0,
        next_state: Seq::empty(),
        out_delete: null_values(width),
        out_insert: null_values(width),
    }
}

/// Whether a row is refused before anything is written for it: it has
/// no group key, or the count of its group cannot move.
pub open spec fn refused_at_once(
    p: AggregationValue,
    tables: Seq<TableValue>,
    db: Database,
    record: RecordValue,
    decr: bool,
) -> bool {
    match group_key(p.dimensions, record) {
        Err(_) => true,
        Ok(hash) => segment_count(tables, db, record_key(hash, 1), 1, decr) is Err,
    }
}

/// Whether a change is refused before anything is written for it: its
/// row, or the first of its rows, has no group key, or the count of the
/// group that a row comes to or goes from cannot move.
pub open spec fn change_refused_at_once(
    p: AggregationValue,
    tables: Seq<TableValue>,
    db: Database,
    op: OperationValue,
) -> bool {
    match op {
        OperationValue::Insert { new } => refused_at_once(p, tables, db, new, false),
        OperationValue::Delete { old } => refused_at_once(p, tables, db, old, true),
        OperationValue::Update { old, new } => group_key(p.dimensions, old) is Err || group_key(
            p.dimensions,
            new,
        ) is Err || (group_key(p.dimensions, old) != group_key(p.dimensions, new)
            && refused_at_once(p, tables, db, old, true)),
    }
}

/// What the insert of a row does: the group's count rises; the measures
/// take the row in; the output gets the insert of the group's row where the
/// group had no state, and its update where it had; the new state is
/// written.
#[verifier::opaque]
pub open spec fn insert_outcome(
    p: AggregationValue,
    tables: Seq<TableValue>,
    db: Database,
    new: RecordValue,
) -> Result<(OperationValue, Seq<TableValue>), PipelineErrorValue> {
    match group_key(p.dimensions, new) {
        Err(e) => Err(e),
        Ok(hash) => match segment_count(tables, db, record_key(hash, 1), 1, false) {
            Err(e) => Err(e),
            Ok((_, counted)) => match group_state(counted, db, hash) {
                Err(e) => Err(e),
                Ok(cur_state) => match measures_fold(
                    p,
                    AggregatorOperation::Insert,
                    cur_state,
                    None,
                    Some(new),
                    p.measures.len(),
                    start_of_measures(counted, p.width),
                ) {
                    Err(e) => Err(e),
                    Ok(pr) => match filled_dimensions(
                        p.dimensions,
                        new,
                        pr.out_insert,
                        p.dimensions.len(),
                    ) {
                        Err(e) => Err(e),
                        Ok(out_insert) => if cur_state is None {
                            Ok(
                                (
                                    OperationValue::Insert { new: output_record(out_insert) },
                                    state_put(pr.tables, db, record_key(hash, 0), versioned(pr.next_state)),
                                ),
                            )
                        } else {
                            match filled_dimensions(
                                p.dimensions,
                                new,
                                pr.out_delete,
                                p.dimensions.len(),
                            ) {
                                Err(e) => Err(e),
                                Ok(out_delete) => Ok(
                                    (
                                        OperationValue::Update {
                                            old: output_record(out_delete),
                                            new: output_record(out_insert),
                                        },
                                        state_put(
                                            pr.tables,
                                            db,
                                            record_key(hash, 0),
                                            versioned(pr.next_state),
                                        ),
                                    ),
                                ),
                            }
                        },
                    },
                },
            },
        },
    }
}

/// What the delete of a row does: the group's count falls; the measures
/// let the row go; where it was the group's last row the output gets the
/// delete of the group's row and the state is removed, else the output
/// gets the update of the group's row and the new state is written.
#[verifier::opaque]
pub open spec fn delete_outcome(
    p: AggregationValue,
    tables: Seq<TableValue>,
    db: Database,
    old_record: RecordValue,
) -> Result<(OperationValue, Seq<TableValue>), PipelineErrorValue> {
    match group_key(p.dimensions, old_record) {
        Err(e) => Err(e),
        Ok(hash) => match segment_count(tables, db, record_key(hash, 1), 1, true) {
            Err(e) => Err(e),
            Ok((prev_count, counted)) => match group_state(counted, db, hash) {
                Err(e) => Err(e),
                Ok(cur_state) => match measures_fold(
                    p,
                    AggregatorOperation::Delete,
                    cur_state,
                    Some(old_record),
                    None,
                    p.measures.len(),
                    start_of_measures(counted, p.width),
                ) {
                    Err(e) => Err(e),
                    Ok(pr) => if prev_count == 1 {
                        match filled_dimensions(
                            p.dimensions,
                            old_record,
                            pr.out_delete,
                            p.dimensions.len(),
                        ) {
                            Err(e) => Err(e),
                            Ok(out_delete) => Ok(
                                (
                                    OperationValue::Delete { old: output_record(out_delete) },
                                    state_del(pr.tables, db, record_key(hash, 0), None),
                                ),
                            ),
                        }
                    } else {
                        match filled_dimensions(
                            p.dimensions,
                            old_record,
                            pr.out_insert,
                            p.dimensions.len(),
                        ) {
                            Err(e) => Err(e),
                            Ok(out_insert) => match filled_dimensions(
                                p.dimensions,
                                old_record,
                                pr.out_delete,
                                p.dimensions.len(),
                            ) {
                                Err(e) => Err(e),
                                Ok(out_delete) => Ok(
                                    (
                                        OperationValue::Update {
                                            old: output_record(out_delete),
                                            new: output_record(out_insert),
                                        },
                                        state_put(
                                            pr.tables,
                                            db,
                                            record_key(hash, 0),
                                            versioned(pr.next_state),
                                        ),
                                    ),
                                ),
                            },
                        }
                    },
                },
            },
        },
    }
}

/// What the update of a row within its group does: the count stays; the
/// measures exchange the row; the output gets the update of the group's
/// row; the new state is written.
#[verifier::opaque]
pub open spec fn update_outcome(
    p: AggregationValue,
    tables: Seq<TableValue>,
    db: Database,
    old_record: RecordValue,
    new: RecordValue,
    hash: Seq<u8>,
) -> Result<(OperationValue, Seq<TableValue>), PipelineErrorValue> {
    match group_state(tables, db, hash) {
        Err(e) => Err(e),
        Ok(cur_state) => match measures_fold(
            p,
            AggregatorOperation::Update,
            cur_state,
            Some(old_record),
            Some(new),
            p.measures.len(),
            start_of_measures(tables, p.width),
        ) {
            Err(e) => Err(e),
            Ok(pr) => match filled_dimensions(p.dimensions, new, pr.out_insert, p.dimensions.len()) {
                Err(e) => Err(e),
                Ok(out_insert) => match filled_dimensions(
                    p.dimensions,
                    old_record,
                    pr.out_delete,
                    p.dimensions.len(),
                ) {
                    Err(e) => Err(e),
                    Ok(out_delete) => Ok(
                        (
                            OperationValue::Update {
                                old: output_record(out_delete),
                                new: output_record(out_insert),
                            },
                            state_put(pr.tables, db, record_key(hash, 0), versioned(pr.next_state)),
                        ),
                    ),
                },
            },
        },
    }
}

/// What a change of the input does: what is emitted, and the databases
/// after it. An update that moves a row to another group is the delete of
/// the old row followed by the insert of the new one.
pub open spec fn aggregate_outcome(
    p: AggregationValue,
    tables: Seq<TableValue>,
    db: Database,
    op: OperationValue,
) -> Result<(Seq<OperationValue>, Seq<TableValue>), PipelineErrorValue> {
    match op {
        OperationValue::Insert { new } => match insert_outcome(p, tables, db, new) {
            Err(e) => Err(e),
            Ok((out, after)) => Ok((seq![out], after)),
        },
        OperationValue::Delete { old } => match delete_outcome(p, tables, db, old) {
            Err(e) => Err(e),
            Ok((out, after)) => Ok((seq![out], after)),
        },
        OperationValue::Update { old, new } => match group_key(p.dimensions, old) {
            Err(e) => Err(e),
            Ok(old_hash) => match group_key(p.dimensions, new) {
                Err(e) => Err(e),
                Ok(new_hash) => if old_hash == new_hash {
                    match update_outcome(p, tables, db, old, new, old_hash) {
                        Err(e) => Err(e),
                        Ok((out, after)) => Ok((seq![out], after)),
                    }
                } else {
                    match delete_outcome(p, tables, db, old) {
                        Err(e) => Err(e),
                        Ok((deleted, between)) => match insert_outcome(p, between, db, new) {
                            Err(e) => Err(e),
                            Ok((inserted, after)) => Ok((seq![deleted, inserted], after)),
                        },
                    }
                },
            },
        },
    }
}

/// The views of an optional record.
pub open spec fn optional_record(record: Option<&Record>) -> Option<RecordValue> {
    match record {
        Some(r) => Some(r@),
        None => None,
    }
}

/// The failure of a buffer that ends too early.
fn truncated_error() -> (res: PipelineError)
    ensures
        res@ == truncated(),
{
    PipelineError::InternalTypeError(
        TypeError::DeserializationError(crate::errors::DeserializationError::BadDataLength),
    )
}

/// How many columns the rules make.
fn count_outputs(rules: &[FieldRule]) -> (res: usize)
    ensures
        res == output_width(rules_view(rules@)),
{
    let ghost values = rules_view(rules@);
    let mut n: usize = 0;
    let mut i: usize = 0;
    assert(values.take(0) =~= Seq::<FieldRuleValue>::empty());
    while i < rules.len()
        invariant
            i <= rules.len(),
            values == rules_view(rules@),
            n == output_width(values.take(i as int)),
        decreases rules.len() - i,
    {
        proof {
            assert(values.take(i + 1).drop_last() =~= values.take(i as int));
            lemma_output_width_bound(values.take(i as int));
        }
        let counts = match &rules[i] {
            FieldRule::Measure(_, _, _) => true,
            FieldRule::Dimension(_, included, _) => *included,
        };
        if counts {
            n += 1;
        }
        i += 1;
    }
    assert(values.take(i as int) =~= values);
    n
}

impl AggregationProcessor {
    /// Whether every column of a measure or a dimension lies within the
    /// width of the output, as it does in every operator that `new` makes.
    pub fn is_well_formed(&self) -> (res: bool)
        ensures
            res == self@.wf(),
    {
        let mut i: usize = 0;
        while i < self.out_measures.len()
            invariant
                i <= self.out_measures@.len(),
                forall|j: int| 0 <= j < i ==> (#[trigger] self@.measures[j]).position < self@.width,
            decreases self.out_measures.len() - i,
        {
            if self.out_measures[i].2 >= self.width {
                assert(self@.measures[i as int].position >= self@.width);
                return false;
            }
            i += 1;
        }
        let mut k: usize = 0;
        while k < self.out_dimensions.len()
            invariant
                k <= self.out_dimensions@.len(),
                forall|j: int|
                    0 <= j < self@.measures.len() ==> (#[trigger] self@.measures[j]).position
                        < self@.width,
                forall|j: int|
                    0 <= j < k ==> match (#[trigger] self@.dimensions[j]).position {
                        Some(p) => p < self@.width,
                        None => true,
                    },
            decreases self.out_dimensions.len() - k,
        {
            match self.out_dimensions[k].1 {
                Some(p) => {
                    if p >= self.width {
                        assert(self@.dimensions[k as int].position == Some(p));
                        return false;
                    }
                },
                None => {},
            }
            k += 1;
        }
        true
    }

    /// The operator for the given rules. Its databases are opened by
    /// `init`.
    pub fn new(output_field_rules: Vec<FieldRule>, input_schema: Schema) -> (res: Self)
        ensures
            res@.measures == rule_measures(rules_view(output_field_rules@)),
            res@.dimensions == rule_dimensions(rules_view(output_field_rules@)),
            res@.width == output_width(rules_view(output_field_rules@)),
            res@.db is None,
            res@.meta_db is None,
            res@.aggregators_db is None,
            res.input_schema == input_schema,
            res@.wf(),
    {
        let (out_measures, out_dimensions) = populate_rules(output_field_rules.as_slice()).unwrap();
        let width = count_outputs(output_field_rules.as_slice());
        proof {
            lemma_rule_positions(rules_view(output_field_rules@));
        }
        AggregationProcessor {
            out_dimensions,
            out_measures,
            width,
            db: None,
            meta_db: None,
            aggregators_db: None,
            input_schema,
        }
    }

    /// Puts what the dimensions give on `in_rec` into their columns of
    /// `out_rec`.
    pub fn fill_dimensions(&self, in_rec: &Record, out_rec: &mut Record) -> (res: Result<
        (),
        PipelineError,
    >)
        requires
            self@.wf(),
            old(out_rec).values@.len() == self.width,
        ensures
            match filled_dimensions(
                self@.dimensions,
                in_rec@,
                old(out_rec)@.values,
                self@.dimensions.len(),
            ) {
                Ok(values) => res is Ok && final(out_rec)@ == (RecordValue {
                    values,
                    ..old(out_rec)@
                }),
                Err(e) => res is Err && res->Err_0@ == e,
            },
            final(out_rec).values@.len() == self.width,
    {
        let mut i: usize = 0;
        while i < self.out_dimensions.len()
            invariant
                i <= self.out_dimensions.len(),
                self@.wf(),
                out_rec.values@.len() == self.width,
                out_rec.schema_id == old(out_rec).schema_id,
                out_rec.version == old(out_rec).version,
                filled_dimensions(self@.dimensions, in_rec@, old(out_rec)@.values, i as nat) == Ok::<
                    Seq<FieldValue>,
                    PipelineErrorValue,
                >(out_rec@.values),
            decreases self.out_dimensions.len() - i,
        {
            assert(self@.dimensions[i as int].position == self.out_dimensions@[i as int].1);
            if let Some(position) = self.out_dimensions[i].1 {
                let value = match self.out_dimensions[i].0.evaluate(in_rec, &self.input_schema) {
                    Ok(v) => v,
                    Err(e) => {
                        proof {
                            lemma_filled_dimensions_error(
                                self@.dimensions,
                                in_rec@,
                                old(out_rec)@.values,
                                (i + 1) as nat,
                                self@.dimensions.len(),
                            );
                        }
                        return Err(e);
                    },
                };
                out_rec.set_value(position, value);
            }
            i += 1;
        }
        Ok(())
    }

    /// The key of a group in a dataset: the dataset's number in two bytes,
    /// then the group's key.
    pub fn get_record_key(&self, hash: &Vec<u8>, database_id: u16) -> (res: Result<
        Vec<u8>,
        PipelineError,
    >)
        ensures
            res is Ok,
            res->Ok_0@ == record_key(hash@, database_id),
    {
        let mut vec: Vec<u8> = Vec::new();
        put_be(&mut vec, database_id as u128, 2);
        put_bytes(&mut vec, hash.as_slice());
        Ok(vec)
    }

    /// Hands out the next prefix and moves the counter on. Where the call
    /// fails, nothing is written.
    pub fn get_counter(&self, txn: &mut Transaction) -> (res: Result<u32, PipelineError>)
        ensures
            final(txn)@.len() == old(txn)@.len(),
            match next_counter(old(txn)@, self@.meta_db) {
                Ok((prefix, tables)) => res == Ok::<u32, PipelineError>(prefix) && final(txn)@
                    == tables,
                Err(e) => res is Err && res->Err_0@ == e && final(txn)@ == old(txn)@,
            },
    {
        let meta_db = match self.meta_db {
            Some(d) => d,
            None => {
                return Err(PipelineError::InternalStorageError(StorageError::InvalidDatabase));
            },
        };
        let mut key: Vec<u8> = Vec::new();
        key.push(COUNTER_KEY);
        assert(key@ =~= seq![1u8]);
        let curr_ctr: u32 = match txn.get(meta_db, key.as_slice()) {
            Err(e) => {
                return Err(PipelineError::InternalStorageError(e));
            },
            Ok(Some(v)) => {
                if v.len() != 4 {
                    return Err(
                        PipelineError::InternalStorageError(StorageError::DeserializationError),
                    );
                }
                proof {
                    lemma_pow256_values();
                    lemma_be_value_bound(v@);
                    assert(v@.subrange(0, 4) =~= v@);
                }
                get_be(v.as_slice(), 0, 4) as u32
            },
            Ok(None) => 1,
        };
        if curr_ctr == u32::MAX {
            return Err(PipelineError::InternalStorageError(StorageError::CounterExhausted));
        }
        let mut value: Vec<u8> = Vec::new();
        put_be(&mut value, (curr_ctr + 1) as u128, 4);
        assert(value@ =~= be_bytes((curr_ctr + 1) as nat, 4));
        match txn.put(meta_db, key.as_slice(), value.as_slice()) {
            Ok(()) => Ok(curr_ctr + 1),
            Err(e) => Err(PipelineError::InternalStorageError(e)),
        }
    }

    /// Reads what stands at the start of `buf`: the prefix, the value and
    /// the state of one measure. Says how many bytes that took.
    pub fn decode_buffer(buf: &[u8]) -> (res: Result<(usize, AggregationData<'_>), PipelineError>)
        ensures
            match decode_entry(buf@) {
                Ok((len, data)) => res is Ok && res->Ok_0.0 == len && res->Ok_0.1@ == data && len
                    <= buf@.len(),
                Err(e) => res is Err && res->Err_0@ == e,
            },
    {
        if buf.len() < 6 {
            return Err(truncated_error());
        }
        proof {
            lemma_pow256_values();
            lemma_be_value_bound(buf@.subrange(0, 4));
            lemma_be_value_bound(buf@.subrange(4, 6));
        }
        let prefix = get_be(buf, 0, 4) as u32;
        let val_len = get_be(buf, 4, 2) as usize;
        if buf.len() - 6 < val_len + 2 {
            return Err(truncated_error());
        }
        let val = match Field::decode(&buf[6..6 + val_len]) {
            Ok(v) => v,
            Err(e) => {
                return Err(PipelineError::InternalTypeError(TypeError::DeserializationError(e)));
            },
        };
        proof {
            lemma_be_value_bound(buf@.subrange(6 + val_len, 8 + val_len));
        }
        let state_len = get_be(buf, 6 + val_len, 2) as usize;
        if buf.len() - (8 + val_len) < state_len {
            return Err(truncated_error());
        }
        let state: Option<&[u8]> = if state_len > 0 {
            Some(&buf[8 + val_len..8 + val_len + state_len])
        } else {
            None
        };
        Ok((8 + val_len + state_len, AggregationData::new(val, state, prefix)))
    }

    /// Writes the prefix, the value and the state of one measure as they
    /// are stored. Gives the bytes and their number.
    pub fn encode_buffer(prefix: u32, value: &Field, state: &Option<Vec<u8>>) -> (res: Result<
        (usize, Vec<u8>),
        PipelineError,
    >)
        ensures
            match encode_entry(prefix, value@, optional_bytes(*state)) {
                Ok(bytes) => res is Ok && res->Ok_0.1@ == bytes && res->Ok_0.0 == bytes.len(),
                Err(e) => res is Err && res->Err_0@ == e,
            },
    {
        let sz_val = value.encode();
        let state_len: usize = match state {
            Some(s) => s.len(),
            None => 0,
        };
        if sz_val.len() > 0xFFFF || state_len > 0xFFFF {
            return Err(PipelineError::InternalStorageError(StorageError::SerializationError));
        }
        let mut r: Vec<u8> = Vec::new();
        put_be(&mut r, prefix as u128, 4);
        put_be(&mut r, sz_val.len() as u128, 2);
        put_bytes(&mut r, sz_val.as_slice());
        put_be(&mut r, state_len as u128, 2);
        match state {
            Some(s) => {
                put_bytes(&mut r, s.as_slice());
            },
            None => {
                assert(r@ + Seq::<u8>::empty() =~= r@);
            },
        }
        Ok((r.len(), r))
    }

    /// What a measure's argument gives on the row that leaves and on the
    /// row that comes.
    fn evaluate_operands(
        &self,
        expression: &Expression,
        op: AggregatorOperation,
        deleted_record: Option<&Record>,
        inserted_record: Option<&Record>,
    ) -> (res: Result<(Field, Field), PipelineError>)
        requires
            op != AggregatorOperation::Insert ==> deleted_record is Some,
            op != AggregatorOperation::Delete ==> inserted_record is Some,
        ensures
            match operands(
                expression@,
                op,
                optional_record(deleted_record),
                optional_record(inserted_record),
            ) {
                Ok((d, i)) => res is Ok && res->Ok_0.0@ == d && res->Ok_0.1@ == i,
                Err(e) => res is Err && res->Err_0@ == e,
            },
    {
        match op {
            AggregatorOperation::Insert => {
                let v = expression.evaluate(inserted_record.unwrap(), &self.input_schema)?;
                Ok((v.clone(), v))
            },
            AggregatorOperation::Delete => {
                let v = expression.evaluate(deleted_record.unwrap(), &self.input_schema)?;
                Ok((v.clone(), v))
            },
            AggregatorOperation::Update => {
                let d = expression.evaluate(deleted_record.unwrap(), &self.input_schema)?;
                let i = expression.evaluate(inserted_record.unwrap(), &self.input_schema)?;
                Ok((d, i))
            },
        }
    }

    /// Takes the change into the measure at `n`: reads what the group's
    /// state holds of it at `offset`, lets the aggregator work on it, puts
    /// the old value into `out_rec_delete` and the new one into
    /// `out_rec_insert`, and writes the measure's new state behind
    /// `next_state`. Gives the offset of the next measure.
    fn fill_measure(
        &self,
        n: usize,
        txn: &mut Transaction,
        cur_state: &Option<Vec<u8>>,
        offset: usize,
        deleted_record: Option<&Record>,
        inserted_record: Option<&Record>,
        out_rec_delete: &mut Record,
        out_rec_insert: &mut Record,
        next_state: &mut Vec<u8>,
        op: AggregatorOperation,
    ) -> (res: Result<usize, PipelineError>)
        requires
            self@.wf(),
            n < self.out_measures@.len(),
            old(out_rec_delete).values@.len() == self.width,
            old(out_rec_insert).values@.len() == self.width,
            op != AggregatorOperation::Insert ==> deleted_record is Some,
            op != AggregatorOperation::Delete ==> inserted_record is Some,
            cur_state matches Some(s) ==> offset <= s@.len(),
        ensures
            final(out_rec_delete).values@.len() == self.width,
            final(out_rec_insert).values@.len() == self.width,
            final(txn)@.len() == old(txn)@.len(),
            match measure_step(
                self@,
                op,
                optional_bytes(*cur_state),
                optional_record(deleted_record),
                optional_record(inserted_record),
                self@.measures[n as int],
                Progress {
                    tables: old(txn)@,
                    offset: offset as nat,
                    next_state: old(next_state)@,
                    out_delete: old(out_rec_delete)@.values,
                    out_insert: old(out_rec_insert)@.values,
                },
            ) {
                Ok(pr) => res is Ok && res->Ok_0 == pr.offset && final(txn)@ == pr.tables
                    && final(next_state)@ == pr.next_state && final(out_rec_delete)@
                    == (RecordValue { values: pr.out_delete, ..old(out_rec_delete)@ })
                    && final(out_rec_insert)@ == (RecordValue {
                    values: pr.out_insert,
                    ..old(out_rec_insert)@
                }) && (cur_state matches Some(s) ==> pr.offset <= s@.len()),
                Err(e) => res is Err && res->Err_0@ == e,
            },
    {
        let measure = &self.out_measures[n];
        assert(self@.measures[n as int].position == measure.2);
        let mut next_offset = offset;
        let curr_agg_data = match cur_state {
            Some(e) => {
                assert(e@.subrange(offset as int, e@.len() as int) =~= e@.skip(offset as int));
                let (len, res) = Self::decode_buffer(&e[offset..e.len()])?;
                next_offset = offset + len;
                Some(res)
            },
            None => None,
        };
        let (deleted_field, inserted_field) = self.evaluate_operands(
            &measure.0,
            op,
            deleted_record,
            inserted_record,
        )?;
        let (prefix, state_slice): (u32, Option<&[u8]>) = match curr_agg_data {
            Some(curr) => {
                out_rec_delete.set_value(measure.2, curr.value);
                (curr.prefix, curr.state)
            },
            None => (self.get_counter(txn)?, None),
        };
        let return_type = measure.0.get_type(&self.input_schema)?.return_type;
        let aggregators_db = match self.aggregators_db {
            Some(d) => d,
            None => {
                return Err(PipelineError::InternalStorageError(StorageError::InvalidDatabase));
            },
        };
        let p_tx = PrefixTransaction::new(prefix);
        let next_state_slice = match op {
            AggregatorOperation::Insert => measure.1.insert(
                state_slice,
                &inserted_field,
                return_type,
                &p_tx,
                txn,
                aggregators_db,
            )?,
            AggregatorOperation::Delete => measure.1.delete(
                state_slice,
                &deleted_field,
                return_type,
                &p_tx,
                txn,
                aggregators_db,
            )?,
            AggregatorOperation::Update => measure.1.update(
                state_slice,
                &deleted_field,
                &inserted_field,
                return_type,
                &p_tx,
                txn,
                aggregators_db,
            )?,
        };
        let encoded = Self::encode_buffer(
            prefix,
            &next_state_slice.value,
            &next_state_slice.state,
        )?.1;
        put_bytes(next_state, encoded.as_slice());
        out_rec_insert.set_value(measure.2, next_state_slice.value);
        Ok(next_offset)
    }

    /// Takes the change into every measure, in order: reads what the
    /// group's state holds of the measure, lets the aggregator work on it,
    /// puts the old value into `out_rec_delete` and the new one into
    /// `out_rec_insert`. Gives the new state of the group.
    pub fn calc_and_fill_measures(
        &self,
        txn: &mut Transaction,
        cur_state: &Option<Vec<u8>>,
        deleted_record: Option<&Record>,
        inserted_record: Option<&Record>,
        out_rec_delete: &mut Record,
        out_rec_insert: &mut Record,
        op: AggregatorOperation,
    ) -> (res: Result<Vec<u8>, PipelineError>)
        requires
            self@.wf(),
            old(out_rec_delete).values@.len() == self.width,
            old(out_rec_insert).values@.len() == self.width,
            op != AggregatorOperation::Insert ==> deleted_record is Some,
            op != AggregatorOperation::Delete ==> inserted_record is Some,
        ensures
            final(out_rec_delete).values@.len() == self.width,
            final(out_rec_insert).values@.len() == self.width,
            final(txn)@.len() == old(txn)@.len(),
            match measures_fold(
                self@,
                op,
                optional_bytes(*cur_state),
                optional_record(deleted_record),
                optional_record(inserted_record),
                self@.measures.len(),
                Progress {
                    tables: old(txn)@,
                    offset: 0,
                    next_state: Seq::empty(),
                    out_delete: old(out_rec_delete)@.values,
                    out_insert: old(out_rec_insert)@.values,
                },
            ) {
                Ok(pr) => res is Ok && res->Ok_0@ == pr.next_state && final(txn)@ == pr.tables
                    && final(out_rec_delete)@ == (RecordValue {
                    values: pr.out_delete,
                    ..old(out_rec_delete)@
                }) && final(out_rec_insert)@ == (RecordValue {
                    values: pr.out_insert,
                    ..old(out_rec_insert)@
                }),
                Err(e) => res is Err && res->Err_0@ == e,
            },
    {
        let mut next_state: Vec<u8> = Vec::new();
        let mut offset: usize = 0;
        let ghost init = Progress {
            tables: txn@,
            offset: 0,
            next_state: Seq::empty(),
            out_delete: out_rec_delete@.values,
            out_insert: out_rec_insert@.values,
        };
        let ghost state = optional_bytes(*cur_state);
        let ghost deleted = optional_record(deleted_record);
        let ghost inserted = optional_record(inserted_record);
        let mut n: usize = 0;
        while n < self.out_measures.len()
            invariant
                n <= self.out_measures.len(),
                self@.wf(),
                op != AggregatorOperation::Insert ==> deleted_record is Some,
                op != AggregatorOperation::Delete ==> inserted_record is Some,
                state == optional_bytes(*cur_state),
                deleted == optional_record(deleted_record),
                inserted == optional_record(inserted_record),
                out_rec_delete.values@.len() == self.width,
                out_rec_insert.values@.len() == self.width,
                out_rec_delete.schema_id == old(out_rec_delete).schema_id,
                out_rec_delete.version == old(out_rec_delete).version,
                out_rec_insert.schema_id == old(out_rec_insert).schema_id,
                out_rec_insert.version == old(out_rec_insert).version,
                txn@.len() == old(txn)@.len(),
                cur_state matches Some(s) ==> offset <= s@.len(),
                init == (Progress {
                    tables: old(txn)@,
                    offset: 0,
                    next_state: Seq::empty(),
                    out_delete: old(out_rec_delete)@.values,
                    out_insert: old(out_rec_insert)@.values,
                }),
                measures_fold(self@, op, state, deleted, inserted, n as nat, init) == Ok::<
                    Progress,
                    PipelineErrorValue,
                >(
                    Progress {
                        tables: txn@,
                        offset: offset as nat,
                        next_state: next_state@,
                        out_delete: out_rec_delete@.values,
                        out_insert: out_rec_insert@.values,
                    },
                ),
            decreases self.out_measures.len() - n,
        {
            let ghost acc = Progress {
                tables: txn@,
                offset: offset as nat,
                next_state: next_state@,
                out_delete: out_rec_delete@.values,
                out_insert: out_rec_insert@.values,
            };
            assert(measures_fold(self@, op, state, deleted, inserted, (n + 1) as nat, init)
                == measure_step(
                self@,
                op,
                state,
                deleted,
                inserted,
                self@.measures[n as int],
                acc,
            ));
            match self.fill_measure(
                n,
                txn,
                cur_state,
                offset,
                deleted_record,
                inserted_record,
                out_rec_delete,
                out_rec_insert,
                &mut next_state,
                op,
            ) {
                Ok(next_offset) => {
                    offset = next_offset;
                },
                Err(e) => {
                    proof {
                        lemma_measures_fold_error(
                            self@,
                            op,
                            state,
                            deleted,
                            inserted,
                            (n + 1) as nat,
                            self@.measures.len(),
                            init,
                        );
                    }
                    return Err(e);
                },
            }
            n += 1;
        }
        Ok(next_state)
    }

    /// Moves the count under `key` by `delta`, up or, with `decr`, down. A
    /// count of zero is not kept. Gives the count before. A count that
    /// would fall below zero or outgrow its eight bytes is refused, and
    /// nothing is written where the call fails.
    pub fn update_segment_count(
        &self,
        txn: &mut Transaction,
        db: Database,
        key: Vec<u8>,
        delta: u64,
        decr: bool,
    ) -> (res: Result<u64, PipelineError>)
        ensures
            final(txn)@.len() == old(txn)@.len(),
            match segment_count(old(txn)@, db, key@, delta, decr) {
                Ok((curr, tables)) => res == Ok::<u64, PipelineError>(curr) && final(txn)@
                    == tables,
                Err(e) => res is Err && res->Err_0@ == e && final(txn)@ == old(txn)@,
            },
    {
        move_count(txn, db, key.as_slice(), delta, decr)
    }

    /// The key of the group of `record`. Where there is a key, what the
    /// dimensions give on the record can be encoded.
    pub fn group_hash(&self, record: &Record) -> (res: Result<Vec<u8>, PipelineError>)
        ensures
            bytes_agree(res, group_key(self@.dimensions, record@)),
            res is Ok ==> dimensions_encodable(self@, record@),
    {
        if !self.out_dimensions.is_empty() {
            get_key(&self.input_schema, record, self.out_dimensions.as_slice())
        } else {
            let mut hash: Vec<u8> = Vec::new();
            hash.push(AGG_DEFAULT_DIMENSION_ID);
            assert(hash@ =~= seq![0xFFu8]);
            Ok(hash)
        }
    }

    /// Reads the state of a group: what follows the version of the layout.
    fn read_group_state(txn: &Transaction, db: Database, record_key: &Vec<u8>) -> (res: Result<
        Option<Vec<u8>>,
        PipelineError,
    >)
        ensures
            match state_get(txn@, db, record_key@) {
                Ok(s) => match unversioned(s) {
                    Ok(state) => res is Ok && optional_bytes(res->Ok_0) == state,
                    Err(e) => res is Err && res->Err_0@ == e,
                },
                Err(e) => res is Err && res->Err_0@ == storage_failure(e),
            },
    {
        match txn.get(db, record_key.as_slice()) {
            Ok(None) => Ok(None),
            Ok(Some(v)) => {
                if v.len() > 0 && v[0] == STATE_VERSION {
                    let state = copy_range(v.as_slice(), 1, v.len());
                    assert(state@ =~= v@.skip(1));
                    Ok(Some(state))
                } else {
                    Err(PipelineError::InternalStorageError(StorageError::DeserializationError))
                }
            },
            Err(e) => Err(PipelineError::InternalStorageError(e)),
        }
    }

    /// A state as it is stored: behind the version of the layout.
    fn versioned_state(state: &Vec<u8>) -> (res: Vec<u8>)
        ensures
            res@ == versioned(state@),
    {
        let mut res: Vec<u8> = Vec::new();
        res.push(STATE_VERSION);
        put_bytes(&mut res, state.as_slice());
        assert(res@ =~= versioned(state@));
        res
    }

    /// Takes the delete of a row into its group. A row of a group without
    /// rows is refused, and nothing is written.
    pub fn agg_delete(&self, txn: &mut Transaction, db: Database, old_record: &Record) -> (res:
        Result<Operation, PipelineError>)
        requires
            self@.wf(),
        ensures
            match delete_outcome(self@, old(txn)@, db, old_record@) {
                Ok((out, tables)) => res is Ok && res->Ok_0@ == out && final(txn)@ == tables,
                Err(e) => res is Err && res->Err_0@ == e,
            },
            refused_at_once(self@, old(txn)@, db, old_record@, true) ==> res is Err && final(txn)@
                == old(txn)@,
            res is Ok ==> dimensions_encodable(self@, old_record@),
    {
        reveal(delete_outcome);
        let size = self.width;
        let mut out_rec_insert = Record::nulls(None, size, None);
        let mut out_rec_delete = Record::nulls(None, size, None);
        let record_hash = self.group_hash(old_record)?;
        let record_key = self.get_record_key(&record_hash, AGG_VALUES_DATASET_ID)?;
        let record_count_key = self.get_record_key(&record_hash, AGG_COUNT_DATASET_ID)?;
        let prev_count = self.update_segment_count(txn, db, record_count_key, 1, true)?;
        let cur_state = Self::read_group_state(txn, db, &record_key)?;
        let new_state = self.calc_and_fill_measures(
            txn,
            &cur_state,
            Some(old_record),
            None,
            &mut out_rec_delete,
            &mut out_rec_insert,
            AggregatorOperation::Delete,
        )?;
        let res = if prev_count == 1 {
            self.fill_dimensions(old_record, &mut out_rec_delete)?;
            Operation::Delete { old: out_rec_delete }
        } else {
            self.fill_dimensions(old_record, &mut out_rec_insert)?;
            self.fill_dimensions(old_record, &mut out_rec_delete)?;
            Operation::Update { new: out_rec_insert, old: out_rec_delete }
        };
        if prev_count == 1 {
            match txn.del(db, record_key.as_slice(), None) {
                Ok(_) => {},
                Err(e) => {
                    return Err(PipelineError::InternalStorageError(e));
                },
            }
        } else {
            match txn.put(db, record_key.as_slice(), Self::versioned_state(&new_state).as_slice()) {
                Ok(()) => {},
                Err(e) => {
                    return Err(PipelineError::InternalStorageError(e));
                },
            }
        }
        Ok(res)
    }

    /// Takes the insert of a row into its group. A row without a group
    /// key, or of a group whose count is full, is refused, and nothing is
    /// written.
    pub fn agg_insert(&self, txn: &mut Transaction, db: Database, new: &Record) -> (res: Result<
        Operation,
        PipelineError,
    >)
        requires
            self@.wf(),
        ensures
            match insert_outcome(self@, old(txn)@, db, new@) {
                Ok((out, tables)) => res is Ok && res->Ok_0@ == out && final(txn)@ == tables,
                Err(e) => res is Err && res->Err_0@ == e,
            },
            refused_at_once(self@, old(txn)@, db, new@, false) ==> res is Err && final(txn)@
                == old(txn)@,
            res is Ok ==> dimensions_encodable(self@, new@),
    {
        reveal(insert_outcome);
        let size = self.width;
        let mut out_rec_insert = Record::nulls(None, size, None);
        let mut out_rec_delete = Record::nulls(None, size, None);
        let record_hash = self.group_hash(new)?;
        let record_key = self.get_record_key(&record_hash, AGG_VALUES_DATASET_ID)?;
        let record_count_key = self.get_record_key(&record_hash, AGG_COUNT_DATASET_ID)?;
        self.update_segment_count(txn, db, record_count_key, 1, false)?;
        let cur_state = Self::read_group_state(txn, db, &record_key)?;
        let new_state = self.calc_and_fill_measures(
            txn,
            &cur_state,
            None,
            Some(new),
            &mut out_rec_delete,
            &mut out_rec_insert,
            AggregatorOperation::Insert,
        )?;
        let res = if cur_state.is_none() {
            self.fill_dimensions(new, &mut out_rec_insert)?;
            Operation::Insert { new: out_rec_insert }
        } else {
            self.fill_dimensions(new, &mut out_rec_insert)?;
            self.fill_dimensions(new, &mut out_rec_delete)?;
            Operation::Update { new: out_rec_insert, old: out_rec_delete }
        };
        match txn.put(db, record_key.as_slice(), Self::versioned_state(&new_state).as_slice()) {
            Ok(()) => {},
            Err(e) => {
                return Err(PipelineError::InternalStorageError(e));
            },
        }
        Ok(res)
    }

    /// Takes the update of a row that stays in its group into the group.
    pub fn agg_update(
        &self,
        txn: &mut Transaction,
        db: Database,
        old_record: &Record,
        new: &Record,
        record_hash: Vec<u8>,
    ) -> (res: Result<Operation, PipelineError>)
        requires
            self@.wf(),
        ensures
            match update_outcome(self@, old(txn)@, db, old_record@, new@, record_hash@) {
                Ok((out, tables)) => res is Ok && res->Ok_0@ == out && final(txn)@ == tables,
                Err(e) => res is Err && res->Err_0@ == e,
            },
    {
        reveal(update_outcome);
        let size = self.width;
        let mut out_rec_insert = Record::nulls(None, size, None);
        let mut out_rec_delete = Record::nulls(None, size, None);
        let record_key = self.get_record_key(&record_hash, AGG_VALUES_DATASET_ID)?;
        let cur_state = Self::read_group_state(txn, db, &record_key)?;
        let new_state = self.calc_and_fill_measures(
            txn,
            &cur_state,
            Some(old_record),
            Some(new),
            &mut out_rec_delete,
            &mut out_rec_insert,
            AggregatorOperation::Update,
        )?;
        self.fill_dimensions(new, &mut out_rec_insert)?;
        self.fill_dimensions(old_record, &mut out_rec_delete)?;
        let res = Operation::Update { new: out_rec_insert, old: out_rec_delete };
        match txn.put(db, record_key.as_slice(), Self::versioned_state(&new_state).as_slice()) {
            Ok(()) => {},
            Err(e) => {
                return Err(PipelineError::InternalStorageError(e));
            },
        }
        Ok(res)
    }

    /// Takes a change of the input into the groups and gives the changes
    /// of the output, in order. A change whose row has no group key, or
    /// whose row would leave a group that has no rows, is refused before
    /// anything is written.
    pub fn aggregate(&self, txn: &mut Transaction, db: Database, op: Operation) -> (res: Result<
        Vec<Operation>,
        PipelineError,
    >)
        requires
            self@.wf(),
        ensures
            match aggregate_outcome(self@, old(txn)@, db, op@) {
                Ok((out, tables)) => res is Ok && crate::types::operation_values(res->Ok_0@) == out
                    && final(txn)@ == tables,
                Err(e) => res is Err && res->Err_0@ == e,
            },
            change_refused_at_once(self@, old(txn)@, db, op@) ==> res is Err && final(txn)@ == old(
                txn,
            )@,
            res is Ok ==> change_encodable(self@, op@),
    {
        let mut out: Vec<Operation> = Vec::new();
        match op {
            Operation::Insert { new: ref new_record } => {
                out.push(self.agg_insert(txn, db, new_record)?);
            },
            Operation::Delete { old: ref old_record } => {
                out.push(self.agg_delete(txn, db, old_record)?);
            },
            Operation::Update { old: ref old_record, new: ref new_record } => {
                let old_record_hash = self.group_hash(old_record)?;
                let new_record_hash = self.group_hash(new_record)?;
                if crate::types::bytes_equal(&old_record_hash, &new_record_hash) {
                    out.push(self.agg_update(txn, db, old_record, new_record, old_record_hash)?);
                } else {
                    out.push(self.agg_delete(txn, db, old_record)?);
                    out.push(self.agg_insert(txn, db, new_record)?);
                }
            },
        }
        assert(crate::types::operation_values(out@) =~= aggregate_outcome(
            self@,
            old(txn)@,
            db,
            op@,
        )->Ok_0.0);
        Ok(out)
    }
}

impl AggregationProcessor {
    /// Opens the three databases of the operator: `aggr` for the groups,
    /// `aggr_data` for the aggregators and `meta` for the prefix counter.
    pub fn init_store(&mut self, env: &mut Environment) -> (res: Result<(), PipelineError>)
        ensures
            res is Ok,
            final(self)@ == (AggregationValue {
                db: Some(handle_of(old(env)@, "aggr"@)),
                aggregators_db: Some(
                    handle_of(state_open(old(env)@, "aggr"@, false), "aggr_data"@),
                ),
                meta_db: Some(
                    handle_of(
                        state_open(state_open(old(env)@, "aggr"@, false), "aggr_data"@, false),
                        "meta"@,
                    ),
                ),
                ..old(self)@
            }),
            final(env)@ == state_open(
                state_open(state_open(old(env)@, "aggr"@, false), "aggr_data"@, false),
                "meta"@,
                false,
            ),
    {
        self.db = Some(env.open_database("aggr", false));
        self.aggregators_db = Some(env.open_database("aggr_data", false));
        self.meta_db = Some(env.open_database("meta", false));
        Ok(())
    }

    /// Prepares the operator: opens its databases.
    pub fn init(&mut self, env: &mut Environment) -> (res: Result<(), ExecutionError>)
        ensures
            res is Ok,
            final(self)@ == (AggregationValue {
                db: Some(handle_of(old(env)@, "aggr"@)),
                aggregators_db: Some(
                    handle_of(state_open(old(env)@, "aggr"@, false), "aggr_data"@),
                ),
                meta_db: Some(
                    handle_of(
                        state_open(state_open(old(env)@, "aggr"@, false), "aggr_data"@, false),
                        "meta"@,
                    ),
                ),
                ..old(self)@
            }),
            final(env)@ == state_open(
                state_open(state_open(old(env)@, "aggr"@, false), "aggr_data"@, false),
                "meta"@,
                false,
            ),
    {
        match self.init_store(env) {
            Ok(()) => Ok(()),
            Err(e) => Err(ExecutionError::InternalError(e)),
        }
    }

    /// Ends an epoch. What the operator wrote is in the transaction
    /// already.
    pub fn commit(&self, epoch: u64, txn: &Transaction) -> (res: Result<(), ExecutionError>)
        ensures
            res is Ok,
    {
        Ok(())
    }

    /// The changes to forward for `op`, in order. Without a database the
    /// operator refuses and leaves the transaction as it is; a failure of
    /// the storage comes back as a database error, and any other failure
    /// of the aggregation as an internal error.
    pub fn process(&mut self, from_port: PortHandle, op: Operation, txn: &mut Transaction) -> (res:
        Result<Vec<Operation>, ExecutionError>)
        requires
            old(self)@.wf(),
        ensures
            final(self)@ == old(self)@,
            match old(self)@.db {
                None => res matches Err(ExecutionError::InvalidDatabase) && final(txn)@ == old(
                    txn,
                )@,
                Some(d) => match aggregate_outcome(old(self)@, old(txn)@, d, op@) {
                    Ok((out, tables)) => res is Ok && crate::types::operation_values(res->Ok_0@)
                        == out && final(txn)@ == tables,
                    Err(PipelineErrorValue::InternalStorageError(e)) => res matches Err(
                        ExecutionError::InternalDatabaseError(cause),
                    ) && cause == e,
                    Err(e) => res matches Err(ExecutionError::InternalError(cause)) && cause@
                        == e,
                },
            },
            old(self)@.db matches Some(d) && change_refused_at_once(
                old(self)@,
                old(txn)@,
                d,
                op@,
            ) ==> res is Err && final(txn)@ == old(txn)@,
            res is Ok ==> change_encodable(old(self)@, op@),
    {
        match self.db {
            Some(d) => match self.aggregate(txn, d, op) {
                Ok(ops) => Ok(ops),
                Err(PipelineError::InternalStorageError(e)) => Err(
                    ExecutionError::InternalDatabaseError(e),
                ),
                Err(e) => Err(ExecutionError::InternalError(e)),
            },
            None => Err(ExecutionError::InvalidDatabase),
        }
    }
}

} // verus!
