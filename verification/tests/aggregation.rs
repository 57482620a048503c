use dozer_pipeline::aggregation::aggregator::{
    AggregationResult, Aggregator, AggregatorOperation,
};
use dozer_pipeline::aggregation::processor::{
    get_key, populate_rules, AggregationData, AggregationProcessor, FieldRule, STATE_VERSION,
};
use dozer_pipeline::errors::{
    DeserializationError, ExecutionError, PipelineError, StorageError, TypeError,
};
use dozer_pipeline::expression::execution::Expression;
use dozer_pipeline::prefix_transaction::PrefixTransaction;
use dozer_pipeline::storage::{Database, Environment, Transaction};
use dozer_pipeline::types::{Field, FieldDefinition, FieldType, Operation, Record, Schema};

fn column(index: usize) -> Box<Expression> {
    Box::new(Expression::Column { index })
}

fn record(values: Vec<Field>) -> Record {
    Record::new(None, values, None)
}

fn text(s: &str) -> Field {
    Field::String(s.to_string())
}

fn schema_x() -> Schema {
    let mut schema = Schema::empty();
    schema.field(FieldDefinition::new("x".to_string(), FieldType::Int, false), true, false);
    schema
}

fn schema_k_x() -> Schema {
    let mut schema = Schema::empty();
    schema.field(FieldDefinition::new("k".to_string(), FieldType::String, false), true, false);
    schema.field(FieldDefinition::new("x".to_string(), FieldType::Int, false), true, false);
    schema
}

fn start(rules: Vec<FieldRule>, schema: Schema) -> (AggregationProcessor, Environment, Transaction) {
    let mut processor = AggregationProcessor::new(rules, schema);
    let mut env = Environment::new();
    processor.init(&mut env).unwrap();
    let txn = env.begin();
    (processor, env, txn)
}

fn run(
    processor: &mut AggregationProcessor,
    txn: &mut Transaction,
    input: Vec<Operation>,
) -> Vec<Operation> {
    let mut out = Vec::new();
    for op in input {
        out.extend(processor.process(0, op, txn).unwrap());
    }
    out
}

#[test]
fn single_group_sum_and_count() {
    let rules = vec![
        FieldRule::Measure(column(0), Aggregator::Count, "count".to_string()),
        FieldRule::Measure(column(0), Aggregator::Sum, "sum".to_string()),
    ];
    let (mut processor, _env, mut txn) = start(rules, schema_x());
    let out = run(
        &mut processor,
        &mut txn,
        vec![
            Operation::Insert { new: record(vec![Field::Int(10)]) },
            Operation::Insert { new: record(vec![Field::Int(20)]) },
            Operation::Delete { old: record(vec![Field::Int(10)]) },
        ],
    );
    assert_eq!(
        out,
        vec![
            Operation::Insert { new: record(vec![Field::Int(1), Field::Int(10)]) },
            Operation::Update {
                old: record(vec![Field::Int(1), Field::Int(10)]),
                new: record(vec![Field::Int(2), Field::Int(30)]),
            },
            Operation::Update {
                old: record(vec![Field::Int(2), Field::Int(30)]),
                new: record(vec![Field::Int(1), Field::Int(20)]),
            },
        ]
    );
}

#[test]
fn group_by_with_disappearing_group() {
    let rules = vec![
        FieldRule::Dimension(column(0), true, "k".to_string()),
        FieldRule::Measure(column(0), Aggregator::Count, "count".to_string()),
    ];
    let (mut processor, _env, mut txn) = start(rules, schema_k_x());
    let out = run(
        &mut processor,
        &mut txn,
        vec![
            Operation::Insert { new: record(vec![text("A"), Field::Int(1)]) },
            Operation::Insert { new: record(vec![text("B"), Field::Int(1)]) },
            Operation::Delete { old: record(vec![text("A"), Field::Int(1)]) },
        ],
    );
    assert_eq!(
        out,
        vec![
            Operation::Insert { new: record(vec![text("A"), Field::Int(1)]) },
            Operation::Insert { new: record(vec![text("B"), Field::Int(1)]) },
            Operation::Delete { old: record(vec![text("A"), Field::Int(1)]) },
        ]
    );
    let db = processor.db.unwrap();
    let mut key_a = vec![0, 0];
    key_a.extend(text("A").encode());
    let mut count_a = vec![0, 1];
    count_a.extend(text("A").encode());
    let mut count_b = vec![0, 1];
    count_b.extend(text("B").encode());
    assert_eq!(txn.get(db, &key_a), Ok(None));
    assert_eq!(txn.get(db, &count_a), Ok(None));
    assert_eq!(txn.get(db, &count_b), Ok(Some(vec![0, 0, 0, 0, 0, 0, 0, 1])));
}

#[test]
fn group_by_update_crossing_groups() {
    let rules = vec![
        FieldRule::Dimension(column(0), true, "k".to_string()),
        FieldRule::Measure(column(1), Aggregator::Sum, "sum".to_string()),
    ];
    let (mut processor, _env, mut txn) = start(rules, schema_k_x());
    run(
        &mut processor,
        &mut txn,
        vec![Operation::Insert { new: record(vec![text("A"), Field::Int(5)]) }],
    );
    let out = run(
        &mut processor,
        &mut txn,
        vec![Operation::Update {
            old: record(vec![text("A"), Field::Int(5)]),
            new: record(vec![text("B"), Field::Int(7)]),
        }],
    );
    assert_eq!(
        out,
        vec![
            Operation::Delete { old: record(vec![text("A"), Field::Int(5)]) },
            Operation::Insert { new: record(vec![text("B"), Field::Int(7)]) },
        ]
    );
}

#[test]
fn update_within_a_group_is_one_update() {
    let rules = vec![
        FieldRule::Dimension(column(0), true, "k".to_string()),
        FieldRule::Measure(column(1), Aggregator::Sum, "sum".to_string()),
        FieldRule::Measure(column(1), Aggregator::Count, "count".to_string()),
        FieldRule::Measure(column(1), Aggregator::Avg, "avg".to_string()),
    ];
    let (mut processor, _env, mut txn) = start(rules, schema_k_x());
    let out = run(
        &mut processor,
        &mut txn,
        vec![
            Operation::Insert { new: record(vec![text("A"), Field::Int(5)]) },
            Operation::Insert { new: record(vec![text("A"), Field::Int(-8)]) },
            Operation::Update {
                old: record(vec![text("A"), Field::Int(5)]),
                new: record(vec![text("A"), Field::Int(1)]),
            },
        ],
    );
    assert_eq!(
        out,
        vec![
            Operation::Insert {
                new: record(vec![text("A"), Field::Int(5), Field::Int(1), Field::Int(5)])
            },
            Operation::Update {
                old: record(vec![text("A"), Field::Int(5), Field::Int(1), Field::Int(5)]),
                new: record(vec![text("A"), Field::Int(-3), Field::Int(2), Field::Int(-1)]),
            },
            Operation::Update {
                old: record(vec![text("A"), Field::Int(-3), Field::Int(2), Field::Int(-1)]),
                new: record(vec![text("A"), Field::Int(-7), Field::Int(2), Field::Int(-3)]),
            },
        ]
    );
}

#[test]
fn a_dimension_outside_the_output_still_groups() {
    let rules = vec![
        FieldRule::Dimension(column(0), false, "k".to_string()),
        FieldRule::Measure(column(1), Aggregator::Sum, "sum".to_string()),
    ];
    let (mut processor, _env, mut txn) = start(rules, schema_k_x());
    let out = run(
        &mut processor,
        &mut txn,
        vec![
            Operation::Insert { new: record(vec![text("A"), Field::Int(5)]) },
            Operation::Insert { new: record(vec![text("B"), Field::Int(7)]) },
            Operation::Insert { new: record(vec![text("A"), Field::Int(1)]) },
        ],
    );
    assert_eq!(
        out,
        vec![
            Operation::Insert { new: record(vec![Field::Int(5)]) },
            Operation::Insert { new: record(vec![Field::Int(7)]) },
            Operation::Update {
                old: record(vec![Field::Int(5)]),
                new: record(vec![Field::Int(6)]),
            },
        ]
    );
}

#[test]
fn restart_from_the_last_commit_gives_the_same_view() {
    let rules = || {
        vec![
            FieldRule::Dimension(column(0), true, "k".to_string()),
            FieldRule::Measure(column(1), Aggregator::Sum, "sum".to_string()),
            FieldRule::Measure(column(1), Aggregator::Count, "count".to_string()),
        ]
    };
    let input = vec![
        Operation::Insert { new: record(vec![text("A"), Field::Int(5)]) },
        Operation::Insert { new: record(vec![text("B"), Field::Int(7)]) },
        Operation::Insert { new: record(vec![text("A"), Field::Int(2)]) },
        Operation::Update {
            old: record(vec![text("B"), Field::Int(7)]),
            new: record(vec![text("A"), Field::Int(7)]),
        },
        Operation::Delete { old: record(vec![text("A"), Field::Int(5)]) },
        Operation::Insert { new: record(vec![text("C"), Field::Int(1)]) },
    ];

    let (mut whole, _env, mut txn) = start(rules(), schema_k_x());
    let mut expected: Vec<Record> = Vec::new();
    for op in run(&mut whole, &mut txn, input.clone()) {
        apply(&mut expected, op);
    }

    let mut processor = AggregationProcessor::new(rules(), schema_k_x());
    let mut env = Environment::new();
    processor.init(&mut env).unwrap();
    let mut view: Vec<Record> = Vec::new();
    let mut txn = env.begin();
    for op in run(&mut processor, &mut txn, input[..3].to_vec()) {
        apply(&mut view, op);
    }
    processor.commit(1, &txn).unwrap();
    env.commit(txn);
    let checkpoint = view.clone();

    let mut lost = env.begin();
    run(&mut processor, &mut lost, input[3..5].to_vec());
    drop(lost);

    let mut restarted = AggregationProcessor::new(rules(), schema_k_x());
    restarted.init(&mut env).unwrap();
    let mut view = checkpoint;
    let mut txn = env.begin();
    for op in run(&mut restarted, &mut txn, input[3..].to_vec()) {
        apply(&mut view, op);
    }
    env.commit(txn);

    expected.sort_by_key(|r| format!("{:?}", r));
    view.sort_by_key(|r| format!("{:?}", r));
    assert_eq!(view, expected);
    assert_eq!(
        view,
        vec![
            record(vec![text("A"), Field::Int(9), Field::Int(2)]),
            record(vec![text("C"), Field::Int(1), Field::Int(1)]),
        ]
    );
}

fn apply(bag: &mut Vec<Record>, op: Operation) {
    match op {
        Operation::Insert { new } => bag.push(new),
        Operation::Delete { old } => {
            let at = bag.iter().position(|r| *r == old).unwrap();
            bag.remove(at);
        }
        Operation::Update { old, new } => {
            let at = bag.iter().position(|r| *r == old).unwrap();
            bag.remove(at);
            bag.push(new);
        }
    }
}

#[test]
fn the_count_of_a_group_is_the_number_of_its_rows() {
    let rules = vec![
        FieldRule::Dimension(column(0), true, "k".to_string()),
        FieldRule::Measure(column(1), Aggregator::Count, "count".to_string()),
    ];
    let (mut processor, _env, mut txn) = start(rules, schema_k_x());
    let db = processor.db.unwrap();
    let count_key = |k: &str| {
        let mut key = vec![0, 1];
        key.extend(text(k).encode());
        key
    };
    let state_key = |k: &str| {
        let mut key = vec![0, 0];
        key.extend(text(k).encode());
        key
    };
    for n in 1..=3u8 {
        run(
            &mut processor,
            &mut txn,
            vec![Operation::Insert { new: record(vec![text("A"), Field::Int(n as i64)]) }],
        );
        assert_eq!(txn.get(db, &count_key("A")), Ok(Some(vec![0, 0, 0, 0, 0, 0, 0, n])));
        assert!(txn.get(db, &state_key("A")).unwrap().is_some());
    }
    for n in (0..3u8).rev() {
        run(
            &mut processor,
            &mut txn,
            vec![Operation::Delete { old: record(vec![text("A"), Field::Int(n as i64 + 1)]) }],
        );
        if n > 0 {
            assert_eq!(txn.get(db, &count_key("A")), Ok(Some(vec![0, 0, 0, 0, 0, 0, 0, n])));
            assert!(txn.get(db, &state_key("A")).unwrap().is_some());
        } else {
            assert_eq!(txn.get(db, &count_key("A")), Ok(None));
            assert_eq!(txn.get(db, &state_key("A")), Ok(None));
        }
    }
}

#[test]
fn without_dimensions_there_is_one_group_under_one_byte() {
    let rules = vec![FieldRule::Measure(column(0), Aggregator::Count, "count".to_string())];
    let (mut processor, _env, mut txn) = start(rules, schema_x());
    run(&mut processor, &mut txn, vec![Operation::Insert { new: record(vec![Field::Int(4)]) }]);
    let db = processor.db.unwrap();
    assert_eq!(
        processor.group_hash(&record(vec![Field::Int(4)])),
        Ok(vec![0xFF])
    );
    assert_eq!(txn.get(db, &[0, 1, 0xFF]), Ok(Some(vec![0, 0, 0, 0, 0, 0, 0, 1])));
    let state = txn.get(db, &[0, 0, 0xFF]).unwrap().unwrap();
    assert_eq!(state[0], STATE_VERSION);
    let (len, data) = AggregationProcessor::decode_buffer(&state[1..]).unwrap();
    assert_eq!(len + 1, state.len());
    assert_eq!(data.prefix, 2);
    assert_eq!(data.value, Field::Int(1));
    assert_eq!(data.state, Some(&[0u8, 0, 0, 0, 0, 0, 0, 1][..]));
}

#[test]
fn prefixes_are_handed_out_once_and_kept() {
    let rules = vec![
        FieldRule::Dimension(column(0), true, "k".to_string()),
        FieldRule::Measure(column(1), Aggregator::Sum, "sum".to_string()),
        FieldRule::Measure(column(1), Aggregator::Count, "count".to_string()),
    ];
    let (mut processor, _env, mut txn) = start(rules, schema_k_x());
    let db = processor.db.unwrap();
    let prefixes = |txn: &Transaction, k: &str| {
        let mut key = vec![0, 0];
        key.extend(text(k).encode());
        let state = txn.get(db, &key).unwrap().unwrap();
        let (len, first) = AggregationProcessor::decode_buffer(&state[1..]).unwrap();
        let (_, second) = AggregationProcessor::decode_buffer(&state[1 + len..]).unwrap();
        (first.prefix, second.prefix)
    };
    run(
        &mut processor,
        &mut txn,
        vec![Operation::Insert { new: record(vec![text("A"), Field::Int(5)]) }],
    );
    assert_eq!(prefixes(&txn, "A"), (2, 3));
    run(
        &mut processor,
        &mut txn,
        vec![
            Operation::Insert { new: record(vec![text("B"), Field::Int(5)]) },
            Operation::Insert { new: record(vec![text("A"), Field::Int(6)]) },
        ],
    );
    assert_eq!(prefixes(&txn, "A"), (2, 3));
    assert_eq!(prefixes(&txn, "B"), (4, 5));
    assert_eq!(processor.get_counter(&mut txn), Ok(6));
}

#[test]
fn state_entries_are_laid_out_as_documented() {
    let (len, bytes) =
        AggregationProcessor::encode_buffer(0x01020304, &Field::Int(1), &Some(vec![9, 8, 7]))
            .unwrap();
    assert_eq!(
        bytes,
        vec![1, 2, 3, 4, 0, 9, 2, 0, 0, 0, 0, 0, 0, 0, 1, 0, 3, 9, 8, 7]
    );
    assert_eq!(len, 20);
    let (read, data) = AggregationProcessor::decode_buffer(&bytes).unwrap();
    assert_eq!(read, 20);
    assert_eq!(data.prefix, 0x01020304);
    assert_eq!(data.value, Field::Int(1));
    assert_eq!(data.state, Some(&[9u8, 8, 7][..]));

    let (len, bytes) = AggregationProcessor::encode_buffer(7, &Field::Null, &None).unwrap();
    assert_eq!(bytes, vec![0, 0, 0, 7, 0, 1, 0, 0, 0]);
    assert_eq!(len, 9);
    let (read, data) = AggregationProcessor::decode_buffer(&bytes).unwrap();
    assert_eq!(read, 9);
    assert_eq!(data.state, None);
    assert_eq!(data.value, Field::Null);

    let built = AggregationData::new(Field::Int(3), None, 11);
    assert_eq!(built.value, Field::Int(3));
    assert_eq!(built.state, None);
    assert_eq!(built.prefix, 11);
}

#[test]
fn state_entries_that_cannot_be_stored_or_read_are_refused() {
    let long = Field::Binary(vec![0; 70000]);
    assert_eq!(
        AggregationProcessor::encode_buffer(1, &long, &None),
        Err(PipelineError::InternalStorageError(StorageError::SerializationError))
    );
    assert_eq!(
        AggregationProcessor::encode_buffer(1, &Field::Null, &Some(vec![0; 65536])),
        Err(PipelineError::InternalStorageError(StorageError::SerializationError))
    );
    assert!(AggregationProcessor::encode_buffer(1, &Field::Null, &Some(vec![0; 65535])).is_ok());
    let bad_length = PipelineError::InternalTypeError(TypeError::DeserializationError(
        DeserializationError::BadDataLength,
    ));
    assert_eq!(
        AggregationProcessor::decode_buffer(&[0, 0, 0, 1, 0]).err(),
        Some(bad_length.clone())
    );
    assert_eq!(
        AggregationProcessor::decode_buffer(&[0, 0, 0, 1, 0, 9, 2, 0]).err(),
        Some(bad_length.clone())
    );
    assert_eq!(
        AggregationProcessor::decode_buffer(&[0, 0, 0, 1, 0, 1, 0, 0, 5, 1]).err(),
        Some(bad_length)
    );
    assert_eq!(
        AggregationProcessor::decode_buffer(&[0, 0, 0, 1, 0, 1, 77, 0, 0]).err(),
        Some(PipelineError::InternalTypeError(TypeError::DeserializationError(
            DeserializationError::UnrecognisedFieldType(77)
        )))
    );
}

#[test]
fn rules_get_their_columns_in_order() {
    let rules = vec![
        FieldRule::Dimension(column(0), true, "a".to_string()),
        FieldRule::Dimension(column(1), false, "b".to_string()),
        FieldRule::Measure(column(2), Aggregator::Sum, "c".to_string()),
        FieldRule::Dimension(column(3), true, "d".to_string()),
        FieldRule::Measure(column(4), Aggregator::Count, "e".to_string()),
    ];
    let (measures, dimensions) = populate_rules(&rules).unwrap();
    assert_eq!(measures.len(), 2);
    assert_eq!((*measures[0].1, measures[0].2), (Aggregator::Sum, 1));
    assert_eq!((*measures[1].1, measures[1].2), (Aggregator::Count, 3));
    assert_eq!(*measures[0].0, Expression::Column { index: 2 });
    assert_eq!(dimensions.len(), 3);
    assert_eq!(dimensions[0].1, Some(0));
    assert_eq!(dimensions[1].1, None);
    assert_eq!(dimensions[2].1, Some(2));
    let processor = AggregationProcessor::new(rules, Schema::empty());
    assert_eq!(processor.width, 4);
    assert_eq!(processor.db, None);
}

#[test]
fn keys_are_the_encodings_of_the_dimensions() {
    let dimensions = vec![(column(1), Some(0)), (column(0), None)];
    let row = record(vec![text("A"), Field::Int(3)]);
    let mut expected = Field::Int(3).encode();
    expected.extend(text("A").encode());
    assert_eq!(get_key(&Schema::empty(), &row, &dimensions), Ok(expected));
    let processor = AggregationProcessor::new(vec![], Schema::empty());
    assert_eq!(
        processor.get_record_key(&vec![7, 8], 0x0102),
        Ok(vec![1, 2, 7, 8])
    );
    let missing = vec![(column(5), Some(0))];
    assert_eq!(
        get_key(&Schema::empty(), &row, &missing),
        Err(PipelineError::InternalTypeError(TypeError::InvalidFieldIndex(5)))
    );
}

#[test]
fn an_operator_without_databases_refuses() {
    let rules = vec![FieldRule::Measure(column(0), Aggregator::Sum, "sum".to_string())];
    let mut processor = AggregationProcessor::new(rules, schema_x());
    let mut txn = Transaction::new();
    assert_eq!(
        processor.process(0, Operation::Insert { new: record(vec![Field::Int(1)]) }, &mut txn),
        Err(ExecutionError::InvalidDatabase)
    );
    assert_eq!(
        processor.aggregate(
            &mut txn,
            Database { id: 0 },
            Operation::Insert { new: record(vec![Field::Int(1)]) }
        ),
        Err(PipelineError::InternalStorageError(StorageError::InvalidDatabase))
    );
    assert_eq!(
        processor.get_counter(&mut txn),
        Err(PipelineError::InternalStorageError(StorageError::InvalidDatabase))
    );
}

#[test]
fn aggregators_refuse_what_they_cannot_add() {
    let rules = vec![FieldRule::Measure(column(0), Aggregator::Sum, "sum".to_string())];
    let mut schema = Schema::empty();
    schema.field(FieldDefinition::new("k".to_string(), FieldType::String, false), true, false);
    let (mut processor, _env, mut txn) = start(rules, schema);
    assert_eq!(
        processor.process(0, Operation::Insert { new: record(vec![text("A")]) }, &mut txn),
        Err(ExecutionError::InternalError(PipelineError::InvalidReturnType("SUM".to_string())))
    );
    let rules = vec![FieldRule::Measure(column(0), Aggregator::Avg, "avg".to_string())];
    let (mut processor, _env, mut txn) = start(rules, schema_x());
    assert_eq!(
        processor.process(0, Operation::Insert { new: record(vec![text("A")]) }, &mut txn),
        Err(ExecutionError::InternalError(PipelineError::InvalidOperandType("AVG".to_string())))
    );
}

fn apply_to(
    aggregator: Aggregator,
    op: AggregatorOperation,
    state: Option<&[u8]>,
    deleted: Field,
    inserted: Field,
) -> Result<AggregationResult, PipelineError> {
    let mut txn = Transaction::new();
    let db = txn.open_database("aggr_data", false);
    aggregator.apply(
        op,
        state,
        &deleted,
        &inserted,
        FieldType::Int,
        &PrefixTransaction::new(1),
        &mut txn,
        db,
    )
}

#[test]
fn aggregators_compute_exact_values() {
    let r = apply_to(Aggregator::Sum, AggregatorOperation::Insert, None, Field::Null, Field::Int(5))
        .unwrap();
    assert_eq!(r.value, Field::Int(5));
    assert_eq!(r.state, Some(vec![0, 0, 0, 0, 0, 0, 0, 5]));
    let r = apply_to(
        Aggregator::Sum,
        AggregatorOperation::Delete,
        r.state.as_deref(),
        Field::Int(7),
        Field::Null,
    )
    .unwrap();
    assert_eq!(r.value, Field::Int(-2));
    assert_eq!(r.state, Some(vec![255, 255, 255, 255, 255, 255, 255, 254]));
    let r = apply_to(
        Aggregator::Sum,
        AggregatorOperation::Update,
        r.state.as_deref(),
        Field::Int(-2),
        Field::Null,
    )
    .unwrap();
    assert_eq!(r.value, Field::Int(0));

    let max = i64::MAX.to_be_bytes();
    let r = apply_to(
        Aggregator::Sum,
        AggregatorOperation::Insert,
        Some(&max),
        Field::Null,
        Field::Int(1),
    )
    .unwrap();
    assert_eq!(r.value, Field::Int(i64::MIN));

    let r = apply_to(Aggregator::Count, AggregatorOperation::Insert, None, Field::Null, Field::Null)
        .unwrap();
    assert_eq!(r.value, Field::Int(1));
    let r = apply_to(
        Aggregator::Count,
        AggregatorOperation::Update,
        r.state.as_deref(),
        Field::Null,
        Field::Null,
    )
    .unwrap();
    assert_eq!(r.value, Field::Int(1));
    let r = apply_to(
        Aggregator::Count,
        AggregatorOperation::Delete,
        r.state.as_deref(),
        Field::Null,
        Field::Null,
    )
    .unwrap();
    assert_eq!(r.value, Field::Int(0));

    let r = apply_to(Aggregator::Avg, AggregatorOperation::Insert, None, Field::Null, Field::Int(-7))
        .unwrap();
    assert_eq!(r.value, Field::Int(-7));
    let r = apply_to(
        Aggregator::Avg,
        AggregatorOperation::Insert,
        r.state.as_deref(),
        Field::Null,
        Field::Int(0),
    )
    .unwrap();
    assert_eq!(r.value, Field::Int(-3));
    assert_eq!(
        r.state,
        Some(vec![255, 255, 255, 255, 255, 255, 255, 249, 0, 0, 0, 0, 0, 0, 0, 2])
    );
    let r = apply_to(
        Aggregator::Avg,
        AggregatorOperation::Insert,
        r.state.as_deref(),
        Field::Null,
        Field::Null,
    )
    .unwrap();
    assert_eq!(r.value, Field::Int(-3));
    let r = apply_to(Aggregator::Avg, AggregatorOperation::Insert, None, Field::Null, Field::Null)
        .unwrap();
    assert_eq!(r.value, Field::Null);
}

#[test]
fn an_update_is_a_delete_followed_by_an_insert() {
    for aggregator in [Aggregator::Count, Aggregator::Sum, Aggregator::Avg] {
        let start = apply_to(
            aggregator,
            AggregatorOperation::Insert,
            None,
            Field::Null,
            Field::Int(11),
        )
        .unwrap();
        let updated = apply_to(
            aggregator,
            AggregatorOperation::Update,
            start.state.as_deref(),
            Field::Int(11),
            Field::Int(-4),
        )
        .unwrap();
        let deleted = apply_to(
            aggregator,
            AggregatorOperation::Delete,
            start.state.as_deref(),
            Field::Int(11),
            Field::Null,
        )
        .unwrap();
        let inserted = apply_to(
            aggregator,
            AggregatorOperation::Insert,
            deleted.state.as_deref(),
            Field::Null,
            Field::Int(-4),
        )
        .unwrap();
        assert_eq!(updated, inserted);
    }
}

#[test]
fn aggregators_refuse_states_of_the_wrong_length() {
    let wrong = PipelineError::InternalStorageError(StorageError::DeserializationError);
    assert_eq!(
        apply_to(Aggregator::Sum, AggregatorOperation::Insert, Some(&[1, 2]), Field::Null, Field::Int(1)),
        Err(wrong.clone())
    );
    assert_eq!(
        apply_to(Aggregator::Count, AggregatorOperation::Insert, Some(&[1; 9]), Field::Null, Field::Int(1)),
        Err(wrong.clone())
    );
    assert_eq!(
        apply_to(Aggregator::Avg, AggregatorOperation::Insert, Some(&[1; 8]), Field::Null, Field::Int(1)),
        Err(wrong)
    );
}

#[test]
fn minimum_and_maximum_follow_the_rows_of_the_group() {
    let rules = vec![
        FieldRule::Dimension(column(0), true, "k".to_string()),
        FieldRule::Measure(column(1), Aggregator::Min, "min".to_string()),
        FieldRule::Measure(column(1), Aggregator::Max, "max".to_string()),
    ];
    let (mut processor, _env, mut txn) = start(rules, schema_k_x());
    let out = run(
        &mut processor,
        &mut txn,
        vec![
            Operation::Insert { new: record(vec![text("A"), Field::Int(5)]) },
            Operation::Insert { new: record(vec![text("A"), Field::Int(-8)]) },
            Operation::Insert { new: record(vec![text("B"), Field::Int(100)]) },
            Operation::Insert { new: record(vec![text("A"), Field::Int(5)]) },
            Operation::Insert { new: record(vec![text("A"), Field::Int(7)]) },
            Operation::Delete { old: record(vec![text("A"), Field::Int(-8)]) },
            Operation::Delete { old: record(vec![text("A"), Field::Int(5)]) },
            Operation::Update {
                old: record(vec![text("A"), Field::Int(7)]),
                new: record(vec![text("A"), Field::Int(6)]),
            },
            Operation::Delete { old: record(vec![text("A"), Field::Int(5)]) },
            Operation::Delete { old: record(vec![text("A"), Field::Int(6)]) },
        ],
    );
    let row = |k: &str, min: i64, max: i64| record(vec![text(k), Field::Int(min), Field::Int(max)]);
    assert_eq!(
        out,
        vec![
            Operation::Insert { new: row("A", 5, 5) },
            Operation::Update { old: row("A", 5, 5), new: row("A", -8, 5) },
            Operation::Insert { new: row("B", 100, 100) },
            Operation::Update { old: row("A", -8, 5), new: row("A", -8, 5) },
            Operation::Update { old: row("A", -8, 5), new: row("A", -8, 7) },
            Operation::Update { old: row("A", -8, 7), new: row("A", 5, 7) },
            Operation::Update { old: row("A", 5, 7), new: row("A", 5, 7) },
            Operation::Update { old: row("A", 5, 7), new: row("A", 5, 6) },
            Operation::Update { old: row("A", 5, 6), new: row("A", 6, 6) },
            Operation::Delete {
                old: record(vec![text("A"), Field::Int(6), Field::Int(6)])
            },
        ]
    );
}

#[test]
fn minimum_and_maximum_count_their_values_behind_their_prefix() {
    let mut txn = Transaction::new();
    let db = txn.open_database("aggr_data", false);
    let ptx = PrefixTransaction::new(9);
    let other = PrefixTransaction::new(10);
    let step = |txn: &mut Transaction, ptx: &PrefixTransaction, agg: Aggregator, op, d: Field, i: Field| {
        agg.apply(op, None, &d, &i, FieldType::Int, ptx, txn, db).unwrap()
    };
    let r = step(&mut txn, &ptx, Aggregator::Min, AggregatorOperation::Insert, Field::Null, Field::Int(3));
    assert_eq!(r.value, Field::Int(3));
    assert_eq!(r.state, Some(Field::Int(3).encode()));
    assert_eq!(
        txn.get(db, &[0, 0, 0, 9, 0x80, 0, 0, 0, 0, 0, 0, 3]),
        Ok(Some(vec![0, 0, 0, 0, 0, 0, 0, 1]))
    );
    let r = step(&mut txn, &ptx, Aggregator::Min, AggregatorOperation::Insert, Field::Null, Field::Int(-1));
    assert_eq!(r.value, Field::Int(-1));
    assert_eq!(
        txn.get(db, &[0, 0, 0, 9, 0x7f, 255, 255, 255, 255, 255, 255, 255]),
        Ok(Some(vec![0, 0, 0, 0, 0, 0, 0, 1]))
    );
    let r = step(&mut txn, &other, Aggregator::Max, AggregatorOperation::Insert, Field::Null, Field::Int(i64::MIN));
    assert_eq!(r.value, Field::Int(i64::MIN));
    let r = step(&mut txn, &other, Aggregator::Max, AggregatorOperation::Insert, Field::Null, Field::Int(i64::MAX));
    assert_eq!(r.value, Field::Int(i64::MAX));
    let r = step(&mut txn, &ptx, Aggregator::Max, AggregatorOperation::Insert, Field::Null, Field::Null);
    assert_eq!(r.value, Field::Int(3));
    let r = step(&mut txn, &ptx, Aggregator::Min, AggregatorOperation::Delete, Field::Int(-1), Field::Null);
    assert_eq!(r.value, Field::Int(3));
    assert_eq!(txn.get(db, &[0, 0, 0, 9, 0x7f, 255, 255, 255, 255, 255, 255, 255]), Ok(None));
    let r = step(&mut txn, &ptx, Aggregator::Min, AggregatorOperation::Update, Field::Int(3), Field::Int(4));
    assert_eq!(r.value, Field::Int(4));
    let r = step(&mut txn, &ptx, Aggregator::Min, AggregatorOperation::Delete, Field::Int(4), Field::Null);
    assert_eq!(r.value, Field::Null);
    assert_eq!(r.state, Some(vec![0]));
    let r = step(&mut txn, &other, Aggregator::Min, AggregatorOperation::Update, Field::Null, Field::Null);
    assert_eq!(r.value, Field::Int(i64::MIN));
}

#[test]
fn minimum_and_maximum_refuse_what_they_cannot_order() {
    let mut txn = Transaction::new();
    let db = txn.open_database("aggr_data", false);
    let ptx = PrefixTransaction::new(1);
    assert_eq!(
        Aggregator::Min.insert(None, &text("a"), FieldType::Int, &ptx, &mut txn, db),
        Err(PipelineError::InvalidOperandType("MIN".to_string()))
    );
    assert_eq!(
        Aggregator::Max.delete(None, &Field::Int(1), FieldType::String, &ptx, &mut txn, db),
        Err(PipelineError::InvalidReturnType("MAX".to_string()))
    );
    assert_eq!(
        Aggregator::Max.update(None, &Field::Int(1), &Field::Int(2), FieldType::Int, &ptx, &mut txn, Database { id: 4 }),
        Err(PipelineError::InternalStorageError(StorageError::InvalidDatabase))
    );
    txn.put(db, &[0, 0, 0, 1, 7], &[1]).unwrap();
    assert_eq!(
        Aggregator::Min.insert(None, &Field::Null, FieldType::Int, &ptx, &mut txn, db),
        Err(PipelineError::InternalStorageError(StorageError::DeserializationError))
    );
}

#[test]
fn the_prefix_counter_stops_at_its_last_value() {
    let rules = vec![FieldRule::Measure(column(0), Aggregator::Sum, "sum".to_string())];
    let (processor, _env, mut txn) = start(rules, schema_x());
    let meta = processor.meta_db.unwrap();
    assert_eq!(processor.get_counter(&mut txn), Ok(2));
    assert_eq!(processor.get_counter(&mut txn), Ok(3));
    assert_eq!(txn.get(meta, &[1]), Ok(Some(vec![0, 0, 0, 3])));
    txn.put(meta, &[1], &[255, 255, 255, 254]).unwrap();
    assert_eq!(processor.get_counter(&mut txn), Ok(u32::MAX));
    assert_eq!(
        processor.get_counter(&mut txn),
        Err(PipelineError::InternalStorageError(StorageError::CounterExhausted))
    );
    txn.put(meta, &[1], &[1, 2]).unwrap();
    assert_eq!(
        processor.get_counter(&mut txn),
        Err(PipelineError::InternalStorageError(StorageError::DeserializationError))
    );
}

#[test]
fn counts_move_up_and_down_and_leave_at_zero() {
    let processor = AggregationProcessor::new(vec![], Schema::empty());
    let mut txn = Transaction::new();
    let db = txn.open_database("aggr", false);
    assert_eq!(processor.update_segment_count(&mut txn, db, vec![7], 1, false), Ok(0));
    assert_eq!(processor.update_segment_count(&mut txn, db, vec![7], 2, false), Ok(1));
    assert_eq!(txn.get(db, &[7]), Ok(Some(vec![0, 0, 0, 0, 0, 0, 0, 3])));
    assert_eq!(processor.update_segment_count(&mut txn, db, vec![7], 3, true), Ok(3));
    assert_eq!(txn.get(db, &[7]), Ok(None));
    txn.put(db, &[7], &[1]).unwrap();
    assert_eq!(
        processor.update_segment_count(&mut txn, db, vec![7], 1, false),
        Err(PipelineError::InternalStorageError(StorageError::DeserializationError))
    );
}

#[test]
fn a_failure_of_the_storage_is_a_database_error() {
    let rules = vec![FieldRule::Measure(column(0), Aggregator::Sum, "sum".to_string())];
    let (mut processor, _env, mut txn) = start(rules, schema_x());
    let meta = processor.meta_db.unwrap();
    txn.put(meta, &[1], &[0, 0, 3]).unwrap();
    assert_eq!(
        processor.process(0, Operation::Insert { new: record(vec![Field::Int(1)]) }, &mut txn),
        Err(ExecutionError::InternalDatabaseError(StorageError::DeserializationError))
    );
    let mut other = AggregationProcessor::new(
        vec![FieldRule::Measure(column(3), Aggregator::Sum, "sum".to_string())],
        schema_x(),
    );
    let mut env = Environment::new();
    other.init(&mut env).unwrap();
    let mut txn = env.begin();
    assert_eq!(
        other.process(0, Operation::Insert { new: record(vec![Field::Int(1)]) }, &mut txn),
        Err(ExecutionError::InternalError(PipelineError::InternalTypeError(
            TypeError::InvalidFieldIndex(3)
        )))
    );
}

#[test]
fn a_state_of_another_layout_is_refused() {
    let rules = vec![FieldRule::Measure(column(0), Aggregator::Sum, "sum".to_string())];
    let (mut processor, _env, mut txn) = start(rules, schema_x());
    let db = processor.db.unwrap();
    run(&mut processor, &mut txn, vec![Operation::Insert { new: record(vec![Field::Int(4)]) }]);
    let mut state = txn.get(db, &[0, 0, 0xFF]).unwrap().unwrap();
    assert_eq!(state[0], 1);
    state[0] = 2;
    txn.put(db, &[0, 0, 0xFF], &state).unwrap();
    assert_eq!(
        processor.process(0, Operation::Insert { new: record(vec![Field::Int(1)]) }, &mut txn),
        Err(ExecutionError::InternalDatabaseError(StorageError::DeserializationError))
    );
    txn.put(db, &[0, 0, 0xFF], &[]).unwrap();
    assert_eq!(
        processor.process(0, Operation::Delete { old: record(vec![Field::Int(4)]) }, &mut txn),
        Err(ExecutionError::InternalDatabaseError(StorageError::DeserializationError))
    );
}

#[test]
fn an_operator_tells_whether_its_columns_lie_within_its_output() {
    let rules = vec![
        FieldRule::Dimension(column(0), true, "k".to_string()),
        FieldRule::Measure(column(1), Aggregator::Sum, "sum".to_string()),
    ];
    let mut processor = AggregationProcessor::new(rules, schema_k_x());
    assert!(processor.is_well_formed());
    processor.width = 1;
    assert!(!processor.is_well_formed());
    processor.width = 2;
    processor.out_dimensions[0].1 = Some(2);
    assert!(!processor.is_well_formed());
    processor.out_dimensions[0].1 = None;
    assert!(processor.is_well_formed());
}

#[test]
fn the_view_built_from_the_changes_is_the_query_over_the_relation() {
    let rules = vec![
        FieldRule::Dimension(column(0), true, "k".to_string()),
        FieldRule::Measure(column(1), Aggregator::Count, "count".to_string()),
        FieldRule::Measure(column(1), Aggregator::Sum, "sum".to_string()),
        FieldRule::Measure(column(1), Aggregator::Min, "min".to_string()),
        FieldRule::Measure(column(1), Aggregator::Max, "max".to_string()),
    ];
    let (mut processor, _env, mut txn) = start(rules, schema_k_x());
    let mut relation: Vec<Record> = Vec::new();
    let mut view: Vec<Record> = Vec::new();
    let mut seed: u64 = 7;
    let mut next = |bound: u64| {
        seed = seed.wrapping_mul(6364136223846793005).wrapping_add(1442695040888963407);
        (seed >> 33) % bound
    };
    for _ in 0..300 {
        let row = |k: u64, x: u64| record(vec![text(["A", "B", "C"][k as usize]), Field::Int(x as i64 - 4)]);
        let choice = next(3);
        let op = if relation.is_empty() || choice == 0 {
            Operation::Insert { new: row(next(3), next(9)) }
        } else if choice == 1 {
            Operation::Delete { old: relation[next(relation.len() as u64) as usize].clone() }
        } else {
            Operation::Update {
                old: relation[next(relation.len() as u64) as usize].clone(),
                new: row(next(3), next(9)),
            }
        };
        apply(&mut relation, op.clone());
        for out in processor.process(0, op, &mut txn).unwrap() {
            apply(&mut view, out);
        }
        let mut expected: Vec<Record> = Vec::new();
        for k in ["A", "B", "C"] {
            let values: Vec<i64> = relation
                .iter()
                .filter(|r| r.values[0] == text(k))
                .map(|r| match r.values[1] {
                    Field::Int(x) => x,
                    _ => unreachable!(),
                })
                .collect();
            if !values.is_empty() {
                expected.push(record(vec![
                    text(k),
                    Field::Int(values.len() as i64),
                    Field::Int(values.iter().sum()),
                    Field::Int(*values.iter().min().unwrap()),
                    Field::Int(*values.iter().max().unwrap()),
                ]));
            }
        }
        view.sort_by_key(|r| format!("{:?}", r.values[0]));
        assert_eq!(view, expected);
    }
}

#[test]
fn a_count_does_not_fall_below_zero() {
    let rules = vec![
        FieldRule::Dimension(column(0), true, "k".to_string()),
        FieldRule::Measure(column(1), Aggregator::Count, "count".to_string()),
    ];
    let (mut processor, _env, mut txn) = start(rules, schema_k_x());
    let db = processor.db.unwrap();
    assert_eq!(
        processor.update_segment_count(&mut txn, db, vec![7], 1, true),
        Err(PipelineError::InternalStorageError(StorageError::CountOutOfRange))
    );
    assert_eq!(txn.get(db, &[7]), Ok(None));
    assert_eq!(processor.update_segment_count(&mut txn, db, vec![7], 2, false), Ok(0));
    assert_eq!(
        processor.update_segment_count(&mut txn, db, vec![7], 3, true),
        Err(PipelineError::InternalStorageError(StorageError::CountOutOfRange))
    );
    assert_eq!(txn.get(db, &[7]), Ok(Some(vec![0, 0, 0, 0, 0, 0, 0, 2])));
    assert_eq!(
        processor.update_segment_count(&mut txn, db, vec![7], u64::MAX - 1, false),
        Err(PipelineError::InternalStorageError(StorageError::CountOutOfRange))
    );
    assert_eq!(txn.get(db, &[7]), Ok(Some(vec![0, 0, 0, 0, 0, 0, 0, 2])));
    assert_eq!(processor.update_segment_count(&mut txn, db, vec![7], 2, true), Ok(2));
    assert_eq!(txn.get(db, &[7]), Ok(None));
    // A row that the relation does not hold cannot be deleted.
    assert_eq!(
        processor.process(0, Operation::Delete { old: record(vec![text("A"), Field::Int(1)]) }, &mut txn),
        Err(ExecutionError::InternalDatabaseError(StorageError::CountOutOfRange))
    );
    assert!(txn.tables.iter().all(|t| t.entries.is_empty()));
}

#[test]
fn without_a_database_nothing_is_written() {
    let rules = vec![FieldRule::Measure(column(0), Aggregator::Sum, "sum".to_string())];
    let mut processor = AggregationProcessor::new(rules, schema_x());
    let mut env = Environment::new();
    let other = env.open_database("other", false);
    let mut txn = env.begin();
    txn.put(other, &[1], &[2]).unwrap();
    assert_eq!(
        processor.process(0, Operation::Insert { new: record(vec![Field::Int(1)]) }, &mut txn),
        Err(ExecutionError::InvalidDatabase)
    );
    assert_eq!(
        processor.get_counter(&mut txn),
        Err(PipelineError::InternalStorageError(StorageError::InvalidDatabase))
    );
    assert_eq!(txn.tables.len(), 1);
    assert_eq!(txn.tables[0].entries.len(), 1);
    assert_eq!(txn.get(other, &[1]), Ok(Some(vec![2])));
}

#[test]
fn a_number_of_rows_does_not_fall_below_zero() {
    let refused = Err(PipelineError::InternalStorageError(StorageError::CountOutOfRange));
    let count = Aggregator::Count;
    assert_eq!(
        apply_to(count, AggregatorOperation::Delete, None, Field::Int(1), Field::Null),
        refused
    );
    assert_eq!(
        apply_to(count, AggregatorOperation::Update, None, Field::Int(1), Field::Int(2)),
        refused
    );
    let one = apply_to(count, AggregatorOperation::Insert, None, Field::Null, Field::Int(1)).unwrap();
    assert_eq!(one.value, Field::Int(1));
    let none = apply_to(
        count,
        AggregatorOperation::Delete,
        one.state.as_deref(),
        Field::Int(1),
        Field::Null,
    )
    .unwrap();
    assert_eq!(none.value, Field::Int(0));
    assert_eq!(
        apply_to(count, AggregatorOperation::Delete, none.state.as_deref(), Field::Int(1), Field::Null),
        refused
    );
    let full = i64::MAX.to_be_bytes();
    assert_eq!(
        apply_to(count, AggregatorOperation::Insert, Some(&full), Field::Null, Field::Int(1)),
        refused
    );
    let avg = Aggregator::Avg;
    assert_eq!(
        apply_to(avg, AggregatorOperation::Delete, None, Field::Int(1), Field::Null),
        refused
    );
    // A null that leaves was never counted, so nothing is asked of the count.
    let r = apply_to(avg, AggregatorOperation::Delete, None, Field::Null, Field::Null).unwrap();
    assert_eq!(r.value, Field::Null);
    // A value that leaves where none is counted is refused by MIN and MAX too.
    assert_eq!(
        apply_to(Aggregator::Min, AggregatorOperation::Delete, None, Field::Int(1), Field::Null),
        refused
    );
}

#[test]
fn minimum_and_maximum_of_timestamps_and_floats() {
    let mut schema = Schema::empty();
    schema.field(FieldDefinition::new("k".to_string(), FieldType::String, false), true, false);
    schema.field(FieldDefinition::new("at".to_string(), FieldType::Timestamp, true), true, false);
    schema.field(FieldDefinition::new("x".to_string(), FieldType::Float, true), true, false);
    let rules = vec![
        FieldRule::Dimension(column(0), true, "k".to_string()),
        FieldRule::Measure(column(1), Aggregator::Min, "first".to_string()),
        FieldRule::Measure(column(1), Aggregator::Max, "last".to_string()),
        FieldRule::Measure(column(2), Aggregator::Min, "least".to_string()),
        FieldRule::Measure(column(2), Aggregator::Max, "most".to_string()),
    ];
    let (mut processor, _env, mut txn) = start(rules, schema);
    let float = |x: f64| Field::Float(x.to_bits());
    let row = |at: Field, x: Field| record(vec![text("A"), at, x]);
    let out = run(
        &mut processor,
        &mut txn,
        vec![
            Operation::Insert { new: row(Field::Timestamp(50), float(1.5)) },
            Operation::Insert { new: row(Field::Timestamp(-7), float(-2.25)) },
            Operation::Insert { new: row(Field::Null, float(f64::INFINITY)) },
            Operation::Delete { old: row(Field::Timestamp(-7), float(-2.25)) },
            Operation::Update {
                old: row(Field::Null, float(f64::INFINITY)),
                new: row(Field::Timestamp(60), Field::Null),
            },
        ],
    );
    let shown = |at_min: i64, at_max: i64, least: f64, most: f64| {
        record(vec![
            text("A"),
            Field::Timestamp(at_min),
            Field::Timestamp(at_max),
            float(least),
            float(most),
        ])
    };
    assert_eq!(
        out,
        vec![
            Operation::Insert { new: shown(50, 50, 1.5, 1.5) },
            Operation::Update { old: shown(50, 50, 1.5, 1.5), new: shown(-7, 50, -2.25, 1.5) },
            Operation::Update {
                old: shown(-7, 50, -2.25, 1.5),
                new: shown(-7, 50, -2.25, f64::INFINITY)
            },
            Operation::Update {
                old: shown(-7, 50, -2.25, f64::INFINITY),
                new: shown(50, 50, 1.5, f64::INFINITY)
            },
            Operation::Update {
                old: shown(50, 50, 1.5, f64::INFINITY),
                new: shown(50, 60, 1.5, 1.5)
            },
        ]
    );
    // A value of another type than the measure's is refused.
    assert_eq!(
        processor.process(0, Operation::Insert { new: row(Field::Int(1), float(1.0)) }, &mut txn),
        Err(ExecutionError::InternalError(PipelineError::InvalidOperandType("MIN".to_string())))
    );
}

#[test]
fn the_least_and_the_greatest_float_follow_the_order_of_the_numbers() {
    let mut schema = Schema::empty();
    schema.field(FieldDefinition::new("x".to_string(), FieldType::Float, true), true, false);
    let rules = vec![
        FieldRule::Measure(column(0), Aggregator::Min, "least".to_string()),
        FieldRule::Measure(column(0), Aggregator::Max, "most".to_string()),
    ];
    let (mut processor, _env, mut txn) = start(rules, schema);
    let numbers = [
        0.0, -0.0, 1.0, -1.0, 0.5, -0.5, 1e300, -1e300, 5e-324, -5e-324, 3.25, 1e-10,
        f64::INFINITY, f64::NEG_INFINITY, 2.0, 7.75,
    ];
    let mut held: Vec<f64> = Vec::new();
    let mut seed: u64 = 3;
    let mut next = |bound: u64| {
        seed = seed.wrapping_mul(6364136223846793005).wrapping_add(1442695040888963407);
        (seed >> 33) % bound
    };
    for _ in 0..400 {
        let coming = next(3) > 0 || held.is_empty();
        let op = if coming {
            let x = numbers[next(numbers.len() as u64) as usize];
            held.push(x);
            Operation::Insert { new: record(vec![Field::Float(x.to_bits())]) }
        } else {
            let x = held.remove(next(held.len() as u64) as usize);
            Operation::Delete { old: record(vec![Field::Float(x.to_bits())]) }
        };
        let out = processor.process(0, op, &mut txn).unwrap();
        let after = match out.last().unwrap() {
            Operation::Insert { new } => Some(new.clone()),
            Operation::Update { new, .. } => Some(new.clone()),
            Operation::Delete { .. } => None,
        };
        match after {
            None => assert!(held.is_empty()),
            Some(row) => {
                let least = held.iter().cloned().fold(f64::INFINITY, f64::min);
                let most = held.iter().cloned().fold(f64::NEG_INFINITY, f64::max);
                match (&row.values[0], &row.values[1]) {
                    (Field::Float(a), Field::Float(b)) => {
                        assert_eq!(f64::from_bits(*a), least);
                        assert_eq!(f64::from_bits(*b), most);
                    }
                    other => panic!("no floats: {:?}", other),
                }
            }
        }
    }
    // A NaN is above every number.
    let nan = Operation::Insert { new: record(vec![Field::Float(f64::NAN.to_bits())]) };
    let out = processor.process(0, nan, &mut txn).unwrap();
    match out.last().unwrap() {
        Operation::Insert { new } | Operation::Update { new, .. } => match &new.values[1] {
            Field::Float(b) => assert!(f64::from_bits(*b).is_nan()),
            other => panic!("no float: {:?}", other),
        },
        other => panic!("no row: {:?}", other),
    }
}

#[test]
fn minimum_and_maximum_of_dates_and_of_integers_without_sign() {
    let mut schema = Schema::empty();
    schema.field(FieldDefinition::new("day".to_string(), FieldType::Date, true), true, false);
    schema.field(FieldDefinition::new("n".to_string(), FieldType::UInt, true), true, false);
    let rules = vec![
        FieldRule::Measure(column(0), Aggregator::Min, "first".to_string()),
        FieldRule::Measure(column(0), Aggregator::Max, "last".to_string()),
        FieldRule::Measure(column(1), Aggregator::Min, "least".to_string()),
        FieldRule::Measure(column(1), Aggregator::Max, "most".to_string()),
    ];
    let (mut processor, _env, mut txn) = start(rules, schema);
    let row = |d: i32, n: u64| record(vec![Field::Date(d), Field::UInt(n)]);
    let shown = |a: i32, b: i32, c: u64, d: u64| {
        record(vec![Field::Date(a), Field::Date(b), Field::UInt(c), Field::UInt(d)])
    };
    let out = run(
        &mut processor,
        &mut txn,
        vec![
            Operation::Insert { new: row(10, 5) },
            Operation::Insert { new: row(-3, u64::MAX) },
            Operation::Insert { new: row(i32::MAX, 0) },
            Operation::Delete { old: row(-3, u64::MAX) },
            Operation::Update { old: row(10, 5), new: row(i32::MIN, 1 << 63) },
        ],
    );
    assert_eq!(
        out,
        vec![
            Operation::Insert { new: shown(10, 10, 5, 5) },
            Operation::Update { old: shown(10, 10, 5, 5), new: shown(-3, 10, 5, u64::MAX) },
            Operation::Update {
                old: shown(-3, 10, 5, u64::MAX),
                new: shown(-3, i32::MAX, 0, u64::MAX)
            },
            Operation::Update {
                old: shown(-3, i32::MAX, 0, u64::MAX),
                new: shown(10, i32::MAX, 0, 5)
            },
            Operation::Update {
                old: shown(10, i32::MAX, 0, 5),
                new: shown(i32::MIN, i32::MAX, 0, 1 << 63)
            },
        ]
    );
}
