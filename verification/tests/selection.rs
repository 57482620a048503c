use dozer_pipeline::errors::ExecutionError;
use dozer_pipeline::expression::execution::{BinaryOperatorType, Expression};
use dozer_pipeline::selection::SelectionProcessor;
use dozer_pipeline::types::{Field, FieldDefinition, FieldType, Operation, Record, Schema};

fn row(id: i64, y: i64) -> Record {
    Record::new(None, vec![Field::Int(id), Field::Int(y)], None)
}

fn y_is_positive() -> SelectionProcessor {
    let mut schema = Schema::empty();
    schema.field(FieldDefinition::new("id".to_string(), FieldType::Int, false), true, true);
    schema.field(FieldDefinition::new("y".to_string(), FieldType::Int, false), true, false);
    let predicate = Expression::BinaryOperator {
        left: Box::new(Expression::Column { index: 1 }),
        operator: BinaryOperatorType::Gt,
        right: Box::new(Expression::Literal(Field::Int(0))),
    };
    SelectionProcessor::new(schema, Box::new(predicate))
}

#[test]
fn selection_rewrites_updates_that_cross_the_predicate() {
    let mut selection = y_is_positive();
    assert!(selection.init().is_ok());
    let input = vec![
        Operation::Insert { new: row(1, 5) },
        Operation::Update { old: row(1, 5), new: row(1, -3) },
        Operation::Update { old: row(1, -3), new: row(1, 4) },
        Operation::Delete { old: row(1, 4) },
    ];
    let mut emitted = Vec::new();
    for op in input {
        emitted.extend(selection.process(0, op).unwrap());
    }
    assert_eq!(
        emitted,
        vec![
            Operation::Insert { new: row(1, 5) },
            Operation::Delete { old: row(1, 5) },
            Operation::Insert { new: row(1, 4) },
            Operation::Delete { old: row(1, 4) },
        ]
    );
    assert!(selection.commit(1).is_ok());
}

#[test]
fn selection_truth_table_of_updates() {
    let mut selection = y_is_positive();
    assert_eq!(
        selection.process(0, Operation::Update { old: row(1, -1), new: row(1, -2) }).unwrap(),
        vec![]
    );
    assert_eq!(
        selection.process(0, Operation::Update { old: row(1, 1), new: row(1, -2) }).unwrap(),
        vec![Operation::Delete { old: row(1, 1) }]
    );
    assert_eq!(
        selection.process(0, Operation::Update { old: row(1, -1), new: row(1, 2) }).unwrap(),
        vec![Operation::Insert { new: row(1, 2) }]
    );
    assert_eq!(
        selection.process(0, Operation::Update { old: row(1, 1), new: row(1, 2) }).unwrap(),
        vec![Operation::Update { old: row(1, 1), new: row(1, 2) }]
    );
    assert_eq!(selection.process(0, Operation::Insert { new: row(1, 0) }).unwrap(), vec![]);
    assert_eq!(selection.process(0, Operation::Delete { old: row(1, -7) }).unwrap(), vec![]);
}

#[test]
fn a_null_predicate_counts_as_false() {
    let mut selection = y_is_positive();
    let with_null = Record::new(None, vec![Field::Int(1), Field::Null], None);
    assert_eq!(selection.process(0, Operation::Insert { new: with_null.clone() }).unwrap(), vec![]);
    assert_eq!(
        selection.process(0, Operation::Update { old: row(1, 3), new: with_null }).unwrap(),
        vec![Operation::Delete { old: row(1, 3) }]
    );
}

#[test]
fn a_failing_predicate_is_an_internal_error() {
    let mut selection = y_is_positive();
    let short = Record::new(None, vec![Field::Int(1)], None);
    assert!(matches!(
        selection.process(0, Operation::Insert { new: short }),
        Err(ExecutionError::InternalError(_))
    ));
    let text = Record::new(None, vec![Field::Int(1), Field::String("a".to_string())], None);
    assert!(matches!(
        selection.process(0, Operation::Delete { old: text }),
        Err(ExecutionError::InternalError(_))
    ));
}

#[test]
fn the_output_is_the_selection_of_the_input() {
    let mut selection = y_is_positive();
    let input = vec![
        Operation::Insert { new: row(1, 5) },
        Operation::Insert { new: row(2, -5) },
        Operation::Insert { new: row(3, 1) },
        Operation::Update { old: row(2, -5), new: row(2, 8) },
        Operation::Update { old: row(1, 5), new: row(1, 0) },
        Operation::Delete { old: row(3, 1) },
        Operation::Insert { new: row(4, 2) },
    ];
    let mut source: Vec<Record> = Vec::new();
    let mut view: Vec<Record> = Vec::new();
    for op in input {
        apply(&mut source, op.clone());
        for out in selection.process(0, op).unwrap() {
            apply(&mut view, out);
        }
    }
    let mut expected: Vec<Record> =
        source.into_iter().filter(|r| matches!(r.values[1], Field::Int(y) if y > 0)).collect();
    expected.sort_by_key(|r| format!("{:?}", r));
    view.sort_by_key(|r| format!("{:?}", r));
    assert_eq!(view, expected);
    assert_eq!(view, vec![row(2, 8), row(4, 2)]);
}

fn apply(bag: &mut Vec<Record>, op: Operation) {
    match op {
        Operation::Insert { new } => bag.push(new),
        Operation::Delete { old } => {
            let at = bag.iter().position(|r| *r == old).unwrap();
            bag.remove(at);
        }
        Operation::Update { old, new } => {
            let at = bag.iter().position(|r| *r == old).unwrap();
            bag.remove(at);
            bag.push(new);
        }
    }
}

#[test]
fn a_row_whose_predicate_is_not_known_is_dropped() {
    let mut schema = Schema::empty();
    schema.field(FieldDefinition::new("id".to_string(), FieldType::Int, false), true, true);
    schema.field(FieldDefinition::new("b".to_string(), FieldType::Boolean, true), true, false);
    let not_b = Expression::UnaryOperator {
        operator: dozer_pipeline::expression::execution::UnaryOperatorType::Not,
        arg: Box::new(Expression::Column { index: 1 }),
    };
    let mut selection = SelectionProcessor::new(schema, Box::new(not_b));
    let row = |b: Field| Record::new(None, vec![Field::Int(1), b], None);
    assert_eq!(selection.process(0, Operation::Insert { new: row(Field::Null) }), Ok(vec![]));
    assert_eq!(
        selection.process(0, Operation::Insert { new: row(Field::Boolean(true)) }),
        Ok(vec![])
    );
    assert_eq!(
        selection.process(0, Operation::Insert { new: row(Field::Boolean(false)) }),
        Ok(vec![Operation::Insert { new: row(Field::Boolean(false)) }])
    );
    assert_eq!(
        selection.process(
            0,
            Operation::Update { old: row(Field::Boolean(false)), new: row(Field::Null) }
        ),
        Ok(vec![Operation::Delete { old: row(Field::Boolean(false)) }])
    );
}
