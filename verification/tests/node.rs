use dozer_pipeline::aggregation::aggregator::Aggregator;
use dozer_pipeline::aggregation::processor::{AggregationProcessor, FieldRule};
use dozer_pipeline::errors::ExecutionError;
use dozer_pipeline::expression::execution::{BinaryOperatorType, Expression};
use dozer_pipeline::node::NodeProcessor;
use dozer_pipeline::product::join::{JoinSource, JoinTable};
use dozer_pipeline::product::processor::FromProcessor;
use dozer_pipeline::selection::SelectionProcessor;
use dozer_pipeline::storage::Environment;
use dozer_pipeline::types::{Field, FieldDefinition, FieldType, Operation, Record, Schema};

fn pair(a: i64, b: i64) -> Record {
    Record::new(None, vec![Field::Int(a), Field::Int(b)], None)
}

fn schema_of_pairs() -> Schema {
    let mut schema = Schema::empty();
    schema.field(FieldDefinition::new("a".to_string(), FieldType::Int, false), true, true);
    schema.field(FieldDefinition::new("b".to_string(), FieldType::Int, false), true, false);
    schema
}

fn selection() -> NodeProcessor {
    let predicate = Expression::BinaryOperator {
        left: Box::new(Expression::Column { index: 1 }),
        operator: BinaryOperatorType::Gt,
        right: Box::new(Expression::Literal(Field::Int(0))),
    };
    NodeProcessor::Selection(SelectionProcessor::new(schema_of_pairs(), Box::new(predicate)))
}

fn product() -> NodeProcessor {
    let left = JoinTable::new(0, vec![0], vec![0, 1]);
    let right = JoinTable::new(1, vec![0], vec![1]);
    NodeProcessor::Product(FromProcessor::new(JoinSource::new(left, right)))
}

fn aggregation() -> AggregationProcessor {
    let rules = vec![
        FieldRule::Dimension(Box::new(Expression::Column { index: 0 }), true, "a".to_string()),
        FieldRule::Measure(
            Box::new(Expression::Column { index: 1 }),
            Aggregator::Sum,
            "sum".to_string(),
        ),
    ];
    AggregationProcessor::new(rules, schema_of_pairs())
}

#[test]
fn a_node_hands_a_change_to_its_operator() {
    let mut env = Environment::new();
    let mut nodes = vec![selection(), product(), NodeProcessor::Aggregation(aggregation())];
    for node in nodes.iter_mut() {
        assert_eq!(node.init(&mut env), Ok(()));
    }
    let names: Vec<String> = env.tables.iter().map(|t| t.name.clone()).collect();
    assert_eq!(names, vec!["product", "aggr", "aggr_data", "meta"]);
    let mut txn = env.begin();
    assert_eq!(
        nodes[0].process(0, Operation::Insert { new: pair(1, 5) }, &mut txn),
        Ok(vec![Operation::Insert { new: pair(1, 5) }])
    );
    assert_eq!(nodes[0].process(0, Operation::Insert { new: pair(1, -5) }, &mut txn), Ok(vec![]));
    assert_eq!(nodes[1].process(1, Operation::Insert { new: pair(1, 7) }, &mut txn), Ok(vec![]));
    assert_eq!(
        nodes[1].process(0, Operation::Insert { new: pair(1, 5) }, &mut txn),
        Ok(vec![Operation::Insert {
            new: Record::new(None, vec![Field::Int(1), Field::Int(5), Field::Int(7)], None)
        }])
    );
    assert_eq!(
        nodes[2].process(0, Operation::Insert { new: pair(1, 5) }, &mut txn),
        Ok(vec![Operation::Insert { new: pair(1, 5) }])
    );
    assert_eq!(
        nodes[2].process(0, Operation::Insert { new: pair(1, 6) }, &mut txn),
        Ok(vec![Operation::Update { old: pair(1, 5), new: pair(1, 11) }])
    );
    for node in nodes.iter() {
        assert_eq!(node.commit(1, &txn), Ok(()));
    }
}

#[test]
fn an_aggregation_with_a_column_outside_its_output_is_refused() {
    let mut env = Environment::new();
    let mut processor = aggregation();
    processor.width = 1;
    let mut node = NodeProcessor::Aggregation(processor);
    assert_eq!(node.init(&mut env), Ok(()));
    let mut txn = env.begin();
    assert!(matches!(
        node.process(0, Operation::Insert { new: pair(1, 5) }, &mut txn),
        Err(ExecutionError::InvalidOperation(_))
    ));
    assert!(txn.tables.iter().all(|t| t.entries.is_empty()));
}

#[test]
fn a_node_without_databases_refuses_what_needs_them() {
    let mut env = Environment::new();
    let mut txn = env.begin();
    let mut node = NodeProcessor::Aggregation(aggregation());
    assert_eq!(
        node.process(0, Operation::Insert { new: pair(1, 5) }, &mut txn),
        Err(ExecutionError::InvalidDatabase)
    );
    let mut node = selection();
    assert_eq!(node.init(&mut env), Ok(()));
    assert!(env.tables.is_empty());
    assert_eq!(
        node.process(0, Operation::Delete { old: pair(1, 5) }, &mut txn),
        Ok(vec![Operation::Delete { old: pair(1, 5) }])
    );
}
