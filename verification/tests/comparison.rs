use dozer_pipeline::errors::PipelineError;
use dozer_pipeline::expression::comparison::{
    evaluate_eq, evaluate_gt, evaluate_gte, evaluate_lt, evaluate_lte, evaluate_ne,
};
use dozer_pipeline::expression::execution::{
    BinaryOperatorType, Expression, ExpressionType, UnaryOperatorType,
};
use dozer_pipeline::types::{Field, FieldDefinition, FieldType, Record, Schema};

fn float(x: f64) -> Field {
    Field::Float(x.to_bits())
}

fn literal(f: Field) -> Box<Expression> {
    Box::new(Expression::Literal(f))
}

#[test]
fn test_float_float_eq() {
    let row = Record::new(None, vec![], None);
    let f0 = Box::new(Expression::Literal(float(1.3)));
    let f1 = Box::new(Expression::Literal(float(1.3)));
    assert!(matches!(
        evaluate_eq(&Schema::empty(), &f0, &f1, &row),
        Ok(Field::Boolean(true))
    ));
}

#[test]
fn test_float_null_eq() {
    let row = Record::new(None, vec![], None);
    let f0 = Box::new(Expression::Literal(float(1.3)));
    let f1 = Box::new(Expression::Literal(Field::Null));
    assert!(matches!(
        evaluate_eq(&Schema::empty(), &f0, &f1, &row),
        Ok(Field::Boolean(false))
    ));
}

#[test]
fn test_float_int_eq() {
    let row = Record::new(None, vec![], None);
    let f0 = Box::new(Expression::Literal(float(1.0)));
    let f1 = Box::new(Expression::Literal(Field::Int(1)));
    assert!(matches!(
        evaluate_eq(&Schema::empty(), &f0, &f1, &row),
        Ok(Field::Boolean(true))
    ));
}

#[test]
fn test_int_null_eq() {
    let row = Record::new(None, vec![], None);
    let f0 = Box::new(Expression::Literal(float(1.0)));
    let f1 = Box::new(Expression::Literal(Field::Null));
    assert!(matches!(
        evaluate_eq(&Schema::empty(), &f0, &f1, &row),
        Ok(Field::Boolean(false))
    ));
}

#[test]
fn test_int_float_eq() {
    let row = Record::new(None, vec![], None);
    let f0 = Box::new(Expression::Literal(Field::Int(1)));
    let f1 = Box::new(Expression::Literal(float(1.0)));
    assert!(matches!(
        evaluate_eq(&Schema::empty(), &f0, &f1, &row),
        Ok(Field::Boolean(true))
    ));
}

#[test]
fn test_bool_bool_eq() {
    let row = Record::new(None, vec![], None);
    let f0 = Box::new(Expression::Literal(Field::Boolean(false)));
    let f1 = Box::new(Expression::Literal(Field::Boolean(false)));
    assert!(matches!(
        evaluate_eq(&Schema::empty(), &f0, &f1, &row),
        Ok(Field::Boolean(true))
    ));
}

#[test]
fn test_str_str_eq() {
    let row = Record::new(None, vec![], None);
    let f0 = Box::new(Expression::Literal(Field::String("abc".to_string())));
    let f1 = Box::new(Expression::Literal(Field::String("abc".to_string())));
    assert!(matches!(
        evaluate_eq(&Schema::empty(), &f0, &f1, &row),
        Ok(Field::Boolean(true))
    ));
}

#[test]
fn test_str_null_eq() {
    let row = Record::new(None, vec![], None);
    let f0 = Box::new(Expression::Literal(Field::String("abc".to_string())));
    let f1 = Box::new(Expression::Literal(Field::Null));
    assert!(matches!(
        evaluate_eq(&Schema::empty(), &f0, &f1, &row),
        Ok(Field::Boolean(false))
    ));
}

fn lt(l: Field, r: Field) -> Result<Field, PipelineError> {
    let row = Record::new(None, vec![], None);
    evaluate_lt(&Schema::empty(), &literal(l), &literal(r), &row)
}

fn gt(l: Field, r: Field) -> Result<Field, PipelineError> {
    let row = Record::new(None, vec![], None);
    evaluate_gt(&Schema::empty(), &literal(l), &literal(r), &row)
}

#[test]
fn a_comparison_with_a_null_is_false_under_every_operator() {
    let row = Record::new(None, vec![], None);
    let schema = Schema::empty();
    let n = literal(Field::Null);
    assert_eq!(evaluate_lt(&schema, &n, &n, &row), Ok(Field::Boolean(false)));
    assert_eq!(evaluate_gt(&schema, &n, &n, &row), Ok(Field::Boolean(false)));
    assert_eq!(evaluate_eq(&schema, &n, &n, &row), Ok(Field::Boolean(false)));
    assert_eq!(evaluate_ne(&schema, &n, &n, &row), Ok(Field::Boolean(false)));
    assert_eq!(evaluate_lte(&schema, &n, &n, &row), Ok(Field::Boolean(false)));
    assert_eq!(evaluate_gte(&schema, &n, &n, &row), Ok(Field::Boolean(false)));
    assert_eq!(lt(Field::Null, Field::Int(1)), Ok(Field::Boolean(false)));
    assert_eq!(gt(Field::Null, Field::Int(1)), Ok(Field::Boolean(false)));
    assert_eq!(gt(Field::UInt(1), Field::Null), Ok(Field::Boolean(false)));
    assert_eq!(lt(Field::Null, Field::Binary(vec![1])), Ok(Field::Boolean(false)));
    assert_eq!(lt(Field::Date(1), Field::Null), Ok(Field::Boolean(false)));
}

#[test]
fn booleans_are_ordered_false_before_true() {
    assert_eq!(lt(Field::Boolean(false), Field::Boolean(true)), Ok(Field::Boolean(true)));
    assert_eq!(lt(Field::Boolean(true), Field::Boolean(false)), Ok(Field::Boolean(false)));
    assert_eq!(lt(Field::Boolean(true), Field::Boolean(true)), Ok(Field::Boolean(false)));
    assert_eq!(gt(Field::Boolean(true), Field::Boolean(false)), Ok(Field::Boolean(true)));
    assert_eq!(gt(Field::Boolean(false), Field::Boolean(true)), Ok(Field::Boolean(false)));
    assert_eq!(lt(Field::Boolean(false), Field::Int(1)), Ok(Field::Boolean(false)));
    assert_eq!(gt(Field::Boolean(true), Field::Null), Ok(Field::Boolean(false)));
}

#[test]
fn integers_and_floats_compare_by_value() {
    assert_eq!(lt(Field::Int(-5), Field::Int(3)), Ok(Field::Boolean(true)));
    assert_eq!(gt(Field::Int(-5), Field::Int(3)), Ok(Field::Boolean(false)));
    assert_eq!(lt(Field::Int(1), float(1.5)), Ok(Field::Boolean(true)));
    assert_eq!(gt(Field::Int(2), float(1.5)), Ok(Field::Boolean(true)));
    assert_eq!(lt(float(-0.5), Field::Int(0)), Ok(Field::Boolean(true)));
    assert_eq!(gt(float(1e300), Field::Int(i64::MAX)), Ok(Field::Boolean(true)));
    assert_eq!(lt(float(-1.5), float(-1.25)), Ok(Field::Boolean(true)));
    assert_eq!(lt(float(f64::NEG_INFINITY), float(f64::MIN)), Ok(Field::Boolean(true)));
    assert_eq!(gt(float(f64::INFINITY), float(f64::MAX)), Ok(Field::Boolean(true)));
    assert_eq!(lt(Field::Int(1), Field::Null), Ok(Field::Boolean(false)));
    assert_eq!(gt(float(1.0), Field::Null), Ok(Field::Boolean(false)));
}

#[test]
fn the_two_zeros_are_equal_and_nan_is_above_all() {
    let row = Record::new(None, vec![], None);
    let schema = Schema::empty();
    assert_eq!(
        evaluate_eq(&schema, &literal(float(0.0)), &literal(float(-0.0)), &row),
        Ok(Field::Boolean(true))
    );
    assert_eq!(
        evaluate_eq(&schema, &literal(float(f64::NAN)), &literal(float(f64::NAN)), &row),
        Ok(Field::Boolean(true))
    );
    assert_eq!(gt(float(f64::NAN), float(f64::INFINITY)), Ok(Field::Boolean(true)));
    assert_eq!(lt(float(f64::INFINITY), float(f64::NAN)), Ok(Field::Boolean(true)));
    assert_eq!(lt(float(f64::NAN), float(1.0)), Ok(Field::Boolean(false)));
}

#[test]
fn an_integer_is_rounded_to_a_float_before_it_is_compared() {
    let row = Record::new(None, vec![], None);
    let schema = Schema::empty();
    let big = (1i64 << 53) + 1;
    assert_eq!(
        evaluate_eq(&schema, &literal(Field::Int(big)), &literal(float(9007199254740992.0)), &row),
        Ok(Field::Boolean(true))
    );
    assert_eq!(gt(Field::Int(big), float(9007199254740992.0)), Ok(Field::Boolean(false)));
}

#[test]
fn strings_and_timestamps_are_ordered() {
    assert_eq!(
        lt(Field::String("abc".to_string()), Field::String("abd".to_string())),
        Ok(Field::Boolean(true))
    );
    assert_eq!(
        lt(Field::String("ab".to_string()), Field::String("abc".to_string())),
        Ok(Field::Boolean(true))
    );
    assert_eq!(
        gt(Field::String("b".to_string()), Field::String("abc".to_string())),
        Ok(Field::Boolean(true))
    );
    assert_eq!(lt(Field::Timestamp(1), Field::Timestamp(2)), Ok(Field::Boolean(true)));
    assert_eq!(gt(Field::Timestamp(1), Field::Timestamp(2)), Ok(Field::Boolean(false)));
    assert_eq!(lt(Field::String("a".to_string()), Field::Null), Ok(Field::Boolean(false)));
}

#[test]
fn other_pairs_are_refused_with_the_operator() {
    assert_eq!(
        lt(Field::Int(1), Field::String("a".to_string())),
        Err(PipelineError::InvalidOperandType("<".to_string()))
    );
    assert_eq!(
        gt(Field::Int(1), Field::Boolean(true)),
        Err(PipelineError::InvalidOperandType(">".to_string()))
    );
    assert_eq!(
        lt(Field::Binary(vec![1]), Field::Binary(vec![2])),
        Err(PipelineError::InvalidOperandType("<".to_string()))
    );
    assert_eq!(
        gt(Field::Timestamp(1), Field::Int(2)),
        Err(PipelineError::InvalidOperandType(">".to_string()))
    );
    assert_eq!(
        lt(Field::UInt(1), Field::UInt(2)),
        Err(PipelineError::InvalidOperandType("<".to_string()))
    );
}

#[test]
fn expressions_read_columns_and_combine() {
    let row = Record::new(None, vec![Field::Int(7), Field::Int(-2)], None);
    let schema = Schema::empty();
    let positive = Expression::BinaryOperator {
        left: Box::new(Expression::Column { index: 1 }),
        operator: BinaryOperatorType::Gt,
        right: literal(Field::Int(0)),
    };
    assert_eq!(positive.evaluate(&row, &schema), Ok(Field::Boolean(false)));
    let not = Expression::UnaryOperator { operator: UnaryOperatorType::Not, arg: Box::new(positive) };
    assert_eq!(not.evaluate(&row, &schema), Ok(Field::Boolean(true)));
    let both = Expression::BinaryOperator {
        left: Box::new(not),
        operator: BinaryOperatorType::And,
        right: literal(Field::Null),
    };
    assert_eq!(both.evaluate(&row, &schema), Ok(Field::Null));
    let missing = Expression::Column { index: 2 };
    assert!(matches!(missing.evaluate(&row, &schema), Err(PipelineError::InternalTypeError(_))));
}

#[test]
fn expressions_have_the_type_of_their_column_or_literal() {
    let mut schema = Schema::empty();
    schema.field(FieldDefinition::new("id".to_string(), FieldType::UInt, false), true, true);
    schema.field(FieldDefinition::new("name".to_string(), FieldType::String, true), true, false);
    assert_eq!(
        Expression::Column { index: 1 }.get_type(&schema),
        Ok(ExpressionType { return_type: FieldType::String, nullable: true })
    );
    assert_eq!(
        Expression::Column { index: 2 }.get_type(&schema),
        Err(PipelineError::InternalTypeError(
            dozer_pipeline::errors::TypeError::InvalidFieldIndex(2)
        ))
    );
    assert_eq!(
        Expression::Literal(Field::Timestamp(1)).get_type(&schema),
        Ok(ExpressionType { return_type: FieldType::Timestamp, nullable: false })
    );
    assert_eq!(
        Expression::Literal(Field::Null).get_type(&schema),
        Err(PipelineError::InvalidExpression("NULL".to_string()))
    );
    let both = Expression::BinaryOperator {
        left: literal(Field::Int(1)),
        operator: BinaryOperatorType::Lte,
        right: literal(Field::Int(2)),
    };
    assert_eq!(
        both.get_type(&schema),
        Ok(ExpressionType { return_type: FieldType::Boolean, nullable: false })
    );
    assert_eq!(both.evaluate(&Record::new(None, vec![], None), &schema), Ok(Field::Boolean(true)));
    assert_eq!(both.clone(), both);
    let not = Expression::UnaryOperator { operator: UnaryOperatorType::Not, arg: Box::new(both) };
    assert_eq!(
        not.get_type(&schema),
        Ok(ExpressionType { return_type: FieldType::Boolean, nullable: true })
    );
    let or = Expression::BinaryOperator {
        left: Box::new(not),
        operator: BinaryOperatorType::Or,
        right: literal(Field::Boolean(false)),
    };
    assert_eq!(
        or.get_type(&schema),
        Ok(ExpressionType { return_type: FieldType::Boolean, nullable: true })
    );
}

#[test]
fn logical_operators_refuse_what_is_no_truth_value() {
    let row = Record::new(None, vec![], None);
    let schema = Schema::empty();
    let or = Expression::BinaryOperator {
        left: literal(Field::Int(1)),
        operator: BinaryOperatorType::Or,
        right: literal(Field::Boolean(true)),
    };
    assert_eq!(or.evaluate(&row, &schema), Err(PipelineError::InvalidOperandType("OR".to_string())));
    let and = Expression::BinaryOperator {
        left: literal(Field::Boolean(true)),
        operator: BinaryOperatorType::And,
        right: literal(Field::String("x".to_string())),
    };
    assert_eq!(and.evaluate(&row, &schema), Err(PipelineError::InvalidOperandType("AND".to_string())));
    let not = Expression::UnaryOperator {
        operator: UnaryOperatorType::Not,
        arg: literal(Field::UInt(1)),
    };
    assert_eq!(not.evaluate(&row, &schema), Err(PipelineError::InvalidOperandType("NOT".to_string())));
    let or = Expression::BinaryOperator {
        left: literal(Field::Null),
        operator: BinaryOperatorType::Or,
        right: literal(Field::Boolean(true)),
    };
    assert_eq!(or.evaluate(&row, &schema), Ok(Field::Boolean(true)));
}

#[test]
fn logical_operators_keep_what_is_not_known() {
    let row = Record::new(None, vec![], None);
    let schema = Schema::empty();
    let binary = |l: Field, operator: BinaryOperatorType, r: Field| {
        Expression::BinaryOperator { left: literal(l), operator, right: literal(r) }
            .evaluate(&row, &schema)
    };
    let not = |v: Field| {
        Expression::UnaryOperator { operator: UnaryOperatorType::Not, arg: literal(v) }
            .evaluate(&row, &schema)
    };
    let (t, f, n) = (Field::Boolean(true), Field::Boolean(false), Field::Null);
    assert_eq!(not(Field::Null), Ok(Field::Null));
    assert_eq!(not(Field::Boolean(true)), Ok(Field::Boolean(false)));
    assert_eq!(not(Field::Boolean(false)), Ok(Field::Boolean(true)));
    let and = BinaryOperatorType::And;
    let or = BinaryOperatorType::Or;
    assert_eq!(binary(Field::Null, and, Field::Boolean(true)), Ok(Field::Null));
    assert_eq!(binary(Field::Boolean(true), and, Field::Null), Ok(Field::Null));
    assert_eq!(binary(Field::Null, and, Field::Boolean(false)), Ok(Field::Boolean(false)));
    assert_eq!(binary(Field::Null, and, Field::Null), Ok(Field::Null));
    assert_eq!(binary(Field::Null, or, Field::Boolean(true)), Ok(Field::Boolean(true)));
    assert_eq!(binary(Field::Boolean(false), or, Field::Null), Ok(Field::Null));
    assert_eq!(binary(Field::Null, or, Field::Null), Ok(Field::Null));
    assert_eq!(binary(t.clone(), and, t.clone()), Ok(Field::Boolean(true)));
    assert_eq!(binary(t.clone(), and, f.clone()), Ok(Field::Boolean(false)));
    assert_eq!(binary(f.clone(), or, f.clone()), Ok(Field::Boolean(false)));
    assert_eq!(binary(f, or, t), Ok(Field::Boolean(true)));
    assert_eq!(n, Field::Null);
}
