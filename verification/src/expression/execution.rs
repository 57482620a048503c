//! Expressions and their evaluation on a record.

use vstd::prelude::*;
use crate::errors::{PipelineError, PipelineErrorValue, TypeError, TypeErrorValue};
use crate::expression::comparison::{
    compare_fields,
    compare_values,
    results_agree,
    ComparisonOperator,
};
use crate::types::{Field, FieldType, FieldValue, Record, RecordValue, Schema, SchemaValue};

verus! {

/// An operator of one operand.
#[derive(Clone, Copy, Debug, PartialEq, Eq, Structural)]
pub enum UnaryOperatorType {
    Not,
}

/// An operator of two operands.
#[derive(Clone, Copy, Debug, PartialEq, Eq, Structural)]
pub enum BinaryOperatorType {
    Eq,
    Ne,
    Gt,
    Gte,
    Lt,
    Lte,
    And,
    Or,
}

/// An expression over the columns of a record.
#[derive(Debug, PartialEq, Eq)]
pub enum Expression {
    Column { index: usize },
    Literal(Field),
    UnaryOperator { operator: UnaryOperatorType, arg: Box<Expression> },
    BinaryOperator { left: Box<Expression>, operator: BinaryOperatorType, right: Box<Expression> },
}

/// The mathematical value of an [`Expression`].
pub enum ExpressionValue {
    Column { index: usize },
    Literal(FieldValue),
    UnaryOperator { operator: UnaryOperatorType, arg: Box<ExpressionValue> },
    BinaryOperator {
        left: Box<ExpressionValue>,
        operator: BinaryOperatorType,
        right: Box<ExpressionValue>,
    },
}

/// The value of an expression: the expression with each literal's value in
/// its place.
pub open spec fn expression_value(e: Expression) -> ExpressionValue
    decreases e,
{
    match e {
        Expression::Column { index } => ExpressionValue::Column { index },
        Expression::Literal(f) => ExpressionValue::Literal(f@),
        Expression::UnaryOperator { operator, arg } => ExpressionValue::UnaryOperator {
            operator,
            arg: Box::new(expression_value(*arg)),
        },
        Expression::BinaryOperator { left, operator, right } => ExpressionValue::BinaryOperator {
            left: Box::new(expression_value(*left)),
            operator,
            right: Box::new(expression_value(*right)),
        },
    }
}

impl View for Expression {
    type V = ExpressionValue;

    open spec fn view(&self) -> ExpressionValue {
        expression_value(*self)
    }
}

/// The type of what an expression evaluates to.
#[derive(Clone, Copy, Debug, PartialEq, Eq, Structural)]
pub struct ExpressionType {
    pub return_type: FieldType,
    pub nullable: bool,
}

/// The comparison that a binary operator makes, if it makes one.
pub open spec fn comparison_of(operator: BinaryOperatorType) -> Option<ComparisonOperator> {
    match operator {
        BinaryOperatorType::Eq => Some(ComparisonOperator::Eq),
        BinaryOperatorType::Ne => Some(ComparisonOperator::Ne),
        BinaryOperatorType::Gt => Some(ComparisonOperator::Gt),
        BinaryOperatorType::Gte => Some(ComparisonOperator::Gte),
        BinaryOperatorType::Lt => Some(ComparisonOperator::Lt),
        BinaryOperatorType::Lte => Some(ComparisonOperator::Lte),
        BinaryOperatorType::And => None,
        BinaryOperatorType::Or => None,
    }
}

/// The truth value of an operand of a logical operator: true, false, or
/// not known for a null. What is neither a boolean nor a null has none.
pub open spec fn truth_value(v: FieldValue) -> Option<Option<bool>> {
    match v {
        FieldValue::Boolean(b) => Some(Some(b)),
        FieldValue::Null => Some(None),
        _ => None,
    }
}

/// The value of a truth value: a null for what is not known.
pub open spec fn truth_field(t: Option<bool>) -> FieldValue {
    match t {
        Some(b) => FieldValue::Boolean(b),
        None => FieldValue::Null,
    }
}

/// `AND` of two truth values: false where one is false, true where both
/// are true, and not known else.
pub open spec fn both(a: Option<bool>, b: Option<bool>) -> Option<bool> {
    if a == Some(false) || b == Some(false) {
        Some(false)
    } else if a == Some(true) && b == Some(true) {
        Some(true)
    } else {
        None
    }
}

/// `OR` of two truth values: true where one is true, false where both are
/// false, and not known else.
pub open spec fn either(a: Option<bool>, b: Option<bool>) -> Option<bool> {
    if a == Some(true) || b == Some(true) {
        Some(true)
    } else if a == Some(false) && b == Some(false) {
        Some(false)
    } else {
        None
    }
}

/// What `NOT` gives on a value: the other truth value, and a null for a
/// null.
pub open spec fn apply_not(v: FieldValue) -> Result<FieldValue, PipelineErrorValue> {
    match truth_value(v) {
        Some(Some(b)) => Ok(FieldValue::Boolean(!b)),
        Some(None) => Ok(FieldValue::Null),
        None => Err(PipelineErrorValue::InvalidOperandType("NOT"@)),
    }
}

/// What `AND` or `OR` gives on two values, a null counting as not known.
pub open spec fn apply_logical(and: bool, l: FieldValue, r: FieldValue) -> Result<
    FieldValue,
    PipelineErrorValue,
> {
    match (truth_value(l), truth_value(r)) {
        (Some(a), Some(b)) => Ok(truth_field(if and { both(a, b) } else { either(a, b) })),
        _ => Err(PipelineErrorValue::InvalidOperandType(if and { "AND"@ } else { "OR"@ })),
    }
}

/// What a binary operator gives on two values.
pub open spec fn apply_binary(operator: BinaryOperatorType, l: FieldValue, r: FieldValue) -> Result<
    FieldValue,
    PipelineErrorValue,
> {
    match comparison_of(operator) {
        Some(op) => compare_values(op, l, r),
        None => apply_logical(operator == BinaryOperatorType::And, l, r),
    }
}

/// What an expression evaluates to on a record: the column's value, the
/// literal, or the operator applied to what its operands evaluate to. The
/// left operand is evaluated first, and the first failure is the result.
pub open spec fn eval(e: ExpressionValue, record: RecordValue) -> Result<
    FieldValue,
    PipelineErrorValue,
>
    decreases e,
{
    match e {
        ExpressionValue::Column { index } => if index < record.values.len() {
            Ok(record.values[index as int])
        } else {
            Err(PipelineErrorValue::InternalTypeError(TypeErrorValue::InvalidFieldIndex(index)))
        },
        ExpressionValue::Literal(f) => Ok(f),
        ExpressionValue::UnaryOperator { operator, arg } => match eval(*arg, record) {
            Err(e) => Err(e),
            Ok(v) => apply_not(v),
        },
        ExpressionValue::BinaryOperator { left, operator, right } => match eval(*left, record) {
            Err(e) => Err(e),
            Ok(l) => match eval(*right, record) {
                Err(e) => Err(e),
                Ok(r) => apply_binary(operator, l, r),
            },
        },
    }
}

/// The type of a literal, where it has one.
pub open spec fn field_type_of(v: FieldValue) -> Option<FieldType> {
    match v {
        FieldValue::Null => None,
        FieldValue::Boolean(_) => Some(FieldType::Boolean),
        FieldValue::Int(_) => Some(FieldType::Int),
        FieldValue::UInt(_) => Some(FieldType::UInt),
        FieldValue::Float(_) => Some(FieldType::Float),
        FieldValue::String(_) => Some(FieldType::String),
        FieldValue::Binary(_) => Some(FieldType::Binary),
        FieldValue::Timestamp(_) => Some(FieldType::Timestamp),
        FieldValue::Decimal(_, _) => Some(FieldType::Decimal),
        FieldValue::Date(_) => Some(FieldType::Date),
        FieldValue::Json(_) => Some(FieldType::Json),
    }
}

/// The type of an expression under a schema: that of the column, that of
/// the literal, and a boolean for every operator, which is never null for
/// a comparison and may be null for `NOT`, `AND` and `OR`.
pub open spec fn type_of(e: ExpressionValue, schema: SchemaValue) -> Result<
    ExpressionType,
    PipelineErrorValue,
> {
    match e {
        ExpressionValue::Column { index } => if index < schema.fields.len() {
            Ok(
                ExpressionType {
                    return_type: schema.fields[index as int].typ,
                    nullable: schema.fields[index as int].nullable,
                },
            )
        } else {
            Err(PipelineErrorValue::InternalTypeError(TypeErrorValue::InvalidFieldIndex(index)))
        },
        ExpressionValue::Literal(f) => match field_type_of(f) {
            Some(t) => Ok(ExpressionType { return_type: t, nullable: false }),
            None => Err(PipelineErrorValue::InvalidExpression("NULL"@)),
        },
        ExpressionValue::UnaryOperator { operator, arg } => Ok(
            ExpressionType { return_type: FieldType::Boolean, nullable: true },
        ),
        ExpressionValue::BinaryOperator { left, operator, right } => Ok(
            ExpressionType {
                return_type: FieldType::Boolean,
                nullable: comparison_of(operator) is None,
            },
        ),
    }
}

impl Clone for Expression {
    fn clone(&self) -> (res: Self)
        ensures
            res@ == self@,
        decreases self,
    {
        match self {
            Expression::Column { index } => Expression::Column { index: *index },
            Expression::Literal(f) => Expression::Literal(f.clone()),
            Expression::UnaryOperator { operator, arg } => {
                let a = (&**arg).clone();
                Expression::UnaryOperator { operator: *operator, arg: Box::new(a) }
            },
            Expression::BinaryOperator { left, operator, right } => {
                let l = (&**left).clone();
                let r = (&**right).clone();
                Expression::BinaryOperator {
                    left: Box::new(l),
                    operator: *operator,
                    right: Box::new(r),
                }
            },
        }
    }
}

/// Computes [`truth_value`].
fn logical_operand(v: &Field) -> (res: Option<Option<bool>>)
    ensures
        res == truth_value(v@),
{
    match v {
        Field::Boolean(b) => Some(Some(*b)),
        Field::Null => Some(None),
        _ => None,
    }
}

/// Computes [`truth_field`].
fn field_of_truth(t: Option<bool>) -> (res: Field)
    ensures
        res@ == truth_field(t),
{
    match t {
        Some(b) => Field::Boolean(b),
        None => Field::Null,
    }
}

/// Computes [`both`].
fn and_of(a: Option<bool>, b: Option<bool>) -> (res: Option<bool>)
    ensures
        res == both(a, b),
{
    match (a, b) {
        (Some(false), _) => Some(false),
        (_, Some(false)) => Some(false),
        (Some(true), Some(true)) => Some(true),
        _ => None,
    }
}

/// Computes [`either`].
fn or_of(a: Option<bool>, b: Option<bool>) -> (res: Option<bool>)
    ensures
        res == either(a, b),
{
    match (a, b) {
        (Some(true), _) => Some(true),
        (_, Some(true)) => Some(true),
        (Some(false), Some(false)) => Some(false),
        _ => None,
    }
}

impl Expression {
    /// Evaluates the expression on `record`.
    pub fn evaluate(&self, record: &Record, schema: &Schema) -> (res: Result<Field, PipelineError>)
        ensures
            results_agree(res, eval(self@, record@)),
        decreases self,
    {
        match self {
            Expression::Column { index } => {
                if *index < record.values.len() {
                    Ok(record.values[*index].clone())
                } else {
                    Err(PipelineError::InternalTypeError(TypeError::InvalidFieldIndex(*index)))
                }
            },
            Expression::Literal(f) => Ok(f.clone()),
            Expression::UnaryOperator { operator, arg } => {
                let v = match arg.evaluate(record, schema) {
                    Ok(v) => v,
                    Err(e) => {
                        return Err(e);
                    },
                };
                match logical_operand(&v) {
                    Some(Some(b)) => Ok(Field::Boolean(!b)),
                    Some(None) => Ok(Field::Null),
                    None => Err(PipelineError::InvalidOperandType("NOT".to_owned())),
                }
            },
            Expression::BinaryOperator { left, operator, right } => {
                let l = match left.evaluate(record, schema) {
                    Ok(v) => v,
                    Err(e) => {
                        return Err(e);
                    },
                };
                let r = match right.evaluate(record, schema) {
                    Ok(v) => v,
                    Err(e) => {
                        return Err(e);
                    },
                };
                match operator {
                    BinaryOperatorType::Eq => compare_fields(ComparisonOperator::Eq, &l, &r),
                    BinaryOperatorType::Ne => compare_fields(ComparisonOperator::Ne, &l, &r),
                    BinaryOperatorType::Gt => compare_fields(ComparisonOperator::Gt, &l, &r),
                    BinaryOperatorType::Gte => compare_fields(ComparisonOperator::Gte, &l, &r),
                    BinaryOperatorType::Lt => compare_fields(ComparisonOperator::Lt, &l, &r),
                    BinaryOperatorType::Lte => compare_fields(ComparisonOperator::Lte, &l, &r),
                    BinaryOperatorType::And => match (logical_operand(&l), logical_operand(&r)) {
                        (Some(a), Some(b)) => Ok(field_of_truth(and_of(a, b))),
                        _ => Err(PipelineError::InvalidOperandType("AND".to_owned())),
                    },
                    BinaryOperatorType::Or => match (logical_operand(&l), logical_operand(&r)) {
                        (Some(a), Some(b)) => Ok(field_of_truth(or_of(a, b))),
                        _ => Err(PipelineError::InvalidOperandType("OR".to_owned())),
                    },
                }
            },
        }
    }

    /// The type of what the expression evaluates to under `schema`.
    pub fn get_type(&self, schema: &Schema) -> (res: Result<ExpressionType, PipelineError>)
        ensures
            match type_of(self@, schema@) {
                Ok(t) => res == Ok::<ExpressionType, PipelineError>(t),
                Err(e) => res is Err && res->Err_0@ == e,
            },
    {
        match self {
            Expression::Column { index } => {
                if *index < schema.fields.len() {
                    Ok(
                        ExpressionType {
                            return_type: schema.fields[*index].typ,
                            nullable: schema.fields[*index].nullable,
                        },
                    )
                } else {
                    Err(PipelineError::InternalTypeError(TypeError::InvalidFieldIndex(*index)))
                }
            },
            Expression::Literal(f) => {
                let t = match f {
                    Field::Null => {
                        return Err(PipelineError::InvalidExpression("NULL".to_owned()));
                    },
                    Field::Boolean(_) => FieldType::Boolean,
                    Field::Int(_) => FieldType::Int,
                    Field::UInt(_) => FieldType::UInt,
                    Field::Float(_) => FieldType::Float,
                    Field::String(_) => FieldType::String,
                    Field::Binary(_) => FieldType::Binary,
                    Field::Timestamp(_) => FieldType::Timestamp,
                    Field::Decimal(_, _) => FieldType::Decimal,
                    Field::Date(_) => FieldType::Date,
                    Field::Json(_) => FieldType::Json,
                };
                Ok(ExpressionType { return_type: t, nullable: false })
            },
            Expression::UnaryOperator { operator, arg } => Ok(
                ExpressionType { return_type: FieldType::Boolean, nullable: true },
            ),
            Expression::BinaryOperator { left, operator, right } => {
                let logical = matches!(operator, BinaryOperatorType::And | BinaryOperatorType::Or);
                Ok(ExpressionType { return_type: FieldType::Boolean, nullable: logical })
            },
        }
    }
}

} // verus!
