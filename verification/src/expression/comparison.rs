//! The six comparisons of two expressions on a record.
//!
//! A comparison with a null on either side gives false under every
//! operator: what is not known is not taken for true. Booleans, integers,
//! floats, strings and timestamps are ordered among themselves, an integer
//! and a float after the integer is converted to a float. A boolean with
//! another type compares as false. Any other pair is refused.

use vstd::prelude::*;
use vstd::string::*;
use vstd::utf8::*;
use crate::errors::{PipelineError, PipelineErrorValue};
use crate::expression::execution::{eval, Expression, ExpressionValue};
use crate::expression::float::{float_key, float_of_int, float_order_key, int_to_float_bits};
use crate::types::{Field, FieldValue, Record, RecordValue, Schema};

verus! {

/// A comparison operator.
#[derive(Clone, Copy, Debug, PartialEq, Eq, Structural)]
pub enum ComparisonOperator {
    Eq,
    Ne,
    Gt,
    Gte,
    Lt,
    Lte,
}

/// How the operator is written.
pub open spec fn operator_symbol(op: ComparisonOperator) -> Seq<char> {
    match op {
        ComparisonOperator::Eq => "="@,
        ComparisonOperator::Ne => "!="@,
        ComparisonOperator::Gt => ">"@,
        ComparisonOperator::Gte => ">="@,
        ComparisonOperator::Lt => "<"@,
        ComparisonOperator::Lte => "<="@,
    }
}

/// -1, 0 or 1 as `a` is below, equal to or above `b`.
pub open spec fn order_of(a: int, b: int) -> int {
    if a < b {
        -1
    } else if a == b {
        0
    } else {
        1
    }
}

/// -1, 0 or 1 as `a` comes before, is equal to or comes after `b`, byte by
/// byte, a proper prefix before what it is a prefix of.
pub open spec fn lexicographic_order(a: Seq<u8>, b: Seq<u8>) -> int
    decreases a.len(),
{
    if a.len() == 0 {
        if b.len() == 0 {
            0
        } else {
            -1
        }
    } else if b.len() == 0 {
        1
    } else if a[0] != b[0] {
        order_of(a[0] as int, b[0] as int)
    } else {
        lexicographic_order(a.drop_first(), b.drop_first())
    }
}

/// Whether the operator holds of two values that compare as `order`.
pub open spec fn holds(op: ComparisonOperator, order: int) -> bool {
    match op {
        ComparisonOperator::Eq => order == 0,
        ComparisonOperator::Ne => order != 0,
        ComparisonOperator::Gt => order > 0,
        ComparisonOperator::Gte => order >= 0,
        ComparisonOperator::Lt => order < 0,
        ComparisonOperator::Lte => order <= 0,
    }
}

/// How two values of types that are ordered with each other compare, and
/// nothing for any other pair.
pub open spec fn order_of_values(l: FieldValue, r: FieldValue) -> Option<int> {
    match (l, r) {
        (FieldValue::Boolean(a), FieldValue::Boolean(b)) => Some(
            order_of(if a { 1 } else { 0 }, if b { 1 } else { 0 }),
        ),
        (FieldValue::Int(a), FieldValue::Int(b)) => Some(order_of(a as int, b as int)),
        (FieldValue::Int(a), FieldValue::Float(b)) => Some(
            order_of(float_key(float_of_int(a)), float_key(b)),
        ),
        (FieldValue::Float(a), FieldValue::Float(b)) => Some(order_of(float_key(a), float_key(b))),
        (FieldValue::Float(a), FieldValue::Int(b)) => Some(
            order_of(float_key(a), float_key(float_of_int(b))),
        ),
        (FieldValue::String(a), FieldValue::String(b)) => Some(
            lexicographic_order(encode_utf8(a), encode_utf8(b)),
        ),
        (FieldValue::Timestamp(a), FieldValue::Timestamp(b)) => Some(order_of(a as int, b as int)),
        _ => None,
    }
}

/// What a comparison of two values gives.
pub open spec fn compare_values(op: ComparisonOperator, l: FieldValue, r: FieldValue) -> Result<
    FieldValue,
    PipelineErrorValue,
> {
    match order_of_values(l, r) {
        Some(order) => Ok(FieldValue::Boolean(holds(op, order))),
        None => if l is Null || r is Null {
            Ok(FieldValue::Boolean(false))
        } else if l is Boolean {
            Ok(FieldValue::Boolean(false))
        } else {
            Err(PipelineErrorValue::InvalidOperandType(operator_symbol(op)))
        },
    }
}

/// What a comparison of two expressions gives on a record. The left one is
/// evaluated first, and the first failure is the result.
pub open spec fn compare_expressions(
    op: ComparisonOperator,
    left: ExpressionValue,
    right: ExpressionValue,
    record: RecordValue,
) -> Result<FieldValue, PipelineErrorValue> {
    match eval(left, record) {
        Err(e) => Err(e),
        Ok(l) => match eval(right, record) {
            Err(e) => Err(e),
            Ok(r) => compare_values(op, l, r),
        },
    }
}

/// Whether a result holds the value or the error that `expected` names.
pub open spec fn results_agree(
    res: Result<Field, PipelineError>,
    expected: Result<FieldValue, PipelineErrorValue>,
) -> bool {
    match expected {
        Ok(v) => res is Ok && res->Ok_0@ == v,
        Err(e) => res is Err && res->Err_0@ == e,
    }
}

/// Computes [`order_of`].
fn order_of_integers(a: i128, b: i128) -> (res: i8)
    ensures
        res == order_of(a as int, b as int),
{
    if a < b {
        -1
    } else if a == b {
        0
    } else {
        1
    }
}

/// Computes [`lexicographic_order`].
pub fn order_of_bytes(a: &[u8], b: &[u8]) -> (res: i8)
    ensures
        res == lexicographic_order(a@, b@),
{
    let mut i: usize = 0;
    assert(a@.skip(0) =~= a@ && b@.skip(0) =~= b@);
    while i < a.len() && i < b.len()
        invariant
            i <= a.len(),
            i <= b.len(),
            lexicographic_order(a@, b@) == lexicographic_order(a@.skip(i as int), b@.skip(i as int)),
        decreases a.len() - i,
    {
        let ghost ra = a@.skip(i as int);
        let ghost rb = b@.skip(i as int);
        assert(ra[0] == a@[i as int] && rb[0] == b@[i as int]);
        assert(ra.drop_first() =~= a@.skip(i + 1));
        assert(rb.drop_first() =~= b@.skip(i + 1));
        if a[i] != b[i] {
            return if a[i] < b[i] {
                -1
            } else {
                1
            };
        }
        i += 1;
    }
    assert(a@.skip(i as int).len() == a@.len() - i);
    assert(b@.skip(i as int).len() == b@.len() - i);
    if i < b.len() {
        -1
    } else if i < a.len() {
        1
    } else {
        0
    }
}

/// Whether the operator holds of two values that compare as `order`.
fn operator_holds(op: ComparisonOperator, order: i8) -> (res: bool)
    ensures
        res == holds(op, order as int),
{
    match op {
        ComparisonOperator::Eq => order == 0,
        ComparisonOperator::Ne => order != 0,
        ComparisonOperator::Gt => order > 0,
        ComparisonOperator::Gte => order >= 0,
        ComparisonOperator::Lt => order < 0,
        ComparisonOperator::Lte => order <= 0,
    }
}

/// The error of a comparison that is refused.
fn invalid_operand(op: ComparisonOperator) -> (res: PipelineError)
    ensures
        res@ == PipelineErrorValue::InvalidOperandType(operator_symbol(op)),
{
    let symbol = match op {
        ComparisonOperator::Eq => "=",
        ComparisonOperator::Ne => "!=",
        ComparisonOperator::Gt => ">",
        ComparisonOperator::Gte => ">=",
        ComparisonOperator::Lt => "<",
        ComparisonOperator::Lte => "<=",
    };
    PipelineError::InvalidOperandType(symbol.to_owned())
}

/// How two fields compare, where their types are ordered with each other.
fn order_of_fields(l: &Field, r: &Field) -> (res: Option<i8>)
    ensures
        match order_of_values(l@, r@) {
            Some(order) => res is Some && res->Some_0 == order,
            None => res is None,
        },
{
    match (l, r) {
        (Field::Boolean(a), Field::Boolean(b)) => Some(
            order_of_integers(if *a { 1 } else { 0 }, if *b { 1 } else { 0 }),
        ),
        (Field::Int(a), Field::Int(b)) => Some(order_of_integers(*a as i128, *b as i128)),
        (Field::Int(a), Field::Float(b)) => Some(
            order_of_integers(float_order_key(int_to_float_bits(*a)), float_order_key(*b)),
        ),
        (Field::Float(a), Field::Float(b)) => Some(
            order_of_integers(float_order_key(*a), float_order_key(*b)),
        ),
        (Field::Float(a), Field::Int(b)) => Some(
            order_of_integers(float_order_key(*a), float_order_key(int_to_float_bits(*b))),
        ),
        (Field::String(a), Field::String(b)) => Some(
            order_of_bytes(a.as_str().as_bytes(), b.as_str().as_bytes()),
        ),
        (Field::Timestamp(a), Field::Timestamp(b)) => Some(
            order_of_integers(*a as i128, *b as i128),
        ),
        _ => None,
    }
}

/// Compares two fields.
pub fn compare_fields(op: ComparisonOperator, l: &Field, r: &Field) -> (res: Result<
    Field,
    PipelineError,
>)
    ensures
        results_agree(res, compare_values(op, l@, r@)),
{
    match order_of_fields(l, r) {
        Some(order) => Ok(Field::Boolean(operator_holds(op, order))),
        None => {
            if matches!(l, Field::Null) || matches!(r, Field::Null) {
                Ok(Field::Boolean(false))
            } else if matches!(l, Field::Boolean(_)) {
                Ok(Field::Boolean(false))
            } else {
                Err(invalid_operand(op))
            }
        },
    }
}

/// Evaluates both expressions on `record` and compares what they give.
fn evaluate_comparison(
    op: ComparisonOperator,
    schema: &Schema,
    left: &Expression,
    right: &Expression,
    record: &Record,
) -> (res: Result<Field, PipelineError>)
    ensures
        results_agree(res, compare_expressions(op, left@, right@, record@)),
{
    let l = match left.evaluate(record, schema) {
        Ok(v) => v,
        Err(e) => {
            return Err(e);
        },
    };
    let r = match right.evaluate(record, schema) {
        Ok(v) => v,
        Err(e) => {
            return Err(e);
        },
    };
    compare_fields(op, &l, &r)
}

/// Whether `left` is less than `right` on `record`.
pub fn evaluate_lt(schema: &Schema, left: &Expression, right: &Expression, record: &Record) -> (res:
    Result<Field, PipelineError>)
    ensures
        results_agree(res, compare_expressions(ComparisonOperator::Lt, left@, right@, record@)),
{
    evaluate_comparison(ComparisonOperator::Lt, schema, left, right, record)
}

/// Whether `left` is greater than `right` on `record`.
pub fn evaluate_gt(schema: &Schema, left: &Expression, right: &Expression, record: &Record) -> (res:
    Result<Field, PipelineError>)
    ensures
        results_agree(res, compare_expressions(ComparisonOperator::Gt, left@, right@, record@)),
{
    evaluate_comparison(ComparisonOperator::Gt, schema, left, right, record)
}

/// Whether `left` is equal to `right` on `record`.
pub fn evaluate_eq(schema: &Schema, left: &Expression, right: &Expression, record: &Record) -> (res:
    Result<Field, PipelineError>)
    ensures
        results_agree(res, compare_expressions(ComparisonOperator::Eq, left@, right@, record@)),
{
    evaluate_comparison(ComparisonOperator::Eq, schema, left, right, record)
}

/// Whether `left` is not equal to `right` on `record`.
pub fn evaluate_ne(schema: &Schema, left: &Expression, right: &Expression, record: &Record) -> (res:
    Result<Field, PipelineError>)
    ensures
        results_agree(res, compare_expressions(ComparisonOperator::Ne, left@, right@, record@)),
{
    evaluate_comparison(ComparisonOperator::Ne, schema, left, right, record)
}

/// Whether `left` is less than or equal to `right` on `record`.
pub fn evaluate_lte(schema: &Schema, left: &Expression, right: &Expression, record: &Record) -> (res:
    Result<Field, PipelineError>)
    ensures
        results_agree(res, compare_expressions(ComparisonOperator::Lte, left@, right@, record@)),
{
    evaluate_comparison(ComparisonOperator::Lte, schema, left, right, record)
}

/// Whether `left` is greater than or equal to `right` on `record`.
pub fn evaluate_gte(schema: &Schema, left: &Expression, right: &Expression, record: &Record) -> (res:
    Result<Field, PipelineError>)
    ensures
        results_agree(res, compare_expressions(ComparisonOperator::Gte, left@, right@, record@)),
{
    evaluate_comparison(ComparisonOperator::Gte, schema, left, right, record)
}

/// Comparing the other way round gives the opposite.
pub proof fn lemma_order_antisymmetric(a: Seq<u8>, b: Seq<u8>)
    ensures
        lexicographic_order(a, b) == -lexicographic_order(b, a),
    decreases a.len(),
{
    if a.len() > 0 && b.len() > 0 && a[0] == b[0] {
        lemma_order_antisymmetric(a.drop_first(), b.drop_first());
    }
}

/// What comes no later than something that comes no later than a third
/// comes no later than the third.
pub proof fn lemma_order_transitive(a: Seq<u8>, b: Seq<u8>, c: Seq<u8>)
    requires
        lexicographic_order(a, b) <= 0,
        lexicographic_order(b, c) <= 0,
    ensures
        lexicographic_order(a, c) <= 0,
    decreases a.len(),
{
    if a.len() > 0 && b.len() > 0 && c.len() > 0 && a[0] == b[0] && b[0] == c[0] {
        lemma_order_transitive(a.drop_first(), b.drop_first(), c.drop_first());
    }
}

} // verus!
