use bitmotif::iota::{eval_int, iota_error_span, iota_plan, iota_values, IntExpr, IotaError, IotaSpan};

fn lit(v: i128) -> IntExpr {
    IntExpr::Lit(Some(v))
}

fn neg(e: IntExpr) -> IntExpr {
    IntExpr::Neg(Box::new(e))
}

#[test]
fn eval_literal_and_negation() {
    assert_eq!(eval_int(&lit(7)), Ok(7));
    assert_eq!(eval_int(&neg(lit(7))), Ok(-7));
    assert_eq!(eval_int(&neg(neg(lit(3)))), Ok(3));
    assert_eq!(eval_int(&neg(lit(i128::MAX))), Ok(-i128::MAX));
}

#[test]
fn eval_errors() {
    assert_eq!(eval_int(&IntExpr::Lit(None)), Err(IotaError::ParseFailed));
    assert_eq!(eval_int(&neg(IntExpr::Lit(None))), Err(IotaError::ParseFailed));
    assert_eq!(eval_int(&IntExpr::Other), Err(IotaError::NotALiteral));
    assert_eq!(eval_int(&neg(IntExpr::Other)), Err(IotaError::NotALiteral));
}

#[test]
fn values_half_open_and_closed() {
    assert_eq!(iota_values(0, 5, false), vec![0, 1, 2, 3, 4]);
    assert_eq!(iota_values(0, 5, true), vec![0, 1, 2, 3, 4, 5]);
    assert_eq!(iota_values(-2, 1, false), vec![-2, -1, 0]);
    assert_eq!(iota_values(3, 3, true), vec![3]);
    assert_eq!(iota_values(3, 3, false), Vec::<i128>::new());
    assert_eq!(iota_values(4, 1, true), Vec::<i128>::new());
}

#[test]
fn plan_of_range() {
    assert_eq!(iota_plan(Some(lit(0)), Some(lit(4)), false), Ok(vec![0, 1, 2, 3]));
    assert_eq!(iota_plan(Some(neg(lit(3))), Some(lit(2)), true), Ok(vec![-3, -2, -1, 0, 1, 2]));
    assert_eq!(iota_plan(Some(lit(5)), Some(lit(2)), false), Ok(vec![]));
}

#[test]
fn plan_errors() {
    assert_eq!(iota_plan(None, Some(lit(4)), false), Err(IotaError::MissingStart));
    assert_eq!(iota_plan(None, None, false), Err(IotaError::MissingStart));
    assert_eq!(iota_plan(Some(lit(0)), None, true), Err(IotaError::MissingEnd));
    assert_eq!(iota_plan(Some(IntExpr::Other), Some(IntExpr::Lit(None)), false), Err(IotaError::NotALiteral));
    assert_eq!(iota_plan(Some(lit(1)), Some(IntExpr::Lit(None)), false), Err(IotaError::ParseFailed));
}

#[test]
fn error_messages() {
    assert_eq!(IotaError::ParseFailed.message(), "Failed to parse integer");
    assert_eq!(IotaError::NotALiteral.message(), "Expected a literal integer value");
    assert_eq!(IotaError::MissingStart.message(), "Range must have an explicit start bound");
    assert_eq!(IotaError::MissingEnd.message(), "Range must have an explicit end bound");
}

#[test]
fn error_spans() {
    assert_eq!(iota_error_span(&None, &Some(lit(1))), IotaSpan::Range);
    assert_eq!(iota_error_span(&Some(lit(1)), &None), IotaSpan::Range);
    assert_eq!(iota_error_span(&Some(IntExpr::Other), &Some(IntExpr::Other)), IotaSpan::Start);
    assert_eq!(iota_error_span(&Some(neg(lit(2))), &Some(IntExpr::Lit(None))), IotaSpan::End);
}
