use ledger::decimal::Decimal;
use ledger::eval::evaluate_operation;
use ledger::line::Operation;
use ledger::print::pretty_print_value;
use ledger::value::{or_overflow, EvalError, Value};

fn dec(mantissa: i128, scale: u32) -> Decimal {
    Decimal::new(mantissa, scale).unwrap()
}

fn num(mantissa: i128, scale: u32) -> Value {
    Value::Number(dec(mantissa, scale))
}

fn range(lo: i128, hi: i128) -> Value {
    Value::Interval(dec(lo, 0), dec(hi, 0))
}

fn show(v: Value) -> String {
    let mut out = String::new();
    pretty_print_value(&mut out, v);
    out
}

const MAX: i128 = 79_228_162_514_264_337_593_543_950_335;

#[test]
fn decimal_new_keeps_mantissa_and_scale() {
    let d = dec(-12345, 3);
    assert_eq!(d.mantissa(), -12345);
    assert_eq!(d.scale(), 3);
}

#[test]
fn decimal_new_accepts_the_limits() {
    assert!(Decimal::new(MAX, 28).is_some());
    assert!(Decimal::new(-MAX, 0).is_some());
    assert!(Decimal::new(0, 0).is_some());
}

#[test]
fn decimal_new_refuses_what_is_out_of_range() {
    assert!(Decimal::new(MAX + 1, 0).is_none());
    assert!(Decimal::new(-MAX - 1, 0).is_none());
    assert!(Decimal::new(1, 29).is_none());
}

#[test]
fn number_minus_number_is_exact() {
    assert_eq!(num(105, 1).sub(num(25, 2)), Ok(num(1025, 2)));
    assert_eq!(num(200, 0).sub(num(30, 0)), Ok(num(170, 0)));
    assert_eq!(num(1, 1).sub(num(3, 1)), Ok(num(-2, 1)));
}

#[test]
fn tenths_do_not_drift() {
    let mut acc = num(1, 0);
    for _ in 0..10 {
        acc = acc.sub(num(1, 1)).unwrap();
    }
    assert_eq!(acc, num(0, 1));
}

#[test]
fn number_minus_interval_swaps_the_bounds() {
    assert_eq!(num(10, 0).sub(range(1, 3)), Ok(range(7, 9)));
}

#[test]
fn interval_minus_number_shifts_the_bounds() {
    assert_eq!(range(1, 3).sub(num(10, 0)), Ok(range(-9, -7)));
}

#[test]
fn interval_minus_interval_crosses_the_bounds() {
    assert_eq!(range(10, 20).sub(range(1, 3)), Ok(range(7, 19)));
}

#[test]
fn subtraction_reports_overflow() {
    assert_eq!(num(MAX, 0).sub(num(-MAX, 0)), Err(EvalError::Overflow));
    assert_eq!(
        Value::Interval(dec(0, 0), dec(MAX, 0)).sub(num(-1, 0)),
        Err(EvalError::Overflow)
    );
}

#[test]
fn number_times_number() {
    assert_eq!(num(100, 0).mul(num(2, 0)), Ok(num(200, 0)));
    assert_eq!(num(15, 1).mul(num(2, 0)), Ok(num(30, 1)));
    assert_eq!(num(-15, 1).mul(num(15, 1)), Ok(num(-225, 2)));
}

#[test]
fn number_times_interval_scales_both_bounds() {
    assert_eq!(num(2, 0).mul(range(1, 3)), Ok(range(2, 6)));
    assert_eq!(range(1, 3).mul(num(2, 0)), Ok(range(2, 6)));
}

#[test]
fn negative_number_times_interval_keeps_the_places_of_the_bounds() {
    assert_eq!(num(-2, 0).mul(range(1, 3)), Ok(range(-2, -6)));
}

#[test]
fn interval_times_interval_with_lower_bounds_from_zero() {
    assert_eq!(range(1, 2).mul(range(3, 4)), Ok(range(3, 8)));
    assert_eq!(range(0, 2).mul(range(0, 4)), Ok(range(0, 8)));
}

#[test]
fn interval_times_interval_with_a_negative_lower_bound_is_unsupported() {
    assert_eq!(range(-1, 2).mul(range(3, 4)), Err(EvalError::Unsupported));
    assert_eq!(range(1, 2).mul(range(-3, 4)), Err(EvalError::Unsupported));
    assert_eq!(range(-1, 2).mul(range(-3, 4)), Err(EvalError::Unsupported));
}

#[test]
fn multiplication_reports_overflow() {
    assert_eq!(num(MAX, 0).mul(num(10, 0)), Err(EvalError::Overflow));
}

#[test]
fn number_over_number() {
    assert_eq!(num(1, 0).div(num(4, 0)), Ok(num(25, 2)));
    assert_eq!(num(10, 0).div(num(4, 0)), Ok(num(250, 2)));
    assert_eq!(num(8, 0).div(num(4, 0)), Ok(num(2, 0)));
}

#[test]
fn a_third_has_twenty_eight_places() {
    assert_eq!(
        num(1, 0).div(num(3, 0)),
        Ok(num(3_333_333_333_333_333_333_333_333_333, 28))
    );
}

#[test]
fn number_over_interval_keeps_the_places_of_the_bounds() {
    assert_eq!(num(8, 0).div(range(2, 4)), Ok(range(4, 2)));
}

#[test]
fn interval_over_number_divides_both_bounds() {
    assert_eq!(range(2, 4).div(num(2, 0)), Ok(range(1, 2)));
}

#[test]
fn interval_over_interval_is_unsupported() {
    assert_eq!(range(2, 4).div(range(1, 2)), Err(EvalError::Unsupported));
    assert_eq!(range(0, 0).div(range(0, 0)), Err(EvalError::Unsupported));
}

#[test]
fn division_by_zero_is_reported() {
    assert_eq!(num(1, 0).div(num(0, 0)), Err(EvalError::DivisionByZero));
    assert_eq!(num(1, 0).div(num(0, 5)), Err(EvalError::DivisionByZero));
    assert_eq!(num(1, 0).div(range(0, 1)), Err(EvalError::DivisionByZero));
    assert_eq!(num(1, 0).div(range(1, 0)), Err(EvalError::DivisionByZero));
    assert_eq!(range(1, 2).div(num(0, 0)), Err(EvalError::DivisionByZero));
}

#[test]
fn division_reports_overflow() {
    assert_eq!(num(MAX, 0).div(num(1, 1)), Err(EvalError::Overflow));
}

#[test]
fn the_error_of_the_lower_bound_comes_first() {
    let lo_fails = Value::Interval(dec(MAX, 0), dec(1, 0));
    assert_eq!(lo_fails.mul(num(10, 0)), Err(EvalError::Overflow));
    assert_eq!(num(1, 0).div(Value::Interval(dec(0, 0), dec(1, 0))), Err(EvalError::DivisionByZero));
}

#[test]
fn an_expression_applies_its_operators_from_the_left() {
    let two = Operation::Value(num(2, 0));
    let four = Operation::Value(num(4, 0));
    let eight = Operation::Value(num(8, 0));
    let op = Operation::Mul(
        Box::new(Operation::Div(Box::new(eight), Box::new(four))),
        Box::new(two),
    );
    assert_eq!(evaluate_operation(&op), Ok(num(4, 0)));
}

#[test]
fn an_expression_of_one_value_is_that_value() {
    let v = Value::Interval(dec(3, 0), dec(1, 0));
    assert_eq!(evaluate_operation(&Operation::Value(v)), Ok(v));
}

#[test]
fn an_expression_fails_with_its_first_error() {
    let zero = Operation::Value(num(0, 0));
    let one = Operation::Value(num(1, 0));
    let left = Operation::Div(Box::new(one), Box::new(zero));
    let right = Operation::Div(
        Box::new(Operation::Value(range(1, 2))),
        Box::new(Operation::Value(range(1, 2))),
    );
    let op = Operation::Mul(Box::new(left), Box::new(right));
    assert_eq!(evaluate_operation(&op), Err(EvalError::DivisionByZero));
}

#[test]
fn printing_drops_the_zeros_that_end_a_fraction() {
    assert_eq!(show(num(10500, 3)), "10.5");
    assert_eq!(show(num(1000, 2)), "10");
    assert_eq!(show(num(200, 0)), "200");
    assert_eq!(show(num(0, 5)), "0");
}

#[test]
fn printing_rounds_to_two_places_half_to_even() {
    assert_eq!(show(num(125, 3)), "0.12");
    assert_eq!(show(num(135, 3)), "0.14");
    assert_eq!(show(num(1005, 3)), "1");
    assert_eq!(show(num(1015, 3)), "1.02");
    assert_eq!(show(num(1239, 3)), "1.24");
    assert_eq!(show(num(1234, 3)), "1.23");
    assert_eq!(show(num(1234567891, 3)), "1234567.89");
    assert_eq!(show(num(12501, 4)), "1.25");
    assert_eq!(show(num(12500001, 7)), "1.25");
    assert_eq!(show(num(1250001, 6)), "1.25");
    assert_eq!(show(num(995, 3)), "1");
    assert_eq!(show(num(9951, 4)), "1");
}

#[test]
fn printing_keeps_the_sign() {
    assert_eq!(show(num(-125, 3)), "-0.12");
    assert_eq!(show(num(-5, 0)), "-5");
    assert_eq!(show(num(-5, 1)), "-0.5");
    assert_eq!(show(num(-1, 3)), "0");
}

#[test]
fn printing_an_interval() {
    assert_eq!(show(Value::Interval(dec(10500, 3), dec(2, 0))), "[10.5, 2]");
    assert_eq!(show(range(-1, 1)), "[-1, 1]");
}

#[test]
fn printing_the_largest_number() {
    assert_eq!(show(num(MAX, 0)), "79228162514264337593543950335");
    assert_eq!(show(num(MAX, 28)), "7.92");
    assert_eq!(show(num(5, 28)), "0");
}

#[test]
fn a_missing_decimal_is_an_overflow() {
    assert_eq!(or_overflow(Some(dec(5, 1))), Ok(dec(5, 1)));
    assert_eq!(or_overflow(None), Err(EvalError::Overflow));
}

#[test]
fn a_number_is_made_of_a_computed_decimal() {
    assert_eq!(Value::number(Ok(dec(5, 1))), Ok(num(5, 1)));
    assert_eq!(Value::number(Err(EvalError::DivisionByZero)), Err(EvalError::DivisionByZero));
}

#[test]
fn an_interval_is_made_of_two_computed_bounds() {
    assert_eq!(Value::interval(Ok(dec(3, 0)), Ok(dec(1, 0))), Ok(range(3, 1)));
    assert_eq!(
        Value::interval(Err(EvalError::Overflow), Err(EvalError::DivisionByZero)),
        Err(EvalError::Overflow)
    );
    assert_eq!(
        Value::interval(Ok(dec(3, 0)), Err(EvalError::DivisionByZero)),
        Err(EvalError::DivisionByZero)
    );
    assert_eq!(
        Value::interval(Err(EvalError::Unsupported), Ok(dec(3, 0))),
        Err(EvalError::Unsupported)
    );
}

#[test]
fn decimals_are_subtracted_multiplied_and_divided() {
    assert_eq!(dec(105, 1).checked_sub(dec(25, 2)), Some(dec(1025, 2)));
    assert_eq!(dec(15, 1).checked_mul(dec(2, 0)), Some(dec(30, 1)));
    assert_eq!(dec(1, 0).checked_div(dec(4, 0)), Some(dec(25, 2)));
    assert_eq!(dec(MAX, 0).checked_sub(dec(-1, 0)), None);
    assert_eq!(dec(MAX, 0).checked_mul(dec(2, 0)), None);
    assert_eq!(dec(MAX, 0).checked_div(dec(1, 1)), None);
    assert_eq!(dec(1, 0).checked_div(dec(0, 0)), None);
}

#[test]
fn a_decimal_is_rounded_half_to_even() {
    assert_eq!(dec(125, 3).round_dp(2), dec(12, 2));
    assert_eq!(dec(135, 3).round_dp(2), dec(14, 2));
    assert_eq!(dec(-135, 3).round_dp(2), dec(-14, 2));
    assert_eq!(dec(25, 1).round_dp(0), dec(2, 0));
    assert_eq!(dec(35, 1).round_dp(0), dec(4, 0));
    assert_eq!(dec(125, 3).round_dp(3), dec(125, 3));
    assert_eq!(dec(125, 3).round_dp(7), dec(125, 3));
    assert_eq!(dec(1, 28).round_dp(27), dec(0, 27));
    assert_eq!(dec(MAX, 28).round_dp(0), dec(8, 0));
    assert_eq!(dec(0, 5).round_dp(2), dec(0, 2));
}

#[test]
fn a_decimal_is_normalized() {
    assert_eq!(dec(10500, 3).normalize(), dec(105, 1));
    assert_eq!(dec(1000, 2).normalize(), dec(10, 0));
    assert_eq!(dec(0, 7).normalize(), dec(0, 0));
    assert_eq!(dec(-2000, 1).normalize(), dec(-200, 0));
    assert_eq!(dec(123, 2).normalize(), dec(123, 2));
}

#[test]
fn a_decimal_is_written_with_all_its_places() {
    assert_eq!(dec(10500, 3).to_text(), "10.500");
    assert_eq!(dec(-5, 3).to_text(), "-0.005");
    assert_eq!(dec(0, 2).to_text(), "0.00");
    assert_eq!(dec(7, 0).to_text(), "7");
    assert_eq!(dec(1, 28).to_text(), "0.0000000000000000000000000001");
}
