use ledger::decimal::Decimal;
use ledger::eval::evaluate;
use ledger::line::{Line, Operation};
use ledger::parse::{
    parse_document, parse_line, parse_operation, parse_operation_line, parse_subtotal,
    parse_value, Expected, Failure, ParseError, Source,
};
use ledger::print::{pretty_print, pretty_print_operation};
use ledger::value::{EvalError, Value};
use ledger::{settle, Error};

fn dec(mantissa: i128, scale: u32) -> Decimal {
    Decimal::new(mantissa, scale).unwrap()
}

fn num(mantissa: i128, scale: u32) -> Value {
    Value::Number(dec(mantissa, scale))
}

fn leaf(mantissa: i128, scale: u32) -> Operation {
    Operation::Value(num(mantissa, scale))
}

fn entry(operation: Operation, comment: &str) -> Line {
    Line::Operation { operation, comment: comment.to_string() }
}

fn subtotal(value: Option<Value>, comment: &str) -> Line {
    Line::Subtotal { value, comment: comment.to_string() }
}

fn one_error(input: &str) -> ParseError {
    let errors = parse_document(input).unwrap_err();
    assert_eq!(errors.len(), 1);
    errors[0]
}

const LEDGER: &str = "100 * 2       initial deposit
30            rent
---
            running balance
20            groceries
---
            running balance
";

#[test]
fn a_ledger_is_read_line_by_line() {
    let lines = parse_document(LEDGER).unwrap();
    assert_eq!(
        lines,
        vec![
            entry(
                Operation::Mul(Box::new(leaf(100, 0)), Box::new(leaf(2, 0))),
                "initial deposit"
            ),
            entry(leaf(30, 0), "rent"),
            subtotal(None, "running balance"),
            entry(leaf(20, 0), "groceries"),
            subtotal(None, "running balance"),
        ]
    );
}

#[test]
fn the_balance_runs_through_a_ledger() {
    let mut lines = parse_document(LEDGER).unwrap();
    assert_eq!(evaluate(&mut lines), Ok(()));
    assert_eq!(lines[2], subtotal(Some(num(170, 0)), "running balance"));
    assert_eq!(lines[4], subtotal(Some(num(150, 0)), "running balance"));
    assert_eq!(lines[1], entry(leaf(30, 0), "rent"));
}

#[test]
fn a_ledger_is_rendered_in_columns() {
    assert_eq!(
        settle(LEDGER),
        Ok("100 * 2 initial deposit
     30 rent
-------
    170 running balance

     20 groceries
-------
    150 running balance

"
        .to_string())
    );
}

#[test]
fn a_rendered_ledger_settles_to_the_same_subtotals() {
    let mut first = parse_document(LEDGER).unwrap();
    evaluate(&mut first).unwrap();
    let text = pretty_print(first);
    let mut second = parse_document(&text).unwrap();
    evaluate(&mut second).unwrap();
    let values: Vec<Option<Value>> = second
        .iter()
        .filter_map(|l| match l {
            Line::Subtotal { value, .. } => Some(*value),
            Line::Operation { .. } => None,
        })
        .collect();
    assert_eq!(values, vec![Some(num(170, 0)), Some(num(150, 0))]);
}

#[test]
fn a_second_run_changes_nothing() {
    let mut lines = parse_document(LEDGER).unwrap();
    evaluate(&mut lines).unwrap();
    let once = pretty_print(parse_and_run(LEDGER));
    assert_eq!(evaluate(&mut lines), Ok(()));
    assert_eq!(pretty_print(lines), once);
}

fn parse_and_run(input: &str) -> Vec<Line> {
    let mut lines = parse_document(input).unwrap();
    evaluate(&mut lines).unwrap();
    lines
}

#[test]
fn a_document_that_starts_with_a_subtotal_stays_as_it_is() {
    let input = "---\n5 total\n3 x\n---\n note\n";
    let mut lines = parse_document(input).unwrap();
    assert_eq!(evaluate(&mut lines), Ok(()));
    assert_eq!(
        lines,
        vec![
            subtotal(Some(num(5, 0)), "total"),
            entry(leaf(3, 0), "x"),
            subtotal(None, "note"),
        ]
    );
    assert_eq!(pretty_print(lines), "-\n5 total\n\n3 x\n-\n  note\n\n");
}

#[test]
fn an_empty_document() {
    assert_eq!(parse_document(""), Ok(vec![]));
    let mut lines: Vec<Line> = Vec::new();
    assert_eq!(evaluate(&mut lines), Ok(()));
    assert_eq!(pretty_print(lines), "");
    assert_eq!(settle(""), Ok(String::new()));
}

#[test]
fn an_empty_line_at_the_start_is_a_rule_without_dashes() {
    assert_eq!(parse_document("\n"), Ok(vec![subtotal(None, "")]));
    assert_eq!(settle("\n"), Ok("\n \n\n".to_string()));
}

#[test]
fn a_subtotal_shows_the_balance_and_leaves_it_alone() {
    let lines = parse_and_run("10\n---\nfirst\n---\nsecond\n4\n---\nthird");
    assert_eq!(lines[1], subtotal(Some(num(10, 0)), "first"));
    assert_eq!(lines[2], subtotal(Some(num(10, 0)), "second"));
    assert_eq!(lines[4], subtotal(Some(num(6, 0)), "third"));
}

#[test]
fn a_written_subtotal_is_overwritten() {
    let mut lines = parse_document("7 in\n---\n99 old").unwrap();
    assert_eq!(lines[1], subtotal(Some(num(99, 0)), "old"));
    evaluate(&mut lines).unwrap();
    assert_eq!(lines[1], subtotal(Some(num(7, 0)), "old"));
}

#[test]
fn the_run_ends_at_the_first_value_that_cannot_be_computed() {
    let mut lines =
        parse_document("5\n---\na\n1 / 0\n---\nb\n[1, 2] / [1, 2]\n---\nc").unwrap();
    assert_eq!(evaluate(&mut lines), Err(EvalError::DivisionByZero));
    assert_eq!(lines[1], subtotal(Some(num(5, 0)), "a"));
    assert_eq!(lines[3], subtotal(None, "b"));
    assert_eq!(lines[5], subtotal(None, "c"));
}

#[test]
fn a_first_line_that_cannot_be_computed_fails_the_run() {
    let mut lines = parse_document("[1, 2] / [3, 4]\n---\nx").unwrap();
    assert_eq!(evaluate(&mut lines), Err(EvalError::Unsupported));
    assert_eq!(lines[1], subtotal(None, "x"));
    assert_eq!(settle("[-1, 2] * [3, 4]"), Err(Error::Eval(EvalError::Unsupported)));
    assert_eq!(
        settle("79228162514264337593543950335 * 10"),
        Err(Error::Eval(EvalError::Overflow))
    );
}

#[test]
fn intervals_run_through_the_balance() {
    assert_eq!(
        settle("[1, 2] * 2 range\n---\n5 given"),
        Ok("[1, 2] * 2 range\n----------\n    [2, 4] given\n\n".to_string())
    );
    assert_eq!(
        settle("10\n[1, 3]\n---\n"),
        Ok("    10 \n[1, 3] \n------\n[7, 9] \n\n".to_string())
    );
}

#[test]
fn numbers_are_read_digit_by_digit() {
    let src = Source::new("10.500");
    assert_eq!(parse_value(&src, 0), Ok((num(10500, 3), 6)));
    let src = Source::new("-0.25 x");
    assert_eq!(parse_value(&src, 0), Ok((num(-25, 2), 5)));
    let src = Source::new("007");
    assert_eq!(parse_value(&src, 0), Ok((num(7, 0), 3)));
    let src = Source::new("-0");
    assert_eq!(parse_value(&src, 0), Ok((num(0, 0), 2)));
    let src = Source::new("x 42");
    assert_eq!(parse_value(&src, 2), Ok((num(42, 0), 4)));
}

#[test]
fn a_point_without_a_digit_behind_it_ends_the_number() {
    let src = Source::new("12.");
    assert_eq!(parse_value(&src, 0), Ok((num(12, 0), 2)));
    let src = Source::new("12..5");
    assert_eq!(parse_value(&src, 0), Ok((num(12, 0), 2)));
    let src = Source::new("1.2.3");
    assert_eq!(parse_value(&src, 0), Ok((num(12, 1), 3)));
}

#[test]
fn the_largest_numbers_are_read() {
    let src = Source::new("79228162514264337593543950335");
    assert_eq!(
        parse_value(&src, 0),
        Ok((num(79_228_162_514_264_337_593_543_950_335, 0), 29))
    );
    let src = Source::new("0.0000000000000000000000000001");
    assert_eq!(parse_value(&src, 0), Ok((num(1, 28), 30)));
    let src = Source::new("-7.9228162514264337593543950335");
    assert_eq!(
        parse_value(&src, 0),
        Ok((num(-79_228_162_514_264_337_593_543_950_335, 28), 31))
    );
}

#[test]
fn a_number_with_too_many_whole_digits_is_no_number() {
    let src = Source::new("79228162514264337593543950336");
    assert_eq!(
        parse_value(&src, 0),
        Err(Failure { at: 0, expected: Expected::Number })
    );
    let e = one_error("1\n792281625142643375935439503350 x");
    assert_eq!(e, ParseError { expected: Expected::Number, start: 2, end: 3 });
}

#[test]
fn a_number_with_too_many_places_is_rounded() {
    let src = Source::new("0.00000000000000000000000000001");
    assert_eq!(parse_value(&src, 0), Ok((num(0, 28), 31)));
    let src = Source::new("0.12345678901234567890123456789");
    assert_eq!(
        parse_value(&src, 0),
        Ok((num(1_234_567_890_123_456_789_012_345_679, 28), 31))
    );
}

#[test]
fn intervals_are_read_with_their_white_space() {
    let want = Value::Interval(dec(1, 0), dec(25, 1));
    let src = Source::new("[1,2.5]");
    assert_eq!(parse_value(&src, 0), Ok((want, 7)));
    let src = Source::new("[ \t1, 2.5 ]");
    assert_eq!(parse_value(&src, 0), Ok((want, 11)));
    let src = Source::new("[1,\n 2.5\n]");
    assert_eq!(parse_value(&src, 0), Ok((want, 10)));
    let src = Source::new("[-3,-1]");
    assert_eq!(parse_value(&src, 0), Ok((Value::Interval(dec(-3, 0), dec(-1, 0)), 7)));
}

#[test]
fn an_interval_may_have_its_bounds_in_any_order() {
    let src = Source::new("[5, 1]");
    assert_eq!(parse_value(&src, 0), Ok((Value::Interval(dec(5, 0), dec(1, 0)), 6)));
}

#[test]
fn a_malformed_interval_fails_where_it_goes_wrong() {
    let src = Source::new("[1, ]");
    assert_eq!(parse_value(&src, 0), Err(Failure { at: 4, expected: Expected::Number }));
    let src = Source::new("[1 2]");
    assert_eq!(parse_value(&src, 0), Err(Failure { at: 2, expected: Expected::Interval }));
    let src = Source::new("[1 , 2]");
    assert_eq!(parse_value(&src, 0), Err(Failure { at: 2, expected: Expected::Interval }));
    let src = Source::new("[1, 2");
    assert_eq!(parse_value(&src, 0), Err(Failure { at: 5, expected: Expected::Interval }));
    let src = Source::new("[\n1, 2]");
    assert_eq!(parse_value(&src, 0), Err(Failure { at: 1, expected: Expected::Number }));
    let src = Source::new("[-, 2]");
    assert_eq!(parse_value(&src, 0), Err(Failure { at: 2, expected: Expected::Number }));
}

#[test]
fn what_is_no_value_fails_as_a_number() {
    let src = Source::new("abc");
    assert_eq!(parse_value(&src, 0), Err(Failure { at: 0, expected: Expected::Number }));
    let src = Source::new("");
    assert_eq!(parse_value(&src, 0), Err(Failure { at: 0, expected: Expected::Number }));
    let src = Source::new("-x");
    assert_eq!(parse_value(&src, 0), Err(Failure { at: 1, expected: Expected::Number }));
    let src = Source::new("abc");
    assert_eq!(parse_value(&src, 7), Err(Failure { at: 7, expected: Expected::Number }));
}

#[test]
fn operators_join_from_the_left() {
    let src = Source::new("2 * 3 / 4");
    let want = Operation::Div(
        Box::new(Operation::Mul(Box::new(leaf(2, 0)), Box::new(leaf(3, 0)))),
        Box::new(leaf(4, 0)),
    );
    assert_eq!(parse_operation(&src, 0), Ok((want, 9)));
    let src = Source::new("8/4*2");
    let want = Operation::Mul(
        Box::new(Operation::Div(Box::new(leaf(8, 0)), Box::new(leaf(4, 0)))),
        Box::new(leaf(2, 0)),
    );
    assert_eq!(parse_operation(&src, 0), Ok((want, 5)));
}

#[test]
fn an_expression_may_start_with_spaces_and_hold_intervals() {
    let src = Source::new(" \t[1, 2]\t*\t-3");
    let want = Operation::Mul(
        Box::new(Operation::Value(Value::Interval(dec(1, 0), dec(2, 0)))),
        Box::new(leaf(-3, 0)),
    );
    assert_eq!(parse_operation(&src, 0), Ok((want, 13)));
}

#[test]
fn an_operator_without_an_operand_is_left_to_the_comment() {
    let src = Source::new("5 * x");
    assert_eq!(parse_operation(&src, 0), Ok((leaf(5, 0), 1)));
    assert_eq!(parse_operation_line(&src, 0), Ok((entry(leaf(5, 0), "* x"), 5)));
    let src = Source::new("5 -3");
    assert_eq!(parse_operation_line(&src, 0), Ok((entry(leaf(5, 0), "-3"), 4)));
}

#[test]
fn a_comment_runs_to_the_end_of_its_line() {
    let src = Source::new("30   rent, paid  \nnext");
    assert_eq!(parse_operation_line(&src, 0), Ok((entry(leaf(30, 0), "rent, paid  "), 17)));
    let src = Source::new("30 caf\u{e9} \u{2028}au lait\r\nnext");
    assert_eq!(
        parse_operation_line(&src, 0),
        Ok((entry(leaf(30, 0), "caf\u{e9} \u{2028}au lait\r"), 17))
    );
}

#[test]
fn a_comment_needs_a_space_or_a_tab_in_front() {
    let src = Source::new("30rent");
    assert_eq!(parse_operation_line(&src, 0), Ok((entry(leaf(30, 0), ""), 2)));
    let src = Source::new("30\t\n");
    assert_eq!(parse_operation_line(&src, 0), Ok((entry(leaf(30, 0), ""), 3)));
    let src = Source::new("30");
    assert_eq!(parse_operation_line(&src, 0), Ok((entry(leaf(30, 0), ""), 2)));
}

#[test]
fn a_subtotal_is_a_rule_and_a_result_line() {
    let src = Source::new("---\n  running balance\n");
    assert_eq!(parse_subtotal(&src, 0), Ok((subtotal(None, "running balance"), 21)));
    let src = Source::new("- \t\r\n150 total\n");
    assert_eq!(parse_subtotal(&src, 0), Ok((subtotal(Some(num(150, 0)), "total"), 14)));
    let src = Source::new("\r150");
    assert_eq!(parse_subtotal(&src, 0), Ok((subtotal(Some(num(150, 0)), ""), 4)));
    let src = Source::new("--\u{2028}[1, 2]x");
    assert_eq!(
        parse_subtotal(&src, 0),
        Ok((subtotal(Some(Value::Interval(dec(1, 0), dec(2, 0))), ""), 9))
    );
    let src = Source::new("---\n");
    assert_eq!(parse_subtotal(&src, 0), Ok((subtotal(None, ""), 4)));
}

#[test]
fn a_rule_needs_its_line_break() {
    let src = Source::new("--- x\n");
    assert_eq!(
        parse_subtotal(&src, 0),
        Err(Failure { at: 4, expected: Expected::ResultLine })
    );
    let src = Source::new("---");
    assert_eq!(
        parse_subtotal(&src, 0),
        Err(Failure { at: 3, expected: Expected::ResultLine })
    );
}

#[test]
fn a_line_is_an_expression_before_it_is_a_subtotal() {
    let src = Source::new("-5 fee\n");
    assert_eq!(parse_line(&src, 0), Ok((entry(leaf(-5, 0), "fee"), 6)));
    let src = Source::new("-\n5 fee\n");
    assert_eq!(parse_line(&src, 0), Ok((subtotal(Some(num(5, 0)), "fee"), 7)));
}

#[test]
fn a_line_fails_where_its_furthest_reading_fails() {
    let src = Source::new("--x");
    assert_eq!(parse_line(&src, 0), Err(Failure { at: 2, expected: Expected::ResultLine }));
    let src = Source::new("x");
    assert_eq!(parse_line(&src, 0), Err(Failure { at: 0, expected: Expected::Number }));
    let src = Source::new("  [1;2]");
    assert_eq!(parse_line(&src, 0), Err(Failure { at: 4, expected: Expected::Interval }));
}

#[test]
fn two_points_are_a_parse_error() {
    let e = one_error("12..5");
    assert_eq!(e, ParseError { expected: Expected::Number, start: 2, end: 3 });
    assert_eq!(e.message(), "expected number");
    assert_eq!(e.label(), "number");
}

#[test]
fn a_missing_bound_is_a_parse_error() {
    let e = one_error("[1, ]");
    assert_eq!(e, ParseError { expected: Expected::Number, start: 4, end: 5 });
    let e = one_error("1 a\n[1 2] b");
    assert_eq!(e, ParseError { expected: Expected::Interval, start: 6, end: 7 });
    assert_eq!(e.message(), "expected interval");
    assert_eq!(e.label(), "interval");
}

#[test]
fn a_rule_with_text_behind_it_is_a_parse_error() {
    let e = one_error("5\n--- total\n");
    assert_eq!(e, ParseError { expected: Expected::ResultLine, start: 6, end: 7 });
    assert_eq!(e.message(), "expected result line");
    assert_eq!(e.label(), "result line");
}

#[test]
fn an_error_at_the_end_of_the_text_covers_nothing() {
    let e = one_error("5\n[1,");
    assert_eq!(e, ParseError { expected: Expected::Number, start: 5, end: 5 });
    let e = one_error("5\n---");
    assert_eq!(e, ParseError { expected: Expected::ResultLine, start: 5, end: 5 });
}

#[test]
fn spans_count_bytes() {
    let e = one_error("5 caf\u{e9}\n\u{e9}");
    assert_eq!(e, ParseError { expected: Expected::Number, start: 8, end: 10 });
    let e = one_error("5 \u{1f600}\n?");
    assert_eq!(e, ParseError { expected: Expected::Number, start: 7, end: 8 });
}

#[test]
fn text_behind_a_line_is_a_parse_error() {
    let e = one_error("12abc");
    assert_eq!(e, ParseError { expected: Expected::Number, start: 2, end: 3 });
    assert_eq!(settle("12abc"), Err(Error::Parse(vec![e])));
}

#[test]
fn white_space_between_lines_is_skipped() {
    let lines = parse_document("1 a\n\n\n \t2 b\r\n\u{2003}3 c\n   ").unwrap();
    assert_eq!(
        lines,
        vec![entry(leaf(1, 0), "a"), entry(leaf(2, 0), "b\r"), entry(leaf(3, 0), "c")]
    );
}

#[test]
fn only_spaces_and_tabs_stand_inside_a_line() {
    let lines = parse_document("5\u{a0}* 2").unwrap_err();
    assert_eq!(lines, vec![ParseError { expected: Expected::Number, start: 3, end: 4 }]);
}

#[test]
fn expressions_are_printed_without_brackets() {
    let op = Operation::Mul(
        Box::new(leaf(2, 0)),
        Box::new(Operation::Div(Box::new(leaf(3, 0)), Box::new(leaf(4, 0)))),
    );
    let mut out = String::from("> ");
    pretty_print_operation(&mut out, &op);
    assert_eq!(out, "> 2 * 3 / 4");
}

#[test]
fn rows_are_aligned_to_the_longest_left_hand_side() {
    let lines = vec![
        entry(leaf(1, 0), "one"),
        entry(
            Operation::Div(Box::new(leaf(10500, 3)), Box::new(leaf(1000, 2))),
            "long",
        ),
        subtotal(None, "nothing"),
        subtotal(Some(num(-5, 1)), ""),
    ];
    assert_eq!(
        pretty_print(lines),
        "        1 one\n10.5 / 10 long\n---------\n          nothing\n\n---------\n     -0.5 \n\n"
    );
}

#[test]
fn literals_are_normalized_when_printed() {
    assert_eq!(settle("10.500 a\n10.00 b"), Ok("10.5 a\n  10 b\n".to_string()));
}

#[test]
fn a_number_with_more_than_two_places_is_printed_rounded() {
    assert_eq!(
        settle("1.005 a\n0.001 b\n---\nleft"),
        Ok("1 a\n0 b\n-\n1 left\n\n".to_string())
    );
    let lines = parse_and_run("1.005 a\n0.001 b\n---\nleft");
    assert_eq!(lines[2], subtotal(Some(num(1004, 3)), "left"));
    let again = parse_and_run("1 a\n0 b\n-\n1 left\n\n");
    assert_eq!(again[2], subtotal(Some(num(1, 0)), "left"));
}

#[test]
fn a_subtotal_behind_spaces_is_read_as_a_comment() {
    let text = settle("100 in\n1 out\n---\nleft").unwrap();
    assert_eq!(text, "100 in\n  1 out\n---\n 99 left\n\n");
    let lines = parse_document(&text).unwrap();
    assert_eq!(lines[2], subtotal(None, "99 left"));
    let text = settle("100 in\n1 out\n---\nleft\n---\n").unwrap();
    assert_eq!(text, "100 in\n  1 out\n---\n 99 left\n\n---\n 99 \n\n");
}

#[test]
fn a_subtotal_as_wide_as_the_column_is_read_as_a_value() {
    let text = settle("10 in\n1 out\n---\nleft").unwrap();
    assert_eq!(text, "10 in\n 1 out\n--\n 9 left\n\n");
    let text = settle("1 in\n-9 out\n--\nleft").unwrap();
    assert_eq!(text, " 1 in\n-9 out\n--\n10 left\n\n");
    let lines = parse_document(&text).unwrap();
    assert_eq!(lines[2], subtotal(Some(num(10, 0)), "left"));
}

#[test]
fn every_white_space_character_parts_two_lines() {
    for c in (0..=0x10FFFF_u32).filter_map(char::from_u32) {
        let lines = parse_document(&format!("1{c}2"));
        let two = Ok(vec![entry(leaf(1, 0), ""), entry(leaf(2, 0), "")]);
        if c == ' ' || c == '\t' {
            assert_eq!(lines, Ok(vec![entry(leaf(1, 0), "2")]), "{c:?}");
        } else {
            assert_eq!(lines == two, c.is_whitespace(), "{c:?}");
        }
    }
}

#[test]
fn every_line_break_ends_a_rule() {
    let breaks = ['\n', '\r', '\x0B', '\x0C', '\u{85}', '\u{2028}', '\u{2029}'];
    for c in (0..=0x10FFFF_u32).filter_map(char::from_u32) {
        let lines = parse_document(&format!("-{c}5"));
        let rule = Ok(vec![subtotal(Some(num(5, 0)), "")]);
        assert_eq!(lines == rule, breaks.contains(&c), "{c:?}");
    }
}
