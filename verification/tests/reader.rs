//! Scenario tests for the expression reader: the documented inputs, their
//! trees, and their error positions.

use expr_reader::ast::Expression;
use expr_reader::ast::ExpressionArg;
use expr_reader::ast::Operand;
use expr_reader::parser::parse;
use expr_reader::scanner::scan;

fn eq_arg(a: &ExpressionArg, b: &ExpressionArg) -> bool {
    match (a, b) {
        (ExpressionArg::Int(x), ExpressionArg::Int(y)) => x == y,
        (ExpressionArg::Float(s), ExpressionArg::Float(t)) => s == t,
        (ExpressionArg::Char(x), ExpressionArg::Char(y)) => x == y,
        (ExpressionArg::NestedExpression(p), ExpressionArg::NestedExpression(q)) => eq_expr(p, q),
        _ => false,
    }
}

fn eq_expr(a: &Expression, b: &Expression) -> bool {
    a.operand == b.operand
        && a.arguments.len() == b.arguments.len()
        && a.arguments.iter().zip(b.arguments.iter()).all(|(x, y)| eq_arg(x, y))
}

fn chars(s: &str) -> Vec<char> {
    s.chars().collect()
}

#[test]
fn add_two_ints() {
    let result = parse("(+ 1 2)".to_string()).unwrap();
    assert_eq!(result.len(), 1);
    let e = &result[0];
    assert_eq!(e.operand, Operand::Add);
    assert_eq!(e.arguments.len(), 2);
    assert!(matches!(e.arguments[0], ExpressionArg::Int(1)));
    assert!(matches!(e.arguments[1], ExpressionArg::Int(2)));
}

#[test]
fn if_with_nested_comparison_and_chars() {
    let result = parse("(if (< 1 2) 'a' 'b')".to_string()).unwrap();
    assert_eq!(result.len(), 1);
    let e = &result[0];
    assert_eq!(e.operand, Operand::If);
    assert_eq!(e.arguments.len(), 3);
    match &e.arguments[0] {
        ExpressionArg::NestedExpression(inner) => {
            assert_eq!(inner.operand, Operand::LessThan);
            assert_eq!(inner.arguments.len(), 2);
            assert!(matches!(inner.arguments[0], ExpressionArg::Int(1)));
            assert!(matches!(inner.arguments[1], ExpressionArg::Int(2)));
        }
        other => panic!("expected a nested expression, got {:?}", other),
    }
    assert!(matches!(e.arguments[1], ExpressionArg::Char('a')));
    assert!(matches!(e.arguments[2], ExpressionArg::Char('b')));
}

#[test]
fn float_argument_keeps_its_digits() {
    let result = parse("(+ 1.5 2)".to_string()).unwrap();
    assert_eq!(result.len(), 1);
    let e = &result[0];
    assert_eq!(e.operand, Operand::Add);
    assert_eq!(e.arguments.len(), 2);
    match &e.arguments[0] {
        ExpressionArg::Float(t) => assert_eq!(*t, chars("1.5")),
        other => panic!("expected a float, got {:?}", other),
    }
    assert!(matches!(e.arguments[1], ExpressionArg::Int(2)));
}

#[test]
fn missing_close_fails_at_end_of_input() {
    let err = parse("(+ 1 2".to_string()).unwrap_err();
    assert_eq!(err.position, 6);
}

#[test]
fn unknown_operand_fails_after_its_token() {
    let err = parse("(foo 1 2)".to_string()).unwrap_err();
    assert_eq!(err.position, 4);
}

#[test]
fn extra_close_fails_at_that_parenthesis() {
    let err = parse("(+ 1))".to_string()).unwrap_err();
    assert_eq!(err.position, 5);
}

#[test]
fn empty_input_gives_empty_result() {
    let result = parse(String::new()).unwrap();
    assert_eq!(result.len(), 0);
}

#[test]
fn lone_open_parenthesis_is_an_error() {
    let err = parse("(".to_string()).unwrap_err();
    assert_eq!(err.position, 1);
}

#[test]
fn parsing_twice_gives_equal_results() {
    let text = "(if (< 1 2) 'a' 'b') (abs 7)";
    let first = parse(text.to_string()).unwrap();
    let second = parse(text.to_string()).unwrap();
    assert_eq!(first.len(), second.len());
    assert!(first.iter().zip(second.iter()).all(|(a, b)| eq_expr(a, b)));
}

#[test]
fn scan_is_the_same_reader() {
    let from_scan = scan("(+ 1 2)".to_string()).unwrap();
    let from_parse = parse("(+ 1 2)".to_string()).unwrap();
    assert_eq!(from_scan.len(), 1);
    assert!(eq_expr(&from_scan[0], &from_parse[0]));
    assert_eq!(scan("(".to_string()).unwrap_err().position, 1);
}

#[test]
fn two_top_level_forms_in_source_order() {
    let result = parse("(+ 1 2) (* 3 4)".to_string()).unwrap();
    assert_eq!(result.len(), 2);
    assert_eq!(result[0].operand, Operand::Add);
    assert_eq!(result[1].operand, Operand::Multiply);
    assert!(matches!(result[1].arguments[0], ExpressionArg::Int(3)));
    assert!(matches!(result[1].arguments[1], ExpressionArg::Int(4)));
}

#[test]
fn adjacent_top_level_forms_need_no_space() {
    let result = parse("(+ 1)(+ 2)".to_string()).unwrap();
    assert_eq!(result.len(), 2);
    assert!(matches!(result[0].arguments[0], ExpressionArg::Int(1)));
    assert!(matches!(result[1].arguments[0], ExpressionArg::Int(2)));
}

#[test]
fn abs_operand_is_recognized() {
    let result = parse("(abs 5)".to_string()).unwrap();
    assert_eq!(result[0].operand, Operand::AbsoluteValue);
    assert!(matches!(result[0].arguments[0], ExpressionArg::Int(5)));
}

#[test]
fn whitespace_variants_are_skipped() {
    let result = parse("\t(+\n1 )".to_string()).unwrap();
    assert_eq!(result.len(), 1);
    assert_eq!(result[0].operand, Operand::Add);
    assert_eq!(result[0].arguments.len(), 1);
    assert!(matches!(result[0].arguments[0], ExpressionArg::Int(1)));
}

#[test]
fn space_character_literal() {
    let result = parse("(+ ' ')".to_string()).unwrap();
    assert!(matches!(result[0].arguments[0], ExpressionArg::Char(' ')));
}

#[test]
fn nested_expressions_three_deep() {
    let result = parse("(+ (+ (+ 1)))".to_string()).unwrap();
    let e1 = &result[0];
    match &e1.arguments[0] {
        ExpressionArg::NestedExpression(e2) => match &e2.arguments[0] {
            ExpressionArg::NestedExpression(e3) => {
                assert!(matches!(e3.arguments[0], ExpressionArg::Int(1)));
            }
            other => panic!("expected a nested expression, got {:?}", other),
        },
        other => panic!("expected a nested expression, got {:?}", other),
    }
}

#[test]
fn zero_argument_expression() {
    let result = parse("(+)".to_string()).unwrap();
    assert_eq!(result[0].operand, Operand::Add);
    assert_eq!(result[0].arguments.len(), 0);
}

#[test]
fn largest_int_parses_and_overflow_fails() {
    let result = parse("(+ 2147483647)".to_string()).unwrap();
    assert!(matches!(result[0].arguments[0], ExpressionArg::Int(2147483647)));
    let err = parse("(+ 2147483648)".to_string()).unwrap_err();
    assert_eq!(err.position, 13);
}

#[test]
fn empty_char_literal_is_an_error() {
    let err = parse("(+ '')".to_string()).unwrap_err();
    assert_eq!(err.position, 4);
}

#[test]
fn two_characters_in_a_literal_are_an_error() {
    let err = parse("(+ 'ab')".to_string()).unwrap_err();
    assert_eq!(err.position, 5);
}

#[test]
fn second_decimal_point_is_an_error() {
    let err = parse("(+ 1.5.2)".to_string()).unwrap_err();
    assert_eq!(err.position, 6);
}

#[test]
fn stray_character_at_top_level_is_an_error() {
    let err = parse("x".to_string()).unwrap_err();
    assert_eq!(err.position, 0);
    let err = parse("(+ 1) y".to_string()).unwrap_err();
    assert_eq!(err.position, 6);
}

#[test]
fn stray_character_inside_expression_is_an_error() {
    let err = parse("(+ @)".to_string()).unwrap_err();
    assert_eq!(err.position, 3);
}

#[test]
fn empty_parentheses_are_an_error() {
    let err = parse("()".to_string()).unwrap_err();
    assert_eq!(err.position, 1);
}

#[test]
fn unclosed_nested_form_fails_at_end_of_input() {
    let err = parse("(+ (+ 1)".to_string()).unwrap_err();
    assert_eq!(err.position, 8);
}

#[test]
fn end_of_input_inside_operand_token_is_an_error() {
    let err = parse("(+".to_string()).unwrap_err();
    assert_eq!(err.position, 2);
}

#[test]
fn nested_form_keeps_later_arguments() {
    let result = parse("(+ (* 2 3) 4)".to_string()).unwrap();
    let e = &result[0];
    assert_eq!(e.arguments.len(), 2);
    assert!(matches!(e.arguments[1], ExpressionArg::Int(4)));
}
