//! Tests for operand resolution and for the serializer's round trip.

use expr_reader::ast::Expression;
use expr_reader::ast::ExpressionArg;
use expr_reader::ast::Operand;
use expr_reader::parser::get_operand;
use expr_reader::parser::parse;
use expr_reader::text::to_text;
use expr_reader::text::to_text_all;

fn chars(s: &str) -> Vec<char> {
    s.chars().collect()
}

fn eq_arg(a: &ExpressionArg, b: &ExpressionArg) -> bool {
    match (a, b) {
        (ExpressionArg::Int(x), ExpressionArg::Int(y)) => x == y,
        (ExpressionArg::Float(s), ExpressionArg::Float(t)) => s == t,
        (ExpressionArg::Char(x), ExpressionArg::Char(y)) => x == y,
        (ExpressionArg::NestedExpression(p), ExpressionArg::NestedExpression(q)) => eq_expr(p, q),
        _ => false,
    }
}

fn eq_expr(a: &Expression, b: &Expression) -> bool {
    a.operand == b.operand
        && a.arguments.len() == b.arguments.len()
        && a.arguments.iter().zip(b.arguments.iter()).all(|(x, y)| eq_arg(x, y))
}

#[test]
fn every_operand_spelling_resolves() {
    let cases: Vec<(&str, Operand)> = vec![
        ("+", Operand::Add),
        ("-", Operand::Subtract),
        ("*", Operand::Multiply),
        ("/", Operand::Divide),
        ("abs", Operand::AbsoluteValue),
        ("not", Operand::Not),
        ("and", Operand::And),
        ("or", Operand::Or),
        ("if", Operand::If),
        ("=", Operand::Equal),
        ("<", Operand::LessThan),
        (">", Operand::GreaterThan),
    ];
    for (text, expected) in cases {
        let got = get_operand(&chars(text), 0).unwrap();
        assert_eq!(got, expected);
    }
}

#[test]
fn unknown_tokens_report_the_given_position() {
    for text in ["foo", "", "ab", "absx", "A"] {
        let err = get_operand(&chars(text), 17).unwrap_err();
        assert_eq!(err.position, 17);
    }
}

#[test]
fn serializer_reproduces_canonical_text() {
    let result = parse("(+ 1 2)".to_string()).unwrap();
    let text: String = to_text(&result[0]).into_iter().collect();
    assert_eq!(text, "(+ 1 2)");
}

#[test]
fn serializer_handles_every_argument_shape() {
    let result = parse("(if (< 1.25 2) 'x' 0)".to_string()).unwrap();
    let text: String = to_text(&result[0]).into_iter().collect();
    assert_eq!(text, "(if (< 1.25 2) 'x' 0)");
}

#[test]
fn round_trip_reparses_to_an_equal_tree() {
    let original = parse("(if (< 1 2) 'a' 'b')  (abs 42)".to_string()).unwrap();
    let text: String = to_text_all(&original).into_iter().collect();
    let again = parse(text).unwrap();
    assert_eq!(original.len(), again.len());
    assert!(original.iter().zip(again.iter()).all(|(a, b)| eq_expr(a, b)));
}

#[test]
fn round_trip_with_irregular_whitespace() {
    let original = parse("  (+\t1\n(or 2 3)) ".to_string()).unwrap();
    let text: String = to_text_all(&original).into_iter().collect();
    assert_eq!(text, "(+ 1 (or 2 3))");
    let again = parse(text).unwrap();
    assert!(original.iter().zip(again.iter()).all(|(a, b)| eq_expr(a, b)));
}
