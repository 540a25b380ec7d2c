//! The literal syntax of expression trees: what a tree looks like as text,
//! and an executable serializer proved to produce exactly that text.
//!
//! The serialized form is canonical: one space before each argument, no
//! other whitespace.  [`crate::laws`] proves that parsing this text gives the
//! tree back.

use vstd::prelude::*;
use vstd::arithmetic::div_mod::lemma_fundamental_div_mod;

use crate::ast::Expression;
use crate::ast::ExpressionArg;
use crate::ast::Operand;
use crate::ast::SpecArg;
use crate::ast::SpecExpr;
use crate::ast::all_digits;
use crate::ast::args_view;
use crate::ast::digit_value;
use crate::ast::digits_value;
use crate::ast::exprs_view;
use crate::ast::is_digit;
use crate::ast::lemma_all_digits_push;
use crate::ast::wf_arg;
use crate::ast::wf_expr;
use crate::ast::wf_exprs;

verus! {

/// The spelling of each operand.
pub open spec fn operand_text(op: Operand) -> Seq<char> {
    match op {
        Operand::Add => seq!['+'],
        Operand::Subtract => seq!['-'],
        Operand::Multiply => seq!['*'],
        Operand::Divide => seq!['/'],
        Operand::AbsoluteValue => seq!['a', 'b', 's'],
        Operand::Not => seq!['n', 'o', 't'],
        Operand::And => seq!['a', 'n', 'd'],
        Operand::Or => seq!['o', 'r'],
        Operand::If => seq!['i', 'f'],
        Operand::Equal => seq!['='],
        Operand::LessThan => seq!['<'],
        Operand::GreaterThan => seq!['>'],
    }
}

/// The character of one decimal digit.
pub open spec fn digit_char(d: int) -> char {
    if d == 0 {
        '0'
    } else if d == 1 {
        '1'
    } else if d == 2 {
        '2'
    } else if d == 3 {
        '3'
    } else if d == 4 {
        '4'
    } else if d == 5 {
        '5'
    } else if d == 6 {
        '6'
    } else if d == 7 {
        '7'
    } else if d == 8 {
        '8'
    } else {
        '9'
    }
}

/// The decimal digits of a non-negative integer, most significant first.
pub open spec fn int_digits(n: int) -> Seq<char>
    decreases n,
{
    if n < 10 {
        seq![digit_char(n)]
    } else {
        int_digits(n / 10).push(digit_char(n % 10))
    }
}

/// Writing a non-negative integer in decimal and reading it back gives the
/// integer: the digits are digits, there is at least one, and their value is
/// the integer.
pub proof fn lemma_int_digits(n: int)
    requires
        0 <= n,
    ensures
        all_digits(int_digits(n)),
        int_digits(n).len() >= 1,
        digits_value(int_digits(n)) == n,
    decreases n,
{
    if n < 10 {
        assert(int_digits(n) =~= seq![digit_char(n)]);
        assert(int_digits(n).drop_last() =~= Seq::<char>::empty());
        assert(digits_value(Seq::<char>::empty()) == 0);
        assert(is_digit(digit_char(n)));
        assert(digit_value(digit_char(n)) == n);
    } else {
        lemma_int_digits(n / 10);
        lemma_fundamental_div_mod(n, 10);
        lemma_all_digits_push(int_digits(n / 10), digit_char(n % 10));
        assert(int_digits(n).drop_last() =~= int_digits(n / 10));
        assert(is_digit(digit_char(n % 10)));
        assert(digit_value(digit_char(n % 10)) == n % 10);
    }
}

/// The text of one argument, without its leading separator.
pub open spec fn unparse_arg(a: SpecArg) -> Seq<char>
    decreases a,
{
    match a {
        SpecArg::Int(n) => int_digits(n),
        SpecArg::Float(t) => t,
        SpecArg::Char(c) => seq!['\''] + seq![c] + seq!['\''],
        SpecArg::NestedExpression(e) => unparse_expr(e),
    }
}

/// The text of an argument list: one space before each argument.
pub open spec fn unparse_args(args: Seq<SpecArg>) -> Seq<char>
    decreases args,
{
    if args.len() == 0 {
        Seq::empty()
    } else {
        seq![' '] + unparse_arg(args[0]) + unparse_args(args.drop_first())
    }
}

/// The text of one expression: `(`, the operand, the arguments, `)`.
pub open spec fn unparse_expr(e: SpecExpr) -> Seq<char>
    decreases e,
{
    seq!['('] + operand_text(e.operand) + unparse_args(e.args) + seq![')']
}

/// The text of a sequence of top-level expressions, one after the other.
pub open spec fn unparse_exprs(es: Seq<SpecExpr>) -> Seq<char>
    decreases es,
{
    if es.len() == 0 {
        Seq::empty()
    } else {
        unparse_expr(es[0]) + unparse_exprs(es.drop_first())
    }
}

/// Appending an argument appends its separator and text.
pub proof fn lemma_unparse_args_push(args: Seq<SpecArg>, x: SpecArg)
    ensures
        unparse_args(args.push(x)) == unparse_args(args) + seq![' '] + unparse_arg(x),
    decreases args.len(),
{
    let p = args.push(x);
    assert(p.len() > 0);
    assert(unparse_args(p) == seq![' '] + unparse_arg(p[0]) + unparse_args(p.drop_first()));
    if args.len() == 0 {
        assert(p[0] == x);
        assert(p.drop_first() =~= Seq::<SpecArg>::empty());
        assert(unparse_args(p.drop_first()) =~= Seq::<char>::empty());
        assert(unparse_args(args) =~= Seq::<char>::empty());
        assert(unparse_args(p) =~= unparse_args(args) + seq![' '] + unparse_arg(x));
    } else {
        lemma_unparse_args_push(args.drop_first(), x);
        assert(p[0] == args[0]);
        assert(p.drop_first() =~= args.drop_first().push(x));
        assert(unparse_args(args) == seq![' '] + unparse_arg(args[0]) + unparse_args(args.drop_first()));
        assert(unparse_args(p) =~= unparse_args(args) + seq![' '] + unparse_arg(x));
    }
}

/// Appending an expression appends its text.
pub proof fn lemma_unparse_exprs_push(es: Seq<SpecExpr>, e: SpecExpr)
    ensures
        unparse_exprs(es.push(e)) == unparse_exprs(es) + unparse_expr(e),
    decreases es.len(),
{
    let p = es.push(e);
    assert(p.len() > 0);
    assert(unparse_exprs(p) == unparse_expr(p[0]) + unparse_exprs(p.drop_first()));
    if es.len() == 0 {
        assert(p[0] == e);
        assert(p.drop_first() =~= Seq::<SpecExpr>::empty());
        assert(unparse_exprs(p.drop_first()) =~= Seq::<char>::empty());
        assert(unparse_exprs(es) =~= Seq::<char>::empty());
        assert(unparse_exprs(p) =~= unparse_exprs(es) + unparse_expr(e));
    } else {
        lemma_unparse_exprs_push(es.drop_first(), e);
        assert(p[0] == es[0]);
        assert(p.drop_first() =~= es.drop_first().push(e));
        assert(unparse_exprs(es) == unparse_expr(es[0]) + unparse_exprs(es.drop_first()));
        assert(unparse_exprs(p) =~= unparse_exprs(es) + unparse_expr(e));
    }
}

/// Writes the spelling of an operand.
fn write_operand(op: Operand, out: &mut Vec<char>)
    ensures
        final(out)@ == old(out)@ + operand_text(op),
{
    match op {
        Operand::Add => out.push('+'),
        Operand::Subtract => out.push('-'),
        Operand::Multiply => out.push('*'),
        Operand::Divide => out.push('/'),
        Operand::AbsoluteValue => {
            out.push('a');
            out.push('b');
            out.push('s');
        },
        Operand::Not => {
            out.push('n');
            out.push('o');
            out.push('t');
        },
        Operand::And => {
            out.push('a');
            out.push('n');
            out.push('d');
        },
        Operand::Or => {
            out.push('o');
            out.push('r');
        },
        Operand::If => {
            out.push('i');
            out.push('f');
        },
        Operand::Equal => out.push('='),
        Operand::LessThan => out.push('<'),
        Operand::GreaterThan => out.push('>'),
    }
    proof {
        assert(out@ =~= old(out)@ + operand_text(op));
    }
}

/// Writes one decimal digit.
fn write_digit(d: u32, out: &mut Vec<char>)
    requires
        d <= 9,
    ensures
        final(out)@ == old(out)@ + seq![digit_char(d as int)],
{
    let c: char = if d == 0 {
        '0'
    } else if d == 1 {
        '1'
    } else if d == 2 {
        '2'
    } else if d == 3 {
        '3'
    } else if d == 4 {
        '4'
    } else if d == 5 {
        '5'
    } else if d == 6 {
        '6'
    } else if d == 7 {
        '7'
    } else if d == 8 {
        '8'
    } else {
        '9'
    };
    out.push(c);
    proof {
        assert(out@ =~= old(out)@ + seq![digit_char(d as int)]);
    }
}

/// Writes a non-negative integer in decimal.
fn write_int(n: i32, out: &mut Vec<char>)
    requires
        n >= 0,
    ensures
        final(out)@ == old(out)@ + int_digits(n as int),
    decreases n,
{
    if n < 10 {
        write_digit(n as u32, out);
    } else {
        write_int(n / 10, out);
        write_digit((n % 10) as u32, out);
        proof {
            assert(out@ =~= old(out)@ + int_digits(n as int));
        }
    }
}

/// Writes one argument, without its leading separator.
fn write_arg(a: &ExpressionArg, out: &mut Vec<char>)
    requires
        wf_arg(a@),
    ensures
        final(out)@ == old(out)@ + unparse_arg(a@),
    decreases a,
{
    match a {
        ExpressionArg::Int(n) => {
            write_int(*n, out);
        },
        ExpressionArg::Float(t) => {
            let m = t.len();
            let mut j: usize = 0;
            while j < m
                invariant
                    m == t@.len(),
                    j <= m,
                    out@ == old(out)@ + t@.take(j as int),
                decreases m - j,
            {
                out.push(t[j]);
                proof {
                    assert(t@.take(j + 1) =~= t@.take(j as int).push(t@[j as int]));
                }
                j += 1;
            }
            proof {
                assert(t@.take(m as int) =~= t@);
            }
        },
        ExpressionArg::Char(c) => {
            out.push('\'');
            out.push(*c);
            out.push('\'');
            proof {
                assert(out@ =~= old(out)@ + unparse_arg(a@));
            }
        },
        ExpressionArg::NestedExpression(e) => {
            write_expr(e, out);
        },
    }
}

/// Writes one expression in the canonical literal syntax.
fn write_expr(e: &Expression, out: &mut Vec<char>)
    requires
        wf_expr(e@),
    ensures
        final(out)@ == old(out)@ + unparse_expr(e@),
    decreases e,
{
    out.push('(');
    write_operand(e.operand, out);
    let k = e.arguments.len();
    let mut i: usize = 0;
    while i < k
        invariant
            wf_expr(e@),
            k == e.arguments@.len(),
            i <= k,
            out@ == old(out)@ + seq!['('] + operand_text(e.operand) + unparse_args(
                args_view(e.arguments@).take(i as int),
            ),
        decreases k - i,
    {
        proof {
            assert(e@.args == args_view(e.arguments@));
            assert(e@.args[i as int] == e.arguments@[i as int]@);
            assert(wf_arg(e.arguments@[i as int]@));
        }
        out.push(' ');
        write_arg(&e.arguments[i], out);
        proof {
            lemma_unparse_args_push(
                args_view(e.arguments@).take(i as int),
                e.arguments@[i as int]@,
            );
            assert(args_view(e.arguments@).take(i + 1) =~= args_view(e.arguments@).take(
                i as int,
            ).push(e.arguments@[i as int]@));
        }
        i += 1;
    }
    out.push(')');
    proof {
        assert(args_view(e.arguments@).take(k as int) =~= args_view(e.arguments@));
        assert(out@ =~= old(out)@ + unparse_expr(e@));
    }
}

/// The canonical text of one expression tree, as characters.
pub fn to_text(e: &Expression) -> (r: Vec<char>)
    requires
        wf_expr(e@),
    ensures
        r@ == unparse_expr(e@),
{
    let mut out: Vec<char> = Vec::new();
    write_expr(e, &mut out);
    proof {
        assert(out@ =~= unparse_expr(e@));
    }
    out
}

/// The canonical text of a sequence of top-level expression trees.
pub fn to_text_all(es: &Vec<Expression>) -> (r: Vec<char>)
    requires
        wf_exprs(exprs_view(es@)),
    ensures
        r@ == unparse_exprs(exprs_view(es@)),
{
    let mut out: Vec<char> = Vec::new();
    let k = es.len();
    let mut i: usize = 0;
    while i < k
        invariant
            wf_exprs(exprs_view(es@)),
            k == es@.len(),
            i <= k,
            out@ == unparse_exprs(exprs_view(es@).take(i as int)),
        decreases k - i,
    {
        proof {
            assert(exprs_view(es@)[i as int] == es@[i as int]@);
            assert(wf_expr(es@[i as int]@));
        }
        write_expr(&es[i], &mut out);
        proof {
            lemma_unparse_exprs_push(exprs_view(es@).take(i as int), es@[i as int]@);
            assert(exprs_view(es@).take(i + 1) =~= exprs_view(es@).take(i as int).push(
                es@[i as int]@,
            ));
        }
        i += 1;
    }
    proof {
        assert(exprs_view(es@).take(k as int) =~= exprs_view(es@));
    }
    out
}

} // verus!
