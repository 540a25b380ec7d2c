//! The data model of the expression language: operands, arguments, expression
//! trees, and the syntax-error value, together with their mathematical views
//! and the well-formedness conditions that parsed trees satisfy.

use vstd::prelude::*;

verus! {

/// The closed set of operators and keywords that may head an expression.
#[derive(Clone, Copy, Debug, PartialEq, Eq, Structural)]
pub enum Operand {
    Add,
    Subtract,
    Multiply,
    Divide,
    AbsoluteValue,
    Not,
    And,
    Or,
    If,
    Equal,
    LessThan,
    GreaterThan,
}

/// One positional argument of an expression: an integer literal, a
/// floating-point literal (kept as its source digits, e.g. `1.5`), a
/// character literal, or a nested expression.
#[derive(Debug)]
pub enum ExpressionArg {
    Int(i32),
    Float(Vec<char>),
    Char(char),
    NestedExpression(Expression),
}

/// An operand together with its ordered argument list.
#[derive(Debug)]
pub struct Expression {
    pub operand: Operand,
    pub arguments: Vec<ExpressionArg>,
}

/// The single fact a failed parse reports: the zero-based index, counted in
/// characters, of the first rejected position.
#[derive(Clone, Copy, Debug, PartialEq, Eq, Structural)]
pub struct SyntaxError {
    pub position: usize,
}

/// Mathematical counterpart of [`ExpressionArg`].
#[verifier::ext_equal]
pub ghost enum SpecArg {
    Int(int),
    Float(Seq<char>),
    Char(char),
    NestedExpression(SpecExpr),
}

/// Mathematical counterpart of [`Expression`].
#[verifier::ext_equal]
pub ghost struct SpecExpr {
    pub operand: Operand,
    pub args: Seq<SpecArg>,
}

impl View for ExpressionArg {
    type V = SpecArg;

    open spec fn view(&self) -> SpecArg
        decreases self,
    {
        match self {
            ExpressionArg::Int(n) => SpecArg::Int(*n as int),
            ExpressionArg::Float(t) => SpecArg::Float(t@),
            ExpressionArg::Char(c) => SpecArg::Char(*c),
            ExpressionArg::NestedExpression(e) => SpecArg::NestedExpression(e@),
        }
    }
}

impl View for Expression {
    type V = SpecExpr;

    open spec fn view(&self) -> SpecExpr
        decreases self,
    {
        SpecExpr { operand: self.operand, args: args_view(self.arguments@) }
    }
}

/// The views of a sequence of arguments, element by element.
pub open spec fn args_view(v: Seq<ExpressionArg>) -> Seq<SpecArg>
    decreases v,
{
    Seq::new(
        v.len(),
        |i: int|
            if 0 <= i < v.len() {
                v[i]@
            } else {
                arbitrary()
            },
    )
}

/// The views of a sequence of expressions, element by element.
pub open spec fn exprs_view(v: Seq<Expression>) -> Seq<SpecExpr> {
    Seq::new(v.len(), |i: int| v[i]@)
}

/// Appending a character argument appends its view.
pub proof fn lemma_args_view_push_char(v: Seq<ExpressionArg>, c: char)
    ensures
        args_view(v.push(ExpressionArg::Char(c))) == args_view(v).push(SpecArg::Char(c)),
{
    lemma_args_view_push(v, ExpressionArg::Char(c));
}

/// Appending an argument appends its view.
pub proof fn lemma_args_view_push(v: Seq<ExpressionArg>, x: ExpressionArg)
    ensures
        args_view(v.push(x)) == args_view(v).push(x@),
{
    assert(args_view(v.push(x)) =~= args_view(v).push(x@));
}

/// Appending an expression appends its view.
pub proof fn lemma_exprs_view_push(v: Seq<Expression>, e: Expression)
    ensures
        exprs_view(v.push(e)) == exprs_view(v).push(e@),
{
    assert(exprs_view(v.push(e)) =~= exprs_view(v).push(e@));
}

/// Removing the last expression removes the last view.
pub proof fn lemma_exprs_view_pop(v: Seq<Expression>)
    requires
        v.len() > 0,
    ensures
        exprs_view(v.subrange(0, v.len() - 1)) == exprs_view(v).drop_last(),
        exprs_view(v).last() == v.last()@,
{
    assert(exprs_view(v.subrange(0, v.len() - 1)) =~= exprs_view(v).drop_last());
}

/// An ASCII decimal digit.
pub open spec fn is_digit(c: char) -> bool {
    48 <= c as u32 <= 57
}

/// The whitespace characters the reader skips: space, tab, line feed,
/// vertical tab, form feed, carriage return.
pub open spec fn is_space(c: char) -> bool {
    c as u32 == 32 || 9 <= c as u32 <= 13
}

/// An ASCII letter.
pub open spec fn is_letter(c: char) -> bool {
    97 <= c as u32 <= 122 || 65 <= c as u32 <= 90
}

/// A character that may open an operand token.
pub open spec fn is_operand_start(c: char) -> bool {
    is_letter(c) || c == '+' || c == '-' || c == '*' || c == '/' || c == '=' || c == '<' || c
        == '>'
}

/// A character that may continue an operand token.
pub open spec fn is_operand_continue(c: char) -> bool {
    is_letter(c) || is_digit(c) || c == '_' || c == '-'
}

/// The numeric value of a digit character.
pub open spec fn digit_value(c: char) -> int {
    c as u32 - 48
}

/// The value of a sequence of decimal digits, most significant first.
pub open spec fn digits_value(t: Seq<char>) -> int
    decreases t.len(),
{
    if t.len() == 0 {
        0
    } else {
        digits_value(t.drop_last()) * 10 + digit_value(t.last())
    }
}

/// Every character of the sequence is a decimal digit.
pub open spec fn all_digits(t: Seq<char>) -> bool {
    forall|i: int| 0 <= i < t.len() ==> is_digit(#[trigger] t[i])
}

/// Appending a digit keeps a token all digits.
pub proof fn lemma_all_digits_push(t: Seq<char>, c: char)
    requires
        all_digits(t),
        is_digit(c),
    ensures
        all_digits(t.push(c)),
{
    assert forall|i: int| 0 <= i < t.push(c).len() implies is_digit(#[trigger] t.push(c)[i]) by {
        if i < t.len() {
            assert(t.push(c)[i] == t[i]);
        } else {
            assert(t.push(c)[i] == c);
        }
    }
}

/// A sequence of digits has a non-negative value.
pub proof fn lemma_digits_value_nonneg(t: Seq<char>)
    requires
        all_digits(t),
    ensures
        digits_value(t) >= 0,
    decreases t.len(),
{
    if t.len() > 0 {
        lemma_digits_value_nonneg(t.drop_last());
    }
}

/// The value of a digit sequence never shrinks as the sequence grows: the
/// value of `t.take(i)` is at most the value of `t.take(j)` for `i <= j`.
pub proof fn lemma_digits_value_take_le(t: Seq<char>, i: int, j: int)
    requires
        all_digits(t),
        0 <= i <= j <= t.len(),
    ensures
        digits_value(t.take(i)) <= digits_value(t.take(j)),
    decreases j - i,
{
    if i < j {
        lemma_digits_value_take_le(t, i, j - 1);
        assert(t.take(j).drop_last() =~= t.take(j - 1));
        assert(all_digits(t.take(j - 1)));
        lemma_digits_value_nonneg(t.take(j - 1));
        assert(digits_value(t.take(j)) == digits_value(t.take(j - 1)) * 10 + digit_value(
            t.take(j)[j - 1],
        ));
    }
}

/// The shape a floating-point literal token has when the scanner finishes it:
/// at least one digit, then a single decimal point, then zero or more digits.
pub open spec fn is_float_token(t: Seq<char>) -> bool {
    exists|k: int|
        1 <= k < t.len() && t[k] == '.' && (forall|i: int|
            0 <= i < t.len() && i != k ==> is_digit(#[trigger] t[i]))
}

/// Well-formedness of an argument: the shape every argument produced by the
/// reader has, and the shape the serializer needs to reproduce its text.
pub open spec fn wf_arg(a: SpecArg) -> bool
    decreases a,
{
    match a {
        SpecArg::Int(n) => 0 <= n <= i32::MAX,
        SpecArg::Float(t) => is_float_token(t),
        SpecArg::Char(c) => c != '\'',
        SpecArg::NestedExpression(e) => wf_expr(e),
    }
}

/// What well-formedness means for each argument shape.
pub proof fn lemma_wf_arg_int(n: int)
    ensures
        wf_arg(SpecArg::Int(n)) == (0 <= n <= i32::MAX),
{
}

/// What well-formedness means for a float argument.
pub proof fn lemma_wf_arg_float(t: Seq<char>)
    ensures
        wf_arg(SpecArg::Float(t)) == is_float_token(t),
{
}

/// What well-formedness means for a character argument.
pub proof fn lemma_wf_arg_char(c: char)
    ensures
        wf_arg(SpecArg::Char(c)) == (c != '\''),
{
}

/// Well-formedness of an expression tree: every argument is well formed.
pub open spec fn wf_expr(e: SpecExpr) -> bool
    decreases e,
{
    forall|i: int| 0 <= i < e.args.len() ==> wf_arg(#[trigger] e.args[i])
}

/// Well-formedness of a sequence of expression trees.
pub open spec fn wf_exprs(es: Seq<SpecExpr>) -> bool {
    forall|i: int| 0 <= i < es.len() ==> wf_expr(#[trigger] es[i])
}

} // verus!
