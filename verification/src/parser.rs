//! The executable reader: a single left-to-right pass that scans and parses
//! at once, proved to follow the transition function of [`crate::machine`]
//! step for step.

use vstd::prelude::*;
use vstd::string::StrSliceExecFns;

use crate::ast::Expression;
use crate::ast::ExpressionArg;
use crate::ast::Operand;
use crate::ast::SpecArg;
use crate::ast::SpecExpr;
use crate::ast::SyntaxError;
use crate::ast::all_digits;
use crate::ast::args_view;
use crate::ast::digits_value;
use crate::ast::exprs_view;
use crate::ast::is_digit;
use crate::ast::is_operand_continue;
use crate::ast::is_operand_start;
use crate::ast::is_space;
use crate::ast::lemma_all_digits_push;
use crate::ast::lemma_args_view_push;
use crate::ast::lemma_digits_value_take_le;
use crate::ast::lemma_exprs_view_pop;
use crate::ast::lemma_exprs_view_push;
use crate::machine::Config;
use crate::machine::State;
use crate::machine::close_paren;
use crate::machine::init_config;
use crate::machine::operand_of;
use crate::machine::run_from;
use crate::machine::spec_parse;
use crate::machine::step;
use crate::machine::step_expecting_arg;
use crate::machine::step_expecting_operand;
use crate::machine::step_scanning_char;
use crate::machine::step_scanning_float;
use crate::machine::step_scanning_number;
use crate::machine::step_scanning_operand;
use crate::machine::step_start;

verus! {

/// The executable reader holds the same state the machine configuration
/// describes: one field for one field.
struct Reader {
    state: State,
    token: Vec<char>,
    pending: Option<char>,
    depth: usize,
    stack: Vec<Expression>,
    cur_op: Option<Operand>,
    cur_args: Vec<ExpressionArg>,
    results: Vec<Expression>,
}

impl Reader {
    /// The machine configuration this reader stands for.
    spec fn cfg(&self) -> Config {
        Config {
            state: self.state,
            token: self.token@,
            pending: self.pending,
            depth: self.depth as nat,
            stack: exprs_view(self.stack@),
            cur_op: self.cur_op,
            cur_args: args_view(self.cur_args@),
            results: exprs_view(self.results@),
        }
    }

    /// While an integer literal is being scanned the accumulator holds
    /// digits only, so that its value can be computed.
    spec fn inv(&self) -> bool {
        self.state == State::ScanningNumber ==> all_digits(self.token@)
    }

    fn new() -> (r: Reader)
        ensures
            r.cfg() == init_config(),
            r.inv(),
    {
        let r = Reader {
            state: State::ExpectingExpressionStart,
            token: Vec::new(),
            pending: None,
            depth: 0,
            stack: Vec::new(),
            cur_op: None,
            cur_args: Vec::new(),
            results: Vec::new(),
        };
        proof {
            assert(exprs_view(Seq::<Expression>::empty()) =~= Seq::<SpecExpr>::empty());
            assert(args_view(Seq::<ExpressionArg>::empty()) =~= Seq::<SpecArg>::empty());
            assert(r.cfg() =~= init_config());
        }
        r
    }
}

/// Whether the reader skips this character between tokens.
fn is_space_char(c: char) -> (r: bool)
    ensures
        r == is_space(c),
{
    let u = c as u32;
    u == 32 || (9 <= u && u <= 13)
}

/// Whether this character is an ASCII decimal digit.
fn is_digit_char(c: char) -> (r: bool)
    ensures
        r == is_digit(c),
{
    let u = c as u32;
    48 <= u && u <= 57
}

/// Whether this character may open an operand token.
fn is_operand_start_char(c: char) -> (r: bool)
    ensures
        r == is_operand_start(c),
{
    let u = c as u32;
    (97 <= u && u <= 122) || (65 <= u && u <= 90) || c == '+' || c == '-' || c == '*' || c == '/'
        || c == '=' || c == '<' || c == '>'
}

/// Whether this character may continue an operand token.
fn is_operand_continue_char(c: char) -> (r: bool)
    ensures
        r == is_operand_continue(c),
{
    let u = c as u32;
    (97 <= u && u <= 122) || (65 <= u && u <= 90) || (48 <= u && u <= 57) || c == '_' || c == '-'
}

/// Resolves a finished operand token against the closed operand set; an
/// unresolved token is a syntax error at `position`.
pub fn get_operand(token: &Vec<char>, position: usize) -> (r: Result<Operand, SyntaxError>)
    ensures
        match operand_of(token@) {
            Some(op) => r == Ok::<Operand, SyntaxError>(op),
            None => r == Err::<Operand, SyntaxError>(SyntaxError { position }),
        },
{
    let err = SyntaxError { position };
    if token.len() == 1 {
        match token[0] {
            '+' => Ok(Operand::Add),
            '-' => Ok(Operand::Subtract),
            '*' => Ok(Operand::Multiply),
            '/' => Ok(Operand::Divide),
            '=' => Ok(Operand::Equal),
            '<' => Ok(Operand::LessThan),
            '>' => Ok(Operand::GreaterThan),
            _ => Err(err),
        }
    } else if token.len() == 2 {
        if token[0] == 'i' && token[1] == 'f' {
            Ok(Operand::If)
        } else if token[0] == 'o' && token[1] == 'r' {
            Ok(Operand::Or)
        } else {
            Err(err)
        }
    } else if token.len() == 3 {
        if token[0] == 'a' && token[1] == 'b' && token[2] == 's' {
            Ok(Operand::AbsoluteValue)
        } else if token[0] == 'n' && token[1] == 'o' && token[2] == 't' {
            Ok(Operand::Not)
        } else if token[0] == 'a' && token[1] == 'n' && token[2] == 'd' {
            Ok(Operand::And)
        } else {
            Err(err)
        }
    } else {
        Err(err)
    }
}

/// Computes the value of a digit-only token, or reports that it does not fit
/// a 32-bit signed integer.
fn digits_to_i32(token: &Vec<char>) -> (r: Option<i32>)
    requires
        all_digits(token@),
    ensures
        match r {
            Some(v) => digits_value(token@) <= i32::MAX && v as int == digits_value(token@),
            None => digits_value(token@) > i32::MAX,
        },
{
    let n = token.len();
    let mut val: u64 = 0;
    let mut i: usize = 0;
    while i < n
        invariant
            all_digits(token@),
            n == token@.len(),
            i <= n,
            val as int == digits_value(token@.take(i as int)),
            val <= i32::MAX as u64,
        decreases n - i,
    {
        let d = (token[i] as u32) - 48;
        val = val * 10 + (d as u64);
        proof {
            assert(token@.take(i + 1).drop_last() =~= token@.take(i as int));
            assert(token@.take(i + 1).last() == token@[i as int]);
        }
        if val > i32::MAX as u64 {
            proof {
                lemma_digits_value_take_le(token@, i + 1, n as int);
                assert(token@.take(n as int) =~= token@);
            }
            return None;
        }
        i += 1;
    }
    proof {
        assert(token@.take(n as int) =~= token@);
    }
    Some(val as i32)
}

/// Closes one parenthesis: completes the innermost open expression and hands
/// it to its parent, or to the results at top level.  Mirrors
/// [`close_paren`].
fn exec_close(r: Reader, idx: usize) -> (res: Result<Reader, SyntaxError>)
    ensures
        match res {
            Ok(r2) => close_paren(r.cfg()) == Some(r2.cfg()) && r2.inv() && r2.depth < r.depth,
            Err(e) => close_paren(r.cfg()) is None && e == (SyntaxError { position: idx }),
        },
{
    if r.depth == 0 {
        return Err(SyntaxError { position: idx });
    }
    let Reader { state: _, token, pending, depth, mut stack, cur_op, cur_args, mut results } = r;
    match cur_op {
        None => Err(SyntaxError { position: idx }),
        Some(op) => {
            let done = Expression { operand: op, arguments: cur_args };
            proof {
                assert(done@ == (SpecExpr { operand: op, args: r.cfg().cur_args }));
            }
            match stack.pop() {
                Some(parent) => {
                    proof {
                        lemma_exprs_view_pop(r.stack@);
                    }
                    let Expression { operand: pop_op, arguments: mut pargs } = parent;
                    pargs.push(ExpressionArg::NestedExpression(done));
                    let r2 = Reader {
                        state: State::ExpectingArg,
                        token,
                        pending,
                        depth: depth - 1,
                        stack,
                        cur_op: Some(pop_op),
                        cur_args: pargs,
                        results,
                    };
                    proof {
                        lemma_args_view_push(
                            r.stack@.last().arguments@,
                            ExpressionArg::NestedExpression(done),
                        );
                        assert(close_paren(r.cfg()) == Some(r2.cfg()));
                    }
                    Ok(r2)
                },
                None => {
                    results.push(done);
                    let r2 = Reader {
                        state: State::ExpectingArg,
                        token,
                        pending,
                        depth: depth - 1,
                        stack,
                        cur_op: None,
                        cur_args: Vec::new(),
                        results,
                    };
                    proof {
                        lemma_exprs_view_push(r.results@, done);
                        assert(args_view(r2.cur_args@) =~= Seq::<SpecArg>::empty());
                        assert(close_paren(r.cfg()) == Some(r2.cfg()));
                    }
                    Ok(r2)
                },
            }
        },
    }
}

/// One step in `ExpectingExpressionStart`.
fn on_start(r: Reader, c: char, idx: usize) -> (res: Result<Reader, SyntaxError>)
    requires
        r.state == State::ExpectingExpressionStart,
        r.depth < usize::MAX,
    ensures
        match res {
            Ok(r2) => step_start(r.cfg(), c) == Some(r2.cfg()) && r2.inv() && r2.depth <= r.depth
                + 1,
            Err(e) => step_start(r.cfg(), c) is None && e == (SyntaxError { position: idx }),
        },
{
    if c == '(' {
        let mut w = r;
        w.state = State::ExpectingOperand;
        w.depth = w.depth + 1;
        proof {
            assert(step_start(r.cfg(), c) == Some(w.cfg()));
        }
        Ok(w)
    } else if is_space_char(c) {
        Ok(r)
    } else {
        Err(SyntaxError { position: idx })
    }
}

/// One step in `ExpectingOperand`.
fn on_expecting_operand(r: Reader, c: char, idx: usize) -> (res: Result<Reader, SyntaxError>)
    requires
        r.state == State::ExpectingOperand,
    ensures
        match res {
            Ok(r2) => step_expecting_operand(r.cfg(), c) == Some(r2.cfg()) && r2.inv()
                && r2.depth == r.depth,
            Err(e) => step_expecting_operand(r.cfg(), c) is None && e == (SyntaxError {
                position: idx,
            }),
        },
{
    if is_operand_start_char(c) {
        let mut w = r;
        w.state = State::ScanningOperand;
        w.token.clear();
        w.token.push(c);
        proof {
            assert(w.token@ =~= seq![c]);
            assert(step_expecting_operand(r.cfg(), c) == Some(w.cfg()));
        }
        Ok(w)
    } else if is_space_char(c) {
        Ok(r)
    } else {
        Err(SyntaxError { position: idx })
    }
}

/// One step in `ScanningOperand`.
fn on_scanning_operand(r: Reader, c: char, idx: usize) -> (res: Result<Reader, SyntaxError>)
    requires
        r.state == State::ScanningOperand,
    ensures
        match res {
            Ok(r2) => step_scanning_operand(r.cfg(), c) == Some(r2.cfg()) && r2.inv()
                && r2.depth <= r.depth,
            Err(e) => step_scanning_operand(r.cfg(), c) is None && e == (SyntaxError {
                position: idx,
            }),
        },
{
    if is_operand_continue_char(c) {
        let mut w = r;
        w.token.push(c);
        proof {
            assert(step_scanning_operand(r.cfg(), c) == Some(w.cfg()));
        }
        Ok(w)
    } else if is_space_char(c) || c == ')' {
        let mut w = r;
        match get_operand(&w.token, idx) {
            Err(e) => Err(e),
            Ok(op) => {
                w.cur_op = Some(op);
                w.token.clear();
                w.state = State::ExpectingArg;
                if c == ')' {
                    proof {
                        assert(step_scanning_operand(r.cfg(), c) == close_paren(w.cfg()));
                    }
                    exec_close(w, idx)
                } else {
                    proof {
                        assert(step_scanning_operand(r.cfg(), c) == Some(w.cfg()));
                    }
                    Ok(w)
                }
            },
        }
    } else {
        Err(SyntaxError { position: idx })
    }
}

/// One step in `ScanningNumber`.
fn on_scanning_number(r: Reader, c: char, idx: usize) -> (res: Result<Reader, SyntaxError>)
    requires
        r.state == State::ScanningNumber,
        r.inv(),
    ensures
        match res {
            Ok(r2) => step_scanning_number(r.cfg(), c) == Some(r2.cfg()) && r2.inv()
                && r2.depth <= r.depth,
            Err(e) => step_scanning_number(r.cfg(), c) is None && e == (SyntaxError {
                position: idx,
            }),
        },
{
    if is_digit_char(c) {
        let mut w = r;
        w.token.push(c);
        proof {
            lemma_all_digits_push(r.token@, c);
            assert(step_scanning_number(r.cfg(), c) == Some(w.cfg()));
        }
        Ok(w)
    } else if c == '.' {
        let mut w = r;
        w.token.push(c);
        w.state = State::ScanningFloat;
        proof {
            assert(step_scanning_number(r.cfg(), c) == Some(w.cfg()));
        }
        Ok(w)
    } else if is_space_char(c) || c == ')' {
        match digits_to_i32(&r.token) {
            None => {
                proof {
                    assert(step_scanning_number(r.cfg(), c) is None);
                }
                Err(SyntaxError { position: idx })
            },
            Some(v) => {
                let mut w = r;
                w.cur_args.push(ExpressionArg::Int(v));
                w.token.clear();
                w.state = State::ExpectingArg;
                proof {
                    lemma_args_view_push(r.cur_args@, ExpressionArg::Int(v));
                    assert(ExpressionArg::Int(v)@ == SpecArg::Int(digits_value(r.token@)));
                }
                if c == ')' {
                    proof {
                        assert(step_scanning_number(r.cfg(), c) == close_paren(w.cfg()));
                    }
                    exec_close(w, idx)
                } else {
                    proof {
                        assert(step_scanning_number(r.cfg(), c) == Some(w.cfg()));
                    }
                    Ok(w)
                }
            },
        }
    } else {
        Err(SyntaxError { position: idx })
    }
}

/// One step in `ScanningFloat`.
fn on_scanning_float(r: Reader, c: char, idx: usize) -> (res: Result<Reader, SyntaxError>)
    requires
        r.state == State::ScanningFloat,
    ensures
        match res {
            Ok(r2) => step_scanning_float(r.cfg(), c) == Some(r2.cfg()) && r2.inv()
                && r2.depth <= r.depth,
            Err(e) => step_scanning_float(r.cfg(), c) is None && e == (SyntaxError {
                position: idx,
            }),
        },
{
    if is_digit_char(c) {
        let mut w = r;
        w.token.push(c);
        proof {
            assert(step_scanning_float(r.cfg(), c) == Some(w.cfg()));
        }
        Ok(w)
    } else if is_space_char(c) || c == ')' {
        let Reader { state: _, token, pending, depth, stack, cur_op, mut cur_args, results } = r;
        proof {
            lemma_args_view_push(r.cur_args@, ExpressionArg::Float(r.token));
        }
        cur_args.push(ExpressionArg::Float(token));
        let w = Reader {
            state: State::ExpectingArg,
            token: Vec::new(),
            pending,
            depth,
            stack,
            cur_op,
            cur_args,
            results,
        };
        proof {
            assert(w.token@ =~= Seq::<char>::empty());
        }
        if c == ')' {
            proof {
                assert(step_scanning_float(r.cfg(), c) == close_paren(w.cfg()));
            }
            exec_close(w, idx)
        } else {
            proof {
                assert(step_scanning_float(r.cfg(), c) == Some(w.cfg()));
            }
            Ok(w)
        }
    } else {
        Err(SyntaxError { position: idx })
    }
}

/// One step in `ScanningChar`.
fn on_scanning_char(r: Reader, c: char, idx: usize) -> (res: Result<Reader, SyntaxError>)
    requires
        r.state == State::ScanningChar,
    ensures
        match res {
            Ok(r2) => step_scanning_char(r.cfg(), c) == Some(r2.cfg()) && r2.inv()
                && r2.depth == r.depth,
            Err(e) => step_scanning_char(r.cfg(), c) is None && e == (SyntaxError {
                position: idx,
            }),
        },
{
    if c == '\'' {
        match r.pending {
            Some(ch) => {
                let mut w = r;
                w.pending = None;
                w.cur_args.push(ExpressionArg::Char(ch));
                w.state = State::ExpectingArg;
                proof {
                    assert(w.cur_args@ == r.cur_args@.push(ExpressionArg::Char(ch)));
                    crate::ast::lemma_args_view_push_char(r.cur_args@, ch);
                    assert(step_scanning_char(r.cfg(), c) == Some(w.cfg()));
                }
                Ok(w)
            },
            None => Err(SyntaxError { position: idx }),
        }
    } else {
        match r.pending {
            Some(_) => Err(SyntaxError { position: idx }),
            None => {
                let mut w = r;
                w.pending = Some(c);
                proof {
                    assert(step_scanning_char(r.cfg(), c) == Some(w.cfg()));
                }
                Ok(w)
            },
        }
    }
}

/// One step in `ExpectingArg`.
fn on_expecting_arg(r: Reader, c: char, idx: usize) -> (res: Result<Reader, SyntaxError>)
    requires
        r.state == State::ExpectingArg,
        r.depth < usize::MAX,
    ensures
        match res {
            Ok(r2) => step_expecting_arg(r.cfg(), c) == Some(r2.cfg()) && r2.inv()
                && r2.depth <= r.depth + 1,
            Err(e) => step_expecting_arg(r.cfg(), c) is None && e == (SyntaxError {
                position: idx,
            }),
        },
{
    if c == '(' {
        match r.cur_op {
            Some(op) => {
                let Reader {
                    state: _,
                    token,
                    pending,
                    depth,
                    mut stack,
                    cur_op: _,
                    cur_args,
                    results,
                } = r;
                let open = Expression { operand: op, arguments: cur_args };
                proof {
                    lemma_exprs_view_push(r.stack@, open);
                    assert(open@ == (SpecExpr { operand: op, args: args_view(r.cur_args@) }));
                }
                stack.push(open);
                let w = Reader {
                    state: State::ExpectingOperand,
                    token,
                    pending,
                    depth: depth + 1,
                    stack,
                    cur_op: None,
                    cur_args: Vec::new(),
                    results,
                };
                proof {
                    assert(args_view(w.cur_args@) =~= Seq::<SpecArg>::empty());
                    assert(step_expecting_arg(r.cfg(), c) == Some(w.cfg()));
                }
                Ok(w)
            },
            None => {
                if r.depth == 0 {
                    let mut w = r;
                    w.state = State::ExpectingOperand;
                    w.depth = 1;
                    proof {
                        assert(step_expecting_arg(r.cfg(), c) == Some(w.cfg()));
                    }
                    Ok(w)
                } else {
                    Err(SyntaxError { position: idx })
                }
            },
        }
    } else if c == ')' {
        proof {
            assert(step_expecting_arg(r.cfg(), c) == close_paren(r.cfg()));
        }
        exec_close(r, idx)
    } else if is_space_char(c) {
        Ok(r)
    } else {
        match r.cur_op {
            Some(_) => {
                if is_digit_char(c) {
                    let mut w = r;
                    w.state = State::ScanningNumber;
                    w.token.clear();
                    w.token.push(c);
                    proof {
                        assert(w.token@ =~= seq![c]);
                        assert(all_digits(w.token@));
                        assert(step_expecting_arg(r.cfg(), c) == Some(w.cfg()));
                    }
                    Ok(w)
                } else if c == '\'' {
                    let mut w = r;
                    w.state = State::ScanningChar;
                    w.pending = None;
                    proof {
                        assert(step_expecting_arg(r.cfg(), c) == Some(w.cfg()));
                    }
                    Ok(w)
                } else {
                    Err(SyntaxError { position: idx })
                }
            },
            None => Err(SyntaxError { position: idx }),
        }
    }
}

/// One step of the reader on one character, following [`step`] exactly.
fn step_char(r: Reader, c: char, idx: usize) -> (res: Result<Reader, SyntaxError>)
    requires
        r.inv(),
        r.depth < usize::MAX,
    ensures
        match res {
            Ok(r2) => step(r.cfg(), c) == Some(r2.cfg()) && r2.inv() && r2.depth <= r.depth + 1,
            Err(e) => step(r.cfg(), c) is None && e == (SyntaxError { position: idx }),
        },
{
    match r.state {
        State::ExpectingExpressionStart => on_start(r, c, idx),
        State::ExpectingOperand => on_expecting_operand(r, c, idx),
        State::ScanningOperand => on_scanning_operand(r, c, idx),
        State::ScanningNumber => on_scanning_number(r, c, idx),
        State::ScanningFloat => on_scanning_float(r, c, idx),
        State::ScanningChar => on_scanning_char(r, c, idx),
        State::ExpectingArg => on_expecting_arg(r, c, idx),
    }
}

/// Whether an executable parse outcome is the one the machine prescribes for
/// the character sequence `s`: the same trees on success, the same position
/// on failure.
pub open spec fn parse_outcome_matches(
    res: Result<Vec<Expression>, SyntaxError>,
    s: Seq<char>,
) -> bool {
    match res {
        Ok(v) => spec_parse(s) == Ok::<Seq<SpecExpr>, int>(exprs_view(v@)),
        Err(e) => spec_parse(s) == Err::<Seq<SpecExpr>, int>(e.position as int),
    }
}

/// Reads `input` and returns its top-level expression trees in source order,
/// or the zero-based character index at which the text was first rejected.
pub fn parse(input: String) -> (res: Result<Vec<Expression>, SyntaxError>)
    ensures
        parse_outcome_matches(res, input@),
{
    let text = input.as_str();
    let n = text.unicode_len();
    let mut r = Reader::new();
    let mut i: usize = 0;
    while i < n
        invariant
            n == text@.len(),
            text@ == input@,
            i <= n,
            r.inv(),
            r.cfg().depth <= i,
            spec_parse(input@) == run_from(input@, i as int, r.cfg()),
        decreases n - i,
    {
        let c = text.get_char(i);
        r = match step_char(r, c, i) {
            Ok(r2) => r2,
            Err(e) => {
                proof {
                    assert(run_from(input@, i as int, r.cfg()) == Err::<Seq<SpecExpr>, int>(
                        i as int,
                    ));
                }
                return Err(e);
            },
        };
        i += 1;
    }
    if r.depth == 0 {
        Ok(r.results)
    } else {
        Err(SyntaxError { position: n })
    }
}

} // verus!
