//! The mathematical statement of the reader: a transition function over an
//! explicit machine configuration, one step per input character, and the
//! outcome of running it over a whole character sequence.
//!
//! [`spec_parse`] is the single source of truth for what the library computes:
//! the executable reader in [`crate::parser`] is proved to return exactly its
//! result.

use vstd::prelude::*;

use crate::ast::SpecArg;
use crate::ast::SpecExpr;
use crate::ast::Operand;
use crate::ast::digits_value;
use crate::ast::is_digit;
use crate::ast::is_operand_continue;
use crate::ast::is_operand_start;
use crate::ast::is_space;

verus! {

/// The parsing mode the reader is in between two characters.
#[derive(Clone, Copy, Debug, PartialEq, Eq, Structural)]
pub enum State {
    /// Top level, before the first form: only whitespace or `(`.
    ExpectingExpressionStart,
    /// Just opened a parenthesis; the operand token must begin.
    ExpectingOperand,
    /// Accumulating the characters of an operand token.
    ScanningOperand,
    /// Operand resolved; awaiting an argument, a nested `(`, or `)`.
    ExpectingArg,
    /// Accumulating the digits of an integer literal.
    ScanningNumber,
    /// Accumulating the digits after a decimal point.
    ScanningFloat,
    /// Between a leading `'` and its closing `'`.
    ScanningChar,
}

/// The full machine configuration: state register, token accumulator, pending
/// character of a character literal, count of unmatched open parentheses, the
/// stack of open ancestor expressions (innermost last), the operand and
/// arguments of the innermost open expression, and the finished top-level
/// expressions in source order.
#[verifier::ext_equal]
pub ghost struct Config {
    pub state: State,
    pub token: Seq<char>,
    pub pending: Option<char>,
    pub depth: nat,
    pub stack: Seq<SpecExpr>,
    pub cur_op: Option<Operand>,
    pub cur_args: Seq<SpecArg>,
    pub results: Seq<SpecExpr>,
}

/// The configuration the reader starts in.
pub open spec fn init_config() -> Config {
    Config {
        state: State::ExpectingExpressionStart,
        token: Seq::empty(),
        pending: None,
        depth: 0,
        stack: Seq::empty(),
        cur_op: None,
        cur_args: Seq::empty(),
        results: Seq::empty(),
    }
}

/// Which operand a finished token resolves to, if any.
pub open spec fn operand_of(t: Seq<char>) -> Option<Operand> {
    if t.len() == 1 {
        if t[0] == '+' {
            Some(Operand::Add)
        } else if t[0] == '-' {
            Some(Operand::Subtract)
        } else if t[0] == '*' {
            Some(Operand::Multiply)
        } else if t[0] == '/' {
            Some(Operand::Divide)
        } else if t[0] == '=' {
            Some(Operand::Equal)
        } else if t[0] == '<' {
            Some(Operand::LessThan)
        } else if t[0] == '>' {
            Some(Operand::GreaterThan)
        } else {
            None
        }
    } else if t.len() == 2 {
        if t[0] == 'i' && t[1] == 'f' {
            Some(Operand::If)
        } else if t[0] == 'o' && t[1] == 'r' {
            Some(Operand::Or)
        } else {
            None
        }
    } else if t.len() == 3 {
        if t[0] == 'a' && t[1] == 'b' && t[2] == 's' {
            Some(Operand::AbsoluteValue)
        } else if t[0] == 'n' && t[1] == 'o' && t[2] == 't' {
            Some(Operand::Not)
        } else if t[0] == 'a' && t[1] == 'n' && t[2] == 'd' {
            Some(Operand::And)
        } else {
            None
        }
    } else {
        None
    }
}

/// Closing a parenthesis once the token in flight (if any) has been finished:
/// `cfg.state` is already `ExpectingArg`.  A close with no open parenthesis,
/// or with no resolved operand, is an error (`None`).  Otherwise the innermost
/// open expression is completed and either appended to its parent's arguments
/// or, with an empty stack, to the top-level results.
pub open spec fn close_paren(cfg: Config) -> Option<Config> {
    if cfg.depth == 0 {
        None
    } else {
        match cfg.cur_op {
            None => None,
            Some(op) => {
                let done = SpecExpr { operand: op, args: cfg.cur_args };
                if cfg.stack.len() > 0 {
                    let parent = cfg.stack.last();
                    Some(
                        Config {
                            state: State::ExpectingArg,
                            depth: (cfg.depth - 1) as nat,
                            stack: cfg.stack.drop_last(),
                            cur_op: Some(parent.operand),
                            cur_args: parent.args.push(SpecArg::NestedExpression(done)),
                            ..cfg
                        },
                    )
                } else {
                    Some(
                        Config {
                            state: State::ExpectingArg,
                            depth: (cfg.depth - 1) as nat,
                            cur_op: None,
                            cur_args: Seq::empty(),
                            results: cfg.results.push(done),
                            ..cfg
                        },
                    )
                }
            },
        }
    }
}

/// One step in `ExpectingExpressionStart`.
pub open spec fn step_start(cfg: Config, c: char) -> Option<Config> {
    if c == '(' {
        Some(Config { state: State::ExpectingOperand, depth: cfg.depth + 1, ..cfg })
    } else if is_space(c) {
        Some(cfg)
    } else {
        None
    }
}

/// One step in `ExpectingOperand`.
pub open spec fn step_expecting_operand(cfg: Config, c: char) -> Option<Config> {
    if is_operand_start(c) {
        Some(Config { state: State::ScanningOperand, token: seq![c], ..cfg })
    } else if is_space(c) {
        Some(cfg)
    } else {
        None
    }
}

/// One step in `ScanningOperand`.  Whitespace or `)` finishes the token and
/// resolves it against the closed operand set; an unresolved token is fatal.
pub open spec fn step_scanning_operand(cfg: Config, c: char) -> Option<Config> {
    if is_operand_continue(c) {
        Some(Config { token: cfg.token.push(c), ..cfg })
    } else if is_space(c) || c == ')' {
        match operand_of(cfg.token) {
            None => None,
            Some(op) => {
                let finished = Config {
                    state: State::ExpectingArg,
                    token: Seq::empty(),
                    cur_op: Some(op),
                    ..cfg
                };
                if c == ')' {
                    close_paren(finished)
                } else {
                    Some(finished)
                }
            },
        }
    } else {
        None
    }
}

/// One step in `ScanningNumber`.  Whitespace or `)` finishes the token; a
/// value over `i32::MAX` is fatal.  A single `.` switches to `ScanningFloat`.
pub open spec fn step_scanning_number(cfg: Config, c: char) -> Option<Config> {
    if is_digit(c) {
        Some(Config { token: cfg.token.push(c), ..cfg })
    } else if c == '.' {
        Some(Config { state: State::ScanningFloat, token: cfg.token.push(c), ..cfg })
    } else if is_space(c) || c == ')' {
        if digits_value(cfg.token) > i32::MAX {
            None
        } else {
            let finished = Config {
                state: State::ExpectingArg,
                token: Seq::empty(),
                cur_args: cfg.cur_args.push(SpecArg::Int(digits_value(cfg.token))),
                ..cfg
            };
            if c == ')' {
                close_paren(finished)
            } else {
                Some(finished)
            }
        }
    } else {
        None
    }
}

/// One step in `ScanningFloat`.  Whitespace or `)` finishes the token, which
/// is kept as the literal's digits; a second `.` is fatal.
pub open spec fn step_scanning_float(cfg: Config, c: char) -> Option<Config> {
    if is_digit(c) {
        Some(Config { token: cfg.token.push(c), ..cfg })
    } else if is_space(c) || c == ')' {
        let finished = Config {
            state: State::ExpectingArg,
            token: Seq::empty(),
            cur_args: cfg.cur_args.push(SpecArg::Float(cfg.token)),
            ..cfg
        };
        if c == ')' {
            close_paren(finished)
        } else {
            Some(finished)
        }
    } else {
        None
    }
}

/// One step in `ScanningChar`.  The slot must receive exactly one character
/// before the closing quote; an empty literal or a second character is fatal.
pub open spec fn step_scanning_char(cfg: Config, c: char) -> Option<Config> {
    if c == '\'' {
        match cfg.pending {
            Some(ch) => Some(
                Config {
                    state: State::ExpectingArg,
                    pending: None,
                    cur_args: cfg.cur_args.push(SpecArg::Char(ch)),
                    ..cfg
                },
            ),
            None => None,
        }
    } else {
        match cfg.pending {
            Some(_) => None,
            None => Some(Config { pending: Some(c), ..cfg }),
        }
    }
}

/// One step in `ExpectingArg`.  A `(` opens a nested expression (pushing the
/// one in progress) or, at top level between forms, a new top-level
/// expression; `)` closes; inside an open expression a digit or `'` starts a
/// literal; anything else but whitespace is fatal.
pub open spec fn step_expecting_arg(cfg: Config, c: char) -> Option<Config> {
    if c == '(' {
        match cfg.cur_op {
            Some(op) => Some(
                Config {
                    state: State::ExpectingOperand,
                    depth: cfg.depth + 1,
                    stack: cfg.stack.push(SpecExpr { operand: op, args: cfg.cur_args }),
                    cur_op: None,
                    cur_args: Seq::empty(),
                    ..cfg
                },
            ),
            None => if cfg.depth == 0 {
                Some(Config { state: State::ExpectingOperand, depth: 1, ..cfg })
            } else {
                None
            },
        }
    } else if c == ')' {
        close_paren(cfg)
    } else if is_space(c) {
        Some(cfg)
    } else if cfg.cur_op is Some {
        if is_digit(c) {
            Some(Config { state: State::ScanningNumber, token: seq![c], ..cfg })
        } else if c == '\'' {
            Some(Config { state: State::ScanningChar, pending: None, ..cfg })
        } else {
            None
        }
    } else {
        None
    }
}

/// One step of the machine on one character; `None` is a fatal error at that
/// character.
pub open spec fn step(cfg: Config, c: char) -> Option<Config> {
    match cfg.state {
        State::ExpectingExpressionStart => step_start(cfg, c),
        State::ExpectingOperand => step_expecting_operand(cfg, c),
        State::ScanningOperand => step_scanning_operand(cfg, c),
        State::ScanningNumber => step_scanning_number(cfg, c),
        State::ScanningFloat => step_scanning_float(cfg, c),
        State::ScanningChar => step_scanning_char(cfg, c),
        State::ExpectingArg => step_expecting_arg(cfg, c),
    }
}

/// The outcome of running the machine from configuration `cfg` over the
/// characters of `s` from index `i` on: the finished top-level expressions,
/// or the index of the first rejected character.  End of input with an open
/// parenthesis still unmatched is an error at index `s.len()`.
pub open spec fn run_from(s: Seq<char>, i: int, cfg: Config) -> Result<Seq<SpecExpr>, int>
    decreases s.len() - i,
{
    if i < 0 || i >= s.len() {
        if cfg.depth == 0 {
            Ok(cfg.results)
        } else {
            Err(s.len() as int)
        }
    } else {
        match step(cfg, s[i]) {
            None => Err(i),
            Some(next) => run_from(s, i + 1, next),
        }
    }
}

/// What parsing a character sequence yields: the top-level expression trees
/// in source order, or the zero-based index of the first rejected character.
pub open spec fn spec_parse(s: Seq<char>) -> Result<Seq<SpecExpr>, int> {
    run_from(s, 0, init_config())
}

} // verus!
