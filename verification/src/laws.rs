//! The laws the reader obeys, stated over the machine of [`crate::machine`]
//! and proved once for all inputs: determinism of parsing, the unmatched
//! close-parenthesis behaviour, well-formedness of every parsed tree, the
//! round trip from a tree through its canonical text back to the same tree,
//! and the insensitivity of a successful parse to whitespace inserted
//! between tokens.

use vstd::prelude::*;

use crate::ast::Expression;
use crate::ast::SpecArg;
use crate::ast::SpecExpr;
use crate::ast::SyntaxError;
use crate::ast::all_digits;
use crate::ast::digits_value;
use crate::ast::exprs_view;
use crate::ast::is_digit;
use crate::ast::is_float_token;
use crate::ast::is_space;
use crate::ast::lemma_digits_value_nonneg;
use crate::ast::wf_arg;
use crate::ast::wf_expr;
use crate::ast::wf_exprs;
use crate::machine::Config;
use crate::machine::State;
use crate::machine::close_paren;
use crate::machine::init_config;
use crate::machine::operand_of;
use crate::machine::run_from;
use crate::machine::spec_parse;
use crate::machine::step;
use crate::parser::parse_outcome_matches;

verus! {

/// Running the machine over a whole character segment from a given
/// configuration: `None` as soon as one step is fatal.
pub open spec fn run_seq(cfg: Config, s: Seq<char>) -> Option<Config>
    decreases s.len(),
{
    if s.len() == 0 {
        Some(cfg)
    } else {
        match step(cfg, s[0]) {
            None => None,
            Some(next) => run_seq(next, s.drop_first()),
        }
    }
}

/// Running over a concatenation is running over the parts in turn.
pub proof fn lemma_run_seq_app(cfg: Config, a: Seq<char>, b: Seq<char>)
    ensures
        run_seq(cfg, a + b) == (match run_seq(cfg, a) {
            None => None::<Config>,
            Some(mid) => run_seq(mid, b),
        }),
    decreases a.len(),
{
    if a.len() == 0 {
        assert(a + b =~= b);
    } else {
        assert((a + b)[0] == a[0]);
        match step(cfg, a[0]) {
            None => {
                assert((a + b).len() > 0);
            },
            Some(next) => {
                assert((a + b).drop_first() =~= a.drop_first() + b);
                lemma_run_seq_app(next, a.drop_first(), b);
            },
        }
    }
}

/// A segment run that succeeds advances the whole-input run: the outcome
/// from index `i` equals the outcome from index `j` in the reached
/// configuration.
pub proof fn lemma_run_from_seq(s: Seq<char>, i: int, j: int, cfg: Config, reached: Config)
    requires
        0 <= i <= j <= s.len(),
        run_seq(cfg, s.subrange(i, j)) == Some(reached),
    ensures
        run_from(s, i, cfg) == run_from(s, j, reached),
    decreases j - i,
{
    if i == j {
        assert(s.subrange(i, j) =~= Seq::<char>::empty());
    } else {
        let sub = s.subrange(i, j);
        assert(sub[0] == s[i]);
        match step(cfg, s[i]) {
            None => {
                assert(false);
            },
            Some(next) => {
                assert(sub.drop_first() =~= s.subrange(i + 1, j));
                lemma_run_from_seq(s, i + 1, j, next, reached);
            },
        }
    }
}

/// Consuming one operand-start character from `ExpectingOperand` begins the
/// operand token.
proof fn lemma_scan_op1(cfg: Config, c1: char)
    requires
        cfg.state == State::ExpectingOperand,
        crate::ast::is_operand_start(c1),
    ensures
        run_seq(cfg, seq![c1]) == Some(Config { state: State::ScanningOperand, token: seq![c1], ..cfg }),
{
    reveal_with_fuel(run_seq, 2);
    assert(seq![c1].drop_first() =~= Seq::<char>::empty());
}

/// Consuming a two-character operand token from `ExpectingOperand`.
proof fn lemma_scan_op2(cfg: Config, c1: char, c2: char)
    requires
        cfg.state == State::ExpectingOperand,
        crate::ast::is_operand_start(c1),
        crate::ast::is_operand_continue(c2),
    ensures
        run_seq(cfg, seq![c1, c2]) == Some(
            Config { state: State::ScanningOperand, token: seq![c1, c2], ..cfg },
        ),
{
    reveal_with_fuel(run_seq, 3);
    let t = seq![c1, c2];
    assert(t[0] == c1);
    assert(t.drop_first() =~= seq![c2]);
    assert(t.drop_first()[0] == c2);
    assert(t.drop_first().drop_first() =~= Seq::<char>::empty());
    assert(seq![c1].push(c2) =~= t);
}

/// Consuming a three-character operand token from `ExpectingOperand`.
proof fn lemma_scan_op3(cfg: Config, c1: char, c2: char, c3: char)
    requires
        cfg.state == State::ExpectingOperand,
        crate::ast::is_operand_start(c1),
        crate::ast::is_operand_continue(c2),
        crate::ast::is_operand_continue(c3),
    ensures
        run_seq(cfg, seq![c1, c2, c3]) == Some(
            Config { state: State::ScanningOperand, token: seq![c1, c2, c3], ..cfg },
        ),
{
    reveal_with_fuel(run_seq, 4);
    let t = seq![c1, c2, c3];
    assert(t[0] == c1);
    assert(t.drop_first() =~= seq![c2, c3]);
    assert(t.drop_first()[0] == c2);
    assert(t.drop_first().drop_first() =~= seq![c3]);
    assert(t.drop_first().drop_first()[0] == c3);
    assert(t.drop_first().drop_first().drop_first() =~= Seq::<char>::empty());
    assert(seq![c1].push(c2) =~= seq![c1, c2]);
    assert(seq![c1, c2].push(c3) =~= t);
}

/// Consuming the spelling of an operand accumulates exactly that token.
proof fn lemma_consume_operand(cfg: Config, op: crate::ast::Operand)
    requires
        cfg.state == State::ExpectingOperand,
    ensures
        run_seq(cfg, crate::text::operand_text(op)) == Some(
            Config { state: State::ScanningOperand, token: crate::text::operand_text(op), ..cfg },
        ),
        operand_of(crate::text::operand_text(op)) == Some(op),
{
    match op {
        crate::ast::Operand::Add => lemma_scan_op1(cfg, '+'),
        crate::ast::Operand::Subtract => lemma_scan_op1(cfg, '-'),
        crate::ast::Operand::Multiply => lemma_scan_op1(cfg, '*'),
        crate::ast::Operand::Divide => lemma_scan_op1(cfg, '/'),
        crate::ast::Operand::AbsoluteValue => lemma_scan_op3(cfg, 'a', 'b', 's'),
        crate::ast::Operand::Not => lemma_scan_op3(cfg, 'n', 'o', 't'),
        crate::ast::Operand::And => lemma_scan_op3(cfg, 'a', 'n', 'd'),
        crate::ast::Operand::Or => lemma_scan_op2(cfg, 'o', 'r'),
        crate::ast::Operand::If => lemma_scan_op2(cfg, 'i', 'f'),
        crate::ast::Operand::Equal => lemma_scan_op1(cfg, '='),
        crate::ast::Operand::LessThan => lemma_scan_op1(cfg, '<'),
        crate::ast::Operand::GreaterThan => lemma_scan_op1(cfg, '>'),
    }
}

/// Consuming a non-empty run of digits from `ExpectingArg` accumulates them
/// as an integer token.
proof fn lemma_scan_digits(cfg: Config, t: Seq<char>)
    requires
        cfg.state == State::ExpectingArg,
        cfg.cur_op is Some,
        all_digits(t),
        t.len() >= 1,
    ensures
        run_seq(cfg, t) == Some(Config { state: State::ScanningNumber, token: t, ..cfg }),
    decreases t.len(),
{
    if t.len() == 1 {
        reveal_with_fuel(run_seq, 2);
        assert(is_digit(t[0]));
        assert(t.drop_first() =~= Seq::<char>::empty());
        assert(seq![t[0]] =~= t);
    } else {
        let a = t.drop_last();
        let x = t.last();
        assert forall|k: int| 0 <= k < a.len() implies is_digit(#[trigger] a[k]) by {
            assert(a[k] == t[k]);
        }
        lemma_scan_digits(cfg, a);
        lemma_run_seq_app(cfg, a, seq![x]);
        assert(a + seq![x] =~= t);
        let mid = Config { state: State::ScanningNumber, token: a, ..cfg };
        reveal_with_fuel(run_seq, 2);
        assert(is_digit(x));
        assert(seq![x].drop_first() =~= Seq::<char>::empty());
        assert(a.push(x) =~= t);
    }
}

/// Consuming a run of digits while scanning a float appends them to the
/// token.
proof fn lemma_scan_float_digits(cfg: Config, d: Seq<char>)
    requires
        cfg.state == State::ScanningFloat,
        all_digits(d),
    ensures
        run_seq(cfg, d) == Some(Config { token: cfg.token + d, ..cfg }),
    decreases d.len(),
{
    if d.len() == 0 {
        assert(cfg.token + d =~= cfg.token);
        assert(Config { token: cfg.token + d, ..cfg } =~= cfg);
    } else {
        let a = d.drop_last();
        let x = d.last();
        assert forall|k: int| 0 <= k < a.len() implies is_digit(#[trigger] a[k]) by {
            assert(a[k] == d[k]);
        }
        lemma_scan_float_digits(cfg, a);
        lemma_run_seq_app(cfg, a, seq![x]);
        assert(a + seq![x] =~= d);
        let mid = Config { token: cfg.token + a, ..cfg };
        reveal_with_fuel(run_seq, 2);
        assert(is_digit(x));
        assert(seq![x].drop_first() =~= Seq::<char>::empty());
        assert((cfg.token + a).push(x) =~= cfg.token + d);
    }
}

/// Consuming a whole float token from `ExpectingArg` accumulates exactly
/// that token.
proof fn lemma_scan_float(cfg: Config, t: Seq<char>)
    requires
        cfg.state == State::ExpectingArg,
        cfg.cur_op is Some,
        is_float_token(t),
    ensures
        run_seq(cfg, t) == Some(Config { state: State::ScanningFloat, token: t, ..cfg }),
{
    let k = choose|k: int|
        1 <= k < t.len() && t[k] == '.' && (forall|i: int|
            0 <= i < t.len() && i != k ==> is_digit(#[trigger] t[i]));
    let pre = t.subrange(0, k);
    let post = t.subrange(k + 1, t.len() as int);
    assert forall|j: int| 0 <= j < pre.len() implies is_digit(#[trigger] pre[j]) by {
        assert(pre[j] == t[j]);
    }
    assert forall|j: int| 0 <= j < post.len() implies is_digit(#[trigger] post[j]) by {
        assert(post[j] == t[k + 1 + j]);
    }
    lemma_scan_digits(cfg, pre);
    let n1 = Config { state: State::ScanningNumber, token: pre, ..cfg };
    reveal_with_fuel(run_seq, 2);
    assert(!is_digit('.'));
    let n2 = Config { state: State::ScanningFloat, token: pre.push('.'), ..cfg };
    assert(step(n1, '.') == Some(n2));
    assert(seq!['.'].drop_first() =~= Seq::<char>::empty());
    assert(run_seq(n1, seq!['.']) == Some(n2));
    lemma_scan_float_digits(n2, post);
    lemma_run_seq_app(cfg, pre, seq!['.'] + post);
    lemma_run_seq_app(n1, seq!['.'], post);
    assert(pre + (seq!['.'] + post) =~= t);
    assert(pre.push('.') + post =~= t);
}

/// Every argument of the sequence is well formed.
pub open spec fn wf_args(args: Seq<SpecArg>) -> bool {
    forall|i: int| 0 <= i < args.len() ==> wf_arg(#[trigger] args[i])
}

/// Consuming ` <space><digits>` for an integer argument, then the rest of
/// the argument list and the closing parenthesis.
proof fn lemma_consume_int_arg(cfg: Config, n: int, args: Seq<SpecArg>)
    requires
        cfg.state == State::ExpectingArg,
        cfg.cur_op is Some,
        cfg.pending is None,
        cfg.token == Seq::<char>::empty(),
        cfg.depth >= 1,
        wf_args(args),
        args.len() >= 1,
        args[0] == SpecArg::Int(n),
    ensures
        run_seq(cfg, crate::text::unparse_args(args) + seq![')']) == close_paren(
            Config { cur_args: cfg.cur_args + args, ..cfg },
        ),
    decreases args, 0int,
{
    let rest = args.drop_first();
    assert(wf_arg(args[0]));
    assert(0 <= n <= i32::MAX);
    assert forall|k: int| 0 <= k < rest.len() implies wf_arg(#[trigger] rest[k]) by {
        assert(rest[k] == args[k + 1]);
    }
    let dig = crate::text::int_digits(n);
    crate::text::lemma_int_digits(n);
    let tail = crate::text::unparse_args(rest) + seq![')'];
    let text = crate::text::unparse_args(args) + seq![')'];
    assert(crate::text::unparse_args(args) == seq![' '] + crate::text::unparse_arg(args[0])
        + crate::text::unparse_args(rest));
    assert(crate::text::unparse_arg(args[0]) == dig);
    assert(text =~= (seq![' '] + dig) + tail);
    reveal_with_fuel(run_seq, 2);
    assert(is_space(' '));
    assert(step(cfg, ' ') == Some(cfg));
    lemma_scan_digits(cfg, dig);
    let scn = Config { state: State::ScanningNumber, token: dig, ..cfg };
    assert((seq![' '] + dig)[0] == ' ');
    assert((seq![' '] + dig).drop_first() =~= dig);
    assert(run_seq(cfg, seq![' '] + dig) == run_seq(cfg, dig));
    lemma_run_seq_app(cfg, seq![' '] + dig, tail);
    assert(run_seq(cfg, text) == run_seq(scn, tail));
    let finished = Config {
        state: State::ExpectingArg,
        token: Seq::<char>::empty(),
        cur_args: cfg.cur_args.push(SpecArg::Int(n)),
        ..cfg
    };
    assert(digits_value(dig) == n);
    assert(!is_digit(')') && !is_digit(' '));
    let target = Config { cur_args: cfg.cur_args + args, ..cfg };
    if rest.len() == 0 {
        assert(crate::text::unparse_args(rest) =~= Seq::<char>::empty());
        assert(tail =~= seq![')']);
        assert(step(scn, ')') == close_paren(finished));
        assert(cfg.cur_args.push(args[0]) =~= cfg.cur_args + args);
        assert(finished =~= target);
        assert(seq![')'].drop_first() =~= Seq::<char>::empty());
        match close_paren(finished) {
            None => {
                assert(run_seq(scn, seq![')']) is None);
            },
            Some(next) => {
                assert(run_seq(scn, seq![')']) == Some(next));
            },
        }
    } else {
        assert(crate::text::unparse_args(rest) == seq![' '] + crate::text::unparse_arg(rest[0])
            + crate::text::unparse_args(rest.drop_first()));
        assert(tail[0] == ' ');
        assert(step(scn, ' ') == Some(finished));
        assert(run_seq(scn, tail) == run_seq(finished, tail.drop_first()));
        lemma_consume_args(finished, rest);
        assert(step(finished, ' ') == Some(finished));
        assert(run_seq(finished, tail) == run_seq(finished, tail.drop_first()));
        assert(finished.cur_args + rest =~= cfg.cur_args + args);
        assert(Config { cur_args: finished.cur_args + rest, ..finished } =~= target);
    }
}

/// Consuming ` <space><float token>` for a floating-point argument, then the
/// rest of the argument list and the closing parenthesis.
proof fn lemma_consume_float_arg(cfg: Config, t: Seq<char>, args: Seq<SpecArg>)
    requires
        cfg.state == State::ExpectingArg,
        cfg.cur_op is Some,
        cfg.pending is None,
        cfg.token == Seq::<char>::empty(),
        cfg.depth >= 1,
        wf_args(args),
        args.len() >= 1,
        args[0] == SpecArg::Float(t),
    ensures
        run_seq(cfg, crate::text::unparse_args(args) + seq![')']) == close_paren(
            Config { cur_args: cfg.cur_args + args, ..cfg },
        ),
    decreases args, 0int,
{
    let rest = args.drop_first();
    assert(wf_arg(args[0]));
    assert(is_float_token(t));
    assert forall|k: int| 0 <= k < rest.len() implies wf_arg(#[trigger] rest[k]) by {
        assert(rest[k] == args[k + 1]);
    }
    let tail = crate::text::unparse_args(rest) + seq![')'];
    let text = crate::text::unparse_args(args) + seq![')'];
    assert(crate::text::unparse_args(args) == seq![' '] + crate::text::unparse_arg(args[0])
        + crate::text::unparse_args(rest));
    assert(crate::text::unparse_arg(args[0]) == t);
    assert(text =~= (seq![' '] + t) + tail);
    reveal_with_fuel(run_seq, 2);
    assert(is_space(' '));
    assert(step(cfg, ' ') == Some(cfg));
    lemma_scan_float(cfg, t);
    let scn = Config { state: State::ScanningFloat, token: t, ..cfg };
    assert((seq![' '] + t)[0] == ' ');
    assert((seq![' '] + t).drop_first() =~= t);
    assert(run_seq(cfg, seq![' '] + t) == run_seq(cfg, t));
    lemma_run_seq_app(cfg, seq![' '] + t, tail);
    assert(run_seq(cfg, text) == run_seq(scn, tail));
    let finished = Config {
        state: State::ExpectingArg,
        token: Seq::<char>::empty(),
        cur_args: cfg.cur_args.push(SpecArg::Float(t)),
        ..cfg
    };
    assert(!is_digit(')') && !is_digit(' '));
    let target = Config { cur_args: cfg.cur_args + args, ..cfg };
    if rest.len() == 0 {
        assert(crate::text::unparse_args(rest) =~= Seq::<char>::empty());
        assert(tail =~= seq![')']);
        assert(step(scn, ')') == close_paren(finished));
        assert(cfg.cur_args.push(args[0]) =~= cfg.cur_args + args);
        assert(finished =~= target);
        assert(seq![')'].drop_first() =~= Seq::<char>::empty());
        match close_paren(finished) {
            None => {
                assert(run_seq(scn, seq![')']) is None);
            },
            Some(next) => {
                assert(run_seq(scn, seq![')']) == Some(next));
            },
        }
    } else {
        assert(crate::text::unparse_args(rest) == seq![' '] + crate::text::unparse_arg(rest[0])
            + crate::text::unparse_args(rest.drop_first()));
        assert(tail[0] == ' ');
        assert(step(scn, ' ') == Some(finished));
        assert(run_seq(scn, tail) == run_seq(finished, tail.drop_first()));
        lemma_consume_args(finished, rest);
        assert(step(finished, ' ') == Some(finished));
        assert(run_seq(finished, tail) == run_seq(finished, tail.drop_first()));
        assert(finished.cur_args + rest =~= cfg.cur_args + args);
        assert(Config { cur_args: finished.cur_args + rest, ..finished } =~= target);
    }
}

/// Consuming ` '<c>'` for a character argument appends it and returns to
/// awaiting the next argument.
proof fn lemma_consume_char_seg(cfg: Config, ch: char)
    requires
        cfg.state == State::ExpectingArg,
        cfg.cur_op is Some,
        cfg.pending is None,
        ch != '\'',
    ensures
        run_seq(cfg, seq![' ', '\'', ch, '\'']) == Some(
            Config { cur_args: cfg.cur_args.push(SpecArg::Char(ch)), ..cfg },
        ),
{
    reveal_with_fuel(run_seq, 5);
    let s = seq![' ', '\'', ch, '\''];
    assert(is_space(' '));
    assert(step(cfg, ' ') == Some(cfg));
    let c2 = Config { state: State::ScanningChar, pending: None, ..cfg };
    assert(step(cfg, '\'') == Some(c2));
    let c3 = Config { pending: Some(ch), ..c2 };
    assert(step(c2, ch) == Some(c3));
    let c4 = Config {
        state: State::ExpectingArg,
        pending: None,
        cur_args: cfg.cur_args.push(SpecArg::Char(ch)),
        ..c3
    };
    assert(step(c3, '\'') == Some(c4));
    assert(s[0] == ' ');
    assert(s.drop_first() =~= seq!['\'', ch, '\'']);
    assert(s.drop_first()[0] == '\'');
    assert(s.drop_first().drop_first() =~= seq![ch, '\'']);
    assert(s.drop_first().drop_first()[0] == ch);
    assert(s.drop_first().drop_first().drop_first() =~= seq!['\'']);
    assert(s.drop_first().drop_first().drop_first()[0] == '\'');
    assert(s.drop_first().drop_first().drop_first().drop_first() =~= Seq::<char>::empty());
    assert(c4 =~= (Config { cur_args: cfg.cur_args.push(SpecArg::Char(ch)), ..cfg }));
}

/// Consuming one nested expression's text from inside an open expression
/// appends the tree to the arguments in progress and returns to the same
/// place.
proof fn lemma_consume_expr_nested(cfg: Config, e: SpecExpr)
    requires
        cfg.state == State::ExpectingArg,
        cfg.cur_op is Some,
        cfg.pending is None,
        cfg.token == Seq::<char>::empty(),
        cfg.depth >= 1,
        wf_expr(e),
    ensures
        run_seq(cfg, crate::text::unparse_expr(e)) == Some(
            Config {
                cur_args: cfg.cur_args.push(SpecArg::NestedExpression(e)),
                token: Seq::<char>::empty(),
                ..cfg
            },
        ),
    decreases e, 3int,
{
    assert(decreases_to!(e => e.args));
    let parent = SpecExpr { operand: cfg.cur_op->0, args: cfg.cur_args };
    let cfg1 = Config {
        state: State::ExpectingOperand,
        depth: cfg.depth + 1,
        stack: cfg.stack.push(parent),
        cur_op: None,
        cur_args: Seq::empty(),
        ..cfg
    };
    assert(step(cfg, '(') == Some(cfg1));
    let body = crate::text::operand_text(e.operand) + crate::text::unparse_args(e.args) + seq![
        ')',
    ];
    assert(crate::text::unparse_expr(e) =~= seq!['('] + body);
    reveal_with_fuel(run_seq, 2);
    assert(seq!['('].drop_first() =~= Seq::<char>::empty());
    assert(run_seq(cfg, seq!['(']) == Some(cfg1));
    lemma_run_seq_app(cfg, seq!['('], body);
    lemma_consume_body(cfg1, e.operand, e.args);
    let fin = Config {
        state: State::ExpectingArg,
        token: Seq::<char>::empty(),
        cur_op: Some(e.operand),
        cur_args: e.args,
        ..cfg1
    };
    assert(run_seq(cfg1, body) == close_paren(fin));
    let done = SpecExpr { operand: e.operand, args: e.args };
    assert(done =~= e);
    assert(fin.stack.len() > 0);
    assert(fin.stack.last() == parent);
    assert(fin.stack.drop_last() =~= cfg.stack);
    let exit = Config {
        cur_args: cfg.cur_args.push(SpecArg::NestedExpression(e)),
        token: Seq::<char>::empty(),
        ..cfg
    };
    assert(close_paren(fin) is Some);
    assert((close_paren(fin)->0) =~= exit);
}

/// Consuming an operand's spelling, the arguments' text, and the closing
/// parenthesis from just inside an opened parenthesis behaves as closing the
/// finished expression.
proof fn lemma_consume_body(cfg: Config, op: crate::ast::Operand, args: Seq<SpecArg>)
    requires
        cfg.state == State::ExpectingOperand,
        cfg.cur_op is None,
        cfg.cur_args == Seq::<SpecArg>::empty(),
        cfg.pending is None,
        cfg.depth >= 1,
        wf_args(args),
    ensures
        run_seq(
            cfg,
            crate::text::operand_text(op) + crate::text::unparse_args(args) + seq![')'],
        ) == close_paren(
            Config {
                state: State::ExpectingArg,
                token: Seq::<char>::empty(),
                cur_op: Some(op),
                cur_args: args,
                ..cfg
            },
        ),
    decreases args, 2int,
{
    let optext = crate::text::operand_text(op);
    let tail = crate::text::unparse_args(args) + seq![')'];
    let text = optext + crate::text::unparse_args(args) + seq![')'];
    assert(text =~= optext + tail);
    lemma_consume_operand(cfg, op);
    let mid = Config { state: State::ScanningOperand, token: optext, ..cfg };
    lemma_run_seq_app(cfg, optext, tail);
    assert(run_seq(cfg, text) == run_seq(mid, tail));
    let fin0 = Config {
        state: State::ExpectingArg,
        token: Seq::<char>::empty(),
        cur_op: Some(op),
        ..mid
    };
    let target = Config {
        state: State::ExpectingArg,
        token: Seq::<char>::empty(),
        cur_op: Some(op),
        cur_args: args,
        ..cfg
    };
    assert(!crate::ast::is_operand_continue(')'));
    assert(!crate::ast::is_operand_continue(' '));
    if args.len() == 0 {
        assert(crate::text::unparse_args(args) =~= Seq::<char>::empty());
        assert(tail =~= seq![')']);
        assert(step(mid, ')') == close_paren(fin0));
        assert(fin0 =~= target);
        reveal_with_fuel(run_seq, 2);
        assert(seq![')'].drop_first() =~= Seq::<char>::empty());
        match close_paren(fin0) {
            None => {
                assert(run_seq(mid, seq![')']) is None);
            },
            Some(next) => {
                assert(run_seq(mid, seq![')']) == Some(next));
            },
        }
    } else {
        assert(crate::text::unparse_args(args) == seq![' '] + crate::text::unparse_arg(args[0])
            + crate::text::unparse_args(args.drop_first()));
        assert(tail[0] == ' ');
        assert(crate::ast::is_space(' '));
        assert(step(mid, ' ') == Some(fin0));
        reveal_with_fuel(run_seq, 2);
        assert(run_seq(mid, tail) == run_seq(fin0, tail.drop_first()));
        lemma_consume_args(fin0, args);
        assert(fin0.cur_args + args =~= args);
        assert(Config { cur_args: fin0.cur_args + args, ..fin0 } =~= target);
        assert(step(fin0, ' ') == Some(fin0));
        assert(run_seq(fin0, tail) == run_seq(fin0, tail.drop_first()));
        assert(run_seq(fin0, tail) == close_paren(target));
    }
}

/// Consuming an argument list's text followed by the closing parenthesis
/// behaves as closing the expression with those arguments appended.
proof fn lemma_consume_args(cfg: Config, args: Seq<SpecArg>)
    requires
        cfg.state == State::ExpectingArg,
        cfg.cur_op is Some,
        cfg.pending is None,
        cfg.token == Seq::<char>::empty(),
        cfg.depth >= 1,
        wf_args(args),
    ensures
        run_seq(cfg, crate::text::unparse_args(args) + seq![')']) == close_paren(
            Config { cur_args: cfg.cur_args + args, ..cfg },
        ),
    decreases args, 1int,
{
    let text = crate::text::unparse_args(args) + seq![')'];
    if args.len() == 0 {
        assert(crate::text::unparse_args(args) =~= Seq::<char>::empty());
        assert(text =~= seq![')']);
        assert(step(cfg, ')') == close_paren(cfg));
        assert(cfg.cur_args + args =~= cfg.cur_args);
        assert(Config { cur_args: cfg.cur_args + args, ..cfg } =~= cfg);
        reveal_with_fuel(run_seq, 2);
        assert(seq![')'].drop_first() =~= Seq::<char>::empty());
        match close_paren(cfg) {
            None => {
                assert(run_seq(cfg, text) is None);
            },
            Some(next) => {
                assert(run_seq(cfg, text) == Some(next));
            },
        }
    } else {
        let a0 = args[0];
        let rest = args.drop_first();
        assert(wf_arg(a0));
        assert forall|k: int| 0 <= k < rest.len() implies wf_arg(#[trigger] rest[k]) by {
            assert(rest[k] == args[k + 1]);
        }
        let tail = crate::text::unparse_args(rest) + seq![')'];
        assert(crate::text::unparse_args(args) == seq![' '] + crate::text::unparse_arg(a0)
            + crate::text::unparse_args(rest));
        assert(text =~= (seq![' '] + crate::text::unparse_arg(a0)) + tail);
        assert(crate::ast::is_space(' '));
        match a0 {
            SpecArg::Int(n) => {
                lemma_consume_int_arg(cfg, n, args);
            },
            SpecArg::Float(t) => {
                lemma_consume_float_arg(cfg, t, args);
            },
            SpecArg::Char(ch) => {
                let seg = seq![' ', '\'', ch, '\''];
                assert(seq![' '] + crate::text::unparse_arg(a0) =~= seg);
                let cfg2 = Config { cur_args: cfg.cur_args.push(a0), ..cfg };
                assert(ch != '\'');
                lemma_consume_char_seg(cfg, ch);
                assert(run_seq(cfg, seg) == Some(cfg2));
                lemma_run_seq_app(cfg, seg, tail);
                assert(text =~= seg + tail);
                lemma_consume_args(cfg2, rest);
                assert(cfg2.cur_args + rest =~= cfg.cur_args + args);
                assert(Config { cur_args: cfg2.cur_args + rest, ..cfg2 } =~= (Config {
                    cur_args: cfg.cur_args + args,
                    ..cfg
                }));
            },
            SpecArg::NestedExpression(e) => {
                assert(decreases_to!(args => args[0]));
                assert(decreases_to!(args[0] => e));
                let seg = seq![' '] + crate::text::unparse_expr(e);
                let cfg2 = Config {
                    cur_args: cfg.cur_args.push(a0),
                    token: Seq::<char>::empty(),
                    ..cfg
                };
                assert(step(cfg, ' ') == Some(cfg));
                reveal_with_fuel(run_seq, 2);
                assert(seg[0] == ' ');
                assert(seg.drop_first() =~= crate::text::unparse_expr(e));
                lemma_consume_expr_nested(cfg, e);
                assert(run_seq(cfg, seg) == Some(cfg2));
                lemma_run_seq_app(cfg, seg, tail);
                assert(text =~= seg + tail);
                lemma_consume_args(cfg2, rest);
                assert(cfg2.cur_args + rest =~= cfg.cur_args + args);
                assert(Config { cur_args: cfg2.cur_args + rest, ..cfg2 } =~= (Config {
                    cur_args: cfg.cur_args + args,
                    ..cfg
                }));
            },
        }
    }
}

/// The configuration between top-level forms: no open parenthesis, no
/// expression in progress.
pub open spec fn at_top(cfg: Config) -> bool {
    &&& (cfg.state == State::ExpectingExpressionStart || cfg.state == State::ExpectingArg)
    &&& cfg.cur_op is None
    &&& cfg.cur_args == Seq::<SpecArg>::empty()
    &&& cfg.depth == 0
    &&& cfg.stack == Seq::<SpecExpr>::empty()
    &&& cfg.pending is None
}

/// Consuming one top-level expression's text appends the tree to the results
/// and returns to the top level.
proof fn lemma_consume_expr_top(cfg: Config, e: SpecExpr)
    requires
        at_top(cfg),
        wf_expr(e),
    ensures
        run_seq(cfg, crate::text::unparse_expr(e)) == Some(
            Config {
                state: State::ExpectingArg,
                token: Seq::<char>::empty(),
                pending: None,
                depth: 0,
                stack: Seq::empty(),
                cur_op: None,
                cur_args: Seq::empty(),
                results: cfg.results.push(e),
            },
        ),
{
    let cfg1 = Config { state: State::ExpectingOperand, depth: 1, ..cfg };
    assert(step(cfg, '(') == Some(cfg1));
    let body = crate::text::operand_text(e.operand) + crate::text::unparse_args(e.args) + seq![
        ')',
    ];
    assert(crate::text::unparse_expr(e) =~= seq!['('] + body);
    reveal_with_fuel(run_seq, 2);
    assert(seq!['('].drop_first() =~= Seq::<char>::empty());
    assert(run_seq(cfg, seq!['(']) == Some(cfg1));
    lemma_run_seq_app(cfg, seq!['('], body);
    lemma_consume_body(cfg1, e.operand, e.args);
    let fin = Config {
        state: State::ExpectingArg,
        token: Seq::<char>::empty(),
        cur_op: Some(e.operand),
        cur_args: e.args,
        ..cfg1
    };
    assert(run_seq(cfg1, body) == close_paren(fin));
    let done = SpecExpr { operand: e.operand, args: e.args };
    assert(done =~= e);
    assert(fin.stack.len() == 0);
    assert(close_paren(fin) is Some);
    assert((close_paren(fin)->0) =~= (Config {
        state: State::ExpectingArg,
        token: Seq::<char>::empty(),
        pending: None,
        depth: 0,
        stack: Seq::empty(),
        cur_op: None,
        cur_args: Seq::empty(),
        results: cfg.results.push(e),
    }));
}

/// Consuming the text of a sequence of top-level expressions appends all the
/// trees to the results, in order.
proof fn lemma_consume_exprs_top(cfg: Config, es: Seq<SpecExpr>)
    requires
        at_top(cfg),
        wf_exprs(es),
    ensures
        run_seq(cfg, crate::text::unparse_exprs(es)) is Some,
        at_top(run_seq(cfg, crate::text::unparse_exprs(es))->0),
        (run_seq(cfg, crate::text::unparse_exprs(es))->0).depth == 0,
        (run_seq(cfg, crate::text::unparse_exprs(es))->0).results == cfg.results + es,
    decreases es.len(),
{
    if es.len() == 0 {
        assert(crate::text::unparse_exprs(es) =~= Seq::<char>::empty());
        assert(run_seq(cfg, crate::text::unparse_exprs(es)) == Some(cfg));
        assert(cfg.results + es =~= cfg.results);
    } else {
        let e0 = es[0];
        let rest = es.drop_first();
        assert(wf_expr(e0));
        assert forall|k: int| 0 <= k < rest.len() implies wf_expr(#[trigger] rest[k]) by {
            assert(rest[k] == es[k + 1]);
        }
        assert(crate::text::unparse_exprs(es) == crate::text::unparse_expr(e0)
            + crate::text::unparse_exprs(rest));
        lemma_consume_expr_top(cfg, e0);
        let mid = Config {
            state: State::ExpectingArg,
            token: Seq::<char>::empty(),
            pending: None,
            depth: 0,
            stack: Seq::empty(),
            cur_op: None,
            cur_args: Seq::empty(),
            results: cfg.results.push(e0),
        };
        lemma_run_seq_app(cfg, crate::text::unparse_expr(e0), crate::text::unparse_exprs(rest));
        lemma_consume_exprs_top(mid, rest);
        assert(mid.results + rest =~= cfg.results + es);
    }
}

/// The round-trip law: serializing any sequence of well-formed expression
/// trees to the canonical literal syntax and parsing that text yields
/// exactly the same trees.
pub proof fn lemma_round_trip(es: Seq<SpecExpr>)
    requires
        wf_exprs(es),
    ensures
        spec_parse(crate::text::unparse_exprs(es)) == Ok::<Seq<SpecExpr>, int>(es),
{
    let s = crate::text::unparse_exprs(es);
    assert(at_top(init_config()));
    lemma_consume_exprs_top(init_config(), es);
    let reached = run_seq(init_config(), s)->0;
    assert(s.subrange(0, s.len() as int) =~= s);
    lemma_run_from_seq(s, 0, s.len() as int, init_config(), reached);
    assert(Seq::<SpecExpr>::empty() + es =~= es);
}

/// Parsing is a function of the input alone: two parse outcomes for the same
/// characters agree, tree for tree on success and position for position on
/// failure.
pub proof fn lemma_parse_deterministic(
    s: Seq<char>,
    first: Result<Vec<Expression>, SyntaxError>,
    second: Result<Vec<Expression>, SyntaxError>,
)
    requires
        parse_outcome_matches(first, s),
        parse_outcome_matches(second, s),
    ensures
        match (first, second) {
            (Ok(v1), Ok(v2)) => exprs_view(v1@) == exprs_view(v2@),
            (Err(e1), Err(e2)) => e1.position == e2.position,
            _ => false,
        },
{
}

/// Two runs over equal remaining character sequences agree whenever the
/// first succeeds: the trees do not depend on where the suffix starts.
proof fn lemma_run_from_shift(s1: Seq<char>, i1: int, s2: Seq<char>, i2: int, cfg: Config)
    requires
        0 <= i1 <= s1.len(),
        0 <= i2 <= s2.len(),
        s1.skip(i1) == s2.skip(i2),
        run_from(s1, i1, cfg) is Ok,
    ensures
        run_from(s2, i2, cfg) == run_from(s1, i1, cfg),
    decreases s1.len() - i1,
{
    assert(s1.skip(i1).len() == s1.len() - i1);
    assert(s2.skip(i2).len() == s2.len() - i2);
    if i1 >= s1.len() {
        assert(i2 >= s2.len());
    } else {
        assert(i2 < s2.len());
        assert(s1.skip(i1)[0] == s1[i1]);
        assert(s2.skip(i2)[0] == s2[i2]);
        assert(s1[i1] == s2[i2]);
        match step(cfg, s1[i1]) {
            None => {},
            Some(next) => {
                assert(s1.skip(i1 + 1) =~= s1.skip(i1).drop_first());
                assert(s2.skip(i2 + 1) =~= s2.skip(i2).drop_first());
                lemma_run_from_shift(s1, i1 + 1, s2, i2 + 1, next);
            },
        }
    }
}

/// Inserting one whitespace character at any point where the reader stands
/// between tokens leaves a successful parse unchanged: the same trees come
/// back.
pub proof fn lemma_whitespace_insertion(
    s: Seq<char>,
    p: int,
    w: char,
    cfg: Config,
    es: Seq<SpecExpr>,
)
    requires
        0 <= p <= s.len(),
        is_space(w),
        run_seq(init_config(), s.take(p)) == Some(cfg),
        cfg.state == State::ExpectingExpressionStart || cfg.state == State::ExpectingOperand
            || cfg.state == State::ExpectingArg,
        spec_parse(s) == Ok::<Seq<SpecExpr>, int>(es),
    ensures
        spec_parse(s.take(p) + seq![w] + s.skip(p)) == Ok::<Seq<SpecExpr>, int>(es),
{
    let s2 = s.take(p) + seq![w] + s.skip(p);
    assert(step(cfg, w) == Some(cfg));
    assert(s.take(p) =~= s.subrange(0, p));
    lemma_run_from_seq(s, 0, p, init_config(), cfg);
    assert(s2.subrange(0, p) =~= s.take(p));
    lemma_run_from_seq(s2, 0, p, init_config(), cfg);
    assert(s2.len() == s.len() + 1);
    assert(s2[p] == w);
    assert(run_from(s2, p, cfg) == run_from(s2, p + 1, cfg));
    assert(s.skip(p) =~= s2.skip(p + 1));
    lemma_run_from_shift(s, p, s2, p + 1, cfg);
}

/// The well-formedness the machine maintains: every finished tree, every
/// argument in progress, and every stacked open expression is well formed,
/// and the token in flight has the shape its state promises.
pub open spec fn wf_cfg(cfg: Config) -> bool {
    &&& wf_exprs(cfg.results)
    &&& wf_args(cfg.cur_args)
    &&& (forall|i: int| 0 <= i < cfg.stack.len() ==> wf_args(#[trigger] cfg.stack[i].args))
    &&& (cfg.state == State::ScanningNumber ==> all_digits(cfg.token) && cfg.token.len() >= 1)
    &&& (cfg.state == State::ScanningFloat ==> is_float_token(cfg.token))
    &&& (cfg.state == State::ScanningChar && cfg.pending is Some ==> cfg.pending->0 != '\'')
}

/// Closing a parenthesis preserves well-formedness.
proof fn lemma_close_wf(cfg: Config, cfg2: Config)
    requires
        wf_cfg(cfg),
        close_paren(cfg) == Some(cfg2),
    ensures
        wf_cfg(cfg2),
{
    let done = SpecExpr { operand: cfg.cur_op->0, args: cfg.cur_args };
    assert(wf_expr(done));
    if cfg.stack.len() > 0 {
        let parent = cfg.stack.last();
        assert(wf_args(parent.args));
        assert forall|i: int| 0 <= i < cfg2.cur_args.len() implies wf_arg(
            #[trigger] cfg2.cur_args[i],
        ) by {
            if i < parent.args.len() {
                assert(cfg2.cur_args[i] == parent.args[i]);
            } else {
                assert(cfg2.cur_args[i] == SpecArg::NestedExpression(done));
            }
        }
        assert forall|i: int| 0 <= i < cfg2.stack.len() implies wf_args(
            #[trigger] cfg2.stack[i].args,
        ) by {
            assert(cfg2.stack[i] == cfg.stack[i]);
        }
    } else {
        assert forall|i: int| 0 <= i < cfg2.results.len() implies wf_expr(
            #[trigger] cfg2.results[i],
        ) by {
            if i < cfg.results.len() {
                assert(cfg2.results[i] == cfg.results[i]);
            } else {
                assert(cfg2.results[i] == done);
            }
        }
    }
}

/// Completing a character literal preserves well-formedness.
proof fn lemma_char_close_wf(cfg: Config, cfg2: Config, ch: char, c: char)
    requires
        wf_cfg(cfg),
        cfg.state == State::ScanningChar,
        cfg.pending == Some(ch),
        c == '\'',
        crate::machine::step_scanning_char(cfg, c) == Some(cfg2),
    ensures
        wf_cfg(cfg2),
{
    crate::ast::lemma_wf_arg_char(ch);
    assert(cfg2.cur_args == cfg.cur_args.push(SpecArg::Char(ch)));
    assert forall|i: int| 0 <= i < cfg2.cur_args.len() implies wf_arg(
        #[trigger] cfg2.cur_args[i],
    ) by {
        if i < cfg.cur_args.len() {
            assert(cfg2.cur_args[i] == cfg.cur_args[i]);
        } else {
            assert(cfg2.cur_args[i] == SpecArg::Char(ch));
        }
    }
}

/// One machine step from `ScanningChar` preserves well-formedness.
proof fn lemma_step_wf_char(cfg: Config, c: char, cfg2: Config)
    requires
        cfg.state == State::ScanningChar,
        wf_cfg(cfg),
        step(cfg, c) == Some(cfg2),
    ensures
        wf_cfg(cfg2),
{
    assert(step(cfg, c) == crate::machine::step_scanning_char(cfg, c));
    if c == '\'' {
        match cfg.pending {
            Some(ch) => {
                lemma_char_close_wf(cfg, cfg2, ch, c);
            },
            None => {},
        }
    }
}

/// One machine step preserves well-formedness.
proof fn lemma_step_wf(cfg: Config, c: char, cfg2: Config)
    requires
        wf_cfg(cfg),
        step(cfg, c) == Some(cfg2),
    ensures
        wf_cfg(cfg2),
{
    match cfg.state {
        State::ExpectingExpressionStart => {},
        State::ExpectingOperand => {},
        State::ScanningOperand => {
            if !crate::ast::is_operand_continue(c) && (is_space(c) || c == ')') {
                let finished = Config {
                    state: State::ExpectingArg,
                    token: Seq::<char>::empty(),
                    cur_op: operand_of(cfg.token),
                    ..cfg
                };
                if c == ')' {
                    assert(wf_cfg(finished));
                    lemma_close_wf(finished, cfg2);
                }
            }
        },
        State::ScanningNumber => {
            if is_digit(c) {
                crate::ast::lemma_all_digits_push(cfg.token, c);
            } else if c == '.' {
                let t2 = cfg.token.push('.');
                let k = cfg.token.len() as int;
                assert(t2[k] == '.');
                assert forall|i: int| 0 <= i < t2.len() && i != k implies is_digit(
                    #[trigger] t2[i],
                ) by {
                    assert(t2[i] == cfg.token[i]);
                }
                assert(is_float_token(t2));
            } else if is_space(c) || c == ')' {
                lemma_digits_value_nonneg(cfg.token);
                let v = digits_value(cfg.token);
                let finished = Config {
                    state: State::ExpectingArg,
                    token: Seq::<char>::empty(),
                    cur_args: cfg.cur_args.push(SpecArg::Int(v)),
                    ..cfg
                };
                crate::ast::lemma_wf_arg_int(v);
                assert(wf_arg(SpecArg::Int(v)));
                assert forall|i: int| 0 <= i < finished.cur_args.len() implies wf_arg(
                    #[trigger] finished.cur_args[i],
                ) by {
                    if i < cfg.cur_args.len() {
                        assert(finished.cur_args[i] == cfg.cur_args[i]);
                    } else {
                        assert(finished.cur_args[i] == SpecArg::Int(v));
                    }
                }
                assert(wf_cfg(finished));
                if c == ')' {
                    lemma_close_wf(finished, cfg2);
                }
            }
        },
        State::ScanningFloat => {
            if is_digit(c) {
                let t2 = cfg.token.push(c);
                let k = choose|k: int|
                    1 <= k < cfg.token.len() && cfg.token[k] == '.' && (forall|i: int|
                        0 <= i < cfg.token.len() && i != k ==> is_digit(#[trigger] cfg.token[i]));
                assert(t2[k] == '.');
                assert forall|i: int| 0 <= i < t2.len() && i != k implies is_digit(
                    #[trigger] t2[i],
                ) by {
                    if i < cfg.token.len() {
                        assert(t2[i] == cfg.token[i]);
                    } else {
                        assert(t2[i] == c);
                    }
                }
                assert(is_float_token(t2));
            } else if is_space(c) || c == ')' {
                let finished = Config {
                    state: State::ExpectingArg,
                    token: Seq::<char>::empty(),
                    cur_args: cfg.cur_args.push(SpecArg::Float(cfg.token)),
                    ..cfg
                };
                crate::ast::lemma_wf_arg_float(cfg.token);
                assert(wf_arg(SpecArg::Float(cfg.token)));
                assert forall|i: int| 0 <= i < finished.cur_args.len() implies wf_arg(
                    #[trigger] finished.cur_args[i],
                ) by {
                    if i < cfg.cur_args.len() {
                        assert(finished.cur_args[i] == cfg.cur_args[i]);
                    } else {
                        assert(finished.cur_args[i] == SpecArg::Float(cfg.token));
                    }
                }
                assert(wf_cfg(finished));
                if c == ')' {
                    lemma_close_wf(finished, cfg2);
                }
            }
        },
        State::ScanningChar => {
            lemma_step_wf_char(cfg, c, cfg2);
        },
        State::ExpectingArg => {
            if c == '(' {
                if cfg.cur_op is Some {
                    let parent = SpecExpr { operand: cfg.cur_op->0, args: cfg.cur_args };
                    assert forall|i: int| 0 <= i < cfg2.stack.len() implies wf_args(
                        #[trigger] cfg2.stack[i].args,
                    ) by {
                        if i < cfg.stack.len() {
                            assert(cfg2.stack[i] == cfg.stack[i]);
                        } else {
                            assert(cfg2.stack[i] == parent);
                        }
                    }
                }
            } else if c == ')' {
                lemma_close_wf(cfg, cfg2);
            }
        },
    }
}

/// Every run that succeeds from a well-formed configuration yields
/// well-formed trees.
proof fn lemma_run_from_wf(s: Seq<char>, i: int, cfg: Config, es: Seq<SpecExpr>)
    requires
        wf_cfg(cfg),
        run_from(s, i, cfg) == Ok::<Seq<SpecExpr>, int>(es),
    ensures
        wf_exprs(es),
    decreases s.len() - i,
{
    if i < 0 || i >= s.len() {
    } else {
        match step(cfg, s[i]) {
            None => {},
            Some(next) => {
                lemma_step_wf(cfg, s[i], next);
                lemma_run_from_wf(s, i + 1, next, es);
            },
        }
    }
}

/// Every successfully parsed tree is well formed: its integers are
/// non-negative and fit, its float tokens have the scanned shape, its
/// characters are not the quote, recursively.
pub proof fn lemma_parse_wf(s: Seq<char>, es: Seq<SpecExpr>)
    requires
        spec_parse(s) == Ok::<Seq<SpecExpr>, int>(es),
    ensures
        wf_exprs(es),
{
    lemma_run_from_wf(s, 0, init_config(), es);
}

/// The full round trip: any successfully parsed tree sequence, re-serialized
/// to the canonical literal syntax, parses back to the same trees.
pub proof fn lemma_parse_round_trip(s: Seq<char>, es: Seq<SpecExpr>)
    requires
        spec_parse(s) == Ok::<Seq<SpecExpr>, int>(es),
    ensures
        spec_parse(crate::text::unparse_exprs(es)) == Ok::<Seq<SpecExpr>, int>(es),
{
    lemma_parse_wf(s, es);
    lemma_round_trip(es);
}

/// Whether this character would make the machine close a parenthesis: it is
/// `)` and the state lets the token in flight finish.
pub open spec fn closes_paren(cfg: Config, c: char) -> bool {
    c == ')' && match cfg.state {
        State::ExpectingArg => true,
        State::ScanningOperand => operand_of(cfg.token) is Some,
        State::ScanningNumber => digits_value(cfg.token) <= i32::MAX,
        State::ScanningFloat => true,
        _ => false,
    }
}

/// The unmatched-close law: whenever the scan reaches a `)` that closes a
/// parenthesis while the open-parenthesis count is zero, the parse fails at
/// exactly that index.  Since the whole parse has a single outcome, at most
/// one such index is ever reached, and a successful parse reaches none.
pub proof fn lemma_unmatched_close(s: Seq<char>, i: int, cfg: Config)
    requires
        0 <= i < s.len(),
        run_seq(init_config(), s.take(i)) == Some(cfg),
        closes_paren(cfg, s[i]),
        cfg.depth == 0,
    ensures
        spec_parse(s) == Err::<Seq<SpecExpr>, int>(i),
{
    assert(s.take(i) =~= s.subrange(0, i));
    lemma_run_from_seq(s, 0, i, init_config(), cfg);
    assert(step(cfg, s[i]) is None);
}

/// End of input with an open parenthesis still unmatched is a fatal error
/// at the index just past the last character.
pub proof fn lemma_unclosed_at_end(s: Seq<char>, cfg: Config)
    requires
        run_seq(init_config(), s) == Some(cfg),
        cfg.depth > 0,
    ensures
        spec_parse(s) == Err::<Seq<SpecExpr>, int>(s.len() as int),
{
    assert(s.subrange(0, s.len() as int) =~= s);
    lemma_run_from_seq(s, 0, s.len() as int, init_config(), cfg);
}

/// A failure reported by the run from index `j` lies at or past `j`.
proof fn lemma_run_from_err_position(s: Seq<char>, j: int, cfg: Config)
    requires
        0 <= j <= s.len(),
    ensures
        match run_from(s, j, cfg) {
            Ok(_) => true,
            Err(p) => p >= j,
        },
    decreases s.len() - j,
{
    if j < s.len() {
        match step(cfg, s[j]) {
            None => {},
            Some(next) => {
                lemma_run_from_err_position(s, j + 1, next);
            },
        }
    }
}

/// The scan reaches at most one closing parenthesis at depth zero: the first
/// one is fatal, so the count of unmatched-close errors equals the count of
/// reached depth-zero closes, which is zero or one.
pub proof fn lemma_at_most_one_unmatched_close(
    s: Seq<char>,
    i: int,
    cfg_i: Config,
    j: int,
    cfg_j: Config,
)
    requires
        0 <= i < s.len(),
        0 <= j < s.len(),
        run_seq(init_config(), s.take(i)) == Some(cfg_i),
        closes_paren(cfg_i, s[i]),
        cfg_i.depth == 0,
        run_seq(init_config(), s.take(j)) == Some(cfg_j),
        closes_paren(cfg_j, s[j]),
        cfg_j.depth == 0,
    ensures
        i == j,
{
    if i < j {
        lemma_unmatched_close(s, i, cfg_i);
        assert(s.take(j) =~= s.subrange(0, j));
        lemma_run_from_seq(s, 0, j, init_config(), cfg_j);
        lemma_run_from_err_position(s, j, cfg_j);
    } else if j < i {
        lemma_unmatched_close(s, j, cfg_j);
        assert(s.take(i) =~= s.subrange(0, i));
        lemma_run_from_seq(s, 0, i, init_config(), cfg_i);
        lemma_run_from_err_position(s, i, cfg_i);
    }
}

/// On a successful parse no closing parenthesis is ever reached at depth
/// zero.
pub proof fn lemma_no_unmatched_close_on_success(s: Seq<char>, i: int, cfg: Config, es: Seq<SpecExpr>)
    requires
        0 <= i < s.len(),
        run_seq(init_config(), s.take(i)) == Some(cfg),
        closes_paren(cfg, s[i]),
        spec_parse(s) == Ok::<Seq<SpecExpr>, int>(es),
    ensures
        cfg.depth > 0,
{
    if cfg.depth == 0 {
        lemma_unmatched_close(s, i, cfg);
    }
}

} // verus!
