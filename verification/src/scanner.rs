//! The scanner entry point: scanning and parsing are one pass in this
//! library, so scanning a text is reading it.

use vstd::prelude::*;

use crate::ast::Expression;
use crate::ast::SyntaxError;
use crate::parser::parse;
use crate::parser::parse_outcome_matches;

verus! {

/// Scans `input` and builds its expression trees: the same single-pass
/// reader as [`parse`], under the scanner's entry name.
pub fn scan(input: String) -> (res: Result<Vec<Expression>, SyntaxError>)
    ensures
        parse_outcome_matches(res, input@),
{
    parse(input)
}

} // verus!
