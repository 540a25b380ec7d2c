//! A reader for a minimal Lisp-like expression language.
//!
//! The library turns a character sequence such as `(+ 1 (abs 2))` into a
//! sequence of [`ast::Expression`] trees, or reports the zero-based character
//! index at which the text was first rejected.  Scanning and parsing happen in
//! a single left-to-right pass driven by an explicit state machine with an
//! explicit stack of open expressions; the machine itself is stated as a
//! mathematical transition function in [`machine`], and the executable reader
//! in [`parser`] is proved to follow it exactly.

pub mod ast;
pub mod laws;
pub mod machine;
pub mod parser;
pub mod scanner;
pub mod text;
