//! A scanner, parser and tree-walking evaluator for a small dynamically typed
//! scripting language.
use vstd::prelude::*;

use crate::expression::failure;
use crate::number::{decimal, push_decimal};
use crate::lexer::{lex, scan_tokens};
use crate::parser::{program_at, Parser};
use crate::statement::{execute_all, run_trees, texts};

pub mod expression;
pub mod lexer;
pub mod number;
pub mod parser;
pub mod rescan;
pub mod statement;
pub mod token;

verus! {

/// What went wrong while scanning, parsing or evaluating a program.
#[derive(Debug, PartialEq, Clone)]
pub enum Diagnostic {
    /// A failure while scanning or evaluating, with the line it happened on.
    LoxError { line: usize, message: String },
    /// A failure while parsing, with the line of the offending token.
    ParseError { line: usize, message: String },
}

/// The report of a diagnostic: `[line <N>] Error: <message>`.
pub open spec fn report_text(d: Diagnostic) -> Seq<char> {
    "[line "@ + decimal(failure(d).0) + "] Error: "@ + failure(d).1
}

impl Diagnostic {
    /// The report of the diagnostic (see [`report_text`]).
    pub fn to_text(&self) -> (r: String)
        ensures
            r@ == report_text(*self),
    {
        let (line, message) = match self {
            Diagnostic::LoxError { line, message } => (*line, message),
            Diagnostic::ParseError { line, message } => (*line, message),
        };
        let mut r = String::from_str("[line ");
        push_decimal(&mut r, line as u128);
        r.append("] Error: ");
        r.append(message.as_str());
        r
    }
}

/// Scans, parses and executes a program, appending what its print
/// statements write to `out`, one line each. A scan or parse error stops it
/// before anything runs; an evaluation error stops it at the statement that
/// fails, after the lines of the statements before.
pub fn run(source: &str, out: &mut Vec<String>) -> (r: Result<(), Diagnostic>)
    requires
        source@.len() < usize::MAX,
    ensures
        match lex(source@, 0, 1) {
            Err(e) => r matches Err(d) && d is LoxError && failure(d) == e && final(out)@ == old(out)@,
            Ok(ts) => match program_at(ts, 0) {
                Err(e) => r matches Err(d) && d is ParseError && failure(d) == e && final(out)@
                    == old(out)@,
                Ok(trees) => texts(final(out)@) == texts(old(out)@) + run_trees(trees).0 && match run_trees(
                    trees,
                ).1 {
                    None => r is Ok,
                    Some(e) => r matches Err(d) && d is LoxError && failure(d) == e,
                },
            },
        },
{
    let tokens = scan_tokens(source)?;
    let mut parser = Parser::new(tokens.as_slice());
    let stmts = parser.parse()?;
    execute_all(&stmts, out)
}

} // verus!
