//! A running ledger: a document of expression lines and subtotal markers is
//! parsed, a running balance is carried from line to line, and the document is
//! rendered again with every subtotal filled in and the columns aligned.
//!
//! - [`decimal`]: exact decimal numbers, computed by `rust_decimal`.
//! - [`value`]: numbers and intervals, and their arithmetic.
//! - [`line`]: expressions, and the lines of a document.
//! - [`parse`]: the grammar of a document, read from text.
//! - [`eval`]: the running balance.
//! - [`print`]: the text of a document.
//! - [`roundtrip`]: what is printed can be read again.

pub mod decimal;
pub mod eval;
pub mod line;
pub mod parse;
pub mod print;
pub mod roundtrip;
pub mod value;

use crate::eval::{evaluate, failure, settled};
use crate::parse::{document, parse_document, reports, ParseError};
use crate::print::{pretty_print, rendered};
use crate::value::EvalError;
use vstd::prelude::*;

verus! {

/// Why a text could not be turned into a settled document.
#[derive(Debug, PartialEq, Eq)]
pub enum Error {
    /// The text is no document.
    Parse(Vec<ParseError>),
    /// A value of the document could not be computed.
    Eval(EvalError),
}

/// Reads a document, runs the balance through it and renders it again.
pub fn settle(input: &str) -> (r: Result<String, Error>)
    ensures
        match document(input@) {
            Ok(lines) => match failure(lines) {
                None => r matches Ok(out) && out@ == rendered(settled(lines)),
                Some(e) => r matches Err(Error::Eval(found)) && found == e,
            },
            Err(f) => r matches Err(Error::Parse(errors)) && errors@.len() == 1 && reports(
                errors@[0],
                input@,
                f,
            ),
        },
{
    let mut lines = match parse_document(input) {
        Ok(lines) => lines,
        Err(errors) => { return Err(Error::Parse(errors)); },
    };
    match evaluate(&mut lines) {
        Ok(()) => Ok(pretty_print(lines)),
        Err(e) => Err(Error::Eval(e)),
    }
}

} // verus!
