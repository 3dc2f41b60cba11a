//! A front end for a small declarative configuration language: a lexer and a
//! recursive-descent parser that turn source text into a syntax tree whose
//! nodes carry byte-offset spans.

use vstd::prelude::*;

pub mod span;
pub mod token;
pub mod lexer;
pub mod parser;

use crate::span::Span;
use crate::parser::{parse, parse_source, error_message, error_span, ErrorModel};

verus! {

/// Why a configuration source was rejected.
#[derive(Debug)]
pub enum Error {
    Parse(parser::Error),
}

impl View for Error {
    type V = ErrorModel;

    open spec fn view(&self) -> ErrorModel {
        match self {
            Error::Parse(e) => e@,
        }
    }
}

impl Error {
    /// The message and the source span by which the error is reported.
    pub fn into_msg_and_span(self) -> (r: (String, Span))
        ensures
            r.0@ == error_message(self@),
            r.1 == error_span(self@),
    {
        match self {
            Error::Parse(e) => e.into_msg_and_span(),
        }
    }
}

/// Checks a configuration source: it succeeds exactly where the source parses,
/// and otherwise carries the parser's first error. Evaluating the tree is not
/// part of this library.
pub fn evaluate(input: &str) -> (r: Result<(), Error>)
    ensures
        r is Ok <==> parse_source(input@) is Ok,
        r matches Err(e) ==> parse_source(input@) == Err::<parser::ExprModel, ErrorModel>(e@),
{
    match parse(input) {
        Ok(_) => Ok(()),
        Err(e) => Err(Error::Parse(e)),
    }
}

} // verus!
