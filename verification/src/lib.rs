//! JSON validation in two passes: a lexer that turns text into tokens and a
//! parser that turns tokens into a syntax tree.
//!
//! [`process_str`] runs both passes on a text and tells whether it is a JSON
//! document. The passes are [`tokenizer::tokenize`] and [`parser::parse`].
//!
//! What each pass returns is defined by spec functions on sequences of
//! characters and of tokens, and the executable code is verified against
//! them:
//!
//! - [`chars`] and [`number`] hold the character classes and the number
//!   grammar;
//! - [`tokenizer`] and [`parser`] hold the two passes;
//! - [`grammar`], [`notation`], [`document`] and [`faults`] state what the
//!   passes accept and reject, as theorems about those spec functions.
//!
//! A number is kept as its lexeme, which the lexer has checked against the
//! number grammar; its numeric value is not computed here.

use crate::parser::{parse, parse_document, ParseError, ParseErrorKind, TokenCursor};
use crate::tokenizer::{lex_all, tokenize, TokenError};
use vstd::prelude::*;

pub mod chars;
pub mod document;
pub mod faults;
pub mod grammar;
pub mod notation;
pub mod number;
pub mod parser;
pub mod text;
pub mod tokenizer;

verus! {

/// Why a text is no JSON document.
#[derive(Debug, Clone, PartialEq, Eq)]
pub enum JsonError {
    /// The text holds something that is no token.
    Token(TokenError),
    /// The tokens do not form a value.
    Parse(ParseError),
}

impl JsonError {
    /// The text under which the error is reported.
    pub open spec fn description(&self) -> Seq<char> {
        match self {
            JsonError::Token(e) => e.description(),
            JsonError::Parse(e) => e.description(),
        }
    }

    /// Renders the error for a reader.
    pub fn to_string(&self) -> (s: String)
        ensures
            s@ == self.description(),
    {
        match self {
            JsonError::Token(e) => e.to_string(),
            JsonError::Parse(e) => e.to_string(),
        }
    }
}

/// The first defect of a text, as the two passes find it.
pub enum Defect {
    /// A lexical error at position `at`.
    Lexical { at: int },
    /// A structural error of the given kind.
    Malformed { kind: ParseErrorKind },
}

/// What the two passes make of `text`. A JSON document is a text that is
/// accepted: all of it must consist of tokens, and the tokens, if there are
/// any, must start with a value. A text without tokens is accepted, and so
/// are tokens after the first value.
pub open spec fn validate(text: Seq<char>) -> Result<(), Defect> {
    match lex_all(text, 0) {
        Err(at) => Err(Defect::Lexical { at }),
        Ok(tokens) => match parse_document(tokens, 0) {
            Ok(_) => Ok(()),
            Err(rejected) => Err(Defect::Malformed { kind: rejected.kind }),
        },
    }
}

/// Checks that `contents` is a JSON document.
pub fn process_str(contents: &str) -> (r: Result<(), JsonError>)
    ensures
        match validate(contents@) {
            Ok(_) => r is Ok,
            Err(Defect::Lexical { at }) => r matches Err(JsonError::Token(e)) && e.start_pos == at,
            Err(Defect::Malformed { kind }) => r matches Err(JsonError::Parse(e)) && e.msg@
                == kind.message(),
        },
{
    let tokens = match tokenize(contents) {
        Ok(tokens) => tokens,
        Err(e) => {
            return Err(JsonError::Token(e));
        },
    };
    let mut cursor = TokenCursor::new(tokens.as_slice());
    match parse(&mut cursor) {
        Ok(_) => Ok(()),
        Err(e) => Err(JsonError::Parse(e)),
    }
}

} // verus!
