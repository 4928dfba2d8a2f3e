//! The shared positioned error carrier and the compilation environment.
//!
//! Every stage reports failure through `Error`: a source position and a
//! human-readable message.

use crate::lexer::Token;
use vstd::prelude::*;

verus! {

#[derive(Debug)]
pub struct Error {
    line: usize,
    line_pos: usize,
    message: String,
}

/// Mathematical image of an `Error`.
#[verifier::ext_equal]
pub ghost struct ErrorModel {
    pub line: nat,
    pub line_pos: nat,
    pub message: Seq<char>,
}

impl View for Error {
    type V = ErrorModel;

    closed spec fn view(&self) -> ErrorModel {
        ErrorModel {
            line: self.line as nat,
            line_pos: self.line_pos as nat,
            message: self.message@,
        }
    }
}

/// The message reported for a list whose delimiters do not match up.
pub open spec fn msg_unclosed_list() -> Seq<char> {
    "Unclosed list!"@
}

/// The message reported when closing parentheses outnumber opening ones.
pub open spec fn msg_too_many_rparens() -> Seq<char> {
    "Too many right parenthesis!"@
}

impl Error {
    pub fn new(line: usize, line_pos: usize, message: String) -> (e: Self)
        ensures
            e@ == (ErrorModel {
                line: line as nat,
                line_pos: line_pos as nat,
                message: message@,
            }),
    {
        Self { line, line_pos, message }
    }

    /// An error at a token's position.
    pub(crate) fn token(token: &Token, msg: String) -> (e: Self)
        ensures
            e@ == (ErrorModel { line: token@.line, line_pos: token@.line_pos, message: msg@ }),
    {
        Self::new(token.line, token.line_pos, msg)
    }

    /// The delimiter-mismatch error at a token's position.
    pub(crate) fn unclosed_list(token: &Token) -> (e: Self)
        ensures
            e@ == (ErrorModel {
                line: token@.line,
                line_pos: token@.line_pos,
                message: msg_unclosed_list(),
            }),
    {
        Error::token(token, "Unclosed list!".to_owned())
    }

    /// The line on which the error arose.
    pub fn line(&self) -> (r: usize)
        ensures
            r as nat == self@.line,
    {
        self.line
    }

    /// The column at which the error arose.
    pub fn line_pos(&self) -> (r: usize)
        ensures
            r as nat == self@.line_pos,
    {
        self.line_pos
    }

    /// The human-readable description of the error.
    pub fn message(&self) -> (r: &String)
        ensures
            r@ == self@.message,
    {
        &self.message
    }
}

pub struct Environment {}

impl Environment {
    pub fn new() -> (e: Self) {
        Self {  }
    }
}

} // verus!
