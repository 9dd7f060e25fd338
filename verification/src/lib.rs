//! A lexical scanner for a small Lox-style scripting language.
//!
//! The scanner turns a buffer of source bytes into the ordered sequence of
//! its tokens, ending in `Eof`, or reports the first lexical error.

use crate::grammar::scan_result;
use crate::scanner::Scanner;
use crate::token::{token_views, Token, TokenType, TokenView};
use vstd::prelude::*;

pub mod grammar;
pub mod laws;
pub mod scanner;
pub mod text;
pub mod token;

verus! {

/// The ways in which scanning can fail.
#[derive(Debug, Clone, Copy, PartialEq, Eq, Structural)]
pub enum ErrorKind {
    /// A `"` was opened and the input ended before it was closed.
    UnterminatedString,
    /// A byte that no lexical rule accepts.
    UnknownCharacter,
    /// The bytes of a word are not well-formed UTF-8. No scan ends in this
    /// error: the bytes of a word are ASCII.
    InvalidText,
}

/// A lexical error and the line on which it was detected.
#[derive(Debug, Clone, Copy, PartialEq, Eq, Structural)]
pub struct TaalError {
    pub kind: ErrorKind,
    pub line: usize,
}

impl TaalError {
    /// The error in words.
    pub fn message(&self) -> (message: &'static str)
        ensures
            message@ == (match self.kind {
                ErrorKind::UnterminatedString => "Unterminated string"@,
                ErrorKind::UnknownCharacter => "Literal unknown"@,
                ErrorKind::InvalidText => "Could not convert source keyword/identifier to Utf8"@,
            }),
    {
        match self.kind {
            ErrorKind::UnterminatedString => "Unterminated string",
            ErrorKind::UnknownCharacter => "Literal unknown",
            ErrorKind::InvalidText => "Could not convert source keyword/identifier to Utf8",
        }
    }
}

/// Whether `result` is what scanning `source` returns.
pub open spec fn is_scan_of(source: Seq<u8>, result: Result<Vec<Token>, TaalError>) -> bool {
    match result {
        Ok(tokens) => scan_result(source) == Ok::<Seq<TokenView>, TaalError>(
            token_views(tokens@),
        ),
        Err(error) => scan_result(source) == Err::<Seq<TokenView>, TaalError>(error),
    }
}

/// Scans `source` from its first byte to its last: all its tokens, ending in
/// `Eof`, or the first lexical error.
pub fn run(source: Vec<u8>) -> (result: Result<Vec<Token>, TaalError>)
    requires
        source.len() < usize::MAX,
    ensures
        is_scan_of(source@, result),
        result matches Err(error) ==> error.kind != ErrorKind::InvalidText,
        result matches Ok(tokens) ==> ({
            &&& tokens.len() > 0
            &&& tokens@.last()@.token_type == TokenType::Eof
            &&& forall|i: int|
                0 <= i < tokens.len() - 1 ==> (#[trigger] tokens[i])@.token_type != TokenType::Eof
        }),
{
    let mut scanner = Scanner::new(source);
    scanner.scan_tokens()?;
    let tokens = scanner.into_tokens();
    proof {
        assert forall|i: int| 0 <= i < tokens.len() implies (#[trigger] tokens[i])@ == token_views(
            tokens@,
        )[i] by {}
    }
    Ok(tokens)
}

} // verus!
