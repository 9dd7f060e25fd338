//! Token categories and the token record.

use vstd::prelude::*;

verus! {

/// The closed set of lexical categories.
#[derive(Debug, Clone, Copy, PartialEq, Eq, Structural)]
pub enum TokenType {
    // Single-character tokens.
    LeftParen,
    RightParen,
    LeftBrace,
    RightBrace,
    Comma,
    Dot,
    Minus,
    Plus,
    Semicolon,
    Slash,
    Star,
    // One or two character tokens.
    Bang,
    BangEqual,
    Equal,
    EqualEqual,
    Greater,
    GreaterEqual,
    Less,
    LessEqual,
    // Literals.
    Identifier,
    String,
    Number,
    // Keywords.
    And,
    Class,
    Else,
    False,
    Fun,
    For,
    If,
    Nil,
    Or,
    Print,
    Return,
    Super,
    This,
    True,
    Var,
    While,
    Eof,
}

/// What a token is, as mathematical values.
pub struct TokenView {
    pub token_type: TokenType,
    /// The source bytes the token was read from.
    pub lexeme: Seq<u8>,
    /// The literal's source text, for `String` and `Number` tokens.
    pub literal: Option<Seq<u8>>,
    pub line: nat,
}

/// One token: its category, the bytes it was read from, the text of its
/// literal if it has one, and a line number. A token never changes once made.
#[derive(Debug, Clone, PartialEq, Eq)]
pub struct Token {
    token_type: TokenType,
    lexeme: Vec<u8>,
    literal: Option<Vec<u8>>,
    line: usize,
}

impl View for Token {
    type V = TokenView;

    closed spec fn view(&self) -> TokenView {
        TokenView {
            token_type: self.token_type,
            lexeme: self.lexeme@,
            literal: match self.literal {
                Some(text) => Some(text@),
                None => None,
            },
            line: self.line as nat,
        }
    }
}

impl Token {
    pub fn new(token_type: TokenType, lexeme: Vec<u8>, literal: Option<Vec<u8>>, line: usize) -> (token: Self)
        ensures
            token@ == (TokenView {
                token_type,
                lexeme: lexeme@,
                literal: match literal {
                    Some(text) => Some(text@),
                    None => None,
                },
                line: line as nat,
            }),
    {
        Self { token_type, lexeme, literal, line }
    }

    pub fn token_type(&self) -> (token_type: TokenType)
        ensures
            token_type == self@.token_type,
    {
        self.token_type
    }

    pub fn lexeme(&self) -> (lexeme: &Vec<u8>)
        ensures
            lexeme@ == self@.lexeme,
    {
        &self.lexeme
    }

    pub fn literal(&self) -> (literal: &Option<Vec<u8>>)
        ensures
            literal is Some == self@.literal is Some,
            literal matches Some(text) ==> self@.literal == Some(text@),
    {
        &self.literal
    }

    pub fn line(&self) -> (line: usize)
        ensures
            line == self@.line,
    {
        self.line
    }
}

/// The views of a sequence of tokens, in order.
pub open spec fn token_views(tokens: Seq<Token>) -> Seq<TokenView> {
    Seq::new(tokens.len(), |i: int| tokens[i]@)
}

} // verus!
