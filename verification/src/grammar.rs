//! The lexical grammar, as mathematical functions on a sequence of bytes.
//!
//! Offsets are byte offsets. A position's line is one more than the number of
//! newline bytes before it.

use crate::token::{TokenType, TokenView};
use crate::{ErrorKind, TaalError};
use vstd::prelude::*;
use vstd::string::StringSliceAdditionalSpecFns;

verus! {

// The bytes that the grammar names.
pub const TAB: u8 = 0x09;
pub const NEWLINE: u8 = 0x0a;
pub const CARRIAGE_RETURN: u8 = 0x0d;
pub const SPACE: u8 = 0x20;
/// `!`
pub const BANG: u8 = 0x21;
/// `"`
pub const QUOTE: u8 = 0x22;
/// `(`
pub const LEFT_PAREN: u8 = 0x28;
/// `)`
pub const RIGHT_PAREN: u8 = 0x29;
/// `*`
pub const STAR: u8 = 0x2a;
/// `+`
pub const PLUS: u8 = 0x2b;
/// `,`
pub const COMMA: u8 = 0x2c;
/// `-`
pub const MINUS: u8 = 0x2d;
/// `.`
pub const DOT: u8 = 0x2e;
/// `/`
pub const SLASH: u8 = 0x2f;
/// `0`
pub const DIGIT_ZERO: u8 = 0x30;
/// `9`
pub const DIGIT_NINE: u8 = 0x39;
/// `;`
pub const SEMICOLON: u8 = 0x3b;
/// `<`
pub const LESS: u8 = 0x3c;
/// `=`
pub const EQUAL: u8 = 0x3d;
/// `>`
pub const GREATER: u8 = 0x3e;
/// `A`
pub const UPPER_A: u8 = 0x41;
/// `Z`
pub const UPPER_Z: u8 = 0x5a;
/// `_`
pub const UNDERSCORE: u8 = 0x5f;
/// `a`
pub const LOWER_A: u8 = 0x61;
/// `z`
pub const LOWER_Z: u8 = 0x7a;
/// `{`
pub const LEFT_BRACE: u8 = 0x7b;
/// `}`
pub const RIGHT_BRACE: u8 = 0x7d;

/// An ASCII decimal digit.
pub open spec fn is_digit(byte: u8) -> bool {
    DIGIT_ZERO <= byte <= DIGIT_NINE
}

/// An ASCII letter or an underscore.
pub open spec fn is_alpha(byte: u8) -> bool {
    ||| LOWER_A <= byte <= LOWER_Z
    ||| UPPER_A <= byte <= UPPER_Z
    ||| byte == UNDERSCORE
}

/// Whether `byte` stands at offset `at` of `src`.
pub open spec fn has_byte(src: Seq<u8>, at: int, byte: u8) -> bool {
    0 <= at < src.len() && src[at] == byte
}

/// The number of newline bytes among the first `upto` bytes of `src`.
pub open spec fn newlines(src: Seq<u8>, upto: int) -> nat
    decreases upto,
{
    if upto <= 0 || upto > src.len() {
        0
    } else if src[upto - 1] == NEWLINE {
        newlines(src, upto - 1) + 1
    } else {
        newlines(src, upto - 1)
    }
}

/// The 1-based line of offset `pos`.
pub open spec fn line_at(src: Seq<u8>, pos: int) -> nat {
    1 + newlines(src, pos)
}

/// The stretches of bytes that the grammar reads greedily.
pub enum Run {
    /// Decimal digits.
    Digits,
    /// Letters, digits and underscores.
    Word,
    /// Everything up to a newline.
    Line,
    /// Everything up to a double quote.
    Quoted,
}

/// Whether `byte` continues a run of the given kind.
pub open spec fn continues(run: Run, byte: u8) -> bool {
    match run {
        Run::Digits => is_digit(byte),
        Run::Word => is_alpha(byte) || is_digit(byte),
        Run::Line => byte != NEWLINE,
        Run::Quoted => byte != QUOTE,
    }
}

/// Where the longest run that starts at `from` ends: the first offset at or
/// after `from` whose byte does not continue the run, or the end of `src`.
pub open spec fn run_end(src: Seq<u8>, from: int, run: Run) -> int
    decreases src.len() - from,
{
    if 0 <= from < src.len() && continues(run, src[from]) {
        run_end(src, from + 1, run)
    } else {
        from
    }
}

/// Where a block comment whose body starts at `from` ends: just behind the
/// first `*/` at or after `from`, or at the end of `src` if there is none.
pub open spec fn block_comment_end(src: Seq<u8>, from: int) -> int
    decreases src.len() - from,
{
    if from < 0 || from >= src.len() {
        src.len() as int
    } else if src[from] == STAR && has_byte(src, from + 1, SLASH) {
        from + 2
    } else {
        block_comment_end(src, from + 1)
    }
}

/// Where the number that starts at `from` ends: behind its digits, and behind
/// a fraction if a dot and at least one more digit follow them.
pub open spec fn number_end(src: Seq<u8>, from: int) -> int {
    let whole = run_end(src, from, Run::Digits);
    if has_byte(src, whole, DOT) && 0 <= whole + 1 < src.len() && is_digit(src[whole + 1]) {
        run_end(src, whole + 1, Run::Digits)
    } else {
        whole
    }
}

/// The token of a punctuation mark that is always one byte long.
pub open spec fn punctuation(byte: u8) -> Option<TokenType> {
    if byte == LEFT_PAREN {
        Some(TokenType::LeftParen)
    } else if byte == RIGHT_PAREN {
        Some(TokenType::RightParen)
    } else if byte == LEFT_BRACE {
        Some(TokenType::LeftBrace)
    } else if byte == RIGHT_BRACE {
        Some(TokenType::RightBrace)
    } else if byte == COMMA {
        Some(TokenType::Comma)
    } else if byte == DOT {
        Some(TokenType::Dot)
    } else if byte == MINUS {
        Some(TokenType::Minus)
    } else if byte == PLUS {
        Some(TokenType::Plus)
    } else if byte == SEMICOLON {
        Some(TokenType::Semicolon)
    } else if byte == STAR {
        Some(TokenType::Star)
    } else {
        None
    }
}

/// For an operator that `=` may follow: its token alone, and its token
/// together with the `=`.
pub open spec fn operator(byte: u8) -> Option<(TokenType, TokenType)> {
    if byte == BANG {
        Some((TokenType::Bang, TokenType::BangEqual))
    } else if byte == EQUAL {
        Some((TokenType::Equal, TokenType::EqualEqual))
    } else if byte == LESS {
        Some((TokenType::Less, TokenType::LessEqual))
    } else if byte == GREATER {
        Some((TokenType::Greater, TokenType::GreaterEqual))
    } else {
        None
    }
}

/// Space, carriage return, tab or newline.
pub open spec fn is_blank(byte: u8) -> bool {
    byte == SPACE || byte == CARRIAGE_RETURN || byte == TAB || byte == NEWLINE
}

/// The keyword table: the reserved word's token, `Identifier` for any other
/// text.
pub open spec fn keyword_type(word: Seq<u8>) -> TokenType {
    if word == "and".spec_bytes() {
        TokenType::And
    } else if word == "class".spec_bytes() {
        TokenType::Class
    } else if word == "else".spec_bytes() {
        TokenType::Else
    } else if word == "false".spec_bytes() {
        TokenType::False
    } else if word == "for".spec_bytes() {
        TokenType::For
    } else if word == "fun".spec_bytes() {
        TokenType::Fun
    } else if word == "if".spec_bytes() {
        TokenType::If
    } else if word == "nil".spec_bytes() {
        TokenType::Nil
    } else if word == "or".spec_bytes() {
        TokenType::Or
    } else if word == "print".spec_bytes() {
        TokenType::Print
    } else if word == "return".spec_bytes() {
        TokenType::Return
    } else if word == "super".spec_bytes() {
        TokenType::Super
    } else if word == "this".spec_bytes() {
        TokenType::This
    } else if word == "true".spec_bytes() {
        TokenType::True
    } else if word == "var".spec_bytes() {
        TokenType::Var
    } else if word == "while".spec_bytes() {
        TokenType::While
    } else {
        TokenType::Identifier
    }
}

/// What the grammar reads at one position.
pub enum Lexeme {
    /// Bytes that give no token: blank space or a comment, up to `end`.
    Skip { end: int },
    /// A token that reaches up to `end`.
    Emit { token_type: TokenType, end: int, literal: Option<Seq<u8>> },
    /// A lexical error, found with everything before `at` read.
    Fail { kind: ErrorKind, at: int },
}

/// The lexeme that starts at `pos`.
pub open spec fn lexeme_at(src: Seq<u8>, pos: int) -> Lexeme
    recommends
        0 <= pos < src.len(),
{
    let first = src[pos];
    if let Some(token_type) = punctuation(first) {
        Lexeme::Emit { token_type, end: pos + 1, literal: None }
    } else if let Some((alone, with_equal)) = operator(first) {
        if has_byte(src, pos + 1, EQUAL) {
            Lexeme::Emit { token_type: with_equal, end: pos + 2, literal: None }
        } else {
            Lexeme::Emit { token_type: alone, end: pos + 1, literal: None }
        }
    } else if first == SLASH {
        if has_byte(src, pos + 1, SLASH) {
            Lexeme::Skip { end: run_end(src, pos + 2, Run::Line) }
        } else if has_byte(src, pos + 1, STAR) {
            Lexeme::Skip { end: block_comment_end(src, pos + 2) }
        } else {
            Lexeme::Emit { token_type: TokenType::Slash, end: pos + 1, literal: None }
        }
    } else if is_blank(first) {
        Lexeme::Skip { end: pos + 1 }
    } else if first == QUOTE {
        let close = run_end(src, pos + 1, Run::Quoted);
        if close < src.len() {
            Lexeme::Emit {
                token_type: TokenType::String,
                end: close + 1,
                literal: Some(src.subrange(pos + 1, close)),
            }
        } else {
            Lexeme::Fail { kind: ErrorKind::UnterminatedString, at: src.len() as int }
        }
    } else if is_digit(first) {
        let end = number_end(src, pos);
        Lexeme::Emit { token_type: TokenType::Number, end, literal: Some(src.subrange(pos, end)) }
    } else if is_alpha(first) {
        let end = run_end(src, pos, Run::Word);
        Lexeme::Emit { token_type: keyword_type(src.subrange(pos, end)), end, literal: None }
    } else {
        Lexeme::Fail { kind: ErrorKind::UnknownCharacter, at: pos }
    }
}

/// A run ends at or behind its start and within `src`.
pub proof fn lemma_run_end_bounds(src: Seq<u8>, from: int, run: Run)
    requires
        0 <= from <= src.len(),
    ensures
        from <= run_end(src, from, run) <= src.len(),
    decreases src.len() - from,
{
    if from < src.len() && continues(run, src[from]) {
        lemma_run_end_bounds(src, from + 1, run);
    }
}

/// Every byte of a run continues it, and the byte at its end, if there is
/// one, does not.
pub proof fn lemma_run_end_is_maximal(src: Seq<u8>, from: int, run: Run)
    requires
        0 <= from <= src.len(),
    ensures
        forall|i: int| from <= i < run_end(src, from, run) ==> continues(run, #[trigger] src[i]),
        run_end(src, from, run) < src.len() ==> !continues(run, src[run_end(src, from, run)]),
    decreases src.len() - from,
{
    if from < src.len() && continues(run, src[from]) {
        lemma_run_end_is_maximal(src, from + 1, run);
    }
}

/// At most one newline per byte.
pub proof fn lemma_newlines_bound(src: Seq<u8>, upto: int)
    requires
        0 <= upto,
    ensures
        newlines(src, upto) <= upto,
    decreases upto,
{
    if 0 < upto <= src.len() {
        lemma_newlines_bound(src, upto - 1);
    }
}

/// A block comment ends at or behind the start of its body and within `src`.
pub proof fn lemma_block_comment_end_bounds(src: Seq<u8>, from: int)
    requires
        0 <= from <= src.len(),
    ensures
        from <= block_comment_end(src, from) <= src.len(),
    decreases src.len() - from,
{
    if from < src.len() && !(src[from] == STAR && has_byte(src, from + 1, SLASH)) {
        lemma_block_comment_end_bounds(src, from + 1);
    }
}

/// Every lexeme takes at least one byte and stays within `src`; an error is
/// found at or behind the lexeme's start.
pub proof fn lemma_lexeme_bounds(src: Seq<u8>, pos: int)
    requires
        0 <= pos < src.len(),
    ensures
        (match lexeme_at(src, pos) {
            Lexeme::Skip { end } => pos < end <= src.len(),
            Lexeme::Emit { end, .. } => pos < end <= src.len(),
            Lexeme::Fail { at, .. } => pos <= at <= src.len(),
        }),
{
    lemma_run_end_bounds(src, pos + 1, Run::Quoted);
    lemma_run_end_bounds(src, pos + 1, Run::Digits);
    lemma_run_end_bounds(src, pos + 1, Run::Word);
    if has_byte(src, pos + 1, SLASH) {
        lemma_run_end_bounds(src, pos + 2, Run::Line);
    }
    if has_byte(src, pos + 1, STAR) {
        lemma_block_comment_end_bounds(src, pos + 2);
    }
    let whole = run_end(src, pos, Run::Digits);
    if is_digit(src[pos]) && has_byte(src, whole, DOT) {
        lemma_run_end_bounds(src, whole + 1, Run::Digits);
    }
}

/// The token that ends every successful scan: no bytes, no literal, the line
/// of the end of `src`.
pub open spec fn eof_token(src: Seq<u8>) -> TokenView {
    TokenView {
        token_type: TokenType::Eof,
        lexeme: Seq::empty(),
        literal: None,
        line: line_at(src, src.len() as int),
    }
}

/// The token of a lexeme that reaches from `pos` to `end`. Its line is that
/// of its end.
pub open spec fn token_at(
    src: Seq<u8>,
    pos: int,
    token_type: TokenType,
    end: int,
    literal: Option<Seq<u8>>,
) -> TokenView {
    TokenView { token_type, lexeme: src.subrange(pos, end), literal, line: line_at(src, end) }
}

/// What a scan gives: the tokens it emitted, the error that ended it, if one
/// did, and the offset up to which it read.
pub struct Scan {
    pub tokens: Seq<TokenView>,
    pub error: Option<ErrorKind>,
    pub stop: int,
}

/// The scan of `src` from offset `pos` on: lexeme by lexeme up to the first
/// error, or to the end of `src`, where `Eof` is emitted.
pub open spec fn scan_from(src: Seq<u8>, pos: int) -> Scan
    decreases src.len() - pos,
{
    if pos < 0 || pos >= src.len() {
        Scan { tokens: seq![eof_token(src)], error: None, stop: src.len() as int }
    } else {
        proof {
            lemma_lexeme_bounds(src, pos);
        }
        match lexeme_at(src, pos) {
            Lexeme::Skip { end } => scan_from(src, end),
            Lexeme::Emit { token_type, end, literal } => {
                let rest = scan_from(src, end);
                Scan {
                    tokens: seq![token_at(src, pos, token_type, end, literal)] + rest.tokens,
                    error: rest.error,
                    stop: rest.stop,
                }
            },
            Lexeme::Fail { kind, at } => Scan { tokens: Seq::empty(), error: Some(kind), stop: at },
        }
    }
}

/// The scan of the whole of `src`.
pub open spec fn scan(src: Seq<u8>) -> Scan {
    scan_from(src, 0)
}

/// What scanning `src` returns: all its tokens, or the first error with the
/// line on which it was found. Tokens read before an error are not returned.
pub open spec fn scan_result(src: Seq<u8>) -> Result<Seq<TokenView>, TaalError> {
    let whole = scan(src);
    match whole.error {
        None => Ok(whole.tokens),
        Some(kind) => Err(TaalError { kind, line: line_at(src, whole.stop) as usize }),
    }
}

} // verus!
