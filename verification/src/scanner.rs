//! The scanner: a source buffer, a cursor over it, and the tokens read so far.

use crate::grammar::{
    block_comment_end, continues, has_byte, is_alpha, is_digit, keyword_type,
    lemma_block_comment_end_bounds, lemma_lexeme_bounds, lemma_newlines_bound,
    lemma_run_end_bounds, lemma_run_end_is_maximal, lexeme_at, line_at, number_end, run_end,
    scan_from, token_at, Lexeme, Run, BANG, CARRIAGE_RETURN, COMMA, DIGIT_NINE, DIGIT_ZERO, DOT,
    EQUAL, GREATER, LEFT_BRACE, LEFT_PAREN, LESS, LOWER_A, LOWER_Z, MINUS, NEWLINE, PLUS, QUOTE,
    RIGHT_BRACE, RIGHT_PAREN, SEMICOLON, SLASH, SPACE, STAR, TAB, UNDERSCORE, UPPER_A, UPPER_Z,
};
use crate::laws::{
    lemma_eof_is_last_and_only, lemma_scan_fails_in_two_ways, lemma_scan_stops_within_source,
};
use crate::text::same_bytes;
use crate::token::{token_views, Token, TokenType, TokenView};
use crate::{ErrorKind, TaalError};
use vstd::prelude::*;
use vstd::slice::{slice_subrange, slice_to_vec};
use vstd::utf8::{is_leading_byte_width_1, partial_valid_utf8_extend_ascii_block, valid_utf8};

verus! {

/// Tells the bytes that may start an identifier from the others.
trait MyAlpha {
    fn is_alpha(&self) -> bool;
}

impl MyAlpha for u8 {
    fn is_alpha(&self) -> (alpha: bool)
        ensures
            alpha == is_alpha(*self),
    {
        if *self == UNDERSCORE || (LOWER_A <= *self && *self <= LOWER_Z) || (UPPER_A <= *self
            && *self <= UPPER_Z) {
            return true;
        }
        false
    }
}

fn is_ascii_digit(byte: u8) -> (digit: bool)
    ensures
        digit == is_digit(byte),
{
    DIGIT_ZERO <= byte && byte <= DIGIT_NINE
}

/// A scanner as mathematical values.
pub struct ScannerView {
    /// The source bytes; they never change.
    pub source: Seq<u8>,
    /// The tokens emitted so far, in order.
    pub tokens: Seq<TokenView>,
    /// The offset of the next byte to read.
    pub position: int,
    /// The line counter.
    pub line: nat,
}

/// Owns the source bytes and the cursor over them, and collects the tokens.
#[derive(Debug)]
pub struct Scanner {
    source: Vec<u8>,
    tokens: Vec<Token>,
    line: usize,
    start_of_lexeme: usize,
    current: usize,
}

impl View for Scanner {
    type V = ScannerView;

    closed spec fn view(&self) -> ScannerView {
        ScannerView {
            source: self.source@,
            tokens: token_views(self.tokens@),
            position: self.current as int,
            line: self.line as nat,
        }
    }
}

impl Scanner {
    /// The cursor lies within the source, at or behind the start of its
    /// lexeme.
    pub closed spec fn cursor_ok(&self) -> bool {
        &&& self.source.len() < usize::MAX
        &&& self.start_of_lexeme <= self.current <= self.source.len()
    }

    /// The scanner's invariant: the cursor lies within the source, and the
    /// line counter is one more than the number of newline bytes read.
    pub open spec fn wf(&self) -> bool {
        &&& self.cursor_ok()
        &&& 0 <= self@.position <= self@.source.len()
        &&& self@.line == line_at(self@.source, self@.position)
    }

    /// A scanner at the start of `source`, on line 1, with no tokens yet.
    pub fn new(source: Vec<u8>) -> (scanner: Self)
        requires
            source.len() < usize::MAX,
        ensures
            scanner.wf(),
            scanner@ == (ScannerView {
                source: source@,
                tokens: Seq::empty(),
                position: 0,
                line: 1,
            }),
    {
        let scanner = Self { source, tokens: Vec::new(), line: 1, start_of_lexeme: 0, current: 0 };
        assert(token_views(scanner.tokens@) =~= Seq::empty());
        scanner
    }

    /// Moves the cursor forward by one byte.
    fn advance(&mut self)
        requires
            old(self).current < old(self).source.len(),
        ensures
            *final(self) == (Scanner { current: (old(self).current + 1) as usize, ..*old(self) }),
    {
        self.current += 1;
    }

    /// Whether every byte has been read.
    pub fn at_end(&self) -> (end: bool)
        ensures
            end == (self@.position >= self@.source.len()),
    {
        self.current >= self.source.len()
    }

    /// Whether the offset `index` bytes ahead of the cursor lies outside the
    /// source.
    pub fn peek_is_end(&self, index: usize) -> (end: bool)
        ensures
            end == (self@.position + index >= self@.source.len()),
    {
        self.source.len() <= index || self.source.len() - index <= self.current
    }

    /// The byte `index` bytes ahead of the cursor, or 0 where that offset lies
    /// outside the source: looking ahead never reads beyond the end.
    pub fn peek(&self, index: usize) -> (byte: u8)
        ensures
            byte == (if self@.position + index < self@.source.len() {
                self@.source[self@.position + index]
            } else {
                0
            }),
    {
        if self.peek_is_end(index) {
            return 0;
        }
        assert(self.current + index < self.source.len());
        self.source[self.current + index]
    }

    /// The bytes read for the current lexeme.
    fn lexeme(&self) -> (lexeme: Vec<u8>)
        requires
            self.cursor_ok(),
        ensures
            lexeme@ == self.source@.subrange(self.start_of_lexeme as int, self.current as int),
    {
        slice_to_vec(slice_subrange(self.source.as_slice(), self.start_of_lexeme, self.current))
    }

    fn add_token_with_literal(&mut self, token_type: TokenType, text: Vec<u8>)
        requires
            old(self).wf(),
        ensures
            *final(self) == (Scanner { tokens: final(self).tokens, ..*old(self) }),
            final(self)@.tokens == old(self)@.tokens.push(
                token_at(
                    old(self).source@,
                    old(self).start_of_lexeme as int,
                    token_type,
                    old(self).current as int,
                    Some(text@),
                ),
            ),
    {
        let ghost before = self.tokens@;
        let token = Token::new(token_type, self.lexeme(), Some(text), self.line);
        self.tokens.push(token);
        assert(token_views(self.tokens@) =~= token_views(before).push(token@));
    }

    fn add_token(&mut self, token_type: TokenType)
        requires
            old(self).wf(),
        ensures
            *final(self) == (Scanner { tokens: final(self).tokens, ..*old(self) }),
            final(self)@.tokens == old(self)@.tokens.push(
                token_at(
                    old(self).source@,
                    old(self).start_of_lexeme as int,
                    token_type,
                    old(self).current as int,
                    None,
                ),
            ),
    {
        let ghost before = self.tokens@;
        let token = Token::new(token_type, self.lexeme(), None, self.line);
        self.tokens.push(token);
        assert(token_views(self.tokens@) =~= token_views(before).push(token@));
    }

    /// What reading one lexeme does: `post` is `pre` with the lexeme that
    /// starts at `pre`'s start of lexeme read, and `result` tells whether it
    /// was an error.
    spec fn stepped(pre: Scanner, post: Scanner, result: Result<(), TaalError>) -> bool {
        let src = pre.source@;
        let pos = pre.start_of_lexeme as int;
        &&& post.wf()
        &&& post.source == pre.source
        &&& match lexeme_at(src, pos) {
            Lexeme::Skip { end } => {
                &&& result is Ok
                &&& post.current == end
                &&& post@.tokens == pre@.tokens
            },
            Lexeme::Emit { token_type, end, literal } => {
                &&& result is Ok
                &&& post.current == end
                &&& post@.tokens == pre@.tokens.push(token_at(src, pos, token_type, end, literal))
            },
            Lexeme::Fail { kind, at } => {
                &&& result == Err::<(), TaalError>(TaalError { kind, line: post.line })
                &&& post.current == at
                &&& post@.tokens == pre@.tokens
            },
        }
    }

    /// With the first byte of an operator read: takes `expected` too if it
    /// comes next and emits `match_type`, else emits `mismatch_type`.
    fn match_and_add_token(
        &mut self,
        expected: u8,
        match_type: TokenType,
        mismatch_type: TokenType,
    )
        requires
            old(self).wf(),
            old(self).current == old(self).start_of_lexeme + 1,
            expected != 0,
            expected != NEWLINE,
        ensures
            final(self).wf(),
            final(self).source == old(self).source,
            final(self).start_of_lexeme == old(self).start_of_lexeme,
            has_byte(old(self).source@, old(self).current as int, expected) ==> ({
                &&& final(self).current == old(self).current + 1
                &&& final(self)@.tokens == old(self)@.tokens.push(
                    token_at(
                        old(self).source@,
                        old(self).start_of_lexeme as int,
                        match_type,
                        old(self).current + 1,
                        None,
                    ),
                )
            }),
            !has_byte(old(self).source@, old(self).current as int, expected) ==> ({
                &&& final(self).current == old(self).current
                &&& final(self)@.tokens == old(self)@.tokens.push(
                    token_at(
                        old(self).source@,
                        old(self).start_of_lexeme as int,
                        mismatch_type,
                        old(self).current as int,
                        None,
                    ),
                )
            }),
    {
        if self.peek(0) == expected {
            self.advance();  // consume matched char
            self.add_token(match_type);
        } else {
            self.add_token(mismatch_type);
        }
    }

    /// With the opening quote read: reads up to the closing quote and emits
    /// the string, or fails at the end of the source.
    fn match_string(&mut self) -> (result: Result<(), TaalError>)
        requires
            old(self).wf(),
            old(self).current == old(self).start_of_lexeme + 1,
            old(self).source[old(self).start_of_lexeme as int] == QUOTE,
        ensures
            Self::stepped(*old(self), *final(self), result),
    {
        let ghost src = self.source@;
        let ghost close = run_end(src, self.current as int, Run::Quoted);
        proof {
            lemma_run_end_bounds(src, self.current as int, Run::Quoted);
        }
        while self.peek(0) != QUOTE && !self.peek_is_end(0)
            invariant
                self.wf(),
                self.source == old(self).source,
                self.tokens == old(self).tokens,
                self.start_of_lexeme == old(self).start_of_lexeme,
                self.start_of_lexeme < self.current <= close <= self.source.len(),
                src == self.source@,
                close == run_end(src, self.current as int, Run::Quoted),
            decreases self.source.len() - self.current,
        {
            proof {
                lemma_newlines_bound(src, self.current as int);
                lemma_run_end_bounds(src, self.current + 1, Run::Quoted);
            }
            if self.peek(0) == NEWLINE {
                self.line += 1;
            }
            self.advance();
        }

        if self.peek_is_end(0) {
            return Err(TaalError { kind: ErrorKind::UnterminatedString, line: self.line });
        }
        let value = slice_to_vec(
            slice_subrange(self.source.as_slice(), self.start_of_lexeme + 1, self.current),
        );

        // consume the closing "
        self.advance();
        self.add_token_with_literal(TokenType::String, value);
        Ok(())
    }

    /// With the first digit read: reads the rest of the number and emits it.
    fn match_number(&mut self) -> (result: Result<(), TaalError>)
        requires
            old(self).wf(),
            old(self).current == old(self).start_of_lexeme + 1,
            is_digit(old(self).source[old(self).start_of_lexeme as int]),
        ensures
            Self::stepped(*old(self), *final(self), result),
    {
        let ghost src = self.source@;
        let ghost whole = run_end(src, self.start_of_lexeme as int, Run::Digits);
        let ghost end = number_end(src, self.start_of_lexeme as int);
        proof {
            lemma_run_end_bounds(src, self.current as int, Run::Digits);
        }
        // consume digits
        while is_ascii_digit(self.peek(0))
            invariant
                self.wf(),
                self.source == old(self).source,
                self.tokens == old(self).tokens,
                self.start_of_lexeme == old(self).start_of_lexeme,
                self.start_of_lexeme < self.current <= whole <= self.source.len(),
                src == self.source@,
                whole == run_end(src, self.current as int, Run::Digits),
            decreases self.source.len() - self.current,
        {
            proof {
                lemma_run_end_bounds(src, self.current + 1, Run::Digits);
            }
            self.advance();
        }

        if self.peek(0) == DOT && is_ascii_digit(self.peek(1)) {
            // consume the .
            self.advance();
            proof {
                lemma_run_end_bounds(src, self.current as int, Run::Digits);
            }
        }
        // consume digits

        while is_ascii_digit(self.peek(0))
            invariant
                self.wf(),
                self.source == old(self).source,
                self.tokens == old(self).tokens,
                self.start_of_lexeme == old(self).start_of_lexeme,
                self.start_of_lexeme < self.current <= end <= self.source.len(),
                src == self.source@,
                end == run_end(src, self.current as int, Run::Digits),
            decreases self.source.len() - self.current,
        {
            proof {
                lemma_run_end_bounds(src, self.current + 1, Run::Digits);
            }
            self.advance();
        }

        let value = self.lexeme();
        self.add_token_with_literal(TokenType::Number, value);
        Ok(())
    }

    /// Looks `candidate` up in the keyword table: the reserved word's token,
    /// `Identifier` for any other text, an error for bytes that are no text.
    pub fn identify_keyword(&self, candidate: &[u8]) -> (result: Result<TokenType, TaalError>)
        ensures
            result == (if valid_utf8(candidate@) {
                Ok::<TokenType, TaalError>(keyword_type(candidate@))
            } else {
                Err::<TokenType, TaalError>(
                    TaalError { kind: ErrorKind::InvalidText, line: self@.line as usize },
                )
            }),
    {
        if let Ok(s) = core::str::from_utf8(candidate) {
            let word = s.as_bytes();
            let token_type = if same_bytes(word, "and".as_bytes()) {
                TokenType::And
            } else if same_bytes(word, "class".as_bytes()) {
                TokenType::Class
            } else if same_bytes(word, "else".as_bytes()) {
                TokenType::Else
            } else if same_bytes(word, "false".as_bytes()) {
                TokenType::False
            } else if same_bytes(word, "for".as_bytes()) {
                TokenType::For
            } else if same_bytes(word, "fun".as_bytes()) {
                TokenType::Fun
            } else if same_bytes(word, "if".as_bytes()) {
                TokenType::If
            } else if same_bytes(word, "nil".as_bytes()) {
                TokenType::Nil
            } else if same_bytes(word, "or".as_bytes()) {
                TokenType::Or
            } else if same_bytes(word, "print".as_bytes()) {
                TokenType::Print
            } else if same_bytes(word, "return".as_bytes()) {
                TokenType::Return
            } else if same_bytes(word, "super".as_bytes()) {
                TokenType::Super
            } else if same_bytes(word, "this".as_bytes()) {
                TokenType::This
            } else if same_bytes(word, "true".as_bytes()) {
                TokenType::True
            } else if same_bytes(word, "var".as_bytes()) {
                TokenType::Var
            } else if same_bytes(word, "while".as_bytes()) {
                TokenType::While
            } else {
                TokenType::Identifier
            };
            return Ok(token_type);
        }
        Err(TaalError { kind: ErrorKind::InvalidText, line: self.line })
    }

    /// With the first byte of a word read: reads the rest of the word and
    /// emits the keyword it spells, or an identifier.
    fn match_identifier(&mut self) -> (result: Result<(), TaalError>)
        requires
            old(self).wf(),
            old(self).current == old(self).start_of_lexeme + 1,
            is_alpha(old(self).source[old(self).start_of_lexeme as int]),
        ensures
            Self::stepped(*old(self), *final(self), result),
    {
        let ghost src = self.source@;
        let ghost end = run_end(src, self.start_of_lexeme as int, Run::Word);
        proof {
            lemma_run_end_bounds(src, self.current as int, Run::Word);
        }
        // consume alphabetics, _ or digits
        while self.peek(0).is_alpha() || is_ascii_digit(self.peek(0))
            invariant
                self.wf(),
                self.source == old(self).source,
                self.tokens == old(self).tokens,
                self.start_of_lexeme == old(self).start_of_lexeme,
                self.start_of_lexeme < self.current <= end <= self.source.len(),
                src == self.source@,
                end == run_end(src, self.current as int, Run::Word),
            decreases self.source.len() - self.current,
        {
            proof {
                lemma_run_end_bounds(src, self.current + 1, Run::Word);
            }
            self.advance();
        }

        let value = slice_subrange(self.source.as_slice(), self.start_of_lexeme, self.current);
        proof {
            lemma_word_is_text(src, self.start_of_lexeme as int);
        }
        match self.identify_keyword(value) {
            Ok(token_type) => {
                self.add_token(token_type);
                return Ok(());
            },
            Err(e) => return Err(e),
        }
    }

    /// With a slash read: reads the comment that it opens, if it opens one,
    /// and tells whether it did.
    #[verifier::loop_isolation(false)]
    fn match_comment(&mut self) -> (comment: bool)
        requires
            old(self).wf(),
            old(self).current == old(self).start_of_lexeme + 1,
            old(self).source[old(self).start_of_lexeme as int] == SLASH,
        ensures
            final(self).wf(),
            final(self).source == old(self).source,
            final(self).tokens == old(self).tokens,
            final(self).start_of_lexeme == old(self).start_of_lexeme,
            comment == (has_byte(old(self).source@, old(self).current as int, SLASH) || has_byte(
                old(self).source@,
                old(self).current as int,
                STAR,
            )),
            has_byte(old(self).source@, old(self).current as int, SLASH) ==> final(self).current
                == run_end(old(self).source@, old(self).current + 1, Run::Line),
            has_byte(old(self).source@, old(self).current as int, STAR) ==> final(self).current
                == block_comment_end(old(self).source@, old(self).current + 1),
            !comment ==> final(self).current == old(self).current,
    {
        let ghost src = self.source@;
        // match single line comments
        if self.peek(0) == SLASH {
            self.advance();
            let ghost end = run_end(src, self.current as int, Run::Line);
            proof {
                lemma_run_end_bounds(src, self.current as int, Run::Line);
            }
            while self.peek(0) != NEWLINE && !self.peek_is_end(0)
                invariant
                    self.wf(),
                    self.source == old(self).source,
                    self.tokens == old(self).tokens,
                    self.start_of_lexeme == old(self).start_of_lexeme,
                    self.start_of_lexeme < self.current <= end <= self.source.len(),
                    src == self.source@,
                    end == run_end(src, self.current as int, Run::Line),
                decreases self.source.len() - self.current,
            {
                proof {
                    lemma_run_end_bounds(src, self.current + 1, Run::Line);
                }
                self.advance();
            }
            return true;
        } else if self.peek(0) == STAR {
            // match multiple line comments
            self.advance();
            let ghost end = block_comment_end(src, self.current as int);
            proof {
                lemma_block_comment_end_bounds(src, self.current as int);
            }
            // keep going, can be multiple lines
            while !self.peek_is_end(0)
                invariant
                    self.wf(),
                    self.source == old(self).source,
                    self.tokens == old(self).tokens,
                    self.start_of_lexeme == old(self).start_of_lexeme,
                    self.start_of_lexeme < self.current <= end <= self.source.len(),
                    src == self.source@,
                    end == block_comment_end(src, self.current as int),
                decreases self.source.len() - self.current,
            {
                proof {
                    lemma_newlines_bound(src, self.current as int);
                    lemma_block_comment_end_bounds(src, self.current + 1);
                }
                if self.peek(0) == NEWLINE {
                    self.line += 1;
                } else if self.peek(0) == STAR && self.peek(1) == SLASH {
                    self.advance();  // go behind *
                    assert(self.wf());
                    self.advance();  // go behind /
                    return true;
                }
                self.advance();
            }
            return true;
        }
        false
    }

    /// Reads the lexeme at the cursor.
    fn scan_token(&mut self) -> (result: Result<(), TaalError>)
        requires
            old(self).wf(),
            old(self).current < old(self).source.len(),
            old(self).start_of_lexeme == old(self).current,
        ensures
            Self::stepped(*old(self), *final(self), result),
    {
        let current_character = self.peek(0);
        proof {
            lemma_newlines_bound(self.source@, self.current as int);
        }
        match current_character {
            LEFT_PAREN => {
                self.advance();
                self.add_token(TokenType::LeftParen)
            },
            RIGHT_PAREN => {
                self.advance();
                self.add_token(TokenType::RightParen)
            },
            LEFT_BRACE => {
                self.advance();
                self.add_token(TokenType::LeftBrace)
            },
            RIGHT_BRACE => {
                self.advance();
                self.add_token(TokenType::RightBrace)
            },
            COMMA => {
                self.advance();
                self.add_token(TokenType::Comma)
            },
            DOT => {
                self.advance();
                self.add_token(TokenType::Dot)
            },
            MINUS => {
                self.advance();
                self.add_token(TokenType::Minus)
            },
            PLUS => {
                self.advance();
                self.add_token(TokenType::Plus)
            },
            SEMICOLON => {
                self.advance();
                self.add_token(TokenType::Semicolon)
            },
            STAR => {
                self.advance();
                self.add_token(TokenType::Star)
            },
            BANG => {
                self.advance();
                self.match_and_add_token(EQUAL, TokenType::BangEqual, TokenType::Bang)
            },
            EQUAL => {
                self.advance();
                self.match_and_add_token(EQUAL, TokenType::EqualEqual, TokenType::Equal)
            },
            LESS => {
                self.advance();
                self.match_and_add_token(EQUAL, TokenType::LessEqual, TokenType::Less)
            },
            GREATER => {
                self.advance();
                self.match_and_add_token(EQUAL, TokenType::GreaterEqual, TokenType::Greater)
            },
            SLASH => {
                self.advance();
                if !self.match_comment() {
                    self.add_token(TokenType::Slash);
                }
            },
            SPACE | CARRIAGE_RETURN | TAB => {
                // Ignore whitespace.
                self.advance();
            },
            NEWLINE => {
                self.advance();
                self.line += 1;
            },
            QUOTE => {
                self.advance();
                self.match_string()?;  // match string literals
            },
            c if is_ascii_digit(c) => {
                self.advance();
                self.match_number()?;  // match numbers
            },
            c if c.is_alpha() => {
                self.advance();
                self.match_identifier()?;  // match identifiers and keywords
            },
            _ => {
                return Err(TaalError { kind: ErrorKind::UnknownCharacter, line: self.line });
            },
        };

        Ok(())
    }

    /// Reads the source from the cursor to its end and appends the tokens
    /// found, then `Eof`; stops at the first lexical error.
    #[verifier::loop_isolation(false)]
    pub fn scan_tokens(&mut self) -> (result: Result<(), TaalError>)
        requires
            old(self).wf(),
        ensures
            final(self).wf(),
            final(self)@.source == old(self)@.source,
            final(self)@.tokens == old(self)@.tokens + scan_from(
                old(self)@.source,
                old(self)@.position,
            ).tokens,
            final(self)@.position == scan_from(old(self)@.source, old(self)@.position).stop,
            result == (match scan_from(old(self)@.source, old(self)@.position).error {
                None => Ok::<(), TaalError>(()),
                Some(kind) => Err::<(), TaalError>(
                    TaalError { kind, line: final(self)@.line as usize },
                ),
            }),
            result matches Err(error) ==> error.kind != ErrorKind::InvalidText,
            result is Ok ==> ({
                let tokens = final(self)@.tokens;
                &&& final(self)@.position == final(self)@.source.len()
                &&& tokens.len() > old(self)@.tokens.len()
                &&& tokens.last().token_type == TokenType::Eof
                &&& forall|i: int|
                    old(self)@.tokens.len() <= i < tokens.len() - 1 ==> (#[trigger] tokens[i]).token_type
                        != TokenType::Eof
            }),
    {
        let ghost src = self.source@;
        let ghost whole = scan_from(src, self.current as int);
        proof {
            lemma_eof_is_last_and_only(src, self.current as int);
            lemma_scan_stops_within_source(src, self.current as int);
            lemma_scan_fails_in_two_ways(src, self.current as int);
            let all = self@.tokens + whole.tokens;
            assert forall|i: int| self@.tokens.len() <= i < all.len() implies #[trigger] all[i]
                == whole.tokens[i - self@.tokens.len()] by {}
        }
        while !self.at_end()
            invariant
                self.wf(),
                src == self.source@,
                old(self)@.tokens + whole.tokens == self@.tokens + scan_from(
                    src,
                    self.current as int,
                ).tokens,
                whole.error == scan_from(src, self.current as int).error,
                whole.stop == scan_from(src, self.current as int).stop,
            decreases self.source.len() - self.current,
        {
            self.start_of_lexeme = self.current;
            let ghost before = *self;
            proof {
                lemma_lexeme_bounds(src, self.current as int);
            }
            match self.scan_token() {
                Ok(()) => {},
                Err(e) => {
                    assert(self@.tokens + Seq::<TokenView>::empty() =~= self@.tokens);
                    return Err(e);
                },
            }
            proof {
                let rest = scan_from(src, self.current as int).tokens;
                match lexeme_at(src, before.current as int) {
                    Lexeme::Emit { token_type, end, literal } => {
                        let token = token_at(src, before.current as int, token_type, end, literal);
                        assert(before@.tokens.push(token) + rest =~= before@.tokens + (seq![token]
                            + rest));
                    },
                    _ => {},
                }
            }
        }

        let ghost before = self.tokens@;
        let token = Token::new(TokenType::Eof, Vec::new(), None, self.line);
        self.tokens.push(token);
        proof {
            assert(token_views(self.tokens@) =~= token_views(before) + seq![token@]);
            assert(token@.lexeme =~= Seq::<u8>::empty());
        }
        Ok(())
    }

    /// The tokens read so far.
    pub fn tokens(&self) -> (tokens: &Vec<Token>)
        ensures
            token_views(tokens@) == self@.tokens,
    {
        &self.tokens
    }

    /// Gives up the scanner for the tokens it has read.
    pub fn into_tokens(self) -> (tokens: Vec<Token>)
        ensures
            token_views(tokens@) == self@.tokens,
    {
        self.tokens
    }

    /// The line counter: the line of the next byte to read, which is one
    /// more than the number of newline bytes read.
    pub fn line(&self) -> (line: usize)
        ensures
            line == self@.line,
            self.wf() ==> line == line_at(self@.source, self@.position),
    {
        self.line
    }
}

/// A word's bytes are well-formed UTF-8.
proof fn lemma_word_is_text(src: Seq<u8>, from: int)
    requires
        0 <= from <= src.len(),
    ensures
        valid_utf8(src.subrange(from, run_end(src, from, Run::Word))),
{
    let end = run_end(src, from, Run::Word);
    let word = src.subrange(from, end);
    lemma_run_end_bounds(src, from, Run::Word);
    lemma_run_end_is_maximal(src, from, Run::Word);
    assert(word.subrange(0, 0) =~= Seq::<u8>::empty());
    assert forall|i: int| 0 <= i < word.len() implies #[trigger] is_leading_byte_width_1(
        word[i],
    ) by {
        assert(continues(Run::Word, src[from + i]));
    }
    partial_valid_utf8_extend_ascii_block(word, 0, word.len() as int);
    assert(word.subrange(0, word.len() as int) =~= word);
}

} // verus!
