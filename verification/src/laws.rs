//! What holds of every scan.

use crate::grammar::{
    continues, is_alpha, keyword_type, lemma_lexeme_bounds, lemma_run_end_bounds,
    lemma_run_end_is_maximal, lexeme_at, run_end, scan_from, scan_result, Lexeme, Run,
};
use crate::token::{token_views, Token, TokenType, TokenView};
use crate::{is_scan_of, ErrorKind, TaalError};
use vstd::prelude::*;
use vstd::string::{is_ascii, StringSliceAdditionalSpecFns};

verus! {

/// A scan that succeeds ends in `Eof`, and `Eof` stands nowhere else: not
/// before the last token, and not among the tokens read before an error.
pub proof fn lemma_eof_is_last_and_only(src: Seq<u8>, pos: int)
    ensures
        ({
            let scanned = scan_from(src, pos);
            &&& scanned.error is None ==> scanned.tokens.len() > 0
                && scanned.tokens.last().token_type == TokenType::Eof
            &&& forall|i: int|
                0 <= i < scanned.tokens.len() && (#[trigger] scanned.tokens[i]).token_type
                    == TokenType::Eof ==> scanned.error is None && i == scanned.tokens.len() - 1
        }),
    decreases src.len() - pos,
{
    if 0 <= pos < src.len() {
        lemma_lexeme_bounds(src, pos);
        match lexeme_at(src, pos) {
            Lexeme::Skip { end } => {
                lemma_eof_is_last_and_only(src, end);
            },
            Lexeme::Emit { token_type, end, literal } => {
                lemma_eof_is_last_and_only(src, end);
                let rest = scan_from(src, end);
                let all = scan_from(src, pos);
                assert(token_type != TokenType::Eof);
                assert forall|i: int|
                    0 <= i < all.tokens.len() && (#[trigger] all.tokens[i]).token_type
                        == TokenType::Eof implies all.error is None && i == all.tokens.len() - 1 by {
                    if i > 0 {
                        assert(all.tokens[i] == rest.tokens[i - 1]);
                    }
                }
                if all.error is None {
                    assert(all.tokens.last() == rest.tokens.last());
                }
            },
            Lexeme::Fail { .. } => {},
        }
    }
}

/// The tokens of a whole source: the last one is `Eof`, and it is the only
/// `Eof`.
pub proof fn lemma_tokens_end_in_the_only_eof(src: Seq<u8>, tokens: Seq<TokenView>)
    requires
        scan_result(src) == Ok::<Seq<TokenView>, TaalError>(tokens),
    ensures
        tokens.len() > 0,
        tokens.last().token_type == TokenType::Eof,
        forall|i: int|
            0 <= i < tokens.len() - 1 ==> (#[trigger] tokens[i]).token_type != TokenType::Eof,
{
    lemma_eof_is_last_and_only(src, 0);
}

/// Scanning the same bytes twice gives the same: equal tokens in the same
/// order, or the same error.
pub proof fn lemma_rescan_is_identical(
    source: Seq<u8>,
    first: Result<Vec<Token>, TaalError>,
    second: Result<Vec<Token>, TaalError>,
)
    requires
        is_scan_of(source, first),
        is_scan_of(source, second),
    ensures
        (match (first, second) {
            (Ok(a), Ok(b)) => token_views(a@) == token_views(b@),
            (Err(a), Err(b)) => a == b,
            _ => false,
        }),
{
}

/// A scan reads forward and stays within the source; one that succeeds
/// reads all of it.
pub proof fn lemma_scan_stops_within_source(src: Seq<u8>, pos: int)
    requires
        0 <= pos <= src.len(),
    ensures
        pos <= scan_from(src, pos).stop <= src.len(),
        scan_from(src, pos).error is None ==> scan_from(src, pos).stop == src.len(),
    decreases src.len() - pos,
{
    if pos < src.len() {
        lemma_lexeme_bounds(src, pos);
        match lexeme_at(src, pos) {
            Lexeme::Skip { end } => {
                lemma_scan_stops_within_source(src, end);
            },
            Lexeme::Emit { end, .. } => {
                lemma_scan_stops_within_source(src, end);
            },
            Lexeme::Fail { .. } => {},
        }
    }
}

/// Whether `lexeme` is a stretch of at least one byte of `src`, at or behind
/// offset `pos`.
pub open spec fn is_stretch_of(lexeme: Seq<u8>, src: Seq<u8>, pos: int) -> bool {
    exists|start: int, end: int|
        pos <= start < end <= src.len() && lexeme == #[trigger] src.subrange(start, end)
}

/// Whether `token` holds the bytes that a token read at or behind offset
/// `pos` of `src` holds: none if it is `Eof`, else a stretch of `src`.
pub open spec fn holds_bytes_of(token: TokenView, src: Seq<u8>, pos: int) -> bool {
    if token.token_type == TokenType::Eof {
        token.lexeme.len() == 0
    } else {
        is_stretch_of(token.lexeme, src, pos)
    }
}

/// Every token but `Eof` was read from at least one byte: its lexeme is a
/// stretch of the source, at or behind the offset where the scan began. The
/// lexeme of `Eof` is empty.
pub proof fn lemma_lexemes_lie_within_source(src: Seq<u8>, pos: int)
    requires
        0 <= pos <= src.len(),
    ensures
        forall|i: int|
            0 <= i < scan_from(src, pos).tokens.len() ==> holds_bytes_of(
                #[trigger] scan_from(src, pos).tokens[i],
                src,
                pos,
            ),
    decreases src.len() - pos,
{
    if pos < src.len() {
        lemma_lexeme_bounds(src, pos);
        let all = scan_from(src, pos);
        match lexeme_at(src, pos) {
            Lexeme::Skip { end } => {
                lemma_lexemes_lie_within_source(src, end);
                assert forall|i: int| 0 <= i < all.tokens.len() implies holds_bytes_of(
                    #[trigger] all.tokens[i],
                    src,
                    pos,
                ) by {
                    if all.tokens[i].token_type != TokenType::Eof {
                        lemma_stretch_from_earlier(all.tokens[i].lexeme, src, pos, end);
                    }
                }
            },
            Lexeme::Emit { token_type, end, literal } => {
                lemma_lexemes_lie_within_source(src, end);
                let rest = scan_from(src, end);
                assert forall|i: int| 0 <= i < all.tokens.len() implies holds_bytes_of(
                    #[trigger] all.tokens[i],
                    src,
                    pos,
                ) by {
                    let token = all.tokens[i];
                    if i == 0 {
                        assert(token.lexeme == src.subrange(pos, end));
                    } else {
                        assert(token == rest.tokens[i - 1]);
                        if token.token_type != TokenType::Eof {
                            lemma_stretch_from_earlier(token.lexeme, src, pos, end);
                        }
                    }
                }
            },
            Lexeme::Fail { .. } => {},
        }
    }
}

/// A stretch at or behind `later` lies at or behind every earlier offset.
proof fn lemma_stretch_from_earlier(lexeme: Seq<u8>, src: Seq<u8>, earlier: int, later: int)
    requires
        earlier <= later,
        is_stretch_of(lexeme, src, later),
    ensures
        is_stretch_of(lexeme, src, earlier),
{
    let (start, end) = choose|start: int, end: int|
        later <= start < end <= src.len() && lexeme == #[trigger] src.subrange(start, end);
    assert(earlier <= start < end <= src.len() && lexeme == src.subrange(start, end));
}

/// A scan fails in two ways only. An unterminated string is found at the end
/// of the source; an unknown character is found where it stands, and it is
/// a byte that starts no lexeme.
pub proof fn lemma_scan_fails_in_two_ways(src: Seq<u8>, pos: int)
    requires
        0 <= pos <= src.len(),
    ensures
        (match scan_from(src, pos).error {
            None => true,
            Some(ErrorKind::UnterminatedString) => scan_from(src, pos).stop == src.len(),
            Some(ErrorKind::UnknownCharacter) => {
                let stop = scan_from(src, pos).stop;
                &&& pos <= stop < src.len()
                &&& lexeme_at(src, stop) == (Lexeme::Fail {
                    kind: ErrorKind::UnknownCharacter,
                    at: stop,
                })
            },
            Some(ErrorKind::InvalidText) => false,
        }),
    decreases src.len() - pos,
{
    if pos < src.len() {
        lemma_lexeme_bounds(src, pos);
        match lexeme_at(src, pos) {
            Lexeme::Skip { end } => {
                lemma_scan_fails_in_two_ways(src, end);
            },
            Lexeme::Emit { end, .. } => {
                lemma_scan_fails_in_two_ways(src, end);
            },
            Lexeme::Fail { .. } => {},
        }
    }
}

/// A word is read whole: the token at a letter or underscore reaches over
/// every letter, digit and underscore that follows, up to the end of the
/// source or a byte of another kind, and the keyword table is asked about
/// all of it.
pub proof fn lemma_word_is_read_whole(src: Seq<u8>, pos: int)
    requires
        0 <= pos < src.len(),
        is_alpha(src[pos]),
    ensures
        lexeme_at(src, pos) matches Lexeme::Emit { token_type, end, literal } && ({
            &&& pos < end <= src.len()
            &&& forall|i: int| pos <= i < end ==> continues(Run::Word, #[trigger] src[i])
            &&& end < src.len() ==> !continues(Run::Word, src[end])
            &&& token_type == keyword_type(src.subrange(pos, end))
            &&& literal is None
        }),
{
    lemma_run_end_bounds(src, pos + 1, Run::Word);
    lemma_run_end_is_maximal(src, pos, Run::Word);
}

/// Longest match: a stretch from `from` to `end` in which every byte
/// continues the run, and which the end of the source or a byte that does
/// not continue the run follows, is the run itself.
pub proof fn lemma_run_end_is_the_only_maximum(src: Seq<u8>, from: int, run: Run, end: int)
    requires
        0 <= from <= end <= src.len(),
        forall|i: int| from <= i < end ==> continues(run, #[trigger] src[i]),
        end < src.len() ==> !continues(run, src[end]),
    ensures
        run_end(src, from, run) == end,
    decreases end - from,
{
    if from < end {
        lemma_run_end_is_the_only_maximum(src, from + 1, run, end);
    }
}

/// A keyword is matched as a whole word only: a keyword with further bytes
/// behind it is an identifier.
pub proof fn lemma_keyword_with_more_is_identifier(word: Seq<u8>, more: Seq<u8>)
    requires
        keyword_type(word) != TokenType::Identifier,
        more.len() > 0,
    ensures
        keyword_type(word + more) == TokenType::Identifier,
{
    lemma_keyword_texts();
    let longer = word + more;
    assert(longer.len() == word.len() + more.len());
    assert forall|i: int| 0 <= i < word.len() implies longer[i] == word[i] by {}
    if keyword_type(longer) != TokenType::Identifier {
        assert(longer[0] == word[0]);
        assert(longer[1] == word[1]);
        assert(longer[2] == word[2] || word.len() < 3);
    }
}

/// The bytes of the reserved words.
proof fn lemma_keyword_texts()
    ensures
        "and".spec_bytes() == seq![0x61u8, 0x6e, 0x64],
        "class".spec_bytes() == seq![0x63u8, 0x6c, 0x61, 0x73, 0x73],
        "else".spec_bytes() == seq![0x65u8, 0x6c, 0x73, 0x65],
        "false".spec_bytes() == seq![0x66u8, 0x61, 0x6c, 0x73, 0x65],
        "for".spec_bytes() == seq![0x66u8, 0x6f, 0x72],
        "fun".spec_bytes() == seq![0x66u8, 0x75, 0x6e],
        "if".spec_bytes() == seq![0x69u8, 0x66],
        "nil".spec_bytes() == seq![0x6eu8, 0x69, 0x6c],
        "or".spec_bytes() == seq![0x6fu8, 0x72],
        "print".spec_bytes() == seq![0x70u8, 0x72, 0x69, 0x6e, 0x74],
        "return".spec_bytes() == seq![0x72u8, 0x65, 0x74, 0x75, 0x72, 0x6e],
        "super".spec_bytes() == seq![0x73u8, 0x75, 0x70, 0x65, 0x72],
        "this".spec_bytes() == seq![0x74u8, 0x68, 0x69, 0x73],
        "true".spec_bytes() == seq![0x74u8, 0x72, 0x75, 0x65],
        "var".spec_bytes() == seq![0x76u8, 0x61, 0x72],
        "while".spec_bytes() == seq![0x77u8, 0x68, 0x69, 0x6c, 0x65],
{
    broadcast use vstd::string::is_ascii_spec_bytes;

    reveal_strlit("and");
    reveal_strlit("class");
    reveal_strlit("else");
    reveal_strlit("false");
    reveal_strlit("for");
    reveal_strlit("fun");
    reveal_strlit("if");
    reveal_strlit("nil");
    reveal_strlit("or");
    reveal_strlit("print");
    reveal_strlit("return");
    reveal_strlit("super");
    reveal_strlit("this");
    reveal_strlit("true");
    reveal_strlit("var");
    reveal_strlit("while");
    assert(is_ascii("and"));
    assert("and".spec_bytes() =~= seq![0x61u8, 0x6e, 0x64]);
    assert(is_ascii("class"));
    assert("class".spec_bytes() =~= seq![0x63u8, 0x6c, 0x61, 0x73, 0x73]);
    assert(is_ascii("else"));
    assert("else".spec_bytes() =~= seq![0x65u8, 0x6c, 0x73, 0x65]);
    assert(is_ascii("false"));
    assert("false".spec_bytes() =~= seq![0x66u8, 0x61, 0x6c, 0x73, 0x65]);
    assert(is_ascii("for"));
    assert("for".spec_bytes() =~= seq![0x66u8, 0x6f, 0x72]);
    assert(is_ascii("fun"));
    assert("fun".spec_bytes() =~= seq![0x66u8, 0x75, 0x6e]);
    assert(is_ascii("if"));
    assert("if".spec_bytes() =~= seq![0x69u8, 0x66]);
    assert(is_ascii("nil"));
    assert("nil".spec_bytes() =~= seq![0x6eu8, 0x69, 0x6c]);
    assert(is_ascii("or"));
    assert("or".spec_bytes() =~= seq![0x6fu8, 0x72]);
    assert(is_ascii("print"));
    assert("print".spec_bytes() =~= seq![0x70u8, 0x72, 0x69, 0x6e, 0x74]);
    assert(is_ascii("return"));
    assert("return".spec_bytes() =~= seq![0x72u8, 0x65, 0x74, 0x75, 0x72, 0x6e]);
    assert(is_ascii("super"));
    assert("super".spec_bytes() =~= seq![0x73u8, 0x75, 0x70, 0x65, 0x72]);
    assert(is_ascii("this"));
    assert("this".spec_bytes() =~= seq![0x74u8, 0x68, 0x69, 0x73]);
    assert(is_ascii("true"));
    assert("true".spec_bytes() =~= seq![0x74u8, 0x72, 0x75, 0x65]);
    assert(is_ascii("var"));
    assert("var".spec_bytes() =~= seq![0x76u8, 0x61, 0x72]);
    assert(is_ascii("while"));
    assert("while".spec_bytes() =~= seq![0x77u8, 0x68, 0x69, 0x6c, 0x65]);
}

} // verus!
