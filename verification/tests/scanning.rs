use taal::scanner::Scanner;
use taal::token::{Token, TokenType};
use taal::{run, ErrorKind, TaalError};

fn scan(source: &str) -> Vec<Token> {
    run(source.as_bytes().to_vec()).expect("the source has no lexical error")
}

fn fail(source: &str) -> TaalError {
    run(source.as_bytes().to_vec()).expect_err("the source has a lexical error")
}

fn types(tokens: &[Token]) -> Vec<TokenType> {
    tokens.iter().map(|token| token.token_type()).collect()
}

fn lexemes(tokens: &[Token]) -> Vec<String> {
    tokens.iter().map(|token| String::from_utf8(token.lexeme().clone()).unwrap()).collect()
}

fn lines(tokens: &[Token]) -> Vec<usize> {
    tokens.iter().map(|token| token.line()).collect()
}

fn literal(token: &Token) -> Option<String> {
    token.literal().clone().map(|text| String::from_utf8(text).unwrap())
}

#[test]
fn empty_buffer_gives_eof_on_line_one() {
    let tokens = scan("");
    assert_eq!(tokens.len(), 1);
    assert_eq!(tokens[0].token_type(), TokenType::Eof);
    assert_eq!(tokens[0].lexeme(), &Vec::<u8>::new());
    assert_eq!(tokens[0].literal(), &None);
    assert_eq!(tokens[0].line(), 1);
}

#[test]
fn left_paren() {
    let tokens = scan("(");
    assert_eq!(types(&tokens), vec![TokenType::LeftParen, TokenType::Eof]);
    assert_eq!(lexemes(&tokens), vec!["(", ""]);
    assert_eq!(tokens[0].literal(), &None);
}

#[test]
fn bang_equal_is_one_token() {
    let tokens = scan("!=");
    assert_eq!(types(&tokens), vec![TokenType::BangEqual, TokenType::Eof]);
    assert_eq!(lexemes(&tokens), vec!["!=", ""]);
}

#[test]
fn bang_alone() {
    let tokens = scan("!");
    assert_eq!(types(&tokens), vec![TokenType::Bang, TokenType::Eof]);
    assert_eq!(lexemes(&tokens), vec!["!", ""]);
}

#[test]
fn bang_space_equal_is_two_tokens() {
    let tokens = scan("! =");
    assert_eq!(types(&tokens), vec![TokenType::Bang, TokenType::Equal, TokenType::Eof]);
    assert_eq!(lexemes(&tokens), vec!["!", "=", ""]);
}

#[test]
fn every_punctuation_mark() {
    let tokens = scan("(){},.-+;*");
    assert_eq!(
        types(&tokens),
        vec![
            TokenType::LeftParen,
            TokenType::RightParen,
            TokenType::LeftBrace,
            TokenType::RightBrace,
            TokenType::Comma,
            TokenType::Dot,
            TokenType::Minus,
            TokenType::Plus,
            TokenType::Semicolon,
            TokenType::Star,
            TokenType::Eof,
        ]
    );
    assert_eq!(lexemes(&tokens), vec!["(", ")", "{", "}", ",", ".", "-", "+", ";", "*", ""]);
}

#[test]
fn every_operator_alone_and_with_equal() {
    let tokens = scan("! != = == < <= > >=");
    assert_eq!(
        types(&tokens),
        vec![
            TokenType::Bang,
            TokenType::BangEqual,
            TokenType::Equal,
            TokenType::EqualEqual,
            TokenType::Less,
            TokenType::LessEqual,
            TokenType::Greater,
            TokenType::GreaterEqual,
            TokenType::Eof,
        ]
    );
    assert_eq!(lexemes(&tokens), vec!["!", "!=", "=", "==", "<", "<=", ">", ">=", ""]);
}

#[test]
fn the_longer_operator_wins() {
    let tokens = scan("===");
    assert_eq!(types(&tokens), vec![TokenType::EqualEqual, TokenType::Equal, TokenType::Eof]);
    let tokens = scan("<==");
    assert_eq!(types(&tokens), vec![TokenType::LessEqual, TokenType::Equal, TokenType::Eof]);
    let tokens = scan("!!=");
    assert_eq!(types(&tokens), vec![TokenType::Bang, TokenType::BangEqual, TokenType::Eof]);
}

#[test]
fn line_comment_gives_no_token() {
    let source = "// comment\n123";
    let tokens = scan(source);
    assert_eq!(types(&tokens), vec![TokenType::Number, TokenType::Eof]);
    assert_eq!(lexemes(&tokens), vec!["123", ""]);
    assert_eq!(literal(&tokens[0]), Some("123".to_string()));
    assert_eq!(lines(&tokens), vec![2, 2]);

    let mut scanner = Scanner::new(source.as_bytes().to_vec());
    assert_eq!(scanner.line(), 1);
    assert_eq!(scanner.scan_tokens(), Ok(()));
    assert_eq!(scanner.line(), 2);
}

#[test]
fn line_comment_at_the_end() {
    let tokens = scan("1 // no newline behind");
    assert_eq!(types(&tokens), vec![TokenType::Number, TokenType::Eof]);
    assert_eq!(lines(&tokens), vec![1, 1]);
    let tokens = scan("//");
    assert_eq!(types(&tokens), vec![TokenType::Eof]);
}

#[test]
fn slash_alone_is_division() {
    let tokens = scan("a / b");
    assert_eq!(
        types(&tokens),
        vec![TokenType::Identifier, TokenType::Slash, TokenType::Identifier, TokenType::Eof]
    );
    assert_eq!(lexemes(&tokens), vec!["a", "/", "b", ""]);
    let tokens = scan("/");
    assert_eq!(types(&tokens), vec![TokenType::Slash, TokenType::Eof]);
}

#[test]
fn block_comment_counts_its_lines() {
    let tokens = scan("1 /* one\ntwo\nthree */ 2");
    assert_eq!(types(&tokens), vec![TokenType::Number, TokenType::Number, TokenType::Eof]);
    assert_eq!(lexemes(&tokens), vec!["1", "2", ""]);
    assert_eq!(lines(&tokens), vec![1, 3, 3]);
}

#[test]
fn block_comment_ends_at_the_first_close() {
    let tokens = scan("/* a */ b */");
    assert_eq!(
        types(&tokens),
        vec![TokenType::Identifier, TokenType::Star, TokenType::Slash, TokenType::Eof]
    );
    let tokens = scan("/***/1");
    assert_eq!(types(&tokens), vec![TokenType::Number, TokenType::Eof]);
    let tokens = scan("/**/1");
    assert_eq!(types(&tokens), vec![TokenType::Number, TokenType::Eof]);
}

#[test]
fn block_comment_without_close_ends_with_the_source() {
    let tokens = scan("1 /* never\nclosed");
    assert_eq!(types(&tokens), vec![TokenType::Number, TokenType::Eof]);
    assert_eq!(lines(&tokens), vec![1, 2]);
    // The star that opens the comment does not help to close it.
    let tokens = scan("/*/");
    assert_eq!(types(&tokens), vec![TokenType::Eof]);
    let tokens = scan("/*");
    assert_eq!(types(&tokens), vec![TokenType::Eof]);
    let tokens = scan("/* *");
    assert_eq!(types(&tokens), vec![TokenType::Eof]);
}

#[test]
fn blank_space_gives_no_token() {
    let tokens = scan(" \r\t\n \n");
    assert_eq!(types(&tokens), vec![TokenType::Eof]);
    assert_eq!(lines(&tokens), vec![3]);
}

#[test]
fn string_may_span_lines() {
    let source = "\"ab\ncd\"";
    let tokens = scan(source);
    assert_eq!(types(&tokens), vec![TokenType::String, TokenType::Eof]);
    assert_eq!(literal(&tokens[0]), Some("ab\ncd".to_string()));
    assert_eq!(lexemes(&tokens), vec!["\"ab\ncd\"", ""]);
    assert_eq!(lines(&tokens), vec![2, 2]);

    let mut scanner = Scanner::new(source.as_bytes().to_vec());
    assert_eq!(scanner.scan_tokens(), Ok(()));
    assert_eq!(scanner.line(), 2);
}

#[test]
fn empty_string() {
    let tokens = scan("\"\"");
    assert_eq!(types(&tokens), vec![TokenType::String, TokenType::Eof]);
    assert_eq!(literal(&tokens[0]), Some(String::new()));
    assert_eq!(lexemes(&tokens), vec!["\"\"", ""]);
}

#[test]
fn backslash_does_not_escape_a_quote() {
    let tokens = scan("\"a\\\" b");
    assert_eq!(types(&tokens), vec![TokenType::String, TokenType::Identifier, TokenType::Eof]);
    assert_eq!(literal(&tokens[0]), Some("a\\".to_string()));
}

#[test]
fn zero_byte_inside_a_string_is_kept() {
    let tokens = run(vec![b'"', b'a', 0, b'b', b'"']).unwrap();
    assert_eq!(types(&tokens), vec![TokenType::String, TokenType::Eof]);
    assert_eq!(tokens[0].literal(), &Some(vec![b'a', 0, b'b']));
}

#[test]
fn number_with_fraction() {
    let tokens = scan("12.5");
    assert_eq!(types(&tokens), vec![TokenType::Number, TokenType::Eof]);
    assert_eq!(literal(&tokens[0]), Some("12.5".to_string()));
    assert_eq!(lexemes(&tokens), vec!["12.5", ""]);
}

#[test]
fn number_with_trailing_dot() {
    let tokens = scan("12.");
    assert_eq!(types(&tokens), vec![TokenType::Number, TokenType::Dot, TokenType::Eof]);
    assert_eq!(literal(&tokens[0]), Some("12".to_string()));
    assert_eq!(tokens[1].literal(), &None);
    assert_eq!(lexemes(&tokens), vec!["12", ".", ""]);
}

#[test]
fn number_takes_one_fraction_only() {
    let tokens = scan("1.25.5");
    assert_eq!(
        types(&tokens),
        vec![TokenType::Number, TokenType::Dot, TokenType::Number, TokenType::Eof]
    );
    assert_eq!(lexemes(&tokens), vec!["1.25", ".", "5", ""]);
    let tokens = scan(".5");
    assert_eq!(types(&tokens), vec![TokenType::Dot, TokenType::Number, TokenType::Eof]);
    let tokens = scan("7.x");
    assert_eq!(
        types(&tokens),
        vec![TokenType::Number, TokenType::Dot, TokenType::Identifier, TokenType::Eof]
    );
}

#[test]
fn number_ends_where_a_word_starts() {
    let tokens = scan("1abc");
    assert_eq!(types(&tokens), vec![TokenType::Number, TokenType::Identifier, TokenType::Eof]);
    assert_eq!(lexemes(&tokens), vec!["1", "abc", ""]);
}

#[test]
fn unterminated_string_fails() {
    assert_eq!(
        fail("\"unterminated"),
        TaalError { kind: ErrorKind::UnterminatedString, line: 1 }
    );
    assert_eq!(fail("\""), TaalError { kind: ErrorKind::UnterminatedString, line: 1 });
}

#[test]
fn unterminated_string_fails_on_the_last_line() {
    assert_eq!(fail("1\n\"a\nb\n"), TaalError { kind: ErrorKind::UnterminatedString, line: 4 });
}

#[test]
fn unknown_character_fails() {
    assert_eq!(fail("@"), TaalError { kind: ErrorKind::UnknownCharacter, line: 1 });
    assert_eq!(fail("1\n\n  #"), TaalError { kind: ErrorKind::UnknownCharacter, line: 3 });
}

#[test]
fn zero_byte_is_an_unknown_character() {
    assert_eq!(
        run(vec![b'1', b'\n', 0]),
        Err(TaalError { kind: ErrorKind::UnknownCharacter, line: 2 })
    );
}

#[test]
fn byte_beyond_ascii_is_an_unknown_character() {
    assert_eq!(fail("é"), TaalError { kind: ErrorKind::UnknownCharacter, line: 1 });
    assert_eq!(run(vec![0xff]), Err(TaalError { kind: ErrorKind::UnknownCharacter, line: 1 }));
}

#[test]
fn the_first_error_is_returned() {
    assert_eq!(fail("@ \"open"), TaalError { kind: ErrorKind::UnknownCharacter, line: 1 });
    assert_eq!(fail("\n\"open @"), TaalError { kind: ErrorKind::UnterminatedString, line: 2 });
}

#[test]
fn keyword_must_be_the_whole_word() {
    let tokens = scan("and1 and");
    assert_eq!(types(&tokens), vec![TokenType::Identifier, TokenType::And, TokenType::Eof]);
    assert_eq!(lexemes(&tokens), vec!["and1", "and", ""]);
    assert_eq!(tokens[0].literal(), &None);
    let tokens = scan("an andy _and AND");
    assert_eq!(
        types(&tokens),
        vec![
            TokenType::Identifier,
            TokenType::Identifier,
            TokenType::Identifier,
            TokenType::Identifier,
            TokenType::Eof,
        ]
    );
}

#[test]
fn every_keyword() {
    let tokens =
        scan("and class else false for fun if nil or print return super this true var while");
    assert_eq!(
        types(&tokens),
        vec![
            TokenType::And,
            TokenType::Class,
            TokenType::Else,
            TokenType::False,
            TokenType::For,
            TokenType::Fun,
            TokenType::If,
            TokenType::Nil,
            TokenType::Or,
            TokenType::Print,
            TokenType::Return,
            TokenType::Super,
            TokenType::This,
            TokenType::True,
            TokenType::Var,
            TokenType::While,
            TokenType::Eof,
        ]
    );
}

#[test]
fn identifier_of_letters_digits_and_underscores() {
    let tokens = scan("_a1_B2 z");
    assert_eq!(types(&tokens), vec![TokenType::Identifier, TokenType::Identifier, TokenType::Eof]);
    assert_eq!(lexemes(&tokens), vec!["_a1_B2", "z", ""]);
}

#[test]
fn a_small_program() {
    let tokens = scan("var x = 1.5;\nif (x >= 1) { print \"big\"; } // done\n");
    assert_eq!(
        types(&tokens),
        vec![
            TokenType::Var,
            TokenType::Identifier,
            TokenType::Equal,
            TokenType::Number,
            TokenType::Semicolon,
            TokenType::If,
            TokenType::LeftParen,
            TokenType::Identifier,
            TokenType::GreaterEqual,
            TokenType::Number,
            TokenType::RightParen,
            TokenType::LeftBrace,
            TokenType::Print,
            TokenType::String,
            TokenType::Semicolon,
            TokenType::RightBrace,
            TokenType::Eof,
        ]
    );
    assert_eq!(lines(&tokens), vec![1, 1, 1, 1, 1, 2, 2, 2, 2, 2, 2, 2, 2, 2, 2, 2, 3]);
    assert_eq!(literal(&tokens[13]), Some("big".to_string()));
}

#[test]
fn eof_is_last_and_the_only_one() {
    for source in ["", "(", "1 + 2", "// c", "/* c", "\"s\" x", "a\nb\n", "while(true){}"] {
        let tokens = scan(source);
        let eofs = tokens.iter().filter(|token| token.token_type() == TokenType::Eof).count();
        assert_eq!(eofs, 1);
        assert_eq!(tokens.last().unwrap().token_type(), TokenType::Eof);
    }
}

#[test]
fn lexemes_are_stretches_of_the_source() {
    let source = "var answer = 42.0; /* c */ print \"a b\" != nil;";
    let tokens = scan(source);
    let mut from: usize = 0;
    for token in &tokens[..tokens.len() - 1] {
        assert!(!token.lexeme().is_empty());
        let lexeme = String::from_utf8(token.lexeme().clone()).unwrap();
        let found = source[from..].find(&lexeme).expect("the lexeme stands in the source");
        from += found + lexeme.len();
    }
    assert!(tokens.last().unwrap().lexeme().is_empty());
}

#[test]
fn scanning_twice_gives_the_same() {
    for source in ["", "var x = \"a\nb\"; // c\nx >= 1.5", "1 @", "\"open"] {
        let first = run(source.as_bytes().to_vec());
        let second = run(source.as_bytes().to_vec());
        assert_eq!(first, second);
    }
}

#[test]
fn line_is_one_more_than_the_newlines_read() {
    let source = "a\n\"b\nc\"\n/* d\n\n */ e // f\n";
    let mut scanner = Scanner::new(source.as_bytes().to_vec());
    assert_eq!(scanner.scan_tokens(), Ok(()));
    assert_eq!(scanner.line(), 1 + source.bytes().filter(|byte| *byte == b'\n').count());
    assert_eq!(lines(scanner.tokens()), vec![1, 3, 6, 7]);
}

#[test]
fn new_scanner_has_no_tokens() {
    let scanner = Scanner::new(b"1 2".to_vec());
    assert!(scanner.tokens().is_empty());
    assert_eq!(scanner.line(), 1);
    assert!(scanner.into_tokens().is_empty());
}

#[test]
fn scanner_collects_the_tokens() {
    let mut scanner = Scanner::new(b"1 + x".to_vec());
    assert_eq!(scanner.scan_tokens(), Ok(()));
    assert_eq!(
        types(scanner.tokens()),
        vec![TokenType::Number, TokenType::Plus, TokenType::Identifier, TokenType::Eof]
    );
    assert_eq!(scanner.into_tokens(), scan("1 + x"));
}

#[test]
fn scanner_keeps_what_it_read_before_an_error() {
    let mut scanner = Scanner::new(b"1 +\n@ 2".to_vec());
    assert_eq!(
        scanner.scan_tokens(),
        Err(TaalError { kind: ErrorKind::UnknownCharacter, line: 2 })
    );
    assert_eq!(types(scanner.tokens()), vec![TokenType::Number, TokenType::Plus]);
    assert_eq!(scanner.line(), 2);
    // The byte that no rule accepts is not read: scanning on fails on it again.
    assert_eq!(
        scanner.scan_tokens(),
        Err(TaalError { kind: ErrorKind::UnknownCharacter, line: 2 })
    );
    assert_eq!(types(scanner.tokens()), vec![TokenType::Number, TokenType::Plus]);
}

#[test]
fn scanner_at_the_end_reads_only_eof() {
    let mut scanner = Scanner::new(b"\"open\n".to_vec());
    assert_eq!(
        scanner.scan_tokens(),
        Err(TaalError { kind: ErrorKind::UnterminatedString, line: 2 })
    );
    assert!(scanner.tokens().is_empty());
    // The unterminated string was read to the end of the source.
    assert_eq!(scanner.scan_tokens(), Ok(()));
    assert_eq!(types(scanner.tokens()), vec![TokenType::Eof]);
    assert_eq!(lines(scanner.tokens()), vec![2]);
}

#[test]
fn keyword_table() {
    let scanner = Scanner::new(Vec::new());
    assert_eq!(scanner.identify_keyword(b"and"), Ok(TokenType::And));
    assert_eq!(scanner.identify_keyword(b"class"), Ok(TokenType::Class));
    assert_eq!(scanner.identify_keyword(b"else"), Ok(TokenType::Else));
    assert_eq!(scanner.identify_keyword(b"false"), Ok(TokenType::False));
    assert_eq!(scanner.identify_keyword(b"for"), Ok(TokenType::For));
    assert_eq!(scanner.identify_keyword(b"fun"), Ok(TokenType::Fun));
    assert_eq!(scanner.identify_keyword(b"if"), Ok(TokenType::If));
    assert_eq!(scanner.identify_keyword(b"nil"), Ok(TokenType::Nil));
    assert_eq!(scanner.identify_keyword(b"or"), Ok(TokenType::Or));
    assert_eq!(scanner.identify_keyword(b"print"), Ok(TokenType::Print));
    assert_eq!(scanner.identify_keyword(b"return"), Ok(TokenType::Return));
    assert_eq!(scanner.identify_keyword(b"super"), Ok(TokenType::Super));
    assert_eq!(scanner.identify_keyword(b"this"), Ok(TokenType::This));
    assert_eq!(scanner.identify_keyword(b"true"), Ok(TokenType::True));
    assert_eq!(scanner.identify_keyword(b"var"), Ok(TokenType::Var));
    assert_eq!(scanner.identify_keyword(b"while"), Ok(TokenType::While));
    assert_eq!(scanner.identify_keyword(b"whil"), Ok(TokenType::Identifier));
    assert_eq!(scanner.identify_keyword(b"whiles"), Ok(TokenType::Identifier));
    assert_eq!(scanner.identify_keyword(b"While"), Ok(TokenType::Identifier));
    assert_eq!(scanner.identify_keyword(b""), Ok(TokenType::Identifier));
    assert_eq!(scanner.identify_keyword("é".as_bytes()), Ok(TokenType::Identifier));
}

#[test]
fn keyword_table_refuses_bytes_that_are_no_text() {
    let scanner = Scanner::new(Vec::new());
    assert_eq!(
        scanner.identify_keyword(&[0xff, 0xfe]),
        Err(TaalError { kind: ErrorKind::InvalidText, line: 1 })
    );
    // A sequence that stops in the middle of a character.
    assert_eq!(
        scanner.identify_keyword(&[b'a', 0xc3]),
        Err(TaalError { kind: ErrorKind::InvalidText, line: 1 })
    );
    let mut scanner = Scanner::new(b"\n\n".to_vec());
    assert_eq!(scanner.scan_tokens(), Ok(()));
    assert_eq!(
        scanner.identify_keyword(&[0x80]),
        Err(TaalError { kind: ErrorKind::InvalidText, line: 3 })
    );
}

#[test]
fn looking_ahead_stays_within_the_source() {
    let scanner = Scanner::new(b"ab".to_vec());
    assert_eq!(scanner.peek(0), b'a');
    assert_eq!(scanner.peek(1), b'b');
    assert_eq!(scanner.peek(2), 0);
    assert_eq!(scanner.peek(usize::MAX), 0);
    assert!(!scanner.peek_is_end(0));
    assert!(!scanner.peek_is_end(1));
    assert!(scanner.peek_is_end(2));
    assert!(scanner.peek_is_end(usize::MAX));
    assert!(!scanner.at_end());
}

#[test]
fn cursor_of_an_empty_source_is_at_the_end() {
    let scanner = Scanner::new(Vec::new());
    assert!(scanner.at_end());
    assert!(scanner.peek_is_end(0));
    assert_eq!(scanner.peek(0), 0);
}

#[test]
fn cursor_after_a_scan() {
    let mut scanner = Scanner::new(b"a b".to_vec());
    assert_eq!(scanner.scan_tokens(), Ok(()));
    assert!(scanner.at_end());
    assert!(scanner.peek_is_end(0));
    assert_eq!(scanner.peek(0), 0);
    assert_eq!(scanner.peek(usize::MAX), 0);

    let mut scanner = Scanner::new(b"a @b".to_vec());
    assert!(scanner.scan_tokens().is_err());
    assert!(!scanner.at_end());
    assert_eq!(scanner.peek(0), b'@');
    assert_eq!(scanner.peek(1), b'b');
    assert_eq!(scanner.peek(2), 0);
    assert!(scanner.peek_is_end(usize::MAX));
}
