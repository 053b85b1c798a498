use jlox::scanner::{is_alnum, is_alpha, is_digit, ScanError, ScanPanic, Scanner};
use jlox::tokentype::{Token, TokenType};

fn scan(src: &str) -> (Result<(), ScanPanic>, Vec<Token>, Vec<ScanError>) {
    let mut s = Scanner::new(src.to_string());
    let r = s.scan_tokens();
    (r, s.tokens, s.errors)
}

fn kinds(tokens: &[Token]) -> Vec<TokenType> {
    tokens.iter().map(|t| t.token_type).collect()
}

fn tok(t: TokenType, lexeme: Option<&str>, line: usize) -> Token {
    Token { token_type: t, lexeme: lexeme.map(|s| s.to_string()), line }
}

#[test]
fn scan_empty_source_gives_only_eof() {
    let (r, tokens, errors) = scan("");
    assert_eq!(r, Ok(()));
    assert_eq!(tokens, vec![tok(TokenType::Eof, None, 1)]);
    assert!(errors.is_empty());
}

#[test]
fn scan_single_character_tokens() {
    let (r, tokens, _) = scan("(){};,.+-*");
    assert_eq!(r, Ok(()));
    assert_eq!(
        kinds(&tokens),
        vec![
            TokenType::LeftParen,
            TokenType::RightParen,
            TokenType::LeftBrace,
            TokenType::RightBrace,
            TokenType::Semicolon,
            TokenType::Comma,
            TokenType::Dot,
            TokenType::Plus,
            TokenType::Minus,
            TokenType::Star,
            TokenType::Eof,
        ]
    );
    assert!(tokens.iter().all(|t| t.lexeme.is_none() && t.line == 1));
}

#[test]
fn scan_one_or_two_character_operators() {
    let (r, tokens, _) = scan("! != = == > >= < <=");
    assert_eq!(r, Ok(()));
    assert_eq!(
        kinds(&tokens),
        vec![
            TokenType::Bang,
            TokenType::BangEqual,
            TokenType::Equal,
            TokenType::EqualEqual,
            TokenType::Greater,
            TokenType::GreaterEqual,
            TokenType::Less,
            TokenType::LessEqual,
            TokenType::Eof,
        ]
    );
}

#[test]
fn scan_operator_at_end_of_text() {
    let (r, tokens, _) = scan("=");
    assert_eq!(r, Ok(()));
    assert_eq!(kinds(&tokens), vec![TokenType::Equal, TokenType::Eof]);
}

#[test]
fn scan_line_comment_is_skipped() {
    let (r, tokens, _) = scan("// a comment ( ) \n+ / *");
    assert_eq!(r, Ok(()));
    assert_eq!(
        tokens,
        vec![
            tok(TokenType::Plus, None, 2),
            tok(TokenType::Slash, None, 2),
            tok(TokenType::Star, None, 2),
            tok(TokenType::Eof, None, 2),
        ]
    );
}

#[test]
fn scan_comment_at_end_of_text() {
    let (r, tokens, _) = scan("1 // done");
    assert_eq!(r, Ok(()));
    assert_eq!(tokens, vec![tok(TokenType::Number, Some("1"), 1), tok(TokenType::Eof, None, 1)]);
}

#[test]
fn scan_newlines_and_whitespace_count_lines() {
    let (r, tokens, _) = scan(" \t\r\n\n;");
    assert_eq!(r, Ok(()));
    assert_eq!(tokens, vec![tok(TokenType::Semicolon, None, 3), tok(TokenType::Eof, None, 3)]);
}

#[test]
fn scan_numbers_keep_their_digits() {
    let (r, tokens, _) = scan("123 45.67 8. 9.x");
    assert_eq!(r, Ok(()));
    assert_eq!(
        tokens,
        vec![
            tok(TokenType::Number, Some("123"), 1),
            tok(TokenType::Number, Some("45.67"), 1),
            tok(TokenType::Number, Some("8"), 1),
            tok(TokenType::Dot, None, 1),
            tok(TokenType::Number, Some("9"), 1),
            tok(TokenType::Dot, None, 1),
            tok(TokenType::Identifier, Some("x"), 1),
            tok(TokenType::Eof, None, 1),
        ]
    );
}

#[test]
fn scan_string_literal_carries_text_between_quotes() {
    let (r, tokens, _) = scan("\"hi there\";");
    assert_eq!(r, Ok(()));
    assert_eq!(
        tokens,
        vec![
            tok(TokenType::StringLiteral, Some("hi there"), 1),
            tok(TokenType::Semicolon, None, 1),
            tok(TokenType::Eof, None, 1),
        ]
    );
}

#[test]
fn scan_empty_string_literal() {
    let (r, tokens, _) = scan("\"\"");
    assert_eq!(r, Ok(()));
    assert_eq!(tokens, vec![tok(TokenType::StringLiteral, Some(""), 1), tok(TokenType::Eof, None, 1)]);
}

#[test]
fn scan_multiline_string_counts_its_lines() {
    let (r, tokens, _) = scan("\"a\nb\" x");
    assert_eq!(r, Ok(()));
    assert_eq!(
        tokens,
        vec![
            tok(TokenType::StringLiteral, Some("a\nb"), 2),
            tok(TokenType::Identifier, Some("x"), 2),
            tok(TokenType::Eof, None, 2),
        ]
    );
}

#[test]
fn scan_unterminated_string_fails() {
    let (r, _, _) = scan("print(\"open");
    assert_eq!(r, Err(ScanPanic::UnterminatedString));
}

#[test]
fn scan_keywords_and_identifiers() {
    let (r, tokens, _) = scan("var x = nil; while fun for orchid and class else false if or print return super this true");
    assert_eq!(r, Ok(()));
    assert_eq!(
        kinds(&tokens),
        vec![
            TokenType::Var,
            TokenType::Identifier,
            TokenType::Equal,
            TokenType::Nil,
            TokenType::Semicolon,
            TokenType::While,
            TokenType::Fun,
            TokenType::For,
            TokenType::Identifier,
            TokenType::And,
            TokenType::Class,
            TokenType::Else,
            TokenType::False,
            TokenType::If,
            TokenType::Or,
            TokenType::Print,
            TokenType::Return,
            TokenType::Super,
            TokenType::This,
            TokenType::True,
            TokenType::Eof,
        ]
    );
    assert_eq!(tokens[1].lexeme, Some("x".to_string()));
    assert_eq!(tokens[8].lexeme, Some("orchid".to_string()));
    assert_eq!(tokens[0].lexeme, None);
}

#[test]
fn scan_break_and_continue_are_identifiers() {
    let (r, tokens, _) = scan("break continue");
    assert_eq!(r, Ok(()));
    assert_eq!(
        tokens,
        vec![
            tok(TokenType::Identifier, Some("break"), 1),
            tok(TokenType::Identifier, Some("continue"), 1),
            tok(TokenType::Eof, None, 1),
        ]
    );
}

#[test]
fn scan_unexpected_character_is_reported() {
    let (r, tokens, errors) = scan("a @ b\n#");
    assert_eq!(r, Ok(()));
    assert_eq!(
        tokens,
        vec![
            tok(TokenType::Identifier, Some("a"), 1),
            tok(TokenType::Identifier, Some("b"), 1),
            tok(TokenType::Eof, None, 2),
        ]
    );
    assert_eq!(errors, vec![ScanError { line: 1, ch: '@' }, ScanError { line: 2, ch: '#' }]);
}

#[test]
fn scan_non_ascii_character_is_reported_with_padding() {
    // The text has one character but two bytes: the scanner reads the
    // character, then a '\0' past the last character, before its byte index
    // reaches the end.
    let (r, tokens, errors) = scan("é");
    assert_eq!(r, Ok(()));
    assert_eq!(tokens, vec![tok(TokenType::Eof, None, 1)]);
    assert_eq!(errors, vec![ScanError { line: 1, ch: 'é' }, ScanError { line: 1, ch: '\0' }]);
}

#[test]
fn scan_lexeme_cut_inside_a_character_fails() {
    let (r, _, _) = scan("éa");
    assert_eq!(r, Err(ScanPanic::BadSlice { from: 1, to: 2 }));
}

#[test]
fn scan_tokens_end_with_one_eof_and_lines_never_decrease() {
    let src = "var a = 1;\nfun f(x) {\n  return x + \"s\";\n}\nprint(f(a)); // done\n";
    let (r, tokens, errors) = scan(src);
    assert_eq!(r, Ok(()));
    assert!(errors.is_empty());
    assert_eq!(tokens.last().unwrap().token_type, TokenType::Eof);
    assert_eq!(tokens.iter().filter(|t| t.token_type == TokenType::Eof).count(), 1);
    assert_eq!(tokens.last().unwrap().line, 6);
    for w in tokens.windows(2) {
        assert!(w[0].line <= w[1].line);
    }
    for t in &tokens {
        match t.token_type {
            TokenType::Identifier | TokenType::Number | TokenType::StringLiteral => {
                assert!(t.lexeme.is_some())
            }
            _ => assert!(t.lexeme.is_none()),
        }
    }
}

#[test]
fn scan_identifier_lexemes_are_never_keywords() {
    let (r, tokens, _) = scan("variable classy fun1 nil0 whiles");
    assert_eq!(r, Ok(()));
    assert_eq!(tokens.len(), 6);
    assert!(tokens[..5].iter().all(|t| t.token_type == TokenType::Identifier));
    // `if_` is `if` followed by an unexpected `_`.
    let (_, tokens2, errors2) = scan("if_");
    assert_eq!(kinds(&tokens2), vec![TokenType::If, TokenType::Eof]);
    assert_eq!(errors2, vec![ScanError { line: 1, ch: '_' }]);
}

#[test]
fn scan_ascii_text_fails_only_when_a_string_is_open() {
    for src in ["x = \"a\" + 1.5;", "{}", "!!!", "@@@", "\"\"\"", "1.2.3"] {
        let (r, _, _) = scan(src);
        if src == "\"\"\"" {
            assert_eq!(r, Err(ScanPanic::UnterminatedString));
        } else {
            assert_eq!(r, Ok(()));
        }
    }
}

#[test]
fn scanner_character_helpers() {
    let mut s = Scanner::new("ab".to_string());
    assert_eq!(s.peek(), 'a');
    assert_eq!(s.peek_next(), 'b');
    assert!(!s.is_end());
    assert_eq!(s.advance(), 'a');
    assert_eq!(s.match_token('x'), Ok(false));
    assert_eq!(s.match_token('b'), Ok(true));
    assert!(s.is_end());
    assert_eq!(s.peek(), '\0');
    assert_eq!(s.peek_next(), '\0');
    assert_eq!(s.match_token('b'), Ok(false));
    s.add_token(TokenType::Nil, None);
    assert_eq!(s.tokens, vec![tok(TokenType::Nil, None, 1)]);
}

#[test]
fn scanner_scan_token_one_lexeme_at_a_time() {
    let mut s = Scanner::new("<= 7".to_string());
    assert_eq!(s.scan_token(), Ok(()));
    assert_eq!(s.tokens, vec![tok(TokenType::LessEqual, None, 1)]);
}

#[test]
fn character_classes() {
    assert!(is_digit('0') && is_digit('9') && !is_digit('a'));
    assert!(is_alpha('a') && is_alpha('Z') && !is_alpha('_') && !is_alpha('1') && !is_alpha('é'));
    assert!(is_alnum('q') && is_alnum('5') && !is_alnum(' '));
}

#[test]
fn scan_operator_after_multibyte_character_runs_out_of_characters() {
    // After `é` and `!` the byte index (2) is short of the byte length (3),
    // but there is no third character to compare with `=`.
    let (r, _, errors) = scan("é!");
    assert_eq!(r, Err(ScanPanic::MissingChar));
    assert_eq!(errors, vec![ScanError { line: 1, ch: 'é' }]);
}

#[test]
fn unterminated_string_literal_adds_no_token() {
    let mut s = Scanner::new("\"abc".to_string());
    assert_eq!(s.advance(), '"');
    assert_eq!(s.string_literal(), Err(ScanPanic::UnterminatedString));
    assert!(s.tokens().is_empty());
}

#[test]
fn failed_scan_keeps_tokens_before_the_failing_lexeme() {
    let mut s = Scanner::new("a @ \"open".to_string());
    assert_eq!(s.scan_tokens(), Err(ScanPanic::UnterminatedString));
    assert_eq!(s.tokens(), &vec![tok(TokenType::Identifier, Some("a"), 1)]);
    assert_eq!(s.errors(), &vec![ScanError { line: 1, ch: '@' }]);
}

#[test]
fn scanner_accessors() {
    let mut s = Scanner::new("x;".to_string());
    assert_eq!(s.scan_tokens(), Ok(()));
    assert!(s.errors().is_empty());
    assert_eq!(s.tokens().len(), 3);
    let toks = s.into_tokens();
    assert_eq!(kinds(&toks), vec![TokenType::Identifier, TokenType::Semicolon, TokenType::Eof]);
}
