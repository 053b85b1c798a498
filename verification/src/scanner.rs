use vstd::prelude::*;
use vstd::string::*;
use vstd::utf8::*;

use crate::tokentype::{Token, TokenType, TokenView, token_views};

verus! {

broadcast use encode_utf8_valid_utf8, encode_utf8_decode_utf8;

// ---------------------------------------------------------------------------
// The lexical grammar, as spec functions over the source text.
//
// The scanner reads characters by their index in the text, but it decides
// that the text has ended by comparing that index with the text's length in
// UTF-8 bytes, and it cuts lexemes out of the text by byte offsets. On ASCII
// text the two coincide; the functions below state the behaviour on any text.
// ---------------------------------------------------------------------------

/// An "unexpected character" report: the line and the character.
#[derive(Debug, Clone, Copy, PartialEq, Eq, Structural)]
pub struct ScanError {
    pub line: usize,
    pub ch: char,
}

/// The ways in which scanning stops before the end of the text.
#[derive(Debug, Clone, Copy, PartialEq, Eq, Structural)]
pub enum ScanPanic {
    /// A string literal is still open at the end of the text.
    UnterminatedString,
    /// A lexeme would be cut out of the text at a byte offset that is not a
    /// character boundary (or that lies past the end of the text).
    BadSlice { from: usize, to: usize },
    /// A character is asked for at an index past the last character while
    /// the byte length says the text has not ended.
    MissingChar,
}

/// The state of a scan: where the current lexeme starts, the index of the
/// next character, the current line, the tokens so far and the reports so far.
pub struct ScanState {
    pub start: nat,
    pub current: nat,
    pub line: nat,
    pub tokens: Seq<TokenView>,
    pub errors: Seq<ScanError>,
}

/// The length of the text in UTF-8 bytes.
pub open spec fn byte_len(src: Seq<char>) -> nat {
    encode_utf8(src).len()
}

/// The character at index `i`, or `'\0'` past the last one.
pub open spec fn char_at(src: Seq<char>, i: int) -> char {
    if 0 <= i < src.len() {
        src[i]
    } else {
        '\0'
    }
}

pub open spec fn spec_is_digit(c: char) -> bool {
    '0' <= c <= '9'
}

pub open spec fn spec_is_alpha(c: char) -> bool {
    ('a' <= c <= 'z') || ('A' <= c <= 'Z')
}

pub open spec fn spec_is_alnum(c: char) -> bool {
    spec_is_digit(c) || spec_is_alpha(c)
}

/// The reserved words and their token kinds.
pub open spec fn keyword_table() -> Seq<(Seq<char>, TokenType)> {
    seq![
        ("and"@, TokenType::And),
        ("class"@, TokenType::Class),
        ("else"@, TokenType::Else),
        ("false"@, TokenType::False),
        ("for"@, TokenType::For),
        ("fun"@, TokenType::Fun),
        ("if"@, TokenType::If),
        ("nil"@, TokenType::Nil),
        ("or"@, TokenType::Or),
        ("print"@, TokenType::Print),
        ("return"@, TokenType::Return),
        ("super"@, TokenType::Super),
        ("this"@, TokenType::This),
        ("true"@, TokenType::True),
        ("var"@, TokenType::Var),
        ("while"@, TokenType::While),
    ]
}

/// The kind of the first entry of `table` whose word is `text`.
pub open spec fn lookup_keyword(table: Seq<(Seq<char>, TokenType)>, text: Seq<char>) -> Option<
    TokenType,
>
    decreases table.len(),
{
    if table.len() == 0 {
        None
    } else if table[0].0 == text {
        Some(table[0].1)
    } else {
        lookup_keyword(table.drop_first(), text)
    }
}

/// The token kind of a reserved word, if `text` is one.
pub open spec fn keyword_of(text: Seq<char>) -> Option<TokenType> {
    lookup_keyword(keyword_table(), text)
}

/// The text between byte offsets `from` and `to`, or the failure of cutting it.
pub open spec fn spec_slice(src: Seq<char>, from: nat, to: nat) -> Result<Seq<char>, ScanPanic> {
    let b = encode_utf8(src);
    if from <= to && is_char_boundary(b, from as int) && is_char_boundary(b, to as int) {
        Ok(decode_utf8(b.subrange(from as int, to as int)))
    } else {
        Err(ScanPanic::BadSlice { from: from as usize, to: to as usize })
    }
}

pub open spec fn at_end(src: Seq<char>, st: ScanState) -> bool {
    st.current >= byte_len(src)
}

pub open spec fn with_current(st: ScanState, current: nat) -> ScanState {
    ScanState { current, ..st }
}

pub open spec fn push_token(st: ScanState, t: TokenType, lexeme: Option<Seq<char>>) -> ScanState {
    ScanState {
        tokens: st.tokens.push(TokenView { token_type: t, lexeme, line: st.line }),
        ..st
    }
}

/// `match_token`: consumes the next character if it is `expected`.
pub open spec fn spec_match(src: Seq<char>, st: ScanState, expected: char) -> Result<
    (bool, ScanState),
    ScanPanic,
> {
    if at_end(src, st) {
        Ok((false, st))
    } else if st.current >= src.len() {
        Err(ScanPanic::MissingChar)
    } else if src[st.current as int] != expected {
        Ok((false, st))
    } else {
        Ok((true, with_current(st, st.current + 1)))
    }
}

/// The index of the first character at or after `i` that is not a letter or digit.
pub open spec fn skip_alnum(src: Seq<char>, i: nat) -> nat
    decreases src.len() - i,
{
    if spec_is_alnum(char_at(src, i as int)) {
        skip_alnum(src, i + 1)
    } else {
        i
    }
}

/// The index of the first character at or after `i` that is not a digit.
pub open spec fn skip_digits(src: Seq<char>, i: nat) -> nat
    decreases src.len() - i,
{
    if spec_is_digit(char_at(src, i as int)) {
        skip_digits(src, i + 1)
    } else {
        i
    }
}

/// The end of a line comment that goes on at index `i`: the index of the next
/// newline, or the first index at the end of the text.
pub open spec fn skip_comment(src: Seq<char>, i: nat) -> nat
    decreases byte_len(src) - i,
{
    if char_at(src, i as int) != '\n' && i < byte_len(src) {
        skip_comment(src, i + 1)
    } else {
        i
    }
}

/// The body of a string literal from index `i` on line `line`: the index of
/// the closing quote (or of the end of the text) and the line there.
pub open spec fn skip_string(src: Seq<char>, i: nat, line: nat) -> (nat, nat)
    decreases byte_len(src) - i,
{
    if char_at(src, i as int) != '"' && i < byte_len(src) {
        skip_string(src, i + 1, if char_at(src, i as int) == '\n' { line + 1 } else { line })
    } else {
        (i, line)
    }
}

/// `identifier`: the rest of a word, then a keyword or an identifier token.
pub open spec fn spec_identifier(src: Seq<char>, st: ScanState) -> Result<ScanState, ScanPanic> {
    let end = skip_alnum(src, st.current);
    let st1 = with_current(st, end);
    match spec_slice(src, st.start, end) {
        Err(p) => Err(p),
        Ok(text) => match keyword_of(text) {
            Some(k) => Ok(push_token(st1, k, None)),
            None => Ok(push_token(st1, TokenType::Identifier, Some(text))),
        },
    }
}

/// The end of a number literal whose digits go on at index `i`: the integer
/// digits, then a fraction if a `.` is followed by a digit.
pub open spec fn number_end(src: Seq<char>, i: nat) -> nat {
    let int_end = skip_digits(src, i);
    if char_at(src, int_end as int) == '.' && spec_is_digit(char_at(src, int_end + 1 as int)) {
        skip_digits(src, int_end + 1)
    } else {
        int_end
    }
}

/// `number`: the rest of a number literal, then a number token.
pub open spec fn spec_number(src: Seq<char>, st: ScanState) -> Result<ScanState, ScanPanic> {
    let end = number_end(src, st.current);
    match spec_slice(src, st.start, end) {
        Err(p) => Err(p),
        Ok(text) => Ok(push_token(with_current(st, end), TokenType::Number, Some(text))),
    }
}

/// `string_literal`: the rest of a string literal, then a string token that
/// carries the text between the quotes.
pub open spec fn spec_string(src: Seq<char>, st: ScanState) -> Result<ScanState, ScanPanic> {
    let (close, line) = skip_string(src, st.current, st.line);
    if close >= byte_len(src) {
        Err(ScanPanic::UnterminatedString)
    } else {
        let st1 = ScanState { current: close + 1, line, ..st };
        match spec_slice(src, st.start + 1, close) {
            Err(p) => Err(p),
            Ok(text) => Ok(push_token(st1, TokenType::StringLiteral, Some(text))),
        }
    }
}

/// A token of one or two characters: `two` if the next character is `=`.
pub open spec fn spec_one_or_two(
    src: Seq<char>,
    st: ScanState,
    one: TokenType,
    two: TokenType,
) -> Result<ScanState, ScanPanic> {
    match spec_match(src, st, '=') {
        Err(p) => Err(p),
        Ok((true, st2)) => Ok(push_token(st2, two, None)),
        Ok((false, st2)) => Ok(push_token(st2, one, None)),
    }
}

/// `scan_token`: one lexeme, starting at the current index.
pub open spec fn spec_scan_token(src: Seq<char>, st: ScanState) -> Result<ScanState, ScanPanic> {
    let c = char_at(src, st.current as int);
    let st1 = with_current(st, st.current + 1);
    if c == ';' {
        Ok(push_token(st1, TokenType::Semicolon, None))
    } else if c == '(' {
        Ok(push_token(st1, TokenType::LeftParen, None))
    } else if c == ')' {
        Ok(push_token(st1, TokenType::RightParen, None))
    } else if c == '}' {
        Ok(push_token(st1, TokenType::RightBrace, None))
    } else if c == '{' {
        Ok(push_token(st1, TokenType::LeftBrace, None))
    } else if c == ',' {
        Ok(push_token(st1, TokenType::Comma, None))
    } else if c == '.' {
        Ok(push_token(st1, TokenType::Dot, None))
    } else if c == '+' {
        Ok(push_token(st1, TokenType::Plus, None))
    } else if c == '-' {
        Ok(push_token(st1, TokenType::Minus, None))
    } else if c == '*' {
        Ok(push_token(st1, TokenType::Star, None))
    } else if c == '!' {
        spec_one_or_two(src, st1, TokenType::Bang, TokenType::BangEqual)
    } else if c == '=' {
        spec_one_or_two(src, st1, TokenType::Equal, TokenType::EqualEqual)
    } else if c == '>' {
        spec_one_or_two(src, st1, TokenType::Greater, TokenType::GreaterEqual)
    } else if c == '<' {
        spec_one_or_two(src, st1, TokenType::Less, TokenType::LessEqual)
    } else if c == '/' {
        match spec_match(src, st1, '/') {
            Err(p) => Err(p),
            Ok((true, st2)) => Ok(with_current(st2, skip_comment(src, st2.current))),
            Ok((false, st2)) => Ok(push_token(st2, TokenType::Slash, None)),
        }
    } else if c == ' ' || c == '\t' || c == '\r' {
        Ok(st1)
    } else if c == '\n' {
        Ok(ScanState { line: st1.line + 1, ..st1 })
    } else if c == '"' {
        spec_string(src, st1)
    } else if spec_is_digit(c) {
        spec_number(src, st1)
    } else if spec_is_alpha(c) {
        spec_identifier(src, st1)
    } else {
        Ok(ScanState { errors: st1.errors.push(ScanError { line: st.line as usize, ch: c }), ..st1 })
    }
}

/// `scan_tokens` from state `st` on: lexemes until the end of the text, then
/// the end-of-file token.
pub open spec fn spec_scan_from(src: Seq<char>, st: ScanState) -> Result<ScanState, ScanPanic>
    decreases byte_len(src) - st.current,
{
    if at_end(src, st) {
        Ok(push_token(st, TokenType::Eof, None))
    } else {
        let st0 = ScanState { start: st.current, ..st };
        match spec_scan_token(src, st0) {
            Err(p) => Err(p),
            Ok(st2) => {
                proof {
                    lemma_scan_token_advances(src, st0);
                }
                spec_scan_from(src, st2)
            },
        }
    }
}

/// Where `scan_tokens` from state `st` stops when it fails: the state at the
/// start of the lexeme that cannot be scanned, which holds the tokens and
/// reports kept until then.
pub open spec fn spec_scan_stop(src: Seq<char>, st: ScanState) -> ScanState
    decreases byte_len(src) - st.current,
{
    if at_end(src, st) {
        st
    } else {
        let st0 = ScanState { start: st.current, ..st };
        match spec_scan_token(src, st0) {
            Err(_) => st0,
            Ok(st2) => {
                proof {
                    lemma_scan_token_advances(src, st0);
                }
                spec_scan_stop(src, st2)
            },
        }
    }
}

/// The state of a fresh scanner.
pub open spec fn initial_state() -> ScanState {
    ScanState { start: 0, current: 0, line: 1, tokens: seq![], errors: seq![] }
}

/// What scanning a whole text gives: the tokens and reports, or the failure.
pub open spec fn spec_scan(src: Seq<char>) -> Result<ScanState, ScanPanic> {
    spec_scan_from(src, initial_state())
}

proof fn lemma_skip_alnum(src: Seq<char>, i: nat)
    ensures
        i <= skip_alnum(src, i),
        skip_alnum(src, i) <= if i <= src.len() { src.len() } else { i },
    decreases src.len() - i,
{
    if spec_is_alnum(char_at(src, i as int)) {
        lemma_skip_alnum(src, i + 1);
    }
}

proof fn lemma_skip_digits(src: Seq<char>, i: nat)
    ensures
        i <= skip_digits(src, i),
        skip_digits(src, i) <= if i <= src.len() { src.len() } else { i },
    decreases src.len() - i,
{
    if spec_is_digit(char_at(src, i as int)) {
        lemma_skip_digits(src, i + 1);
    }
}

proof fn lemma_skip_comment(src: Seq<char>, i: nat)
    ensures
        i <= skip_comment(src, i),
        skip_comment(src, i) <= if i <= byte_len(src) { byte_len(src) } else { i },
    decreases byte_len(src) - i,
{
    if char_at(src, i as int) != '\n' && i < byte_len(src) {
        lemma_skip_comment(src, i + 1);
    }
}

proof fn lemma_skip_string(src: Seq<char>, i: nat, line: nat)
    ensures
        i <= skip_string(src, i, line).0,
        skip_string(src, i, line).0 <= if i <= byte_len(src) { byte_len(src) } else { i },
        line <= skip_string(src, i, line).1,
        skip_string(src, i, line).1 - line <= skip_string(src, i, line).0 - i,
    decreases byte_len(src) - i,
{
    if char_at(src, i as int) != '"' && i < byte_len(src) {
        lemma_skip_string(
            src,
            i + 1,
            if char_at(src, i as int) == '\n' { line + 1 } else { line },
        );
    }
}

/// The characters of a text are at most its bytes.
pub proof fn lemma_chars_le_bytes(src: Seq<char>)
    ensures
        src.len() <= byte_len(src),
    decreases src.len(),
{
    if src.len() > 0 {
        lemma_chars_le_bytes(src.drop_first());
    }
}

/// Facts about one `scan_token` step that starts inside the text: the index
/// moves forward and stays within the text, the line grows no faster than
/// the index, and tokens and reports are only appended.
pub proof fn lemma_scan_token_advances(src: Seq<char>, st: ScanState)
    requires
        st.current < byte_len(src),
    ensures
        spec_scan_token(src, st) matches Ok(st2) ==> {
            &&& st.current < st2.current <= byte_len(src)
            &&& st.line <= st2.line
            &&& st2.line - st.line <= st2.current - st.current
            &&& st2.start == st.start
            &&& st2.tokens.len() >= st.tokens.len()
            &&& st2.tokens.subrange(0, st.tokens.len() as int) == st.tokens
            &&& st2.errors.len() >= st.errors.len()
            &&& st2.errors.subrange(0, st.errors.len() as int) == st.errors
        },
{
    lemma_chars_le_bytes(src);
    let st1 = with_current(st, st.current + 1);
    lemma_skip_alnum(src, st1.current);
    lemma_skip_digits(src, st1.current);
    let ie = skip_digits(src, st1.current);
    lemma_skip_digits(src, ie + 1);
    lemma_skip_comment(src, st1.current + 1);
    lemma_skip_comment(src, st1.current);
    lemma_skip_string(src, st1.current, st1.line);
    assert(st.tokens.push(TokenView { token_type: TokenType::Eof, lexeme: None, line: 0 }).subrange(
        0,
        st.tokens.len() as int,
    ) == st.tokens);
}

/// Whether a token kind is that of a reserved word.
pub open spec fn is_keyword_kind(k: TokenType) -> bool {
    matches!(k, TokenType::And | TokenType::Class | TokenType::Else | TokenType::False
        | TokenType::For | TokenType::Fun | TokenType::If | TokenType::Nil | TokenType::Or
        | TokenType::Print | TokenType::Return | TokenType::Super | TokenType::This
        | TokenType::True | TokenType::Var | TokenType::While)
}

/// A token that scanning a lexeme can give: an identifier carries its text,
/// which is no reserved word; a number or a string carries its text; a
/// reserved word or a punctuation token carries none; none is the
/// end-of-file token.
pub open spec fn token_ok(t: TokenView) -> bool {
    match t.token_type {
        TokenType::Identifier => t.lexeme matches Some(x) && keyword_of(x) is None,
        TokenType::Number | TokenType::StringLiteral => t.lexeme is Some,
        TokenType::Eof | TokenType::Break | TokenType::Continue => false,
        _ => t.lexeme is None,
    }
}

/// The tokens of a scan so far are all `token_ok`, on lines that do not
/// decrease and that are not past the current line.
pub open spec fn tokens_sound(st: ScanState) -> bool {
    &&& forall|i: int| 0 <= i < st.tokens.len() ==> token_ok(#[trigger] st.tokens[i])
    &&& forall|i: int| 0 <= i < st.tokens.len() ==> (#[trigger] st.tokens[i]).line <= st.line
    &&& forall|i: int, j: int|
        0 <= i < j < st.tokens.len() ==> (#[trigger] st.tokens[i]).line <= (#[trigger] st.tokens[j]).line
}

proof fn lemma_lookup_keyword_kind(table: Seq<(Seq<char>, TokenType)>, text: Seq<char>)
    requires
        forall|i: int| 0 <= i < table.len() ==> is_keyword_kind(#[trigger] table[i].1),
    ensures
        lookup_keyword(table, text) matches Some(k) ==> is_keyword_kind(k),
    decreases table.len(),
{
    if table.len() > 0 && table[0].0 != text {
        let rest = table.drop_first();
        assert forall|i: int| 0 <= i < rest.len() implies is_keyword_kind(#[trigger] rest[i].1) by {
            assert(rest[i] == table[i + 1]);
        }
        lemma_lookup_keyword_kind(rest, text);
    }
}

/// The kind that `keyword_of` gives is that of a reserved word.
pub proof fn lemma_keyword_kind(text: Seq<char>)
    ensures
        keyword_of(text) matches Some(k) ==> is_keyword_kind(k),
{
    let t = keyword_table();
    assert forall|i: int| 0 <= i < t.len() implies is_keyword_kind(#[trigger] t[i].1) by {}
    lemma_lookup_keyword_kind(t, text);
}

/// Pushing a `token_ok` token on the current line keeps the tokens sound.
proof fn lemma_push_sound(st: ScanState, t: TokenType, lexeme: Option<Seq<char>>)
    requires
        tokens_sound(st),
        token_ok(TokenView { token_type: t, lexeme, line: st.line }),
    ensures
        tokens_sound(push_token(st, t, lexeme)),
{
    let st2 = push_token(st, t, lexeme);
    assert forall|i: int| 0 <= i < st2.tokens.len() implies token_ok(#[trigger] st2.tokens[i]) by {
        if i < st.tokens.len() {
            assert(st2.tokens[i] == st.tokens[i]);
        }
    }
    assert forall|i: int, j: int| 0 <= i < j < st2.tokens.len() implies (
    #[trigger] st2.tokens[i]).line <= (#[trigger] st2.tokens[j]).line by {
        assert(st2.tokens[i] == st.tokens[i]);
        if j < st.tokens.len() {
            assert(st2.tokens[j] == st.tokens[j]);
        }
    }
}

/// One `scan_token` step keeps the tokens sound.
proof fn lemma_scan_token_sound(src: Seq<char>, st: ScanState)
    requires
        tokens_sound(st),
        st.current < byte_len(src),
    ensures
        spec_scan_token(src, st) matches Ok(st2) ==> tokens_sound(st2),
{
    let c = char_at(src, st.current as int);
    let st1 = with_current(st, st.current + 1);
    assert(tokens_sound(st1));
    if c == '!' || c == '=' || c == '>' || c == '<' || c == '/' {
        match spec_match(src, st1, if c == '/' { '/' } else { '=' }) {
            Ok((_, st2)) => {
                assert(tokens_sound(st2));
            },
            Err(_) => {},
        }
    }
    if c == '"' {
        let (close, line) = skip_string(src, st1.current, st1.line);
        lemma_skip_string(src, st1.current, st1.line);
        let st2 = ScanState { current: close + 1, line, ..st1 };
        assert(tokens_sound(st2));
        match spec_slice(src, st1.start + 1, close) {
            Ok(text) => lemma_push_sound(st2, TokenType::StringLiteral, Some(text)),
            Err(_) => {},
        }
    } else if spec_is_digit(c) {
        let end = number_end(src, st1.current);
        match spec_slice(src, st1.start, end) {
            Ok(text) => lemma_push_sound(with_current(st1, end), TokenType::Number, Some(text)),
            Err(_) => {},
        }
    } else if spec_is_alpha(c) {
        let end = skip_alnum(src, st1.current);
        match spec_slice(src, st1.start, end) {
            Ok(text) => {
                lemma_keyword_kind(text);
                match keyword_of(text) {
                    Some(k) => lemma_push_sound(with_current(st1, end), k, None),
                    None => lemma_push_sound(
                        with_current(st1, end),
                        TokenType::Identifier,
                        Some(text),
                    ),
                }
            },
            Err(_) => {},
        }
    } else if c == '\n' {
        assert(tokens_sound(ScanState { line: st1.line + 1, ..st1 }));
    } else if !(c == ' ' || c == '\t' || c == '\r') {
        assert(tokens_sound(
            ScanState { errors: st1.errors.push(ScanError { line: st.line as usize, ch: c }), ..st1 },
        ));
    }
    match spec_match(src, st1, '=') {
        Ok((_, st2)) => {
            lemma_push_sound(st2, TokenType::Bang, None);
            lemma_push_sound(st2, TokenType::BangEqual, None);
            lemma_push_sound(st2, TokenType::Equal, None);
            lemma_push_sound(st2, TokenType::EqualEqual, None);
            lemma_push_sound(st2, TokenType::Greater, None);
            lemma_push_sound(st2, TokenType::GreaterEqual, None);
            lemma_push_sound(st2, TokenType::Less, None);
            lemma_push_sound(st2, TokenType::LessEqual, None);
        },
        Err(_) => {},
    }
    match spec_match(src, st1, '/') {
        Ok((_, st2)) => {
            assert(tokens_sound(with_current(st2, skip_comment(src, st2.current))));
            lemma_push_sound(st2, TokenType::Slash, None);
        },
        Err(_) => {},
    }
    lemma_push_sound(st1, TokenType::Semicolon, None);
    lemma_push_sound(st1, TokenType::LeftParen, None);
    lemma_push_sound(st1, TokenType::RightParen, None);
    lemma_push_sound(st1, TokenType::RightBrace, None);
    lemma_push_sound(st1, TokenType::LeftBrace, None);
    lemma_push_sound(st1, TokenType::Comma, None);
    lemma_push_sound(st1, TokenType::Dot, None);
    lemma_push_sound(st1, TokenType::Plus, None);
    lemma_push_sound(st1, TokenType::Minus, None);
    lemma_push_sound(st1, TokenType::Star, None);
}

/// Scanning on from a sound state ends, if it succeeds, with sound tokens
/// followed by one end-of-file token on the last line.
proof fn lemma_scan_from_sound(src: Seq<char>, st: ScanState)
    requires
        tokens_sound(st),
    ensures
        spec_scan_from(src, st) matches Ok(fin) ==> {
            &&& fin.tokens.len() >= 1
            &&& tokens_sound(ScanState { tokens: fin.tokens.drop_last(), ..fin })
            &&& fin.tokens.last() == (TokenView { token_type: TokenType::Eof, lexeme: None, line: fin.line })
        },
    decreases byte_len(src) - st.current,
{
    if at_end(src, st) {
        let fin = push_token(st, TokenType::Eof, None);
        assert(fin.tokens.drop_last() =~= st.tokens);
    } else {
        let st0 = ScanState { start: st.current, ..st };
        lemma_scan_token_sound(src, st0);
        lemma_scan_token_advances(src, st0);
        match spec_scan_token(src, st0) {
            Ok(st2) => lemma_scan_from_sound(src, st2),
            Err(_) => {},
        }
    }
}

/// What a successful scan gives: its tokens end with exactly one end-of-file
/// token, on the last line and with no text; before it, every identifier
/// carries its text, which is no reserved word, every number and string
/// carries its text, every other token carries none; and the lines of the
/// tokens never decrease.
pub proof fn lemma_scan_shape(src: Seq<char>)
    ensures
        spec_scan(src) matches Ok(fin) ==> {
            let n = fin.tokens.len();
            &&& n >= 1
            &&& fin.tokens[n - 1] == (TokenView { token_type: TokenType::Eof, lexeme: None, line: fin.line })
            &&& forall|i: int| 0 <= i < n - 1 ==> token_ok(#[trigger] fin.tokens[i])
            &&& forall|i: int, j: int|
                0 <= i < j < n ==> (#[trigger] fin.tokens[i]).line <= (#[trigger] fin.tokens[j]).line
        },
{
    lemma_scan_from_sound(src, initial_state());
    match spec_scan(src) {
        Ok(fin) => {
            let n = fin.tokens.len();
            let pre = fin.tokens.drop_last();
            assert forall|i: int| 0 <= i < n - 1 implies token_ok(#[trigger] fin.tokens[i]) by {
                assert(fin.tokens[i] == pre[i]);
            }
            assert forall|i: int, j: int| 0 <= i < j < n implies (#[trigger] fin.tokens[i]).line <= (
            #[trigger] fin.tokens[j]).line by {
                assert(fin.tokens[i] == pre[i]);
                if j < n - 1 {
                    assert(fin.tokens[j] == pre[j]);
                }
            }
        },
        Err(_) => {},
    }
}

/// Whether every character of the text is ASCII.
pub open spec fn is_ascii_text(src: Seq<char>) -> bool {
    forall|i: int| 0 <= i < src.len() ==> (#[trigger] src[i] as u32) < 128
}

/// An ASCII text is encoded one byte per character, each below 128.
proof fn lemma_ascii_bytes(src: Seq<char>)
    requires
        is_ascii_text(src),
    ensures
        encode_utf8(src).len() == src.len(),
        forall|i: int| 0 <= i < src.len() ==> #[trigger] encode_utf8(src)[i] < 128,
        forall|i: int|
            0 <= i < src.len() ==> #[trigger] encode_utf8(src)[i] == leading_byte_width_1(
                src[i] as u32,
            ),
    decreases src.len(),
{
    if src.len() > 0 {
        let rest = src.drop_first();
        assert forall|i: int| 0 <= i < rest.len() implies (#[trigger] rest[i] as u32) < 128 by {
            assert(rest[i] == src[i + 1]);
        }
        lemma_ascii_bytes(rest);
        let x: u32 = src[0] as u32;
        assert(x < 128);
        assert(((x & 0x7Fu32) as u8) < 128) by (bit_vector);
        assert(encode_scalar(x) =~= seq![leading_byte_width_1(x)]);
        let b = encode_utf8(src);
        assert(b =~= encode_scalar(x) + encode_utf8(rest));
        assert forall|i: int| 0 <= i < src.len() implies #[trigger] b[i] < 128 && b[i]
            == leading_byte_width_1(src[i] as u32) by {
            if i > 0 {
                assert(b[i] == encode_utf8(rest)[i - 1]);
                assert(rest[i - 1] == src[i]);
            }
        }
    }
}

/// In an ASCII text, the text between two offsets is cut out as those
/// characters.
pub proof fn lemma_ascii_slice(src: Seq<char>, from: nat, to: nat)
    requires
        is_ascii_text(src),
        from <= to <= src.len(),
    ensures
        spec_slice(src, from, to) == Ok::<Seq<char>, ScanPanic>(src.subrange(from as int, to as int)),
{
    lemma_ascii_boundaries(src);
    lemma_ascii_bytes(src);
    let sub = src.subrange(from as int, to as int);
    assert forall|j: int| 0 <= j < sub.len() implies (#[trigger] sub[j] as u32) < 128 by {
        assert(sub[j] == src[from + j]);
    }
    lemma_ascii_bytes(sub);
    let b = encode_utf8(src);
    assert forall|j: int| 0 <= j < sub.len() implies #[trigger] encode_utf8(sub)[j] == b.subrange(
        from as int,
        to as int,
    )[j] by {
        assert(sub[j] == src[from + j]);
    }
    assert(encode_utf8(sub) =~= b.subrange(from as int, to as int));
}

/// In an ASCII text, every byte offset up to the length is a character
/// boundary, and the byte length is the number of characters.
pub proof fn lemma_ascii_boundaries(src: Seq<char>)
    requires
        is_ascii_text(src),
    ensures
        byte_len(src) == src.len(),
        forall|i: int| 0 <= i <= src.len() ==> #[trigger] is_char_boundary(encode_utf8(src), i),
{
    broadcast use is_char_boundary_iff_not_is_continuation_byte, is_char_boundary_start_end_of_seq;

    lemma_ascii_bytes(src);
    let b = encode_utf8(src);
    assert forall|i: int| 0 <= i <= src.len() implies #[trigger] is_char_boundary(b, i) by {
        if i < src.len() {
            assert(b[i] < 128);
            assert(!is_continuation_byte(b[i]));
        } else {
            assert(is_char_boundary(b, b.len() as int));
        }
    }
}

/// On ASCII text, one `scan_token` step that starts a lexeme inside the text
/// fails only at a string literal still open at the end.
proof fn lemma_scan_token_ascii(src: Seq<char>, st: ScanState)
    requires
        is_ascii_text(src),
        st.start == st.current,
        st.current < src.len(),
    ensures
        spec_scan_token(src, st) matches Err(p) ==> p == ScanPanic::UnterminatedString,
{
    lemma_ascii_boundaries(src);
    let st1 = with_current(st, st.current + 1);
    lemma_skip_alnum(src, st1.current);
    lemma_skip_digits(src, st1.current);
    let ie = skip_digits(src, st1.current);
    lemma_skip_digits(src, ie + 1);
    lemma_skip_string(src, st1.current, st1.line);
    let b = encode_utf8(src);
    assert(is_char_boundary(b, st.current as int));
    assert(is_char_boundary(b, st1.current as int));
    assert(is_char_boundary(b, skip_alnum(src, st1.current) as int));
    assert(is_char_boundary(b, number_end(src, st1.current) as int));
    assert(is_char_boundary(b, skip_string(src, st1.current, st1.line).0 as int)
        || skip_string(src, st1.current, st1.line).0 >= byte_len(src));
}

/// On ASCII text, scanning on from an index within the text fails only at a
/// string literal still open at the end.
proof fn lemma_scan_from_ascii(src: Seq<char>, st: ScanState)
    requires
        is_ascii_text(src),
    ensures
        spec_scan_from(src, st) matches Err(p) ==> p == ScanPanic::UnterminatedString,
    decreases byte_len(src) - st.current,
{
    lemma_ascii_boundaries(src);
    if !at_end(src, st) {
        let st0 = ScanState { start: st.current, ..st };
        lemma_scan_token_ascii(src, st0);
        lemma_scan_token_advances(src, st0);
        match spec_scan_token(src, st0) {
            Ok(st2) => lemma_scan_from_ascii(src, st2),
            Err(_) => {},
        }
    }
}

/// Scanning an ASCII text fails only at a string literal that is still open
/// at the end of the text.
pub proof fn lemma_ascii_scan_fails_only_unterminated(src: Seq<char>)
    requires
        is_ascii_text(src),
    ensures
        spec_scan(src) matches Err(p) ==> p == ScanPanic::UnterminatedString,
{
    lemma_scan_from_ascii(src, initial_state());
}

/// Law: a lexeme that starts with a letter, upper or lower case, is scanned
/// as one word: the next character starts an identifier or keyword whose
/// text runs to the end of the letters and digits that follow.
pub proof fn lemma_letter_starts_word(src: Seq<char>, st: ScanState)
    requires
        ('a' <= char_at(src, st.current as int) <= 'z') || ('A' <= char_at(src, st.current as int)
            <= 'Z'),
    ensures
        spec_scan_token(src, st) == spec_identifier(src, with_current(st, st.current + 1)),
{
    let c = char_at(src, st.current as int);
    assert(spec_is_alpha(c));
    assert(!spec_is_digit(c));
    assert(c != ';' && c != '(' && c != ')' && c != '}' && c != '{' && c != ',' && c != '.');
    assert(c != '+' && c != '-' && c != '*' && c != '!' && c != '=' && c != '>' && c != '<');
    assert(c != '/' && c != ' ' && c != '\t' && c != '\r' && c != '\n' && c != '"');
}

/// Law: on ASCII text, a lexeme that starts with a letter, upper or lower
/// case, adds exactly one token and no report: a keyword token where the
/// maximal run of letters and digits is a reserved word, else an identifier
/// that carries that run; scanning goes on after the run.
pub proof fn lemma_ascii_word(src: Seq<char>, st: ScanState)
    requires
        is_ascii_text(src),
        st.start == st.current,
        st.current < src.len(),
        ('a' <= src[st.current as int] <= 'z') || ('A' <= src[st.current as int] <= 'Z'),
    ensures
        ({
            let end = skip_alnum(src, st.current + 1);
            let text = src.subrange(st.current as int, end as int);
            &&& st.current < end <= src.len()
            &&& forall|i: int| st.current <= i < end ==> spec_is_alnum(#[trigger] src[i])
            &&& end < src.len() ==> !spec_is_alnum(src[end as int])
            &&& spec_scan_token(src, st) == Ok::<ScanState, ScanPanic>(
                ScanState {
                    current: end,
                    tokens: st.tokens.push(
                        match keyword_of(text) {
                            Some(k) => TokenView { token_type: k, lexeme: None, line: st.line },
                            None => TokenView {
                                token_type: TokenType::Identifier,
                                lexeme: Some(text),
                                line: st.line,
                            },
                        },
                    ),
                    ..st
                },
            )
        }),
{
    lemma_letter_starts_word(src, st);
    let end = skip_alnum(src, st.current + 1);
    lemma_skip_alnum(src, st.current + 1);
    lemma_skip_alnum_run(src, st.current + 1);
    lemma_ascii_slice(src, st.current, end);
    assert(st.current < end <= src.len());
    assert forall|i: int| st.current <= i < end implies spec_is_alnum(#[trigger] src[i]) by {
        if i > st.current {
            assert(spec_is_alnum(char_at(src, i)));
        }
    }
    assert(end < src.len() ==> !spec_is_alnum(src[end as int])) by {
        if end < src.len() {
            assert(!spec_is_alnum(char_at(src, end as int)));
        }
    }
    let text = src.subrange(st.current as int, end as int);
    assert(spec_slice(src, st.current, end) == Ok::<Seq<char>, ScanPanic>(text));
    assert(with_current(with_current(st, st.current + 1), end) == (ScanState { current: end, ..st }));
}

/// The run that `skip_alnum` skips is letters and digits, and it stops at
/// the end of the text or at a character that is neither.
proof fn lemma_skip_alnum_run(src: Seq<char>, i: nat)
    ensures
        forall|j: int| i <= j < skip_alnum(src, i) ==> spec_is_alnum(#[trigger] char_at(src, j)),
        !spec_is_alnum(char_at(src, skip_alnum(src, i) as int)),
    decreases src.len() - i,
{
    if spec_is_alnum(char_at(src, i as int)) {
        lemma_skip_alnum_run(src, i + 1);
    }
}

// ---------------------------------------------------------------------------
// Character classes.
// ---------------------------------------------------------------------------

/// Whether `c` is an ASCII digit.
pub fn is_digit(c: char) -> (r: bool)
    ensures
        r == spec_is_digit(c),
{
    '0' <= c && c <= '9'
}

/// Whether `c` is an ASCII letter.
pub fn is_alpha(c: char) -> (r: bool)
    ensures
        r == spec_is_alpha(c),
{
    ('a' <= c && c <= 'z') || ('A' <= c && c <= 'Z')
}

/// Whether `c` is an ASCII letter or digit.
pub fn is_alnum(c: char) -> (r: bool)
    ensures
        r == spec_is_alnum(c),
{
    is_digit(c) || is_alpha(c)
}

/// `&s[from..to]`: the part of `s` between two byte offsets, both of which
/// are character boundaries. std's `str` indexing with a range returns
/// exactly those bytes; it panics on offsets that are not boundaries, which
/// `requires` leaves out.
#[verifier::external_body]
fn byte_range(s: &str, from: usize, to: usize) -> (r: &str)
    requires
        from <= to,
        is_char_boundary(s.spec_bytes(), from as int),
        is_char_boundary(s.spec_bytes(), to as int),
    ensures
        r.spec_bytes() == s.spec_bytes().subrange(from as int, to as int),
{
    &s[from..to]
}

// ---------------------------------------------------------------------------
// The scanner.
// ---------------------------------------------------------------------------

/// Turns Lox source text into tokens.
pub struct Scanner {
    source: String,
    pub tokens: Vec<Token>,
    start: usize,
    current: usize,
    line: usize,
    keywords: Vec<(String, TokenType)>,
    char_count: usize,
    /// The "unexpected character" reports, in the order they were found.
    pub errors: Vec<ScanError>,
}

impl Scanner {
    /// The text being scanned.
    pub closed spec fn src(&self) -> Seq<char> {
        self.source@
    }

    /// The scanner's position as a scan state.
    pub closed spec fn state(&self) -> ScanState {
        ScanState {
            start: self.start as nat,
            current: self.current as nat,
            line: self.line as nat,
            tokens: token_views(self.tokens@),
            errors: self.errors@,
        }
    }

    /// The internal invariant: the keyword table is in place, the text's
    /// byte length leaves room for one more index, and the line number is
    /// bounded by the index (each newline is one character).
    pub closed spec fn wf(&self) -> bool {
        &&& self.char_count == self.source@.len()
        &&& byte_len(self.source@) < usize::MAX
        &&& self.keywords@.map_values(|k: (String, TokenType)| (k.0@, k.1)) == keyword_table()
        &&& self.line <= self.current + 1
    }

    /// A scanner at the start of `source`, on line 1, with no tokens yet.
    pub fn new(source: String) -> (s: Self)
        requires
            byte_len(source@) < usize::MAX,
        ensures
            s.wf(),
            s.src() == source@,
            s.state() == initial_state(),
    {
        let mut keywords: Vec<(String, TokenType)> = Vec::new();
        keywords.push((String::from_str("and"), TokenType::And));
        keywords.push((String::from_str("class"), TokenType::Class));
        keywords.push((String::from_str("else"), TokenType::Else));
        keywords.push((String::from_str("false"), TokenType::False));
        keywords.push((String::from_str("for"), TokenType::For));
        keywords.push((String::from_str("fun"), TokenType::Fun));
        keywords.push((String::from_str("if"), TokenType::If));
        keywords.push((String::from_str("nil"), TokenType::Nil));
        keywords.push((String::from_str("or"), TokenType::Or));
        keywords.push((String::from_str("print"), TokenType::Print));
        keywords.push((String::from_str("return"), TokenType::Return));
        keywords.push((String::from_str("super"), TokenType::Super));
        keywords.push((String::from_str("this"), TokenType::This));
        keywords.push((String::from_str("true"), TokenType::True));
        keywords.push((String::from_str("var"), TokenType::Var));
        keywords.push((String::from_str("while"), TokenType::While));
        assert(keywords@.map_values(|k: (String, TokenType)| (k.0@, k.1)) =~= keyword_table());
        let char_count = source.as_str().unicode_len();
        let s = Scanner {
            source,
            tokens: Vec::new(),
            start: 0,
            current: 0,
            line: 1,
            keywords,
            char_count,
            errors: Vec::new(),
        };
        assert(token_views(s.tokens@) =~= seq![]);
        s
    }

    /// The keyword kind of `text`, looked up in the keyword table.
    fn keyword(&self, text: &String) -> (r: Option<TokenType>)
        requires
            self.wf(),
        ensures
            r == keyword_of(text@),
    {
        let ghost table = keyword_table();
        assert(table.skip(0) =~= table);
        let mut i: usize = 0;
        while i < self.keywords.len()
            invariant
                self.wf(),
                table == keyword_table(),
                i <= self.keywords.len(),
                lookup_keyword(table, text@) == lookup_keyword(table.skip(i as int), text@),
            decreases self.keywords.len() - i,
        {
            assert(self.keywords@.map_values(|k: (String, TokenType)| (k.0@, k.1))[i as int]
                == (self.keywords@[i as int].0@, self.keywords@[i as int].1));
            assert(table.skip(i as int).drop_first() =~= table.skip(i + 1));
            if self.keywords[i].0 == *text {
                return Some(self.keywords[i].1);
            }
            i = i + 1;
        }
        assert(table.skip(i as int).len() == 0);
        None
    }

    /// The tokens scanned so far.
    pub fn tokens(&self) -> (r: &Vec<Token>)
        ensures
            token_views(r@) == self.state().tokens,
    {
        &self.tokens
    }

    /// The "unexpected character" reports so far.
    pub fn errors(&self) -> (r: &Vec<ScanError>)
        ensures
            r@ == self.state().errors,
    {
        &self.errors
    }

    /// The tokens scanned so far, taken out of the scanner.
    pub fn into_tokens(self) -> (r: Vec<Token>)
        ensures
            token_views(r@) == self.state().tokens,
    {
        self.tokens
    }

    /// Scans the whole text: lexemes until the end of the text, then the
    /// end-of-file token. The unexpected characters are reported in `errors`.
    pub fn scan_tokens(&mut self) -> (r: Result<(), ScanPanic>)
        requires
            old(self).wf(),
        ensures
            final(self).src() == old(self).src(),
            match spec_scan_from(old(self).src(), old(self).state()) {
                Ok(st) => r is Ok && final(self).state() == st,
                Err(p) => r == Err::<(), ScanPanic>(p) && final(self).state().tokens
                    == spec_scan_stop(old(self).src(), old(self).state()).tokens
                    && final(self).state().errors == spec_scan_stop(
                    old(self).src(),
                    old(self).state(),
                ).errors,
            },
    {
        let ghost src = self.src();
        while !self.is_end()
            invariant
                self.wf(),
                self.src() == src,
                old(self).src() == src,
                spec_scan_from(src, old(self).state()) == spec_scan_from(src, self.state()),
                spec_scan_stop(src, old(self).state()) == spec_scan_stop(src, self.state()),
            decreases byte_len(src) - self.current,
        {
            let ghost prev = self.state();
            self.start = self.current;
            let ghost st0 = self.state();
            proof {
                lemma_chars_le_bytes(src);
                lemma_scan_token_advances(src, st0);
                assert(st0 == (ScanState { start: prev.current, ..prev }));
            }
            match self.scan_token() {
                Ok(()) => {},
                Err(p) => {
                    return Err(p);
                },
            }
        }
        self.add_token(TokenType::Eof, None);
        Ok(())
    }

    /// Scans one lexeme, starting at the current index.
    pub fn scan_token(&mut self) -> (r: Result<(), ScanPanic>)
        requires
            old(self).wf(),
            old(self).state().current + 1 < usize::MAX,
            old(self).state().start < usize::MAX,
        ensures
            final(self).src() == old(self).src(),
            match spec_scan_token(old(self).src(), old(self).state()) {
                Ok(st) => r is Ok && final(self).state() == st && final(self).wf(),
                Err(p) => r == Err::<(), ScanPanic>(p) && final(self).state().tokens == old(
                    self,
                ).state().tokens && final(self).state().errors == old(self).state().errors,
            },
    {
        proof {
            lemma_chars_le_bytes(self.src());
        }
        let c = self.advance();
        match c {
            ';' => self.add_token(TokenType::Semicolon, None),
            '(' => self.add_token(TokenType::LeftParen, None),
            ')' => self.add_token(TokenType::RightParen, None),
            '}' => self.add_token(TokenType::RightBrace, None),
            '{' => self.add_token(TokenType::LeftBrace, None),
            ',' => self.add_token(TokenType::Comma, None),
            '.' => self.add_token(TokenType::Dot, None),
            '+' => self.add_token(TokenType::Plus, None),
            '-' => self.add_token(TokenType::Minus, None),
            '*' => self.add_token(TokenType::Star, None),
            '!' => {
                if self.match_token('=')? {
                    self.add_token(TokenType::BangEqual, None);
                } else {
                    self.add_token(TokenType::Bang, None);
                }
            },
            '=' => {
                if self.match_token('=')? {
                    self.add_token(TokenType::EqualEqual, None);
                } else {
                    self.add_token(TokenType::Equal, None);
                }
            },
            '>' => {
                if self.match_token('=')? {
                    self.add_token(TokenType::GreaterEqual, None);
                } else {
                    self.add_token(TokenType::Greater, None);
                }
            },
            '<' => {
                if self.match_token('=')? {
                    self.add_token(TokenType::LessEqual, None);
                } else {
                    self.add_token(TokenType::Less, None);
                }
            },
            '/' => {
                if self.match_token('/')? {
                    self.skip_line_comment();
                } else {
                    self.add_token(TokenType::Slash, None);
                }
            },
            ' ' | '\t' | '\r' => {},
            '\n' => self.line = self.line + 1,
            '"' => self.string_literal()?,
            a if is_digit(a) => self.number()?,
            a if is_alpha(a) => self.identifier()?,
            a => self.errors.push(ScanError { line: self.line, ch: a }),
        }
        Ok(())
    }

    /// Skips the rest of a line comment, up to the next newline.
    fn skip_line_comment(&mut self)
        requires
            old(self).wf(),
        ensures
            final(self).wf(),
            final(self).src() == old(self).src(),
            final(self).state() == with_current(
                old(self).state(),
                skip_comment(old(self).src(), old(self).current as nat),
            ),
    {
        let ghost src = self.src();
        let ghost st = self.state();
        while self.peek() != '\n' && !self.is_end()
            invariant
                self.wf(),
                self.src() == src,
                self.state() == with_current(st, self.current as nat),
                skip_comment(src, st.current) == skip_comment(src, self.current as nat),
                st.line <= st.current + 1,
                st.current <= self.current,
            decreases byte_len(src) - self.current,
        {
            self.advance();
        }
    }

    /// Scans the rest of a word: a keyword or an identifier token.
    pub fn identifier(&mut self) -> (r: Result<(), ScanPanic>)
        requires
            old(self).wf(),
        ensures
            final(self).src() == old(self).src(),
            match spec_identifier(old(self).src(), old(self).state()) {
                Ok(st) => r is Ok && final(self).state() == st && final(self).wf(),
                Err(p) => r == Err::<(), ScanPanic>(p) && final(self).state().tokens == old(
                    self,
                ).state().tokens && final(self).state().errors == old(self).state().errors,
            },
    {
        let ghost src = self.src();
        let ghost st = self.state();
        proof {
            lemma_chars_le_bytes(src);
            lemma_skip_alnum(src, st.current);
        }
        while is_alnum(self.peek())
            invariant
                self.wf(),
                self.src() == src,
                self.state() == with_current(st, self.current as nat),
                skip_alnum(src, st.current) == skip_alnum(src, self.current as nat),
                st.line <= st.current + 1,
                st.current <= self.current,
            decreases src.len() - self.current,
        {
            self.advance();
        }
        let text = self.slice(self.start, self.current)?;
        if let Some(a) = self.keyword(&text) {
            self.add_token(a, None);
        } else {
            self.add_token(TokenType::Identifier, Some(text));
        }
        Ok(())
    }

    /// Scans the rest of a number literal: digits, then a fraction if a `.`
    /// is followed by a digit.
    pub fn number(&mut self) -> (r: Result<(), ScanPanic>)
        requires
            old(self).wf(),
        ensures
            final(self).src() == old(self).src(),
            match spec_number(old(self).src(), old(self).state()) {
                Ok(st) => r is Ok && final(self).state() == st && final(self).wf(),
                Err(p) => r == Err::<(), ScanPanic>(p) && final(self).state().tokens == old(
                    self,
                ).state().tokens && final(self).state().errors == old(self).state().errors,
            },
    {
        let ghost src = self.src();
        let ghost st = self.state();
        proof {
            lemma_chars_le_bytes(src);
            lemma_skip_digits(src, st.current);
        }
        while is_digit(self.peek())
            invariant
                self.wf(),
                self.src() == src,
                self.state() == with_current(st, self.current as nat),
                skip_digits(src, st.current) == skip_digits(src, self.current as nat),
                st.line <= st.current + 1,
                st.current <= self.current,
            decreases src.len() - self.current,
        {
            self.advance();
        }
        let ghost int_end = self.current as nat;
        proof {
            lemma_skip_digits(src, int_end + 1);
        }
        if self.peek() == '.' && is_digit(self.peek_next()) {
            self.advance();
            while is_digit(self.peek())
                invariant
                    self.wf(),
                    self.src() == src,
                    self.state() == with_current(st, self.current as nat),
                    skip_digits(src, int_end + 1) == skip_digits(src, self.current as nat),
                    st.line <= st.current + 1,
                    st.current <= self.current,
                decreases src.len() - self.current,
            {
                self.advance();
            }
        }
        let number = self.slice(self.start, self.current)?;
        self.add_token(TokenType::Number, Some(number));
        Ok(())
    }

    /// The character after the next one, or `'\0'` past the last one.
    pub fn peek_next(&self) -> (c: char)
        requires
            self.wf(),
            self.state().current < usize::MAX,
        ensures
            c == char_at(self.src(), self.state().current + 1 as int),
    {
        let i = self.current + 1;
        if i < self.char_count {
            self.source.as_str().get_char(i)
        } else {
            '\0'
        }
    }

    /// Scans the rest of a string literal: a string token that carries the
    /// text between the quotes. Newlines inside the literal count as lines.
    pub fn string_literal(&mut self) -> (r: Result<(), ScanPanic>)
        requires
            old(self).wf(),
            old(self).state().start < usize::MAX,
        ensures
            final(self).src() == old(self).src(),
            match spec_string(old(self).src(), old(self).state()) {
                Ok(st) => r is Ok && final(self).state() == st && final(self).wf(),
                Err(p) => r == Err::<(), ScanPanic>(p) && final(self).state().tokens == old(
                    self,
                ).state().tokens && final(self).state().errors == old(self).state().errors,
            },
    {
        let ghost src = self.src();
        let ghost st = self.state();
        proof {
            lemma_skip_string(src, st.current, st.line);
        }
        while self.peek() != '"' && !self.is_end()
            invariant
                self.wf(),
                self.src() == src,
                self.state() == (ScanState { current: self.current as nat, line: self.line as nat, ..st }),
                skip_string(src, st.current, st.line) == skip_string(
                    src,
                    self.current as nat,
                    self.line as nat,
                ),
                st.current <= self.current,
            decreases byte_len(src) - self.current,
        {
            let newline = self.peek() == '\n';
            self.advance();
            if newline {
                self.line = self.line + 1;
            }
        }
        if self.is_end() {
            return Err(ScanPanic::UnterminatedString);
        }
        self.advance();
        let string_literal = self.slice(self.start + 1, self.current - 1)?;
        self.add_token(TokenType::StringLiteral, Some(string_literal));
        Ok(())
    }

    /// The text between two byte offsets, or the failure of cutting it.
    fn slice(&self, from: usize, to: usize) -> (r: Result<String, ScanPanic>)
        ensures
            match spec_slice(self.src(), from as nat, to as nat) {
                Ok(text) => r matches Ok(s) && s@ == text,
                Err(p) => r == Err::<String, ScanPanic>(p),
            },
    {
        let s = self.source.as_str();
        if from <= to && s.is_char_boundary(from) && s.is_char_boundary(to) {
            let part = byte_range(s, from, to);
            let text = part.to_owned();
            proof {
                encode_utf8_decode_utf8(text@);
            }
            Ok(text)
        } else {
            Err(ScanPanic::BadSlice { from, to })
        }
    }

    /// The next character, or `'\0'` past the last one.
    pub fn peek(&self) -> (c: char)
        requires
            self.wf(),
        ensures
            c == char_at(self.src(), self.state().current as int),
    {
        if self.current < self.char_count {
            self.source.as_str().get_char(self.current)
        } else {
            '\0'
        }
    }

    /// Consumes the next character if it is `token`. Fails where the text
    /// has not ended by its byte length but has no character left.
    pub fn match_token(&mut self, token: char) -> (r: Result<bool, ScanPanic>)
        requires
            old(self).wf(),
        ensures
            final(self).src() == old(self).src(),
            match spec_match(old(self).src(), old(self).state(), token) {
                Ok((b, st)) => r == Ok::<bool, ScanPanic>(b) && final(self).state() == st
                    && final(self).wf(),
                Err(p) => r == Err::<bool, ScanPanic>(p) && final(self).state() == old(self).state(),
            },
    {
        if self.is_end() {
            return Ok(false);
        }
        if self.current >= self.char_count {
            return Err(ScanPanic::MissingChar);
        }
        if self.source.as_str().get_char(self.current) != token {
            return Ok(false);
        }
        self.current = self.current + 1;
        Ok(true)
    }

    /// Whether the current index has reached the text's byte length.
    pub fn is_end(&self) -> (r: bool)
        requires
            self.wf(),
        ensures
            r == at_end(self.src(), self.state()),
    {
        self.current >= self.source.as_str().len()
    }

    /// Appends a token of kind `token` with `lexeme`, on the current line.
    pub fn add_token(&mut self, token: TokenType, lexeme: Option<String>)
        ensures
            final(self).src() == old(self).src(),
            final(self).state() == push_token(
                old(self).state(),
                token,
                match lexeme {
                    Some(s) => Some(s@),
                    None => None,
                },
            ),
            old(self).wf() ==> final(self).wf(),
    {
        let token = Token { token_type: token, lexeme, line: self.line };
        self.tokens.push(token);
        proof {
            assert(token_views(self.tokens@) =~= token_views(old(self).tokens@).push(token@));
        }
    }

    /// Consumes the next character and returns it, or `'\0'` past the last one.
    pub fn advance(&mut self) -> (c: char)
        requires
            old(self).wf(),
            old(self).state().current < usize::MAX,
        ensures
            final(self).src() == old(self).src(),
            c == char_at(old(self).src(), old(self).state().current as int),
            final(self).state() == with_current(old(self).state(), (old(self).state().current + 1) as nat),
            final(self).wf(),
    {
        let char_data = if self.current < self.char_count {
            self.source.as_str().get_char(self.current)
        } else {
            '\0'
        };
        self.current = self.current + 1;
        char_data
    }
}

} // verus!
