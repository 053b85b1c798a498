use vstd::prelude::*;

verus! {

/// The kinds of token the scanner produces.
#[derive(Debug, PartialEq, Eq, Structural, Clone, Copy)]
pub enum TokenType {
    // Single character tokens.
    LeftParen,
    RightParen,
    LeftBrace,
    RightBrace,
    Comma,
    Dot,
    Minus,
    Plus,
    Semicolon,
    Slash,
    Star,
    // One or two character tokens.
    Bang,
    BangEqual,
    Equal,
    EqualEqual,
    Greater,
    GreaterEqual,
    Less,
    LessEqual,
    // Literals.
    Identifier,
    StringLiteral,
    Number,
    // Keywords.
    And,
    Class,
    Else,
    False,
    Fun,
    For,
    If,
    Nil,
    Or,
    Print,
    Return,
    Super,
    This,
    True,
    Var,
    While,
    Break,
    Continue,
    // Other.
    Eof,
}

/// A token: its kind, the source text it carries (identifiers, numbers and
/// string literals only) and the line it was found on.
#[derive(Debug, PartialEq)]
pub struct Token {
    pub token_type: TokenType,
    pub lexeme: Option<String>,
    pub line: usize,
}

/// The mathematical content of a token: the lexeme as a character sequence.
pub struct TokenView {
    pub token_type: TokenType,
    pub lexeme: Option<Seq<char>>,
    pub line: nat,
}

impl View for Token {
    type V = TokenView;

    open spec fn view(&self) -> TokenView {
        TokenView {
            token_type: self.token_type,
            lexeme: match self.lexeme {
                Some(s) => Some(s@),
                None => None,
            },
            line: self.line as nat,
        }
    }
}

/// Clones an optional lexeme, keeping its contents.
pub fn clone_lexeme(lexeme: &Option<String>) -> (r: Option<String>)
    ensures
        r == *lexeme,
{
    match lexeme {
        Some(s) => Some(s.clone()),
        None => None,
    }
}

impl Clone for Token {
    fn clone(&self) -> (r: Self)
        ensures
            r == *self,
    {
        Token { token_type: self.token_type, lexeme: clone_lexeme(&self.lexeme), line: self.line }
    }
}

/// The views of a sequence of tokens.
pub open spec fn token_views(tokens: Seq<Token>) -> Seq<TokenView> {
    tokens.map_values(|t: Token| t@)
}

} // verus!
