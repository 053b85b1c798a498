//! The syntax of Lox as spec functions over a token sequence.
//!
//! ```text
//! program        → declaration* EOF ;
//! declaration    → "var" variable | statement ;
//! variable       → IDENTIFIER ( "=" expression )? ";" ;
//! statement      → "print" "(" expression ")" ";"
//!                | "return" expression? ";"
//!                | "fun" IDENTIFIER "(" parameters? ")" block
//!                | "for" "(" ( ";" | "var" variable | exprStmt ) expression? ";" expression? ")" statement
//!                | "if" "(" expression ")" statement ( "else" statement )?
//!                | "while" "(" expression ")" statement
//!                | "{" declaration* "}"
//!                | "break" ";" | "continue" ";"
//!                | expression ";" ;
//! expression     → assignment ;
//! assignment     → or ( "=" assignment )? ;
//! or             → and ( "or" and )* ;
//! and            → equality ( "and" equality )* ;
//! equality       → comparison ( ( "!=" | "==" ) comparison )* ;
//! comparison     → term ( ( ">" | ">=" | "<" | "<=" ) term )* ;
//! term           → factor ( ( "-" | "+" ) factor )* ;
//! factor         → unary ( ( "/" | "*" ) unary )* ;
//! unary          → ( "!" | "-" ) unary | call ;
//! call           → primary ( "(" arguments? ")" )* ;
//! primary        → NUMBER | STRING | IDENTIFIER | "true" | "false" | "nil"
//!                | "(" expression ")" ;
//! ```
//!
//! Each function takes the tokens and a parser state (the index of the next
//! token, the loop nesting depth and the last variable id handed out) and
//! gives the number of tokens consumed, the new depth and id, and the tree or
//! the error. Bodies of `for` and `while` must be blocks; `break` and
//! `continue` are refused outside loops; the `=` of an assignment needs a
//! variable on its left.
use vstd::prelude::*;

use crate::expr::{Literal, SExpr};
use crate::stmt::SStmt;
use crate::tokentype::{Token, TokenType};

verus! {

/// The parser's state: the index of the next token, the number of loops
/// around the current position and the last variable id handed out.
pub struct PState {
    pub current: nat,
    pub loop_depth: nat,
    pub id: nat,
}

/// The mathematical form of a parse error.
pub enum PErr {
    /// A token of a given kind was needed: the line of the token before,
    /// and the message.
    Expected { line: nat, msg: Seq<char> },
    BreakOutsideLoop { line: nat },
    ContinueOutsideLoop { line: nat },
    TooManyArgs,
    ExpectedBlock,
    ExpectedBlockFound { found: SStmt },
    InvalidAssignmentTarget,
    CantParse { token_type: TokenType },
    /// An identifier, number or string token without its text was reached.
    MissingLexeme,
}

/// The outcome of parsing from a state: how many tokens were consumed, the
/// loop depth and last id afterwards, and the tree or the error.
pub struct Parsed<T> {
    pub adv: nat,
    pub loop_depth: nat,
    pub id: nat,
    pub res: Result<T, PErr>,
}

impl<T> Parsed<T> {
    /// The same outcome, `k` more tokens consumed before it.
    pub open spec fn shift(self, k: nat) -> Parsed<T> {
        Parsed { adv: self.adv + k, ..self }
    }

    /// The same consumption, with the result `x`.
    pub open spec fn set<U>(self, x: U) -> Parsed<U> {
        Parsed { adv: self.adv, loop_depth: self.loop_depth, id: self.id, res: Ok(x) }
    }

    /// The same consumption, with the error `e`.
    pub open spec fn fail<U>(self, e: PErr) -> Parsed<U> {
        Parsed { adv: self.adv, loop_depth: self.loop_depth, id: self.id, res: Err(e) }
    }

    /// The same outcome with its error re-typed (for an outcome that failed).
    pub open spec fn cast<U>(self) -> Parsed<U> {
        self.fail(
            match self.res {
                Err(e) => e,
                Ok(_) => PErr::TooManyArgs,
            },
        )
    }
}

/// `o1` followed by `o2`: the tokens of both, the state and result of `o2`.
pub open spec fn followed<T, U>(o1: Parsed<T>, o2: Parsed<U>) -> Parsed<U> {
    Parsed { adv: o1.adv + o2.adv, loop_depth: o2.loop_depth, id: o2.id, res: o2.res }
}

/// Nothing consumed, the result `x`.
pub open spec fn ok<T>(st: PState, x: T) -> Parsed<T> {
    Parsed { adv: 0, loop_depth: st.loop_depth, id: st.id, res: Ok(x) }
}

/// One token consumed, the result `x`.
pub open spec fn one<T>(st: PState, x: T) -> Parsed<T> {
    Parsed { adv: 1, loop_depth: st.loop_depth, id: st.id, res: Ok(x) }
}

/// The state after the outcome `o` from `st`.
pub open spec fn after<T>(st: PState, o: Parsed<T>) -> PState {
    PState { current: st.current + o.adv, loop_depth: o.loop_depth, id: o.id }
}

/// The state after one more token.
pub open spec fn step(st: PState) -> PState {
    PState { current: st.current + 1, ..st }
}

/// The token standing for "no more tokens".
pub open spec fn eof_token() -> Token {
    Token { token_type: TokenType::Eof, lexeme: None, line: 0 }
}

/// The token at index `i`, or an end-of-file token outside the sequence.
pub open spec fn tok(toks: Seq<Token>, i: int) -> Token {
    if 0 <= i < toks.len() {
        toks[i]
    } else {
        eof_token()
    }
}

/// The number of tokens left after the state's index.
pub open spec fn rem(toks: Seq<Token>, st: PState) -> nat {
    if st.current <= toks.len() {
        (toks.len() - st.current) as nat
    } else {
        0
    }
}

/// Whether the next token ends the input.
pub open spec fn at_eof(toks: Seq<Token>, st: PState) -> bool {
    tok(toks, st.current as int).token_type == TokenType::Eof
}

/// Whether the next token is of kind `t` (never at the end of the input).
pub open spec fn check(toks: Seq<Token>, st: PState, t: TokenType) -> bool {
    !at_eof(toks, st) && tok(toks, st.current as int).token_type == t
}

/// Whether the next token is of one of the kinds in `ts`.
pub open spec fn check_any(toks: Seq<Token>, st: PState, ts: Seq<TokenType>) -> bool {
    !at_eof(toks, st) && ts.contains(tok(toks, st.current as int).token_type)
}

/// `consume`: the next token if it is of kind `t`; else an error that names
/// the line of the token before it.
pub open spec fn p_consume(toks: Seq<Token>, st: PState, t: TokenType, msg: Seq<char>) -> Parsed<
    Token,
> {
    if check(toks, st, t) {
        one(st, tok(toks, st.current as int))
    } else {
        Parsed {
            adv: 0,
            loop_depth: st.loop_depth,
            id: st.id,
            res: Err(PErr::Expected { line: tok(toks, st.current - 1).line as nat, msg }),
        }
    }
}

/// The operators of the binary levels: 6 `or`, 5 `and`, 4 equality,
/// 3 comparison, 2 terms, 1 factors.
pub open spec fn level_ops(level: nat) -> Seq<TokenType> {
    if level >= 6 {
        seq![TokenType::Or]
    } else if level == 5 {
        seq![TokenType::And]
    } else if level == 4 {
        seq![TokenType::BangEqual, TokenType::EqualEqual]
    } else if level == 3 {
        seq![TokenType::Greater, TokenType::GreaterEqual, TokenType::Less, TokenType::LessEqual]
    } else if level == 2 {
        seq![TokenType::Minus, TokenType::Plus]
    } else {
        seq![TokenType::Slash, TokenType::Star]
    }
}

/// The tree for `left op right` at a binary level: `or` and `and` build
/// logical nodes, the others binary nodes.
pub open spec fn combine(level: nat, left: SExpr, op: Token, right: SExpr) -> SExpr {
    if level >= 5 {
        SExpr::Logical { left: Box::new(left), op, right: Box::new(right) }
    } else {
        SExpr::Binary { left: Box::new(left), op, right: Box::new(right) }
    }
}

/// `expression → assignment`.
#[verifier::opaque]
pub open spec fn p_expression(toks: Seq<Token>, st: PState) -> Parsed<SExpr>
    decreases rem(toks, st), 19nat,
{
    p_assignment(toks, st)
}

/// `assignment → or ( "=" assignment )?`; the target must be a variable, and
/// the assignment gets the next id after those of its value.
#[verifier::opaque]
pub open spec fn p_assignment(toks: Seq<Token>, st: PState) -> Parsed<SExpr>
    decreases rem(toks, st), 18nat,
{
    let o = p_binary(toks, st, 6);
    match o.res {
        Err(_) => o,
        Ok(e) => {
            let s1 = after(st, o);
            if check(toks, s1, TokenType::Equal) {
                let v = p_assignment(toks, step(s1));
                let total = followed(o, v.shift(1));
                match v.res {
                    Err(_) => total,
                    Ok(value) => match e {
                        SExpr::Variable { token, id: _ } => Parsed {
                            adv: total.adv,
                            loop_depth: total.loop_depth,
                            id: total.id + 1,
                            res: Ok(
                                SExpr::Assign {
                                    token,
                                    value: Box::new(value),
                                    id: (total.id + 1) as usize,
                                },
                            ),
                        },
                        _ => total.fail(PErr::InvalidAssignmentTarget),
                    },
                }
            } else {
                o
            }
        },
    }
}

/// A binary level: an operand, then any number of `op operand` pairs,
/// grouped to the left.
#[verifier::opaque]
pub open spec fn p_binary(toks: Seq<Token>, st: PState, level: nat) -> Parsed<SExpr>
    decreases rem(toks, st), 2 * level + 5,
{
    let o = if level <= 1 {
        p_unary(toks, st)
    } else {
        p_binary(toks, st, (level - 1) as nat)
    };
    match o.res {
        Err(_) => o,
        Ok(left) => followed(o, p_binary_rest(toks, after(st, o), level, left)),
    }
}

/// The `op operand` pairs of a binary level, after the tree `left`.
#[verifier::opaque]
pub open spec fn p_binary_rest(toks: Seq<Token>, st: PState, level: nat, left: SExpr) -> Parsed<
    SExpr,
>
    decreases rem(toks, st), 2 * level + 4,
{
    if check_any(toks, st, level_ops(level)) {
        let op = tok(toks, st.current as int);
        let s1 = step(st);
        let o = if level <= 1 {
            p_unary(toks, s1)
        } else {
            p_binary(toks, s1, (level - 1) as nat)
        };
        match o.res {
            Err(_) => o.shift(1),
            Ok(right) => followed(
                o.shift(1),
                p_binary_rest(toks, after(s1, o), level, combine(level, left, op, right)),
            ),
        }
    } else {
        ok(st, left)
    }
}

/// `unary → ( "!" | "-" ) unary | call`.
#[verifier::opaque]
pub open spec fn p_unary(toks: Seq<Token>, st: PState) -> Parsed<SExpr>
    decreases rem(toks, st), 4nat,
{
    if check(toks, st, TokenType::Minus) || check(toks, st, TokenType::Bang) {
        let op = tok(toks, st.current as int);
        let o = p_unary(toks, step(st));
        match o.res {
            Err(_) => o.shift(1),
            Ok(e) => o.shift(1).set(SExpr::Unary { op, expr: Box::new(e) }),
        }
    } else {
        p_call(toks, st)
    }
}

/// `call → primary ( "(" arguments? ")" )*`.
#[verifier::opaque]
pub open spec fn p_call(toks: Seq<Token>, st: PState) -> Parsed<SExpr>
    decreases rem(toks, st), 3nat,
{
    let o = p_primary(toks, st);
    match o.res {
        Err(_) => o,
        Ok(e) => followed(o, p_call_rest(toks, after(st, o), e)),
    }
}

/// The argument lists after the callee `callee`.
#[verifier::opaque]
pub open spec fn p_call_rest(toks: Seq<Token>, st: PState, callee: SExpr) -> Parsed<SExpr>
    decreases rem(toks, st), 2nat,
{
    if check(toks, st, TokenType::LeftParen) {
        let s1 = step(st);
        let f = p_finish_call(toks, s1, callee);
        match f.res {
            Err(_) => f.shift(1),
            Ok(c) => followed(f.shift(1), p_call_rest(toks, after(s1, f), c)),
        }
    } else {
        ok(st, callee)
    }
}

/// `finish_call`: the arguments after `(` and the closing `)`.
#[verifier::opaque]
pub open spec fn p_finish_call(toks: Seq<Token>, st: PState, callee: SExpr) -> Parsed<SExpr>
    decreases rem(toks, st), 21nat,
{
    if !check(toks, st, TokenType::RightParen) {
        let a = p_args(toks, st, seq![]);
        match a.res {
            Err(_) => a.cast(),
            Ok(args) => followed(a, p_close_call(toks, after(st, a), callee, args)),
        }
    } else {
        p_close_call(toks, st, callee, seq![])
    }
}

/// The `)` of a call and the call node.
#[verifier::opaque]
pub open spec fn p_close_call(toks: Seq<Token>, st: PState, callee: SExpr, args: Seq<SExpr>) -> Parsed<
    SExpr,
> {
    let c = p_consume(toks, st, TokenType::RightParen, "Expected ) after arguments."@);
    match c.res {
        Err(_) => c.cast(),
        Ok(paren) => c.set(SExpr::Call { callie: Box::new(callee), paren, args }),
    }
}

/// `arguments → expression ( "," expression )*`, appended to `args`.
#[verifier::opaque]
pub open spec fn p_args(toks: Seq<Token>, st: PState, args: Seq<SExpr>) -> Parsed<Seq<SExpr>>
    decreases rem(toks, st), 20nat,
{
    let e = p_expression(toks, st);
    match e.res {
        Err(_) => e.cast(),
        Ok(x) => {
            let s1 = after(st, e);
            if check(toks, s1, TokenType::Comma) {
                followed(e, p_args(toks, step(s1), args.push(x)).shift(1))
            } else {
                e.set(args.push(x))
            }
        },
    }
}

/// Every identifier, number and string token carries its lexeme.
pub open spec fn lexemes_present(toks: Seq<Token>) -> bool {
    forall|i: int|
        0 <= i < toks.len() && (toks[i].token_type == TokenType::Identifier || toks[i].token_type
            == TokenType::Number || toks[i].token_type == TokenType::StringLiteral)
            ==> (#[trigger] toks[i]).lexeme is Some
}

/// A parse that does not stop at an identifier, number or string token
/// without its lexeme (where parsing cannot go on).
pub open spec fn lexemes_found<T>(o: Parsed<T>) -> bool {
    !(o.res matches Err(PErr::MissingLexeme))
}

/// The lexeme of a token (tokens that carry one).
pub open spec fn lexeme_of(t: Token) -> String {
    match t.lexeme {
        Some(s) => s,
        None => arbitrary(),
    }
}

/// A token of kind `Identifier`, `Number` or `StringLiteral` without its
/// text: parsing cannot go on past it.
pub open spec fn missing_lexeme(st: PState) -> Parsed<SExpr> {
    Parsed { adv: 1, loop_depth: st.loop_depth, id: st.id, res: Err(PErr::MissingLexeme) }
}

/// `primary`: one token, or a parenthesized expression. Each variable gets
/// the next id.
#[verifier::opaque]
pub open spec fn p_primary(toks: Seq<Token>, st: PState) -> Parsed<SExpr>
    decreases rem(toks, st), 1nat,
{
    let t = tok(toks, st.current as int);
    match t.token_type {
        TokenType::Identifier => if t.lexeme is Some {
            Parsed {
                adv: 1,
                loop_depth: st.loop_depth,
                id: st.id + 1,
                res: Ok(SExpr::Variable { token: t, id: (st.id + 1) as usize }),
            }
        } else {
            missing_lexeme(st)
        },
        TokenType::Number => if t.lexeme is Some {
            one(st, SExpr::Literal { value: Literal::Number(lexeme_of(t)) })
        } else {
            missing_lexeme(st)
        },
        TokenType::StringLiteral => if t.lexeme is Some {
            one(st, SExpr::Literal { value: Literal::String(lexeme_of(t)) })
        } else {
            missing_lexeme(st)
        },
        TokenType::Nil => one(st, SExpr::Literal { value: Literal::Nil }),
        TokenType::True => one(st, SExpr::Literal { value: Literal::True }),
        TokenType::False => one(st, SExpr::Literal { value: Literal::False }),
        TokenType::LeftParen => {
            let s1 = step(st);
            let e = p_expression(toks, s1);
            match e.res {
                Err(_) => e.shift(1),
                Ok(x) => {
                    let c = p_consume(
                        toks,
                        after(s1, e),
                        TokenType::RightParen,
                        "expected ) after Expression"@,
                    );
                    match c.res {
                        Err(_) => followed(e.shift(1), c.cast()),
                        Ok(_) => followed(e.shift(1), c.set(SExpr::Group { value: Box::new(x) })),
                    }
                },
            }
        },
        other => Parsed {
            adv: 1,
            loop_depth: st.loop_depth,
            id: st.id,
            res: Err(PErr::CantParse { token_type: other }),
        },
    }
}

// ---------------------------------------------------------------------------
// Statements.
// ---------------------------------------------------------------------------

/// `program → declaration* EOF`, appended to `stmts`. A declaration that
/// succeeds always consumes a token; the branch for one that consumes none
/// only keeps the definition well founded and is never taken.
#[verifier::opaque]
pub open spec fn p_program(toks: Seq<Token>, st: PState, stmts: Seq<SStmt>) -> Parsed<Seq<SStmt>>
    decreases rem(toks, st),
{
    if at_eof(toks, st) {
        ok(st, stmts)
    } else {
        let d = p_declaration(toks, st);
        match d.res {
            Err(_) => d.cast(),
            Ok(s) => if d.adv == 0 {
                d.fail(PErr::TooManyArgs)
            } else {
                followed(d, p_program(toks, after(st, d), stmts.push(s)))
            },
        }
    }
}

/// `declaration → "var" variable | statement`.
#[verifier::opaque]
pub open spec fn p_declaration(toks: Seq<Token>, st: PState) -> Parsed<SStmt>
    decreases rem(toks, st), 10nat,
{
    if check(toks, st, TokenType::Var) {
        p_variable(toks, step(st)).shift(1)
    } else {
        p_statements(toks, st)
    }
}

/// `variable → IDENTIFIER ( "=" expression )? ";"`, after `var`.
#[verifier::opaque]
pub open spec fn p_variable(toks: Seq<Token>, st: PState) -> Parsed<SStmt> {
    let c = p_consume(toks, st, TokenType::Identifier, "Expected an identifier"@);
    match c.res {
        Err(_) => c.cast(),
        Ok(name) => {
            let s1 = after(st, c);
            let init: Parsed<Option<SExpr>> = if check(toks, s1, TokenType::Equal) {
                let e = p_expression(toks, step(s1));
                match e.res {
                    Err(_) => e.shift(1).cast(),
                    Ok(x) => e.shift(1).set(Some(x)),
                }
            } else {
                ok(s1, None)
            };
            match init.res {
                Err(_) => followed(c, init).cast(),
                Ok(expr) => {
                    let c2 = p_consume(
                        toks,
                        after(s1, init),
                        TokenType::Semicolon,
                        "Expected ; after expression"@,
                    );
                    match c2.res {
                        Err(_) => followed(c, followed(init, c2)).cast(),
                        Ok(_) => followed(c, followed(init, c2)).set(SStmt::Variable { op: name, expr }),
                    }
                },
            }
        },
    }
}

/// `statement`: the kind of statement is chosen by its first token.
#[verifier::opaque]
pub open spec fn p_statements(toks: Seq<Token>, st: PState) -> Parsed<SStmt>
    decreases rem(toks, st), 9nat,
{
    if check(toks, st, TokenType::Print) {
        p_print(toks, step(st)).shift(1)
    } else if check(toks, st, TokenType::Return) {
        p_return(toks, step(st)).shift(1)
    } else if check(toks, st, TokenType::Fun) {
        p_func(toks, step(st), "function"@).shift(1)
    } else if check(toks, st, TokenType::For) {
        p_for(toks, step(st)).shift(1)
    } else if check(toks, st, TokenType::If) {
        p_if(toks, step(st)).shift(1)
    } else if check(toks, st, TokenType::While) {
        p_while(toks, step(st)).shift(1)
    } else if check(toks, st, TokenType::LeftBrace) {
        p_block(toks, step(st)).shift(1)
    } else if check(toks, st, TokenType::Break) {
        if st.loop_depth == 0 {
            one(st, ()).fail(
                PErr::BreakOutsideLoop { line: tok(toks, st.current as int).line as nat },
            )
        } else {
            let c = p_consume(toks, step(st), TokenType::Semicolon, "Expected ; after break"@);
            match c.res {
                Err(_) => c.shift(1).cast(),
                Ok(_) => c.shift(1).set(SStmt::Break),
            }
        }
    } else if check(toks, st, TokenType::Continue) {
        if st.loop_depth == 0 {
            one(st, ()).fail(
                PErr::ContinueOutsideLoop { line: tok(toks, st.current as int).line as nat },
            )
        } else {
            let c = p_consume(toks, step(st), TokenType::Semicolon, "Expected ; after break"@);
            match c.res {
                Err(_) => c.shift(1).cast(),
                Ok(_) => c.shift(1).set(SStmt::Continue),
            }
        }
    } else {
        p_expr_stmt(toks, st)
    }
}

/// `"return" expression? ";"`, after `return`; no expression returns `nil`.
#[verifier::opaque]
pub open spec fn p_return(toks: Seq<Token>, st: PState) -> Parsed<SStmt> {
    let token = tok(toks, st.current - 1);
    let v: Parsed<SExpr> = if !check(toks, st, TokenType::Semicolon) {
        p_expression(toks, st)
    } else {
        ok(st, SExpr::Literal { value: Literal::Nil })
    };
    match v.res {
        Err(_) => v.cast(),
        Ok(value) => {
            let c = p_consume(
                toks,
                after(st, v),
                TokenType::Semicolon,
                "Expected ; after an expression"@,
            );
            match c.res {
                Err(_) => followed(v, c).cast(),
                Ok(_) => followed(v, c).set(SStmt::Return { token, value }),
            }
        },
    }
}

/// The message for a missing name after `fun`.
pub open spec fn kind_name_msg(name: Seq<char>) -> Seq<char> {
    "Expected kind "@ + name + " name"@
}

/// The message for a missing `(` after a function's name.
pub open spec fn paren_after_name_msg(name: Seq<char>) -> Seq<char> {
    "Expected ( after "@ + name + " name "@
}

/// The parameter names of a function, appended to `params`: at most 255.
#[verifier::opaque]
pub open spec fn p_params(toks: Seq<Token>, st: PState, params: Seq<Token>) -> Parsed<Seq<Token>>
    decreases rem(toks, st),
{
    if params.len() >= 255 {
        ok(st, ()).fail(PErr::TooManyArgs)
    } else if check(toks, st, TokenType::RightParen) {
        ok(st, params)
    } else {
        let c = p_consume(toks, st, TokenType::Identifier, "Expected parameter name"@);
        match c.res {
            Err(_) => c.cast(),
            Ok(p) => {
                let s1 = step(st);
                if check(toks, s1, TokenType::Comma) {
                    p_params(toks, step(s1), params.push(p)).shift(2)
                } else {
                    c.set(params.push(p))
                }
            },
        }
    }
}

/// A function declaration after `fun`: the name, the parameters and the
/// body block.
#[verifier::opaque]
pub open spec fn p_func(toks: Seq<Token>, st: PState, name: Seq<char>) -> Parsed<SStmt>
    decreases rem(toks, st), 8nat,
{
    let c1 = p_consume(toks, st, TokenType::Identifier, kind_name_msg(name));
    match c1.res {
        Err(_) => c1.cast(),
        Ok(fn_name) => {
            let s1 = after(st, c1);
            let c2 = p_consume(toks, s1, TokenType::LeftParen, paren_after_name_msg(name));
            match c2.res {
                Err(_) => followed(c1, c2).cast(),
                Ok(_) => {
                    let s2 = after(s1, c2);
                    let ps = p_params(toks, s2, seq![]);
                    match ps.res {
                        Err(_) => followed(c1, followed(c2, ps)).cast(),
                        Ok(params) => {
                            let s3 = after(s2, ps);
                            let c3 = p_consume(
                                toks,
                                s3,
                                TokenType::RightParen,
                                "Expected ) after parameters"@,
                            );
                            match c3.res {
                                Err(_) => followed(c1, followed(c2, followed(ps, c3))).cast(),
                                Ok(_) => {
                                    let s4 = after(s3, c3);
                                    let c4 = p_consume(
                                        toks,
                                        s4,
                                        TokenType::LeftBrace,
                                        "Expected { before a block"@,
                                    );
                                    match c4.res {
                                        Err(_) => followed(c1, followed(c2, followed(ps, followed(c3, c4)))).cast(),
                                        Ok(_) => {
                                            let b = p_block(toks, after(s4, c4));
                                            let total = followed(
                                                c1,
                                                followed(c2, followed(ps, followed(c3, followed(c4, b)))),
                                            );
                                            match b.res {
                                                Err(_) => total,
                                                Ok(SStmt::Block { stmts }) => total.set(
                                                    SStmt::Function_Decl {
                                                        name: fn_name,
                                                        params,
                                                        body: stmts,
                                                    },
                                                ),
                                                Ok(_) => total.fail(PErr::ExpectedBlock),
                                            }
                                        },
                                    }
                                },
                            }
                        },
                    }
                },
            }
        },
    }
}

/// An optional expression: present unless the next token is `stop`.
#[verifier::opaque]
pub open spec fn p_opt_expression(toks: Seq<Token>, st: PState, stop: TokenType) -> Parsed<
    Option<SExpr>,
> {
    if !check(toks, st, stop) {
        let e = p_expression(toks, st);
        match e.res {
            Err(_) => e.cast(),
            Ok(x) => e.set(Some(x)),
        }
    } else {
        ok(st, None)
    }
}

/// The initializer of a `for`: nothing, a variable declaration or an
/// expression statement.
#[verifier::opaque]
pub open spec fn p_for_init(toks: Seq<Token>, st: PState) -> Parsed<Option<SStmt>> {
    if check(toks, st, TokenType::Semicolon) {
        one(st, None)
    } else if check(toks, st, TokenType::Var) {
        let v = p_variable(toks, step(st));
        match v.res {
            Err(_) => v.shift(1).cast(),
            Ok(x) => v.shift(1).set(Some(x)),
        }
    } else {
        let v = p_expr_stmt(toks, st);
        match v.res {
            Err(_) => v.cast(),
            Ok(x) => v.set(Some(x)),
        }
    }
}

/// The loop that a `for` stands for: a `while` over the condition (`true`
/// when there is none) whose body is followed by the increment, inside a
/// block with the initializer when there is one.
pub open spec fn desugar_for(
    init: Option<SStmt>,
    condition: Option<SExpr>,
    increment: Option<SExpr>,
    body: SStmt,
) -> SStmt {
    let cond = match condition {
        Some(c) => c,
        None => SExpr::Literal { value: Literal::True },
    };
    let w = SStmt::While { condition: cond, stmts: Box::new(body), finally: increment };
    match init {
        Some(i) => SStmt::Block { stmts: seq![i, w] },
        None => w,
    }
}

/// The clauses of a `for` in parentheses: the initializer, the optional
/// condition before `;` and the optional increment before `)`.
pub open spec fn p_for_clauses(toks: Seq<Token>, st: PState) -> Parsed<
    (Option<SStmt>, Option<SExpr>, Option<SExpr>),
> {
    let c1 = p_consume(toks, st, TokenType::LeftParen, "Expected ( after for"@);
    match c1.res {
        Err(_) => c1.cast(),
        Ok(_) => {
            let s1 = after(st, c1);
            let i = p_for_init(toks, s1);
            match i.res {
                Err(_) => followed(c1, i).cast(),
                Ok(init) => {
                    let s2 = after(s1, i);
                    let cnd = p_opt_expression(toks, s2, TokenType::Semicolon);
                    match cnd.res {
                        Err(_) => followed(c1, followed(i, cnd)).cast(),
                        Ok(condition) => {
                            let s3 = after(s2, cnd);
                            let c2 = p_consume(
                                toks,
                                s3,
                                TokenType::Semicolon,
                                "Expected ; after loop condition "@,
                            );
                            match c2.res {
                                Err(_) => followed(c1, followed(i, followed(cnd, c2))).cast(),
                                Ok(_) => {
                                    let s4 = after(s3, c2);
                                    let inc = p_opt_expression(toks, s4, TokenType::RightParen);
                                    match inc.res {
                                        Err(_) => followed(c1, followed(i, followed(cnd, followed(c2, inc)))).cast(),
                                        Ok(increment) => {
                                            let c3 = p_consume(
                                                toks,
                                                after(s4, inc),
                                                TokenType::RightParen,
                                                "Expected ) after for clause"@,
                                            );
                                            let head = followed(
                                                c1,
                                                followed(i, followed(cnd, followed(c2, followed(inc, c3)))),
                                            );
                                            match c3.res {
                                                Err(_) => head.cast(),
                                                Ok(_) => head.set((init, condition, increment)),
                                            }
                                        },
                                    }
                                },
                            }
                        },
                    }
                },
            }
        },
    }
}

/// A `for` after `for`: the clauses in parentheses, then a block body one
/// loop deeper.
#[verifier::opaque]
pub open spec fn p_for(toks: Seq<Token>, st: PState) -> Parsed<SStmt>
    decreases rem(toks, st), 8nat,
{
    let h = p_for_clauses(toks, st);
    match h.res {
        Err(_) => h.cast(),
        Ok((init, condition, increment)) => {
            let s6 = after(st, h);
            let inner = PState { loop_depth: s6.loop_depth + 1, ..s6 };
            let b = p_statements(toks, inner);
            let total = followed(h, b);
            match b.res {
                Err(_) => total,
                Ok(body) => {
                    let out = Parsed { loop_depth: (b.loop_depth - 1) as nat, ..total };
                    if body is Block {
                        out.set(desugar_for(init, condition, increment, body))
                    } else {
                        out.fail(PErr::ExpectedBlock)
                    }
                },
            }
        },
    }
}

/// A `while` after `while`: the condition in parentheses, then a block body
/// one loop deeper.
#[verifier::opaque]
pub open spec fn p_while(toks: Seq<Token>, st: PState) -> Parsed<SStmt>
    decreases rem(toks, st), 8nat,
{
    let c1 = p_consume(toks, st, TokenType::LeftParen, "Expected (  after while "@);
    match c1.res {
        Err(_) => c1.cast(),
        Ok(_) => {
            let s1 = after(st, c1);
            let e = p_expression(toks, s1);
            match e.res {
                Err(_) => followed(c1, e).cast(),
                Ok(condition) => {
                    let s2 = after(s1, e);
                    let c2 = p_consume(toks, s2, TokenType::RightParen, "Expected ) after condition"@);
                    let head = followed(c1, followed(e, c2));
                    match c2.res {
                        Err(_) => head.cast(),
                        Ok(_) => {
                            let s3 = after(s2, c2);
                            let inner = PState { loop_depth: s3.loop_depth + 1, ..s3 };
                            let b = p_statements(toks, inner);
                            let total = followed(head, b);
                            match b.res {
                                Err(_) => total,
                                Ok(body) => {
                                    let out = Parsed {
                                        loop_depth: (b.loop_depth - 1) as nat,
                                        ..total
                                    };
                                    if body is Block {
                                        out.set(
                                            SStmt::While {
                                                condition,
                                                stmts: Box::new(body),
                                                finally: None,
                                            },
                                        )
                                    } else {
                                        out.fail(PErr::ExpectedBlockFound { found: body })
                                    }
                                },
                            }
                        },
                    }
                },
            }
        },
    }
}

/// An `if` after `if`: the condition in parentheses, the statement, and the
/// statement after `else` if there is one.
#[verifier::opaque]
pub open spec fn p_if(toks: Seq<Token>, st: PState) -> Parsed<SStmt>
    decreases rem(toks, st), 8nat,
{
    let c1 = p_consume(toks, st, TokenType::LeftParen, "Expected ( after if statement"@);
    match c1.res {
        Err(_) => c1.cast(),
        Ok(_) => {
            let s1 = after(st, c1);
            let e = p_expression(toks, s1);
            match e.res {
                Err(_) => followed(c1, e).cast(),
                Ok(condition) => {
                    let s2 = after(s1, e);
                    let c2 = p_consume(toks, s2, TokenType::RightParen, "Expected ) after statement"@);
                    let head = followed(c1, followed(e, c2));
                    match c2.res {
                        Err(_) => head.cast(),
                        Ok(_) => {
                            let s3 = after(s2, c2);
                            let t = p_statements(toks, s3);
                            match t.res {
                                Err(_) => followed(head, t),
                                Ok(then_branch) => {
                                    let s4 = after(s3, t);
                                    if check(toks, s4, TokenType::Else) {
                                        let el = p_statements(toks, step(s4));
                                        let total = followed(head, followed(t, el.shift(1)));
                                        match el.res {
                                            Err(_) => total,
                                            Ok(else_branch) => total.set(
                                                SStmt::If {
                                                    condition,
                                                    then_branch: Box::new(then_branch),
                                                    else_branch: Some(Box::new(else_branch)),
                                                },
                                            ),
                                        }
                                    } else {
                                        followed(head, t).set(
                                            SStmt::If {
                                                condition,
                                                then_branch: Box::new(then_branch),
                                                else_branch: None,
                                            },
                                        )
                                    }
                                },
                            }
                        },
                    }
                },
            }
        },
    }
}

/// `"{" declaration* "}"`, after `{`.
#[verifier::opaque]
pub open spec fn p_block(toks: Seq<Token>, st: PState) -> Parsed<SStmt>
    decreases rem(toks, st), 12nat,
{
    p_block_rest(toks, st, seq![])
}

/// The declarations of a block up to its `}`, appended to `stmts` (as in
/// `p_program`, a declaration that consumes nothing never occurs).
#[verifier::opaque]
pub open spec fn p_block_rest(toks: Seq<Token>, st: PState, stmts: Seq<SStmt>) -> Parsed<SStmt>
    decreases rem(toks, st), 11nat,
{
    if !check(toks, st, TokenType::RightBrace) && !at_eof(toks, st) {
        let d = p_declaration(toks, st);
        match d.res {
            Err(_) => d,
            Ok(s) => if d.adv == 0 {
                d.fail(PErr::TooManyArgs)
            } else {
                followed(d, p_block_rest(toks, after(st, d), stmts.push(s)))
            },
        }
    } else {
        let c = p_consume(toks, st, TokenType::RightBrace, "Expected } after the block"@);
        match c.res {
            Err(_) => c.cast(),
            Ok(_) => c.set(SStmt::Block { stmts }),
        }
    }
}

/// `print ( expression ) ;`, after `print`.
#[verifier::opaque]
pub open spec fn p_print(toks: Seq<Token>, st: PState) -> Parsed<SStmt> {
    let c1 = p_consume(toks, st, TokenType::LeftParen, "expected ( before print statement"@);
    match c1.res {
        Err(_) => c1.cast(),
        Ok(_) => {
            let s1 = after(st, c1);
            let e = p_expression(toks, s1);
            match e.res {
                Err(_) => followed(c1, e).cast(),
                Ok(expr) => {
                    let s2 = after(s1, e);
                    let c2 = p_consume(
                        toks,
                        s2,
                        TokenType::RightParen,
                        "expected ) after print statement"@,
                    );
                    match c2.res {
                        Err(_) => followed(c1, followed(e, c2)).cast(),
                        Ok(_) => {
                            let c3 = p_consume(
                                toks,
                                after(s2, c2),
                                TokenType::Semicolon,
                                "expected ; after end of statement"@,
                            );
                            let total = followed(c1, followed(e, followed(c2, c3)));
                            match c3.res {
                                Err(_) => total.cast(),
                                Ok(_) => total.set(SStmt::Print { expr }),
                            }
                        },
                    }
                },
            }
        },
    }
}

/// `expression ;`.
#[verifier::opaque]
pub open spec fn p_expr_stmt(toks: Seq<Token>, st: PState) -> Parsed<SStmt> {
    let e = p_expression(toks, st);
    match e.res {
        Err(_) => e.cast(),
        Ok(expr) => {
            let c = p_consume(toks, after(st, e), TokenType::Semicolon, "Expected ; afer statement"@);
            match c.res {
                Err(_) => followed(e, c).cast(),
                Ok(_) => followed(e, c).set(SStmt::Expr { expr }),
            }
        },
    }
}

} // verus!

verus! {

/// The statement chosen by its first token (one unfolding of `p_statements`).
pub proof fn lemma_statements_dispatch(toks: Seq<Token>, st: PState)
    ensures
        check(toks, st, TokenType::Print) ==> p_statements(toks, st) == p_print(toks, step(st)).shift(1),
        check(toks, st, TokenType::Return) ==> p_statements(toks, st) == p_return(toks, step(st)).shift(1),
        check(toks, st, TokenType::Fun) ==> p_statements(toks, st) == p_func(toks, step(st), "function"@).shift(1),
        check(toks, st, TokenType::For) ==> p_statements(toks, st) == p_for(toks, step(st)).shift(1),
        check(toks, st, TokenType::If) ==> p_statements(toks, st) == p_if(toks, step(st)).shift(1),
        check(toks, st, TokenType::While) ==> p_statements(toks, st) == p_while(toks, step(st)).shift(1),
        check(toks, st, TokenType::LeftBrace) ==> p_statements(toks, st) == p_block(toks, step(st)).shift(1),
        check(toks, st, TokenType::Break) && st.loop_depth == 0 ==> p_statements(toks, st) == one(
            st,
            (),
        ).fail::<SStmt>(PErr::BreakOutsideLoop { line: tok(toks, st.current as int).line as nat }),
        check(toks, st, TokenType::Break) && st.loop_depth != 0 ==> p_statements(toks, st) == ({
            let c = p_consume(toks, step(st), TokenType::Semicolon, "Expected ; after break"@);
            match c.res {
                Err(_) => c.shift(1).cast(),
                Ok(_) => c.shift(1).set(SStmt::Break),
            }
        }),
        check(toks, st, TokenType::Continue) && st.loop_depth == 0 ==> p_statements(toks, st) == one(
            st,
            (),
        ).fail::<SStmt>(
            PErr::ContinueOutsideLoop { line: tok(toks, st.current as int).line as nat },
        ),
        check(toks, st, TokenType::Continue) && st.loop_depth != 0 ==> p_statements(toks, st) == ({
            let c = p_consume(toks, step(st), TokenType::Semicolon, "Expected ; after break"@);
            match c.res {
                Err(_) => c.shift(1).cast(),
                Ok(_) => c.shift(1).set(SStmt::Continue),
            }
        }),
        !check(toks, st, TokenType::Print) && !check(toks, st, TokenType::Return) && !check(
            toks,
            st,
            TokenType::Fun,
        ) && !check(toks, st, TokenType::For) && !check(toks, st, TokenType::If) && !check(
            toks,
            st,
            TokenType::While,
        ) && !check(toks, st, TokenType::LeftBrace) && !check(toks, st, TokenType::Break)
            && !check(toks, st, TokenType::Continue) ==> p_statements(toks, st) == p_expr_stmt(
            toks,
            st,
        ),
{
    reveal_with_fuel(p_statements, 1);
    reveal_with_fuel(p_func, 1);
    reveal_with_fuel(p_for, 1);
    reveal_with_fuel(p_if, 1);
    reveal_with_fuel(p_while, 1);
    reveal_with_fuel(p_block, 1);
}

} // verus!

verus! {

/// The binary operators by precedence level, loosest first: `or` 6, `and` 5,
/// `!=` `==` 4, `>` `>=` `<` `<=` 3, `-` `+` 2, `/` `*` 1; no level for any
/// other token.
pub open spec fn binary_op_level(t: TokenType) -> Option<nat> {
    match t {
        TokenType::Or => Some(6),
        TokenType::And => Some(5),
        TokenType::BangEqual => Some(4),
        TokenType::EqualEqual => Some(4),
        TokenType::Greater => Some(3),
        TokenType::GreaterEqual => Some(3),
        TokenType::Less => Some(3),
        TokenType::LessEqual => Some(3),
        TokenType::Minus => Some(2),
        TokenType::Plus => Some(2),
        TokenType::Slash => Some(1),
        TokenType::Star => Some(1),
        _ => None,
    }
}

/// Law: a binary level of the parser takes exactly the operators of that
/// precedence level.
pub proof fn lemma_level_ops_exact(t: TokenType, level: nat)
    requires
        1 <= level <= 6,
    ensures
        level_ops(level).contains(t) <==> binary_op_level(t) == Some(level),
{
    let ops = level_ops(level);
    if binary_op_level(t) == Some(level) {
        if level == 4 {
            assert(t == ops[0] || t == ops[1]);
        } else if level == 3 {
            assert(t == ops[0] || t == ops[1] || t == ops[2] || t == ops[3]);
        } else if level == 2 || level == 1 {
            assert(t == ops[0] || t == ops[1]);
        } else {
            assert(t == ops[0]);
        }
    }
    if ops.contains(t) {
        let i = choose|i: int| 0 <= i < ops.len() && ops[i] == t;
        assert(binary_op_level(ops[i]) == Some(level));
    }
}

/// Every operator a binary level takes has that level (the loosest level
/// stands for all looser ones).
proof fn lemma_level_ops_levels(t: TokenType, level: nat)
    requires
        level >= 1,
    ensures
        level_ops(level).contains(t) ==> binary_op_level(t) == Some(
            if level >= 6 {
                6nat
            } else {
                level
            },
        ),
{
    if level <= 6 {
        lemma_level_ops_exact(t, level);
    } else {
        lemma_level_ops_exact(t, 6);
    }
}

/// The literal a number token stands for.
pub open spec fn number_literal(t: Token) -> SExpr {
    SExpr::Literal { value: Literal::Number(lexeme_of(t)) }
}

/// A number token followed by neither `(` nor an operator of level `level`
/// or tighter is, at that level, one literal operand (at level 0, the unary
/// level).
proof fn lemma_number_operand(toks: Seq<Token>, st: PState, level: nat)
    requires
        tok(toks, st.current as int).token_type == TokenType::Number,
        tok(toks, st.current as int).lexeme is Some,
        tok(toks, st.current + 1int).token_type != TokenType::LeftParen,
        binary_op_level(tok(toks, st.current + 1int).token_type) matches Some(m) ==> m > level,
    ensures
        (if level == 0 {
            p_unary(toks, st)
        } else {
            p_binary(toks, st, level)
        }) == one(st, number_literal(tok(toks, st.current as int))),
    decreases level,
{
    reveal_with_fuel(p_unary, 1);
    reveal_with_fuel(p_call, 1);
    reveal_with_fuel(p_primary, 1);
    reveal_with_fuel(p_call_rest, 1);
    reveal_with_fuel(p_binary, 1);
    reveal_with_fuel(p_binary_rest, 1);
    let lit = number_literal(tok(toks, st.current as int));
    let s1 = step(st);
    assert(p_primary(toks, st) == one(st, lit));
    assert(!check(toks, s1, TokenType::LeftParen));
    assert(p_call_rest(toks, s1, lit) == ok(s1, lit));
    assert(p_call(toks, st) == one(st, lit));
    assert(p_unary(toks, st) == one(st, lit));
    if level >= 1 {
        lemma_number_operand(toks, st, (level - 1) as nat);
        if level > 1 {
            assert(p_binary(toks, st, (level - 1) as nat) == one(st, lit));
        }
        lemma_level_ops_levels(tok(toks, st.current + 1int).token_type, level);
        assert(!check_any(toks, s1, level_ops(level)));
        assert(p_binary_rest(toks, s1, level, lit) == ok(s1, lit));
    }
}

/// Law: two numbers joined by a binary operator parse, at the operator's
/// precedence level and at every looser one, into one node of that operator
/// over the two literals (a logical node for `and` and `or`), consuming the
/// three tokens, where the token after them is neither `(` nor an operator.
pub proof fn lemma_binary_operator(toks: Seq<Token>, st: PState, level: nat, outer: nat)
    requires
        tok(toks, st.current as int).token_type == TokenType::Number,
        tok(toks, st.current as int).lexeme is Some,
        binary_op_level(tok(toks, st.current + 1int).token_type) == Some(level),
        tok(toks, st.current + 2int).token_type == TokenType::Number,
        tok(toks, st.current + 2int).lexeme is Some,
        tok(toks, st.current + 3int).token_type != TokenType::LeftParen,
        binary_op_level(tok(toks, st.current + 3int).token_type) is None,
        level <= outer,
    ensures
        p_binary(toks, st, outer) == (Parsed {
            adv: 3,
            loop_depth: st.loop_depth,
            id: st.id,
            res: Ok(
                if level >= 5 {
                    SExpr::Logical {
                        left: Box::new(number_literal(tok(toks, st.current as int))),
                        op: tok(toks, st.current + 1int),
                        right: Box::new(number_literal(tok(toks, st.current + 2int))),
                    }
                } else {
                    SExpr::Binary {
                        left: Box::new(number_literal(tok(toks, st.current as int))),
                        op: tok(toks, st.current + 1int),
                        right: Box::new(number_literal(tok(toks, st.current + 2int))),
                    }
                },
            ),
        }),
    decreases outer,
{
    reveal_with_fuel(p_binary, 1);
    reveal_with_fuel(p_binary_rest, 1);
    reveal_with_fuel(p_unary, 1);
    let x = number_literal(tok(toks, st.current as int));
    let op = tok(toks, st.current + 1int);
    let y = number_literal(tok(toks, st.current + 2int));
    let node = combine(level, x, op, y);
    let s1 = step(st);
    let s2 = step(s1);
    let s3 = step(s2);
    let third = tok(toks, st.current + 3int).token_type;
    lemma_level_ops_levels(third, outer);
    assert(!check_any(toks, s3, level_ops(outer)));
    assert(p_binary_rest(toks, s3, outer, node) == ok(s3, node));
    if outer > level {
        lemma_binary_operator(toks, st, level, (outer - 1) as nat);
    } else {
        lemma_number_operand(toks, st, (level - 1) as nat);
        assert(op.token_type != TokenType::LeftParen);
        lemma_level_ops_exact(op.token_type, level);
        assert(check_any(toks, s1, level_ops(level)));
        assert(s2.current == st.current + 2);
        lemma_number_operand(toks, s2, (level - 1) as nat);
        if level == 1 {
            assert(p_unary(toks, s2) == one(s2, y));
            assert(p_unary(toks, st) == one(st, x));
        } else {
            assert(p_binary(toks, s2, (level - 1) as nat) == one(s2, y));
            assert(p_binary(toks, st, (level - 1) as nat) == one(st, x));
        }
        assert(p_binary_rest(toks, s1, level, x) == followed(one(s1, y).shift(1), ok(s3, node)));
    }
}

} // verus!
