use vstd::prelude::*;
use vstd::string::*;

use crate::expr::{Expr, Literal, SExpr};
use crate::grammar::{
    PErr, lexemes_found, lexemes_present, PState, Parsed, after, at_eof, check, check_any, p_args, p_assignment, p_binary,
    p_binary_rest, p_block, p_block_rest, p_call, p_call_rest, p_close_call, p_consume,
    p_declaration, p_expr_stmt, p_expression, p_finish_call, p_for, p_for_init, p_func, p_if,
    p_opt_expression, p_params, p_primary, p_print, p_program, p_return, p_statements, p_unary,
    p_variable, p_while, level_ops, rem, step, tok, lemma_statements_dispatch, p_for_clauses,
};
use crate::stmt::{SStmt, Stmt, opt_expr_sv, opt_stmt_sv, stmts_sv};
use crate::scanner::{lemma_scan_shape, spec_scan, token_ok};
use crate::tokentype::{Token, TokenType, token_views};

verus! {

/// Why parsing stopped.
#[derive(Debug, PartialEq)]
pub enum ParseError {
    /// A token of a given kind was needed; `line` is that of the token before.
    Expected { line: usize, msg: String },
    BreakOutsideLoop { line: usize },
    ContinueOutsideLoop { line: usize },
    TooManyArgs,
    ExpectedBlock,
    ExpectedBlockFound { found: Box<Stmt> },
    InvalidAssignmentTarget,
    CantParse { token_type: TokenType },
}

impl View for ParseError {
    type V = PErr;

    open spec fn view(&self) -> PErr {
        match self {
            ParseError::Expected { line, msg } => PErr::Expected { line: *line as nat, msg: msg@ },
            ParseError::BreakOutsideLoop { line } => PErr::BreakOutsideLoop { line: *line as nat },
            ParseError::ContinueOutsideLoop { line } => PErr::ContinueOutsideLoop {
                line: *line as nat,
            },
            ParseError::TooManyArgs => PErr::TooManyArgs,
            ParseError::ExpectedBlock => PErr::ExpectedBlock,
            ParseError::ExpectedBlockFound { found } => PErr::ExpectedBlockFound {
                found: (**found).sv(),
            },
            ParseError::InvalidAssignmentTarget => PErr::InvalidAssignmentTarget,
            ParseError::CantParse { token_type } => PErr::CantParse { token_type: *token_type },
        }
    }
}

/// The mathematical forms of a list of expressions.
pub open spec fn exprs_sv(v: Seq<Expr>) -> Seq<SExpr> {
    v.map_values(|e: Expr| e.sv())
}

/// An expression result and its mathematical form.
pub open spec fn expr_res(r: Result<Expr, ParseError>, s: Result<SExpr, PErr>) -> bool {
    match r {
        Ok(e) => s == Ok::<SExpr, PErr>(e.sv()),
        Err(e) => s == Err::<SExpr, PErr>(e@),
    }
}

/// A statement result and its mathematical form.
pub open spec fn stmt_res(r: Result<Stmt, ParseError>, s: Result<SStmt, PErr>) -> bool {
    match r {
        Ok(e) => s == Ok::<SStmt, PErr>(e.sv()),
        Err(e) => s == Err::<SStmt, PErr>(e@),
    }
}

/// A statement-list result and its mathematical form.
pub open spec fn stmts_res(r: Result<Vec<Stmt>, ParseError>, s: Result<Seq<SStmt>, PErr>) -> bool {
    match r {
        Ok(v) => s == Ok::<Seq<SStmt>, PErr>(stmts_sv(v@)),
        Err(e) => s == Err::<Seq<SStmt>, PErr>(e@),
    }
}

/// An expression-list result and its mathematical form.
pub open spec fn exprs_res(r: Result<Vec<Expr>, ParseError>, s: Result<Seq<SExpr>, PErr>) -> bool {
    match r {
        Ok(v) => s == Ok::<Seq<SExpr>, PErr>(exprs_sv(v@)),
        Err(e) => s == Err::<Seq<SExpr>, PErr>(e@),
    }
}

/// A token result and its mathematical form.
pub open spec fn token_res(r: Result<Token, ParseError>, s: Result<Token, PErr>) -> bool {
    match r {
        Ok(t) => s == Ok::<Token, PErr>(t),
        Err(e) => s == Err::<Token, PErr>(e@),
    }
}

/// A token-list result and its mathematical form.
pub open spec fn tokens_res(r: Result<Vec<Token>, ParseError>, s: Result<Seq<Token>, PErr>) -> bool {
    match r {
        Ok(v) => s == Ok::<Seq<Token>, PErr>(v@),
        Err(e) => s == Err::<Seq<Token>, PErr>(e@),
    }
}

/// There is an end-of-file token at index `i` or after it.
pub open spec fn eof_from(toks: Seq<Token>, i: int) -> bool {
    exists|k: int| i <= k < toks.len() && (#[trigger] toks[k]).token_type == TokenType::Eof
}

/// What the parser needs of its tokens: an end-of-file token.
pub open spec fn tokens_ready(toks: Seq<Token>) -> bool {
    eof_from(toks, 0)
}


/// Law: the tokens of a successful scan are ready to be parsed: every
/// identifier, number and string carries its lexeme, and the last token ends
/// the input.
pub proof fn lemma_scanned_tokens_ready(src: Seq<char>, tokens: Seq<Token>)
    requires
        spec_scan(src) is Ok,
        token_views(tokens) == spec_scan(src)->Ok_0.tokens,
    ensures
        tokens_ready(tokens),
        lexemes_present(tokens),
{
    lemma_scan_shape(src);
    let fin = spec_scan(src)->Ok_0;
    let n = tokens.len();
    assert(token_views(tokens).len() == n);
    assert forall|i: int|
        0 <= i < n && (tokens[i].token_type == TokenType::Identifier || tokens[i].token_type
            == TokenType::Number || tokens[i].token_type == TokenType::StringLiteral) implies (
    #[trigger] tokens[i]).lexeme is Some by {
        assert(token_views(tokens)[i] == tokens[i]@);
        if i < n - 1 {
            assert(token_ok(fin.tokens[i]));
        }
    }
    assert(token_views(tokens)[n - 1] == tokens[n - 1]@);
    assert(tokens[n - 1].token_type == TokenType::Eof);
}

/// Where the end-of-file token ahead lies past a token that is not one, it
/// lies past the next index too.
proof fn lemma_eof_step(toks: Seq<Token>, i: int)
    requires
        eof_from(toks, i),
        0 <= i,
        tok(toks, i).token_type != TokenType::Eof,
    ensures
        eof_from(toks, i + 1),
        i + 1 < toks.len(),
{
    let k = choose|k: int| i <= k < toks.len() && (#[trigger] toks[k]).token_type == TokenType::Eof;
    assert(k != i);
    assert(i + 1 <= k < toks.len() && toks[k].token_type == TokenType::Eof);
}

/// The extensional form of a block's view.
proof fn lemma_block_sv(s: Stmt)
    requires
        s is Block,
    ensures
        s.sv() == (SStmt::Block { stmts: stmts_sv(s->Block_stmts@) }),
{
    match s {
        Stmt::Block { stmts } => {
            assert(s.sv()->Block_stmts =~= stmts_sv(stmts@));
        },
        _ => {},
    }
}

/// The extensional form of a call's view.
proof fn lemma_call_sv(e: Expr)
    requires
        e is Call,
    ensures
        e.sv() == (SExpr::Call {
            callie: Box::new((*e->callie).sv()),
            paren: e->paren,
            args: exprs_sv(e->args@),
        }),
{
    match e {
        Expr::Call { callie, paren, args } => {
            assert(e.sv()->args =~= exprs_sv(args@));
        },
        _ => {},
    }
}

/// Turns tokens into statements by recursive descent.
#[derive(Debug, PartialEq, Clone)]
pub struct Parser {
    tokens: Vec<Token>,
    current: usize,
    loop_depth: usize,
    id: usize,
}

/// The parser `p1` is the parser `p0` after the outcome `o`: the same tokens,
/// the state that `o` gives, no more ids and loop levels than tokens
/// consumed, and (on success) still ready to parse.
pub open spec fn moved<T>(p0: Parser, p1: Parser, o: Parsed<T>) -> bool {
    &&& p1.toks() == p0.toks()
    &&& p1.pstate() == after(p0.pstate(), o)
    &&& p1.pstate().id <= p0.pstate().id + o.adv
    &&& p1.pstate().loop_depth <= p0.pstate().loop_depth + o.adv
    &&& (o.res is Ok ==> p1.wf())
}

/// An outcome that, when it succeeds, has consumed a token and left the loop
/// depth as it was.
pub open spec fn progress<T>(st: PState, o: Parsed<T>) -> bool {
    o.res is Ok ==> o.adv >= 1 && o.loop_depth == st.loop_depth
}

impl Parser {
    /// The tokens.
    pub closed spec fn toks(&self) -> Seq<Token> {
        self.tokens@
    }

    /// The index of the next token, the loop depth and the last id.
    pub closed spec fn pstate(&self) -> PState {
        PState {
            current: self.current as nat,
            loop_depth: self.loop_depth as nat,
            id: self.id as nat,
        }
    }

    /// The tokens left.
    pub closed spec fn remaining(&self) -> nat {
        rem(self.tokens@, self.pstate())
    }

    /// Ready to parse: an end-of-file token ahead, and no more ids or loop
    /// levels than tokens consumed.
    pub closed spec fn wf(&self) -> bool {
        &&& eof_from(self.tokens@, self.current as int)
        &&& self.current < self.tokens@.len()
        &&& self.id <= self.current
        &&& self.loop_depth <= self.current
    }

    /// The parser's counters are machine integers.
    pub proof fn lemma_counters_fit(&self)
        ensures
            self.pstate().current <= usize::MAX,
            self.pstate().id <= usize::MAX,
            self.pstate().loop_depth <= usize::MAX,
    {
    }

    /// A parser at the first token, with no loop around it and no id handed
    /// out yet.
    pub fn new(tokens: Vec<Token>) -> (p: Self)
        ensures
            p.toks() == tokens@,
            p.pstate() == (PState { current: 0, loop_depth: 0, id: 0 }),
            p.wf() == tokens_ready(tokens@),
    {
        Self { tokens, current: 0, loop_depth: 0, id: 0 }
    }

    /// Whether the parser is ready to parse.
    pub fn is_ready(&self) -> (r: bool)
        ensures
            r == self.wf(),
    {
        if self.id > self.current || self.loop_depth > self.current {
            return false;
        }
        let mut i: usize = 0;
        let mut eof_seen = false;
        while i < self.tokens.len()
            invariant
                i <= self.tokens.len(),
                eof_seen == exists|k: int|
                    self.current <= k < i && (#[trigger] self.tokens@[k]).token_type
                        == TokenType::Eof,
            decreases self.tokens.len() - i,
        {
            if i >= self.current && self.tokens[i].token_type == TokenType::Eof {
                eof_seen = true;
            }
            i = i + 1;
            proof {
                if eof_seen {
                    let k = choose|k: int|
                        self.current <= k < i && (#[trigger] self.tokens@[k]).token_type
                            == TokenType::Eof;
                    assert(self.current <= k < i && self.tokens@[k].token_type == TokenType::Eof);
                }
            }
        }
        eof_seen
    }

    /// Whether every identifier, number and string token carries its lexeme
    /// (then no parse stops at one without it).
    pub fn has_lexemes(&self) -> (r: bool)
        ensures
            r == lexemes_present(self.toks()),
    {
        let mut i: usize = 0;
        while i < self.tokens.len()
            invariant
                i <= self.tokens.len(),
                forall|j: int|
                    0 <= j < i && (self.tokens@[j].token_type == TokenType::Identifier
                        || self.tokens@[j].token_type == TokenType::Number
                        || self.tokens@[j].token_type == TokenType::StringLiteral)
                        ==> (#[trigger] self.tokens@[j]).lexeme is Some,
            decreases self.tokens.len() - i,
        {
            let t = &self.tokens[i];
            if (t.token_type == TokenType::Identifier || t.token_type == TokenType::Number
                || t.token_type == TokenType::StringLiteral) && t.lexeme.is_none() {
                assert(!lexemes_present(self.tokens@));
                return false;
            }
            i = i + 1;
        }
        true
    }

    /// Parses declarations up to the end of the input.
    pub fn parse_stmt(&mut self) -> (r: Result<Vec<Stmt>, ParseError>)
        requires
            lexemes_found(p_program(old(self).toks(), old(self).pstate(), seq![])),
            old(self).wf(),
        ensures
            moved(*old(self), *final(self), p_program(old(self).toks(), old(self).pstate(), seq![])),
            stmts_res(r, p_program(old(self).toks(), old(self).pstate(), seq![]).res),
    {
        reveal_with_fuel(p_program, 1);
        let ghost toks = self.toks();
        let ghost s0 = self.pstate();
        let mut stmts: Vec<Stmt> = Vec::new();
        proof {
                assert(stmts_sv(stmts@) =~= seq![]);
        }
        while !self.is_end()
            invariant
                self.wf(),
                self.toks() == toks,
                old(self).toks() == toks,
                old(self).pstate() == s0,
                lexemes_found(p_program(toks, s0, seq![])),
                s0.current <= self.pstate().current,
                self.pstate().id <= s0.id + (self.pstate().current - s0.current),
                self.pstate().loop_depth == s0.loop_depth,
                p_program(toks, s0, seq![]) == p_program(
                    toks,
                    self.pstate(),
                    stmts_sv(stmts@),
                ).shift((self.pstate().current - s0.current) as nat),
            decreases self.remaining(),
        {
            reveal_with_fuel(p_program, 1);
            let d = self.declaration();
            match d {
                Ok(s) => {
                    proof {
                        assert(stmts_sv(stmts@.push(s)) =~= stmts_sv(stmts@).push(s.sv()));
                    }
                    stmts.push(s);
                },
                Err(e) => {
                    return Err(e);
                },
            }
        }
        Ok(stmts)
    }

    /// `"var" variable | statement`.
    pub fn declaration(&mut self) -> (r: Result<Stmt, ParseError>)
        requires
            lexemes_found(p_declaration(old(self).toks(), old(self).pstate())),
            old(self).wf(),
        ensures
            moved(*old(self), *final(self), p_declaration(old(self).toks(), old(self).pstate())),
            stmt_res(r, p_declaration(old(self).toks(), old(self).pstate()).res),
            progress(old(self).pstate(), p_declaration(old(self).toks(), old(self).pstate())),
        decreases old(self).remaining(), 10nat,
    {
        reveal_with_fuel(p_declaration, 1);
        reveal_with_fuel(p_statements, 1);
        if self.match_(&[TokenType::Var]) {
            return self.variable();
        }
        self.statements()
    }

    /// A variable declaration after `var`: the name, an optional
    /// initializer and `;`.
    pub fn variable(&mut self) -> (r: Result<Stmt, ParseError>)
        requires
            lexemes_found(p_variable(old(self).toks(), old(self).pstate())),
            old(self).wf(),
            old(self).pstate().current >= 1 || check(
                old(self).toks(),
                old(self).pstate(),
                TokenType::Identifier,
            ),
        ensures
            moved(*old(self), *final(self), p_variable(old(self).toks(), old(self).pstate())),
            stmt_res(r, p_variable(old(self).toks(), old(self).pstate()).res),
            progress(old(self).pstate(), p_variable(old(self).toks(), old(self).pstate())),
    {
        reveal(p_variable);
        let expr = match self.consume(TokenType::Identifier, "Expected an identifier") {
            Ok(v) => v,
            Err(e) => {
                return Err(e);
            },
        };
        let mut init: Option<Expr> = None;
        if self.match_(&[TokenType::Equal]) {
            let expr = match self.expression() {
                Ok(v) => v,
                Err(e) => {
                    return Err(e);
                },
            };
            init = Some(expr);
        }
        if let Err(e) = self.consume(TokenType::Semicolon, "Expected ; after expression") {
            return Err(e);
        }
        Ok(Stmt::Variable { op: expr, expr: init })
    }

    /// A statement, chosen by its first token.
    pub fn statements(&mut self) -> (r: Result<Stmt, ParseError>)
        requires
            lexemes_found(p_statements(old(self).toks(), old(self).pstate())),
            old(self).wf(),
        ensures
            moved(*old(self), *final(self), p_statements(old(self).toks(), old(self).pstate())),
            stmt_res(r, p_statements(old(self).toks(), old(self).pstate()).res),
            progress(old(self).pstate(), p_statements(old(self).toks(), old(self).pstate())),
        decreases old(self).remaining(), 9nat,
    {
        proof {
            lemma_statements_dispatch(self.toks(), self.pstate());
        }
        if self.match_(&[TokenType::Print]) {
            self.print_statement()
        } else if self.match_(&[TokenType::Return]) {
            self.return_statement()
        } else if self.match_(&[TokenType::Fun]) {
            self.func_statement("function")
        } else if self.match_(&[TokenType::For]) {
            self.for_statement()
        } else if self.match_(&[TokenType::If]) {
            self.if_statement()
        } else if self.match_(&[TokenType::While]) {
            self.while_statement()
        } else if self.match_(&[TokenType::LeftBrace]) {
            self.block()
        } else if self.match_(&[TokenType::Break]) {
            if self.loop_depth == 0 {
                return Err(ParseError::BreakOutsideLoop { line: self.previous().line });
            }
            let res = Ok(Stmt::Break);
            if let Err(e) = self.consume(TokenType::Semicolon, "Expected ; after break") {
                return Err(e);
            }
            res
        } else if self.match_(&[TokenType::Continue]) {
            if self.loop_depth == 0 {
                return Err(ParseError::ContinueOutsideLoop { line: self.previous().line });
            }
            let res = Ok(Stmt::Continue);
            if let Err(e) = self.consume(TokenType::Semicolon, "Expected ; after break") {
                return Err(e);
            }
            res
        } else {
            self.expression_statement()
        }
    }

    /// A return statement after `return`: an optional value and `;`.
    pub fn return_statement(&mut self) -> (r: Result<Stmt, ParseError>)
        requires
            lexemes_found(p_return(old(self).toks(), old(self).pstate())),
            old(self).wf(),
            old(self).pstate().current >= 1,
        ensures
            moved(*old(self), *final(self), p_return(old(self).toks(), old(self).pstate())),
            stmt_res(r, p_return(old(self).toks(), old(self).pstate()).res),
            progress(old(self).pstate(), p_return(old(self).toks(), old(self).pstate())),
    {
        reveal(p_return);
        let token = self.previous().clone();
        let mut expr = Expr::Literal { value: Literal::Nil };
        if !self.check(TokenType::Semicolon) {
            expr = match self.expression() {
                Ok(v) => v,
                Err(e) => {
                    return Err(e);
                },
            };
        }
        if let Err(e) = self.consume(TokenType::Semicolon, "Expected ; after an expression") {
            return Err(e);
        }
        Ok(Stmt::Return { token: token, value: expr })
    }

    /// The parameter names after `(`, appended to `params`.
    fn parameters(&mut self, params: Vec<Token>) -> (r: Result<Vec<Token>, ParseError>)
        requires
            old(self).wf(),
            old(self).pstate().current >= 1,
        ensures
            moved(*old(self), *final(self), p_params(old(self).toks(), old(self).pstate(), params@)),
            tokens_res(r, p_params(old(self).toks(), old(self).pstate(), params@).res),
            p_params(old(self).toks(), old(self).pstate(), params@).loop_depth == old(
                self,
            ).pstate().loop_depth,
        decreases old(self).remaining(),
    {
        reveal_with_fuel(p_params, 1);
        let mut params = params;
        if params.len() >= 255 {
            return Err(ParseError::TooManyArgs);
        }
        if self.check(TokenType::RightParen) {
            return Ok(params);
        }
        params.push(match self.consume(TokenType::Identifier, "Expected parameter name") {
            Ok(v) => v,
            Err(e) => {
                return Err(e);
            },
        });
        if !self.match_(&[TokenType::Comma]) {
            return Ok(params);
        }
        self.parameters(params)
    }

    /// A function declaration after `fun`: the name, the parameters in
    /// parentheses and the body block. `name` is the kind of function,
    /// used in the messages.
    pub fn func_statement(&mut self, name: &str) -> (r: Result<Stmt, ParseError>)
        requires
            lexemes_found(p_func(old(self).toks(), old(self).pstate(), name@)),
            old(self).wf(),
            old(self).pstate().current >= 1 || check(
                old(self).toks(),
                old(self).pstate(),
                TokenType::Identifier,
            ),
        ensures
            moved(*old(self), *final(self), p_func(old(self).toks(), old(self).pstate(), name@)),
            stmt_res(r, p_func(old(self).toks(), old(self).pstate(), name@).res),
            progress(old(self).pstate(), p_func(old(self).toks(), old(self).pstate(), name@)),
        decreases old(self).remaining(), 8nat,
    {
        reveal_with_fuel(p_func, 1);
        reveal_with_fuel(p_block, 1);
        let mut msg1 = String::from_str("Expected kind ");
        msg1.append(name);
        msg1.append(" name");
        let fn_name = match self.consume(TokenType::Identifier, msg1.as_str()) {
            Ok(v) => v,
            Err(e) => {
                return Err(e);
            },
        };
        let mut msg2 = String::from_str("Expected ( after ");
        msg2.append(name);
        msg2.append(" name ");
        let _left_paren = match self.consume(TokenType::LeftParen, msg2.as_str()) {
            Ok(v) => v,
            Err(e) => {
                return Err(e);
            },
        };
        let params = match self.parameters(Vec::new()) {
            Ok(v) => v,
            Err(e) => {
                return Err(e);
            },
        };
        let _right_paren = match self.consume(TokenType::RightParen, "Expected ) after parameters") {
            Ok(v) => v,
            Err(e) => {
                return Err(e);
            },
        };
        if let Err(e) = self.consume(TokenType::LeftBrace, "Expected { before a block") {
            return Err(e);
        }
        let val = match self.block() {
            Ok(v) => v,
            Err(e) => {
                return Err(e);
            },
        };
        match val {
            Stmt::Block { stmts } => {
                proof {
                    lemma_block_sv(Stmt::Block { stmts });
                }
                Ok(Stmt::Function_Decl { name: fn_name, params, body: stmts })
            },
            _ => Err(ParseError::ExpectedBlock),
        }
    }

    /// The clauses of a `for` in parentheses: initializer, condition, increment.
    #[verifier::rlimit(100)]
    #[verifier::spinoff_prover]
    fn for_clauses(&mut self) -> (r: Result<(Option<Stmt>, Option<Expr>, Option<Expr>), ParseError>)
        requires
            lexemes_found(p_for_clauses(old(self).toks(), old(self).pstate())),
            old(self).wf(),
            old(self).pstate().current >= 1 || check(
                old(self).toks(),
                old(self).pstate(),
                TokenType::LeftParen,
            ),
        ensures
            moved(*old(self), *final(self), p_for_clauses(old(self).toks(), old(self).pstate())),
            match r {
                Ok((i, c, e)) => p_for_clauses(old(self).toks(), old(self).pstate()).res == Ok::<
                    (Option<SStmt>, Option<SExpr>, Option<SExpr>),
                    PErr,
                >((opt_stmt_sv(i), opt_expr_sv(c), opt_expr_sv(e))),
                Err(e) => p_for_clauses(old(self).toks(), old(self).pstate()).res == Err::<
                    (Option<SStmt>, Option<SExpr>, Option<SExpr>),
                    PErr,
                >(e@),
            },
            p_for_clauses(old(self).toks(), old(self).pstate()).res is Ok ==> p_for_clauses(
                old(self).toks(),
                old(self).pstate(),
            ).adv >= 2 && p_for_clauses(old(self).toks(), old(self).pstate()).loop_depth == old(
                self,
            ).pstate().loop_depth,
    {
        reveal(p_for_init);
        reveal(p_opt_expression);
        if let Err(e) = self.consume(TokenType::LeftParen, "Expected ( after for") {
            return Err(e);
        }
        let init: Option<Stmt>;
        if self.match_(&[TokenType::Semicolon]) {
            init = None;
        } else if self.match_(&[TokenType::Var]) {
            init = Some(
                match self.variable() {
                    Ok(v) => v,
                    Err(e) => {
                        return Err(e);
                    },
                },
            );
        } else {
            init = Some(
                match self.expression_statement() {
                    Ok(v) => v,
                    Err(e) => {
                        return Err(e);
                    },
                },
            );
        }
        let mut condition: Option<Expr> = None;
        if !self.check(TokenType::Semicolon) {
            condition = Some(
                match self.expression() {
                    Ok(v) => v,
                    Err(e) => {
                        return Err(e);
                    },
                },
            );
        }
        if let Err(e) = self.consume(TokenType::Semicolon, "Expected ; after loop condition ") {
            return Err(e);
        }
        let mut expr: Option<Expr> = None;
        if !self.check(TokenType::RightParen) {
            expr = Some(
                match self.expression() {
                    Ok(v) => v,
                    Err(e) => {
                        return Err(e);
                    },
                },
            );
        }
        if let Err(e) = self.consume(TokenType::RightParen, "Expected ) after for clause") {
            return Err(e);
        }
        Ok((init, condition, expr))
    }

    /// A `for` after `for`: the initializer, condition and increment in
    /// parentheses, then a block body, turned into the equivalent `while`.
    pub fn for_statement(&mut self) -> (r: Result<Stmt, ParseError>)
        requires
            lexemes_found(p_for(old(self).toks(), old(self).pstate())),
            old(self).wf(),
            old(self).pstate().current >= 1 || check(
                old(self).toks(),
                old(self).pstate(),
                TokenType::LeftParen,
            ),
        ensures
            moved(*old(self), *final(self), p_for(old(self).toks(), old(self).pstate())),
            stmt_res(r, p_for(old(self).toks(), old(self).pstate()).res),
            progress(old(self).pstate(), p_for(old(self).toks(), old(self).pstate())),
        decreases old(self).remaining(), 8nat,
    {
        reveal_with_fuel(p_for, 1);
        reveal_with_fuel(p_statements, 1);
        let (init, condition, expr) = match self.for_clauses() {
            Ok(v) => v,
            Err(e) => {
                return Err(e);
            },
        };
        self.loop_depth = self.loop_depth + 1;
        let body = match self.statements() {
            Ok(v) => v,
            Err(e) => {
                return Err(e);
            },
        };
        self.loop_depth = self.loop_depth - 1;
        if !matches!(body, Stmt::Block { .. }) {
            return Err(ParseError::ExpectedBlock);
        }
        let cond = match condition {
            Some(c) => c,
            None => Expr::Literal { value: Literal::True },
        };
        let w = Stmt::While { condition: cond, stmts: Box::new(body), finally: expr };
        match init {
            Some(i) => {
                let out = Stmt::Block { stmts: vec![i, w] };
                proof {
                    lemma_block_sv(out);
                    assert(stmts_sv(seq![i, w]) =~= seq![i.sv(), w.sv()]);
                }
                Ok(out)
            },
            None => Ok(w),
        }
    }

    /// A `while` after `while`: the condition in parentheses, then a block body.
    pub fn while_statement(&mut self) -> (r: Result<Stmt, ParseError>)
        requires
            lexemes_found(p_while(old(self).toks(), old(self).pstate())),
            old(self).wf(),
            old(self).pstate().current >= 1 || check(
                old(self).toks(),
                old(self).pstate(),
                TokenType::LeftParen,
            ),
        ensures
            moved(*old(self), *final(self), p_while(old(self).toks(), old(self).pstate())),
            stmt_res(r, p_while(old(self).toks(), old(self).pstate()).res),
            progress(old(self).pstate(), p_while(old(self).toks(), old(self).pstate())),
        decreases old(self).remaining(), 8nat,
    {
        reveal_with_fuel(p_while, 1);
        reveal_with_fuel(p_statements, 1);
        if let Err(e) = self.consume(TokenType::LeftParen, "Expected (  after while ") {
            return Err(e);
        }
        let expr = match self.expression() {
            Ok(v) => v,
            Err(e) => {
                return Err(e);
            },
        };
        if let Err(e) = self.consume(TokenType::RightParen, "Expected ) after condition") {
            return Err(e);
        }
        self.loop_depth = self.loop_depth + 1;
        let statements = match self.statements() {
            Ok(v) => v,
            Err(e) => {
                return Err(e);
            },
        };
        self.loop_depth = self.loop_depth - 1;
        if !matches!(statements, Stmt::Block { .. }) {
            Err(ParseError::ExpectedBlockFound { found: Box::new(statements) })
        } else {
            Ok(Stmt::While { condition: expr, stmts: Box::new(statements), finally: None })
        }
    }

    /// An `if` after `if`: the condition in parentheses, the statement, and
    /// the statement after `else` if there is one.
    pub fn if_statement(&mut self) -> (r: Result<Stmt, ParseError>)
        requires
            lexemes_found(p_if(old(self).toks(), old(self).pstate())),
            old(self).wf(),
            old(self).pstate().current >= 1 || check(
                old(self).toks(),
                old(self).pstate(),
                TokenType::LeftParen,
            ),
        ensures
            moved(*old(self), *final(self), p_if(old(self).toks(), old(self).pstate())),
            stmt_res(r, p_if(old(self).toks(), old(self).pstate()).res),
            progress(old(self).pstate(), p_if(old(self).toks(), old(self).pstate())),
        decreases old(self).remaining(), 8nat,
    {
        reveal_with_fuel(p_if, 1);
        reveal_with_fuel(p_statements, 1);
        if let Err(e) = self.consume(TokenType::LeftParen, "Expected ( after if statement") {
            return Err(e);
        }
        let conditions = match self.expression() {
            Ok(v) => v,
            Err(e) => {
                return Err(e);
            },
        };
        if let Err(e) = self.consume(TokenType::RightParen, "Expected ) after statement") {
            return Err(e);
        }
        let then_block = match self.statements() {
            Ok(v) => v,
            Err(e) => {
                return Err(e);
            },
        };
        let mut else_block: Option<Box<Stmt>> = None;
        if self.match_(&[TokenType::Else]) {
            else_block = Some(Box::new(match self.statements() {
                Ok(v) => v,
                Err(e) => {
                    return Err(e);
                },
            }));
        }
        Ok(Stmt::If { condition: conditions, then_branch: Box::new(then_block), else_branch: else_block })
    }

    /// A block after `{`: declarations up to `}`.
    pub fn block(&mut self) -> (r: Result<Stmt, ParseError>)
        requires
            lexemes_found(p_block(old(self).toks(), old(self).pstate())),
            old(self).wf(),
            old(self).pstate().current >= 1 || !at_eof(old(self).toks(), old(self).pstate()),
        ensures
            moved(*old(self), *final(self), p_block(old(self).toks(), old(self).pstate())),
            stmt_res(r, p_block(old(self).toks(), old(self).pstate()).res),
            progress(old(self).pstate(), p_block(old(self).toks(), old(self).pstate())),
        decreases old(self).remaining(), 12nat,
    {
        reveal_with_fuel(p_block, 1);
        reveal_with_fuel(p_block_rest, 1);
        let stmts: Vec<Stmt> = Vec::new();
        proof {
            assert(stmts_sv(stmts@) =~= seq![]);
        }
        self.block_rest(stmts)
    }

    /// The declarations of a block up to `}`, appended to `stmts`.
    fn block_rest(&mut self, stmts: Vec<Stmt>) -> (r: Result<Stmt, ParseError>)
        requires
            lexemes_found(p_block_rest(old(self).toks(), old(self).pstate(), stmts_sv(stmts@))),
            old(self).wf(),
            old(self).pstate().current >= 1 || !at_eof(old(self).toks(), old(self).pstate()),
        ensures
            moved(
                *old(self),
                *final(self),
                p_block_rest(old(self).toks(), old(self).pstate(), stmts_sv(stmts@)),
            ),
            stmt_res(r, p_block_rest(old(self).toks(), old(self).pstate(), stmts_sv(stmts@)).res),
            p_block_rest(old(self).toks(), old(self).pstate(), stmts_sv(stmts@)).res is Ok ==> p_block_rest(
                old(self).toks(),
                old(self).pstate(),
                stmts_sv(stmts@),
            ).loop_depth == old(self).pstate().loop_depth,
            old(self).pstate().current >= 1 ==> progress(
                old(self).pstate(),
                p_block_rest(old(self).toks(), old(self).pstate(), stmts_sv(stmts@)),
            ) || p_block_rest(old(self).toks(), old(self).pstate(), stmts_sv(stmts@)).adv >= 1,
        decreases old(self).remaining(), 11nat,
    {
        reveal_with_fuel(p_block_rest, 1);
        reveal_with_fuel(p_declaration, 1);
        let mut stmts = stmts;
        if !self.check(TokenType::RightBrace) && !self.is_end() {
            let d = match self.declaration() {
                Ok(v) => v,
                Err(e) => {
                    return Err(e);
                },
            };
            proof {
                assert(stmts_sv(stmts@.push(d)) =~= stmts_sv(stmts@).push(d.sv()));
            }
            stmts.push(d);
            return self.block_rest(stmts);
        }
        if let Err(e) = self.consume(TokenType::RightBrace, "Expected } after the block") {
            return Err(e);
        }
        let out = Stmt::Block { stmts };
        proof {
            lemma_block_sv(out);
        }
        Ok(out)
    }

    /// `print ( expression ) ;` after `print`.
    pub fn print_statement(&mut self) -> (r: Result<Stmt, ParseError>)
        requires
            lexemes_found(p_print(old(self).toks(), old(self).pstate())),
            old(self).wf(),
            old(self).pstate().current >= 1 || check(
                old(self).toks(),
                old(self).pstate(),
                TokenType::LeftParen,
            ),
        ensures
            moved(*old(self), *final(self), p_print(old(self).toks(), old(self).pstate())),
            stmt_res(r, p_print(old(self).toks(), old(self).pstate()).res),
            progress(old(self).pstate(), p_print(old(self).toks(), old(self).pstate())),
    {
        reveal(p_print);
        if let Err(e) = self.consume(TokenType::LeftParen, "expected ( before print statement") {
            return Err(e);
        }
        let expression = match self.expression() {
            Ok(v) => v,
            Err(e) => {
                return Err(e);
            },
        };
        if let Err(e) = self.consume(TokenType::RightParen, "expected ) after print statement") {
            return Err(e);
        }
        if let Err(e) = self.consume(TokenType::Semicolon, "expected ; after end of statement") {
            return Err(e);
        }
        Ok(Stmt::Print { expr: expression })
    }

    /// `expression ;`.
    pub fn expression_statement(&mut self) -> (r: Result<Stmt, ParseError>)
        requires
            lexemes_found(p_expr_stmt(old(self).toks(), old(self).pstate())),
            old(self).wf(),
        ensures
            moved(*old(self), *final(self), p_expr_stmt(old(self).toks(), old(self).pstate())),
            stmt_res(r, p_expr_stmt(old(self).toks(), old(self).pstate()).res),
            progress(old(self).pstate(), p_expr_stmt(old(self).toks(), old(self).pstate())),
    {
        reveal(p_expr_stmt);
        let rtes = Ok(Stmt::Expr { expr: match self.expression() {
            Ok(v) => v,
            Err(e) => {
                return Err(e);
            },
        } });
        if let Err(e) = self.consume(TokenType::Semicolon, "Expected ; afer statement") {
            return Err(e);
        }
        rtes
    }

    /// An expression.
    pub fn expression(&mut self) -> (r: Result<Expr, ParseError>)
        requires
            lexemes_found(p_expression(old(self).toks(), old(self).pstate())),
            old(self).wf(),
        ensures
            moved(*old(self), *final(self), p_expression(old(self).toks(), old(self).pstate())),
            expr_res(r, p_expression(old(self).toks(), old(self).pstate()).res),
            progress(old(self).pstate(), p_expression(old(self).toks(), old(self).pstate())),
            p_expression(old(self).toks(), old(self).pstate()).loop_depth == old(
                self,
            ).pstate().loop_depth,
        decreases old(self).remaining(), 19nat,
    {
        reveal_with_fuel(p_expression, 1);
        reveal_with_fuel(p_assignment, 1);
        self.assignment()
    }

    /// `or ( "=" assignment )?`: the target must be a variable.
    pub fn assignment(&mut self) -> (r: Result<Expr, ParseError>)
        requires
            lexemes_found(p_assignment(old(self).toks(), old(self).pstate())),
            old(self).wf(),
        ensures
            moved(*old(self), *final(self), p_assignment(old(self).toks(), old(self).pstate())),
            expr_res(r, p_assignment(old(self).toks(), old(self).pstate()).res),
            progress(old(self).pstate(), p_assignment(old(self).toks(), old(self).pstate())),
            p_assignment(old(self).toks(), old(self).pstate()).loop_depth == old(
                self,
            ).pstate().loop_depth,
        decreases old(self).remaining(), 18nat,
    {
        reveal_with_fuel(p_assignment, 1);
        reveal_with_fuel(p_binary, 1);
        let expr = match self.or() {
            Ok(v) => v,
            Err(e) => {
                return Err(e);
            },
        };
        if self.match_(&[TokenType::Equal]) {
            let value = match self.assignment() {
                Ok(v) => v,
                Err(e) => {
                    return Err(e);
                },
            };
            match expr {
                Expr::Variable { token, id: _ } => {
                    self.id = self.id + 1;
                    Ok(Expr::Assign { token, value: Box::new(value), id: self.id })
                },
                _ => Err(ParseError::InvalidAssignmentTarget),
            }
        } else {
            Ok(expr)
        }
    }

    /// `and ( "or" and )*`.
    pub fn or(&mut self) -> (r: Result<Expr, ParseError>)
        requires
            lexemes_found(p_binary(old(self).toks(), old(self).pstate(), 6)),
            old(self).wf(),
        ensures
            moved(*old(self), *final(self), p_binary(old(self).toks(), old(self).pstate(), 6)),
            expr_res(r, p_binary(old(self).toks(), old(self).pstate(), 6).res),
            progress(old(self).pstate(), p_binary(old(self).toks(), old(self).pstate(), 6)),
            p_binary(old(self).toks(), old(self).pstate(), 6).loop_depth == old(
                self,
            ).pstate().loop_depth,
        decreases old(self).remaining(), 17nat,
    {
        reveal_with_fuel(p_binary, 1);
        reveal_with_fuel(p_binary_rest, 1);
        let expr = match self.and() {
            Ok(v) => v,
            Err(e) => {
                return Err(e);
            },
        };
        self.binary_rest(6, expr)
    }

    /// `equality ( "and" equality )*`.
    pub fn and(&mut self) -> (r: Result<Expr, ParseError>)
        requires
            lexemes_found(p_binary(old(self).toks(), old(self).pstate(), 5)),
            old(self).wf(),
        ensures
            moved(*old(self), *final(self), p_binary(old(self).toks(), old(self).pstate(), 5)),
            expr_res(r, p_binary(old(self).toks(), old(self).pstate(), 5).res),
            progress(old(self).pstate(), p_binary(old(self).toks(), old(self).pstate(), 5)),
            p_binary(old(self).toks(), old(self).pstate(), 5).loop_depth == old(
                self,
            ).pstate().loop_depth,
        decreases old(self).remaining(), 15nat,
    {
        reveal_with_fuel(p_binary, 1);
        reveal_with_fuel(p_binary_rest, 1);
        let expr = match self.equality() {
            Ok(v) => v,
            Err(e) => {
                return Err(e);
            },
        };
        self.binary_rest(5, expr)
    }

    /// `comparison ( ( "!=" | "==" ) comparison )*`.
    pub fn equality(&mut self) -> (r: Result<Expr, ParseError>)
        requires
            lexemes_found(p_binary(old(self).toks(), old(self).pstate(), 4)),
            old(self).wf(),
        ensures
            moved(*old(self), *final(self), p_binary(old(self).toks(), old(self).pstate(), 4)),
            expr_res(r, p_binary(old(self).toks(), old(self).pstate(), 4).res),
            progress(old(self).pstate(), p_binary(old(self).toks(), old(self).pstate(), 4)),
            p_binary(old(self).toks(), old(self).pstate(), 4).loop_depth == old(
                self,
            ).pstate().loop_depth,
        decreases old(self).remaining(), 13nat,
    {
        reveal_with_fuel(p_binary, 1);
        reveal_with_fuel(p_binary_rest, 1);
        let lhs = match self.comparison() {
            Ok(v) => v,
            Err(e) => {
                return Err(e);
            },
        };
        self.binary_rest(4, lhs)
    }

    /// `term ( ( ">" | ">=" | "<" | "<=" ) term )*`.
    pub fn comparison(&mut self) -> (r: Result<Expr, ParseError>)
        requires
            lexemes_found(p_binary(old(self).toks(), old(self).pstate(), 3)),
            old(self).wf(),
        ensures
            moved(*old(self), *final(self), p_binary(old(self).toks(), old(self).pstate(), 3)),
            expr_res(r, p_binary(old(self).toks(), old(self).pstate(), 3).res),
            progress(old(self).pstate(), p_binary(old(self).toks(), old(self).pstate(), 3)),
            p_binary(old(self).toks(), old(self).pstate(), 3).loop_depth == old(
                self,
            ).pstate().loop_depth,
        decreases old(self).remaining(), 11nat,
    {
        reveal_with_fuel(p_binary, 1);
        reveal_with_fuel(p_binary_rest, 1);
        let lhs = match self.term() {
            Ok(v) => v,
            Err(e) => {
                return Err(e);
            },
        };
        self.binary_rest(3, lhs)
    }

    /// `factor ( ( "-" | "+" ) factor )*`.
    pub fn term(&mut self) -> (r: Result<Expr, ParseError>)
        requires
            lexemes_found(p_binary(old(self).toks(), old(self).pstate(), 2)),
            old(self).wf(),
        ensures
            moved(*old(self), *final(self), p_binary(old(self).toks(), old(self).pstate(), 2)),
            expr_res(r, p_binary(old(self).toks(), old(self).pstate(), 2).res),
            progress(old(self).pstate(), p_binary(old(self).toks(), old(self).pstate(), 2)),
            p_binary(old(self).toks(), old(self).pstate(), 2).loop_depth == old(
                self,
            ).pstate().loop_depth,
        decreases old(self).remaining(), 9nat,
    {
        reveal_with_fuel(p_binary, 1);
        reveal_with_fuel(p_binary_rest, 1);
        let lhs = match self.factor() {
            Ok(v) => v,
            Err(e) => {
                return Err(e);
            },
        };
        self.binary_rest(2, lhs)
    }

    /// `unary ( ( "/" | "*" ) unary )*`.
    pub fn factor(&mut self) -> (r: Result<Expr, ParseError>)
        requires
            lexemes_found(p_binary(old(self).toks(), old(self).pstate(), 1)),
            old(self).wf(),
        ensures
            moved(*old(self), *final(self), p_binary(old(self).toks(), old(self).pstate(), 1)),
            expr_res(r, p_binary(old(self).toks(), old(self).pstate(), 1).res),
            progress(old(self).pstate(), p_binary(old(self).toks(), old(self).pstate(), 1)),
            p_binary(old(self).toks(), old(self).pstate(), 1).loop_depth == old(
                self,
            ).pstate().loop_depth,
        decreases old(self).remaining(), 7nat,
    {
        reveal_with_fuel(p_binary, 1);
        reveal_with_fuel(p_binary_rest, 1);
        reveal_with_fuel(p_unary, 1);
        let lhs = match self.unary() {
            Ok(v) => v,
            Err(e) => {
                return Err(e);
            },
        };
        self.binary_rest(1, lhs)
    }

    /// The operand of a binary level: the next level down.
    fn operand(&mut self, level: usize) -> (r: Result<Expr, ParseError>)
        requires
            lexemes_found(
                if level <= 1 {
                    p_unary(old(self).toks(), old(self).pstate())
                } else {
                    p_binary(old(self).toks(), old(self).pstate(), (level - 1) as nat)
                },
            ),
            old(self).wf(),
            1 <= level <= 6,
        ensures
            ({
                let o = if level <= 1 {
                    p_unary(old(self).toks(), old(self).pstate())
                } else {
                    p_binary(old(self).toks(), old(self).pstate(), (level - 1) as nat)
                };
                &&& moved(*old(self), *final(self), o)
                &&& expr_res(r, o.res)
                &&& progress(old(self).pstate(), o)
                &&& o.loop_depth == old(self).pstate().loop_depth
            }),
        decreases old(self).remaining(), 2 * level + 4,
    {
        if level <= 1 {
            self.unary()
        } else if level == 2 {
            self.factor()
        } else if level == 3 {
            self.term()
        } else if level == 4 {
            self.comparison()
        } else if level == 5 {
            self.equality()
        } else {
            self.and()
        }
    }

    /// The `op operand` pairs of a binary level after `left`.
    fn binary_rest(&mut self, level: usize, left: Expr) -> (r: Result<Expr, ParseError>)
        requires
            lexemes_found(p_binary_rest(old(self).toks(), old(self).pstate(), level as nat, left.sv())),
            old(self).wf(),
            1 <= level <= 6,
        ensures
            moved(
                *old(self),
                *final(self),
                p_binary_rest(old(self).toks(), old(self).pstate(), level as nat, left.sv()),
            ),
            expr_res(
                r,
                p_binary_rest(old(self).toks(), old(self).pstate(), level as nat, left.sv()).res,
            ),
            p_binary_rest(old(self).toks(), old(self).pstate(), level as nat, left.sv()).loop_depth
                == old(self).pstate().loop_depth,
        decreases old(self).remaining(), 2 * level + 4,
    {
        reveal_with_fuel(p_binary_rest, 1);
        reveal_with_fuel(p_unary, 1);
        reveal_with_fuel(p_binary, 1);
        let matched = if level >= 6 {
            let ops = [TokenType::Or];
            assert(ops@ =~= level_ops(level as nat));
            self.match_(&ops)
        } else if level == 5 {
            let ops = [TokenType::And];
            assert(ops@ =~= level_ops(level as nat));
            self.match_(&ops)
        } else if level == 4 {
            let ops = [TokenType::BangEqual, TokenType::EqualEqual];
            assert(ops@ =~= level_ops(level as nat));
            self.match_(&ops)
        } else if level == 3 {
            let ops = [
                TokenType::Greater,
                TokenType::GreaterEqual,
                TokenType::Less,
                TokenType::LessEqual,
            ];
            assert(ops@ =~= level_ops(level as nat));
            self.match_(&ops)
        } else if level == 2 {
            let ops = [TokenType::Minus, TokenType::Plus];
            assert(ops@ =~= level_ops(level as nat));
            self.match_(&ops)
        } else {
            let ops = [TokenType::Slash, TokenType::Star];
            assert(ops@ =~= level_ops(level as nat));
            self.match_(&ops)
        };
        if !matched {
            return Ok(left);
        }
        let token = self.previous().clone();
        let right = match self.operand(level) {
            Ok(v) => v,
            Err(e) => {
                return Err(e);
            },
        };
        let e = if level >= 5 {
            Expr::Logical { left: Box::new(left), op: token, right: Box::new(right) }
        } else {
            Expr::Binary { left: Box::new(left), op: token, right: Box::new(right) }
        };
        self.binary_rest(level, e)
    }

    /// `( "!" | "-" ) unary | call`.
    pub fn unary(&mut self) -> (r: Result<Expr, ParseError>)
        requires
            lexemes_found(p_unary(old(self).toks(), old(self).pstate())),
            old(self).wf(),
        ensures
            moved(*old(self), *final(self), p_unary(old(self).toks(), old(self).pstate())),
            expr_res(r, p_unary(old(self).toks(), old(self).pstate()).res),
            progress(old(self).pstate(), p_unary(old(self).toks(), old(self).pstate())),
            p_unary(old(self).toks(), old(self).pstate()).loop_depth == old(
                self,
            ).pstate().loop_depth,
        decreases old(self).remaining(), 4nat,
    {
        reveal_with_fuel(p_unary, 1);
        reveal_with_fuel(p_call, 1);
        if self.match_(&[TokenType::Minus, TokenType::Bang]) {
            let token = self.previous().clone();
            let expr = match self.unary() {
                Ok(v) => v,
                Err(e) => {
                    return Err(e);
                },
            };
            return Ok(Expr::Unary { op: token, expr: Box::new(expr) });
        }
        self.call()
    }

    /// `primary ( "(" arguments? ")" )*`.
    pub fn call(&mut self) -> (r: Result<Expr, ParseError>)
        requires
            lexemes_found(p_call(old(self).toks(), old(self).pstate())),
            old(self).wf(),
        ensures
            moved(*old(self), *final(self), p_call(old(self).toks(), old(self).pstate())),
            expr_res(r, p_call(old(self).toks(), old(self).pstate()).res),
            progress(old(self).pstate(), p_call(old(self).toks(), old(self).pstate())),
            p_call(old(self).toks(), old(self).pstate()).loop_depth == old(
                self,
            ).pstate().loop_depth,
        decreases old(self).remaining(), 3nat,
    {
        reveal_with_fuel(p_call, 1);
        reveal_with_fuel(p_primary, 1);
        reveal_with_fuel(p_call_rest, 1);
        let expr = match self.primary() {
            Ok(v) => v,
            Err(e) => {
                return Err(e);
            },
        };
        self.call_rest(expr)
    }

    /// The argument lists after the callee `expr`.
    fn call_rest(&mut self, expr: Expr) -> (r: Result<Expr, ParseError>)
        requires
            lexemes_found(p_call_rest(old(self).toks(), old(self).pstate(), expr.sv())),
            old(self).wf(),
        ensures
            moved(*old(self), *final(self), p_call_rest(old(self).toks(), old(self).pstate(), expr.sv())),
            expr_res(r, p_call_rest(old(self).toks(), old(self).pstate(), expr.sv()).res),
            p_call_rest(old(self).toks(), old(self).pstate(), expr.sv()).loop_depth == old(
                self,
            ).pstate().loop_depth,
        decreases old(self).remaining(), 2nat,
    {
        reveal_with_fuel(p_call_rest, 1);
        reveal_with_fuel(p_finish_call, 1);
        if self.match_(&[TokenType::LeftParen]) {
            let c = match self.finish_call(expr) {
                Ok(v) => v,
                Err(e) => {
                    return Err(e);
                },
            };
            return self.call_rest(c);
        }
        Ok(expr)
    }

    /// The arguments of a call after `(`, and the closing `)`.
    #[verifier::rlimit(100)]
    #[verifier::spinoff_prover]
    pub fn finish_call(&mut self, expr: Expr) -> (r: Result<Expr, ParseError>)
        requires
            lexemes_found(p_finish_call(old(self).toks(), old(self).pstate(), expr.sv())),
            old(self).wf(),
        ensures
            moved(
                *old(self),
                *final(self),
                p_finish_call(old(self).toks(), old(self).pstate(), expr.sv()),
            ),
            expr_res(r, p_finish_call(old(self).toks(), old(self).pstate(), expr.sv()).res),
            progress(old(self).pstate(), p_finish_call(old(self).toks(), old(self).pstate(), expr.sv())),
            p_finish_call(old(self).toks(), old(self).pstate(), expr.sv()).loop_depth == old(
                self,
            ).pstate().loop_depth,
        decreases old(self).remaining(), 21nat,
    {
        reveal_with_fuel(p_finish_call, 1);
        reveal_with_fuel(p_args, 1);
        reveal(p_close_call);
        let mut args: Vec<Expr> = Vec::new();
        proof {
            assert(exprs_sv(args@) =~= seq![]);
        }
        if !self.check(TokenType::RightParen) {
            if args.len() >= 255 {
                return Err(ParseError::TooManyArgs);
            }
            args = match self.arguments(args) {
                Ok(v) => v,
                Err(e) => {
                    return Err(e);
                },
            };
        }
        let token = match self.consume(TokenType::RightParen, "Expected ) after arguments.") {
            Ok(v) => v,
            Err(e) => {
                return Err(e);
            },
        };
        let out = Expr::Call { callie: Box::new(expr), paren: token, args };
        proof {
            lemma_call_sv(out);
        }
        Ok(out)
    }

    /// `expression ( "," expression )*`, appended to `args`.
    fn arguments(&mut self, args: Vec<Expr>) -> (r: Result<Vec<Expr>, ParseError>)
        requires
            lexemes_found(p_args(old(self).toks(), old(self).pstate(), exprs_sv(args@))),
            old(self).wf(),
        ensures
            moved(*old(self), *final(self), p_args(old(self).toks(), old(self).pstate(), exprs_sv(args@))),
            exprs_res(r, p_args(old(self).toks(), old(self).pstate(), exprs_sv(args@)).res),
            progress(old(self).pstate(), p_args(old(self).toks(), old(self).pstate(), exprs_sv(args@))),
            p_args(old(self).toks(), old(self).pstate(), exprs_sv(args@)).loop_depth == old(
                self,
            ).pstate().loop_depth,
        decreases old(self).remaining(), 20nat,
    {
        reveal_with_fuel(p_args, 1);
        reveal_with_fuel(p_expression, 1);
        let mut args = args;
        let e = match self.expression() {
            Ok(v) => v,
            Err(e) => {
                return Err(e);
            },
        };
        proof {
            assert(exprs_sv(args@.push(e)) =~= exprs_sv(args@).push(e.sv()));
        }
        args.push(e);
        if !self.match_(&[TokenType::Comma]) {
            return Ok(args);
        }
        self.arguments(args)
    }

    /// The next token if it is of kind `token`; else an error naming the
    /// line of the token before.
    pub fn consume(&mut self, token: TokenType, msg: &str) -> (r: Result<Token, ParseError>)
        requires
            old(self).pstate().current < old(self).toks().len(),
            old(self).pstate().current >= 1 || check(old(self).toks(), old(self).pstate(), token),
        ensures
            final(self).toks() == old(self).toks(),
            final(self).pstate() == after(
                old(self).pstate(),
                p_consume(old(self).toks(), old(self).pstate(), token, msg@),
            ),
            old(self).wf() ==> moved(
                *old(self),
                *final(self),
                p_consume(old(self).toks(), old(self).pstate(), token, msg@),
            ),
            token_res(r, p_consume(old(self).toks(), old(self).pstate(), token, msg@).res),
    {
        if self.check(token) {
            Ok(self.advance())
        } else {
            Err(ParseError::Expected { line: self.previous().line, msg: msg.to_owned() })
        }
    }

    /// One token, or a parenthesized expression. A variable gets the next id.
    #[verifier::rlimit(60)]
    #[verifier::spinoff_prover]
    pub fn primary(&mut self) -> (r: Result<Expr, ParseError>)
        requires
            lexemes_found(p_primary(old(self).toks(), old(self).pstate())),
            old(self).wf(),
        ensures
            moved(*old(self), *final(self), p_primary(old(self).toks(), old(self).pstate())),
            expr_res(r, p_primary(old(self).toks(), old(self).pstate()).res),
            progress(old(self).pstate(), p_primary(old(self).toks(), old(self).pstate())),
            p_primary(old(self).toks(), old(self).pstate()).loop_depth == old(
                self,
            ).pstate().loop_depth,
        decreases old(self).remaining(), 1nat,
    {
        reveal_with_fuel(p_primary, 1);
        reveal_with_fuel(p_expression, 1);
        let ghost at = self.current as int;
        let token = self.advance();
        match token.token_type {
            TokenType::Identifier => {
                proof {
                    assert(self.tokens@[at] == token);
                }
                self.id = self.id + 1;
                Ok(Expr::Variable { token, id: self.id })
            },
            TokenType::Number => {
                proof {
                    assert(self.tokens@[at] == token);
                }
                match token.lexeme {
                    Some(s) => Ok(Expr::Literal { value: Literal::Number(s) }),
                    None => Err(ParseError::CantParse { token_type: TokenType::Number }),
                }
            },
            TokenType::StringLiteral => {
                proof {
                    assert(self.tokens@[at] == token);
                }
                match token.lexeme {
                    Some(s) => Ok(Expr::Literal { value: Literal::String(s) }),
                    None => Err(ParseError::CantParse { token_type: TokenType::StringLiteral }),
                }
            },
            TokenType::Nil => Ok(Expr::Literal { value: Literal::Nil }),
            TokenType::True => Ok(Expr::Literal { value: Literal::True }),
            TokenType::False => Ok(Expr::Literal { value: Literal::False }),
            TokenType::LeftParen => {
                let expr = match self.expression() {
                    Ok(v) => v,
                    Err(e) => {
                        return Err(e);
                    },
                };
                if let Err(e) = self.consume(TokenType::RightParen, "expected ) after Expression") {
                    return Err(e);
                }
                Ok(Expr::Group { value: Box::new(expr) })
            },
            a => Err(ParseError::CantParse { token_type: a }),
        }
    }

    /// The token before the next one.
    pub fn previous(&mut self) -> (r: &Token)
        requires
            1 <= old(self).pstate().current <= old(self).toks().len(),
        ensures
            *r == tok(old(self).toks(), old(self).pstate().current - 1),
            *final(self) == *old(self),
    {
        &self.tokens[self.current - 1]
    }

    /// Consumes the next token if it is of one of the kinds in `tokens`.
    pub fn match_(&mut self, tokens: &[TokenType]) -> (r: bool)
        requires
            old(self).pstate().current < old(self).toks().len(),
        ensures
            r == check_any(old(self).toks(), old(self).pstate(), tokens@),
            tokens@.len() == 1 ==> r == check(old(self).toks(), old(self).pstate(), tokens@[0]),
            tokens@.len() == 2 ==> r == (check(old(self).toks(), old(self).pstate(), tokens@[0])
                || check(old(self).toks(), old(self).pstate(), tokens@[1])),
            final(self).toks() == old(self).toks(),
            final(self).pstate() == if r {
                step(old(self).pstate())
            } else {
                old(self).pstate()
            },
            old(self).wf() ==> final(self).wf(),
    {
        let mut i: usize = 0;
        let ghost t = tok(self.toks(), self.pstate().current as int).token_type;
        while i < tokens.len()
            invariant
                self.pstate().current < self.toks().len(),
                *self == *old(self),
                t == tok(self.toks(), self.pstate().current as int).token_type,
                i <= tokens.len(),
                forall|j: int| 0 <= j < i ==> !check(self.toks(), self.pstate(), #[trigger] tokens@[j]),
            decreases tokens.len() - i,
        {
            if self.check(tokens[i]) {
                self.advance();
                proof {
                    assert(tokens@.contains(t));
                }
                return true;
            }
            i = i + 1;
        }
        proof {
            if tokens@.len() == 1 {
                assert(!check(self.toks(), self.pstate(), tokens@[0]));
            }
            if check_any(old(self).toks(), old(self).pstate(), tokens@) {
                let t = tok(self.toks(), self.pstate().current as int).token_type;
                let j = tokens@.index_of(t);
                assert(check(self.toks(), self.pstate(), tokens@[j]));
            }
        }
        false
    }

    /// Whether the next token is of kind `token` (never at the end of input).
    pub fn check(&self, token: TokenType) -> (r: bool)
        requires
            self.pstate().current < self.toks().len(),
        ensures
            r == check(self.toks(), self.pstate(), token),
    {
        if self.is_end() {
            return false;
        }
        self.peek().token_type == token
    }

    /// The next token.
    pub fn peek(&self) -> (r: &Token)
        requires
            self.pstate().current < self.toks().len(),
        ensures
            *r == tok(self.toks(), self.pstate().current as int),
    {
        &self.tokens[self.current]
    }

    /// Whether the next token is the end-of-file token.
    pub fn is_end(&self) -> (r: bool)
        requires
            self.pstate().current < self.toks().len(),
        ensures
            r == at_eof(self.toks(), self.pstate()),
    {
        self.tokens[self.current].token_type == TokenType::Eof
    }

    /// Consumes the next token and returns it. Past a token that is not the
    /// end-of-file token, the parser stays ready.
    pub fn advance(&mut self) -> (r: Token)
        requires
            old(self).pstate().current < old(self).toks().len(),
        ensures
            r == tok(old(self).toks(), old(self).pstate().current as int),
            final(self).toks() == old(self).toks(),
            final(self).pstate() == step(old(self).pstate()),
            old(self).wf() && r.token_type != TokenType::Eof ==> final(self).wf(),
    {
        let len = self.tokens.len();
        assert(self.current < len);
        let token = self.tokens[self.current].clone();
        proof {
            if eof_from(self.tokens@, self.current as int) && token.token_type != TokenType::Eof {
                lemma_eof_step(self.tokens@, self.current as int);
            }
        }
        self.current = self.current + 1;
        token
    }
}

} // verus!
