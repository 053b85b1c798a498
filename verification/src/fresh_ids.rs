//! The ids that parsing hands out to variables and assignments are fresh:
//! every tree the grammar builds holds each id at most once, and all of them
//! lie between the counter before and the counter after. The resolver keys
//! its scope distances by these ids, so no two uses share an entry. Along
//! the way: tokens that all carry their lexemes never stop a parse.
use vstd::prelude::*;

use crate::expr::{Literal, SExpr};
use crate::stmt::SStmt;
use crate::grammar::{
    lexemes_found, lexemes_present, PState, Parsed, after, check, check_any, combine, followed, level_ops, tok, p_args, p_assignment, p_binary, p_binary_rest,
    p_call, p_call_rest, p_close_call, p_consume, p_expression, p_finish_call, p_primary,
    p_unary, rem, step, at_eof, desugar_for, ok, p_block, p_block_rest, p_declaration,
    p_expr_stmt, p_for, p_for_clauses, p_for_init, p_func, p_if, p_opt_expression, p_params,
    p_print, p_program, p_return, p_statements, p_variable, p_while,
};
use crate::tokentype::{Token, TokenType};

verus! {

/// `ids` holds no id twice, and each lies above `lo` and at most `hi`.
pub open spec fn ids_in(ids: Seq<nat>, lo: nat, hi: nat) -> bool {
    &&& ids.no_duplicates()
    &&& forall|i: int| #![trigger ids[i]] 0 <= i < ids.len() ==> lo < ids[i] && ids[i] <= hi
}

/// The ids of the variables and assignments of an expression, left to right
/// (an assignment's own id after those of its value).
pub open spec fn expr_ids(e: SExpr) -> Seq<nat>
    decreases e,
{
    match e {
        SExpr::Literal { .. } => seq![],
        SExpr::Group { value } => expr_ids(*value),
        SExpr::Unary { op: _, expr } => expr_ids(*expr),
        SExpr::Binary { left, op: _, right } => expr_ids(*left) + expr_ids(*right),
        SExpr::Variable { token: _, id } => seq![id as nat],
        SExpr::Logical { left, op: _, right } => expr_ids(*left) + expr_ids(*right),
        SExpr::Assign { token: _, value, id } => expr_ids(*value).push(id as nat),
        SExpr::Call { callie, paren: _, args } => expr_ids(*callie) + exprs_ids(args),
        SExpr::Get { expr, token: _ } => expr_ids(*expr),
        SExpr::SetField { expr, token: _, value } => expr_ids(*expr) + expr_ids(*value),
        SExpr::This { keyword: _, id } => seq![id as nat],
    }
}

/// The ids of a list of expressions, in order.
pub open spec fn exprs_ids(es: Seq<SExpr>) -> Seq<nat>
    decreases es,
{
    if es.len() == 0 {
        seq![]
    } else {
        exprs_ids(es.drop_last()) + expr_ids(es.last())
    }
}

/// Ids in `(lo, mid]` followed by ids in `(mid, hi]` are ids in `(lo, hi]`.
pub proof fn lemma_ids_concat(a: Seq<nat>, b: Seq<nat>, lo: nat, mid: nat, hi: nat)
    requires
        ids_in(a, lo, mid),
        ids_in(b, mid, hi),
        lo <= mid <= hi,
    ensures
        ids_in(a + b, lo, hi),
{
    let c = a + b;
    assert forall|i: int| #![trigger c[i]] 0 <= i < c.len() implies (lo < c[i] && c[i] <= hi) by {
        if i < a.len() {
            assert(c[i] == a[i]);
        } else {
            assert(c[i] == b[i - a.len()]);
        }
    }
    assert forall|i: int, j: int|
        0 <= i < c.len() && 0 <= j < c.len() && i != j implies c[i] != c[j] by {
        if i < a.len() {
            assert(c[i] == a[i]);
        } else {
            assert(c[i] == b[i - a.len()]);
        }
        if j < a.len() {
            assert(c[j] == a[j]);
        } else {
            assert(c[j] == b[j - a.len()]);
        }
    }
}

/// A range can be widened.
pub proof fn lemma_ids_widen(a: Seq<nat>, lo: nat, hi: nat, lo2: nat, hi2: nat)
    requires
        ids_in(a, lo, hi),
        lo2 <= lo,
        hi <= hi2,
    ensures
        ids_in(a, lo2, hi2),
{
}

/// A successful expression parse from `st` has not lowered the id counter
/// nor changed the loop depth, and, where the counter after it still fits in
/// a `usize`, the ids of its tree lie in `(lo, o.id]`, each once.
pub open spec fn fresh_expr(st: PState, o: Parsed<SExpr>, lo: nat) -> bool {
    o.res matches Ok(e) ==> {
        &&& st.id <= o.id
        &&& o.loop_depth == st.loop_depth
        &&& o.id <= usize::MAX ==> ids_in(expr_ids(e), lo, o.id)
    }
}

proof fn lemma_consume_keeps(toks: Seq<Token>, st: PState, t: TokenType, msg: Seq<char>)
    ensures
        p_consume(toks, st, t, msg).id == st.id,
        p_consume(toks, st, t, msg).loop_depth == st.loop_depth,
        p_consume(toks, st, t, msg).res is Ok ==> p_consume(toks, st, t, msg).adv == 1,
{
}

/// `expression`: fresh ids.
pub proof fn lemma_expression_ids(toks: Seq<Token>, st: PState)
    ensures
        lexemes_present(toks) ==> lexemes_found(p_expression(toks, st)),
        fresh_expr(st, p_expression(toks, st), st.id),
    decreases rem(toks, st), 19nat,
{
    reveal_with_fuel(p_expression, 1);
    reveal_with_fuel(p_assignment, 1);
    lemma_assignment_ids(toks, st);
}

/// `assignment`: fresh ids; the assignment's own id comes after its value's.
pub proof fn lemma_assignment_ids(toks: Seq<Token>, st: PState)
    ensures
        lexemes_present(toks) ==> lexemes_found(p_assignment(toks, st)),
        fresh_expr(st, p_assignment(toks, st), st.id),
    decreases rem(toks, st), 18nat,
{
    reveal_with_fuel(p_assignment, 1);
    reveal_with_fuel(p_binary, 1);
    lemma_binary_ids(toks, st, 6);
    let o = p_binary(toks, st, 6);
    match o.res {
        Err(_) => {},
        Ok(e) => {
            let s1 = after(st, o);
            if check(toks, s1, TokenType::Equal) {
                let v = p_assignment(toks, step(s1));
                lemma_assignment_ids(toks, step(s1));
                match v.res {
                    Err(_) => {},
                    Ok(value) => {
                        let n = v.id + 1;
                        if n <= usize::MAX {
                            let vi = expr_ids(value);
                            assert(((n as usize) as nat) == n);
                            assert(ids_in(seq![n], v.id, n));
                            lemma_ids_widen(vi, step(s1).id, v.id, st.id, v.id);
                            lemma_ids_concat(vi, seq![n], st.id, v.id, n);
                            assert(vi.push(n) =~= vi + seq![n]);
                        }
                    },
                }
            }
        },
    }
}

/// A binary level: fresh ids.
pub proof fn lemma_binary_ids(toks: Seq<Token>, st: PState, level: nat)
    ensures
        lexemes_present(toks) ==> lexemes_found(p_binary(toks, st, level)),
        fresh_expr(st, p_binary(toks, st, level), st.id),
    decreases rem(toks, st), 2 * level + 5,
{
    reveal_with_fuel(p_binary, 1);
    reveal_with_fuel(p_unary, 1);
    reveal_with_fuel(p_binary_rest, 1);
    let o = if level <= 1 {
        p_unary(toks, st)
    } else {
        p_binary(toks, st, (level - 1) as nat)
    };
    if level <= 1 {
        lemma_unary_ids(toks, st);
    } else {
        lemma_binary_ids(toks, st, (level - 1) as nat);
    }
    match o.res {
        Err(_) => {},
        Ok(left) => {
            lemma_binary_rest_ids(toks, after(st, o), level, left, st.id);
        },
    }
}

/// The operand after an operator of a binary level.
pub open spec fn operand(toks: Seq<Token>, st: PState, level: nat) -> Parsed<SExpr> {
    if level <= 1 {
        p_unary(toks, st)
    } else {
        p_binary(toks, st, (level - 1) as nat)
    }
}

/// One unfolding of `p_binary_rest` where an operator follows.
proof fn lemma_binary_rest_unfold(toks: Seq<Token>, st: PState, level: nat, left: SExpr)
    requires
        check_any(toks, st, level_ops(level)),
    ensures
        ({
            let o = operand(toks, step(st), level);
            match o.res {
                Err(_) => p_binary_rest(toks, st, level, left) == o.shift(1),
                Ok(right) => p_binary_rest(toks, st, level, left) == followed(
                    o.shift(1),
                    p_binary_rest(
                        toks,
                        after(step(st), o),
                        level,
                        combine(level, left, tok(toks, st.current as int), right),
                    ),
                ),
            }
        }),
{
    reveal_with_fuel(p_binary_rest, 1);
    reveal_with_fuel(p_unary, 1);
    reveal_with_fuel(p_binary, 1);
}

/// The operator pairs of a binary level after `left`, whose ids lie in
/// `(lo, st.id]`: the whole tree's ids are fresh above `lo`.
pub proof fn lemma_binary_rest_ids(toks: Seq<Token>, st: PState, level: nat, left: SExpr, lo: nat)
    requires
        lo <= st.id,
        st.id <= usize::MAX ==> ids_in(expr_ids(left), lo, st.id),
    ensures
        lexemes_present(toks) ==> lexemes_found(p_binary_rest(toks, st, level, left)),
        fresh_expr(st, p_binary_rest(toks, st, level, left), lo),
    decreases rem(toks, st), 2 * level + 4,
{
    if check_any(toks, st, level_ops(level)) {
        let s1 = step(st);
        let o = operand(toks, s1, level);
        lemma_binary_rest_unfold(toks, st, level, left);
        if level <= 1 {
            lemma_unary_ids(toks, s1);
        } else {
            lemma_binary_ids(toks, s1, (level - 1) as nat);
        }
        match o.res {
            Err(_) => {},
            Ok(right) => {
                let c = combine(level, left, tok(toks, st.current as int), right);
                if o.id <= usize::MAX {
                    lemma_ids_concat(expr_ids(left), expr_ids(right), lo, st.id, o.id);
                }
                assert(expr_ids(c) == expr_ids(left) + expr_ids(right));
                lemma_binary_rest_ids(toks, after(s1, o), level, c, lo);
            },
        }
    } else {
        reveal_with_fuel(p_binary_rest, 1);
    }
}

/// `unary`: fresh ids.
pub proof fn lemma_unary_ids(toks: Seq<Token>, st: PState)
    ensures
        lexemes_present(toks) ==> lexemes_found(p_unary(toks, st)),
        fresh_expr(st, p_unary(toks, st), st.id),
    decreases rem(toks, st), 4nat,
{
    reveal_with_fuel(p_unary, 1);
    reveal_with_fuel(p_call, 1);
    if check(toks, st, TokenType::Minus) || check(toks, st, TokenType::Bang) {
        lemma_unary_ids(toks, step(st));
    } else {
        lemma_call_ids(toks, st);
    }
}

/// `call`: fresh ids.
pub proof fn lemma_call_ids(toks: Seq<Token>, st: PState)
    ensures
        lexemes_present(toks) ==> lexemes_found(p_call(toks, st)),
        fresh_expr(st, p_call(toks, st), st.id),
    decreases rem(toks, st), 3nat,
{
    reveal_with_fuel(p_call, 1);
    reveal_with_fuel(p_primary, 1);
    reveal_with_fuel(p_call_rest, 1);
    lemma_primary_ids(toks, st);
    let o = p_primary(toks, st);
    match o.res {
        Err(_) => {},
        Ok(e) => {
            lemma_call_rest_ids(toks, after(st, o), e, st.id);
        },
    }
}

/// The argument lists after a callee whose ids lie in `(lo, st.id]`.
pub proof fn lemma_call_rest_ids(toks: Seq<Token>, st: PState, callee: SExpr, lo: nat)
    requires
        lo <= st.id,
        st.id <= usize::MAX ==> ids_in(expr_ids(callee), lo, st.id),
    ensures
        lexemes_present(toks) ==> lexemes_found(p_call_rest(toks, st, callee)),
        fresh_expr(st, p_call_rest(toks, st, callee), lo),
    decreases rem(toks, st), 2nat,
{
    reveal_with_fuel(p_call_rest, 1);
    reveal_with_fuel(p_finish_call, 1);
    if check(toks, st, TokenType::LeftParen) {
        let s1 = step(st);
        let f = p_finish_call(toks, s1, callee);
        lemma_finish_call_ids(toks, s1, callee, lo);
        match f.res {
            Err(_) => {},
            Ok(c) => {
                lemma_call_rest_ids(toks, after(s1, f), c, lo);
            },
        }
    }
}

/// The arguments and `)` of a call whose callee's ids lie in `(lo, st.id]`.
pub proof fn lemma_finish_call_ids(toks: Seq<Token>, st: PState, callee: SExpr, lo: nat)
    requires
        lo <= st.id,
        st.id <= usize::MAX ==> ids_in(expr_ids(callee), lo, st.id),
    ensures
        lexemes_present(toks) ==> lexemes_found(p_finish_call(toks, st, callee)),
        fresh_expr(st, p_finish_call(toks, st, callee), lo),
    decreases rem(toks, st), 21nat,
{
    reveal_with_fuel(p_finish_call, 1);
    reveal_with_fuel(p_args, 1);
    reveal(p_close_call);
    if !check(toks, st, TokenType::RightParen) {
        let a = p_args(toks, st, seq![]);
        assert(exprs_ids(Seq::<SExpr>::empty()) =~= Seq::<nat>::empty());
        lemma_args_ids(toks, st, seq![], st.id);
        match a.res {
            Err(_) => {},
            Ok(args) => {
                let s2 = after(st, a);
                lemma_consume_keeps(toks, s2, TokenType::RightParen, "Expected ) after arguments."@);
                if a.id <= usize::MAX {
                    lemma_ids_concat(expr_ids(callee), exprs_ids(args), lo, st.id, a.id);
                }
            },
        }
    } else {
        lemma_consume_keeps(toks, st, TokenType::RightParen, "Expected ) after arguments."@);
        assert(exprs_ids(Seq::<SExpr>::empty()) =~= Seq::<nat>::empty());
        assert(expr_ids(callee) + Seq::<nat>::empty() =~= expr_ids(callee));
    }
}

/// The arguments appended to `args`, whose ids lie in `(lo, st.id]`: the
/// ids of all of them are fresh above `lo`.
pub proof fn lemma_args_ids(toks: Seq<Token>, st: PState, args: Seq<SExpr>, lo: nat)
    requires
        lo <= st.id,
        st.id <= usize::MAX ==> ids_in(exprs_ids(args), lo, st.id),
    ensures
        lexemes_present(toks) ==> lexemes_found(p_args(toks, st, args)),
        p_args(toks, st, args).res matches Ok(all) ==> {
            &&& st.id <= p_args(toks, st, args).id
            &&& p_args(toks, st, args).loop_depth == st.loop_depth
            &&& p_args(toks, st, args).id <= usize::MAX ==> ids_in(
                exprs_ids(all),
                lo,
                p_args(toks, st, args).id,
            )
        },
    decreases rem(toks, st), 20nat,
{
    reveal_with_fuel(p_args, 1);
    reveal_with_fuel(p_expression, 1);
    let e = p_expression(toks, st);
    lemma_expression_ids(toks, st);
    match e.res {
        Err(_) => {},
        Ok(x) => {
            let args2 = args.push(x);
            assert(args2.drop_last() =~= args);
            if e.id <= usize::MAX {
                lemma_ids_concat(exprs_ids(args), expr_ids(x), lo, st.id, e.id);
            }
            let s1 = after(st, e);
            if check(toks, s1, TokenType::Comma) {
                lemma_args_ids(toks, step(s1), args2, lo);
            }
        },
    }
}

/// `primary`: fresh ids; a variable gets the next id.
pub proof fn lemma_primary_ids(toks: Seq<Token>, st: PState)
    ensures
        lexemes_present(toks) ==> lexemes_found(p_primary(toks, st)),
        fresh_expr(st, p_primary(toks, st), st.id),
    decreases rem(toks, st), 1nat,
{
    reveal_with_fuel(p_primary, 1);
    reveal_with_fuel(p_expression, 1);
    let t = crate::grammar::tok(toks, st.current as int);
    if t.token_type == TokenType::Identifier {
        if st.id + 1 <= usize::MAX {
            assert(((st.id + 1) as usize) as nat == st.id + 1);
            assert(ids_in(seq![(st.id + 1) as usize as nat], st.id, st.id + 1));
        }
    } else if t.token_type == TokenType::LeftParen {
        let s1 = step(st);
        lemma_expression_ids(toks, s1);
        let e = p_expression(toks, s1);
        match e.res {
            Err(_) => {},
            Ok(x) => {
                lemma_consume_keeps(toks, after(s1, e), TokenType::RightParen, "expected ) after Expression"@);
            },
        }
    }
}


// ---------------------------------------------------------------------------
// Statements.
// ---------------------------------------------------------------------------

/// The ids of an optional expression.
pub open spec fn opt_expr_ids(e: Option<SExpr>) -> Seq<nat> {
    match e {
        Some(x) => expr_ids(x),
        None => seq![],
    }
}

/// The ids of the variables and assignments of a statement, in the order
/// their parts are parsed (for a loop: its condition, its increment, then
/// its body).
pub open spec fn stmt_ids(s: SStmt) -> Seq<nat>
    decreases s,
{
    match s {
        SStmt::Expr { expr } => expr_ids(expr),
        SStmt::Return { token: _, value } => expr_ids(value),
        SStmt::Print { expr } => expr_ids(expr),
        SStmt::Variable { op: _, expr } => match expr {
            Some(x) => expr_ids(x),
            None => seq![],
        },
        SStmt::Block { stmts } => stmts_ids(stmts),
        SStmt::If { condition, then_branch, else_branch } => expr_ids(condition) + stmt_ids(
            *then_branch,
        ) + match else_branch {
            Some(b) => stmt_ids(*b),
            None => seq![],
        },
        SStmt::While { condition, stmts, finally } => expr_ids(condition) + match finally {
            Some(x) => expr_ids(x),
            None => seq![],
        } + stmt_ids(*stmts),
        SStmt::Function_Decl { name: _, params: _, body } => stmts_ids(body),
        SStmt::Break => seq![],
        SStmt::Continue => seq![],
    }
}

/// The ids of a list of statements, in order.
pub open spec fn stmts_ids(ss: Seq<SStmt>) -> Seq<nat>
    decreases ss,
{
    if ss.len() == 0 {
        seq![]
    } else {
        stmts_ids(ss.drop_last()) + stmt_ids(ss.last())
    }
}

/// The ids of an optional statement.
pub open spec fn opt_stmt_ids(s: Option<SStmt>) -> Seq<nat> {
    match s {
        Some(x) => stmt_ids(x),
        None => seq![],
    }
}

/// A successful statement parse from `st` has not lowered the id counter
/// and has left the loop depth as it was, and, where the counter after it
/// fits in a `usize`, the ids of its tree lie in `(lo, o.id]`, each once.
pub open spec fn fresh_stmt(st: PState, o: Parsed<SStmt>, lo: nat) -> bool {
    o.res matches Ok(s) ==> {
        &&& st.id <= o.id
        &&& o.loop_depth == st.loop_depth
        &&& o.id <= usize::MAX ==> ids_in(stmt_ids(s), lo, o.id)
    }
}

/// Three id lists in consecutive ranges make one.
proof fn lemma_ids_concat3(
    a: Seq<nat>,
    b: Seq<nat>,
    c: Seq<nat>,
    l: nat,
    m1: nat,
    m2: nat,
    h: nat,
)
    requires
        ids_in(a, l, m1),
        ids_in(b, m1, m2),
        ids_in(c, m2, h),
        l <= m1 <= m2 <= h,
    ensures
        ids_in(a + b + c, l, h),
{
    lemma_ids_concat(a, b, l, m1, m2);
    lemma_ids_concat(a + b, c, l, m2, h);
}

/// An optional expression: fresh ids.
proof fn lemma_opt_expression_ids(toks: Seq<Token>, st: PState, stop: TokenType)
    ensures
        lexemes_present(toks) ==> lexemes_found(p_opt_expression(toks, st, stop)),
        p_opt_expression(toks, st, stop).res matches Ok(x) ==> {
            &&& st.id <= p_opt_expression(toks, st, stop).id
            &&& p_opt_expression(toks, st, stop).loop_depth == st.loop_depth
            &&& p_opt_expression(toks, st, stop).id <= usize::MAX ==> ids_in(
                opt_expr_ids(x),
                st.id,
                p_opt_expression(toks, st, stop).id,
            )
        },
{
    reveal(p_opt_expression);
    lemma_expression_ids(toks, st);
}

/// `variable` after `var`: fresh ids.
proof fn lemma_variable_ids(toks: Seq<Token>, st: PState)
    ensures
        lexemes_present(toks) ==> lexemes_found(p_variable(toks, st)),
        fresh_stmt(st, p_variable(toks, st), st.id),
{
    reveal(p_variable);
    lemma_consume_keeps(toks, st, TokenType::Identifier, "Expected an identifier"@);
    let c = p_consume(toks, st, TokenType::Identifier, "Expected an identifier"@);
    let s1 = after(st, c);
    lemma_expression_ids(toks, step(s1));
    let init: Parsed<Option<SExpr>> = if check(toks, s1, TokenType::Equal) {
        let e = p_expression(toks, step(s1));
        match e.res {
            Err(_) => e.shift(1).cast(),
            Ok(x) => e.shift(1).set(Some(x)),
        }
    } else {
        ok(s1, None)
    };
    lemma_consume_keeps(toks, after(s1, init), TokenType::Semicolon, "Expected ; after expression"@);
}

/// `expression ;`: fresh ids.
proof fn lemma_expr_stmt_ids(toks: Seq<Token>, st: PState)
    ensures
        lexemes_present(toks) ==> lexemes_found(p_expr_stmt(toks, st)),
        fresh_stmt(st, p_expr_stmt(toks, st), st.id),
{
    reveal(p_expr_stmt);
    lemma_expression_ids(toks, st);
    let e = p_expression(toks, st);
    lemma_consume_keeps(toks, after(st, e), TokenType::Semicolon, "Expected ; afer statement"@);
}

/// `print ( expression ) ;`: fresh ids.
proof fn lemma_print_ids(toks: Seq<Token>, st: PState)
    ensures
        lexemes_present(toks) ==> lexemes_found(p_print(toks, st)),
        fresh_stmt(st, p_print(toks, st), st.id),
{
    reveal(p_print);
    let c1 = p_consume(toks, st, TokenType::LeftParen, "expected ( before print statement"@);
    lemma_consume_keeps(toks, st, TokenType::LeftParen, "expected ( before print statement"@);
    let s1 = after(st, c1);
    lemma_expression_ids(toks, s1);
    let e = p_expression(toks, s1);
    let s2 = after(s1, e);
    lemma_consume_keeps(toks, s2, TokenType::RightParen, "expected ) after print statement"@);
    let c2 = p_consume(toks, s2, TokenType::RightParen, "expected ) after print statement"@);
    lemma_consume_keeps(toks, after(s2, c2), TokenType::Semicolon, "expected ; after end of statement"@);
}

/// `return expression? ;`: fresh ids.
proof fn lemma_return_ids(toks: Seq<Token>, st: PState)
    ensures
        lexemes_present(toks) ==> lexemes_found(p_return(toks, st)),
        fresh_stmt(st, p_return(toks, st), st.id),
{
    reveal(p_return);
    lemma_expression_ids(toks, st);
    let v: Parsed<SExpr> = if !check(toks, st, TokenType::Semicolon) {
        p_expression(toks, st)
    } else {
        ok(st, SExpr::Literal { value: Literal::Nil })
    };
    lemma_consume_keeps(toks, after(st, v), TokenType::Semicolon, "Expected ; after an expression"@);
}

/// The parameter list hands out no ids.
proof fn lemma_params_keep(toks: Seq<Token>, st: PState, params: Seq<Token>)
    ensures
        lexemes_present(toks) ==> lexemes_found(p_params(toks, st, params)),
        p_params(toks, st, params).id == st.id,
        p_params(toks, st, params).loop_depth == st.loop_depth,
    decreases rem(toks, st),
{
    reveal_with_fuel(p_params, 1);
    if params.len() < 255 && !check(toks, st, TokenType::RightParen) {
        let c = p_consume(toks, st, TokenType::Identifier, "Expected parameter name"@);
        match c.res {
            Err(_) => {},
            Ok(p) => {
                let s1 = step(st);
                if check(toks, s1, TokenType::Comma) {
                    lemma_params_keep(toks, step(s1), params.push(p));
                }
            },
        }
    }
}

/// The initializer of a `for`: fresh ids.
proof fn lemma_for_init_ids(toks: Seq<Token>, st: PState)
    ensures
        lexemes_present(toks) ==> lexemes_found(p_for_init(toks, st)),
        p_for_init(toks, st).res matches Ok(x) ==> {
            &&& st.id <= p_for_init(toks, st).id
            &&& p_for_init(toks, st).loop_depth == st.loop_depth
            &&& p_for_init(toks, st).id <= usize::MAX ==> ids_in(
                opt_stmt_ids(x),
                st.id,
                p_for_init(toks, st).id,
            )
        },
{
    reveal(p_for_init);
    lemma_variable_ids(toks, step(st));
    lemma_expr_stmt_ids(toks, st);
}

/// The clauses of a `for`: fresh ids, initializer first, then condition,
/// then increment.
proof fn lemma_for_clauses_ids(toks: Seq<Token>, st: PState)
    ensures
        lexemes_present(toks) ==> lexemes_found(p_for_clauses(toks, st)),
        p_for_clauses(toks, st).res matches Ok(h) ==> {
            &&& st.id <= p_for_clauses(toks, st).id
            &&& p_for_clauses(toks, st).loop_depth == st.loop_depth
            &&& p_for_clauses(toks, st).id <= usize::MAX ==> ids_in(
                opt_stmt_ids(h.0) + opt_expr_ids(h.1) + opt_expr_ids(h.2),
                st.id,
                p_for_clauses(toks, st).id,
            )
        },
{
    let c1 = p_consume(toks, st, TokenType::LeftParen, "Expected ( after for"@);
    lemma_consume_keeps(toks, st, TokenType::LeftParen, "Expected ( after for"@);
    let s1 = after(st, c1);
    lemma_for_init_ids(toks, s1);
    let i = p_for_init(toks, s1);
    let s2 = after(s1, i);
    lemma_opt_expression_ids(toks, s2, TokenType::Semicolon);
    let cnd = p_opt_expression(toks, s2, TokenType::Semicolon);
    let s3 = after(s2, cnd);
    lemma_consume_keeps(toks, s3, TokenType::Semicolon, "Expected ; after loop condition "@);
    let c2 = p_consume(toks, s3, TokenType::Semicolon, "Expected ; after loop condition "@);
    let s4 = after(s3, c2);
    lemma_opt_expression_ids(toks, s4, TokenType::RightParen);
    let inc = p_opt_expression(toks, s4, TokenType::RightParen);
    lemma_consume_keeps(toks, after(s4, inc), TokenType::RightParen, "Expected ) after for clause"@);
    match (i.res, cnd.res, inc.res) {
        (Ok(init), Ok(condition), Ok(increment)) => {
            if inc.id <= usize::MAX {
                lemma_ids_concat3(
                    opt_stmt_ids(init),
                    opt_expr_ids(condition),
                    opt_expr_ids(increment),
                    st.id,
                    i.id,
                    cnd.id,
                    inc.id,
                );
            }
        },
        _ => {},
    }
}

/// `declaration`: fresh ids.
pub proof fn lemma_declaration_ids(toks: Seq<Token>, st: PState)
    ensures
        lexemes_present(toks) ==> lexemes_found(p_declaration(toks, st)),
        fresh_stmt(st, p_declaration(toks, st), st.id),
    decreases rem(toks, st), 10nat,
{
    reveal_with_fuel(p_declaration, 1);
    reveal_with_fuel(p_statements, 1);
    if check(toks, st, TokenType::Var) {
        lemma_variable_ids(toks, step(st));
    } else {
        lemma_statements_ids(toks, st);
    }
}

/// `statement`: fresh ids.
pub proof fn lemma_statements_ids(toks: Seq<Token>, st: PState)
    ensures
        lexemes_present(toks) ==> lexemes_found(p_statements(toks, st)),
        fresh_stmt(st, p_statements(toks, st), st.id),
    decreases rem(toks, st), 9nat,
{
    crate::grammar::lemma_statements_dispatch(toks, st);
    if check(toks, st, TokenType::Print) {
        lemma_print_ids(toks, step(st));
    } else if check(toks, st, TokenType::Return) {
        lemma_return_ids(toks, step(st));
    } else if check(toks, st, TokenType::Fun) {
        lemma_func_ids(toks, step(st), "function"@);
    } else if check(toks, st, TokenType::For) {
        lemma_for_ids(toks, step(st));
    } else if check(toks, st, TokenType::If) {
        lemma_if_ids(toks, step(st));
    } else if check(toks, st, TokenType::While) {
        lemma_while_ids(toks, step(st));
    } else if check(toks, st, TokenType::LeftBrace) {
        lemma_block_ids(toks, step(st));
    } else if check(toks, st, TokenType::Break) || check(toks, st, TokenType::Continue) {
        lemma_consume_keeps(toks, step(st), TokenType::Semicolon, "Expected ; after break"@);
    } else {
        lemma_expr_stmt_ids(toks, st);
    }
}

/// A function declaration: fresh ids.
pub proof fn lemma_func_ids(toks: Seq<Token>, st: PState, name: Seq<char>)
    ensures
        lexemes_present(toks) ==> lexemes_found(p_func(toks, st, name)),
        fresh_stmt(st, p_func(toks, st, name), st.id),
    decreases rem(toks, st), 8nat,
{
    reveal_with_fuel(p_func, 1);
    reveal_with_fuel(p_block, 1);
    let c1 = p_consume(toks, st, TokenType::Identifier, crate::grammar::kind_name_msg(name));
    lemma_consume_keeps(toks, st, TokenType::Identifier, crate::grammar::kind_name_msg(name));
    let s1 = after(st, c1);
    let c2 = p_consume(toks, s1, TokenType::LeftParen, crate::grammar::paren_after_name_msg(name));
    lemma_consume_keeps(toks, s1, TokenType::LeftParen, crate::grammar::paren_after_name_msg(name));
    let s2 = after(s1, c2);
    let ps = p_params(toks, s2, seq![]);
    lemma_params_keep(toks, s2, seq![]);
    let s3 = after(s2, ps);
    let c3 = p_consume(toks, s3, TokenType::RightParen, "Expected ) after parameters"@);
    lemma_consume_keeps(toks, s3, TokenType::RightParen, "Expected ) after parameters"@);
    let s4 = after(s3, c3);
    let c4 = p_consume(toks, s4, TokenType::LeftBrace, "Expected { before a block"@);
    lemma_consume_keeps(toks, s4, TokenType::LeftBrace, "Expected { before a block"@);
    if c1.res is Ok && c2.res is Ok && ps.res is Ok && c3.res is Ok && c4.res is Ok {
        lemma_block_ids(toks, after(s4, c4));
    }
}

/// The desugared `for`: its ids are those of its clauses, then its body.
proof fn lemma_desugar_ids(
    init: Option<SStmt>,
    condition: Option<SExpr>,
    increment: Option<SExpr>,
    body: SStmt,
)
    ensures
        stmt_ids(desugar_for(init, condition, increment, body)) == opt_stmt_ids(init)
            + opt_expr_ids(condition) + opt_expr_ids(increment) + stmt_ids(body),
{
    let cond = match condition {
        Some(c) => c,
        None => SExpr::Literal { value: Literal::True },
    };
    let w = SStmt::While { condition: cond, stmts: Box::new(body), finally: increment };
    assert(opt_expr_ids(condition) == expr_ids(cond));
    match init {
        Some(i) => {
            let ss = seq![i, w];
            assert(ss.drop_last() == seq![i]);
            assert(seq![i].drop_last() =~= Seq::<SStmt>::empty());
            assert(stmts_ids(Seq::<SStmt>::empty()) =~= Seq::<nat>::empty());
            assert(seq![i].last() == i);
            assert(stmts_ids(seq![i]) =~= stmt_ids(i));
            assert(stmts_ids(ss) =~= stmt_ids(i) + stmt_ids(w));
            assert(stmt_ids(i) + stmt_ids(w) =~= opt_stmt_ids(init) + opt_expr_ids(condition)
                + opt_expr_ids(increment) + stmt_ids(body));
        },
        None => {
            assert(stmt_ids(w) =~= opt_stmt_ids(init) + opt_expr_ids(condition) + opt_expr_ids(
                increment,
            ) + stmt_ids(body));
        },
    }
}

/// A `for`: fresh ids; the loop depth is back where it was.
pub proof fn lemma_for_ids(toks: Seq<Token>, st: PState)
    ensures
        lexemes_present(toks) ==> lexemes_found(p_for(toks, st)),
        fresh_stmt(st, p_for(toks, st), st.id),
    decreases rem(toks, st), 8nat,
{
    reveal_with_fuel(p_for, 1);
    reveal_with_fuel(p_statements, 1);
    lemma_for_clauses_ids(toks, st);
    let h = p_for_clauses(toks, st);
    match h.res {
        Err(_) => {},
        Ok((init, condition, increment)) => {
            let s6 = after(st, h);
            let inner = PState { loop_depth: s6.loop_depth + 1, ..s6 };
            lemma_statements_ids(toks, inner);
            let b = p_statements(toks, inner);
            match b.res {
                Err(_) => {},
                Ok(body) => {
                    lemma_desugar_ids(init, condition, increment, body);
                    if b.id <= usize::MAX {
                        lemma_ids_concat(
                            opt_stmt_ids(init) + opt_expr_ids(condition) + opt_expr_ids(increment),
                            stmt_ids(body),
                            st.id,
                            h.id,
                            b.id,
                        );
                    }
                },
            }
        },
    }
}

/// A `while`: fresh ids; the loop depth is back where it was.
pub proof fn lemma_while_ids(toks: Seq<Token>, st: PState)
    ensures
        lexemes_present(toks) ==> lexemes_found(p_while(toks, st)),
        fresh_stmt(st, p_while(toks, st), st.id),
    decreases rem(toks, st), 8nat,
{
    reveal_with_fuel(p_while, 1);
    reveal_with_fuel(p_statements, 1);
    let c1 = p_consume(toks, st, TokenType::LeftParen, "Expected (  after while "@);
    lemma_consume_keeps(toks, st, TokenType::LeftParen, "Expected (  after while "@);
    let s1 = after(st, c1);
    lemma_expression_ids(toks, s1);
    let e = p_expression(toks, s1);
    let s2 = after(s1, e);
    let c2 = p_consume(toks, s2, TokenType::RightParen, "Expected ) after condition"@);
    lemma_consume_keeps(toks, s2, TokenType::RightParen, "Expected ) after condition"@);
    if c1.res is Ok && c2.res is Ok {
        match e.res {
            Ok(condition) => {
                let s3 = after(s2, c2);
                let inner = PState { loop_depth: s3.loop_depth + 1, ..s3 };
                lemma_statements_ids(toks, inner);
                let b = p_statements(toks, inner);
                match b.res {
                    Ok(body) => {
                        assert(stmt_ids(
                            SStmt::While { condition, stmts: Box::new(body), finally: None },
                        ) =~= expr_ids(condition) + stmt_ids(body));
                        if b.id <= usize::MAX {
                            lemma_ids_concat(expr_ids(condition), stmt_ids(body), st.id, e.id, b.id);
                        }
                    },
                    Err(_) => {},
                }
            },
            Err(_) => {},
        }
    }
}

/// An `if`: fresh ids.
pub proof fn lemma_if_ids(toks: Seq<Token>, st: PState)
    ensures
        lexemes_present(toks) ==> lexemes_found(p_if(toks, st)),
        fresh_stmt(st, p_if(toks, st), st.id),
    decreases rem(toks, st), 8nat,
{
    reveal_with_fuel(p_if, 1);
    reveal_with_fuel(p_statements, 1);
    let c1 = p_consume(toks, st, TokenType::LeftParen, "Expected ( after if statement"@);
    lemma_consume_keeps(toks, st, TokenType::LeftParen, "Expected ( after if statement"@);
    let s1 = after(st, c1);
    lemma_expression_ids(toks, s1);
    let e = p_expression(toks, s1);
    let s2 = after(s1, e);
    let c2 = p_consume(toks, s2, TokenType::RightParen, "Expected ) after statement"@);
    lemma_consume_keeps(toks, s2, TokenType::RightParen, "Expected ) after statement"@);
    if c1.res is Ok && c2.res is Ok {
        match e.res {
            Ok(condition) => {
                let s3 = after(s2, c2);
                lemma_statements_ids(toks, s3);
                let t = p_statements(toks, s3);
                match t.res {
                    Ok(then_branch) => {
                        let s4 = after(s3, t);
                        if check(toks, s4, TokenType::Else) {
                            lemma_statements_ids(toks, step(s4));
                            let el = p_statements(toks, step(s4));
                            match el.res {
                                Ok(else_branch) => {
                                    if el.id <= usize::MAX {
                                        lemma_ids_concat3(
                                            expr_ids(condition),
                                            stmt_ids(then_branch),
                                            stmt_ids(else_branch),
                                            st.id,
                                            e.id,
                                            t.id,
                                            el.id,
                                        );
                                    }
                                },
                                Err(_) => {},
                            }
                        } else {
                            if t.id <= usize::MAX {
                                lemma_ids_concat3(
                                    expr_ids(condition),
                                    stmt_ids(then_branch),
                                    Seq::<nat>::empty(),
                                    st.id,
                                    e.id,
                                    t.id,
                                    t.id,
                                );
                            }
                        }
                    },
                    Err(_) => {},
                }
            },
            Err(_) => {},
        }
    }
}

/// A block after `{`: fresh ids.
pub proof fn lemma_block_ids(toks: Seq<Token>, st: PState)
    ensures
        lexemes_present(toks) ==> lexemes_found(p_block(toks, st)),
        fresh_stmt(st, p_block(toks, st), st.id),
    decreases rem(toks, st), 12nat,
{
    reveal_with_fuel(p_block, 1);
    reveal_with_fuel(p_block_rest, 1);
    assert(stmts_ids(Seq::<SStmt>::empty()) =~= Seq::<nat>::empty());
    lemma_block_rest_ids(toks, st, seq![], st.id);
}

/// The declarations of a block after `stmts`, whose ids lie in
/// `(lo, st.id]`: the block's ids are fresh above `lo`.
pub proof fn lemma_block_rest_ids(toks: Seq<Token>, st: PState, stmts: Seq<SStmt>, lo: nat)
    requires
        lo <= st.id,
        st.id <= usize::MAX ==> ids_in(stmts_ids(stmts), lo, st.id),
    ensures
        lexemes_present(toks) ==> lexemes_found(p_block_rest(toks, st, stmts)),
        fresh_stmt(st, p_block_rest(toks, st, stmts), lo),
    decreases rem(toks, st), 11nat,
{
    reveal_with_fuel(p_block_rest, 1);
    reveal_with_fuel(p_declaration, 1);
    if !check(toks, st, TokenType::RightBrace) && !at_eof(toks, st) {
        lemma_declaration_ids(toks, st);
        let d = p_declaration(toks, st);
        match d.res {
            Err(_) => {},
            Ok(s) => {
                if d.adv != 0 {
                    let ss = stmts.push(s);
                    assert(ss.drop_last() =~= stmts);
                    if d.id <= usize::MAX {
                        lemma_ids_concat(stmts_ids(stmts), stmt_ids(s), lo, st.id, d.id);
                    }
                    lemma_block_rest_ids(toks, after(st, d), ss, lo);
                }
            },
        }
    } else {
        lemma_consume_keeps(toks, st, TokenType::RightBrace, "Expected } after the block"@);
    }
}

/// The declarations of a program after `stmts`, whose ids lie in
/// `(lo, st.id]`: all the ids are fresh above `lo`.
proof fn lemma_program_rest_ids(toks: Seq<Token>, st: PState, stmts: Seq<SStmt>, lo: nat)
    requires
        lo <= st.id,
        st.id <= usize::MAX ==> ids_in(stmts_ids(stmts), lo, st.id),
    ensures
        lexemes_present(toks) ==> lexemes_found(p_program(toks, st, stmts)),
        p_program(toks, st, stmts).res matches Ok(all) ==> {
            &&& st.id <= p_program(toks, st, stmts).id
            &&& p_program(toks, st, stmts).loop_depth == st.loop_depth
            &&& p_program(toks, st, stmts).id <= usize::MAX ==> ids_in(
                stmts_ids(all),
                lo,
                p_program(toks, st, stmts).id,
            )
        },
    decreases rem(toks, st),
{
    reveal_with_fuel(p_program, 1);
    if !at_eof(toks, st) {
        lemma_declaration_ids(toks, st);
        let d = p_declaration(toks, st);
        match d.res {
            Err(_) => {},
            Ok(s) => {
                if d.adv != 0 {
                    let ss = stmts.push(s);
                    assert(ss.drop_last() =~= stmts);
                    if d.id <= usize::MAX {
                        lemma_ids_concat(stmts_ids(stmts), stmt_ids(s), lo, st.id, d.id);
                    }
                    lemma_program_rest_ids(toks, after(st, d), ss, lo);
                }
            },
        }
    }
}

/// Parsing a program hands every variable and assignment an id of its own:
/// the ids in the statements it gives are pairwise distinct and lie above
/// the counter before and at most at the counter after (where that fits in
/// a `usize`, as the parser's own counter does); the loop depth is left as
/// it was. And where every identifier, number and string token carries its
/// lexeme, the parse never stops at one that lacks it.
pub proof fn lemma_program_ids_fresh(toks: Seq<Token>, st: PState)
    ensures
        lexemes_present(toks) ==> lexemes_found(p_program(toks, st, seq![])),
        p_program(toks, st, seq![]).res matches Ok(all) ==> {
            &&& st.id <= p_program(toks, st, seq![]).id
            &&& p_program(toks, st, seq![]).loop_depth == st.loop_depth
            &&& p_program(toks, st, seq![]).id <= usize::MAX ==> ids_in(
                stmts_ids(all),
                st.id,
                p_program(toks, st, seq![]).id,
            )
        },
{
    assert(stmts_ids(Seq::<SStmt>::empty()) =~= Seq::<nat>::empty());
    lemma_program_rest_ids(toks, st, seq![], st.id);
}

/// Law: a program parses successfully only up to its end: after a successful
/// parse the next token is the end-of-file token.
pub proof fn lemma_program_reads_to_eof(toks: Seq<Token>, st: PState, stmts: Seq<SStmt>)
    ensures
        p_program(toks, st, stmts).res is Ok ==> at_eof(
            toks,
            after(st, p_program(toks, st, stmts)),
        ),
    decreases rem(toks, st),
{
    reveal_with_fuel(p_program, 1);
    if !at_eof(toks, st) {
        let d = p_declaration(toks, st);
        match d.res {
            Ok(s) => {
                if d.adv != 0 {
                    lemma_program_reads_to_eof(toks, after(st, d), stmts.push(s));
                }
            },
            Err(_) => {},
        }
    }
}

} // verus!
