use std::collections::HashMap;
use vstd::prelude::*;

use crate::environment::{Frame, distinct_names, find_var, frame_get, lemma_set_var, set_var};
use crate::expr::{Expr, SExpr};
use crate::fresh_ids::{expr_ids, exprs_ids, stmt_ids, stmts_ids};
use crate::parser::exprs_sv;
use crate::stmt::{SStmt, Stmt, stmts_sv};
use crate::tokentype::Token;

verus! {

broadcast use vstd::std_specs::hash::group_hash_axioms;

/// A report of the resolver.
#[derive(Debug, Clone, Copy, PartialEq, Eq, Structural)]
pub enum ResolveError {
    /// A variable is read in its own initializer.
    ReadInOwnInitializer,
}

/// The resolver's state: the scopes (innermost last; each maps names to
/// whether their definition is complete), the scope distance recorded for
/// each variable id, and the number of reports.
pub struct RState {
    pub scopes: Seq<Seq<(Seq<char>, bool)>>,
    pub locals: Map<usize, usize>,
    pub errors: nat,
}

/// The lexeme of a token, as characters.
pub open spec fn name_of(t: Token) -> Option<Seq<char>> {
    t@.lexeme
}

/// A new, empty innermost scope.
pub open spec fn r_begin(st: RState) -> RState {
    RState { scopes: st.scopes.push(seq![]), ..st }
}

/// The innermost scope dropped (if there is one).
pub open spec fn r_end(st: RState) -> RState {
    if st.scopes.len() > 0 {
        RState { scopes: st.scopes.drop_last(), ..st }
    } else {
        st
    }
}

/// `name` marked `done` in the innermost scope (if there is one).
pub open spec fn r_mark(st: RState, name: Seq<char>, done: bool) -> RState {
    if st.scopes.len() == 0 {
        st
    } else {
        let k = st.scopes.len() - 1;
        RState { scopes: st.scopes.update(k, set_var(st.scopes[k], name, done)), ..st }
    }
}

/// `declare`: the name is in the innermost scope, not yet defined.
pub open spec fn r_declare(st: RState, name: Seq<char>) -> RState {
    r_mark(st, name, false)
}

/// `define`: the name is in the innermost scope and defined.
pub open spec fn r_define(st: RState, name: Seq<char>) -> RState {
    r_mark(st, name, true)
}

/// The number of scopes between the innermost one and the innermost one
/// that holds `name`.
pub open spec fn depth_of(scopes: Seq<Seq<(Seq<char>, bool)>>, name: Seq<char>) -> Option<nat>
    decreases scopes.len(),
{
    if scopes.len() == 0 {
        None
    } else if find_var(scopes.last(), name) is Some {
        Some(0)
    } else {
        match depth_of(scopes.drop_last(), name) {
            Some(d) => Some(d + 1),
            None => None,
        }
    }
}

/// `resolve_local`: the depth of the variable `id` is recorded where its
/// name is in some scope.
pub open spec fn r_local(st: RState, name: Option<Seq<char>>, id: usize) -> RState {
    match name {
        Some(n) => match depth_of(st.scopes, n) {
            Some(d) => RState { locals: st.locals.insert(id, d as usize), ..st },
            None => st,
        },
        None => st,
    }
}

/// Whether `name` is declared but not yet defined in the innermost scope.
pub open spec fn in_own_initializer(st: RState, name: Seq<char>) -> bool {
    st.scopes.len() > 0 && frame_get(Frame { enclosing: None, vars: st.scopes.last() }, name)
        == Some(false)
}

/// Resolving an expression: each variable use and assignment gets the depth
/// of the scope that holds its name; a variable read in its own initializer
/// is reported instead.
pub open spec fn r_expr(st: RState, e: SExpr) -> RState
    decreases e,
{
    match e {
        SExpr::Variable { token, id } => match name_of(token) {
            Some(n) => if in_own_initializer(st, n) {
                RState { errors: st.errors + 1, ..st }
            } else {
                r_local(st, Some(n), id)
            },
            None => st,
        },
        SExpr::Assign { token, value, id } => r_local(r_expr(st, *value), name_of(token), id),
        SExpr::Binary { left, op: _, right } => r_expr(r_expr(st, *left), *right),
        SExpr::Logical { left, op: _, right } => r_expr(r_expr(st, *left), *right),
        SExpr::Call { callie, paren: _, args } => r_exprs(r_expr(st, *callie), args),
        SExpr::Group { value } => r_expr(st, *value),
        SExpr::Unary { op: _, expr } => r_expr(st, *expr),
        _ => st,
    }
}

/// Resolving expressions in order.
pub open spec fn r_exprs(st: RState, es: Seq<SExpr>) -> RState
    decreases es,
{
    if es.len() == 0 {
        st
    } else {
        r_exprs(r_expr(st, es[0]), es.subrange(1, es.len() as int))
    }
}

/// Declaring and defining parameters in order.
pub open spec fn r_params(st: RState, params: Seq<Token>) -> RState
    decreases params.len(),
{
    if params.len() == 0 {
        st
    } else {
        let n = match name_of(params[0]) {
            Some(n) => n,
            None => seq![],
        };
        r_params(r_define(r_declare(st, n), n), params.subrange(1, params.len() as int))
    }
}

/// Resolving a function: a scope for its parameters and body.
pub open spec fn r_function(st: RState, params: Seq<Token>, body: Seq<SStmt>) -> RState {
    r_end(r_stmts(r_params(r_begin(st), params), body))
}

/// Resolving a statement: blocks and functions open a scope; a variable is
/// declared before its initializer is resolved and defined after; a
/// function's name is defined before its body is resolved. The increment of
/// a desugared `for` is not resolved.
pub open spec fn r_stmt(st: RState, s: SStmt) -> RState
    decreases s,
{
    match s {
        SStmt::Block { stmts } => r_end(r_stmts(r_begin(st), stmts)),
        SStmt::Variable { op, expr } => {
            let n = match name_of(op) {
                Some(n) => n,
                None => seq![],
            };
            let st1 = r_declare(st, n);
            let st2 = match expr {
                Some(e) => r_expr(st1, e),
                None => st1,
            };
            r_define(st2, n)
        },
        SStmt::Function_Decl { name, params, body } => {
            let n = match name_of(name) {
                Some(n) => n,
                None => seq![],
            };
            r_end(r_stmts(r_params(r_begin(r_define(r_declare(st, n), n)), params), body))
        },
        SStmt::Expr { expr } => r_expr(st, expr),
        SStmt::If { condition, then_branch, else_branch } => {
            let st1 = r_stmt(r_expr(st, condition), *then_branch);
            match else_branch {
                Some(b) => r_stmt(st1, *b),
                None => st1,
            }
        },
        SStmt::Print { expr } => r_expr(st, expr),
        SStmt::Return { token: _, value } => r_expr(st, value),
        SStmt::While { condition, stmts, finally: _ } => r_stmt(r_expr(st, condition), *stmts),
        _ => st,
    }
}

/// Resolving statements in order.
pub open spec fn r_stmts(st: RState, ss: Seq<SStmt>) -> RState
    decreases ss,
{
    if ss.len() == 0 {
        st
    } else {
        r_stmts(r_stmt(st, ss[0]), ss.subrange(1, ss.len() as int))
    }
}

/// Every name the resolver unwraps in an expression carries its lexeme: a
/// variable's, where a scope is open (`open`); with no scope open its name
/// is not looked at.
pub open spec fn names_ok_expr(e: SExpr, open: bool) -> bool
    decreases e,
{
    match e {
        SExpr::Variable { token, id: _ } => open ==> name_of(token) is Some,
        SExpr::Assign { token: _, value, id: _ } => names_ok_expr(*value, open),
        SExpr::Binary { left, op: _, right } => names_ok_expr(*left, open) && names_ok_expr(
            *right,
            open,
        ),
        SExpr::Logical { left, op: _, right } => names_ok_expr(*left, open) && names_ok_expr(
            *right,
            open,
        ),
        SExpr::Call { callie, paren: _, args } => names_ok_expr(*callie, open) && forall|i: int|
            0 <= i < args.len() ==> names_ok_expr(#[trigger] args[i], open),
        SExpr::Group { value } => names_ok_expr(*value, open),
        SExpr::Unary { op: _, expr } => names_ok_expr(*expr, open),
        _ => true,
    }
}

/// Every name the resolver unwraps in a statement carries its lexeme: the
/// names declared, and the variables read where a scope is open (`open` at
/// the statement; always inside blocks and functions, which open one).
pub open spec fn names_ok_stmt(s: SStmt, open: bool) -> bool
    decreases s,
{
    match s {
        SStmt::Block { stmts } => forall|i: int|
            0 <= i < stmts.len() ==> names_ok_stmt(#[trigger] stmts[i], true),
        SStmt::Variable { op, expr } => name_of(op) is Some && match expr {
            Some(e) => names_ok_expr(e, open),
            None => true,
        },
        SStmt::Function_Decl { name, params, body } => {
            &&& name_of(name) is Some
            &&& forall|i: int| 0 <= i < params.len() ==> name_of(#[trigger] params[i]) is Some
            &&& forall|i: int| 0 <= i < body.len() ==> names_ok_stmt(#[trigger] body[i], true)
        },
        SStmt::Expr { expr } => names_ok_expr(expr, open),
        SStmt::If { condition, then_branch, else_branch } => names_ok_expr(condition, open)
            && names_ok_stmt(*then_branch, open) && match else_branch {
            Some(b) => names_ok_stmt(*b, open),
            None => true,
        },
        SStmt::Print { expr } => names_ok_expr(expr, open),
        SStmt::Return { token: _, value } => names_ok_expr(value, open),
        SStmt::While { condition, stmts, finally: _ } => names_ok_expr(condition, open)
            && names_ok_stmt(*stmts, open),
        _ => true,
    }
}

/// Every scope but the innermost, and the number of scopes, are those of `old`.
pub open spec fn outer_scopes_kept(old: RState, new: RState) -> bool {
    &&& new.scopes.len() == old.scopes.len()
    &&& forall|k: int| 0 <= k < old.scopes.len() - 1 ==> #[trigger] new.scopes[k] == old.scopes[k]
}

/// Resolving an expression leaves every scope as it was.
pub proof fn lemma_expr_keeps_scopes(st: RState, e: SExpr)
    ensures
        r_expr(st, e).scopes == st.scopes,
    decreases e,
{
    match e {
        SExpr::Assign { token: _, value, id: _ } => lemma_expr_keeps_scopes(st, *value),
        SExpr::Binary { left, op: _, right } => {
            lemma_expr_keeps_scopes(st, *left);
            lemma_expr_keeps_scopes(r_expr(st, *left), *right);
        },
        SExpr::Logical { left, op: _, right } => {
            lemma_expr_keeps_scopes(st, *left);
            lemma_expr_keeps_scopes(r_expr(st, *left), *right);
        },
        SExpr::Call { callie, paren: _, args } => {
            lemma_expr_keeps_scopes(st, *callie);
            lemma_exprs_keep_scopes(r_expr(st, *callie), args);
        },
        SExpr::Group { value } => lemma_expr_keeps_scopes(st, *value),
        SExpr::Unary { op: _, expr } => lemma_expr_keeps_scopes(st, *expr),
        _ => {},
    }
}

/// Resolving expressions in order leaves every scope as it was.
pub proof fn lemma_exprs_keep_scopes(st: RState, es: Seq<SExpr>)
    ensures
        r_exprs(st, es).scopes == st.scopes,
    decreases es,
{
    if es.len() > 0 {
        lemma_expr_keeps_scopes(st, es[0]);
        lemma_exprs_keep_scopes(r_expr(st, es[0]), es.subrange(1, es.len() as int));
    }
}

/// Marking a name touches the innermost scope only.
proof fn lemma_mark_outer(st: RState, name: Seq<char>, done: bool)
    ensures
        outer_scopes_kept(st, r_mark(st, name, done)),
{
}

/// Declaring parameters touches the innermost scope only.
proof fn lemma_params_outer(st: RState, params: Seq<Token>)
    ensures
        outer_scopes_kept(st, r_params(st, params)),
    decreases params.len(),
{
    if params.len() > 0 {
        let n = match name_of(params[0]) {
            Some(n) => n,
            None => seq![],
        };
        let st1 = r_define(r_declare(st, n), n);
        lemma_mark_outer(st, n, false);
        lemma_mark_outer(r_declare(st, n), n, true);
        lemma_params_outer(st1, params.subrange(1, params.len() as int));
    }
}

/// A scope opened and then closed, with only the innermost scope touched in
/// between, leaves every scope as it was.
proof fn lemma_nested_scope(st: RState, inner: RState)
    requires
        outer_scopes_kept(r_begin(st), inner),
    ensures
        r_end(inner).scopes == st.scopes,
{
    assert(r_begin(st).scopes.len() == st.scopes.len() + 1);
    assert forall|k: int| 0 <= k < st.scopes.len() implies #[trigger] r_end(inner).scopes[k]
        == st.scopes[k] by {
        assert(inner.scopes[k] == r_begin(st).scopes[k]);
    }
    assert(r_end(inner).scopes =~= st.scopes);
}

/// Resolving a statement touches the innermost scope only.
pub proof fn lemma_stmt_keeps_outer_scopes(st: RState, s: SStmt)
    ensures
        outer_scopes_kept(st, r_stmt(st, s)),
    decreases s,
{
    match s {
        SStmt::Block { stmts } => {
            lemma_stmts_keep_outer_scopes(r_begin(st), stmts);
            lemma_nested_scope(st, r_stmts(r_begin(st), stmts));
        },
        SStmt::Variable { op, expr } => {
            let n = match name_of(op) {
                Some(n) => n,
                None => seq![],
            };
            let st1 = r_declare(st, n);
            lemma_mark_outer(st, n, false);
            match expr {
                Some(e) => {
                    lemma_expr_keeps_scopes(st1, e);
                    lemma_mark_outer(r_expr(st1, e), n, true);
                },
                None => {
                    lemma_mark_outer(st1, n, true);
                },
            }
        },
        SStmt::Function_Decl { name, params, body } => {
            let n = match name_of(name) {
                Some(n) => n,
                None => seq![],
            };
            let st1 = r_define(r_declare(st, n), n);
            lemma_mark_outer(st, n, false);
            lemma_mark_outer(r_declare(st, n), n, true);
            let st2 = r_params(r_begin(st1), params);
            lemma_params_outer(r_begin(st1), params);
            lemma_stmts_keep_outer_scopes(st2, body);
            lemma_nested_scope(st1, r_stmts(st2, body));
        },
        SStmt::Expr { expr } => lemma_expr_keeps_scopes(st, expr),
        SStmt::If { condition, then_branch, else_branch } => {
            lemma_expr_keeps_scopes(st, condition);
            let st1 = r_expr(st, condition);
            lemma_stmt_keeps_outer_scopes(st1, *then_branch);
            match else_branch {
                Some(b) => lemma_stmt_keeps_outer_scopes(r_stmt(st1, *then_branch), *b),
                None => {},
            }
        },
        SStmt::Print { expr } => lemma_expr_keeps_scopes(st, expr),
        SStmt::Return { token: _, value } => lemma_expr_keeps_scopes(st, value),
        SStmt::While { condition, stmts, finally: _ } => {
            lemma_expr_keeps_scopes(st, condition);
            lemma_stmt_keeps_outer_scopes(r_expr(st, condition), *stmts);
        },
        _ => {},
    }
}

/// Resolving statements in order touches the innermost scope only.
pub proof fn lemma_stmts_keep_outer_scopes(st: RState, ss: Seq<SStmt>)
    ensures
        outer_scopes_kept(st, r_stmts(st, ss)),
    decreases ss,
{
    if ss.len() > 0 {
        lemma_stmt_keeps_outer_scopes(st, ss[0]);
        lemma_stmts_keep_outer_scopes(r_stmt(st, ss[0]), ss.subrange(1, ss.len() as int));
    }
}

/// Resolving a block leaves the scopes exactly as they were: what the block
/// declares is gone once it is closed.
pub proof fn lemma_block_restores_scopes(st: RState, stmts: Seq<SStmt>)
    ensures
        r_stmt(st, SStmt::Block { stmts }).scopes == st.scopes,
{
    lemma_stmts_keep_outer_scopes(r_begin(st), stmts);
    lemma_nested_scope(st, r_stmts(r_begin(st), stmts));
}

/// Resolving a function's parameters and body leaves the scopes exactly as
/// they were.
pub proof fn lemma_function_restores_scopes(st: RState, params: Seq<Token>, body: Seq<SStmt>)
    ensures
        r_function(st, params, body).scopes == st.scopes,
{
    let st1 = r_params(r_begin(st), params);
    lemma_params_outer(r_begin(st), params);
    lemma_stmts_keep_outer_scopes(st1, body);
    lemma_nested_scope(st, r_stmts(st1, body));
}

/// The distance recorded for a name is that of the innermost scope holding
/// it: that scope holds the name and no scope inside it does; where no scope
/// holds the name, nothing is recorded.
pub proof fn lemma_depth_of(scopes: Seq<Seq<(Seq<char>, bool)>>, name: Seq<char>)
    ensures
        depth_of(scopes, name) matches Some(d) ==> {
            &&& d < scopes.len()
            &&& find_var(scopes[scopes.len() - 1 - d], name) is Some
            &&& forall|j: int| 0 <= j < d ==> find_var(#[trigger] scopes[scopes.len() - 1 - j], name) is None
        },
        depth_of(scopes, name) is None ==> forall|k: int|
            0 <= k < scopes.len() ==> find_var(#[trigger] scopes[k], name) is None,
    decreases scopes.len(),
{
    if scopes.len() > 0 && find_var(scopes.last(), name) is None {
        let pre = scopes.drop_last();
        lemma_depth_of(pre, name);
        match depth_of(pre, name) {
            Some(d) => {
                assert(pre[pre.len() - 1 - d] == scopes[scopes.len() - 1 - (d + 1)]);
                assert forall|j: int| 0 <= j < d + 1 implies find_var(
                    #[trigger] scopes[scopes.len() - 1 - j],
                    name,
                ) is None by {
                    if j > 0 {
                        assert(scopes[scopes.len() - 1 - j] == pre[pre.len() - 1 - (j - 1)]);
                    }
                }
            },
            None => {
                assert forall|k: int| 0 <= k < scopes.len() implies find_var(
                    #[trigger] scopes[k],
                    name,
                ) is None by {
                    if k < scopes.len() - 1 {
                        assert(scopes[k] == pre[k]);
                    }
                }
            },
        }
    }
}

/// `m2` agrees with `m1` on every id that `ids` does not hold.
pub open spec fn same_outside(m1: Map<usize, usize>, m2: Map<usize, usize>, ids: Seq<nat>) -> bool {
    forall|k: usize| !ids.contains(k as nat) ==> #[trigger] m2.get(k) == m1.get(k)
}

/// An id of either part is an id of the two together.
proof fn lemma_concat_contains<A>(a: Seq<A>, b: Seq<A>, x: A)
    ensures
        (a + b).contains(x) <==> (a.contains(x) || b.contains(x)),
{
    if a.contains(x) {
        let i = choose|i: int| 0 <= i < a.len() && a[i] == x;
        assert((a + b)[i] == x);
    }
    if b.contains(x) {
        let i = choose|i: int| 0 <= i < b.len() && b[i] == x;
        assert((a + b)[a.len() + i] == x);
    }
    if (a + b).contains(x) {
        let i = choose|i: int| 0 <= i < (a + b).len() && (a + b)[i] == x;
        if i < a.len() {
            assert(a[i] == x);
        } else {
            assert(b[i - a.len()] == x);
        }
    }
}

/// The ids of a list of expressions are those of its members.
proof fn lemma_exprs_ids_contains(es: Seq<SExpr>, x: nat)
    ensures
        exprs_ids(es).contains(x) <==> exists|i: int|
            0 <= i < es.len() && (#[trigger] expr_ids(es[i])).contains(x),
    decreases es.len(),
{
    if es.len() > 0 {
        let pre = es.drop_last();
        lemma_exprs_ids_contains(pre, x);
        lemma_concat_contains(exprs_ids(pre), expr_ids(es.last()), x);
        if exprs_ids(es).contains(x) {
            if exprs_ids(pre).contains(x) {
                let i = choose|i: int| 0 <= i < pre.len() && (#[trigger] expr_ids(pre[i])).contains(x);
                assert(pre[i] == es[i]);
            } else {
                assert(expr_ids(es[es.len() - 1]).contains(x));
            }
        }
        if exists|i: int| 0 <= i < es.len() && (#[trigger] expr_ids(es[i])).contains(x) {
            let i = choose|i: int| 0 <= i < es.len() && (#[trigger] expr_ids(es[i])).contains(x);
            if i < es.len() - 1 {
                assert(pre[i] == es[i]);
            }
        }
    }
}

/// The ids of a list of statements are those of its members.
proof fn lemma_stmts_ids_contains(ss: Seq<SStmt>, x: nat)
    ensures
        stmts_ids(ss).contains(x) <==> exists|i: int|
            0 <= i < ss.len() && (#[trigger] stmt_ids(ss[i])).contains(x),
    decreases ss.len(),
{
    if ss.len() > 0 {
        let pre = ss.drop_last();
        lemma_stmts_ids_contains(pre, x);
        lemma_concat_contains(stmts_ids(pre), stmt_ids(ss.last()), x);
        if stmts_ids(ss).contains(x) {
            if stmts_ids(pre).contains(x) {
                let i = choose|i: int| 0 <= i < pre.len() && (#[trigger] stmt_ids(pre[i])).contains(x);
                assert(pre[i] == ss[i]);
            } else {
                assert(stmt_ids(ss[ss.len() - 1]).contains(x));
            }
        }
        if exists|i: int| 0 <= i < ss.len() && (#[trigger] stmt_ids(ss[i])).contains(x) {
            let i = choose|i: int| 0 <= i < ss.len() && (#[trigger] stmt_ids(ss[i])).contains(x);
            if i < ss.len() - 1 {
                assert(pre[i] == ss[i]);
            }
        }
    }
}

/// Recording the distance of `id` leaves the entries of other ids alone.
proof fn lemma_local_keeps_others(st: RState, name: Option<Seq<char>>, id: usize, k: usize)
    requires
        k != id,
    ensures
        r_local(st, name, id).locals.get(k) == st.locals.get(k),
{
    match name {
        Some(n) => match depth_of(st.scopes, n) {
            Some(d) => {
                assert(r_local(st, name, id).locals == st.locals.insert(id, d as usize));
            },
            None => {},
        },
        None => {},
    }
}

/// A variable use records a distance for its own id only.
proof fn lemma_variable_records_own_id(st: RState, token: Token, id: usize, k: usize)
    requires
        k != id,
    ensures
        r_expr(st, SExpr::Variable { token, id }).locals.get(k) == st.locals.get(k),
{
    if let Some(n) = name_of(token) {
        if !in_own_initializer(st, n) {
            lemma_local_keeps_others(st, Some(n), id, k);
        }
    }
}

/// Law: resolving an expression records distances only for the ids of its
/// own variables and assignments; every other entry stays as it was.
pub proof fn lemma_expr_records_own_ids(st: RState, e: SExpr)
    ensures
        same_outside(st.locals, r_expr(st, e).locals, expr_ids(e)),
    decreases e,
{
    match e {
        SExpr::Assign { token, value, id } => {
            lemma_expr_records_own_ids(st, *value);
            assert forall|k: usize| !expr_ids(e).contains(k as nat) implies #[trigger] r_expr(
                st,
                e,
            ).locals.get(k) == st.locals.get(k) by {
                assert(expr_ids(e) == expr_ids(*value).push(id as nat));
                if expr_ids(*value).contains(k as nat) {
                    let i = choose|i: int|
                        0 <= i < expr_ids(*value).len() && expr_ids(*value)[i] == k as nat;
                    assert(expr_ids(e)[i] == k as nat);
                }
                assert(expr_ids(e)[expr_ids(e).len() - 1] == id as nat);
                let st1 = r_expr(st, *value);
                assert(st1.locals.get(k) == st.locals.get(k));
                lemma_local_keeps_others(st1, name_of(token), id, k);
            }
        },
        SExpr::Binary { left, op: _, right } => {
            lemma_expr_records_own_ids(st, *left);
            lemma_expr_records_own_ids(r_expr(st, *left), *right);
            assert forall|k: usize| !expr_ids(e).contains(k as nat) implies #[trigger] r_expr(
                st,
                e,
            ).locals.get(k) == st.locals.get(k) by {
                lemma_concat_contains(expr_ids(*left), expr_ids(*right), k as nat);
            }
        },
        SExpr::Logical { left, op: _, right } => {
            lemma_expr_records_own_ids(st, *left);
            lemma_expr_records_own_ids(r_expr(st, *left), *right);
            assert forall|k: usize| !expr_ids(e).contains(k as nat) implies #[trigger] r_expr(
                st,
                e,
            ).locals.get(k) == st.locals.get(k) by {
                lemma_concat_contains(expr_ids(*left), expr_ids(*right), k as nat);
            }
        },
        SExpr::Call { callie, paren: _, args } => {
            lemma_expr_records_own_ids(st, *callie);
            lemma_exprs_record_own_ids(r_expr(st, *callie), args);
            assert forall|k: usize| !expr_ids(e).contains(k as nat) implies #[trigger] r_expr(
                st,
                e,
            ).locals.get(k) == st.locals.get(k) by {
                lemma_concat_contains(expr_ids(*callie), exprs_ids(args), k as nat);
            }
        },
        SExpr::Group { value } => lemma_expr_records_own_ids(st, *value),
        SExpr::Unary { op: _, expr } => lemma_expr_records_own_ids(st, *expr),
        SExpr::Variable { token, id } => {
            assert forall|k: usize| !expr_ids(e).contains(k as nat) implies #[trigger] r_expr(
                st,
                e,
            ).locals.get(k) == st.locals.get(k) by {
                assert(expr_ids(e)[0] == id as nat);
                lemma_variable_records_own_id(st, token, id, k);
            }
        },
        _ => {},
    }
}

/// Resolving expressions in order records distances only for their ids.
pub proof fn lemma_exprs_record_own_ids(st: RState, es: Seq<SExpr>)
    ensures
        same_outside(st.locals, r_exprs(st, es).locals, exprs_ids(es)),
    decreases es,
{
    if es.len() > 0 {
        let rest = es.subrange(1, es.len() as int);
        lemma_expr_records_own_ids(st, es[0]);
        lemma_exprs_record_own_ids(r_expr(st, es[0]), rest);
        assert forall|k: usize| !exprs_ids(es).contains(k as nat) implies #[trigger] r_exprs(
            st,
            es,
        ).locals.get(k) == st.locals.get(k) by {
            lemma_exprs_ids_contains(es, k as nat);
            lemma_exprs_ids_contains(rest, k as nat);
            if exprs_ids(rest).contains(k as nat) {
                let i = choose|i: int|
                    0 <= i < rest.len() && (#[trigger] expr_ids(rest[i])).contains(k as nat);
                assert(rest[i] == es[i + 1]);
            }
            assert(!expr_ids(es[0]).contains(k as nat));
        }
    }
}

/// Declaring parameters records nothing.
proof fn lemma_params_locals(st: RState, params: Seq<Token>)
    ensures
        r_params(st, params).locals == st.locals,
    decreases params.len(),
{
    if params.len() > 0 {
        let n = match name_of(params[0]) {
            Some(n) => n,
            None => seq![],
        };
        lemma_params_locals(r_define(r_declare(st, n), n), params.subrange(1, params.len() as int));
    }
}

/// Law: resolving a statement records distances only for the ids of the
/// variables and assignments in it; every other entry stays as it was.
pub proof fn lemma_stmt_records_own_ids(st: RState, s: SStmt)
    ensures
        same_outside(st.locals, r_stmt(st, s).locals, stmt_ids(s)),
    decreases s,
{
    match s {
        SStmt::Block { stmts } => {
            lemma_stmts_record_own_ids(r_begin(st), stmts);
        },
        SStmt::Variable { op, expr } => {
            let n = match name_of(op) {
                Some(n) => n,
                None => seq![],
            };
            match expr {
                Some(x) => lemma_expr_records_own_ids(r_declare(st, n), x),
                None => {},
            }
        },
        SStmt::Function_Decl { name, params, body } => {
            let n = match name_of(name) {
                Some(n) => n,
                None => seq![],
            };
            let st1 = r_begin(r_define(r_declare(st, n), n));
            lemma_params_locals(st1, params);
            lemma_stmts_record_own_ids(r_params(st1, params), body);
        },
        SStmt::Expr { expr } => lemma_expr_records_own_ids(st, expr),
        SStmt::If { condition, then_branch, else_branch } => {
            lemma_expr_records_own_ids(st, condition);
            let st1 = r_expr(st, condition);
            lemma_stmt_records_own_ids(st1, *then_branch);
            let eids: Seq<nat> = match else_branch {
                Some(b) => stmt_ids(*b),
                None => seq![],
            };
            match else_branch {
                Some(b) => lemma_stmt_records_own_ids(r_stmt(st1, *then_branch), *b),
                None => {},
            }
            assert forall|k: usize| !stmt_ids(s).contains(k as nat) implies #[trigger] r_stmt(
                st,
                s,
            ).locals.get(k) == st.locals.get(k) by {
                lemma_concat_contains(
                    expr_ids(condition) + stmt_ids(*then_branch),
                    eids,
                    k as nat,
                );
                lemma_concat_contains(expr_ids(condition), stmt_ids(*then_branch), k as nat);
            }
        },
        SStmt::Print { expr } => lemma_expr_records_own_ids(st, expr),
        SStmt::Return { token: _, value } => lemma_expr_records_own_ids(st, value),
        SStmt::While { condition, stmts, finally } => {
            lemma_expr_records_own_ids(st, condition);
            lemma_stmt_records_own_ids(r_expr(st, condition), *stmts);
            let fids: Seq<nat> = match finally {
                Some(x) => expr_ids(x),
                None => seq![],
            };
            assert forall|k: usize| !stmt_ids(s).contains(k as nat) implies #[trigger] r_stmt(
                st,
                s,
            ).locals.get(k) == st.locals.get(k) by {
                lemma_concat_contains(expr_ids(condition) + fids, stmt_ids(*stmts), k as nat);
                lemma_concat_contains(expr_ids(condition), fids, k as nat);
            }
        },
        _ => {},
    }
}

/// Resolving statements in order records distances only for their ids.
pub proof fn lemma_stmts_record_own_ids(st: RState, ss: Seq<SStmt>)
    ensures
        same_outside(st.locals, r_stmts(st, ss).locals, stmts_ids(ss)),
    decreases ss,
{
    if ss.len() > 0 {
        let rest = ss.subrange(1, ss.len() as int);
        lemma_stmt_records_own_ids(st, ss[0]);
        lemma_stmts_record_own_ids(r_stmt(st, ss[0]), rest);
        assert forall|k: usize| !stmts_ids(ss).contains(k as nat) implies #[trigger] r_stmts(
            st,
            ss,
        ).locals.get(k) == st.locals.get(k) by {
            lemma_stmts_ids_contains(ss, k as nat);
            lemma_stmts_ids_contains(rest, k as nat);
            if stmts_ids(rest).contains(k as nat) {
                let i = choose|i: int|
                    0 <= i < rest.len() && (#[trigger] stmt_ids(rest[i])).contains(k as nat);
                assert(rest[i] == ss[i + 1]);
            }
            assert(!stmt_ids(ss[0]).contains(k as nat));
        }
    }
}

/// Whether `name` is in the scope `vars`, and whether it is defined there.
pub open spec fn scope_get(vars: Seq<(Seq<char>, bool)>, name: Seq<char>) -> Option<bool> {
    frame_get(Frame { enclosing: None, vars }, name)
}

/// The name a declaration binds (its lexeme).
pub open spec fn decl_name(t: Token) -> Seq<char> {
    match name_of(t) {
        Some(n) => n,
        None => seq![],
    }
}

/// The names a statement declares in the scope it is resolved in: those of
/// its variable and function declarations outside any block or function
/// body, branches of `if` and bodies of `while` included.
pub open spec fn declared_names(s: SStmt) -> Seq<Seq<char>>
    decreases s,
{
    match s {
        SStmt::Variable { op, expr: _ } => seq![decl_name(op)],
        SStmt::Function_Decl { name, params: _, body: _ } => seq![decl_name(name)],
        SStmt::If { condition: _, then_branch, else_branch } => declared_names(*then_branch)
            + match else_branch {
            Some(b) => declared_names(*b),
            None => seq![],
        },
        SStmt::While { condition: _, stmts, finally: _ } => declared_names(*stmts),
        _ => seq![],
    }
}

/// Resolving `s` from `st` leaves every scope but the innermost as it was,
/// and in the innermost one binds each name of `names` as defined, keeping
/// every other name as it was.
pub open spec fn declares(st: RState, st2: RState, names: Seq<Seq<char>>) -> bool {
    &&& outer_scopes_kept(st, st2)
    &&& distinct_names(st2.scopes.last())
    &&& forall|n: Seq<char>| #[trigger]
        scope_get(st2.scopes.last(), n) == if names.contains(n) {
            Some(true)
        } else {
            scope_get(st.scopes.last(), n)
        }
}

/// Marking a name in the innermost scope binds it there and keeps the rest.
proof fn lemma_mark_declares(st: RState, name: Seq<char>, done: bool)
    requires
        st.scopes.len() >= 1,
        distinct_names(st.scopes.last()),
    ensures
        outer_scopes_kept(st, r_mark(st, name, done)),
        distinct_names(r_mark(st, name, done).scopes.last()),
        forall|n: Seq<char>| #[trigger]
            scope_get(r_mark(st, name, done).scopes.last(), n) == if n == name {
                Some(done)
            } else {
                scope_get(st.scopes.last(), n)
            },
{
    lemma_set_var(st.scopes.last(), name, done);
    assert(r_mark(st, name, done).scopes.last() == set_var(st.scopes.last(), name, done));
}

/// Law: resolving a statement adds to the innermost scope exactly the names
/// it declares outside blocks and function bodies, marked defined; every
/// other name there keeps its entry, and every outer scope, and the number
/// of scopes, are kept (the scopes of blocks and functions are closed
/// again).
pub proof fn lemma_stmt_declares(st: RState, s: SStmt)
    requires
        st.scopes.len() >= 1,
        distinct_names(st.scopes.last()),
    ensures
        declares(st, r_stmt(st, s), declared_names(s)),
    decreases s,
{
    lemma_stmt_keeps_outer_scopes(st, s);
    let k = st.scopes.len() - 1;
    match s {
        SStmt::Block { stmts } => {
            lemma_block_restores_scopes(st, stmts);
        },
        SStmt::Variable { op, expr } => {
            let n = decl_name(op);
            let st1 = r_declare(st, n);
            lemma_mark_declares(st, n, false);
            let st2 = match expr {
                Some(e) => r_expr(st1, e),
                None => st1,
            };
            match expr {
                Some(e) => lemma_expr_keeps_scopes(st1, e),
                None => {},
            }
            lemma_mark_declares(st2, n, true);
            assert forall|m: Seq<char>| #[trigger]
                scope_get(r_stmt(st, s).scopes.last(), m) == if seq![n].contains(m) {
                    Some(true)
                } else {
                    scope_get(st.scopes.last(), m)
                } by {
                if m == n {
                    assert(seq![n][0] == m);
                } else {
                    assert(!seq![n].contains(m));
                }
            }
        },
        SStmt::Function_Decl { name, params, body } => {
            let n = decl_name(name);
            let st1 = r_declare(st, n);
            lemma_mark_declares(st, n, false);
            let st2 = r_define(st1, n);
            lemma_mark_declares(st1, n, true);
            lemma_function_restores_scopes(st2, params, body);
            assert forall|m: Seq<char>| #[trigger]
                scope_get(r_stmt(st, s).scopes.last(), m) == if seq![n].contains(m) {
                    Some(true)
                } else {
                    scope_get(st.scopes.last(), m)
                } by {
                if m == n {
                    assert(seq![n][0] == m);
                } else {
                    assert(!seq![n].contains(m));
                }
            }
        },
        SStmt::Expr { expr } => {
            lemma_expr_keeps_scopes(st, expr);
        },
        SStmt::Print { expr } => {
            lemma_expr_keeps_scopes(st, expr);
        },
        SStmt::Return { token: _, value } => {
            lemma_expr_keeps_scopes(st, value);
        },
        SStmt::If { condition, then_branch, else_branch } => {
            lemma_expr_keeps_scopes(st, condition);
            let st1 = r_expr(st, condition);
            lemma_stmt_declares(st1, *then_branch);
            let st2 = r_stmt(st1, *then_branch);
            let a = declared_names(*then_branch);
            match else_branch {
                Some(b) => {
                    lemma_stmt_declares(st2, *b);
                    let bn = declared_names(*b);
                    assert forall|m: Seq<char>| #[trigger]
                        scope_get(r_stmt(st, s).scopes.last(), m) == if (a + bn).contains(m) {
                            Some(true)
                        } else {
                            scope_get(st.scopes.last(), m)
                        } by {
                        lemma_concat_contains(a, bn, m);
                        assert(scope_get(st2.scopes.last(), m) == if a.contains(m) {
                            Some(true)
                        } else {
                            scope_get(st1.scopes.last(), m)
                        });
                    }
                },
                None => {
                    assert(a + Seq::<Seq<char>>::empty() =~= a);
                },
            }
        },
        SStmt::While { condition, stmts, finally: _ } => {
            lemma_expr_keeps_scopes(st, condition);
            lemma_stmt_declares(r_expr(st, condition), *stmts);
        },
        _ => {},
    }
}

/// Law: resolving statements in order adds to the innermost scope exactly
/// the names they declare outside blocks and function bodies, marked
/// defined, and keeps everything else.
pub proof fn lemma_stmts_declare(st: RState, ss: Seq<SStmt>)
    requires
        st.scopes.len() >= 1,
        distinct_names(st.scopes.last()),
    ensures
        declares(st, r_stmts(st, ss), stmts_declared(ss)),
    decreases ss,
{
    if ss.len() == 0 {
        assert(stmts_declared(ss) =~= Seq::<Seq<char>>::empty());
    } else {
        let rest = ss.subrange(1, ss.len() as int);
        lemma_stmt_declares(st, ss[0]);
        let st1 = r_stmt(st, ss[0]);
        lemma_stmts_declare(st1, rest);
        lemma_stmts_keep_outer_scopes(st, ss);
        let a = declared_names(ss[0]);
        let b = stmts_declared(rest);
        assert(stmts_declared(ss) == a + b);
        assert forall|m: Seq<char>| #[trigger]
            scope_get(r_stmts(st, ss).scopes.last(), m) == if (a + b).contains(m) {
                Some(true)
            } else {
                scope_get(st.scopes.last(), m)
            } by {
            lemma_concat_contains(a, b, m);
            assert(scope_get(st1.scopes.last(), m) == if a.contains(m) {
                Some(true)
            } else {
                scope_get(st.scopes.last(), m)
            });
        }
    }
}

/// The names a list of statements declares, in order.
pub open spec fn stmts_declared(ss: Seq<SStmt>) -> Seq<Seq<char>>
    decreases ss.len(),
{
    if ss.len() == 0 {
        seq![]
    } else {
        declared_names(ss[0]) + stmts_declared(ss.subrange(1, ss.len() as int))
    }
}

/// A variable use or assignment that resolution visits in an expression:
/// its id and its name, left to right (an assignment after its value). The
/// resolver does not look inside property reads and writes.
pub open spec fn var_uses(e: SExpr) -> Seq<(usize, Option<Seq<char>>)>
    decreases e,
{
    match e {
        SExpr::Variable { token, id } => seq![(id, name_of(token))],
        SExpr::Assign { token, value, id } => var_uses(*value).push((id, name_of(token))),
        SExpr::Binary { left, op: _, right } => var_uses(*left) + var_uses(*right),
        SExpr::Logical { left, op: _, right } => var_uses(*left) + var_uses(*right),
        SExpr::Call { callie, paren: _, args } => var_uses(*callie) + args_uses(args),
        SExpr::Group { value } => var_uses(*value),
        SExpr::Unary { op: _, expr } => var_uses(*expr),
        _ => seq![],
    }
}

/// The variable uses of a list of expressions, in order.
pub open spec fn args_uses(es: Seq<SExpr>) -> Seq<(usize, Option<Seq<char>>)>
    decreases es,
{
    if es.len() == 0 {
        seq![]
    } else {
        var_uses(es[0]) + args_uses(es.subrange(1, es.len() as int))
    }
}

/// No two uses share an id.
pub open spec fn uses_distinct(u: Seq<(usize, Option<Seq<char>>)>) -> bool {
    forall|i: int, j: int| 0 <= i < j < u.len() ==> #[trigger] u[i].0 != #[trigger] u[j].0
}

/// Some use has id `k`.
pub open spec fn uses_id(u: Seq<(usize, Option<Seq<char>>)>, k: usize) -> bool {
    exists|i: int| 0 <= i < u.len() && #[trigger] u[i].0 == k
}

/// No named use is of a name declared but not yet defined in the innermost
/// scope.
pub open spec fn none_in_own_initializer(st: RState, u: Seq<(usize, Option<Seq<char>>)>) -> bool {
    forall|i: int|
        0 <= i < u.len() ==> ((#[trigger] u[i]).1 matches Some(n) ==> !in_own_initializer(st, n))
}

/// The entry a use of `name` with id `id` should have: the number of scopes
/// out to the innermost scope that holds the name, or what it had where no
/// scope holds it.
pub open spec fn resolved_entry(st: RState, name: Seq<char>, id: usize) -> Option<usize> {
    match depth_of(st.scopes, name) {
        Some(d) => Some(d as usize),
        None => st.locals.get(id),
    }
}

/// `r` is `st` after resolving the uses `u`: the scopes are kept, entries of
/// other ids are kept, and, where the ids are distinct and no use reads a
/// variable in its own initializer, nothing is reported and each named use
/// has its resolved entry.
pub open spec fn resolves(st: RState, r: RState, u: Seq<(usize, Option<Seq<char>>)>) -> bool {
    &&& r.scopes == st.scopes
    &&& forall|k: usize| !uses_id(u, k) ==> #[trigger] r.locals.get(k) == st.locals.get(k)
    &&& uses_distinct(u) && none_in_own_initializer(st, u) ==> {
        &&& r.errors == st.errors
        &&& forall|i: int|
            0 <= i < u.len() && u[i].1 is Some ==> #[trigger] r.locals.get(u[i].0)
                == resolved_entry(st, u[i].1->0, u[i].0)
    }
}

/// Resolving uses `a` then uses `b` resolves `a + b`.
proof fn lemma_resolves_concat(
    st: RState,
    st1: RState,
    st2: RState,
    a: Seq<(usize, Option<Seq<char>>)>,
    b: Seq<(usize, Option<Seq<char>>)>,
)
    requires
        resolves(st, st1, a),
        resolves(st1, st2, b),
    ensures
        resolves(st, st2, a + b),
{
    let u = a + b;
    assert forall|k: usize| !uses_id(u, k) implies #[trigger] st2.locals.get(k) == st.locals.get(
        k,
    ) by {
        if uses_id(a, k) {
            let i = choose|i: int| 0 <= i < a.len() && #[trigger] a[i].0 == k;
            assert(u[i] == a[i]);
        }
        if uses_id(b, k) {
            let i = choose|i: int| 0 <= i < b.len() && #[trigger] b[i].0 == k;
            assert(u[a.len() + i] == b[i]);
        }
        assert(st1.locals.get(k) == st.locals.get(k));
    }
    if uses_distinct(u) && none_in_own_initializer(st, u) {
        assert(uses_distinct(a)) by {
            assert forall|i: int, j: int| 0 <= i < j < a.len() implies #[trigger] a[i].0
                != #[trigger] a[j].0 by {
                assert(u[i] == a[i] && u[j] == a[j]);
            }
        }
        assert(uses_distinct(b)) by {
            assert forall|i: int, j: int| 0 <= i < j < b.len() implies #[trigger] b[i].0
                != #[trigger] b[j].0 by {
                assert(u[a.len() + i] == b[i] && u[a.len() + j] == b[j]);
            }
        }
        assert(none_in_own_initializer(st, a)) by {
            assert forall|i: int| 0 <= i < a.len() implies ((#[trigger] a[i]).1 matches Some(n)
                ==> !in_own_initializer(st, n)) by {
                assert(u[i] == a[i]);
            }
        }
        assert(none_in_own_initializer(st1, b)) by {
            assert forall|i: int| 0 <= i < b.len() implies ((#[trigger] b[i]).1 matches Some(n)
                ==> !in_own_initializer(st1, n)) by {
                assert(u[a.len() + i] == b[i]);
            }
        }
        assert forall|i: int| 0 <= i < u.len() && u[i].1 is Some implies #[trigger] st2.locals.get(
            u[i].0,
        ) == resolved_entry(st, u[i].1->0, u[i].0) by {
            if i < a.len() {
                assert(u[i] == a[i]);
                assert(!uses_id(b, a[i].0)) by {
                    if uses_id(b, a[i].0) {
                        let j = choose|j: int| 0 <= j < b.len() && #[trigger] b[j].0 == a[i].0;
                        assert(u[a.len() + j] == b[j]);
                    }
                }
                assert(st1.locals.get(a[i].0) == resolved_entry(st, a[i].1->0, a[i].0));
            } else {
                let j = i - a.len();
                assert(u[i] == b[j]);
                assert(!uses_id(a, b[j].0)) by {
                    if uses_id(a, b[j].0) {
                        let m = choose|m: int| 0 <= m < a.len() && #[trigger] a[m].0 == b[j].0;
                        assert(u[m] == a[m]);
                    }
                }
                assert(st1.locals.get(b[j].0) == st.locals.get(b[j].0));
                assert(st2.locals.get(b[j].0) == resolved_entry(st1, b[j].1->0, b[j].0));
            }
        }
    }
}

/// Recording one use resolves it.
proof fn lemma_local_resolves(st: RState, name: Option<Seq<char>>, id: usize)
    ensures
        resolves(st, r_local(st, name, id), seq![(id, name)]),
{
    let u = seq![(id, name)];
    let r = r_local(st, name, id);
    assert forall|k: usize| !uses_id(u, k) implies #[trigger] r.locals.get(k) == st.locals.get(k) by {
        assert(u[0].0 == id);
        lemma_local_keeps_others(st, name, id, k);
    }
}

/// Law: resolving an expression resolves every variable use and assignment
/// in it: each named use whose name some scope holds gets the number of
/// scopes out to the innermost such scope, nothing else changes, and nothing
/// is reported, wherever the ids are distinct and no variable is read in its
/// own initializer. The scopes are kept in any case.
pub proof fn lemma_expr_resolves_uses(st: RState, e: SExpr)
    ensures
        resolves(st, r_expr(st, e), var_uses(e)),
    decreases e,
{
    match e {
        SExpr::Variable { token, id } => {
            match name_of(token) {
                Some(n) => {
                    if in_own_initializer(st, n) {
                        let u = var_uses(e);
                        assert(u[0] == (id, name_of(token)));
                        assert(!none_in_own_initializer(st, u));
                    } else {
                        lemma_local_resolves(st, Some(n), id);
                    }
                },
                None => {
                    lemma_local_resolves(st, None, id);
                },
            }
        },
        SExpr::Assign { token, value, id } => {
            lemma_expr_resolves_uses(st, *value);
            let st1 = r_expr(st, *value);
            lemma_local_resolves(st1, name_of(token), id);
            lemma_resolves_concat(st, st1, r_expr(st, e), var_uses(*value), seq![(id, name_of(token))]);
            assert(var_uses(*value).push((id, name_of(token))) =~= var_uses(*value) + seq![(id, name_of(token))]);
        },
        SExpr::Binary { left, op: _, right } => {
            lemma_expr_resolves_uses(st, *left);
            lemma_expr_resolves_uses(r_expr(st, *left), *right);
            lemma_resolves_concat(st, r_expr(st, *left), r_expr(st, e), var_uses(*left), var_uses(*right));
        },
        SExpr::Logical { left, op: _, right } => {
            lemma_expr_resolves_uses(st, *left);
            lemma_expr_resolves_uses(r_expr(st, *left), *right);
            lemma_resolves_concat(st, r_expr(st, *left), r_expr(st, e), var_uses(*left), var_uses(*right));
        },
        SExpr::Call { callie, paren: _, args } => {
            lemma_expr_resolves_uses(st, *callie);
            lemma_exprs_resolve_uses(r_expr(st, *callie), args);
            lemma_resolves_concat(st, r_expr(st, *callie), r_expr(st, e), var_uses(*callie), args_uses(args));
        },
        SExpr::Group { value } => lemma_expr_resolves_uses(st, *value),
        SExpr::Unary { op: _, expr } => lemma_expr_resolves_uses(st, *expr),
        _ => {},
    }
}

/// Law: resolving expressions in order resolves every use in them, as for
/// one expression.
pub proof fn lemma_exprs_resolve_uses(st: RState, es: Seq<SExpr>)
    ensures
        resolves(st, r_exprs(st, es), args_uses(es)),
    decreases es,
{
    if es.len() > 0 {
        let rest = es.subrange(1, es.len() as int);
        lemma_expr_resolves_uses(st, es[0]);
        lemma_exprs_resolve_uses(r_expr(st, es[0]), rest);
        lemma_resolves_concat(st, r_expr(st, es[0]), r_exprs(st, es), var_uses(es[0]), args_uses(rest));
    }
}

/// Whether an expression reads and writes no property and names no `this`.
pub open spec fn plain_expr(e: SExpr) -> bool
    decreases e,
{
    match e {
        SExpr::Get { .. } => false,
        SExpr::SetField { .. } => false,
        SExpr::This { .. } => false,
        SExpr::Assign { token: _, value, id: _ } => plain_expr(*value),
        SExpr::Binary { left, op: _, right } => plain_expr(*left) && plain_expr(*right),
        SExpr::Logical { left, op: _, right } => plain_expr(*left) && plain_expr(*right),
        SExpr::Call { callie, paren: _, args } => plain_expr(*callie) && forall|i: int|
            0 <= i < args.len() ==> plain_expr(#[trigger] args[i]),
        SExpr::Group { value } => plain_expr(*value),
        SExpr::Unary { op: _, expr } => plain_expr(*expr),
        _ => true,
    }
}

/// The ids of uses, in order.
pub open spec fn uses_ids(u: Seq<(usize, Option<Seq<char>>)>) -> Seq<nat> {
    u.map_values(|p: (usize, Option<Seq<char>>)| p.0 as nat)
}

/// The ids of a nonempty list of expressions: those of the first, then
/// those of the rest.
proof fn lemma_exprs_ids_first(es: Seq<SExpr>)
    requires
        es.len() > 0,
    ensures
        exprs_ids(es) == expr_ids(es[0]) + exprs_ids(es.subrange(1, es.len() as int)),
    decreases es.len(),
{
    let rest = es.subrange(1, es.len() as int);
    if es.len() == 1 {
        assert(es.drop_last().len() == 0);
        assert(exprs_ids(es.drop_last()) == Seq::<nat>::empty());
        assert(rest.len() == 0);
        assert(exprs_ids(rest) == Seq::<nat>::empty());
        assert(es.last() == es[0]);
        assert(exprs_ids(es) =~= expr_ids(es[0]) + exprs_ids(rest));
    } else {
        let pre = es.drop_last();
        lemma_exprs_ids_first(pre);
        assert(pre[0] == es[0]);
        assert(rest.drop_last() =~= pre.subrange(1, pre.len() as int));
        assert(rest.last() == es.last());
        assert(exprs_ids(es) =~= expr_ids(es[0]) + exprs_ids(rest));
    }
}

/// The ids of two lists of uses together.
proof fn lemma_uses_ids_concat(a: Seq<(usize, Option<Seq<char>>)>, b: Seq<(usize, Option<Seq<char>>)>)
    ensures
        uses_ids(a + b) == uses_ids(a) + uses_ids(b),
{
    assert(uses_ids(a + b) =~= uses_ids(a) + uses_ids(b));
}

/// Law: in an expression that touches no property and no `this`,
/// resolution visits every variable use and assignment: the ids of the uses
/// it resolves are, in order, the ids of the expression.
pub proof fn lemma_uses_are_ids(e: SExpr)
    requires
        plain_expr(e),
    ensures
        uses_ids(var_uses(e)) == expr_ids(e),
    decreases e,
{
    match e {
        SExpr::Variable { token, id } => {
            assert(uses_ids(var_uses(e)) =~= seq![id as nat]);
        },
        SExpr::Assign { token, value, id } => {
            lemma_uses_are_ids(*value);
            assert(var_uses(e) =~= var_uses(*value) + seq![(id, name_of(token))]);
            lemma_uses_ids_concat(var_uses(*value), seq![(id, name_of(token))]);
            assert(uses_ids(seq![(id, name_of(token))]) =~= seq![id as nat]);
            assert(expr_ids(e) =~= expr_ids(*value) + seq![id as nat]);
        },
        SExpr::Binary { left, op: _, right } => {
            lemma_uses_are_ids(*left);
            lemma_uses_are_ids(*right);
            lemma_uses_ids_concat(var_uses(*left), var_uses(*right));
        },
        SExpr::Logical { left, op: _, right } => {
            lemma_uses_are_ids(*left);
            lemma_uses_are_ids(*right);
            lemma_uses_ids_concat(var_uses(*left), var_uses(*right));
        },
        SExpr::Call { callie, paren: _, args } => {
            lemma_uses_are_ids(*callie);
            lemma_args_are_ids(args);
            lemma_uses_ids_concat(var_uses(*callie), args_uses(args));
        },
        SExpr::Group { value } => lemma_uses_are_ids(*value),
        SExpr::Unary { op: _, expr } => lemma_uses_are_ids(*expr),
        SExpr::Literal { .. } => {
            assert(uses_ids(var_uses(e)) =~= seq![]);
        },
        _ => {},
    }
}

/// Law: as for one expression, for a list of them.
pub proof fn lemma_args_are_ids(es: Seq<SExpr>)
    requires
        forall|i: int| 0 <= i < es.len() ==> plain_expr(#[trigger] es[i]),
    ensures
        uses_ids(args_uses(es)) == exprs_ids(es),
    decreases es,
{
    if es.len() == 0 {
        assert(uses_ids(args_uses(es)) =~= seq![]);
    } else {
        let rest = es.subrange(1, es.len() as int);
        lemma_uses_are_ids(es[0]);
        assert forall|i: int| 0 <= i < rest.len() implies plain_expr(#[trigger] rest[i]) by {
            assert(rest[i] == es[i + 1]);
        }
        lemma_args_are_ids(rest);
        lemma_uses_ids_concat(var_uses(es[0]), args_uses(rest));
        lemma_exprs_ids_first(es);
    }
}

/// The mathematical form of a scope.
pub open spec fn scope_view(s: Vec<(String, bool)>) -> Seq<(Seq<char>, bool)> {
    s@.map_values(|p: (String, bool)| (p.0@, p.1))
}

/// Computes, for each variable use and assignment, how many scopes out its
/// name is found; the interpreter reads the variable that many environments out.
pub struct Resolver {
    scopes: Vec<Vec<(String, bool)>>,
    /// The scope distance of each resolved variable id.
    pub locals: HashMap<usize, usize>,
    /// The reports, in the order they were found.
    pub errors: Vec<ResolveError>,
}

impl Resolver {
    /// The resolver's state.
    pub closed spec fn rstate(&self) -> RState {
        RState {
            scopes: self.scopes@.map_values(|s: Vec<(String, bool)>| scope_view(s)),
            locals: self.locals@,
            errors: self.errors@.len(),
        }
    }

    /// Every scope holds each name at most once.
    pub open spec fn wf(&self) -> bool {
        forall|i: int| 0 <= i < self.rstate().scopes.len() ==> distinct_names(#[trigger] self.rstate().scopes[i])
    }

    /// A resolver with one (global) scope and nothing resolved.
    pub fn new() -> (r: Self)
        ensures
            r.wf(),
            r.rstate() == (RState { scopes: seq![seq![]], locals: Map::empty(), errors: 0 }),
    {
        let mut scopes: Vec<Vec<(String, bool)>> = Vec::new();
        scopes.push(Vec::new());
        let r = Resolver { scopes, locals: HashMap::new(), errors: Vec::new() };
        assert(r.rstate().scopes =~= seq![seq![]]) by {
            assert(scope_view(r.scopes@[0]) =~= seq![]);
        }
        r
    }

    /// The scope at index `k`, as a sequence.
    proof fn lemma_scope(&self, k: int)
        requires
            0 <= k < self.scopes@.len(),
        ensures
            self.rstate().scopes.len() == self.scopes@.len(),
            self.rstate().scopes[k] == scope_view(self.scopes@[k]),
            self.rstate().scopes[k].len() == self.scopes@[k]@.len(),
            forall|i: int|
                0 <= i < self.scopes@[k]@.len() ==> #[trigger] self.rstate().scopes[k][i] == (
                    self.scopes@[k]@[i].0@,
                    self.scopes@[k]@[i].1,
                ),
    {
    }

    /// The index of `name` in the scope at index `k`.
    fn find(&self, k: usize, name: &String) -> (r: Option<usize>)
        requires
            self.wf(),
            k < self.rstate().scopes.len(),
        ensures
            r matches Some(i) ==> find_var(self.rstate().scopes[k as int], name@) == Some(i as int)
                && i < self.rstate().scopes[k as int].len(),
            r is None ==> find_var(self.rstate().scopes[k as int], name@) is None,
    {
        let ghost sv = self.rstate().scopes[k as int];
        proof {
            self.lemma_scope(k as int);
        }
        let mut i: usize = 0;
        while i < self.scopes[k].len()
            invariant
                self.wf(),
                k < self.rstate().scopes.len(),
                sv == self.rstate().scopes[k as int],
                i <= self.scopes@[k as int]@.len(),
                sv.len() == self.scopes@[k as int]@.len(),
                distinct_names(sv),
                forall|j: int| 0 <= j < i ==> sv[j].0 != name@,
            decreases self.scopes@[k as int]@.len() - i,
        {
            proof {
                self.lemma_scope(k as int);
            }
            if self.scopes[k][i].0 == *name {
                proof {
                    assert(sv[i as int].0 == name@);
                    assert(find_var(sv, name@) == Some(i as int)) by {
                        let c = choose|c: int| 0 <= c < sv.len() && (#[trigger] sv[c]).0 == name@;
                        assert(c == i);
                    }
                }
                return Some(i);
            }
            i = i + 1;
        }
        None
    }

    /// Marks `name` as `done` in the innermost scope (nothing without one).
    fn mark(&mut self, name: &String, done: bool)
        requires
            old(self).wf(),
        ensures
            final(self).wf(),
            final(self).rstate() == r_mark(old(self).rstate(), name@, done),
    {
        if self.scopes.len() == 0 {
            return;
        }
        let k = self.scopes.len() - 1;
        let ghost st = self.rstate();
        proof {
            self.lemma_scope(k as int);
        }
        match self.find(k, name) {
            Some(i) => {
                self.scopes[k][i].1 = done;
                proof {
                    assert(self.scopes@[k as int]@[i as int].0@ == name@);
                }
            },
            None => {
                self.scopes[k].push((name.clone(), done));
            },
        }
        proof {
            let nv = set_var(st.scopes[k as int], name@, done);
            assert(scope_view(self.scopes@[k as int]) =~= nv);
            assert(self.rstate().scopes =~= st.scopes.update(k as int, nv));
            crate::environment::lemma_set_var_distinct(st.scopes[k as int], name@, done);
            assert forall|j: int| 0 <= j < self.rstate().scopes.len() implies distinct_names(
                #[trigger] self.rstate().scopes[j],
            ) by {
                if j != k {
                    assert(self.rstate().scopes[j] == st.scopes[j]);
                }
            }
        }
    }

    /// Declares `name` in the innermost scope.
    pub fn declare(&mut self, name: &String)
        requires
            old(self).wf(),
        ensures
            final(self).wf(),
            final(self).rstate() == r_declare(old(self).rstate(), name@),
    {
        if self.scopes.len() == 0 {
            return;
        }
        self.mark(name, false);
    }

    /// Defines `name` in the innermost scope.
    pub fn define(&mut self, name: &String)
        requires
            old(self).wf(),
        ensures
            final(self).wf(),
            final(self).rstate() == r_define(old(self).rstate(), name@),
    {
        if self.scopes.len() == 0 {
            return;
        }
        self.mark(name, true);
    }

    /// Opens a new innermost scope.
    pub fn begin_scope(&mut self)
        requires
            old(self).wf(),
        ensures
            final(self).wf(),
            final(self).rstate() == r_begin(old(self).rstate()),
    {
        let ghost st = self.rstate();
        self.scopes.push(Vec::new());
        proof {
            assert(scope_view(self.scopes@[self.scopes@.len() - 1]) =~= seq![]);
            assert(self.rstate().scopes =~= st.scopes.push(seq![]));
            assert forall|j: int| 0 <= j < self.rstate().scopes.len() implies distinct_names(
                #[trigger] self.rstate().scopes[j],
            ) by {
                if j < st.scopes.len() {
                    assert(self.rstate().scopes[j] == st.scopes[j]);
                }
            }
        }
    }

    /// Closes the innermost scope (nothing without one).
    pub fn end_scope(&mut self)
        requires
            old(self).wf(),
        ensures
            final(self).wf(),
            final(self).rstate() == r_end(old(self).rstate()),
    {
        let ghost st = self.rstate();
        self.scopes.pop();
        proof {
            if st.scopes.len() > 0 {
                assert(self.rstate().scopes =~= st.scopes.drop_last());
                assert forall|j: int| 0 <= j < self.rstate().scopes.len() implies distinct_names(
                    #[trigger] self.rstate().scopes[j],
                ) by {
                    assert(self.rstate().scopes[j] == st.scopes[j]);
                }
            }
        }
    }

    /// Records, for the variable `id` named by `token`, how many scopes out
    /// its name is found (nothing when no scope holds it).
    pub fn resolve_local(&mut self, token: Token, id: usize)
        requires
            old(self).wf(),
        ensures
            final(self).wf(),
            final(self).rstate() == r_local(old(self).rstate(), name_of(token), id),
    {
        if let Some(name) = &token.lexeme {
            let ghost scopes = self.rstate().scopes;
            let n = self.scopes.len();
            let mut depth: usize = 0;
            proof {
                assert(scopes.subrange(0, n as int) =~= scopes);
            }
            while depth < n
                invariant
                    self.wf(),
                    *self == *old(self),
                    scopes == self.rstate().scopes,
                    name_of(token) == Some(name@),
                    n == scopes.len(),
                    depth <= n,
                    depth_of(scopes, name@) == match depth_of(
                        scopes.subrange(0, n - depth),
                        name@,
                    ) {
                        Some(d) => Some((d + depth) as nat),
                        None => None::<nat>,
                    },
                decreases n - depth,
            {
                let k = n - 1 - depth;
                let ghost pre = scopes.subrange(0, n - depth);
                proof {
                    assert(pre.last() == scopes[k as int]);
                    assert(pre.drop_last() =~= scopes.subrange(0, n - depth - 1));
                }
                if self.find(k, name).is_some() {
                    proof {
                        assert(depth_of(pre, name@) == Some(0nat));
                        assert(depth_of(scopes, name@) == Some(depth as nat));
                    }
                    self.locals.insert(id, depth);
                    proof {
                        assert(self.rstate().locals == old(self).rstate().locals.insert(id, depth));
                        assert(self.rstate() == (RState { locals: old(self).rstate().locals.insert(id, depth), ..old(self).rstate() }));
                    }
                    return;
                }
                depth = depth + 1;
            }
            proof {
                assert(scopes.subrange(0, 0) =~= Seq::<Seq<(Seq<char>, bool)>>::empty());
            }
        }
    }

    /// Whether `name` is declared but not yet defined in the innermost scope.
    fn declared_only(&self, name: &String) -> (r: bool)
        requires
            self.wf(),
        ensures
            r == in_own_initializer(self.rstate(), name@),
    {
        if self.scopes.len() == 0 {
            return false;
        }
        let k = self.scopes.len() - 1;
        proof {
            self.lemma_scope(k as int);
        }
        match self.find(k, name) {
            Some(i) => {
                proof {
                    assert(self.rstate().scopes[k as int][i as int] == (
                        self.scopes@[k as int]@[i as int].0@,
                        self.scopes@[k as int]@[i as int].1,
                    ));
                }
                !self.scopes[k][i].1
            },
            None => false,
        }
    }

    /// Resolves an expression in place.
    fn expr_ref(&mut self, e: &Expr)
        requires
            old(self).wf(),
            names_ok_expr(e.sv(), old(self).rstate().scopes.len() > 0),
        ensures
            final(self).wf(),
            final(self).rstate() == r_expr(old(self).rstate(), e.sv()),
        decreases e,
    {
        match e {
            Expr::Variable { token, id } => {
                match &token.lexeme {
                    Some(name) => {
                        if self.declared_only(name) {
                            self.errors.push(ResolveError::ReadInOwnInitializer);
                            return;
                        }
                        self.resolve_local(token.clone(), *id);
                    },
                    None => {},
                }
            },
            Expr::Assign { token, value, id } => {
                self.expr_ref(value);
                self.resolve_local(token.clone(), *id);
            },
            Expr::Binary { left, op: _, right } => {
                let ghost st0 = self.rstate();
                self.expr_ref(left);
                proof {
                    lemma_expr_keeps_scopes(st0, (**left).sv());
                }
                self.expr_ref(right);
            },
            Expr::Logical { left, op: _, right } => {
                let ghost st0 = self.rstate();
                self.expr_ref(left);
                proof {
                    lemma_expr_keeps_scopes(st0, (**left).sv());
                }
                self.expr_ref(right);
            },
            Expr::Call { callie, paren: _, args } => {
                proof {
                    assert(e.sv()->args =~= exprs_sv(args@));
                    assert forall|i: int| 0 <= i < args@.len() implies names_ok_expr(
                        #[trigger] args@[i].sv(),
                        self.rstate().scopes.len() > 0,
                    ) by {
                        assert(e.sv()->args[i] == args@[i].sv());
                    }
                }
                let ghost st0 = self.rstate();
                self.expr_ref(callie);
                proof {
                    lemma_expr_keeps_scopes(st0, (**callie).sv());
                }
                self.exprs_ref(args);
            },
            Expr::Group { value } => {
                self.expr_ref(value);
            },
            Expr::Unary { op: _, expr } => {
                self.expr_ref(expr);
            },
            _ => {},
        }
    }

    /// Resolves expressions in order.
    fn exprs_ref(&mut self, args: &Vec<Expr>)
        requires
            old(self).wf(),
            forall|i: int|
                0 <= i < args@.len() ==> names_ok_expr(
                    #[trigger] args@[i].sv(),
                    old(self).rstate().scopes.len() > 0,
                ),
        ensures
            final(self).wf(),
            final(self).rstate() == r_exprs(old(self).rstate(), exprs_sv(args@)),
        decreases args,
    {
        let ghost full = exprs_sv(args@);
        let ghost st0 = self.rstate();
        proof {
            assert(full.subrange(0, full.len() as int) =~= full);
        }
        let mut i: usize = 0;
        while i < args.len()
            invariant
                self.wf(),
                i <= args@.len(),
                full == exprs_sv(args@),
                self.rstate().scopes.len() == st0.scopes.len(),
                forall|j: int|
                    0 <= j < args@.len() ==> names_ok_expr(
                        #[trigger] args@[j].sv(),
                        st0.scopes.len() > 0,
                    ),
                r_exprs(st0, full) == r_exprs(self.rstate(), full.subrange(i as int, full.len() as int)),
            decreases args@.len() - i,
        {
            proof {
                let rest = full.subrange(i as int, full.len() as int);
                assert(rest.subrange(1, rest.len() as int) =~= full.subrange(i + 1, full.len() as int));
                assert(rest[0] == args@[i as int].sv());
            }
            let ghost before = self.rstate();
            self.expr_ref(&args[i]);
            proof {
                lemma_expr_keeps_scopes(before, args@[i as int].sv());
            }
            i = i + 1;
        }
    }

    /// Declares and defines each parameter in the innermost scope.
    fn params(&mut self, params: &Vec<Token>)
        requires
            old(self).wf(),
            forall|i: int| 0 <= i < params@.len() ==> name_of(#[trigger] params@[i]) is Some,
        ensures
            final(self).wf(),
            final(self).rstate() == r_params(old(self).rstate(), params@),
    {
        let ghost full = params@;
        let ghost st0 = self.rstate();
        proof {
            assert(full.subrange(0, full.len() as int) =~= full);
        }
        let mut i: usize = 0;
        while i < params.len()
            invariant
                self.wf(),
                i <= params@.len(),
                full == params@,
                forall|j: int| 0 <= j < params@.len() ==> name_of(#[trigger] params@[j]) is Some,
                r_params(st0, full) == r_params(self.rstate(), full.subrange(i as int, full.len() as int)),
            decreases params@.len() - i,
        {
            proof {
                let rest = full.subrange(i as int, full.len() as int);
                assert(rest.subrange(1, rest.len() as int) =~= full.subrange(i + 1, full.len() as int));
                assert(rest[0] == params@[i as int]);
                assert(name_of(params@[i as int]) is Some);
            }
            match &params[i].lexeme {
                Some(name) => {
                    self.declare(name);
                    self.define(name);
                },
                None => {},
            }
            i = i + 1;
        }
    }

    /// Resolves a statement in place.
    fn stmt_ref(&mut self, s: &Stmt)
        requires
            old(self).wf(),
            names_ok_stmt(s.sv(), old(self).rstate().scopes.len() > 0),
        ensures
            final(self).wf(),
            final(self).rstate() == r_stmt(old(self).rstate(), s.sv()),
        decreases s,
    {
        match s {
            Stmt::Block { stmts } => {
                proof {
                    assert(s.sv()->Block_stmts =~= stmts_sv(stmts@));
                    assert forall|i: int| 0 <= i < stmts@.len() implies names_ok_stmt(
                        #[trigger] stmts@[i].sv(),
                        true,
                    ) by {
                        assert(s.sv()->Block_stmts[i] == stmts@[i].sv());
                    }
                }
                self.begin_scope();
                self.stmts_ref(stmts);
                self.end_scope();
            },
            Stmt::Variable { op, expr } => {
                match &op.lexeme {
                    Some(name) => {
                        self.declare(name);
                        match expr {
                            Some(x) => {
                                self.expr_ref(x);
                            },
                            None => {},
                        }
                        self.define(name);
                    },
                    None => {},
                }
            },
            Stmt::Function_Decl { name, params, body } => {
                proof {
                    assert(s.sv()->Function_Decl_body =~= stmts_sv(body@));
                    assert forall|i: int| 0 <= i < body@.len() implies names_ok_stmt(
                        #[trigger] body@[i].sv(),
                        true,
                    ) by {
                        assert(s.sv()->Function_Decl_body[i] == body@[i].sv());
                    }
                }
                match &name.lexeme {
                    Some(n) => {
                        self.declare(n);
                        self.define(n);
                        self.begin_scope();
                        let ghost st1 = self.rstate();
                        self.params(params);
                        proof {
                            lemma_params_outer(st1, params@);
                        }
                        self.stmts_ref(body);
                        self.end_scope();
                    },
                    None => {},
                }
            },
            Stmt::Expr { expr } => {
                self.expr_ref(expr);
            },
            Stmt::If { condition, then_branch, else_branch } => {
                let ghost st0 = self.rstate();
                self.expr_ref(condition);
                proof {
                    lemma_expr_keeps_scopes(st0, condition.sv());
                }
                let ghost st1 = self.rstate();
                self.stmt_ref(then_branch);
                proof {
                    lemma_stmt_keeps_outer_scopes(st1, (**then_branch).sv());
                }
                match else_branch {
                    Some(b) => {
                        self.stmt_ref(b);
                    },
                    None => {},
                }
            },
            Stmt::Print { expr } => {
                self.expr_ref(expr);
            },
            Stmt::Return { token: _, value } => {
                self.expr_ref(value);
            },
            Stmt::While { condition, stmts, finally: _ } => {
                let ghost st0 = self.rstate();
                self.expr_ref(condition);
                proof {
                    lemma_expr_keeps_scopes(st0, condition.sv());
                }
                self.stmt_ref(stmts);
            },
            _ => {},
        }
    }

    /// Resolves statements in order.
    fn stmts_ref(&mut self, ss: &Vec<Stmt>)
        requires
            old(self).wf(),
            forall|i: int|
                0 <= i < ss@.len() ==> names_ok_stmt(
                    #[trigger] ss@[i].sv(),
                    old(self).rstate().scopes.len() > 0,
                ),
        ensures
            final(self).wf(),
            final(self).rstate() == r_stmts(old(self).rstate(), stmts_sv(ss@)),
        decreases ss,
    {
        let ghost full = stmts_sv(ss@);
        let ghost st0 = self.rstate();
        proof {
            assert(full.subrange(0, full.len() as int) =~= full);
        }
        let mut i: usize = 0;
        while i < ss.len()
            invariant
                self.wf(),
                i <= ss@.len(),
                full == stmts_sv(ss@),
                self.rstate().scopes.len() == st0.scopes.len(),
                forall|j: int|
                    0 <= j < ss@.len() ==> names_ok_stmt(
                        #[trigger] ss@[j].sv(),
                        st0.scopes.len() > 0,
                    ),
                r_stmts(st0, full) == r_stmts(self.rstate(), full.subrange(i as int, full.len() as int)),
            decreases ss@.len() - i,
        {
            proof {
                let rest = full.subrange(i as int, full.len() as int);
                assert(rest.subrange(1, rest.len() as int) =~= full.subrange(i + 1, full.len() as int));
                assert(rest[0] == ss@[i as int].sv());
            }
            let ghost before = self.rstate();
            self.stmt_ref(&ss[i]);
            proof {
                lemma_stmt_keeps_outer_scopes(before, ss@[i as int].sv());
            }
            i = i + 1;
        }
    }

    /// Resolves an expression: each variable use and assignment in it gets
    /// the scope distance of its name; a read of a variable in its own
    /// initializer is reported in `errors` instead.
    pub fn resolve_expr(&mut self, expr: Expr)
        requires
            old(self).wf(),
            names_ok_expr(expr.sv(), old(self).rstate().scopes.len() > 0),
        ensures
            final(self).wf(),
            final(self).rstate() == r_expr(old(self).rstate(), expr.sv()),
    {
        self.expr_ref(&expr);
    }

    /// Resolves one statement.
    fn resolve_stmt(&mut self, stmt: Stmt)
        requires
            old(self).wf(),
            names_ok_stmt(stmt.sv(), old(self).rstate().scopes.len() > 0),
        ensures
            final(self).wf(),
            final(self).rstate() == r_stmt(old(self).rstate(), stmt.sv()),
    {
        self.stmt_ref(&stmt);
    }

    /// Resolves statements in order.
    pub fn resolve(&mut self, stmt: Vec<Stmt>)
        requires
            old(self).wf(),
            forall|i: int|
                0 <= i < stmt@.len() ==> names_ok_stmt(
                    #[trigger] stmt@[i].sv(),
                    old(self).rstate().scopes.len() > 0,
                ),
        ensures
            final(self).wf(),
            final(self).rstate() == r_stmts(old(self).rstate(), stmts_sv(stmt@)),
    {
        self.stmts_ref(&stmt);
    }

    /// Resolves a block in a scope of its own.
    pub fn visit_block(&mut self, stmt: Stmt)
        requires
            old(self).wf(),
            stmt is Block,
            names_ok_stmt(stmt.sv(), old(self).rstate().scopes.len() > 0),
        ensures
            final(self).wf(),
            final(self).rstate() == r_stmt(old(self).rstate(), stmt.sv()),
    {
        self.resolve_stmt(stmt);
    }

    /// Resolves a function's parameters and body in a scope of their own
    /// (the function's name is not declared here).
    pub fn resolve_function(&mut self, stmt: Stmt)
        requires
            old(self).wf(),
            stmt is Function_Decl,
            forall|i: int|
                0 <= i < stmt->Function_Decl_params@.len() ==> name_of(
                    #[trigger] stmt->Function_Decl_params@[i],
                ) is Some,
            forall|i: int|
                0 <= i < stmt->Function_Decl_body@.len() ==> names_ok_stmt(
                    #[trigger] stmt->Function_Decl_body@[i].sv(),
                    true,
                ),
        ensures
            final(self).wf(),
            final(self).rstate() == r_function(
                old(self).rstate(),
                stmt->Function_Decl_params@,
                stmts_sv(stmt->Function_Decl_body@),
            ),
    {
        match stmt {
            Stmt::Function_Decl { name: _, params, body } => {
                self.begin_scope();
                let ghost st1 = self.rstate();
                self.params(&params);
                proof {
                    lemma_params_outer(st1, params@);
                }
                self.stmts_ref(&body);
                self.end_scope();
            },
            _ => {},
        }
    }
}

} // verus!
