use vstd::prelude::*;

use crate::expr::{Expr, SExpr};
use crate::tokentype::Token;

verus! {

/// A statement as the parser builds it.
#[derive(Debug, PartialEq)]
#[allow(non_camel_case_types)]
#[allow(inconsistent_fields)]
pub enum Stmt {
    Expr { expr: Expr },
    Return { token: Token, value: Expr },
    Print { expr: Expr },
    Variable { op: Token, expr: Option<Expr> },
    Block { stmts: Vec<Stmt> },
    If { condition: Expr, then_branch: Box<Stmt>, else_branch: Option<Box<Stmt>> },
    While { condition: Expr, stmts: Box<Stmt>, finally: Option<Expr> },
    Function_Decl { name: Token, params: Vec<Token>, body: Vec<Stmt> },
    Break,
    Continue,
}

/// The mathematical form of a statement: the same tree, with lists as sequences.
#[allow(non_camel_case_types)]
#[allow(inconsistent_fields)]
pub enum SStmt {
    Expr { expr: SExpr },
    Return { token: Token, value: SExpr },
    Print { expr: SExpr },
    Variable { op: Token, expr: Option<SExpr> },
    Block { stmts: Seq<SStmt> },
    If { condition: SExpr, then_branch: Box<SStmt>, else_branch: Option<Box<SStmt>> },
    While { condition: SExpr, stmts: Box<SStmt>, finally: Option<SExpr> },
    Function_Decl { name: Token, params: Seq<Token>, body: Seq<SStmt> },
    Break,
    Continue,
}

/// The mathematical forms of a list of statements.
pub open spec fn stmts_sv(stmts: Seq<Stmt>) -> Seq<SStmt>
    decreases stmts,
{
    Seq::new(
        stmts.len(),
        |i: int|
            if 0 <= i < stmts.len() {
                stmts[i].sv()
            } else {
                SStmt::Break
            },
    )
}

/// The mathematical form of an optional expression.
pub open spec fn opt_expr_sv(e: Option<Expr>) -> Option<SExpr> {
    match e {
        Some(x) => Some(x.sv()),
        None => None,
    }
}

/// The mathematical form of an optional statement.
pub open spec fn opt_stmt_sv(s: Option<Stmt>) -> Option<SStmt> {
    match s {
        Some(x) => Some(x.sv()),
        None => None,
    }
}

impl Stmt {
    /// The mathematical form of the statement.
    pub open spec fn sv(self) -> SStmt
        decreases self,
    {
        match self {
            Stmt::Expr { expr } => SStmt::Expr { expr: expr.sv() },
            Stmt::Return { token, value } => SStmt::Return { token, value: value.sv() },
            Stmt::Print { expr } => SStmt::Print { expr: expr.sv() },
            Stmt::Variable { op, expr } => SStmt::Variable { op, expr: opt_expr_sv(expr) },
            Stmt::Block { stmts } => SStmt::Block {
                stmts: Seq::new(
                    stmts@.len(),
                    |i: int|
                        if 0 <= i < stmts@.len() {
                            stmts@[i].sv()
                        } else {
                            SStmt::Break
                        },
                ),
            },
            Stmt::If { condition, then_branch, else_branch } => SStmt::If {
                condition: condition.sv(),
                then_branch: Box::new((*then_branch).sv()),
                else_branch: match else_branch {
                    Some(b) => Some(Box::new((*b).sv())),
                    None => None,
                },
            },
            Stmt::While { condition, stmts, finally } => SStmt::While {
                condition: condition.sv(),
                stmts: Box::new((*stmts).sv()),
                finally: opt_expr_sv(finally),
            },
            Stmt::Function_Decl { name, params, body } => SStmt::Function_Decl {
                name,
                params: params@,
                body: Seq::new(
                    body@.len(),
                    |i: int|
                        if 0 <= i < body@.len() {
                            body@[i].sv()
                        } else {
                            SStmt::Break
                        },
                ),
            },
            Stmt::Break => SStmt::Break,
            Stmt::Continue => SStmt::Continue,
        }
    }
}

impl Stmt {
    /// A copy of the statement, with the same mathematical form.
    pub fn deep_copy(&self) -> (r: Stmt)
        ensures
            r.sv() == self.sv(),
        decreases self,
    {
        match self {
            Stmt::Expr { expr } => Stmt::Expr { expr: expr.deep_copy() },
            Stmt::Return { token, value } => Stmt::Return { token: token.clone(), value: value.deep_copy() },
            Stmt::Print { expr } => Stmt::Print { expr: expr.deep_copy() },
            Stmt::Variable { op, expr } => Stmt::Variable {
                op: op.clone(),
                expr: match expr {
                    Some(e) => Some(e.deep_copy()),
                    None => None,
                },
            },
            Stmt::Block { stmts } => {
                let c = Stmt::Block { stmts: copy_stmts(stmts) };
                proof {
                    assert(c.sv()->Block_stmts =~= self.sv()->Block_stmts);
                }
                c
            },
            Stmt::If { condition, then_branch, else_branch } => Stmt::If {
                condition: condition.deep_copy(),
                then_branch: Box::new((**then_branch).deep_copy()),
                else_branch: match else_branch {
                    Some(b) => Some(Box::new((**b).deep_copy())),
                    None => None,
                },
            },
            Stmt::While { condition, stmts, finally } => Stmt::While {
                condition: condition.deep_copy(),
                stmts: Box::new((**stmts).deep_copy()),
                finally: match finally {
                    Some(e) => Some(e.deep_copy()),
                    None => None,
                },
            },
            Stmt::Function_Decl { name, params, body } => {
                let mut ps: Vec<Token> = Vec::new();
                let mut i: usize = 0;
                while i < params.len()
                    invariant
                        i <= params@.len(),
                        ps@ == params@.subrange(0, i as int),
                    decreases params@.len() - i,
                {
                    ps.push(params[i].clone());
                    i = i + 1;
                }
                let c = Stmt::Function_Decl { name: name.clone(), params: ps, body: copy_stmts(body) };
                proof {
                    assert(ps@ =~= params@);
                    assert(c.sv()->Function_Decl_body =~= self.sv()->Function_Decl_body);
                }
                c
            },
            Stmt::Break => Stmt::Break,
            Stmt::Continue => Stmt::Continue,
        }
    }
}

/// Copies of a list of statements, with the same mathematical forms.
pub fn copy_stmts(v: &Vec<Stmt>) -> (r: Vec<Stmt>)
    ensures
        r@.len() == v@.len(),
        forall|i: int| 0 <= i < v@.len() ==> (#[trigger] r@[i]).sv() == v@[i].sv(),
    decreases v,
{
    let mut out: Vec<Stmt> = Vec::new();
    let mut i: usize = 0;
    while i < v.len()
        invariant
            i <= v@.len(),
            out@.len() == i,
            forall|j: int| 0 <= j < i ==> (#[trigger] out@[j]).sv() == v@[j].sv(),
        decreases v@.len() - i,
    {
        out.push(v[i].deep_copy());
        i = i + 1;
    }
    out
}

/// A clone has the same mathematical form.
impl Clone for Stmt {
    fn clone(&self) -> (r: Self)
        ensures
            r.sv() == self.sv(),
    {
        self.deep_copy()
    }
}

} // verus!
