use vstd::prelude::*;

use crate::tokentype::Token;

verus! {

/// A literal value written in the source. A number keeps the digits it was
/// written with; its numeric value is computed where numbers are evaluated.
#[derive(Debug, PartialEq)]
pub enum Literal {
    Number(String),
    String(String),
    False,
    True,
    Nil,
}

impl Literal {
    /// Whether the value counts as true in a condition: everything but `nil`
    /// and `false` does.
    pub open spec fn spec_is_truthly(&self) -> bool {
        !(self is Nil || self is False)
    }

    /// Whether the value counts as true in a condition.
    pub fn is_truthly(&self) -> (r: bool)
        ensures
            r == self.spec_is_truthly(),
    {
        match self {
            Literal::Nil => false,
            Literal::False => false,
            _ => true,
        }
    }

    /// The literal for a boolean.
    pub open spec fn spec_from_bool(value: bool) -> Literal {
        if value {
            Literal::True
        } else {
            Literal::False
        }
    }
}

/// The literal made from a boolean counts as true exactly when the boolean is.
pub proof fn lemma_from_bool_truthy(b: bool)
    ensures
        Literal::spec_from_bool(b).spec_is_truthly() == b,
{
}

impl From<bool> for Literal {
    fn from(value: bool) -> (r: Self) {
        if value {
            Literal::True
        } else {
            Literal::False
        }
    }
}

impl Clone for Literal {
    fn clone(&self) -> (r: Self)
        ensures
            r == *self,
    {
        match self {
            Literal::Number(s) => Literal::Number(s.clone()),
            Literal::String(s) => Literal::String(s.clone()),
            Literal::False => Literal::False,
            Literal::True => Literal::True,
            Literal::Nil => Literal::Nil,
        }
    }
}

impl vstd::std_specs::convert::FromSpecImpl<bool> for Literal {
    open spec fn obeys_from_spec() -> bool {
        true
    }

    open spec fn from_spec(v: bool) -> Literal {
        Literal::spec_from_bool(v)
    }
}

/// An expression as the parser builds it.
#[derive(Debug, PartialEq)]
#[allow(inconsistent_fields)]
pub enum Expr {
    Literal { value: Literal },
    Group { value: Box<Expr> },
    Unary { op: Token, expr: Box<Expr> },
    Binary { left: Box<Expr>, op: Token, right: Box<Expr> },
    Variable { token: Token, id: usize },
    Logical { left: Box<Expr>, op: Token, right: Box<Expr> },
    Assign { token: Token, value: Box<Expr>, id: usize },
    Call { callie: Box<Expr>, paren: Token, args: Vec<Expr> },
    Get { expr: Box<Expr>, token: Token },
    SetField { expr: Box<Expr>, token: Token, value: Box<Expr> },
    This { keyword: Token, id: usize },
}

/// The mathematical form of an expression: the same tree, with the call
/// arguments as a sequence.
#[allow(inconsistent_fields)]
pub enum SExpr {
    Literal { value: Literal },
    Group { value: Box<SExpr> },
    Unary { op: Token, expr: Box<SExpr> },
    Binary { left: Box<SExpr>, op: Token, right: Box<SExpr> },
    Variable { token: Token, id: usize },
    Logical { left: Box<SExpr>, op: Token, right: Box<SExpr> },
    Assign { token: Token, value: Box<SExpr>, id: usize },
    Call { callie: Box<SExpr>, paren: Token, args: Seq<SExpr> },
    Get { expr: Box<SExpr>, token: Token },
    SetField { expr: Box<SExpr>, token: Token, value: Box<SExpr> },
    This { keyword: Token, id: usize },
}

impl Expr {
    /// The mathematical form of the expression.
    pub open spec fn sv(self) -> SExpr
        decreases self,
    {
        match self {
            Expr::Literal { value } => SExpr::Literal { value },
            Expr::Group { value } => SExpr::Group { value: Box::new((*value).sv()) },
            Expr::Unary { op, expr } => SExpr::Unary { op, expr: Box::new((*expr).sv()) },
            Expr::Binary { left, op, right } => SExpr::Binary {
                left: Box::new((*left).sv()),
                op,
                right: Box::new((*right).sv()),
            },
            Expr::Variable { token, id } => SExpr::Variable { token, id },
            Expr::Logical { left, op, right } => SExpr::Logical {
                left: Box::new((*left).sv()),
                op,
                right: Box::new((*right).sv()),
            },
            Expr::Assign { token, value, id } => SExpr::Assign {
                token,
                value: Box::new((*value).sv()),
                id,
            },
            Expr::Call { callie, paren, args } => SExpr::Call {
                callie: Box::new((*callie).sv()),
                paren,
                args: Seq::new(
                    args@.len(),
                    |i: int|
                        if 0 <= i < args@.len() {
                            args@[i].sv()
                        } else {
                            SExpr::Literal { value: Literal::Nil }
                        },
                ),
            },
            Expr::Get { expr, token } => SExpr::Get { expr: Box::new((*expr).sv()), token },
            Expr::SetField { expr, token, value } => SExpr::SetField {
                expr: Box::new((*expr).sv()),
                token,
                value: Box::new((*value).sv()),
            },
            Expr::This { keyword, id } => SExpr::This { keyword, id },
        }
    }
}

impl Expr {
    /// A copy of the expression, with the same mathematical form.
    pub fn deep_copy(&self) -> (r: Expr)
        ensures
            r.sv() == self.sv(),
        decreases self,
    {
        match self {
            Expr::Literal { value } => Expr::Literal { value: value.clone() },
            Expr::Group { value } => Expr::Group { value: Box::new((**value).deep_copy()) },
            Expr::Unary { op, expr } => Expr::Unary {
                op: op.clone(),
                expr: Box::new((**expr).deep_copy()),
            },
            Expr::Binary { left, op, right } => Expr::Binary {
                left: Box::new((**left).deep_copy()),
                op: op.clone(),
                right: Box::new((**right).deep_copy()),
            },
            Expr::Variable { token, id } => Expr::Variable { token: token.clone(), id: *id },
            Expr::Logical { left, op, right } => Expr::Logical {
                left: Box::new((**left).deep_copy()),
                op: op.clone(),
                right: Box::new((**right).deep_copy()),
            },
            Expr::Assign { token, value, id } => Expr::Assign {
                token: token.clone(),
                value: Box::new((**value).deep_copy()),
                id: *id,
            },
            Expr::Call { callie, paren, args } => {
                let c = Expr::Call {
                    callie: Box::new((**callie).deep_copy()),
                    paren: paren.clone(),
                    args: copy_exprs(args),
                };
                proof {
                    assert(c.sv()->args =~= self.sv()->args);
                }
                c
            },
            Expr::Get { expr, token } => Expr::Get {
                expr: Box::new((**expr).deep_copy()),
                token: token.clone(),
            },
            Expr::SetField { expr, token, value } => Expr::SetField {
                expr: Box::new((**expr).deep_copy()),
                token: token.clone(),
                value: Box::new((**value).deep_copy()),
            },
            Expr::This { keyword, id } => Expr::This { keyword: keyword.clone(), id: *id },
        }
    }
}

/// Copies of a list of expressions, with the same mathematical forms.
pub fn copy_exprs(v: &Vec<Expr>) -> (r: Vec<Expr>)
    ensures
        r@.len() == v@.len(),
        forall|i: int| 0 <= i < v@.len() ==> (#[trigger] r@[i]).sv() == v@[i].sv(),
    decreases v,
{
    let mut out: Vec<Expr> = Vec::new();
    let mut i: usize = 0;
    while i < v.len()
        invariant
            i <= v@.len(),
            out@.len() == i,
            forall|j: int| 0 <= j < i ==> (#[trigger] out@[j]).sv() == v@[j].sv(),
        decreases v@.len() - i,
    {
        out.push(v[i].deep_copy());
        i = i + 1;
    }
    out
}

/// A clone has the same mathematical form.
impl Clone for Expr {
    fn clone(&self) -> (r: Self)
        ensures
            r.sv() == self.sv(),
    {
        self.deep_copy()
    }
}

} // verus!
