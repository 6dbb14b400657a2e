//! The typed expression tree that parsing produces and evaluation walks.

use vstd::prelude::*;

verus! {

/// An arithmetic expression.
///
/// The tree is a closed, recursive sum type: a leaf holds a signed
/// 32-bit integer literal, and every operator node owns exactly two
/// child subtrees. Precedence and associativity are baked into the
/// shape of the tree by the parser, so a consumer can evaluate it by
/// plain structural recursion.
#[derive(Debug)]
pub enum Expr {
    Number(i32),
    Add(Box<Expr>, Box<Expr>),
    Subtract(Box<Expr>, Box<Expr>),
    Multiply(Box<Expr>, Box<Expr>),
    Divide(Box<Expr>, Box<Expr>),
    Power(Box<Expr>, Box<Expr>),
}

impl PartialEq for Expr {
    /// Structural equality of two expression trees.
    fn eq(&self, other: &Expr) -> (r: bool)
        decreases *self,
    {
        match (self, other) {
            (Expr::Number(a), Expr::Number(b)) => a == b,
            (Expr::Add(l1, r1), Expr::Add(l2, r2)) => {
                (&**l1).eq(&**l2) && (&**r1).eq(&**r2)
            },
            (Expr::Subtract(l1, r1), Expr::Subtract(l2, r2)) => {
                (&**l1).eq(&**l2) && (&**r1).eq(&**r2)
            },
            (Expr::Multiply(l1, r1), Expr::Multiply(l2, r2)) => {
                (&**l1).eq(&**l2) && (&**r1).eq(&**r2)
            },
            (Expr::Divide(l1, r1), Expr::Divide(l2, r2)) => {
                (&**l1).eq(&**l2) && (&**r1).eq(&**r2)
            },
            (Expr::Power(l1, r1), Expr::Power(l2, r2)) => {
                (&**l1).eq(&**l2) && (&**r1).eq(&**r2)
            },
            _ => false,
        }
    }
}

impl vstd::std_specs::cmp::PartialEqSpecImpl for Expr {
    open spec fn obeys_eq_spec() -> bool {
        true
    }

    open spec fn eq_spec(&self, other: &Expr) -> bool {
        *self == *other
    }
}

impl Eq for Expr {

}

} // verus!
