//! The expression tree and its mathematical model.

use crate::rat::{fits_rat, Rat, RatV};
use vstd::prelude::*;

verus! {

broadcast use vstd::std_specs::vec::group_vec_axioms, vstd::seq::group_seq_axioms;

/// A single-variable algebraic expression.
///
/// Invariants the passes maintain (after flatten/simplify): `Add` children
/// are non-`Add`, a `Mul` factor list holds no bare `Number`, a container
/// with one remaining child collapses to that child, and `Equation` only
/// ever stands at the root.
#[derive(Debug, PartialEq)]
pub enum Expr {
    /// A numeric literal.
    Number(Rat),
    /// The single free variable of the equation.
    Variable(char),
    /// Unary negation.
    Neg(Box<Expr>),
    /// A sum of one or more terms.
    Add(Vec<Expr>),
    /// A product: one scalar coefficient and one or more factors.
    Mul(Rat, Vec<Expr>),
    /// Exponentiation; the passes never distribute across this boundary.
    Pow(Box<Expr>, Box<Expr>),
    /// The top-level equality; only ever the root of a tree.
    Equation(Box<Expr>, Box<Expr>),
}

/// The mathematical model of an expression tree.
#[verifier::ext_equal]
pub enum ExprS {
    /// A rational literal.
    Number(RatV),
    /// The free variable.
    Variable(char),
    /// Unary negation.
    Neg(Box<ExprS>),
    /// A sum.
    Add(Seq<ExprS>),
    /// A product: scalar coefficient and factor list.
    Mul(RatV, Seq<ExprS>),
    /// Exponentiation.
    Pow(Box<ExprS>, Box<ExprS>),
    /// The top-level equality.
    Equation(Box<ExprS>, Box<ExprS>),
}

#[via_fn]
proof fn view_expr_dec(e: Expr) {
    match e {
        Expr::Add(ts) => {
            assert(decreases_to!(ts => ts@));
        },
        Expr::Mul(_, fs) => {
            assert(decreases_to!(fs => fs@));
        },
        _ => {},
    }
}

/// The model of an expression tree.
pub open spec fn view_expr(e: Expr) -> ExprS
    decreases e,
    via view_expr_dec
{
    match e {
        Expr::Number(r) => ExprS::Number(r@),
        Expr::Variable(c) => ExprS::Variable(c),
        Expr::Neg(b) => ExprS::Neg(Box::new(view_expr(*b))),
        Expr::Add(ts) => ExprS::Add(views(ts@)),
        Expr::Mul(c, fs) => ExprS::Mul(c@, views(fs@)),
        Expr::Pow(b, x) => ExprS::Pow(Box::new(view_expr(*b)), Box::new(view_expr(*x))),
        Expr::Equation(l, r) => ExprS::Equation(Box::new(view_expr(*l)), Box::new(view_expr(*r))),
    }
}

/// The models of a list of expressions.
pub open spec fn views(ts: Seq<Expr>) -> Seq<ExprS>
    decreases ts,
{
    if ts.len() == 0 {
        Seq::empty()
    } else {
        seq![view_expr(ts[0])] + views(ts.drop_first())
    }
}

/// `views` is the pointwise model of its argument.
pub broadcast proof fn lemma_views_index(ts: Seq<Expr>)
    ensures
        (#[trigger] views(ts)).len() == ts.len(),
        forall|i: int| 0 <= i < ts.len() ==> views(ts)[i] == view_expr(ts[i]),
    decreases ts,
{
    if ts.len() > 0 {
        lemma_views_index(ts.drop_first());
    }
}

/// The model has the same variant as the expression it models.
pub proof fn lemma_view_variants(e: Expr)
    ensures
        (view_expr(e) is Number) <==> (e is Number),
        (view_expr(e) is Variable) <==> (e is Variable),
        (view_expr(e) is Neg) <==> (e is Neg),
        (view_expr(e) is Add) <==> (e is Add),
        (view_expr(e) is Mul) <==> (e is Mul),
        (view_expr(e) is Pow) <==> (e is Pow),
        (view_expr(e) is Equation) <==> (e is Equation),
{
    match e {
        Expr::Number(_) => {
        },
        Expr::Variable(_) => {
        },
        Expr::Neg(_) => {
        },
        Expr::Add(_) => {
        },
        Expr::Mul(_, _) => {
        },
        Expr::Pow(_, _) => {
        },
        Expr::Equation(_, _) => {
        },
    }
}

/// A bare variable is always well-formed.
pub proof fn lemma_wf_variable(e: Expr)
    ensures
        e is Variable ==> wf_inner(view_expr(e)),
{
    match e {
        Expr::Variable(c) => {
            assert(view_expr(e) == ExprS::Variable(c));
            assert(wf_inner(view_expr(e)));
        },
        _ => {
        },
    }
}

/// An expression that is well-formed below the root is a well-formed tree.
pub proof fn lemma_wf_inner_implies_wf_s(e: ExprS)
    ensures
        wf_inner(e) ==> wf_s(e),
{
    match e {
        ExprS::Equation(_, _) => {
        },
        _ => {
        },
    }
}

/// `views` distributes over concatenation.
pub proof fn lemma_views_concat(a: Seq<Expr>, b: Seq<Expr>)
    ensures
        views(a + b) == views(a) + views(b),
{
    lemma_views_index(a);
    lemma_views_index(b);
    lemma_views_index(a + b);
    assert(views(a + b) =~= views(a) + views(b));
}

impl View for Expr {
    type V = ExprS;

    open spec fn view(&self) -> ExprS {
        view_expr(*self)
    }
}

/// Well-formed below the root: numbers representable, containers nonempty,
/// and no nested `Equation`.
pub open spec fn wf_inner(e: ExprS) -> bool
    decreases e,
{
    match e {
        ExprS::Number(v) => fits_rat(v),
        ExprS::Variable(_) => true,
        ExprS::Neg(x) => wf_inner(*x),
        ExprS::Add(ts) => ts.len() >= 1 && (forall|i: int|
            0 <= i < ts.len() ==> wf_inner(#[trigger] ts[i])),
        ExprS::Mul(c, fs) => fits_rat(c) && fs.len() >= 1 && (forall|i: int|
            0 <= i < fs.len() ==> wf_inner(#[trigger] fs[i])),
        ExprS::Pow(b, x) => wf_inner(*b) && wf_inner(*x),
        ExprS::Equation(_, _) => false,
    }
}

/// Well-formed tree: an `Equation` of two well-formed sides, or a single
/// well-formed expression.
pub open spec fn wf_s(e: ExprS) -> bool {
    match e {
        ExprS::Equation(l, r) => wf_inner(*l) && wf_inner(*r),
        _ => wf_inner(e),
    }
}

impl Expr {
    /// A structurally identical copy of the tree.
    #[verifier::loop_isolation(false)]
    pub fn deep_copy(&self) -> (r: Expr)
        ensures
            r@ == self@,
        decreases self,
    {
        match self {
            Expr::Number(v) => Expr::Number(*v),
            Expr::Variable(c) => Expr::Variable(*c),
            Expr::Neg(b) => Expr::Neg(Box::new(b.deep_copy())),
            Expr::Add(ts) => {
                let mut new: Vec<Expr> = Vec::new();
                let mut i: usize = 0;
                while i < ts.len()
                    invariant
                        0 <= i <= ts.len(),
                        new@.len() == i,
                        forall|j: int| 0 <= j < i ==> (#[trigger] new@[j])@ == ts@[j]@,
                    decreases ts.len() - i,
                {
                    proof {
                        assert(decreases_to!(ts@ => ts@[i as int]));
                    }
                    new.push(ts[i].deep_copy());
                    i = i + 1;
                }
                proof {
                    lemma_views_index(new@);
                    lemma_views_index(ts@);
                    assert(views(new@) =~= views(ts@));
                }
                Expr::Add(new)
            },
            Expr::Mul(c, fs) => {
                let mut new: Vec<Expr> = Vec::new();
                let mut i: usize = 0;
                while i < fs.len()
                    invariant
                        0 <= i <= fs.len(),
                        new@.len() == i,
                        forall|j: int| 0 <= j < i ==> (#[trigger] new@[j])@ == fs@[j]@,
                    decreases fs.len() - i,
                {
                    proof {
                        assert(decreases_to!(fs@ => fs@[i as int]));
                    }
                    new.push(fs[i].deep_copy());
                    i = i + 1;
                }
                proof {
                    lemma_views_index(new@);
                    lemma_views_index(fs@);
                    assert(views(new@) =~= views(fs@));
                }
                Expr::Mul(*c, new)
            },
            Expr::Pow(b, x) => Expr::Pow(Box::new(b.deep_copy()), Box::new(x.deep_copy())),
            Expr::Equation(l, r) => Expr::Equation(
                Box::new(l.deep_copy()),
                Box::new(r.deep_copy()),
            ),
        }
    }
}

} // verus!
