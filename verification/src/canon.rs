//! The canonicalizer: rewrite `L = R` into `(L + (-R)) = 0`.

use crate::expr::{lemma_views_index, view_expr, views, wf_inner, wf_s, Expr, ExprS};
use crate::rat::{Rat, RatV};
use vstd::prelude::*;

verus! {

broadcast use vstd::std_specs::vec::group_vec_axioms, vstd::seq::group_seq_axioms;

/// What the canonicalizer returns: `L = R` becomes `(L + (-R)) = 0`.
pub open spec fn move_to_left_s(e: ExprS) -> ExprS
    recommends
        e is Equation,
{
    match e {
        ExprS::Equation(l, r) => ExprS::Equation(
            Box::new(ExprS::Add(seq![*l, ExprS::Neg(r)])),
            Box::new(ExprS::Number(RatV { n: 0, d: 1 })),
        ),
        _ => e,
    }
}

impl Expr {
    /// Canonicalize an equation: move the right side to the left, leaving
    /// `expr = 0`. Calling this on anything but an `Equation` is a
    /// precondition violation, not a recoverable error.
    pub fn move_to_left(self) -> (r: Expr)
        requires
            self@ is Equation,
            wf_s(self@),
        ensures
            r@ == move_to_left_s(self@),
            wf_s(r@),
    {
        let ghost sv = self@;
        match self {
            Expr::Equation(l, r) => {
                let ghost lv = view_expr(*l);
                let ghost rv = view_expr(*r);
                proof {
                    assert(sv == ExprS::Equation(Box::new(lv), Box::new(rv)));
                }
                let mut terms: Vec<Expr> = Vec::new();
                terms.push(*l);
                terms.push(Expr::Neg(r));
                proof {
                    lemma_views_index(terms@);
                    assert(views(terms@) =~= seq![lv, ExprS::Neg(Box::new(rv))]);
                }
                let ghost tv = views(terms@);
                let inner_add = Expr::Add(terms);
                proof {
                    assert(inner_add@ == ExprS::Add(tv));
                }
                let bl = Box::new(inner_add);
                proof {
                    assert(view_expr(*bl) == ExprS::Add(tv));
                }
                let num_zero = Expr::Number(Rat { num: 0, den: 1 });
                proof {
                    assert(num_zero@ == ExprS::Number(RatV { n: 0, d: 1 }));
                }
                let br = Box::new(num_zero);
                proof {
                    assert(view_expr(*br) == ExprS::Number(RatV { n: 0, d: 1 }));
                }
                let out = Expr::Equation(bl, br);
                proof {
                    assert(out@ == ExprS::Equation(
                        Box::new(ExprS::Add(tv)),
                        Box::new(ExprS::Number(RatV { n: 0, d: 1 })),
                    ));
                    assert(move_to_left_s(sv) == ExprS::Equation(
                        Box::new(ExprS::Add(seq![lv, ExprS::Neg(Box::new(rv))])),
                        Box::new(ExprS::Number(RatV { n: 0, d: 1 })),
                    ));
                    assert(wf_inner(lv) && wf_inner(rv));
                    assert forall|j: int| 0 <= j < tv.len() implies wf_inner(
                        #[trigger] tv[j],
                    ) by {
                        if j == 0 {
                            assert(tv[0] == lv);
                        } else {
                            assert(tv[1] == ExprS::Neg(Box::new(rv)));
                        }
                    }
                    assert(wf_inner(ExprS::Add(tv)));
                    assert(wf_s(out@));
                }
                out
            },
            _ => {
                proof {
                    match self {
                        Expr::Number(_) => {
                        },
                        Expr::Variable(_) => {
                        },
                        Expr::Neg(_) => {
                        },
                        Expr::Add(_) => {
                        },
                        Expr::Mul(_, _) => {
                        },
                        Expr::Pow(_, _) => {
                        },
                        Expr::Equation(_, _) => {
                        },
                    }
                    assert(false);
                }
                vstd::pervasive::unreached()
            },
        }
    }
}

} // verus!
