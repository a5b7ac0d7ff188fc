//! The flattener: collapses nested multiplicative structure into one scalar
//! coefficient and one flat factor list per product.

use crate::error::ExprError;
use crate::expr::{view_expr, views, wf_inner, wf_s, Expr, ExprS};
use crate::rat::{fits_rat, mul_v, Rat, RatV};
use vstd::prelude::*;

verus! {

broadcast use vstd::std_specs::vec::group_vec_axioms, vstd::seq::group_seq_axioms;

/// The model of an executable flatten result.
pub open spec fn lift_expr(r: Result<Expr, ExprError>) -> Result<ExprS, ExprError> {
    match r {
        Ok(f) => Ok(f@),
        Err(e) => Err(e),
    }
}

/// The model of an executable coefficient/factor-list result.
pub open spec fn lift_factors(r: Result<(Rat, Vec<Expr>), ExprError>) -> Result<
    (RatV, Seq<ExprS>),
    ExprError,
> {
    match r {
        Ok((c, fs)) => Ok((c@, views(fs@))),
        Err(e) => Err(e),
    }
}

/// What `flatten` returns: `Mul` factors are recursively flattened, nested
/// products are spliced into the outer factor list with their coefficients
/// multiplied in, and a leading numeric factor folds into the coefficient.
/// All other variants pass through (`Pow` and `Equation` recurse into their
/// operands). Fails only when a coefficient product leaves the
/// representable range.
pub open spec fn flatten_s(e: ExprS) -> Result<ExprS, ExprError>
    decreases e, 0int,
{
    match e {
        ExprS::Mul(c, fs) => {
            if fs.len() == 0 {
                Ok(ExprS::Number(c))
            } else {
                match fs[0] {
                    ExprS::Number(a) => {
                        let c1 = mul_v(c, a);
                        if !fits_rat(c1) {
                            Err(ExprError::Overflow)
                        } else {
                            flatten_wrap(flatten_factors_s(fs.drop_first(), c1))
                        }
                    },
                    _ => flatten_wrap(flatten_factors_s(fs, c)),
                }
            }
        },
        ExprS::Pow(b, x) => match flatten_s(*b) {
            Err(e1) => Err(e1),
            Ok(fb) => match flatten_s(*x) {
                Err(e2) => Err(e2),
                Ok(fx) => Ok(ExprS::Pow(Box::new(fb), Box::new(fx))),
            },
        },
        ExprS::Equation(l, r) => match flatten_s(*l) {
            Err(e1) => Err(e1),
            Ok(fl) => match flatten_s(*r) {
                Err(e2) => Err(e2),
                Ok(fr) => Ok(ExprS::Equation(Box::new(fl), Box::new(fr))),
            },
        },
        _ => Ok(e),
    }
}

/// Collapse an empty factor list to a bare number, else rebuild the product.
pub open spec fn flatten_wrap(r: Result<(RatV, Seq<ExprS>), ExprError>) -> Result<
    ExprS,
    ExprError,
> {
    match r {
        Err(e) => Err(e),
        Ok((c2, lst)) => if lst.len() == 0 {
            Ok(ExprS::Number(c2))
        } else {
            Ok(ExprS::Mul(c2, lst))
        },
    }
}

/// Flatten a factor list left to right, threading the coefficient: each
/// factor is flattened; a factor that flattens to a product has its
/// coefficient multiplied into the running coefficient and its factors
/// spliced in place; any other factor is kept as one element.
pub open spec fn flatten_factors_s(fs: Seq<ExprS>, c: RatV) -> Result<
    (RatV, Seq<ExprS>),
    ExprError,
>
    decreases fs, fs.len(),
{
    if fs.len() == 0 {
        Ok((c, Seq::empty()))
    } else {
        match flatten_s(fs[0]) {
            Err(e) => Err(e),
            Ok(f0) => match f0 {
                ExprS::Mul(n, inner) => {
                    let c1 = mul_v(c, n);
                    if !fits_rat(c1) {
                        Err(ExprError::Overflow)
                    } else {
                        match flatten_factors_s(fs.drop_first(), c1) {
                            Err(e) => Err(e),
                            Ok((c2, tail)) => Ok((c2, inner + tail)),
                        }
                    }
                },
                _ => match flatten_factors_s(fs.drop_first(), c) {
                    Err(e) => Err(e),
                    Ok((c2, tail)) => Ok((c2, seq![f0] + tail)),
                },
            },
        }
    }
}

/// Flattening a well-formed tree yields a well-formed tree.
pub proof fn lemma_flatten_wf(e: ExprS)
    ensures
        wf_inner(e) ==> (flatten_s(e) matches Ok(f) ==> wf_inner(f)),
    decreases e, 0int,
{
    match e {
        ExprS::Mul(c, fs) => {
            if fs.len() > 0 && wf_inner(e) {
                match fs[0] {
                    ExprS::Number(a) => {
                        let c1 = mul_v(c, a);
                        if fits_rat(c1) {
                            lemma_flatten_factors_wf(fs.drop_first(), c1);
                        }
                    },
                    _ => {
                        lemma_flatten_factors_wf(fs, c);
                    },
                }
            }
        },
        ExprS::Pow(b, x) => {
            lemma_flatten_wf(*b);
            lemma_flatten_wf(*x);
        },
        ExprS::Equation(l, r) => {
            lemma_flatten_wf(*l);
            lemma_flatten_wf(*r);
        },
        _ => {},
    }
}

/// The factor worker keeps every factor well-formed and the running
/// coefficient representable.
pub proof fn lemma_flatten_factors_wf(fs: Seq<ExprS>, c: RatV)
    ensures
        ((forall|j: int| 0 <= j < fs.len() ==> wf_inner(#[trigger] fs[j])) && fits_rat(c)) ==> (
        flatten_factors_s(fs, c) matches Ok((c2, lst)) ==> (fits_rat(c2) && forall|j: int|
            0 <= j < lst.len() ==> wf_inner(#[trigger] lst[j]))),
    decreases fs, fs.len(),
{
    if fs.len() > 0 {
        lemma_flatten_wf(fs[0]);
        match flatten_s(fs[0]) {
            Err(_) => {},
            Ok(f0) => match f0 {
                ExprS::Mul(n, inner) => {
                    let c1 = mul_v(c, n);
                    if fits_rat(c1) {
                        lemma_flatten_factors_wf(fs.drop_first(), c1);
                    }
                },
                _ => {
                    lemma_flatten_factors_wf(fs.drop_first(), c);
                },
            },
        }
    }
}

/// `wf_s` is preserved too (the root may be an `Equation`).
pub proof fn lemma_flatten_wf_s(e: ExprS)
    ensures
        wf_s(e) ==> (flatten_s(e) matches Ok(f) ==> wf_s(f)),
{
    match e {
        ExprS::Equation(l, r) => {
            lemma_flatten_wf(*l);
            lemma_flatten_wf(*r);
        },
        _ => {
            lemma_flatten_wf(e);
        },
    }
}

impl Expr {
    /// Normalize nested multiplicative structure: one coefficient and one
    /// flat factor list per product. Exactly the rewrite `flatten_s` states.
    pub fn flatten(self) -> (r: Result<Expr, ExprError>)
        requires
            wf_s(self@),
        ensures
            lift_expr(r) == flatten_s(self@),
            r matches Ok(f) ==> wf_s(f@),
    {
        proof {
            lemma_flatten_wf_s(self@);
        }
        flatten_ref(&self)
    }
}

/// Recursive worker for `Expr::flatten`, by reference.
fn flatten_ref(e: &Expr) -> (r: Result<Expr, ExprError>)
    requires
        wf_s(e@),
    ensures
        lift_expr(r) == flatten_s(e@),
    decreases e, 0int,
{
    match e {
        Expr::Mul(c, fs) => {
            proof {
                assert(e@ matches ExprS::Mul(cc, ff) && cc == c@ && ff == views(fs@));
            }
            if fs.len() == 0 {
                Ok(Expr::Number(*c))
            } else {
                proof {
                    crate::expr::lemma_views_index(fs@);
                    assert(wf_inner(views(fs@)[0]));
                    assert(views(fs@)[0] == view_expr(fs@[0]));
                    assert forall|j: int| 0 <= j < fs@.len() implies wf_inner(
                        view_expr(#[trigger] fs@[j]),
                    ) by {
                        assert(wf_inner(views(fs@)[j]));
                    }
                }
                let (c1, start): (Rat, usize) = match &fs[0] {
                    Expr::Number(a) => {
                        match c.mul(*a) {
                            Ok(q) => (q, 1),
                            Err(er) => {
                                return Err(er);
                            },
                        }
                    },
                    _ => (*c, 0),
                };
                proof {
                    assert(views(fs@).skip(1) =~= views(fs@).drop_first());
                    assert(views(fs@).skip(0) =~= views(fs@));
                }
                match flatten_factors(fs, start, c1) {
                    Err(er) => Err(er),
                    Ok((c2, lst)) => {
                        if lst.len() == 0 {
                            Ok(Expr::Number(c2))
                        } else {
                            Ok(Expr::Mul(c2, lst))
                        }
                    },
                }
            }
        },
        Expr::Pow(b, x) => {
            match flatten_ref(b) {
                Err(e1) => Err(e1),
                Ok(fb) => match flatten_ref(x) {
                    Err(e2) => Err(e2),
                    Ok(fx) => Ok(Expr::Pow(Box::new(fb), Box::new(fx))),
                },
            }
        },
        Expr::Equation(l, r2) => {
            match flatten_ref(l) {
                Err(e1) => Err(e1),
                Ok(fl) => match flatten_ref(r2) {
                    Err(e2) => Err(e2),
                    Ok(fr) => Ok(Expr::Equation(Box::new(fl), Box::new(fr))),
                },
            }
        },
        _ => Ok(e.deep_copy()),
    }
}

/// Recursive worker over the factor suffix `fs[i..]`.
fn flatten_factors(fs: &Vec<Expr>, i: usize, c: Rat) -> (r: Result<(Rat, Vec<Expr>), ExprError>)
    requires
        i <= fs@.len(),
        c.wf(),
        forall|j: int| i <= j < fs@.len() ==> wf_inner(view_expr(#[trigger] fs@[j])),
    ensures
        lift_factors(r) == flatten_factors_s(views(fs@).skip(i as int), c@),
    decreases fs, fs@.len() - i,
{
    let ghost s = views(fs@).skip(i as int);
    proof {
        crate::expr::lemma_views_index(fs@);
    }
    if i == fs.len() {
        Ok((c, Vec::new()))
    } else {
        proof {
            assert(s[0] == view_expr(fs@[i as int]));
            assert(s.drop_first() =~= views(fs@).skip(i + 1));
            assert(decreases_to!(fs@ => fs@[i as int]));
            assert(decreases_to!(fs => fs@));
        }
        match flatten_ref(&fs[i]) {
            Err(er) => Err(er),
            Ok(f0) => {
                match f0 {
                    Expr::Mul(n, mut inner) => {
                        proof {
                            lemma_flatten_wf(view_expr(fs@[i as int]));
                            assert(fits_rat(n@));
                        }
                        match c.mul(n) {
                            Err(er) => Err(er),
                            Ok(c1) => {
                                match flatten_factors(fs, i + 1, c1) {
                                    Err(er) => Err(er),
                                    Ok((c2, mut tail)) => {
                                        proof {
                                            crate::expr::lemma_views_concat(inner@, tail@);
                                        }
                                        inner.append(&mut tail);
                                        Ok((c2, inner))
                                    },
                                }
                            },
                        }
                    },
                    _ => {
                        match flatten_factors(fs, i + 1, c) {
                            Err(er) => Err(er),
                            Ok((c2, mut tail)) => {
                                let mut out: Vec<Expr> = Vec::new();
                                out.push(f0);
                                proof {
                                    crate::expr::lemma_views_concat(out@, tail@);
                                    crate::expr::lemma_views_index(out@);
                                    assert(views(out@) =~= seq![view_expr(out@[0])]);
                                }
                                out.append(&mut tail);
                                Ok((c2, out))
                            },
                        }
                    },
                }
            },
        }
    }
}

} // verus!
