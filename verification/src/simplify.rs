//! The simplifier: constant folding, like-term collection, and collapse of
//! degenerate single-child containers.

use crate::error::ExprError;
use crate::expr::{lemma_views_index, view_expr, views, wf_inner, wf_s, Expr, ExprS};
use crate::flatten::lift_expr;
use crate::rat::{add_v, fits_rat, mul_v, neg_v, powi_ok, powi_v, Rat, RatV};
use vstd::prelude::*;

verus! {

broadcast use vstd::std_specs::vec::group_vec_axioms, vstd::seq::group_seq_axioms;

/// Termination measure for the simplifier. Negation counts double so that
/// distributing a negation over a sum (`Neg(Add(ts))` to `Add(Neg(t))`)
/// strictly shrinks the measure.
pub open spec fn msize(e: ExprS) -> nat
    decreases e,
{
    match e {
        ExprS::Number(_) => 1,
        ExprS::Variable(_) => 1,
        ExprS::Neg(x) => 2 * msize(*x),
        ExprS::Add(ts) => 1 + msum(ts),
        ExprS::Mul(_, fs) => 1 + msum(fs),
        ExprS::Pow(b, x) => 1 + msize(*b) + msize(*x),
        ExprS::Equation(l, r) => 1 + msize(*l) + msize(*r),
    }
}

/// The summed measure of a term list.
pub open spec fn msum(ts: Seq<ExprS>) -> nat
    decreases ts,
{
    if ts.len() == 0 {
        0
    } else {
        msize(ts[0]) + msum(ts.drop_first())
    }
}

/// Every expression has measure at least one.
pub proof fn lemma_msize_pos(e: ExprS)
    ensures
        msize(e) >= 1,
    decreases e,
{
    match e {
        ExprS::Neg(x) => {
            lemma_msize_pos(*x);
        },
        _ => {},
    }
}

/// An element's measure is bounded by the list's summed measure.
pub proof fn lemma_msum_elem(ts: Seq<ExprS>, i: int)
    requires
        0 <= i < ts.len(),
    ensures
        msize(ts[i]) <= msum(ts),
    decreases ts,
{
    if i > 0 {
        lemma_msum_elem(ts.drop_first(), i - 1);
    }
}

/// Wrap each term of a list in a negation.
pub open spec fn neg_all(ts: Seq<ExprS>) -> Seq<ExprS>
    decreases ts,
{
    if ts.len() == 0 {
        Seq::empty()
    } else {
        seq![ExprS::Neg(Box::new(ts[0]))] + neg_all(ts.drop_first())
    }
}

/// `neg_all` is the pointwise negation of its argument.
pub proof fn lemma_neg_all_index(ts: Seq<ExprS>)
    ensures
        neg_all(ts).len() == ts.len(),
        forall|i: int|
            0 <= i < ts.len() ==> neg_all(ts)[i] == ExprS::Neg(Box::new(ts[i])),
    decreases ts,
{
    if ts.len() > 0 {
        lemma_neg_all_index(ts.drop_first());
    }
}

/// Negating every term doubles the summed measure.
pub proof fn lemma_msum_neg_all(ts: Seq<ExprS>)
    ensures
        msum(neg_all(ts)) == 2 * msum(ts),
    decreases ts,
{
    if ts.len() == 0 {
        assert(neg_all(ts) =~= Seq::<ExprS>::empty());
    } else {
        lemma_msum_neg_all(ts.drop_first());
        assert(neg_all(ts) == seq![ExprS::Neg(Box::new(ts[0]))] + neg_all(ts.drop_first()));
        assert(neg_all(ts).drop_first() =~= neg_all(ts.drop_first()));
        assert(neg_all(ts)[0] == ExprS::Neg(Box::new(ts[0])));
        assert(msize(neg_all(ts)[0]) == 2 * msize(ts[0]));
        assert(msum(neg_all(ts)) == msize(neg_all(ts)[0]) + msum(neg_all(ts).drop_first()));
        assert(msum(ts) == msize(ts[0]) + msum(ts.drop_first()));
    }
}

#[via_fn]
proof fn simplify_s_dec(e: ExprS) {
    match e {
        ExprS::Neg(x) => {
            lemma_msize_pos(*x);
            match *x {
                ExprS::Add(ts) => {
                    lemma_msum_neg_all(ts);
                },
                _ => {},
            }
        },
        ExprS::Pow(b, x) => {
            lemma_msize_pos(*b);
            lemma_msize_pos(*x);
        },
        ExprS::Equation(l, r) => {
            lemma_msize_pos(*l);
            lemma_msize_pos(*r);
        },
        _ => {},
    }
}

/// What `simplify` returns, per variant of the input:
/// - numbers and the variable are unchanged;
/// - `Neg` folds a numeric operand, cancels a double negation, and
///   distributes over a sum;
/// - `Add` simplifies its terms, splices nested sums, sums the numeric
///   leaves into one trailing term, and collapses degenerate lists;
/// - `Mul` with coefficient zero short-circuits to zero; otherwise numeric
///   factors fold into the coefficient, variables move to the front, and
///   degenerate lists collapse (a full factor list is kept when the
///   coefficient folds to one);
/// - `Pow` folds a rational base raised to a whole number and erases an
///   exponent of one;
/// - `Equation` simplifies both sides independently.
/// Fails only when exact arithmetic leaves the representable range, or on a
/// zero base under a negative exponent.
pub open spec fn simplify_s(e: ExprS) -> Result<ExprS, ExprError>
    decreases msize(e), 0int,
    via simplify_s_dec
{
    match e {
        ExprS::Number(_) => Ok(e),
        ExprS::Variable(_) => Ok(e),
        ExprS::Neg(x) => match *x {
            ExprS::Number(v) => Ok(ExprS::Number(neg_v(v))),
            ExprS::Variable(_) => Ok(e),
            ExprS::Neg(y) => simplify_s(*y),
            ExprS::Add(ts) => simplify_s(ExprS::Add(neg_all(ts))),
            ExprS::Equation(_, _) => Ok(e),
            _ => match simplify_s(*x) {
                Err(er) => Err(er),
                Ok(s) => Ok(ExprS::Neg(Box::new(s))),
            },
        },
        ExprS::Add(ts) => match simplify_terms_s(ts) {
            Err(er) => Err(er),
            Ok(lst) => {
                let nums = numbers_of(lst);
                let others = others_of(lst);
                match sum_from(RatV { n: 0, d: 1 }, nums) {
                    Err(er) => Err(er),
                    Ok(total) => {
                        let out = if total.n != 0 {
                            others + seq![ExprS::Number(total)]
                        } else {
                            others
                        };
                        if out.len() > 1 {
                            Ok(ExprS::Add(out))
                        } else if out.len() == 1 {
                            Ok(out[0])
                        } else {
                            Ok(ExprS::Number(RatV { n: 0, d: 1 }))
                        }
                    },
                }
            },
        },
        ExprS::Mul(c, fs) => {
            if c.n == 0 {
                Ok(ExprS::Number(RatV { n: 0, d: 1 }))
            } else {
                match simplify_factors_s(fs, c) {
                    Err(er) => Err(er),
                    Ok((c2, vars, others)) => {
                        let lst = vars + others;
                        if lst.len() == 0 {
                            Ok(ExprS::Number(c2))
                        } else if c2.n != c2.d {
                            Ok(ExprS::Mul(c2, lst))
                        } else if lst.len() == 1 {
                            Ok(lst[0])
                        } else {
                            Ok(ExprS::Mul(c2, lst))
                        }
                    },
                }
            }
        },
        ExprS::Pow(b, x) => match (*b, *x) {
            (ExprS::Number(bv), ExprS::Number(yv)) => {
                if yv.d == 1 {
                    if powi_ok(bv, yv.n) {
                        Ok(ExprS::Number(powi_v(bv, yv.n)))
                    } else if yv.n < 0 && bv.n == 0 {
                        Err(ExprError::DivisionByZero)
                    } else {
                        Err(ExprError::Overflow)
                    }
                } else {
                    Ok(e)
                }
            },
            (bb, ExprS::Number(yv)) => {
                if yv.n == yv.d {
                    simplify_s(bb)
                } else {
                    match simplify_s(bb) {
                        Err(er) => Err(er),
                        Ok(sb) => Ok(ExprS::Pow(Box::new(sb), Box::new(ExprS::Number(yv)))),
                    }
                }
            },
            (bb, xx) => match simplify_s(bb) {
                Err(er) => Err(er),
                Ok(sb) => match simplify_s(xx) {
                    Err(er) => Err(er),
                    Ok(sx) => Ok(ExprS::Pow(Box::new(sb), Box::new(sx))),
                },
            },
        },
        ExprS::Equation(l, r) => match simplify_s(*l) {
            Err(er) => Err(er),
            Ok(sl) => match simplify_s(*r) {
                Err(er) => Err(er),
                Ok(sr) => Ok(ExprS::Equation(Box::new(sl), Box::new(sr))),
            },
        },
    }
}

#[via_fn]
proof fn simplify_terms_s_dec(ts: Seq<ExprS>) {
    if ts.len() > 0 {
        lemma_msum_elem(ts, 0);
        lemma_msize_pos(ts[0]);
    }
}

/// Simplify each term of a sum; a term that simplifies to a sum has its
/// children spliced into the list in place.
pub open spec fn simplify_terms_s(ts: Seq<ExprS>) -> Result<Seq<ExprS>, ExprError>
    decreases msum(ts), 1int,
    via simplify_terms_s_dec
{
    if ts.len() == 0 {
        Ok(Seq::empty())
    } else {
        match simplify_s(ts[0]) {
            Err(er) => Err(er),
            Ok(s) => match simplify_terms_s(ts.drop_first()) {
                Err(er) => Err(er),
                Ok(rest) => match s {
                    ExprS::Add(inner) => Ok(inner + rest),
                    _ => Ok(seq![s] + rest),
                },
            },
        }
    }
}

/// The numeric leaves of a term list, in order.
pub open spec fn numbers_of(lst: Seq<ExprS>) -> Seq<RatV>
    decreases lst,
{
    if lst.len() == 0 {
        Seq::empty()
    } else {
        let rest = numbers_of(lst.drop_first());
        match lst[0] {
            ExprS::Number(v) => seq![v] + rest,
            _ => rest,
        }
    }
}

/// The non-numeric terms of a term list, in order.
pub open spec fn others_of(lst: Seq<ExprS>) -> Seq<ExprS>
    decreases lst,
{
    if lst.len() == 0 {
        Seq::empty()
    } else {
        let rest = others_of(lst.drop_first());
        if lst[0] is Number {
            rest
        } else {
            seq![lst[0]] + rest
        }
    }
}

/// Every non-numeric term kept by `others_of` is a term of the input, so
/// well-formedness carries over.
pub proof fn lemma_others_of_wf(lst: Seq<ExprS>)
    requires
        forall|j: int| 0 <= j < lst.len() ==> wf_inner(#[trigger] lst[j]),
    ensures
        forall|j: int|
            0 <= j < others_of(lst).len() ==> wf_inner(#[trigger] others_of(lst)[j]),
    decreases lst,
{
    if lst.len() > 0 {
        assert(forall|j: int|
            0 <= j < lst.drop_first().len() ==> wf_inner(#[trigger] lst.drop_first()[j]));
        lemma_others_of_wf(lst.drop_first());
        let rest = others_of(lst.drop_first());
        if !(lst[0] is Number) {
            assert(others_of(lst) == seq![lst[0]] + rest);
            assert forall|j: int| 0 <= j < others_of(lst).len() implies wf_inner(
                #[trigger] others_of(lst)[j],
            ) by {
                if j == 0 {
                    assert(others_of(lst)[0] == lst[0]);
                } else {
                    assert(others_of(lst)[j] == rest[j - 1]);
                }
            }
        }
    }
}

/// Left-to-right exact sum of a list of rationals.
pub open spec fn sum_from(acc: RatV, ns: Seq<RatV>) -> Result<RatV, ExprError>
    decreases ns,
{
    if ns.len() == 0 {
        Ok(acc)
    } else {
        let a2 = add_v(acc, ns[0]);
        if !fits_rat(a2) {
            Err(ExprError::Overflow)
        } else {
            sum_from(a2, ns.drop_first())
        }
    }
}

/// The model of an executable term-list result.
pub open spec fn lift_terms(r: Result<Vec<Expr>, ExprError>) -> Result<Seq<ExprS>, ExprError> {
    match r {
        Ok(lst) => Ok(views(lst@)),
        Err(e) => Err(e),
    }
}

#[via_fn]
proof fn simplify_factors_s_dec(fs: Seq<ExprS>, c: RatV) {
    if fs.len() > 0 {
        lemma_msum_elem(fs, 0);
        lemma_msize_pos(fs[0]);
    }
}

/// Simplify each factor of a product: numeric factors fold into the
/// coefficient left to right, variables are collected first, and all other
/// factors follow in encountered order.
pub open spec fn simplify_factors_s(fs: Seq<ExprS>, c: RatV) -> Result<
    (RatV, Seq<ExprS>, Seq<ExprS>),
    ExprError,
>
    decreases msum(fs), 1int,
    via simplify_factors_s_dec
{
    if fs.len() == 0 {
        Ok((c, Seq::empty(), Seq::empty()))
    } else {
        match simplify_s(fs[0]) {
            Err(er) => Err(er),
            Ok(s) => match s {
                ExprS::Number(a) => {
                    let c1 = mul_v(c, a);
                    if !fits_rat(c1) {
                        Err(ExprError::Overflow)
                    } else {
                        simplify_factors_s(fs.drop_first(), c1)
                    }
                },
                ExprS::Variable(ch) => match simplify_factors_s(fs.drop_first(), c) {
                    Err(er) => Err(er),
                    Ok((c2, vars, others)) => Ok((c2, seq![ExprS::Variable(ch)] + vars, others)),
                },
                _ => match simplify_factors_s(fs.drop_first(), c) {
                    Err(er) => Err(er),
                    Ok((c2, vars, others)) => Ok((c2, vars, seq![s] + others)),
                },
            },
        }
    }
}

impl Expr {
    /// Constant-fold and collect like terms, collapsing degenerate
    /// single-child containers. Exactly the rewrite `simplify_s` states.
    pub fn simplify(self) -> (r: Result<Expr, ExprError>)
        requires
            wf_s(self@),
        ensures
            lift_expr(r) == simplify_s(self@),
            r matches Ok(f) ==> wf_s(f@),
    {
        simplify_ref(&self)
    }
}

/// Negate every term of a list (for distributing a negation over a sum).
#[verifier::loop_isolation(false)]
fn negate_all(ts: &Vec<Expr>) -> (r: Vec<Expr>)
    ensures
        views(r@) == neg_all(views(ts@)),
{
    let mut negs: Vec<Expr> = Vec::new();
    let mut i: usize = 0;
    while i < ts.len()
        invariant
            0 <= i <= ts@.len(),
            negs@.len() == i,
            forall|j: int|
                0 <= j < i ==> view_expr(#[trigger] negs@[j]) == ExprS::Neg(
                    Box::new(view_expr(ts@[j])),
                ),
        decreases ts@.len() - i,
    {
        negs.push(Expr::Neg(Box::new(ts[i].deep_copy())));
        i = i + 1;
    }
    proof {
        lemma_views_index(negs@);
        lemma_views_index(ts@);
        lemma_neg_all_index(views(ts@));
        assert(views(negs@) =~= neg_all(views(ts@)));
    }
    negs
}

/// Recursive worker for `Expr::simplify`, by reference.
#[verifier::loop_isolation(false)]
fn simplify_ref(e: &Expr) -> (r: Result<Expr, ExprError>)
    requires
        wf_s(e@),
    ensures
        lift_expr(r) == simplify_s(e@),
        r matches Ok(f) ==> wf_s(f@),
        r matches Ok(f) ==> (wf_inner(e@) ==> wf_inner(f@)),
    decreases msize(e@), 0int,
{
    match e {
        Expr::Number(_) => Ok(e.deep_copy()),
        Expr::Variable(_) => Ok(e.deep_copy()),
        Expr::Neg(b) => {
            proof {
                lemma_msize_pos(b@);
            }
            match &**b {
                Expr::Number(v) => {
                    proof {
                        assert(wf_inner(b@));
                        assert(fits_rat(v@));
                    }
                    Ok(Expr::Number(v.neg()))
                },
                Expr::Variable(_) => Ok(e.deep_copy()),
                Expr::Neg(y) => {
                    proof {
                        lemma_msize_pos(y@);
                        assert(wf_inner(b@));
                        assert(wf_inner(y@));
                        crate::expr::lemma_wf_inner_implies_wf_s(y@);
                    }
                    simplify_ref(y)
                },
                Expr::Add(ts) => {
                    let ghost tsv = views(ts@);
                    let negs = negate_all(ts);
                    let arg = Expr::Add(negs);
                    proof {
                        lemma_views_index(negs@);
                        lemma_msum_neg_all(tsv);
                        assert(wf_s(e@));
                        assert(e@ == ExprS::Neg(Box::new(ExprS::Add(tsv))));
                        assert(wf_inner(ExprS::Add(tsv)));
                        assert(forall|j: int|
                            0 <= j < tsv.len() ==> wf_inner(#[trigger] tsv[j]));
                        assert forall|j: int| 0 <= j < negs@.len() implies wf_inner(
                            #[trigger] views(negs@)[j],
                        ) by {
                            lemma_neg_all_index(tsv);
                            assert(views(negs@)[j] == neg_all(tsv)[j]);
                            assert(neg_all(tsv)[j] == ExprS::Neg(Box::new(tsv[j])));
                        }
                        assert(wf_s(arg@));
                    }
                    simplify_ref(&arg)
                },
                Expr::Equation(_, _) => Ok(e.deep_copy()),
                _ => {
                    proof {
                        assert(wf_inner(b@));
                        crate::expr::lemma_wf_inner_implies_wf_s(b@);
                    }
                    match simplify_ref(b) {
                        Err(er) => Err(er),
                        Ok(s) => Ok(Expr::Neg(Box::new(s))),
                    }
                },
            }
        },
        Expr::Add(ts) => {
            proof {
                lemma_views_index(ts@);
                assert(views(ts@).skip(0) =~= views(ts@));
                assert forall|j: int| 0 <= j < ts@.len() implies wf_inner(
                    view_expr(#[trigger] ts@[j]),
                ) by {
                    assert(wf_inner(views(ts@)[j]));
                }
            }
            match simplify_terms(ts, 0) {
                Err(er) => Err(er),
                Ok(lst) => {
                    proof {
                        lemma_views_index(lst@);
                        assert(views(lst@).skip(0) =~= views(lst@));
                    }
                    match sum_numbers(&lst, 0, Rat::zero()) {
                        Err(er) => Err(er),
                        Ok(total) => {
                            let mut out = collect_others(&lst, 0);
                            let ghost others = views(out@);
                            let ghost oldseq = out@;
                            if !total.is_zero() {
                                out.push(Expr::Number(total));
                                proof {
                                    lemma_views_index(oldseq);
                                    lemma_views_index(out@);
                                    assert(views(out@) =~= others + seq![
                                        ExprS::Number(total@),
                                    ]);
                                }
                            }
                            proof {
                                lemma_views_index(out@);
                                lemma_others_of_wf(views(lst@));
                                assert forall|j: int| 0 <= j < out@.len() implies wf_inner(
                                    view_expr(#[trigger] out@[j]),
                                ) by {
                                    assert(view_expr(out@[j]) == views(out@)[j]);
                                    if j < others.len() {
                                        assert(views(out@)[j] == others[j]);
                                    }
                                }
                            }
                            if out.len() > 1 {
                                Ok(Expr::Add(out))
                            } else if out.len() == 1 {
                                let single = out.remove(0);
                                Ok(single)
                            } else {
                                Ok(Expr::Number(Rat::zero()))
                            }
                        },
                    }
                },
            }
        },
        Expr::Mul(c, fs) => {
            proof {
                lemma_views_index(fs@);
                assert(views(fs@).skip(0) =~= views(fs@));
            }
            proof {
                assert(fits_rat(c@));
                assert forall|j: int| 0 <= j < fs@.len() implies wf_inner(
                    view_expr(#[trigger] fs@[j]),
                ) by {
                    assert(wf_inner(views(fs@)[j]));
                }
            }
            if c.is_zero() {
                Ok(Expr::Number(Rat::zero()))
            } else {
                match simplify_factors(fs, 0, *c) {
                    Err(er) => Err(er),
                    Ok((c2, vars, others)) => {
                        let mut lst = vars;
                        let mut tail = others;
                        let ghost vv = views(lst@);
                        let ghost ov = views(tail@);
                        proof {
                            crate::expr::lemma_views_concat(lst@, tail@);
                        }
                        lst.append(&mut tail);
                        proof {
                            lemma_views_index(lst@);
                            assert(views(lst@) == vv + ov);
                            assert forall|j: int| 0 <= j < lst@.len() implies wf_inner(
                                view_expr(#[trigger] lst@[j]),
                            ) by {
                                assert(view_expr(lst@[j]) == (vv + ov)[j]);
                            }
                        }
                        if lst.len() == 0 {
                            Ok(Expr::Number(c2))
                        } else if !c2.is_one() {
                            Ok(Expr::Mul(c2, lst))
                        } else if lst.len() == 1 {
                            let single = lst.remove(0);
                            Ok(single)
                        } else {
                            Ok(Expr::Mul(c2, lst))
                        }
                    },
                }
            }
        },
        Expr::Pow(b, x) => {
            proof {
                lemma_msize_pos(b@);
                lemma_msize_pos(x@);
                assert(wf_inner(b@) && wf_inner(x@));
                crate::expr::lemma_wf_inner_implies_wf_s(b@);
                crate::expr::lemma_wf_inner_implies_wf_s(x@);
            }
            match (&**b, &**x) {
                (Expr::Number(bv), Expr::Number(yv)) => {
                    if yv.denominator() == 1 {
                        match bv.pow_int(yv.numerator()) {
                            Err(er) => Err(er),
                            Ok(q) => Ok(Expr::Number(q)),
                        }
                    } else {
                        Ok(e.deep_copy())
                    }
                },
                (_, Expr::Number(yv)) => {
                    if yv.is_one() {
                        simplify_ref(b)
                    } else {
                        match simplify_ref(b) {
                            Err(er) => Err(er),
                            Ok(sb) => Ok(
                                Expr::Pow(Box::new(sb), Box::new(Expr::Number(*yv))),
                            ),
                        }
                    }
                },
                (_, _) => {
                    match simplify_ref(b) {
                        Err(er) => Err(er),
                        Ok(sb) => match simplify_ref(x) {
                            Err(er) => Err(er),
                            Ok(sx) => Ok(Expr::Pow(Box::new(sb), Box::new(sx))),
                        },
                    }
                },
            }
        },
        Expr::Equation(l, r2) => {
            proof {
                lemma_msize_pos(l@);
                lemma_msize_pos(r2@);
                crate::expr::lemma_wf_inner_implies_wf_s(l@);
                crate::expr::lemma_wf_inner_implies_wf_s(r2@);
            }
            match simplify_ref(l) {
                Err(er) => Err(er),
                Ok(sl) => match simplify_ref(r2) {
                    Err(er) => Err(er),
                    Ok(sr) => Ok(Expr::Equation(Box::new(sl), Box::new(sr))),
                },
            }
        },
    }
}

/// Recursive worker over the term suffix `ts[i..]`: simplify each term and
/// splice nested sums.
fn simplify_terms(ts: &Vec<Expr>, i: usize) -> (r: Result<Vec<Expr>, ExprError>)
    requires
        i <= ts@.len(),
        forall|j: int| i <= j < ts@.len() ==> wf_inner(view_expr(#[trigger] ts@[j])),
    ensures
        lift_terms(r) == simplify_terms_s(views(ts@).skip(i as int)),
        r matches Ok(lst) ==> (forall|j: int|
            0 <= j < lst@.len() ==> wf_inner(view_expr(#[trigger] lst@[j]))),
    decreases msum(views(ts@).skip(i as int)), 1int,
{
    let ghost s = views(ts@).skip(i as int);
    proof {
        lemma_views_index(ts@);
    }
    if i == ts.len() {
        Ok(Vec::new())
    } else {
        proof {
            assert(s[0] == view_expr(ts@[i as int]));
            assert(s.drop_first() =~= views(ts@).skip(i + 1));
            lemma_msum_elem(s, 0);
            lemma_msize_pos(s[0]);
            crate::expr::lemma_wf_inner_implies_wf_s(s[0]);
        }
        match simplify_ref(&ts[i]) {
            Err(er) => Err(er),
            Ok(sx) => {
                match simplify_terms(ts, i + 1) {
                    Err(er) => Err(er),
                    Ok(rest) => {
                        match sx {
                            Expr::Add(mut inner) => {
                                let mut tail = rest;
                                let ghost iv = views(inner@);
                                let ghost tv = views(tail@);
                                proof {
                                    crate::expr::lemma_views_concat(inner@, tail@);
                                    lemma_views_index(inner@);
                                    lemma_views_index(tail@);
                                }
                                inner.append(&mut tail);
                                proof {
                                    lemma_views_index(inner@);
                                    assert(views(inner@) == iv + tv);
                                    assert forall|j: int| 0 <= j < inner@.len() implies wf_inner(
                                        view_expr(#[trigger] inner@[j]),
                                    ) by {
                                        assert(view_expr(inner@[j]) == (iv + tv)[j]);
                                    }
                                }
                                Ok(inner)
                            },
                            _ => {
                                let mut out: Vec<Expr> = Vec::new();
                                out.push(sx);
                                let mut tail = rest;
                                let ghost ov = views(out@);
                                let ghost tv = views(tail@);
                                proof {
                                    crate::expr::lemma_views_concat(out@, tail@);
                                    lemma_views_index(out@);
                                    lemma_views_index(tail@);
                                    assert(views(out@) =~= seq![view_expr(out@[0])]);
                                }
                                out.append(&mut tail);
                                proof {
                                    lemma_views_index(out@);
                                    assert(views(out@) == ov + tv);
                                    assert forall|j: int| 0 <= j < out@.len() implies wf_inner(
                                        view_expr(#[trigger] out@[j]),
                                    ) by {
                                        assert(view_expr(out@[j]) == (ov + tv)[j]);
                                    }
                                }
                                Ok(out)
                            },
                        }
                    },
                }
            },
        }
    }
}

/// Sum the numeric leaves of `lst[i..]` onto `acc`, left to right.
fn sum_numbers(lst: &Vec<Expr>, i: usize, acc: Rat) -> (r: Result<Rat, ExprError>)
    requires
        i <= lst@.len(),
        acc.wf(),
        forall|j: int| i <= j < lst@.len() ==> wf_inner(view_expr(#[trigger] lst@[j])),
    ensures
        (match r {
            Ok(q) => Ok(q@),
            Err(er) => Err(er),
        }) == sum_from(acc@, numbers_of(views(lst@).skip(i as int))),
        r matches Ok(q) ==> q.wf(),
    decreases lst@.len() - i,
{
    let ghost s = views(lst@).skip(i as int);
    proof {
        lemma_views_index(lst@);
    }
    if i == lst.len() {
        Ok(acc)
    } else {
        proof {
            assert(s[0] == view_expr(lst@[i as int]));
            assert(s.drop_first() =~= views(lst@).skip(i + 1));
        }
        match &lst[i] {
            Expr::Number(v) => {
                proof {
                    assert(wf_inner(view_expr(lst@[i as int])));
                    assert(fits_rat(v@));
                    assert(numbers_of(s) == seq![v@] + numbers_of(s.drop_first()));
                    assert(numbers_of(s)[0] == v@);
                    assert(numbers_of(s).drop_first() =~= numbers_of(s.drop_first()));
                }
                match acc.add(*v) {
                    Err(er) => Err(er),
                    Ok(a2) => sum_numbers(lst, i + 1, a2),
                }
            },
            _ => {
                proof {
                    assert(!(s[0] is Number)) by {
                        match lst@[i as int] {
                            Expr::Number(_) => {
                            },
                            Expr::Variable(_) => {
                            },
                            Expr::Neg(_) => {
                            },
                            Expr::Add(_) => {
                            },
                            Expr::Mul(_, _) => {
                            },
                            Expr::Pow(_, _) => {
                            },
                            Expr::Equation(_, _) => {
                            },
                        }
                    }
                    assert(numbers_of(s) == numbers_of(s.drop_first()));
                }
                sum_numbers(lst, i + 1, acc)
            },
        }
    }
}

/// The non-numeric terms of `lst[i..]`, in order, deep-copied.
fn collect_others(lst: &Vec<Expr>, i: usize) -> (r: Vec<Expr>)
    requires
        i <= lst@.len(),
    ensures
        views(r@) == others_of(views(lst@).skip(i as int)),
    decreases lst@.len() - i,
{
    let ghost s = views(lst@).skip(i as int);
    proof {
        lemma_views_index(lst@);
    }
    if i == lst.len() {
        Vec::new()
    } else {
        proof {
            assert(s[0] == view_expr(lst@[i as int]));
            assert(s.drop_first() =~= views(lst@).skip(i + 1));
        }
        let rest = collect_others(lst, i + 1);
        match &lst[i] {
            Expr::Number(_) => rest,
            _ => {
                proof {
                    assert(!(s[0] is Number)) by {
                        match lst@[i as int] {
                            Expr::Number(_) => {
                            },
                            Expr::Variable(_) => {
                            },
                            Expr::Neg(_) => {
                            },
                            Expr::Add(_) => {
                            },
                            Expr::Mul(_, _) => {
                            },
                            Expr::Pow(_, _) => {
                            },
                            Expr::Equation(_, _) => {
                            },
                        }
                    }
                }
                let mut out: Vec<Expr> = Vec::new();
                out.push(lst[i].deep_copy());
                let mut tail = rest;
                proof {
                    crate::expr::lemma_views_concat(out@, tail@);
                    lemma_views_index(out@);
                    assert(views(out@) =~= seq![view_expr(out@[0])]);
                }
                out.append(&mut tail);
                out
            },
        }
    }
}

/// Recursive worker over the factor suffix `fs[i..]`: fold numeric factors
/// into the coefficient, collect variables first, keep the rest in order.
fn simplify_factors(fs: &Vec<Expr>, i: usize, c: Rat) -> (r: Result<
    (Rat, Vec<Expr>, Vec<Expr>),
    ExprError,
>)
    requires
        i <= fs@.len(),
        c.wf(),
        forall|j: int| i <= j < fs@.len() ==> wf_inner(view_expr(#[trigger] fs@[j])),
    ensures
        (match r {
            Ok((c2, vars, others)) => Ok((c2@, views(vars@), views(others@))),
            Err(er) => Err::<(RatV, Seq<ExprS>, Seq<ExprS>), ExprError>(er),
        }) == simplify_factors_s(views(fs@).skip(i as int), c@),
        r matches Ok((c2, vars, others)) ==> (c2.wf() && (forall|j: int|
            0 <= j < others@.len() ==> wf_inner(view_expr(#[trigger] others@[j]))) && (forall|
            j: int,
        |
            0 <= j < vars@.len() ==> wf_inner(view_expr(#[trigger] vars@[j])))),
    decreases msum(views(fs@).skip(i as int)), 1int,
{
    let ghost s = views(fs@).skip(i as int);
    proof {
        lemma_views_index(fs@);
    }
    if i == fs.len() {
        Ok((c, Vec::new(), Vec::new()))
    } else {
        proof {
            assert(s[0] == view_expr(fs@[i as int]));
            assert(s.drop_first() =~= views(fs@).skip(i + 1));
            lemma_msum_elem(s, 0);
            lemma_msize_pos(s[0]);
            crate::expr::lemma_wf_inner_implies_wf_s(s[0]);
        }
        match simplify_ref(&fs[i]) {
            Err(er) => Err(er),
            Ok(sx) => {
                match sx {
                    Expr::Number(a) => {
                        proof {
                            assert(fits_rat(a@));
                        }
                        match c.mul(a) {
                            Err(er) => Err(er),
                            Ok(c1) => simplify_factors(fs, i + 1, c1),
                        }
                    },
                    Expr::Variable(ch) => {
                        match simplify_factors(fs, i + 1, c) {
                            Err(er) => Err(er),
                            Ok((c2, vars, others)) => {
                                let mut vout: Vec<Expr> = Vec::new();
                                vout.push(Expr::Variable(ch));
                                let mut vtail = vars;
                                let ghost hv = views(vout@);
                                let ghost tv = views(vtail@);
                                proof {
                                    crate::expr::lemma_views_concat(vout@, vtail@);
                                    lemma_views_index(vout@);
                                    lemma_views_index(vtail@);
                                    assert(views(vout@) =~= seq![ExprS::Variable(ch)]);
                                }
                                vout.append(&mut vtail);
                                proof {
                                    lemma_views_index(vout@);
                                    assert(views(vout@) == hv + tv);
                                    assert forall|j: int| 0 <= j < vout@.len() implies wf_inner(
                                        view_expr(#[trigger] vout@[j]),
                                    ) by {
                                        assert(view_expr(vout@[j]) == (hv + tv)[j]);
                                    }
                                }
                                Ok((c2, vout, others))
                            },
                        }
                    },
                    _ => {
                        match simplify_factors(fs, i + 1, c) {
                            Err(er) => Err(er),
                            Ok((c2, vars, others)) => {
                                let mut oout: Vec<Expr> = Vec::new();
                                oout.push(sx);
                                let mut otail = others;
                                proof {
                                    crate::expr::lemma_views_concat(oout@, otail@);
                                    lemma_views_index(oout@);
                                    assert(views(oout@) =~= seq![view_expr(oout@[0])]);
                                }
                                oout.append(&mut otail);
                                proof {
                                    lemma_views_index(oout@);
                                }
                                Ok((c2, vars, oout))
                            },
                        }
                    },
                }
            },
        }
    }
}

} // verus!
