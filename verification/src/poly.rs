//! The polynomial extractor: maps the canonical tree to an ordered
//! exponent/coefficient table.

use crate::error::ExprError;
use crate::expr::{view_expr, views, wf_inner, wf_s, Expr, ExprS};
use crate::rat::{add_v, fits_rat, neg_v, Rat, RatV};
use vstd::prelude::*;

verus! {

broadcast use vstd::std_specs::vec::group_vec_axioms, vstd::seq::group_seq_axioms;

/// One extracted `(exponent, coefficient)` pair, modelled over `int`.
pub open spec fn pair_view(p: (u32, Rat)) -> (int, RatV) {
    (p.0 as int, p.1@)
}

/// The model of an extracted pair list.
pub open spec fn pairs_view(s: Seq<(u32, Rat)>) -> Seq<(int, RatV)>
    decreases s,
{
    if s.len() == 0 {
        Seq::empty()
    } else {
        seq![pair_view(s[0])] + pairs_view(s.drop_first())
    }
}

/// `pairs_view` is the pointwise model of its argument.
pub proof fn lemma_pairs_view_index(s: Seq<(u32, Rat)>)
    ensures
        pairs_view(s).len() == s.len(),
        forall|i: int| 0 <= i < s.len() ==> pairs_view(s)[i] == pair_view(s[i]),
    decreases s,
{
    if s.len() > 0 {
        lemma_pairs_view_index(s.drop_first());
    }
}

/// The polynomial form of a canonical equation: exponent/coefficient pairs,
/// exponents unique, sorted by exponent descending.
#[derive(Debug, PartialEq)]
pub struct Poly {
    /// The pairs, highest exponent first.
    pub list: Vec<(u32, Rat)>,
}

impl View for Poly {
    type V = Seq<(int, RatV)>;

    open spec fn view(&self) -> Seq<(int, RatV)> {
        pairs_view(self.list@)
    }
}

/// The whole-number exponent a literal stands for, when it is one:
/// a nonnegative integer no larger than `u32::MAX`.
pub open spec fn exp_of_num(e: ExprS) -> Option<int> {
    match e {
        ExprS::Number(v) => if v.d == 1 && 0 <= v.n <= 0xffff_ffff {
            Some(v.n)
        } else {
            None
        },
        _ => None,
    }
}

/// The exponent of a one-factor monomial list: a bare variable has
/// exponent one, a variable raised to a whole number has that exponent.
pub open spec fn mono_exp(fs: Seq<ExprS>) -> Option<int> {
    if fs.len() != 1 {
        None
    } else if fs[0] is Variable {
        Some(1)
    } else {
        match fs[0] {
            ExprS::Pow(b, ex) => if *b is Variable {
                exp_of_num(*ex)
            } else {
                None
            },
            _ => None,
        }
    }
}

/// Classify one term of the canonical sum as an `(exponent, coefficient)`
/// pair, per the recognized term shapes; any other shape is not a
/// polynomial term.
pub open spec fn classify_s(t: ExprS) -> Result<(int, RatV), ExprError> {
    match t {
        ExprS::Number(x) => Ok((0, x)),
        ExprS::Variable(_) => Ok((1, RatV { n: 1, d: 1 })),
        ExprS::Neg(inner) => match *inner {
            ExprS::Variable(_) => Ok((1, RatV { n: -1, d: 1 })),
            ExprS::Mul(x, fs) => match mono_exp(fs) {
                Some(k) => Ok((k, neg_v(x))),
                None => Err(ExprError::NotPolynomial),
            },
            ExprS::Pow(b, ex) => if *b is Variable {
                match exp_of_num(*ex) {
                    Some(k) => Ok((k, RatV { n: -1, d: 1 })),
                    None => Err(ExprError::NotPolynomial),
                }
            } else {
                Err(ExprError::NotPolynomial)
            },
            _ => Err(ExprError::NotPolynomial),
        },
        ExprS::Mul(x, fs) => match mono_exp(fs) {
            Some(k) => Ok((k, x)),
            None => Err(ExprError::NotPolynomial),
        },
        ExprS::Pow(b, ex) => match *b {
            ExprS::Variable(_) => match exp_of_num(*ex) {
                Some(k) => Ok((k, RatV { n: 1, d: 1 })),
                None => Err(ExprError::NotPolynomial),
            },
            ExprS::Neg(bb) => if *bb is Variable {
                match exp_of_num(*ex) {
                    Some(k) => Ok((k, RatV { n: -1, d: 1 })),
                    None => Err(ExprError::NotPolynomial),
                }
            } else {
                Err(ExprError::NotPolynomial)
            },
            _ => Err(ExprError::NotPolynomial),
        },
        _ => Err(ExprError::NotPolynomial),
    }
}

/// Classify every term of the list, left to right.
pub open spec fn classify_all_s(ts: Seq<ExprS>) -> Result<Seq<(int, RatV)>, ExprError>
    decreases ts,
{
    if ts.len() == 0 {
        Ok(Seq::empty())
    } else {
        match classify_s(ts[0]) {
            Err(er) => Err(er),
            Ok(p) => match classify_all_s(ts.drop_first()) {
                Err(er) => Err(er),
                Ok(rest) => Ok(seq![p] + rest),
            },
        }
    }
}

/// The first position in `acc` holding exponent `k`, if any.
pub open spec fn find_exp(acc: Seq<(int, RatV)>, k: int) -> Option<int>
    decreases acc,
{
    if acc.len() == 0 {
        None
    } else if acc[0].0 == k {
        Some(0)
    } else {
        match find_exp(acc.drop_first(), k) {
            Some(j) => Some(j + 1),
            None => None,
        }
    }
}

/// Group pairs by exponent, summing coefficients of equal exponents into
/// the first occurrence, in encounter order. Fails only when a coefficient
/// sum leaves the representable range.
pub open spec fn group_s(pairs: Seq<(int, RatV)>, acc: Seq<(int, RatV)>) -> Result<
    Seq<(int, RatV)>,
    ExprError,
>
    decreases pairs,
{
    if pairs.len() == 0 {
        Ok(acc)
    } else {
        let (k, c) = pairs[0];
        match find_exp(acc, k) {
            Some(j) => {
                let c2 = add_v(acc[j].1, c);
                if !fits_rat(c2) {
                    Err(ExprError::Overflow)
                } else {
                    group_s(pairs.drop_first(), acc.update(j, (k, c2)))
                }
            },
            None => group_s(pairs.drop_first(), acc + seq![(k, c)]),
        }
    }
}

/// Insert a pair into a list sorted by exponent descending, before the
/// first entry with a smaller exponent.
pub open spec fn insert_desc_s(s: Seq<(int, RatV)>, p: (int, RatV)) -> Seq<(int, RatV)>
    decreases s,
{
    if s.len() == 0 {
        seq![p]
    } else if p.0 > s[0].0 {
        seq![p] + s
    } else {
        seq![s[0]] + insert_desc_s(s.drop_first(), p)
    }
}

/// Sort pairs by exponent descending (insertion sort, right to left).
pub open spec fn sort_desc_s(s: Seq<(int, RatV)>) -> Seq<(int, RatV)>
    decreases s,
{
    if s.len() == 0 {
        Seq::empty()
    } else {
        insert_desc_s(sort_desc_s(s.drop_first()), s[0])
    }
}

/// What `Poly::from_expr` returns. The input must be the canonical
/// `Equation(Add(terms), Number(_))`, whose terms are classified, grouped
/// by exponent and sorted descending; or one of the degenerate single-term
/// equation shapes, which map directly to a one-pair list.
pub open spec fn from_expr_s(e: ExprS) -> Result<Seq<(int, RatV)>, ExprError> {
    match e {
        ExprS::Equation(lhs, rhs) => {
            if !(*rhs is Number) {
                Err(ExprError::NotPolynomial)
            } else {
                match *lhs {
                    ExprS::Add(terms) => match classify_all_s(terms) {
                        Err(er) => Err(er),
                        Ok(raw) => match group_s(raw, Seq::empty()) {
                            Err(er) => Err(er),
                            Ok(grouped) => Ok(sort_desc_s(grouped)),
                        },
                    },
                    ExprS::Mul(n, fs) => match mono_exp(fs) {
                        Some(k) => Ok(seq![(k, n)]),
                        None => Err(ExprError::NotPolynomial),
                    },
                    ExprS::Variable(_) => Ok(seq![(1int, RatV { n: 0, d: 1 })]),
                    ExprS::Neg(inner) => if *inner is Variable {
                        Ok(seq![(1int, RatV { n: 0, d: 1 })])
                    } else {
                        Err(ExprError::NotPolynomial)
                    },
                    _ => Err(ExprError::NotPolynomial),
                }
            }
        },
        _ => Err(ExprError::NotPolynomial),
    }
}

/// All coefficients in a pair list are well-formed rationals.
pub open spec fn pairs_wf(s: Seq<(u32, Rat)>) -> bool {
    forall|j: int| 0 <= j < s.len() ==> (#[trigger] s[j]).1.wf()
}

/// `pairs_view` distributes over concatenation.
pub proof fn lemma_pairs_view_concat(a: Seq<(u32, Rat)>, b: Seq<(u32, Rat)>)
    ensures
        pairs_view(a + b) == pairs_view(a) + pairs_view(b),
{
    lemma_pairs_view_index(a);
    lemma_pairs_view_index(b);
    lemma_pairs_view_index(a + b);
    assert(pairs_view(a + b) =~= pairs_view(a) + pairs_view(b));
}

/// The model of an executable pair result.
pub open spec fn lift_pair(r: Result<(u32, Rat), ExprError>) -> Result<(int, RatV), ExprError> {
    match r {
        Ok(p) => Ok(pair_view(p)),
        Err(er) => Err(er),
    }
}

/// The model of an executable pair-list result.
pub open spec fn lift_pairs(r: Result<Vec<(u32, Rat)>, ExprError>) -> Result<
    Seq<(int, RatV)>,
    ExprError,
> {
    match r {
        Ok(v) => Ok(pairs_view(v@)),
        Err(er) => Err(er),
    }
}

/// The numeric literal a tree holds, if it is one.
fn num_of(e: &Expr) -> (r: Option<Rat>)
    ensures
        match r {
            Some(v) => e@ == ExprS::Number(v@),
            None => !(e@ is Number),
        },
{
    match e {
        Expr::Number(v) => Some(*v),
        _ => {
            proof {
                crate::expr::lemma_view_variants(*e);
            }
            None
        },
    }
}

/// Whether a tree is the bare variable.
fn is_var(e: &Expr) -> (r: bool)
    ensures
        r <==> (e@ is Variable),
{
    proof {
        crate::expr::lemma_view_variants(*e);
    }
    match e {
        Expr::Variable(_) => true,
        _ => false,
    }
}

/// The whole-number exponent a literal stands for, mirroring `exp_of_num`.
fn exp_num(e: &Expr) -> (r: Option<u32>)
    ensures
        match r {
            Some(k) => exp_of_num(e@) == Some(k as int),
            None => exp_of_num(e@) is None,
        },
{
    proof {
        crate::expr::lemma_view_variants(*e);
    }
    match e {
        Expr::Number(v) => {
            if v.denominator() == 1 && v.numerator() >= 0 && v.numerator() <= 0xffff_ffff {
                Some(v.numerator() as u32)
            } else {
                None
            }
        },
        _ => None,
    }
}

/// The exponent of a one-factor monomial list, mirroring `mono_exp`.
fn mono_exp_exec(fs: &Vec<Expr>) -> (r: Option<u32>)
    ensures
        match r {
            Some(k) => mono_exp(views(fs@)) == Some(k as int),
            None => mono_exp(views(fs@)) is None,
        },
{
    proof {
        crate::expr::lemma_views_index(fs@);
    }
    if fs.len() != 1 {
        None
    } else {
        proof {
            assert(views(fs@)[0] == view_expr(fs@[0]));
            crate::expr::lemma_view_variants(fs@[0]);
        }
        match &fs[0] {
            Expr::Variable(_) => Some(1),
            Expr::Pow(b, ex) => {
                proof {
                    crate::expr::lemma_view_variants(*(*b));
                }
                match &**b {
                    Expr::Variable(_) => exp_num(ex),
                    _ => None,
                }
            },
            _ => None,
        }
    }
}

/// Classify one term, mirroring `classify_s`.
fn classify_term(t: &Expr) -> (r: Result<(u32, Rat), ExprError>)
    requires
        wf_inner(t@),
    ensures
        lift_pair(r) == classify_s(t@),
        r matches Ok(p) ==> p.1.wf(),
{
    proof {
        crate::expr::lemma_view_variants(*t);
    }
    match t {
        Expr::Number(x) => Ok((0, *x)),
        Expr::Variable(_) => Ok((1, Rat { num: 1, den: 1 })),
        Expr::Neg(inner) => {
            proof {
                crate::expr::lemma_view_variants(*(*inner));
            }
            match &**inner {
                Expr::Variable(_) => Ok((1, Rat { num: -1, den: 1 })),
                Expr::Mul(x, fs) => {
                    match mono_exp_exec(fs) {
                        Some(k) => {
                            proof {
                                assert(wf_inner(view_expr(*(*inner))));
                                assert(fits_rat(x@));
                            }
                            Ok((k, x.neg()))
                        },
                        None => Err(ExprError::NotPolynomial),
                    }
                },
                Expr::Pow(b, ex) => {
                    if is_var(b) {
                        match exp_num(ex) {
                            Some(k) => Ok((k, Rat { num: -1, den: 1 })),
                            None => Err(ExprError::NotPolynomial),
                        }
                    } else {
                        Err(ExprError::NotPolynomial)
                    }
                },
                _ => Err(ExprError::NotPolynomial),
            }
        },
        Expr::Mul(x, fs) => {
            match mono_exp_exec(fs) {
                Some(k) => Ok((k, *x)),
                None => Err(ExprError::NotPolynomial),
            }
        },
        Expr::Pow(b, ex) => {
            proof {
                crate::expr::lemma_view_variants(*(*b));
            }
            match &**b {
                Expr::Variable(_) => {
                    match exp_num(ex) {
                        Some(k) => Ok((k, Rat { num: 1, den: 1 })),
                        None => Err(ExprError::NotPolynomial),
                    }
                },
                Expr::Neg(bb) => {
                    if is_var(bb) {
                        match exp_num(ex) {
                            Some(k) => Ok((k, Rat { num: -1, den: 1 })),
                            None => Err(ExprError::NotPolynomial),
                        }
                    } else {
                        Err(ExprError::NotPolynomial)
                    }
                },
                _ => Err(ExprError::NotPolynomial),
            }
        },
        _ => Err(ExprError::NotPolynomial),
    }
}

/// Classify the terms `ts[i..]`, mirroring `classify_all_s`.
fn classify_all(ts: &Vec<Expr>, i: usize) -> (r: Result<Vec<(u32, Rat)>, ExprError>)
    requires
        i <= ts@.len(),
        forall|j: int| i <= j < ts@.len() ==> wf_inner(view_expr(#[trigger] ts@[j])),
    ensures
        lift_pairs(r) == classify_all_s(views(ts@).skip(i as int)),
        r matches Ok(v) ==> pairs_wf(v@),
    decreases ts@.len() - i,
{
    let ghost s = views(ts@).skip(i as int);
    proof {
        crate::expr::lemma_views_index(ts@);
    }
    if i == ts.len() {
        let r: Vec<(u32, Rat)> = Vec::new();
        proof {
            assert(pairs_view(r@) =~= Seq::<(int, RatV)>::empty());
        }
        Ok(r)
    } else {
        proof {
            assert(s[0] == view_expr(ts@[i as int]));
            assert(s.drop_first() =~= views(ts@).skip(i + 1));
        }
        match classify_term(&ts[i]) {
            Err(er) => Err(er),
            Ok(p) => {
                match classify_all(ts, i + 1) {
                    Err(er) => Err(er),
                    Ok(rest) => {
                        let mut out: Vec<(u32, Rat)> = Vec::new();
                        out.push(p);
                        let mut tail = rest;
                        let ghost hv = pairs_view(out@);
                        let ghost tv = pairs_view(tail@);
                        proof {
                            lemma_pairs_view_concat(out@, tail@);
                            lemma_pairs_view_index(out@);
                            assert(hv =~= seq![pair_view(p)]);
                        }
                        out.append(&mut tail);
                        proof {
                            lemma_pairs_view_index(out@);
                            assert(pairs_view(out@) == hv + tv);
                        }
                        Ok(out)
                    },
                }
            },
        }
    }
}

/// Find the position of exponent `k` in `acc[i..]`, mirroring `find_exp`.
fn find_exp_exec(acc: &Vec<(u32, Rat)>, i: usize, k: u32) -> (r: Option<usize>)
    requires
        i <= acc@.len(),
    ensures
        match r {
            Some(j) => i <= j < acc@.len() && find_exp(pairs_view(acc@).skip(i as int), k as int)
                == Some(j - i),
            None => find_exp(pairs_view(acc@).skip(i as int), k as int) is None,
        },
    decreases acc@.len() - i,
{
    let ghost s = pairs_view(acc@).skip(i as int);
    proof {
        lemma_pairs_view_index(acc@);
    }
    if i == acc.len() {
        None
    } else {
        proof {
            assert(s[0] == pair_view(acc@[i as int]));
            assert(s.drop_first() =~= pairs_view(acc@).skip(i + 1));
        }
        if acc[i].0 == k {
            Some(i)
        } else {
            match find_exp_exec(acc, i + 1, k) {
                Some(j) => Some(j),
                None => None,
            }
        }
    }
}

/// Group `pairs[i..]` into `acc`, mirroring `group_s`.
fn group_pairs(pairs: &Vec<(u32, Rat)>, i: usize, acc: Vec<(u32, Rat)>) -> (r: Result<
    Vec<(u32, Rat)>,
    ExprError,
>)
    requires
        i <= pairs@.len(),
        pairs_wf(pairs@),
        pairs_wf(acc@),
    ensures
        lift_pairs(r) == group_s(pairs_view(pairs@).skip(i as int), pairs_view(acc@)),
        r matches Ok(v) ==> pairs_wf(v@),
    decreases pairs@.len() - i,
{
    let ghost s = pairs_view(pairs@).skip(i as int);
    proof {
        lemma_pairs_view_index(pairs@);
    }
    if i == pairs.len() {
        Ok(acc)
    } else {
        proof {
            assert(s[0] == pair_view(pairs@[i as int]));
            assert(s.drop_first() =~= pairs_view(pairs@).skip(i + 1));
        }
        let (k, c) = pairs[i];
        proof {
            assert(pairs_view(acc@).skip(0) =~= pairs_view(acc@));
            assert(pairs@[i as int].1.wf());
        }
        match find_exp_exec(&acc, 0, k) {
            Some(j) => {
                proof {
                    lemma_pairs_view_index(acc@);
                    assert(pairs_view(acc@)[j as int] == pair_view(acc@[j as int]));
                    assert(acc@[j as int].1.wf());
                }
                let old_pair = acc[j];
                let ghost av = acc@;
                match old_pair.1.add(c) {
                    Err(er) => Err(er),
                    Ok(c2) => {
                        let mut acc2 = acc;
                        acc2.set(j, (k, c2));
                        proof {
                            lemma_pairs_view_index(acc2@);
                            lemma_pairs_view_index(av);
                            assert(pairs_view(acc2@) =~= pairs_view(av).update(
                                j as int,
                                (k as int, c2@),
                            ));
                            assert forall|m: int| 0 <= m < acc2@.len() implies (
                            #[trigger] acc2@[m]).1.wf() by {
                                if m != j {
                                    assert(acc2@[m] == av[m]);
                                }
                            }
                        }
                        group_pairs(pairs, i + 1, acc2)
                    },
                }
            },
            None => {
                let ghost av = acc@;
                let mut acc2 = acc;
                acc2.push((k, c));
                proof {
                    lemma_pairs_view_index(acc2@);
                    lemma_pairs_view_index(av);
                    assert(acc2@ =~= av + seq![(k, c)]);
                    assert(pairs_view(acc2@) =~= pairs_view(av) + seq![(k as int, c@)]);
                    assert forall|m: int| 0 <= m < acc2@.len() implies (
                    #[trigger] acc2@[m]).1.wf() by {
                        if m < av.len() {
                            assert(acc2@[m] == av[m]);
                        } else {
                            assert(acc2@[m] == (k, c));
                        }
                    }
                }
                group_pairs(pairs, i + 1, acc2)
            },
        }
    }
}

/// Insert a pair into the sorted suffix, mirroring `insert_desc_s`.
#[verifier::loop_isolation(false)]
fn insert_from(lst: &Vec<(u32, Rat)>, i: usize, p: (u32, Rat)) -> (r: Vec<(u32, Rat)>)
    requires
        i <= lst@.len(),
        pairs_wf(lst@),
        p.1.wf(),
    ensures
        pairs_view(r@) == insert_desc_s(pairs_view(lst@).skip(i as int), pair_view(p)),
        pairs_wf(r@),
    decreases lst@.len() - i,
{
    let ghost s = pairs_view(lst@).skip(i as int);
    proof {
        lemma_pairs_view_index(lst@);
    }
    if i == lst.len() {
        let mut out: Vec<(u32, Rat)> = Vec::new();
        out.push(p);
        proof {
            lemma_pairs_view_index(out@);
            assert(pairs_view(out@) =~= seq![pair_view(p)]);
            assert(pairs_wf(out@));
        }
        out
    } else {
        proof {
            assert(s[0] == pair_view(lst@[i as int]));
            assert(s.drop_first() =~= pairs_view(lst@).skip(i + 1));
        }
        if p.0 > lst[i].0 {
            let mut out: Vec<(u32, Rat)> = Vec::new();
            out.push(p);
            let mut j = i;
            proof {
                lemma_pairs_view_index(out@);
                assert(pairs_view(out@) =~= seq![pair_view(p)]);
            }
            while j < lst.len()
                invariant
                    i <= j <= lst@.len(),
                    out@.len() == 1 + j - i,
                    out@[0] == p,
                    forall|m: int| 0 <= m < j - i ==> #[trigger] out@[m + 1] == lst@[i + m],
                decreases lst@.len() - j,
            {
                out.push(lst[j]);
                j = j + 1;
            }
            proof {
                lemma_pairs_view_index(out@);
                lemma_pairs_view_index(lst@);
                let rhs = seq![pair_view(p)] + pairs_view(lst@).skip(i as int);
                assert forall|m: int| 0 <= m < out@.len() implies pairs_view(out@)[m] == rhs[m] by {
                    if m > 0 {
                        assert(out@[(m - 1) + 1] == lst@[i + (m - 1)]);
                        assert(pairs_view(lst@).skip(i as int)[m - 1] == pairs_view(lst@)[i + m
                            - 1]);
                    }
                }
                assert(pairs_view(out@) =~= rhs);
                assert forall|m: int| 0 <= m < out@.len() implies (#[trigger] out@[m]).1.wf() by {
                    if m > 0 {
                        assert(out@[(m - 1) + 1] == lst@[i + (m - 1)]);
                        assert(lst@[i + m - 1].1.wf());
                    }
                }
            }
            out
        } else {
            let rest = insert_from(lst, i + 1, p);
            let mut out: Vec<(u32, Rat)> = Vec::new();
            out.push(lst[i]);
            let mut tail = rest;
            let ghost hv = pairs_view(out@);
            let ghost tv = pairs_view(tail@);
            let ghost hseq = out@;
            let ghost tseq = tail@;
            proof {
                lemma_pairs_view_concat(out@, tail@);
                lemma_pairs_view_index(out@);
                assert(hv =~= seq![pair_view(lst@[i as int])]);
            }
            out.append(&mut tail);
            proof {
                assert(pairs_view(out@) == hv + tv);
                assert(out@ == hseq + tseq);
                assert forall|m: int| 0 <= m < out@.len() implies (#[trigger] out@[m]).1.wf() by {
                    if m == 0 {
                        assert(out@[0] == lst@[i as int]);
                    } else {
                        assert(out@[m] == tseq[m - 1]);
                    }
                }
            }
            out
        }
    }
}

/// Sort the suffix by exponent descending, mirroring `sort_desc_s`.
fn sort_from(lst: &Vec<(u32, Rat)>, i: usize) -> (r: Vec<(u32, Rat)>)
    requires
        i <= lst@.len(),
        pairs_wf(lst@),
    ensures
        pairs_view(r@) == sort_desc_s(pairs_view(lst@).skip(i as int)),
        pairs_wf(r@),
    decreases lst@.len() - i,
{
    let ghost s = pairs_view(lst@).skip(i as int);
    proof {
        lemma_pairs_view_index(lst@);
    }
    if i == lst.len() {
        let r: Vec<(u32, Rat)> = Vec::new();
        proof {
            assert(pairs_view(r@) =~= Seq::<(int, RatV)>::empty());
        }
        r
    } else {
        proof {
            assert(s[0] == pair_view(lst@[i as int]));
            assert(s.drop_first() =~= pairs_view(lst@).skip(i + 1));
        }
        let rest = sort_from(lst, i + 1);
        let out = insert_from(&rest, 0, lst[i]);
        proof {
            assert(pairs_view(rest@).skip(0) =~= pairs_view(rest@));
        }
        out
    }
}

impl Poly {
    /// Extract the exponent/coefficient table from a canonical equation,
    /// exactly as `from_expr_s` states; any unrecognized shape is reported
    /// as not a polynomial.
    pub fn from_expr(expr: &Expr) -> (r: Result<Poly, ExprError>)
        requires
            wf_s(expr@),
        ensures
            (match r {
                Ok(p) => Ok(p@),
                Err(er) => Err::<Seq<(int, RatV)>, ExprError>(er),
            }) == from_expr_s(expr@),
            r matches Ok(p) ==> pairs_wf(p.list@),
    {
        proof {
            crate::expr::lemma_view_variants(*expr);
        }
        match expr {
            Expr::Equation(lhs, rhs) => {
                proof {
                    crate::expr::lemma_view_variants(*(*rhs));
                    crate::expr::lemma_view_variants(*(*lhs));
                }
                if num_of(rhs).is_none() {
                    return Err(ExprError::NotPolynomial);
                }
                match &**lhs {
                    Expr::Add(terms) => {
                        proof {
                            crate::expr::lemma_views_index(terms@);
                            assert forall|j: int| 0 <= j < terms@.len() implies wf_inner(
                                view_expr(#[trigger] terms@[j]),
                            ) by {
                                assert(wf_inner(views(terms@)[j]));
                            }
                            assert(views(terms@).skip(0) =~= views(terms@));
                        }
                        match classify_all(terms, 0) {
                            Err(er) => Err(er),
                            Ok(raw) => {
                                proof {
                                    assert(pairs_view(raw@).skip(0) =~= pairs_view(raw@));
                                    assert(pairs_view(Seq::<(u32, Rat)>::empty())
                                        =~= Seq::<(int, RatV)>::empty());
                                }
                                match group_pairs(&raw, 0, Vec::new()) {
                                    Err(er) => Err(er),
                                    Ok(grouped) => {
                                        proof {
                                            assert(pairs_view(grouped@).skip(0) =~= pairs_view(
                                                grouped@,
                                            ));
                                        }
                                        let list = sort_from(&grouped, 0);
                                        Ok(Poly { list })
                                    },
                                }
                            },
                        }
                    },
                    Expr::Mul(n, fs) => {
                        proof {
                            assert(wf_inner(view_expr(*(*lhs))));
                            assert(fits_rat(n@));
                        }
                        match mono_exp_exec(fs) {
                            Some(k) => {
                                let mut list: Vec<(u32, Rat)> = Vec::new();
                                list.push((k, *n));
                                proof {
                                    lemma_pairs_view_index(list@);
                                    assert(pairs_view(list@) =~= seq![(k as int, n@)]);
                                }
                                Ok(Poly { list })
                            },
                            None => Err(ExprError::NotPolynomial),
                        }
                    },
                    Expr::Variable(_) => {
                        let mut list: Vec<(u32, Rat)> = Vec::new();
                        list.push((1, Rat { num: 0, den: 1 }));
                        proof {
                            lemma_pairs_view_index(list@);
                            assert(pairs_view(list@) =~= seq![(1int, RatV { n: 0, d: 1 })]);
                        }
                        Ok(Poly { list })
                    },
                    Expr::Neg(inner) => {
                        if is_var(inner) {
                            let mut list: Vec<(u32, Rat)> = Vec::new();
                            list.push((1, Rat { num: 0, den: 1 }));
                            proof {
                                lemma_pairs_view_index(list@);
                                assert(pairs_view(list@) =~= seq![(1int, RatV { n: 0, d: 1 })]);
                            }
                            Ok(Poly { list })
                        } else {
                            Err(ExprError::NotPolynomial)
                        }
                    },
                    _ => Err(ExprError::NotPolynomial),
                }
            },
            _ => Err(ExprError::NotPolynomial),
        }
    }
}

} // verus!
