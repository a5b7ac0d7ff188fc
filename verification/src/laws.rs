//! Laws of the passes: flatten and simplify map their own images to
//! themselves, and the extractor's table has unique exponents in strictly
//! descending order.

use crate::error::ExprError;
use crate::expr::{wf_inner, wf_s, ExprS};
use crate::flatten::{flatten_factors_s, flatten_s};
use crate::poly::{find_exp, group_s, insert_desc_s, sort_desc_s};
use crate::rat::{add_v, eqv, inv_v, mul_v, neg_v, reduce_v, RatV};
use crate::simplify::{
    lemma_msize_pos, lemma_msum_elem, msize, msum, numbers_of, others_of, simplify_factors_s,
    simplify_s, simplify_terms_s, sum_from,
};
use vstd::prelude::*;

verus! {

broadcast use vstd::seq::group_seq_axioms;

/// A tree in flattened form: no product holds a leading numeric factor or a
/// nested product, recursively below every node that `flatten` visits.
pub open spec fn is_flat(e: ExprS) -> bool
    decreases e,
{
    match e {
        ExprS::Mul(_, fs) => {
            &&& fs.len() >= 1
            &&& !(fs[0] is Number)
            &&& forall|i: int| 0 <= i < fs.len() ==> !((#[trigger] fs[i]) is Mul)
            &&& forall|i: int| 0 <= i < fs.len() ==> is_flat(#[trigger] fs[i])
        },
        ExprS::Pow(b, x) => is_flat(*b) && is_flat(*x),
        ExprS::Equation(l, r) => is_flat(*l) && is_flat(*r),
        _ => true,
    }
}

/// A flat tree is a fixpoint of `flatten`.
pub proof fn lemma_flatten_of_flat(e: ExprS)
    ensures
        is_flat(e) ==> flatten_s(e) == Ok::<ExprS, ExprError>(e),
    decreases e, 0int,
{
    match e {
        ExprS::Mul(c, fs) => {
            if is_flat(e) {
                lemma_flatten_factors_of_flat(fs, c);
                assert(flatten_factors_s(fs, c) == Ok::<(crate::rat::RatV, Seq<ExprS>), ExprError>(
                    (c, fs),
                ));
            }
        },
        ExprS::Pow(b, x) => {
            lemma_flatten_of_flat(*b);
            lemma_flatten_of_flat(*x);
        },
        ExprS::Equation(l, r) => {
            lemma_flatten_of_flat(*l);
            lemma_flatten_of_flat(*r);
        },
        _ => {},
    }
}

/// The factor worker leaves a list of flat non-product factors unchanged.
proof fn lemma_flatten_factors_of_flat(fs: Seq<ExprS>, c: crate::rat::RatV)
    requires
        forall|i: int| 0 <= i < fs.len() ==> !((#[trigger] fs[i]) is Mul),
        forall|i: int| 0 <= i < fs.len() ==> is_flat(#[trigger] fs[i]),
    ensures
        flatten_factors_s(fs, c) == Ok::<(crate::rat::RatV, Seq<ExprS>), ExprError>((c, fs)),
    decreases fs, fs.len(),
{
    if fs.len() == 0 {
        assert(fs =~= Seq::<ExprS>::empty());
    } else {
        lemma_flatten_of_flat(fs[0]);
        assert(forall|i: int|
            0 <= i < fs.drop_first().len() ==> !((#[trigger] fs.drop_first()[i]) is Mul));
        assert(forall|i: int|
            0 <= i < fs.drop_first().len() ==> is_flat(#[trigger] fs.drop_first()[i]));
        lemma_flatten_factors_of_flat(fs.drop_first(), c);
        assert(seq![fs[0]] + fs.drop_first() =~= fs);
    }
}

/// Flatten idempotence: flattening a flattened tree changes nothing. The
/// hypothesis `is_flat(f)` is the exact fixpoint form of `flatten`; a
/// product whose factors fold away entirely (leaving a number in leading
/// position only on the second pass) falls outside it.
pub proof fn lemma_flatten_idempotent(e: ExprS, f: ExprS)
    requires
        flatten_s(e) == Ok::<ExprS, ExprError>(f),
        is_flat(f),
    ensures
        flatten_s(f) == Ok::<ExprS, ExprError>(f),
{
    lemma_flatten_of_flat(f);
}

/// No product of the tree holds a nested product, or a numeric factor
/// anywhere but in leading position.
pub open spec fn products_unnested(e: ExprS) -> bool
    decreases e,
{
    match e {
        ExprS::Mul(_, fs) => {
            &&& fs.len() >= 1
            &&& forall|i: int| 0 <= i < fs.len() ==> !((#[trigger] fs[i]) is Mul)
            &&& forall|i: int| 1 <= i < fs.len() ==> !((#[trigger] fs[i]) is Number)
            &&& forall|i: int| 0 <= i < fs.len() ==> products_unnested(#[trigger] fs[i])
        },
        ExprS::Pow(b, x) => products_unnested(*b) && products_unnested(*x),
        ExprS::Equation(l, r) => products_unnested(*l) && products_unnested(*r),
        _ => true,
    }
}

/// `flatten` keeps the variant of everything but a product.
proof fn lemma_flatten_keeps_variant(e: ExprS)
    ensures
        !(e is Mul) ==> (flatten_s(e) matches Ok(f) ==> ((f is Number <==> e is Number) && (
        f is Variable <==> e is Variable) && (f is Neg <==> e is Neg) && (f is Add <==> e is Add)
            && (f is Pow <==> e is Pow) && (f is Equation <==> e is Equation) && !(f is Mul))),
{
    match e {
        ExprS::Pow(_, _) => {
        },
        ExprS::Equation(_, _) => {
        },
        _ => {
        },
    }
}

/// On a tree without nested products, a successful flatten yields a flat
/// tree.
pub proof fn lemma_flatten_makes_flat(e: ExprS)
    ensures
        products_unnested(e) ==> (flatten_s(e) matches Ok(f) ==> is_flat(f)),
    decreases e, 0int,
{
    match e {
        ExprS::Mul(c, fs) => {
            if products_unnested(e) && fs.len() >= 1 {
                match fs[0] {
                    ExprS::Number(a) => {
                        let c1 = crate::rat::mul_v(c, a);
                        if crate::rat::fits_rat(c1) {
                            assert(forall|i: int|
                                0 <= i < fs.drop_first().len() ==> !((
                                #[trigger] fs.drop_first()[i]) is Mul));
                            assert(forall|i: int|
                                0 <= i < fs.drop_first().len() ==> !((
                                #[trigger] fs.drop_first()[i]) is Number));
                            assert(forall|i: int|
                                0 <= i < fs.drop_first().len() ==> products_unnested(
                                    #[trigger] fs.drop_first()[i],
                                ));
                            lemma_flatten_factors_makes_flat(fs.drop_first(), c1);
                        }
                    },
                    _ => {
                        assert(forall|i: int|
                            1 <= i < fs.len() ==> !((#[trigger] fs[i]) is Number));
                        lemma_flatten_factors_makes_flat(fs, c);
                    },
                }
            }
        },
        ExprS::Pow(b, x) => {
            lemma_flatten_makes_flat(*b);
            lemma_flatten_makes_flat(*x);
        },
        ExprS::Equation(l, r) => {
            lemma_flatten_makes_flat(*l);
            lemma_flatten_makes_flat(*r);
        },
        _ => {},
    }
}

/// The factor worker, on non-product factors with no numeric factor beyond
/// the head, returns flat non-product non-numeric factors.
proof fn lemma_flatten_factors_makes_flat(fs: Seq<ExprS>, c: crate::rat::RatV)
    requires
        forall|i: int| 0 <= i < fs.len() ==> !((#[trigger] fs[i]) is Mul),
        forall|i: int| 0 <= i < fs.len() ==> !((#[trigger] fs[i]) is Number),
        forall|i: int| 0 <= i < fs.len() ==> products_unnested(#[trigger] fs[i]),
    ensures
        flatten_factors_s(fs, c) matches Ok((c2, lst)) ==> (lst.len() == fs.len() && forall|i: int|
            0 <= i < lst.len() ==> (is_flat(#[trigger] lst[i]) && !(lst[i] is Mul) && !(
            lst[i] is Number))),
    decreases fs, fs.len(),
{
    if fs.len() > 0 {
        lemma_flatten_makes_flat(fs[0]);
        lemma_flatten_keeps_variant(fs[0]);
        assert(forall|i: int|
            0 <= i < fs.drop_first().len() ==> !((#[trigger] fs.drop_first()[i]) is Mul));
        assert(forall|i: int|
            0 <= i < fs.drop_first().len() ==> !((#[trigger] fs.drop_first()[i]) is Number));
        assert(forall|i: int|
            0 <= i < fs.drop_first().len() ==> products_unnested(#[trigger] fs.drop_first()[i]));
        lemma_flatten_factors_makes_flat(fs.drop_first(), c);
        match flatten_s(fs[0]) {
            Err(_) => {},
            Ok(f0) => {
                match flatten_factors_s(fs.drop_first(), c) {
                    Err(_) => {},
                    Ok((c2, tail)) => {
                        assert forall|i: int|
                            0 <= i < (seq![f0] + tail).len() implies (is_flat(
                            #[trigger] (seq![f0] + tail)[i],
                        ) && !((seq![f0] + tail)[i] is Mul) && !((seq![f0] + tail)[i]
                            is Number)) by {
                            if i == 0 {
                                assert((seq![f0] + tail)[0] == f0);
                            } else {
                                assert((seq![f0] + tail)[i] == tail[i - 1]);
                            }
                        }
                    },
                }
            },
        }
    }
}

/// No two pairs of the list share an exponent.
pub open spec fn unique_exps(s: Seq<(int, RatV)>) -> bool {
    forall|i: int, j: int| 0 <= i < j < s.len() ==> (#[trigger] s[i]).0 != (#[trigger] s[j]).0
}

/// The exponents are strictly descending.
pub open spec fn strictly_desc(s: Seq<(int, RatV)>) -> bool {
    forall|i: int, j: int| 0 <= i < j < s.len() ==> (#[trigger] s[i]).0 > (#[trigger] s[j]).0
}

/// Some pair of the list has exponent `k`.
pub open spec fn has_exp(s: Seq<(int, RatV)>, k: int) -> bool {
    exists|i: int| 0 <= i < s.len() && (#[trigger] s[i]).0 == k
}

/// `find_exp` fails exactly when no pair has the exponent.
proof fn lemma_find_exp_none(acc: Seq<(int, RatV)>, k: int)
    ensures
        (find_exp(acc, k) is None) <==> !has_exp(acc, k),
        find_exp(acc, k) matches Some(j) ==> (0 <= j < acc.len() && acc[j].0 == k),
    decreases acc,
{
    if acc.len() > 0 {
        lemma_find_exp_none(acc.drop_first(), k);
        if acc[0].0 == k {
        } else {
            assert forall|i: int| 0 <= i < acc.len() && (#[trigger] acc[i]).0 == k implies
            has_exp(acc.drop_first(), k) by {
                assert(acc.drop_first()[i - 1] == acc[i]);
            }
            assert(forall|i: int|
                0 <= i < acc.drop_first().len() ==> #[trigger] acc.drop_first()[i] == acc[i + 1]);
        }
    }
}

/// Grouping keeps the exponents of the accumulator unique.
proof fn lemma_group_unique(pairs: Seq<(int, RatV)>, acc: Seq<(int, RatV)>)
    requires
        unique_exps(acc),
    ensures
        group_s(pairs, acc) matches Ok(g) ==> unique_exps(g),
    decreases pairs,
{
    if pairs.len() > 0 {
        let (k, c) = pairs[0];
        lemma_find_exp_none(acc, k);
        match find_exp(acc, k) {
            Some(j) => {
                let c2 = add_v(acc[j].1, c);
                if crate::rat::fits_rat(c2) {
                    let acc2 = acc.update(j, (k, c2));
                    assert forall|i1: int, i2: int| 0 <= i1 < i2 < acc2.len() implies (
                    #[trigger] acc2[i1]).0 != (#[trigger] acc2[i2]).0 by {
                        assert(acc2[i1].0 == acc[i1].0);
                        assert(acc2[i2].0 == acc[i2].0);
                    }
                    lemma_group_unique(pairs.drop_first(), acc2);
                }
            },
            None => {
                let acc2 = acc + seq![(k, c)];
                assert forall|i1: int, i2: int| 0 <= i1 < i2 < acc2.len() implies (
                #[trigger] acc2[i1]).0 != (#[trigger] acc2[i2]).0 by {
                    if i2 < acc.len() {
                        assert(acc2[i1] == acc[i1] && acc2[i2] == acc[i2]);
                    } else {
                        assert(acc2[i2] == (k, c));
                        assert(acc2[i1] == acc[i1]);
                        assert(!has_exp(acc, k));
                    }
                }
                lemma_group_unique(pairs.drop_first(), acc2);
            },
        }
    }
}

/// Inserting a fresh exponent keeps a strictly descending list strictly
/// descending, and adds exactly that exponent.
proof fn lemma_insert_desc(s: Seq<(int, RatV)>, p: (int, RatV))
    requires
        strictly_desc(s),
        !has_exp(s, p.0),
    ensures
        strictly_desc(insert_desc_s(s, p)),
        forall|x: int| has_exp(insert_desc_s(s, p), x) <==> (has_exp(s, x) || x == p.0),
    decreases s,
{
    let out = insert_desc_s(s, p);
    if s.len() == 0 {
        assert(out == seq![p]);
        assert forall|x: int| has_exp(out, x) implies (has_exp(s, x) || x == p.0) by {
            let i = choose|i: int| 0 <= i < out.len() && (#[trigger] out[i]).0 == x;
            assert(out[i] == p);
        }
        assert(out[0].0 == p.0);
    } else if p.0 > s[0].0 {
        assert(out == seq![p] + s);
        assert forall|i1: int, i2: int| 0 <= i1 < i2 < out.len() implies (#[trigger] out[i1]).0
            > (#[trigger] out[i2]).0 by {
            if i1 == 0 {
                assert(out[i2] == s[i2 - 1]);
                if i2 > 1 {
                    assert(s[0].0 > s[i2 - 1].0);
                }
            } else {
                assert(out[i1] == s[i1 - 1] && out[i2] == s[i2 - 1]);
            }
        }
        assert forall|x: int| has_exp(out, x) implies (has_exp(s, x) || x == p.0) by {
            let i = choose|i: int| 0 <= i < out.len() && (#[trigger] out[i]).0 == x;
            if i > 0 {
                assert(out[i] == s[i - 1]);
            }
        }
        assert forall|x: int| (has_exp(s, x) || x == p.0) implies has_exp(out, x) by {
            if x == p.0 {
                assert(out[0].0 == x);
            } else {
                let i = choose|i: int| 0 <= i < s.len() && (#[trigger] s[i]).0 == x;
                assert(out[i + 1] == s[i]);
            }
        }
    } else {
        let rest = s.drop_first();
        assert(forall|i: int| 0 <= i < rest.len() ==> #[trigger] rest[i] == s[i + 1]);
        assert forall|i1: int, i2: int| 0 <= i1 < i2 < rest.len() implies (
        #[trigger] rest[i1]).0 > (#[trigger] rest[i2]).0 by {
            assert(s[i1 + 1].0 > s[i2 + 1].0);
        }
        assert forall|x: int| has_exp(rest, x) implies has_exp(s, x) by {
            let i = choose|i: int| 0 <= i < rest.len() && (#[trigger] rest[i]).0 == x;
            assert(s[i + 1] == rest[i]);
        }
        lemma_insert_desc(rest, p);
        let tail = insert_desc_s(rest, p);
        assert(out == seq![s[0]] + tail);
        // p.0 <= s[0].0, and p.0 is not s[0].0, so everything in the tail
        // stays below the head
        assert(s[0].0 != p.0);
        assert forall|i1: int, i2: int| 0 <= i1 < i2 < out.len() implies (#[trigger] out[i1]).0
            > (#[trigger] out[i2]).0 by {
            if i1 == 0 {
                assert(out[i2] == tail[i2 - 1]);
                assert(has_exp(tail, tail[i2 - 1].0));
                if tail[i2 - 1].0 == p.0 {
                } else {
                    assert(has_exp(rest, tail[i2 - 1].0));
                    let m = choose|m: int|
                        0 <= m < rest.len() && (#[trigger] rest[m]).0 == tail[i2 - 1].0;
                    assert(s[m + 1] == rest[m]);
                    assert(s[0].0 > s[m + 1].0);
                }
            } else {
                assert(out[i1] == tail[i1 - 1] && out[i2] == tail[i2 - 1]);
            }
        }
        assert forall|x: int| has_exp(out, x) implies (has_exp(s, x) || x == p.0) by {
            let i = choose|i: int| 0 <= i < out.len() && (#[trigger] out[i]).0 == x;
            if i == 0 {
                assert(s[0].0 == x);
            } else {
                assert(out[i] == tail[i - 1]);
                assert(has_exp(tail, x));
            }
        }
        assert forall|x: int| (has_exp(s, x) || x == p.0) implies has_exp(out, x) by {
            if x == p.0 {
                assert(has_exp(tail, x));
                let i = choose|i: int| 0 <= i < tail.len() && (#[trigger] tail[i]).0 == x;
                assert(out[i + 1] == tail[i]);
            } else {
                let i = choose|i: int| 0 <= i < s.len() && (#[trigger] s[i]).0 == x;
                if i == 0 {
                    assert(out[0] == s[0]);
                } else {
                    assert(rest[i - 1] == s[i]);
                    assert(has_exp(rest, x));
                    assert(has_exp(tail, x));
                    let m = choose|m: int| 0 <= m < tail.len() && (#[trigger] tail[m]).0 == x;
                    assert(out[m + 1] == tail[m]);
                }
            }
        }
    }
}

/// Sorting a list of unique exponents yields a strictly descending list
/// with the same exponents.
proof fn lemma_sort_desc(s: Seq<(int, RatV)>)
    requires
        unique_exps(s),
    ensures
        strictly_desc(sort_desc_s(s)),
        forall|x: int| has_exp(sort_desc_s(s), x) <==> has_exp(s, x),
    decreases s,
{
    if s.len() == 0 {
        assert forall|x: int| has_exp(sort_desc_s(s), x) implies has_exp(s, x) by {
            let i = choose|i: int|
                0 <= i < sort_desc_s(s).len() && (#[trigger] sort_desc_s(s)[i]).0 == x;
        }
    } else {
        let rest = s.drop_first();
        assert(forall|i: int| 0 <= i < rest.len() ==> #[trigger] rest[i] == s[i + 1]);
        assert forall|i1: int, i2: int| 0 <= i1 < i2 < rest.len() implies (
        #[trigger] rest[i1]).0 != (#[trigger] rest[i2]).0 by {
            assert(s[i1 + 1].0 != s[i2 + 1].0);
        }
        lemma_sort_desc(rest);
        let sorted = sort_desc_s(rest);
        assert(!has_exp(rest, s[0].0)) by {
            if has_exp(rest, s[0].0) {
                let i = choose|i: int| 0 <= i < rest.len() && (#[trigger] rest[i]).0 == s[0].0;
                assert(s[i + 1] == rest[i]);
                assert(s[0].0 != s[i + 1].0);
            }
        }
        assert(!has_exp(sorted, s[0].0));
        lemma_insert_desc(sorted, s[0]);
        assert forall|x: int| has_exp(s, x) implies has_exp(sort_desc_s(s), x) by {
            let i = choose|i: int| 0 <= i < s.len() && (#[trigger] s[i]).0 == x;
            if i > 0 {
                assert(rest[i - 1] == s[i]);
                assert(has_exp(rest, x));
            }
        }
        assert forall|x: int| has_exp(sort_desc_s(s), x) implies has_exp(s, x) by {
            if has_exp(rest, x) {
                let i = choose|i: int| 0 <= i < rest.len() && (#[trigger] rest[i]).0 == x;
                assert(s[i + 1] == rest[i]);
            }
        }
    }
}

/// The extractor's table invariant: a successful extraction yields pairs
/// with unique exponents, sorted by exponent strictly descending.
pub proof fn lemma_from_expr_table_invariant(e: ExprS)
    ensures
        crate::poly::from_expr_s(e) matches Ok(list) ==> (strictly_desc(list) && unique_exps(
            list,
        )),
{
    match e {
        ExprS::Equation(lhs, rhs) => {
            if *rhs is Number {
                match *lhs {
                    ExprS::Add(terms) => {
                        match crate::poly::classify_all_s(terms) {
                            Err(_) => {},
                            Ok(raw) => {
                                assert(unique_exps(Seq::<(int, RatV)>::empty()));
                                lemma_group_unique(raw, Seq::empty());
                                match group_s(raw, Seq::empty()) {
                                    Err(_) => {},
                                    Ok(grouped) => {
                                        lemma_sort_desc(grouped);
                                        lemma_strictly_desc_unique(sort_desc_s(grouped));
                                    },
                                }
                            },
                        }
                    },
                    _ => {},
                }
            }
        },
        _ => {},
    }
}

/// A strictly descending list has unique exponents.
proof fn lemma_strictly_desc_unique(s: Seq<(int, RatV)>)
    requires
        strictly_desc(s),
    ensures
        unique_exps(s),
{
}

/// The linear root really solves its equation: the value `-c / b` the
/// solver reports for `b*x + c = 0` satisfies `b*r + c == 0` exactly.
pub proof fn lemma_linear_root_satisfies(b: RatV, c: RatV)
    requires
        b.d >= 1,
        c.d >= 1,
        b.n != 0,
    ensures
        eqv(
            add_v(mul_v(b, mul_v(neg_v(c), inv_v(b))), c),
            RatV { n: 0, d: 1 },
        ),
{
    let bi = inv_v(b);
    assert(bi.d >= 1 && bi.n * b.n == b.d * bi.d) by (nonlinear_arith)
        requires
            bi == inv_v(b),
            b.n != 0,
            b.d >= 1,
            (b.n > 0 ==> bi == RatV { n: b.d, d: b.n }) && (!(b.n > 0) ==> bi == RatV {
                n: -b.d,
                d: -b.n,
            }),
    ;
    let nc = neg_v(c);
    crate::rat::lemma_mul_v_exact(nc, bi);
    let r = mul_v(nc, bi);
    crate::rat::lemma_mul_v_exact(b, r);
    let m = mul_v(b, r);
    crate::rat::lemma_add_v_exact(m, c);
    let s = add_v(m, c);
    // r denotes (-c.n * bi.n) / (c.d * bi.d)
    assert(r.n * (c.d * bi.d) == ((-c.n) * bi.n) * r.d);
    // m denotes (b.n * r.n) / (b.d * r.d)
    assert(m.n * (b.d * r.d) == (b.n * r.n) * m.d);
    // s denotes (m.n * c.d + c.n * m.d) / (m.d * c.d)
    assert(s.n * (m.d * c.d) == (m.n * c.d + c.n * m.d) * s.d);
    // cancel bi.d: b.n * r.n * c.d == -c.n * b.d * r.d
    assert(b.n * r.n * c.d == (-c.n) * b.d * r.d) by (nonlinear_arith)
        requires
            r.n * (c.d * bi.d) == ((-c.n) * bi.n) * r.d,
            bi.n * b.n == b.d * bi.d,
            bi.d >= 1,
    ;
    // so the numerator of b*r + c vanishes
    assert(m.n * c.d + c.n * m.d == 0) by (nonlinear_arith)
        requires
            m.n * (b.d * r.d) == (b.n * r.n) * m.d,
            b.n * r.n * c.d == (-c.n) * b.d * r.d,
            b.d >= 1,
            r.d >= 1,
    ;
    assert(s.n == 0) by (nonlinear_arith)
        requires
            s.n * (m.d * c.d) == (m.n * c.d + c.n * m.d) * s.d,
            m.n * c.d + c.n * m.d == 0,
            m.d >= 1,
            c.d >= 1,
    ;
}

/// A rational literal in lowest terms: reducing it changes nothing.
pub open spec fn is_reduced(v: RatV) -> bool {
    reduce_v(v.n, v.d) == v
}

#[via_fn]
proof fn is_simplified_dec(e: ExprS) {
    match e {
        ExprS::Add(ts) => {
            assert forall|i: int| 0 <= i < ts.len() implies msize(#[trigger] ts[i]) <= msum(
                ts,
            ) by {
                lemma_msum_elem(ts, i);
            }
        },
        ExprS::Mul(_, fs) => {
            assert forall|i: int| 0 <= i < fs.len() implies msize(#[trigger] fs[i]) <= msum(
                fs,
            ) by {
                lemma_msum_elem(fs, i);
            }
        },
        ExprS::Neg(x) => {
            lemma_msize_pos(*x);
        },
        ExprS::Pow(b, x) => {
            lemma_msize_pos(*b);
            lemma_msize_pos(*x);
        },
        ExprS::Equation(l, r) => {
            lemma_msize_pos(*l);
            lemma_msize_pos(*r);
        },
        _ => {},
    }
}

/// A tree in simplified form: constants are folded and in lowest terms,
/// sums hold no nested sum and at most one numeric term (last, nonzero),
/// products hold no numeric factor and keep variables first, no double
/// negation or negated sum remains, and no exponent is a foldable number.
pub open spec fn is_simplified(e: ExprS) -> bool
    decreases msize(e), 2int,
    via is_simplified_dec
{
    match e {
        ExprS::Number(_) => true,
        ExprS::Variable(_) => true,
        ExprS::Neg(x) => (*x is Variable) || (((*x is Mul) || (*x is Pow)) && is_simplified(*x)),
        ExprS::Add(ts) => {
            &&& ts.len() >= 2
            &&& forall|i: int| 0 <= i < ts.len() ==> is_simplified(#[trigger] ts[i])
            &&& forall|i: int| 0 <= i < ts.len() ==> !((#[trigger] ts[i]) is Add)
            &&& forall|i: int| 0 <= i < ts.len() - 1 ==> !((#[trigger] ts[i]) is Number)
            &&& (ts[ts.len() - 1] matches ExprS::Number(v) ==> (v.n != 0 && is_reduced(v)))
        },
        ExprS::Mul(c, fs) => {
            &&& c.n != 0
            &&& fs.len() >= 1
            &&& !(c.n == c.d && fs.len() == 1)
            &&& forall|i: int| 0 <= i < fs.len() ==> is_simplified(#[trigger] fs[i])
            &&& forall|i: int| 0 <= i < fs.len() ==> !((#[trigger] fs[i]) is Number)
            &&& forall|i: int, j: int|
                0 <= i < j < fs.len() && !((#[trigger] fs[i]) is Variable) ==> !((
                #[trigger] fs[j]) is Variable)
        },
        ExprS::Pow(b, x) => match *x {
            ExprS::Number(yv) => if *b is Number {
                yv.d != 1
            } else {
                yv.n != yv.d && is_simplified(*b)
            },
            _ => is_simplified(*b) && is_simplified(*x),
        },
        ExprS::Equation(l, r) => is_simplified(*l) && is_simplified(*r),
    }
}

/// A list without numeric leaves partitions into no numbers and itself.
proof fn lemma_partition_no_numbers(ts: Seq<ExprS>)
    requires
        forall|i: int| 0 <= i < ts.len() ==> !((#[trigger] ts[i]) is Number),
    ensures
        numbers_of(ts) == Seq::<RatV>::empty(),
        others_of(ts) == ts,
    decreases ts,
{
    if ts.len() == 0 {
        assert(others_of(ts) =~= ts);
    } else {
        assert(forall|i: int|
            0 <= i < ts.drop_first().len() ==> !((#[trigger] ts.drop_first()[i]) is Number));
        lemma_partition_no_numbers(ts.drop_first());
        assert(others_of(ts) =~= seq![ts[0]] + ts.drop_first());
        assert(seq![ts[0]] + ts.drop_first() =~= ts);
    }
}

/// A list whose one numeric leaf stands last partitions into that number
/// and the rest.
proof fn lemma_partition_last_number(ts: Seq<ExprS>, v: RatV)
    requires
        ts.len() >= 1,
        ts[ts.len() - 1] == ExprS::Number(v),
        forall|i: int| 0 <= i < ts.len() - 1 ==> !((#[trigger] ts[i]) is Number),
    ensures
        numbers_of(ts) == seq![v],
        others_of(ts) == ts.drop_last(),
    decreases ts,
{
    if ts.len() == 1 {
        assert(ts[0] == ExprS::Number(v));
        assert(numbers_of(ts) == seq![v] + numbers_of(ts.drop_first()));
        assert(ts.drop_first().len() == 0);
        assert(numbers_of(ts.drop_first()) == Seq::<RatV>::empty());
        assert(numbers_of(ts) =~= seq![v]);
        assert(others_of(ts) == others_of(ts.drop_first()));
        assert(others_of(ts) =~= ts.drop_last());
    } else {
        let rest = ts.drop_first();
        assert(rest[rest.len() - 1] == ts[ts.len() - 1]);
        assert(forall|i: int|
            0 <= i < rest.len() - 1 ==> !((#[trigger] rest[i]) is Number));
        lemma_partition_last_number(rest, v);
        assert(!(ts[0] is Number));
        assert(numbers_of(ts) == numbers_of(rest));
        assert(others_of(ts) == seq![ts[0]] + others_of(rest));
        assert(seq![ts[0]] + rest.drop_last() =~= ts.drop_last());
    }
}

/// Simplifying an already simplified, well-formed tree changes nothing.
pub proof fn lemma_simplify_of_simplified(e: ExprS)
    ensures
        wf_inner(e) && is_simplified(e) ==> simplify_s(e) == Ok::<ExprS, ExprError>(e),
    decreases msize(e), 0int,
{
    if !(wf_inner(e) && is_simplified(e)) {
        return ;
    }
    match e {
        ExprS::Neg(x) => {
            lemma_msize_pos(*x);
            if !(*x is Variable) {
                lemma_simplify_of_simplified(*x);
            }
        },
        ExprS::Add(ts) => {
            lemma_simplify_terms_of_simplified(ts);
            let lst = ts;
            let last = ts[ts.len() - 1];
            match last {
                ExprS::Number(v) => {
                    lemma_partition_last_number(ts, v);
                    assert(add_v(RatV { n: 0, d: 1 }, v) == reduce_v(
                        0 * v.d + v.n * 1,
                        1 * v.d,
                    ));
                    assert(0 * v.d + v.n * 1 == v.n) by (nonlinear_arith);
                    assert(1 * v.d == v.d) by (nonlinear_arith);
                    assert(add_v(RatV { n: 0, d: 1 }, v) == reduce_v(v.n, v.d));
                    assert(add_v(RatV { n: 0, d: 1 }, v) == v);
                    assert(wf_inner(ts[ts.len() - 1]));
                    assert(crate::rat::fits_rat(v));
                    assert(sum_from(RatV { n: 0, d: 1 }, numbers_of(ts)) == sum_from(
                        v,
                        seq![v].drop_first(),
                    ));
                    assert(seq![v].drop_first() =~= Seq::<RatV>::empty());
                    assert(sum_from(RatV { n: 0, d: 1 }, numbers_of(ts)) == Ok::<
                        RatV,
                        ExprError,
                    >(v));
                    assert(others_of(ts) + seq![ExprS::Number(v)] =~= ts);
                },
                _ => {
                    assert forall|i: int| 0 <= i < ts.len() implies !((#[trigger] ts[i])
                        is Number) by {
                        if i == ts.len() - 1 {
                        }
                    }
                    lemma_partition_no_numbers(ts);
                    assert(sum_from(RatV { n: 0, d: 1 }, numbers_of(ts)) == Ok::<
                        RatV,
                        ExprError,
                    >(RatV { n: 0, d: 1 }));
                },
            }
        },
        ExprS::Mul(c, fs) => {
            lemma_simplify_factors_of_simplified(fs, c);
            match simplify_factors_s(fs, c) {
                Ok((c2, vars, others)) => {
                    assert(vars + others == fs);
                    assert((vars + others).len() == fs.len());
                },
                Err(_) => {
                    assert(false);
                },
            }
        },
        ExprS::Pow(b, x) => {
            lemma_msize_pos(*b);
            lemma_msize_pos(*x);
            match *x {
                ExprS::Number(yv) => {
                    if !(*b is Number) {
                        lemma_simplify_of_simplified(*b);
                    }
                },
                _ => {
                    lemma_simplify_of_simplified(*b);
                    lemma_simplify_of_simplified(*x);
                },
            }
        },
        ExprS::Equation(_, _) => {
            assert(false);
        },
        _ => {},
    }
}

/// Simplifying a list of simplified non-sum terms changes nothing.
proof fn lemma_simplify_terms_of_simplified(ts: Seq<ExprS>)
    ensures
        ((forall|i: int| 0 <= i < ts.len() ==> wf_inner(#[trigger] ts[i])) && (forall|i: int|
            0 <= i < ts.len() ==> is_simplified(#[trigger] ts[i])) && (forall|i: int|
            0 <= i < ts.len() ==> !((#[trigger] ts[i]) is Add))) ==> simplify_terms_s(ts) == Ok::<
            Seq<ExprS>,
            ExprError,
        >(ts),
    decreases msum(ts), 1int,
{
    if ts.len() == 0 {
        assert(simplify_terms_s(ts) == Ok::<Seq<ExprS>, ExprError>(Seq::empty()));
        assert(Seq::<ExprS>::empty() =~= ts);
    } else {
        if (forall|i: int| 0 <= i < ts.len() ==> wf_inner(#[trigger] ts[i])) && (forall|i: int|
            0 <= i < ts.len() ==> is_simplified(#[trigger] ts[i])) && (forall|i: int|
            0 <= i < ts.len() ==> !((#[trigger] ts[i]) is Add)) {
            lemma_msum_elem(ts, 0);
            lemma_msize_pos(ts[0]);
            lemma_simplify_of_simplified(ts[0]);
            assert(forall|i: int|
                0 <= i < ts.drop_first().len() ==> wf_inner(#[trigger] ts.drop_first()[i]));
            assert(forall|i: int|
                0 <= i < ts.drop_first().len() ==> is_simplified(#[trigger] ts.drop_first()[i]));
            assert(forall|i: int|
                0 <= i < ts.drop_first().len() ==> !((#[trigger] ts.drop_first()[i]) is Add));
            lemma_simplify_terms_of_simplified(ts.drop_first());
            assert(seq![ts[0]] + ts.drop_first() =~= ts);
        }
    }
}

/// Simplifying simplified non-numeric factors (variables first) keeps the
/// coefficient and splits the list back into exactly itself.
proof fn lemma_simplify_factors_of_simplified(fs: Seq<ExprS>, c: RatV)
    ensures
        ((forall|i: int| 0 <= i < fs.len() ==> wf_inner(#[trigger] fs[i])) && (forall|i: int|
            0 <= i < fs.len() ==> is_simplified(#[trigger] fs[i])) && (forall|i: int|
            0 <= i < fs.len() ==> !((#[trigger] fs[i]) is Number)) && (forall|i: int, j: int|
            0 <= i < j < fs.len() && !((#[trigger] fs[i]) is Variable) ==> !((#[trigger] fs[j])
                is Variable))) ==> (simplify_factors_s(fs, c) matches Ok((c2, vars, others))
            && c2 == c && vars + others == fs && ((fs.len() > 0 && !(fs[0] is Variable)) ==> vars
            == Seq::<ExprS>::empty())),
    decreases msum(fs), 1int,
{
    if fs.len() == 0 {
        assert(Seq::<ExprS>::empty() + Seq::<ExprS>::empty() =~= fs);
    } else {
        if (forall|i: int| 0 <= i < fs.len() ==> wf_inner(#[trigger] fs[i])) && (forall|i: int|
            0 <= i < fs.len() ==> is_simplified(#[trigger] fs[i])) && (forall|i: int|
            0 <= i < fs.len() ==> !((#[trigger] fs[i]) is Number)) && (forall|i: int, j: int|
            0 <= i < j < fs.len() && !((#[trigger] fs[i]) is Variable) ==> !((#[trigger] fs[j])
                is Variable)) {
            lemma_msum_elem(fs, 0);
            lemma_msize_pos(fs[0]);
            lemma_simplify_of_simplified(fs[0]);
            let rest = fs.drop_first();
            assert(forall|i: int|
                0 <= i < rest.len() ==> wf_inner(#[trigger] rest[i]));
            assert(forall|i: int|
                0 <= i < rest.len() ==> is_simplified(#[trigger] rest[i]));
            assert(forall|i: int|
                0 <= i < rest.len() ==> !((#[trigger] rest[i]) is Number));
            assert forall|i: int, j: int|
                0 <= i < j < rest.len() && !((#[trigger] rest[i]) is Variable) implies !((
            #[trigger] rest[j]) is Variable) by {
                assert(rest[i] == fs[i + 1]);
                assert(rest[j] == fs[j + 1]);
            }
            lemma_simplify_factors_of_simplified(rest, c);
            match fs[0] {
                ExprS::Variable(ch) => {
                    match simplify_factors_s(rest, c) {
                        Ok((c2, vr, or)) => {
                            assert((seq![ExprS::Variable(ch)] + vr) + or =~= seq![fs[0]] + (vr
                                + or));
                            assert(seq![fs[0]] + rest =~= fs);
                        },
                        Err(_) => {
                            assert(false);
                        },
                    }
                },
                _ => {
                    assert forall|j: int| 0 <= j < rest.len() implies !((#[trigger] rest[j])
                        is Variable) by {
                        assert(rest[j] == fs[j + 1]);
                        assert(!(fs[0] is Variable));
                    }
                    match simplify_factors_s(rest, c) {
                        Ok((c2, vr, or)) => {
                            if rest.len() > 0 && !(rest[0] is Variable) {
                                assert(vr == Seq::<ExprS>::empty());
                            } else if rest.len() == 0 {
                                assert(vr + or =~= rest);
                                assert(vr.len() == 0);
                                assert(vr =~= Seq::<ExprS>::empty());
                            } else {
                                assert(rest[0] is Variable);
                                assert(!(fs[0] is Variable));
                                assert(false);
                            }
                            assert(vr + (seq![fs[0]] + or) =~= seq![fs[0]] + or);
                            assert(vr + or =~= rest);
                            assert(or =~= rest);
                            assert(seq![fs[0]] + rest =~= fs);
                        },
                        Err(_) => {
                            assert(false);
                        },
                    }
                },
            }
        }
    }
}

/// Simplify idempotence: a simplify result that is in simplified form is a
/// fixpoint of simplify. The hypothesis `is_simplified(f)` is the fixpoint
/// form itself; a negation whose operand only collapses to a literal on
/// the second pass falls outside it.
pub proof fn lemma_simplify_idempotent(e: ExprS, f: ExprS)
    requires
        wf_s(f),
        simplify_s(e) == Ok::<ExprS, ExprError>(f),
        is_simplified(f),
    ensures
        simplify_s(f) == Ok::<ExprS, ExprError>(f),
{
    match f {
        ExprS::Equation(l, r) => {
            lemma_simplify_of_simplified(*l);
            lemma_simplify_of_simplified(*r);
        },
        _ => {
            lemma_simplify_of_simplified(f);
        },
    }
}

} // verus!
