//! The renderer: a display string for an expression tree.

use crate::expr::{view_expr, views, wf_s, Expr, ExprS};
use crate::rat::RatV;
use vstd::prelude::*;

verus! {

broadcast use vstd::std_specs::vec::group_vec_axioms, vstd::seq::group_seq_axioms;

/// The decimal digit character for a value below ten.
pub open spec fn digit_char(d: nat) -> char
    recommends
        d < 10,
{
    if d == 0 {
        '0'
    } else if d == 1 {
        '1'
    } else if d == 2 {
        '2'
    } else if d == 3 {
        '3'
    } else if d == 4 {
        '4'
    } else if d == 5 {
        '5'
    } else if d == 6 {
        '6'
    } else if d == 7 {
        '7'
    } else if d == 8 {
        '8'
    } else {
        '9'
    }
}

/// The decimal digits of a natural number, most significant first.
pub open spec fn dec_digits(n: nat) -> Seq<char>
    decreases n,
{
    if n < 10 {
        seq![digit_char(n)]
    } else {
        dec_digits(n / 10) + seq![digit_char(n % 10)]
    }
}

/// The decimal form of an integer, with a leading minus when negative.
pub open spec fn int_str(n: int) -> Seq<char> {
    if n < 0 {
        seq!['-'] + dec_digits((-n) as nat)
    } else {
        dec_digits(n as nat)
    }
}

/// The display form of a rational: the numerator, and `/denominator` when
/// the denominator is not one.
pub open spec fn rat_str(v: RatV) -> Seq<char> {
    if v.d == 1 {
        int_str(v.n)
    } else {
        int_str(v.n) + seq!['/'] + int_str(v.d)
    }
}

/// Whether a rendering of this tree begins with a minus sign decides the
/// join in a sum; negation and parenthesization follow the fixed
/// precedence rules.
pub open spec fn render_s(e: ExprS) -> Seq<char>
    decreases e, 0int,
{
    match e {
        ExprS::Number(v) => rat_str(v),
        ExprS::Variable(c) => seq![c],
        ExprS::Neg(x) => if (*x is Number) || (*x is Variable) || (*x is Mul) || (*x is Pow) {
            seq!['-'] + render_s(*x)
        } else {
            seq!['-', '('] + render_s(*x) + seq![')']
        },
        ExprS::Add(ts) => if ts.len() == 0 {
            Seq::empty()
        } else {
            render_s(ts[0]) + render_tail_s(ts.drop_first())
        },
        ExprS::Mul(c, fs) => {
            let prefix = if c.n == c.d {
                Seq::<char>::empty()
            } else {
                rat_str(c) + seq!['*']
            };
            if fs.len() == 0 {
                prefix
            } else {
                prefix + render_factor_s(fs[0]) + render_factors_s(fs.drop_first())
            }
        },
        ExprS::Pow(b, x) => {
            let bs = if (*b is Add) || (*b is Mul) {
                seq!['('] + render_s(*b) + seq![')']
            } else {
                render_s(*b)
            };
            let xs = if (*x is Add) || (*x is Mul) {
                seq!['('] + render_s(*x) + seq![')']
            } else {
                render_s(*x)
            };
            bs + seq!['^'] + xs
        },
        ExprS::Equation(l, r) => render_s(*l) + seq![' ', '=', ' '] + render_s(*r),
    }
}

/// The remaining terms of a sum, each joined by ` + ` or ` - ` by the sign
/// of its own rendering.
pub open spec fn render_tail_s(ts: Seq<ExprS>) -> Seq<char>
    decreases ts, ts.len(),
{
    if ts.len() == 0 {
        Seq::empty()
    } else {
        let s = render_s(ts[0]);
        let joined = if s.len() > 0 && s[0] == '-' {
            seq![' ', '-', ' '] + s.drop_first()
        } else {
            seq![' ', '+', ' '] + s
        };
        joined + render_tail_s(ts.drop_first())
    }
}

/// A factor of a product, parenthesized when it is itself a sum.
pub open spec fn render_factor_s(f: ExprS) -> Seq<char>
    decreases f, 1int,
{
    if f is Add {
        seq!['('] + render_s(f) + seq![')']
    } else {
        render_s(f)
    }
}

/// The remaining factors of a product, each preceded by `*`.
pub open spec fn render_factors_s(fs: Seq<ExprS>) -> Seq<char>
    decreases fs, fs.len() + 2,
{
    if fs.len() == 0 {
        Seq::empty()
    } else {
        seq!['*'] + render_factor_s(fs[0]) + render_factors_s(fs.drop_first())
    }
}

/// Relies on `String`'s `FromIterator<char>`: collecting characters builds
/// the string of exactly those characters.
#[verifier::external_body]
fn chars_to_string(v: &Vec<char>) -> (r: String)
    ensures
        r@ == v@,
{
    v.iter().collect()
}

/// The decimal digit character, executable form.
fn digit_char_exec(d: u64) -> (r: char)
    requires
        d < 10,
    ensures
        r == digit_char(d as nat),
{
    if d == 0 {
        '0'
    } else if d == 1 {
        '1'
    } else if d == 2 {
        '2'
    } else if d == 3 {
        '3'
    } else if d == 4 {
        '4'
    } else if d == 5 {
        '5'
    } else if d == 6 {
        '6'
    } else if d == 7 {
        '7'
    } else if d == 8 {
        '8'
    } else {
        '9'
    }
}

/// The decimal digits of a natural number, executable form.
fn dec_digits_exec(n: u64) -> (r: Vec<char>)
    ensures
        r@ == dec_digits(n as nat),
    decreases n,
{
    if n < 10 {
        let mut v: Vec<char> = Vec::new();
        v.push(digit_char_exec(n));
        proof {
            assert(v@ =~= seq![digit_char(n as nat)]);
        }
        v
    } else {
        let mut v = dec_digits_exec(n / 10);
        v.push(digit_char_exec(n % 10));
        proof {
            assert(v@ =~= dec_digits((n / 10) as nat) + seq![digit_char((n % 10) as nat)]);
        }
        v
    }
}

/// The decimal form of an integer, executable form.
fn int_str_exec(n: i64) -> (r: Vec<char>)
    requires
        n > i64::MIN,
    ensures
        r@ == int_str(n as int),
{
    if n < 0 {
        let mut v: Vec<char> = Vec::new();
        v.push('-');
        let mut tail = dec_digits_exec((-n) as u64);
        let ghost hv = v@;
        let ghost tv = tail@;
        v.append(&mut tail);
        proof {
            assert(v@ == hv + tv);
            assert(hv =~= seq!['-']);
        }
        v
    } else {
        dec_digits_exec(n as u64)
    }
}

/// The display form of a rational, executable form.
fn rat_str_exec(v: crate::rat::Rat) -> (r: Vec<char>)
    requires
        v.wf(),
    ensures
        r@ == rat_str(v@),
{
    if v.denominator() == 1 {
        int_str_exec(v.numerator())
    } else {
        let mut out = int_str_exec(v.numerator());
        let ghost nv = out@;
        out.push('/');
        let mut tail = int_str_exec(v.denominator());
        let ghost mid = out@;
        let ghost tv = tail@;
        out.append(&mut tail);
        proof {
            assert(mid =~= nv + seq!['/']);
            assert(out@ == mid + tv);
            assert(out@ =~= (nv + seq!['/']) + tv);
        }
        out
    }
}

impl Expr {
    /// Render the tree as a display string, exactly as `render_s` states:
    /// unary minus attaches directly to an atomic value, a product or a
    /// power and parenthesizes otherwise; sums join with ` + ` or ` - ` by
    /// the sign of each term's own rendering; products join factors with
    /// `*`, parenthesizing sums; powers parenthesize non-atomic operands.
    pub fn to_string(&self) -> (r: String)
        requires
            wf_s(self@),
        ensures
            r@ == render_s(self@),
    {
        let v = render_chars(self);
        chars_to_string(&v)
    }
}

/// Recursive worker for `Expr::to_string`.
fn render_chars(e: &Expr) -> (r: Vec<char>)
    requires
        wf_s(e@),
    ensures
        r@ == render_s(e@),
    decreases e, 0int,
{
    match e {
        Expr::Number(v) => rat_str_exec(*v),
        Expr::Variable(c) => {
            let mut out: Vec<char> = Vec::new();
            out.push(*c);
            proof {
                assert(out@ =~= seq![*c]);
            }
            out
        },
        Expr::Neg(b) => {
            proof {
                crate::expr::lemma_view_variants(*(*b));
                crate::expr::lemma_wf_inner_implies_wf_s(b@);
            }
            let atomic = match &**b {
                Expr::Number(_) => true,
                Expr::Variable(_) => true,
                Expr::Mul(_, _) => true,
                Expr::Pow(_, _) => true,
                _ => false,
            };
            let mut inner = render_chars(b);
            if atomic {
                let mut out: Vec<char> = Vec::new();
                out.push('-');
                let ghost hv = out@;
                let ghost iv = inner@;
                out.append(&mut inner);
                proof {
                    assert(hv =~= seq!['-']);
                    assert(out@ == hv + iv);
                }
                out
            } else {
                let mut out: Vec<char> = Vec::new();
                out.push('-');
                out.push('(');
                let ghost hv = out@;
                let ghost iv = inner@;
                out.append(&mut inner);
                out.push(')');
                proof {
                    assert(hv =~= seq!['-', '(']);
                    assert(out@ =~= (hv + iv) + seq![')']);
                }
                out
            }
        },
        Expr::Add(ts) => {
            proof {
                crate::expr::lemma_views_index(ts@);
                assert forall|j: int| 0 <= j < ts@.len() implies crate::expr::wf_inner(
                    view_expr(#[trigger] ts@[j]),
                ) by {
                    assert(crate::expr::wf_inner(views(ts@)[j]));
                }
                assert(views(ts@)[0] == view_expr(ts@[0]));
                crate::expr::lemma_wf_inner_implies_wf_s(views(ts@)[0]);
            }
            let mut out = render_chars(&ts[0]);
            let ghost hv = out@;
            let mut tail = render_add_tail(ts, 1);
            let ghost tv = tail@;
            out.append(&mut tail);
            proof {
                assert(views(ts@).drop_first() =~= views(ts@).skip(1));
                assert(out@ == hv + tv);
            }
            out
        },
        Expr::Mul(c, fs) => {
            proof {
                crate::expr::lemma_views_index(fs@);
                assert forall|j: int| 0 <= j < fs@.len() implies crate::expr::wf_inner(
                    view_expr(#[trigger] fs@[j]),
                ) by {
                    assert(crate::expr::wf_inner(views(fs@)[j]));
                }
                assert(views(fs@)[0] == view_expr(fs@[0]));
                crate::expr::lemma_wf_inner_implies_wf_s(views(fs@)[0]);
                assert(crate::rat::fits_rat(c@));
            }
            let mut out: Vec<char> = Vec::new();
            if !c.is_one() {
                let mut pre = rat_str_exec(*c);
                let ghost pv = pre@;
                out.append(&mut pre);
                out.push('*');
                proof {
                    assert(out@ =~= pv + seq!['*']);
                }
            }
            let ghost prefix = out@;
            let mut first = render_factor(&fs[0]);
            let ghost fv = first@;
            out.append(&mut first);
            let ghost mid = out@;
            let mut tail = render_mul_tail(fs, 1);
            let ghost tv = tail@;
            out.append(&mut tail);
            proof {
                assert(views(fs@).drop_first() =~= views(fs@).skip(1));
                assert(mid == prefix + fv);
                assert(out@ == mid + tv);
                assert(out@ =~= (prefix + fv) + tv);
            }
            out
        },
        Expr::Pow(b, x) => {
            proof {
                crate::expr::lemma_view_variants(*(*b));
                crate::expr::lemma_view_variants(*(*x));
                crate::expr::lemma_wf_inner_implies_wf_s(b@);
                crate::expr::lemma_wf_inner_implies_wf_s(x@);
            }
            let bpar = match &**b {
                Expr::Add(_) => true,
                Expr::Mul(_, _) => true,
                _ => false,
            };
            let xpar = match &**x {
                Expr::Add(_) => true,
                Expr::Mul(_, _) => true,
                _ => false,
            };
            let mut bs = render_chars(b);
            let mut out: Vec<char> = Vec::new();
            if bpar {
                out.push('(');
                let ghost hv = out@;
                let ghost bv = bs@;
                out.append(&mut bs);
                out.push(')');
                proof {
                    assert(hv =~= seq!['(']);
                    assert(out@ =~= (seq!['('] + bv) + seq![')']);
                }
            } else {
                let ghost bv = bs@;
                out.append(&mut bs);
                proof {
                    assert(out@ =~= bv);
                }
            }
            out.push('^');
            let ghost mid = out@;
            let mut xs = render_chars(x);
            if xpar {
                let mut part: Vec<char> = Vec::new();
                part.push('(');
                let ghost hv = part@;
                let ghost xv = xs@;
                part.append(&mut xs);
                part.push(')');
                proof {
                    assert(hv =~= seq!['(']);
                    assert(part@ =~= (seq!['('] + xv) + seq![')']);
                }
                let ghost pv = part@;
                let mut tail = part;
                out.append(&mut tail);
                proof {
                    assert(out@ == mid + pv);
                }
            } else {
                let ghost xv = xs@;
                out.append(&mut xs);
                proof {
                    assert(out@ == mid + xv);
                }
            }
            out
        },
        Expr::Equation(l, r2) => {
            proof {
                crate::expr::lemma_wf_inner_implies_wf_s(l@);
                crate::expr::lemma_wf_inner_implies_wf_s(r2@);
            }
            let mut out = render_chars(l);
            let ghost lv = out@;
            out.push(' ');
            out.push('=');
            out.push(' ');
            let ghost mid = out@;
            let mut rv = render_chars(r2);
            let ghost rvv = rv@;
            out.append(&mut rv);
            proof {
                assert(mid =~= lv + seq![' ', '=', ' ']);
                assert(out@ == mid + rvv);
            }
            out
        },
    }
}

/// The terms `ts[i..]` of a sum, joined by sign.
fn render_add_tail(ts: &Vec<Expr>, i: usize) -> (r: Vec<char>)
    requires
        1 <= i <= ts@.len(),
        forall|j: int|
            0 <= j < ts@.len() ==> crate::expr::wf_inner(view_expr(#[trigger] ts@[j])),
    ensures
        r@ == render_tail_s(views(ts@).skip(i as int)),
    decreases ts, ts@.len() - i,
{
    let ghost s = views(ts@).skip(i as int);
    proof {
        crate::expr::lemma_views_index(ts@);
    }
    if i == ts.len() {
        let r: Vec<char> = Vec::new();
        proof {
            assert(r@ =~= render_tail_s(s));
        }
        r
    } else {
        proof {
            assert(s[0] == view_expr(ts@[i as int]));
            assert(s.drop_first() =~= views(ts@).skip(i + 1));
            crate::expr::lemma_wf_inner_implies_wf_s(s[0]);
            assert(decreases_to!(ts => ts@));
            assert(decreases_to!(ts@ => ts@[i as int]));
        }
        let piece = render_chars(&ts[i]);
        let ghost pv = piece@;
        let mut out: Vec<char> = Vec::new();
        let neg = piece.len() > 0 && piece[0] == '-';
        if neg {
            out.push(' ');
            out.push('-');
            out.push(' ');
            let ghost hv = out@;
            let mut rest_chars: Vec<char> = Vec::new();
            let mut k: usize = 1;
            #[verifier::loop_isolation(false)]
            while k < piece.len()
                invariant
                    1 <= k <= piece@.len(),
                    rest_chars@ =~= piece@.subrange(1, k as int),
                decreases piece@.len() - k,
            {
                rest_chars.push(piece[k]);
                proof {
                    assert(rest_chars@ =~= piece@.subrange(1, k + 1));
                }
                k = k + 1;
            }
            let ghost rv = rest_chars@;
            let mut tail0 = rest_chars;
            out.append(&mut tail0);
            proof {
                assert(hv =~= seq![' ', '-', ' ']);
                assert(rv =~= pv.drop_first());
                assert(out@ == hv + rv);
            }
        } else {
            out.push(' ');
            out.push('+');
            out.push(' ');
            let ghost hv = out@;
            let mut tail0 = piece;
            out.append(&mut tail0);
            proof {
                assert(hv =~= seq![' ', '+', ' ']);
                assert(out@ == hv + pv);
            }
        }
        let ghost joined = out@;
        let mut rest = render_add_tail(ts, i + 1);
        let ghost restv = rest@;
        out.append(&mut rest);
        proof {
            assert(out@ == joined + restv);
        }
        out
    }
}

/// One factor of a product, parenthesized when it is a sum.
fn render_factor(f: &Expr) -> (r: Vec<char>)
    requires
        crate::expr::wf_inner(f@),
    ensures
        r@ == render_factor_s(f@),
    decreases f, 1int,
{
    proof {
        crate::expr::lemma_view_variants(*f);
        crate::expr::lemma_wf_inner_implies_wf_s(f@);
    }
    match f {
        Expr::Add(_) => {
            let mut out: Vec<char> = Vec::new();
            out.push('(');
            let ghost hv = out@;
            let mut inner = render_chars(f);
            let ghost iv = inner@;
            out.append(&mut inner);
            out.push(')');
            proof {
                assert(hv =~= seq!['(']);
                assert(out@ =~= (seq!['('] + iv) + seq![')']);
            }
            out
        },
        _ => render_chars(f),
    }
}

/// The factors `fs[i..]` of a product, each preceded by `*`.
fn render_mul_tail(fs: &Vec<Expr>, i: usize) -> (r: Vec<char>)
    requires
        1 <= i <= fs@.len(),
        forall|j: int|
            0 <= j < fs@.len() ==> crate::expr::wf_inner(view_expr(#[trigger] fs@[j])),
    ensures
        r@ == render_factors_s(views(fs@).skip(i as int)),
    decreases fs, fs@.len() - i,
{
    let ghost s = views(fs@).skip(i as int);
    proof {
        crate::expr::lemma_views_index(fs@);
    }
    if i == fs.len() {
        let r: Vec<char> = Vec::new();
        proof {
            assert(r@ =~= render_factors_s(s));
        }
        r
    } else {
        proof {
            assert(s[0] == view_expr(fs@[i as int]));
            assert(s.drop_first() =~= views(fs@).skip(i + 1));
            assert(decreases_to!(fs => fs@));
            assert(decreases_to!(fs@ => fs@[i as int]));
        }
        let mut out: Vec<char> = Vec::new();
        out.push('*');
        let ghost hv = out@;
        let mut piece = render_factor(&fs[i]);
        let ghost pv = piece@;
        out.append(&mut piece);
        let ghost mid = out@;
        let mut rest = render_mul_tail(fs, i + 1);
        let ghost rv = rest@;
        out.append(&mut rest);
        proof {
            assert(hv =~= seq!['*']);
            assert(mid == hv + pv);
            assert(out@ == mid + rv);
            assert(out@ =~= (seq!['*'] + pv) + rv);
        }
        out
    }
}

} // verus!
