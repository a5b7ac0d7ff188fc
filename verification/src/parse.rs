//! The parser: free-form equation text to an expression tree, or a parse
//! failure carrying the 1-based source column of the error.
//!
//! Grammar: an equation is `expr = expr`; an expression is a `+`/`-` chain
//! of terms; a term is a `*` chain of factors; a factor is a negation or a
//! power `atom ^ atom`; an atom is a decimal number, a variable letter, or
//! a parenthesized expression. Whitespace separates tokens freely.

use crate::error::ExprError;
use crate::expr::{view_expr, views, wf_inner, wf_s, Expr};
use crate::rat::Rat;
use vstd::prelude::*;

verus! {

broadcast use vstd::std_specs::vec::group_vec_axioms, vstd::seq::group_seq_axioms;

/// Relies on `str::chars`: the characters of the string, in order.
#[verifier::external_body]
fn str_to_chars(s: &str) -> (r: Vec<char>)
    ensures
        r@ == s@,
{
    s.chars().collect()
}

/// A parse failure at the given 0-based position, reported 1-based.
fn fail(pos: usize) -> (r: ExprError)
    requires
        pos < usize::MAX,
    ensures
        r == (ExprError::ParseError { column: (pos + 1) as usize }),
{
    ExprError::ParseError { column: pos + 1 }
}

/// Skip whitespace from `pos`.
fn skip_ws(chars: &Vec<char>, pos: usize) -> (r: usize)
    requires
        pos <= chars@.len(),
    ensures
        pos <= r <= chars@.len(),
    decreases chars@.len() - pos,
{
    if pos < chars.len() && (chars[pos] == ' ' || chars[pos] == '\t') {
        skip_ws(chars, pos + 1)
    } else {
        pos
    }
}

/// Whether the character is a decimal digit.
fn is_digit(c: char) -> (r: bool)
    ensures
        r <==> (48 <= c as u32 <= 57),
{
    let u = c as u32;
    48 <= u && u <= 57
}

/// Whether the character is an ascii letter.
fn is_letter(c: char) -> (r: bool) {
    let u = c as u32;
    (97 <= u && u <= 122) || (65 <= u && u <= 90)
}

/// Parse a run of digits into an accumulator, failing on overflow.
fn parse_digits(chars: &Vec<char>, pos: usize, acc: u64) -> (r: Result<(u64, u64, usize), u32>)
    requires
        pos <= chars@.len(),
        acc <= 4_000_000_000_000_000_009,
    ensures
        r matches Ok((v, cnt, p)) ==> (pos <= p <= chars@.len() && v
            <= 4_000_000_000_000_000_009 && ((pos < chars@.len() && 48 <= chars@[pos as int]
            as u32 <= 57) ==> p > pos)),
    decreases chars@.len() - pos,
{
    if pos < chars.len() && is_digit(chars[pos]) {
        let d = (chars[pos] as u32) as u64 - 48;
        if acc >= 400_000_000_000_000_000 {
            return Err(0);
        }
        match parse_digits(chars, pos + 1, acc * 10 + d) {
            Ok((v, cnt, p)) => {
                if cnt == u64::MAX {
                    Err(0)
                } else {
                    Ok((v, cnt + 1, p))
                }
            },
            Err(e) => Err(e),
        }
    } else {
        Ok((acc, 0, pos))
    }
}

/// Parse a decimal number literal (an integer, optionally with a decimal
/// fraction) into an exact rational.
#[verifier::loop_isolation(false)]
fn parse_number(chars: &Vec<char>, pos: usize) -> (r: Result<(Rat, usize), ExprError>)
    requires
        pos < chars@.len(),
        chars@.len() < usize::MAX,
    ensures
        r matches Ok((v, p)) ==> (pos < p <= chars@.len() && v.wf()),
        r matches Err(er) ==> (er matches ExprError::ParseError { column } && 1 <= column
            <= chars@.len() + 1),
{
    if !is_digit(chars[pos]) {
        return Err(fail(pos));
    }
    let (ipart, _icnt, p1) = match parse_digits(chars, pos, 0) {
        Ok(t) => t,
        Err(_) => {
            return Err(fail(pos));
        },
    };
    if p1 < chars.len() && chars[p1] == '.' {
        if p1 + 1 < chars.len() && is_digit(chars[p1 + 1]) {
            let (fpart, fcnt, p2) = match parse_digits(chars, p1 + 1, 0) {
                Ok(t) => t,
                Err(_) => {
                    return Err(fail(pos));
                },
            };
            if fcnt > 17 {
                return Err(fail(pos));
            }
            let mut den: u64 = 1;
            let mut k: u64 = 0;
            while k < fcnt
                invariant
                    0 <= k <= fcnt,
                    fcnt <= 17,
                    1 <= den <= 1_000_000_000_000_000_000,
                decreases fcnt - k,
            {
                if den > 100_000_000_000_000_000 {
                    return Err(fail(pos));
                }
                den = den * 10;
                k = k + 1;
            }
            proof {
                assert((ipart as int) * (den as int) + (fpart as int)
                    < 340_282_366_920_938_463_463_374_607_431_768_211_455) by (nonlinear_arith)
                    requires
                        0 <= ipart as int <= 4_000_000_000_000_000_009,
                        0 <= den as int <= 1_000_000_000_000_000_000,
                        0 <= fpart as int <= 4_000_000_000_000_000_009,
                ;
                assert(0 <= (ipart as int) * (den as int)) by (nonlinear_arith)
                    requires
                        0 <= ipart as int,
                        0 <= den as int,
                ;
            }
            let num128: u128 = (ipart as u128) * (den as u128) + (fpart as u128);
            if num128 > 0x7fff_ffff_ffff_fffe {
                return Err(fail(pos));
            }
            match Rat::new(num128 as i64, den as i64) {
                Ok(q) => Ok((q, p2)),
                Err(_) => Err(fail(pos)),
            }
        } else {
            Err(fail(p1))
        }
    } else {
        Ok((Rat::from_int(ipart as i64), p1))
    }
}

/// Parse an atom: a number, a variable letter, or a parenthesized
/// expression.
fn parse_atom(chars: &Vec<char>, pos: usize) -> (r: Result<(Expr, usize), ExprError>)
    requires
        pos <= chars@.len(),
        chars@.len() < usize::MAX,
    ensures
        r matches Ok((e, p)) ==> (pos < p <= chars@.len() && wf_inner(e@)),
        r matches Err(er) ==> (er matches ExprError::ParseError { column } && 1 <= column
            <= chars@.len() + 1),
    decreases chars@.len() - pos, 0int,
{
    let pos = skip_ws(chars, pos);
    if pos >= chars.len() {
        return Err(fail(pos));
    }
    let c = chars[pos];
    if is_digit(c) {
        match parse_number(chars, pos) {
            Ok((v, p)) => {
                let ne = Expr::Number(v);
                proof {
                    assert(crate::rat::fits_rat(v@));
                    assert(ne@ == crate::expr::ExprS::Number(v@));
                    assert(wf_inner(ne@));
                }
                Ok((ne, p))
            },
            Err(er) => Err(er),
        }
    } else if is_letter(c) {
        let ve = Expr::Variable(c);
        proof {
            crate::expr::lemma_wf_variable(ve);
            assert(wf_inner(ve@));
        }
        Ok((ve, pos + 1))
    } else if c == '(' {
        let (e, p) = match parse_expr(chars, pos + 1) {
            Ok(t) => t,
            Err(er) => {
                return Err(er);
            },
        };
        let p = skip_ws(chars, p);
        if p < chars.len() && chars[p] == ')' {
            Ok((e, p + 1))
        } else {
            Err(fail(p))
        }
    } else {
        Err(fail(pos))
    }
}

/// Parse a factor: a negation, or an atom optionally raised to an atom.
fn parse_factor(chars: &Vec<char>, pos: usize) -> (r: Result<(Expr, usize), ExprError>)
    requires
        pos <= chars@.len(),
        chars@.len() < usize::MAX,
    ensures
        r matches Ok((e, p)) ==> (pos < p <= chars@.len() && wf_inner(e@)),
        r matches Err(er) ==> (er matches ExprError::ParseError { column } && 1 <= column
            <= chars@.len() + 1),
    decreases chars@.len() - pos, 1int,
{
    let pos = skip_ws(chars, pos);
    if pos < chars.len() && chars[pos] == '-' {
        let (e, p) = match parse_factor(chars, pos + 1) {
            Ok(t) => t,
            Err(er) => {
                return Err(er);
            },
        };
        Ok((Expr::Neg(Box::new(e)), p))
    } else {
        let (base, p1) = match parse_atom(chars, pos) {
            Ok(t) => t,
            Err(er) => {
                return Err(er);
            },
        };
        let p2 = skip_ws(chars, p1);
        if p2 < chars.len() && chars[p2] == '^' {
            let (ex, p3) = match parse_atom(chars, p2 + 1) {
                Ok(t) => t,
                Err(er) => {
                    return Err(er);
                },
            };
            Ok((Expr::Pow(Box::new(base), Box::new(ex)), p3))
        } else {
            Ok((base, p1))
        }
    }
}

/// Parse a term: a `*` chain of factors. A chain becomes a product with
/// coefficient one; a single factor stands alone.
fn parse_term(chars: &Vec<char>, pos: usize) -> (r: Result<(Expr, usize), ExprError>)
    requires
        pos <= chars@.len(),
        chars@.len() < usize::MAX,
    ensures
        r matches Ok((e, p)) ==> (pos < p <= chars@.len() && wf_inner(e@)),
        r matches Err(er) ==> (er matches ExprError::ParseError { column } && 1 <= column
            <= chars@.len() + 1),
    decreases chars@.len() - pos, 2int,
{
    let (first, p1) = match parse_factor(chars, pos) {
        Ok(t) => t,
        Err(er) => {
            return Err(er);
        },
    };
    let mut factors: Vec<Expr> = Vec::new();
    factors.push(first);
    let mut p = p1;
    let mut done = false;
    proof {
        crate::expr::lemma_views_index(factors@);
    }
    while !done
        invariant
            pos < p <= chars@.len(),
            chars@.len() < usize::MAX,
            factors@.len() >= 1,
            forall|j: int| 0 <= j < factors@.len() ==> wf_inner(view_expr(#[trigger] factors@[j])),
        decreases chars@.len() - p, (if done { 0int } else { 1int }),
    {
        let q = skip_ws(chars, p);
        if q < chars.len() && chars[q] == '*' {
            let (f, p2) = match parse_factor(chars, q + 1) {
                Ok(t) => t,
                Err(er) => {
                    return Err(er);
                },
            };
            factors.push(f);
            p = p2;
        } else {
            done = true;
        }
    }
    if factors.len() == 1 {
        let single = factors.remove(0);
        Ok((single, p))
    } else {
        proof {
            crate::expr::lemma_views_index(factors@);
            assert forall|j: int| 0 <= j < views(factors@).len() implies wf_inner(
                #[trigger] views(factors@)[j],
            ) by {
                assert(views(factors@)[j] == view_expr(factors@[j]));
            }
        }
        Ok((Expr::Mul(Rat::one(), factors), p))
    }
}

/// Parse an expression: a `+`/`-` chain of terms. A chain becomes a sum
/// with subtracted terms negated; a single term stands alone.
fn parse_expr(chars: &Vec<char>, pos: usize) -> (r: Result<(Expr, usize), ExprError>)
    requires
        pos <= chars@.len(),
        chars@.len() < usize::MAX,
    ensures
        r matches Ok((e, p)) ==> (pos < p <= chars@.len() && wf_inner(e@)),
        r matches Err(er) ==> (er matches ExprError::ParseError { column } && 1 <= column
            <= chars@.len() + 1),
    decreases chars@.len() - pos, 3int,
{
    let (first, p1) = match parse_term(chars, pos) {
        Ok(t) => t,
        Err(er) => {
            return Err(er);
        },
    };
    let mut terms: Vec<Expr> = Vec::new();
    terms.push(first);
    let mut p = p1;
    let mut done = false;
    proof {
        crate::expr::lemma_views_index(terms@);
    }
    while !done
        invariant
            pos < p <= chars@.len(),
            chars@.len() < usize::MAX,
            terms@.len() >= 1,
            forall|j: int| 0 <= j < terms@.len() ==> wf_inner(view_expr(#[trigger] terms@[j])),
        decreases chars@.len() - p, (if done { 0int } else { 1int }),
    {
        let q = skip_ws(chars, p);
        if q < chars.len() && (chars[q] == '+' || chars[q] == '-') {
            let minus = chars[q] == '-';
            let (t, p2) = match parse_term(chars, q + 1) {
                Ok(t) => t,
                Err(er) => {
                    return Err(er);
                },
            };
            if minus {
                terms.push(Expr::Neg(Box::new(t)));
            } else {
                terms.push(t);
            }
            p = p2;
        } else {
            done = true;
        }
    }
    if terms.len() == 1 {
        let single = terms.remove(0);
        Ok((single, p))
    } else {
        proof {
            crate::expr::lemma_views_index(terms@);
            assert forall|j: int| 0 <= j < views(terms@).len() implies wf_inner(
                #[trigger] views(terms@)[j],
            ) by {
                assert(views(terms@)[j] == view_expr(terms@[j]));
            }
        }
        Ok((Expr::Add(terms), p))
    }
}

/// Parse a whole equation: `expr = expr`, with nothing but whitespace
/// after it. On success the tree is a well-formed `Equation`; on failure
/// the error carries the 1-based column of the offending character.
pub fn parse(line: &str) -> (r: Result<Expr, ExprError>)
    ensures
        r matches Ok(e) ==> (wf_s(e@) && e@ is Equation),
        r matches Err(er) ==> (er matches ExprError::ParseError { column } && 1 <= column <= line@.len()
            + 1),
{
    let chars = str_to_chars(line);
    if chars.len() >= usize::MAX {
        return Err(ExprError::ParseError { column: 1 });
    }
    let (lhs, p1) = match parse_expr(&chars, 0) {
        Ok(t) => t,
        Err(er) => {
            return Err(er);
        },
    };
    let p2 = skip_ws(&chars, p1);
    if !(p2 < chars.len() && chars[p2] == '=') {
        return Err(fail(p2));
    }
    let (rhs, p3) = match parse_expr(&chars, p2 + 1) {
        Ok(t) => t,
        Err(er) => {
            return Err(er);
        },
    };
    let p4 = skip_ws(&chars, p3);
    if p4 != chars.len() {
        return Err(fail(p4));
    }
    Ok(Expr::Equation(Box::new(lhs), Box::new(rhs)))
}

} // verus!
