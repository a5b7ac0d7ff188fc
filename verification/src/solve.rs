//! The closed-form solver: dispatch on the coefficient table's shape to
//! degree-0/1/2 roots, exactly over rationals.

use crate::error::ExprError;
use crate::poly::{pairs_wf, Poly};
use crate::rat::{add_v, fits_rat, inv_v, is_square, mul_v, neg_v, Rat, RatV};
use vstd::prelude::*;

verus! {

/// A root value: either an exact rational, or `base + coeff * sqrt(radicand)`
/// for an irrational root, kept symbolically exact.
#[derive(Debug, PartialEq)]
pub enum RootValue {
    /// An exact rational root.
    Rational(Rat),
    /// `base + coeff * sqrt(radicand)`, with a positive non-square radicand.
    Radical { base: Rat, coeff: Rat, radicand: Rat },
}

/// The model of a root value.
pub enum RootValueV {
    /// An exact rational root.
    Rational(RatV),
    /// `base + coeff * sqrt(radicand)`.
    Radical { base: RatV, coeff: RatV, radicand: RatV },
}

impl View for RootValue {
    type V = RootValueV;

    open spec fn view(&self) -> RootValueV {
        match self {
            RootValue::Rational(r) => RootValueV::Rational(r@),
            RootValue::Radical { base, coeff, radicand } => RootValueV::Radical {
                base: base@,
                coeff: coeff@,
                radicand: radicand@,
            },
        }
    }
}

/// The report of the root solver.
#[derive(Debug, PartialEq)]
pub enum Solution {
    /// Exactly one root.
    Root(RootValue),
    /// Two distinct real roots (positive discriminant).
    TwoRoots(RootValue, RootValue),
    /// No real solutions: the conjugate pair `re - im*i` and `re + im*i`
    /// (negative discriminant).
    ComplexPair { re: Rat, im: RootValue },
}

/// The model of a solution.
pub enum SolutionV {
    /// Exactly one root.
    Root(RootValueV),
    /// Two distinct real roots.
    TwoRoots(RootValueV, RootValueV),
    /// The conjugate pair `re - im*i` and `re + im*i`.
    ComplexPair { re: RatV, im: RootValueV },
}

impl View for Solution {
    type V = SolutionV;

    open spec fn view(&self) -> SolutionV {
        match self {
            Solution::Root(r) => SolutionV::Root(r@),
            Solution::TwoRoots(r1, r2) => SolutionV::TwoRoots(r1@, r2@),
            Solution::ComplexPair { re, im } => SolutionV::ComplexPair { re: re@, im: im@ },
        }
    }
}

/// The absolute value of a rational.
pub open spec fn abs_v(a: RatV) -> RatV {
    if a.n >= 0 {
        a
    } else {
        neg_v(a)
    }
}

/// The discriminant `b*b - 4*a*c`, computed in this exact order; fails when
/// an intermediate leaves the representable range.
pub open spec fn disc_s(a: RatV, b: RatV, c: RatV) -> Result<RatV, ExprError> {
    let bb = mul_v(b, b);
    if !fits_rat(bb) {
        Err(ExprError::Overflow)
    } else {
        let fa = mul_v(RatV { n: 4, d: 1 }, a);
        if !fits_rat(fa) {
            Err(ExprError::Overflow)
        } else {
            let fac = mul_v(fa, c);
            if !fits_rat(fac) {
                Err(ExprError::Overflow)
            } else {
                let d = add_v(bb, neg_v(fac));
                if !fits_rat(d) {
                    Err(ExprError::Overflow)
                } else {
                    Ok(d)
                }
            }
        }
    }
}

/// The componentwise square root of a rational whose numerator and
/// denominator are both perfect squares: the unique nonnegative integer
/// roots of each.
pub open spec fn sqrt_cs(d: RatV) -> RatV
    recommends
        is_square(d.n),
        is_square(d.d),
        d.d >= 1,
{
    RatV {
        n: choose|k: int| 0 <= k && #[trigger] (k * k) == d.n,
        d: choose|k: int| 1 <= k && #[trigger] (k * k) == d.d,
    }
}

/// What the quadratic solver returns for `a*x^2 + b*x + c = 0`, `a != 0`:
/// with discriminant `D = b*b - 4*a*c` and `s = sqrt(D)` (or `sqrt(-D)`),
/// - `D > 0`: the roots `(-b - s) / (2a)` and `(-b + s) / (2a)`, as exact
///   rationals when `D` is a perfect square componentwise, else as radical
///   values `-b/(2a) -+ (1/(2a)) * sqrt(D)`;
/// - `D == 0`: the single root `-b / (2a)`;
/// - `D < 0`: no real solutions, the conjugate pair `-b/(2a) +- i*im` with
///   `im = sqrt(-D) / |2a|`, exact when `-D` is a perfect square.
/// Fails only when an exact intermediate leaves the representable range.
pub open spec fn solve_quad_s(a: RatV, b: RatV, c: RatV) -> Result<SolutionV, ExprError>
    recommends
        a.n != 0,
{
    match disc_s(a, b, c) {
        Err(er) => Err(er),
        Ok(d) => {
            let ta = mul_v(RatV { n: 2, d: 1 }, a);
            if !fits_rat(ta) {
                Err(ExprError::Overflow)
            } else {
                let nb = neg_v(b);
                if d.n == 0 {
                    let r = mul_v(nb, inv_v(ta));
                    if !fits_rat(r) {
                        Err(ExprError::Overflow)
                    } else {
                        Ok(SolutionV::Root(RootValueV::Rational(r)))
                    }
                } else if d.n > 0 {
                    if is_square(d.n) && is_square(d.d) {
                        let s = sqrt_cs(d);
                        let t1 = add_v(nb, neg_v(s));
                        if !fits_rat(t1) {
                            Err(ExprError::Overflow)
                        } else {
                            let r1 = mul_v(t1, inv_v(ta));
                            if !fits_rat(r1) {
                                Err(ExprError::Overflow)
                            } else {
                                let t2 = add_v(nb, s);
                                if !fits_rat(t2) {
                                    Err(ExprError::Overflow)
                                } else {
                                    let r2 = mul_v(t2, inv_v(ta));
                                    if !fits_rat(r2) {
                                        Err(ExprError::Overflow)
                                    } else {
                                        Ok(SolutionV::TwoRoots(
                                            RootValueV::Rational(r1),
                                            RootValueV::Rational(r2),
                                        ))
                                    }
                                }
                            }
                        }
                    } else {
                        let base = mul_v(nb, inv_v(ta));
                        if !fits_rat(base) {
                            Err(ExprError::Overflow)
                        } else {
                            Ok(SolutionV::TwoRoots(
                                RootValueV::Radical {
                                    base: base,
                                    coeff: neg_v(inv_v(ta)),
                                    radicand: d,
                                },
                                RootValueV::Radical { base: base, coeff: inv_v(ta), radicand: d },
                            ))
                        }
                    }
                } else {
                    let re = mul_v(nb, inv_v(ta));
                    if !fits_rat(re) {
                        Err(ExprError::Overflow)
                    } else {
                        let nd = neg_v(d);
                        if is_square(nd.n) && is_square(nd.d) {
                            let s = sqrt_cs(nd);
                            let im = mul_v(s, inv_v(abs_v(ta)));
                            if !fits_rat(im) {
                                Err(ExprError::Overflow)
                            } else {
                                Ok(
                                    SolutionV::ComplexPair {
                                        re: re,
                                        im: RootValueV::Rational(im),
                                    },
                                )
                            }
                        } else {
                            Ok(
                                SolutionV::ComplexPair {
                                    re: re,
                                    im: RootValueV::Radical {
                                        base: RatV { n: 0, d: 1 },
                                        coeff: inv_v(abs_v(ta)),
                                        radicand: nd,
                                    },
                                },
                            )
                        }
                    }
                }
            }
        },
    }
}

/// What the dispatcher returns, by the shape of the coefficient table
/// (pairs `(exponent, coefficient)`, highest exponent first):
/// - `[(1, _)]`: the root `0`;
/// - `[(2, a)]`: the quadratic `a*x^2 = 0`;
/// - `[(1, b), (0, c)]`: the linear root `-c / b`;
/// - `[(2, a), (1, b)]`, `[(2, a), (0, c)]`, `[(2, a), (1, b), (0, c)]`:
///   the corresponding quadratic;
/// - any other shape cannot be solved.
/// A zero leading coefficient in the linear or quadratic patterns is a
/// division by zero; an unrepresentable exact intermediate is an overflow.
pub open spec fn solve_s(list: Seq<(int, RatV)>) -> Result<SolutionV, ExprError> {
    if list.len() == 1 && list[0].0 == 1 {
        Ok(SolutionV::Root(RootValueV::Rational(RatV { n: 0, d: 1 })))
    } else if list.len() == 1 && list[0].0 == 2 {
        if list[0].1.n == 0 {
            Err(ExprError::DivisionByZero)
        } else {
            solve_quad_s(list[0].1, RatV { n: 0, d: 1 }, RatV { n: 0, d: 1 })
        }
    } else if list.len() == 2 && list[0].0 == 1 && list[1].0 == 0 {
        if list[0].1.n == 0 {
            Err(ExprError::DivisionByZero)
        } else {
            let r = mul_v(neg_v(list[1].1), inv_v(list[0].1));
            if !fits_rat(r) {
                Err(ExprError::Overflow)
            } else {
                Ok(SolutionV::Root(RootValueV::Rational(r)))
            }
        }
    } else if list.len() == 2 && list[0].0 == 2 && list[1].0 == 1 {
        if list[0].1.n == 0 {
            Err(ExprError::DivisionByZero)
        } else {
            solve_quad_s(list[0].1, list[1].1, RatV { n: 0, d: 1 })
        }
    } else if list.len() == 2 && list[0].0 == 2 && list[1].0 == 0 {
        if list[0].1.n == 0 {
            Err(ExprError::DivisionByZero)
        } else {
            solve_quad_s(list[0].1, RatV { n: 0, d: 1 }, list[1].1)
        }
    } else if list.len() == 3 && list[0].0 == 2 && list[1].0 == 1 && list[2].0 == 0 {
        if list[0].1.n == 0 {
            Err(ExprError::DivisionByZero)
        } else {
            solve_quad_s(list[0].1, list[1].1, list[2].1)
        }
    } else {
        Err(ExprError::CannotSolve)
    }
}

/// The model of an executable solution result.
pub open spec fn lift_solution(r: Result<Solution, ExprError>) -> Result<SolutionV, ExprError> {
    match r {
        Ok(s) => Ok(s@),
        Err(er) => Err(er),
    }
}

/// Solve `a*x^2 + b*x + c = 0` for a nonzero `a`, exactly as
/// `solve_quad_s` states.
pub fn solve_quad(a: Rat, b: Rat, c: Rat) -> (r: Result<Solution, ExprError>)
    requires
        a.wf(),
        b.wf(),
        c.wf(),
        a@.n != 0,
    ensures
        lift_solution(r) == solve_quad_s(a@, b@, c@),
{
    let bb = match b.mul(b) {
        Ok(v) => v,
        Err(er) => {
            return Err(er);
        },
    };
    let fa = match (Rat { num: 4, den: 1 }).mul(a) {
        Ok(v) => v,
        Err(er) => {
            return Err(er);
        },
    };
    let fac = match fa.mul(c) {
        Ok(v) => v,
        Err(er) => {
            return Err(er);
        },
    };
    let d = match bb.add(fac.neg()) {
        Ok(v) => v,
        Err(er) => {
            return Err(er);
        },
    };
    let ta = match (Rat { num: 2, den: 1 }).mul(a) {
        Ok(v) => v,
        Err(er) => {
            return Err(er);
        },
    };
    proof {
        crate::rat::lemma_reduce_zero(2 * a@.n, 1 * a@.d);
        assert(ta@.n != 0);
    }
    let nb = b.neg();
    let sign = d.signum();
    if sign == 0 {
        match nb.mul(ta.inv()) {
            Ok(r) => Ok(Solution::Root(RootValue::Rational(r))),
            Err(er) => Err(er),
        }
    } else if sign == 1 {
        match d.sqrt_exact() {
            Some(s) => {
                proof {
                    lemma_sqrt_cs_unique(d@, s@);
                }
                let t1 = match nb.add(s.neg()) {
                    Ok(v) => v,
                    Err(er) => {
                        return Err(er);
                    },
                };
                let r1 = match t1.mul(ta.inv()) {
                    Ok(v) => v,
                    Err(er) => {
                        return Err(er);
                    },
                };
                let t2 = match nb.add(s) {
                    Ok(v) => v,
                    Err(er) => {
                        return Err(er);
                    },
                };
                let r2 = match t2.mul(ta.inv()) {
                    Ok(v) => v,
                    Err(er) => {
                        return Err(er);
                    },
                };
                Ok(Solution::TwoRoots(RootValue::Rational(r1), RootValue::Rational(r2)))
            },
            None => {
                let base = match nb.mul(ta.inv()) {
                    Ok(v) => v,
                    Err(er) => {
                        return Err(er);
                    },
                };
                Ok(
                    Solution::TwoRoots(
                        RootValue::Radical { base, coeff: ta.inv().neg(), radicand: d },
                        RootValue::Radical { base, coeff: ta.inv(), radicand: d },
                    ),
                )
            },
        }
    } else {
        let re = match nb.mul(ta.inv()) {
            Ok(v) => v,
            Err(er) => {
                return Err(er);
            },
        };
        let nd = d.neg();
        let abs_ta = if ta.signum() >= 0 {
            ta
        } else {
            ta.neg()
        };
        proof {
            assert(abs_ta@ == abs_v(ta@));
            assert(abs_ta@.n != 0);
        }
        match nd.sqrt_exact() {
            Some(s) => {
                proof {
                    lemma_sqrt_cs_unique(nd@, s@);
                }
                match s.mul(abs_ta.inv()) {
                    Ok(im) => Ok(
                        Solution::ComplexPair { re, im: RootValue::Rational(im) },
                    ),
                    Err(er) => Err(er),
                }
            },
            None => Ok(
                Solution::ComplexPair {
                    re,
                    im: RootValue::Radical {
                        base: Rat { num: 0, den: 1 },
                        coeff: abs_ta.inv(),
                        radicand: nd,
                    },
                },
            ),
        }
    }
}

/// The componentwise square root is unique, so an executable root matching
/// the squares is the `sqrt_cs` witness.
proof fn lemma_sqrt_cs_unique(d: RatV, s: RatV)
    requires
        s.n >= 0,
        s.d >= 1,
        s.n * s.n == d.n,
        s.d * s.d == d.d,
    ensures
        is_square(d.n),
        is_square(d.d),
        sqrt_cs(d) == s,
{
    assert(0 <= s.n && (s.n * s.n) == d.n);
    assert(0 <= s.d && (s.d * s.d) == d.d);
    let kn = choose|k: int| 0 <= k && #[trigger] (k * k) == d.n;
    let kd = choose|k: int| 1 <= k && #[trigger] (k * k) == d.d;
    assert(1 <= s.d && (s.d * s.d) == d.d);
    assert(kn == s.n) by (nonlinear_arith)
        requires
            0 <= kn,
            kn * kn == d.n,
            0 <= s.n,
            s.n * s.n == d.n,
    ;
    assert(kd == s.d) by (nonlinear_arith)
        requires
            1 <= kd,
            kd * kd == d.d,
            1 <= s.d,
            s.d * s.d == d.d,
    ;
}

/// Solve the equation the coefficient table stands for, dispatching on its
/// shape exactly as `solve_s` states.
pub fn solve(p: &Poly) -> (r: Result<Solution, ExprError>)
    requires
        pairs_wf(p.list@),
    ensures
        lift_solution(r) == solve_s(p@),
{
    proof {
        crate::poly::lemma_pairs_view_index(p.list@);
    }
    let n = p.list.len();
    if n == 1 && p.list[0].0 == 1 {
        Ok(Solution::Root(RootValue::Rational(Rat { num: 0, den: 1 })))
    } else if n == 1 && p.list[0].0 == 2 {
        let a = p.list[0].1;
        if a.is_zero() {
            Err(ExprError::DivisionByZero)
        } else {
            solve_quad(a, Rat { num: 0, den: 1 }, Rat { num: 0, den: 1 })
        }
    } else if n == 2 && p.list[0].0 == 1 && p.list[1].0 == 0 {
        let b = p.list[0].1;
        let c = p.list[1].1;
        if b.is_zero() {
            Err(ExprError::DivisionByZero)
        } else {
            match c.neg().mul(b.inv()) {
                Ok(r0) => Ok(Solution::Root(RootValue::Rational(r0))),
                Err(er) => Err(er),
            }
        }
    } else if n == 2 && p.list[0].0 == 2 && p.list[1].0 == 1 {
        let a = p.list[0].1;
        let b = p.list[1].1;
        if a.is_zero() {
            Err(ExprError::DivisionByZero)
        } else {
            solve_quad(a, b, Rat { num: 0, den: 1 })
        }
    } else if n == 2 && p.list[0].0 == 2 && p.list[1].0 == 0 {
        let a = p.list[0].1;
        let c = p.list[1].1;
        if a.is_zero() {
            Err(ExprError::DivisionByZero)
        } else {
            solve_quad(a, Rat { num: 0, den: 1 }, c)
        }
    } else if n == 3 && p.list[0].0 == 2 && p.list[1].0 == 1 && p.list[2].0 == 0 {
        let a = p.list[0].1;
        let b = p.list[1].1;
        let c = p.list[2].1;
        if a.is_zero() {
            Err(ExprError::DivisionByZero)
        } else {
            solve_quad(a, b, c)
        }
    } else {
        Err(ExprError::CannotSolve)
    }
}

} // verus!
