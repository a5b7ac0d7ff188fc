//! The full pipeline: normalize an equation, canonicalize it, extract its
//! polynomial table, and solve.

use crate::error::ExprError;
use crate::expr::{wf_s, Expr, ExprS};
use crate::flatten::flatten_s;
use crate::canon::move_to_left_s;
use crate::poly::{from_expr_s, Poly};
use crate::rat::RatV;
use crate::simplify::simplify_s;
use crate::solve::{solve_s, Solution, SolutionV};
use vstd::prelude::*;

verus! {

/// What solving an equation tree returns: the canonical coefficient table
/// and the root report, after
/// flatten, simplify, move-to-left, flatten, simplify, flatten, simplify
/// (canonicalization reintroduces nested negation and addition that only a
/// fresh flatten and simplify resolve), extraction, and the solver.
pub open spec fn pipeline_s(e: ExprS) -> Result<(Seq<(int, RatV)>, SolutionV), ExprError>
    recommends
        e is Equation,
{
    match flatten_s(e) {
        Err(er) => Err(er),
        Ok(f1) => match simplify_s(f1) {
            Err(er) => Err(er),
            Ok(s1) => {
                let m = move_to_left_s(s1);
                match flatten_s(m) {
                    Err(er) => Err(er),
                    Ok(f2) => match simplify_s(f2) {
                        Err(er) => Err(er),
                        Ok(s2) => match flatten_s(s2) {
                            Err(er) => Err(er),
                            Ok(f3) => match simplify_s(f3) {
                                Err(er) => Err(er),
                                Ok(s3) => match from_expr_s(s3) {
                                    Err(er) => Err(er),
                                    Ok(list) => match solve_s(list) {
                                        Err(er) => Err(er),
                                        Ok(sol) => Ok((list, sol)),
                                    },
                                },
                            },
                        },
                    },
                }
            },
        },
    }
}

/// Run the whole pipeline on an equation tree, exactly as `pipeline_s`
/// states: the canonical coefficient table and the root report, or the
/// first error a stage meets.
pub fn solve_equation(e: Expr) -> (r: Result<(Poly, Solution), ExprError>)
    requires
        e@ is Equation,
        wf_s(e@),
    ensures
        (match r {
            Ok((p, sol)) => Ok((p@, sol@)),
            Err(er) => Err::<(Seq<(int, RatV)>, SolutionV), ExprError>(er),
        }) == pipeline_s(e@),
{
    let ghost ev = e@;
    let f1 = match e.flatten() {
        Ok(v) => v,
        Err(er) => {
            return Err(er);
        },
    };
    proof {
        assert(f1@ is Equation);
    }
    let s1 = match f1.simplify() {
        Ok(v) => v,
        Err(er) => {
            return Err(er);
        },
    };
    proof {
        assert(s1@ is Equation);
    }
    let m = s1.move_to_left();
    proof {
        assert(m@ is Equation);
    }
    let f2 = match m.flatten() {
        Ok(v) => v,
        Err(er) => {
            return Err(er);
        },
    };
    proof {
        assert(f2@ is Equation);
    }
    let s2 = match f2.simplify() {
        Ok(v) => v,
        Err(er) => {
            return Err(er);
        },
    };
    proof {
        assert(s2@ is Equation);
    }
    let f3 = match s2.flatten() {
        Ok(v) => v,
        Err(er) => {
            return Err(er);
        },
    };
    let s3 = match f3.simplify() {
        Ok(v) => v,
        Err(er) => {
            return Err(er);
        },
    };
    let p = match Poly::from_expr(&s3) {
        Ok(v) => v,
        Err(er) => {
            return Err(er);
        },
    };
    let sol = match crate::solve::solve(&p) {
        Ok(v) => v,
        Err(er) => {
            return Err(er);
        },
    };
    Ok((p, sol))
}

} // verus!
