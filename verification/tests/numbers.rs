//! The exact rational scalars, the quadratic solver, and the parser's
//! error reporting.

use computor::parse::parse;
use computor::poly::Poly;
use computor::rat::Rat;
use computor::solve::{solve, solve_quad, RootValue, Solution};
use computor::ExprError;

fn rat(n: i64, d: i64) -> Rat {
    Rat::new(n, d).unwrap()
}

#[test]
fn rationals_reduce_to_lowest_terms() {
    let q = rat(2, 4);
    assert_eq!(q.numerator(), 1);
    assert_eq!(q.denominator(), 2);
    let q = rat(-6, -9);
    assert_eq!(q.numerator(), 2);
    assert_eq!(q.denominator(), 3);
    let q = rat(3, -6);
    assert_eq!(q.numerator(), -1);
    assert_eq!(q.denominator(), 2);
    assert_eq!(Rat::new(1, 0), Err(ExprError::DivisionByZero));
}

#[test]
fn rational_arithmetic_is_exact() {
    let a = rat(1, 2);
    let b = rat(1, 3);
    assert_eq!(a.add(b).unwrap(), rat(5, 6));
    assert_eq!(a.mul(b).unwrap(), rat(1, 6));
    assert_eq!(a.neg(), rat(-1, 2));
    assert_eq!(a.inv(), rat(2, 1));
    assert_eq!(rat(2, 3).pow_int(3).unwrap(), rat(8, 27));
    assert_eq!(rat(2, 1).pow_int(-3).unwrap(), rat(1, 8));
    assert_eq!(rat(0, 1).pow_int(-1), Err(ExprError::DivisionByZero));
    assert_eq!(rat(5, 7).pow_int(0).unwrap(), rat(1, 1));
}

#[test]
fn rational_overflow_is_reported() {
    let big = Rat::from_int(i64::MAX);
    assert_eq!(big.mul(big), Err(ExprError::Overflow));
    assert_eq!(big.add(Rat::from_int(1)), Err(ExprError::Overflow));
}

#[test]
fn exact_square_roots() {
    assert_eq!(rat(16, 9).sqrt_exact(), Some(rat(4, 3)));
    assert_eq!(rat(0, 1).sqrt_exact(), Some(rat(0, 1)));
    assert_eq!(rat(2, 1).sqrt_exact(), None);
    assert_eq!(rat(4, 3).sqrt_exact(), None);
}

#[test]
fn quadratic_solver_discriminant_cases() {
    // x^2 - 5x + 6: roots 2 and 3
    let sol = solve_quad(rat(1, 1), rat(-5, 1), rat(6, 1)).unwrap();
    assert_eq!(
        sol,
        Solution::TwoRoots(
            RootValue::Rational(rat(2, 1)),
            RootValue::Rational(rat(3, 1))
        )
    );
    // 4x^2 + 4x + 1: the single root -1/2
    let sol = solve_quad(rat(4, 1), rat(4, 1), rat(1, 1)).unwrap();
    assert_eq!(sol, Solution::Root(RootValue::Rational(rat(-1, 2))));
    // x^2 + x + 1: conjugate pair -1/2 +- (1/2)*sqrt(3) i
    let sol = solve_quad(rat(1, 1), rat(1, 1), rat(1, 1)).unwrap();
    assert_eq!(
        sol,
        Solution::ComplexPair {
            re: rat(-1, 2),
            im: RootValue::Radical {
                base: rat(0, 1),
                coeff: rat(1, 2),
                radicand: rat(3, 1),
            },
        }
    );
    // a negative leading coefficient flips the branch order
    let sol = solve_quad(rat(-1, 1), rat(0, 1), rat(4, 1)).unwrap();
    assert_eq!(
        sol,
        Solution::TwoRoots(
            RootValue::Rational(rat(2, 1)),
            RootValue::Rational(rat(-2, 1))
        )
    );
}

#[test]
fn dispatcher_shapes() {
    // [(2, a)] dispatches to the quadratic with b = c = 0
    let p = Poly { list: vec![(2, rat(1, 1))] };
    assert_eq!(
        solve(&p).unwrap(),
        Solution::Root(RootValue::Rational(rat(0, 1)))
    );
    // an unknown shape cannot be solved
    let p = Poly { list: vec![(4, rat(1, 1))] };
    assert_eq!(solve(&p), Err(ExprError::CannotSolve));
    // a zero leading coefficient is a division by zero
    let p = Poly { list: vec![(2, rat(0, 1)), (0, rat(1, 1))] };
    assert_eq!(solve(&p), Err(ExprError::DivisionByZero));
}

#[test]
fn parser_reports_the_offending_column() {
    match parse("x + = 4") {
        Err(ExprError::ParseError { column }) => assert_eq!(column, 5),
        other => panic!("expected a parse error, got {:?}", other),
    }
    match parse("@") {
        Err(ExprError::ParseError { column }) => assert_eq!(column, 1),
        other => panic!("expected a parse error, got {:?}", other),
    }
    match parse("x + 1") {
        Err(ExprError::ParseError { column }) => assert_eq!(column, 6),
        other => panic!("expected a parse error, got {:?}", other),
    }
    match parse("x = 1 junk") {
        Err(ExprError::ParseError { column }) => assert_eq!(column, 7),
        other => panic!("expected a parse error, got {:?}", other),
    }
}

#[test]
fn parser_accepts_the_grammar() {
    assert!(parse("x^2 + 2*x + 1 = 0").is_ok());
    assert!(parse("  ( x + 1 ) * ( x - 1 ) = 0 ").is_ok());
    assert!(parse("-x = -1").is_ok());
    assert!(parse("3.25*x = 1").is_ok());
    assert!(parse("y^2 = 9").is_ok());
}
