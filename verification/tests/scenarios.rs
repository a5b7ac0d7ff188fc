//! End-to-end scenarios: parse an equation, run the pipeline, check the
//! canonical coefficients and the reported roots.

use computor::expr::Expr;
use computor::parse::parse;
use computor::pipeline::solve_equation;
use computor::rat::Rat;
use computor::solve::{RootValue, Solution};
use computor::ExprError;

fn rat(n: i64, d: i64) -> Rat {
    Rat::new(n, d).unwrap()
}

fn run(line: &str) -> (Vec<(u32, Rat)>, Solution) {
    let eq = parse(line).unwrap();
    let (poly, sol) = solve_equation(eq).unwrap();
    (poly.list, sol)
}

#[test]
fn square_equals_four() {
    let (list, sol) = run("x^2 = 4");
    assert_eq!(list, vec![(2, rat(1, 1)), (0, rat(-4, 1))]);
    // discriminant 16: roots 2 and -2, in the order (-b - sqrt) then (-b + sqrt)
    assert_eq!(
        sol,
        Solution::TwoRoots(
            RootValue::Rational(rat(-2, 1)),
            RootValue::Rational(rat(2, 1))
        )
    );
}

#[test]
fn perfect_square_trinomial() {
    let (list, sol) = run("x^2 + 2*x + 1 = 0");
    assert_eq!(list, vec![(2, rat(1, 1)), (1, rat(2, 1)), (0, rat(1, 1))]);
    // discriminant 0: the single root -1
    assert_eq!(sol, Solution::Root(RootValue::Rational(rat(-1, 1))));
}

#[test]
fn no_real_solutions() {
    let (list, sol) = run("x^2 + 1 = 0");
    assert_eq!(list, vec![(2, rat(1, 1)), (0, rat(1, 1))]);
    // discriminant -4: the conjugate pair 0 - 1i and 0 + 1i
    assert_eq!(
        sol,
        Solution::ComplexPair {
            re: rat(0, 1),
            im: RootValue::Rational(rat(1, 1)),
        }
    );
}

#[test]
fn linear_equation() {
    let (list, sol) = run("2*x + 4 = 0");
    assert_eq!(list, vec![(1, rat(2, 1)), (0, rat(4, 1))]);
    assert_eq!(sol, Solution::Root(RootValue::Rational(rat(-2, 1))));
}

#[test]
fn bare_variable() {
    let (list, sol) = run("x = 0");
    assert_eq!(list, vec![(1, rat(0, 1))]);
    assert_eq!(sol, Solution::Root(RootValue::Rational(rat(0, 1))));
}

#[test]
fn product_of_variables_is_not_a_polynomial() {
    // An implicit product of two variable factors is never produced as a
    // power, so extraction rejects it.
    let eq = parse("x*x = 0").unwrap();
    assert_eq!(solve_equation(eq), Err(ExprError::NotPolynomial));
}

#[test]
fn coefficient_one_keeps_all_factors() {
    // The full factor list is preserved when the coefficient folds to one:
    // simplify(Mul(1, [x, x])) keeps both factors.
    let e = Expr::Mul(
        rat(1, 1),
        vec![Expr::Variable('x'), Expr::Variable('x')],
    );
    let s = e.simplify().unwrap();
    assert_eq!(
        s,
        Expr::Mul(rat(1, 1), vec![Expr::Variable('x'), Expr::Variable('x')])
    );
}

#[test]
fn irrational_roots_stay_symbolic() {
    let (list, sol) = run("x^2 - 2 = 0");
    assert_eq!(list, vec![(2, rat(1, 1)), (0, rat(-2, 1))]);
    // discriminant 8 is not a perfect square: roots 0 -+ (1/2)*sqrt(8)
    assert_eq!(
        sol,
        Solution::TwoRoots(
            RootValue::Radical {
                base: rat(0, 1),
                coeff: rat(-1, 2),
                radicand: rat(8, 1),
            },
            RootValue::Radical {
                base: rat(0, 1),
                coeff: rat(1, 2),
                radicand: rat(8, 1),
            }
        )
    );
}

#[test]
fn fractional_coefficients() {
    // 0.5*x = 1 has the exact root 2.
    let (list, sol) = run("0.5*x = 1");
    assert_eq!(list, vec![(1, rat(1, 2)), (0, rat(-1, 1))]);
    assert_eq!(sol, Solution::Root(RootValue::Rational(rat(2, 1))));
}

#[test]
fn cubic_cannot_be_solved() {
    let eq = parse("x^3 + x = 0").unwrap();
    assert_eq!(solve_equation(eq), Err(ExprError::CannotSolve));
}

#[test]
fn vanishing_linear_coefficient_is_division_by_zero() {
    // x - x + 1 = 0 groups to a zero coefficient on x and constant 1.
    let eq = parse("x - x + 1 = 0").unwrap();
    assert_eq!(solve_equation(eq), Err(ExprError::DivisionByZero));
}

#[test]
fn error_messages() {
    assert_eq!(ExprError::NotPolynomial.message(), "Not a polynomial!");
    assert_eq!(ExprError::CannotSolve.message(), "I can't solve that!");
}
