//! The rewriting passes on concrete trees: flatten, simplify, the
//! canonicalizer, the extractor, and the renderer.

use computor::expr::Expr;
use computor::poly::Poly;
use computor::rat::Rat;

fn rat(n: i64, d: i64) -> Rat {
    Rat::new(n, d).unwrap()
}

fn num(n: i64) -> Expr {
    Expr::Number(Rat::from_int(n))
}

fn var() -> Expr {
    Expr::Variable('x')
}

#[test]
fn flatten_splices_nested_products() {
    // 2 * ((3 * x) * y) becomes 6 * (x * y)
    let e = Expr::Mul(
        rat(2, 1),
        vec![Expr::Mul(rat(3, 1), vec![var()]), Expr::Variable('y')],
    );
    let f = e.flatten().unwrap();
    assert_eq!(f, Expr::Mul(rat(6, 1), vec![var(), Expr::Variable('y')]));
}

#[test]
fn flatten_folds_leading_number() {
    let e = Expr::Mul(rat(2, 1), vec![num(3), var()]);
    let f = e.flatten().unwrap();
    assert_eq!(f, Expr::Mul(rat(6, 1), vec![var()]));
}

#[test]
fn flatten_collapses_empty_product_to_number() {
    let e = Expr::Mul(rat(5, 1), vec![num(3)]);
    let f = e.flatten().unwrap();
    assert_eq!(f, Expr::Number(rat(15, 1)));
}

#[test]
fn flatten_is_idempotent_on_its_result() {
    let e = Expr::Mul(
        rat(2, 1),
        vec![Expr::Mul(rat(3, 1), vec![var()]), Expr::Variable('y')],
    );
    let once = e.flatten().unwrap();
    let again = once.deep_copy().flatten().unwrap();
    assert_eq!(once, again);
}

#[test]
fn simplify_is_idempotent_on_its_result() {
    // (x + 2 + 3) + -(-x) simplifies; simplifying again changes nothing.
    let e = Expr::Add(vec![
        Expr::Add(vec![var(), num(2), num(3)]),
        Expr::Neg(Box::new(Expr::Neg(Box::new(var())))),
    ]);
    let once = e.simplify().unwrap();
    let again = once.deep_copy().simplify().unwrap();
    assert_eq!(once, again);
}

#[test]
fn simplify_collects_numeric_terms_last() {
    let e = Expr::Add(vec![num(1), var(), num(2)]);
    let s = e.simplify().unwrap();
    assert_eq!(s, Expr::Add(vec![var(), num(3)]));
}

#[test]
fn simplify_splices_nested_sums() {
    let e = Expr::Add(vec![Expr::Add(vec![var(), num(1)]), num(2)]);
    let s = e.simplify().unwrap();
    assert_eq!(s, Expr::Add(vec![var(), num(3)]));
}

#[test]
fn simplify_drops_zero_sum() {
    let e = Expr::Add(vec![num(2), num(-2)]);
    let s = e.simplify().unwrap();
    assert_eq!(s, num(0));
}

#[test]
fn simplify_zero_coefficient_short_circuits() {
    let e = Expr::Mul(rat(0, 1), vec![var(), Expr::Variable('y')]);
    let s = e.simplify().unwrap();
    assert_eq!(s, num(0));
}

#[test]
fn simplify_folds_numeric_factors_and_orders_variables() {
    // 2 * (3, x) -> 6*x ; and a power factor goes after the variables
    let e = Expr::Mul(
        rat(2, 1),
        vec![
            Expr::Pow(Box::new(var()), Box::new(num(2))),
            num(3),
            var(),
        ],
    );
    let s = e.simplify().unwrap();
    assert_eq!(
        s,
        Expr::Mul(
            rat(6, 1),
            vec![var(), Expr::Pow(Box::new(var()), Box::new(num(2)))]
        )
    );
}

#[test]
fn simplify_cancels_double_negation() {
    let e = Expr::Neg(Box::new(Expr::Neg(Box::new(var()))));
    assert_eq!(e.simplify().unwrap(), var());
}

#[test]
fn simplify_distributes_negation_over_sums() {
    let e = Expr::Neg(Box::new(Expr::Add(vec![var(), num(1)])));
    let s = e.simplify().unwrap();
    assert_eq!(s, Expr::Add(vec![Expr::Neg(Box::new(var())), num(-1)]));
}

#[test]
fn simplify_folds_whole_number_powers() {
    let e = Expr::Pow(Box::new(num(2)), Box::new(num(10)));
    assert_eq!(e.simplify().unwrap(), num(1024));
    let e = Expr::Pow(Box::new(num(2)), Box::new(num(-2)));
    assert_eq!(e.simplify().unwrap(), Expr::Number(rat(1, 4)));
    let e = Expr::Pow(Box::new(var()), Box::new(num(1)));
    assert_eq!(e.simplify().unwrap(), var());
}

#[test]
fn move_to_left_builds_canonical_equation() {
    let e = Expr::Equation(Box::new(var()), Box::new(num(4)));
    let m = e.move_to_left();
    assert_eq!(
        m,
        Expr::Equation(
            Box::new(Expr::Add(vec![var(), Expr::Neg(Box::new(num(4)))])),
            Box::new(num(0))
        )
    );
}

#[test]
fn extractor_groups_and_sorts() {
    // x + x^2 + x = 0 classifies to (1,1), (2,1), (1,1); grouped and
    // sorted descending that is [(2,1), (1,2)].
    let lhs = Expr::Add(vec![
        var(),
        Expr::Pow(Box::new(var()), Box::new(num(2))),
        var(),
    ]);
    let eq = Expr::Equation(Box::new(lhs), Box::new(num(0)));
    let p = Poly::from_expr(&eq).unwrap();
    assert_eq!(p.list, vec![(2, rat(1, 1)), (1, rat(2, 1))]);
}

#[test]
fn extractor_degenerate_shapes() {
    // A bare variable maps to the quirky single pair (1, 0).
    let eq = Expr::Equation(Box::new(var()), Box::new(num(0)));
    assert_eq!(Poly::from_expr(&eq).unwrap().list, vec![(1, rat(0, 1))]);
    // Mul(n, [x]) maps to (1, n).
    let eq = Expr::Equation(
        Box::new(Expr::Mul(rat(7, 1), vec![var()])),
        Box::new(num(0)),
    );
    assert_eq!(Poly::from_expr(&eq).unwrap().list, vec![(1, rat(7, 1))]);
}

#[test]
fn renderer_follows_the_rules() {
    assert_eq!(num(-3).to_string(), "-3");
    assert_eq!(Expr::Number(rat(1, 2)).to_string(), "1/2");
    assert_eq!(var().to_string(), "x");
    assert_eq!(Expr::Neg(Box::new(var())).to_string(), "-x");
    assert_eq!(
        Expr::Neg(Box::new(Expr::Add(vec![var(), num(1)]))).to_string(),
        "-(x + 1)"
    );
    // the join sign comes from each term's own rendering
    assert_eq!(
        Expr::Add(vec![var(), num(-2)]).to_string(),
        "x - 2"
    );
    assert_eq!(
        Expr::Mul(rat(2, 1), vec![var(), Expr::Variable('y')]).to_string(),
        "2*x*y"
    );
    // coefficient one is not printed
    assert_eq!(Expr::Mul(rat(1, 1), vec![var()]).to_string(), "x");
    // a sum factor is parenthesized
    assert_eq!(
        Expr::Mul(rat(1, 1), vec![Expr::Add(vec![var(), num(1)]), var()]).to_string(),
        "(x + 1)*x"
    );
    assert_eq!(
        Expr::Pow(Box::new(var()), Box::new(num(2))).to_string(),
        "x^2"
    );
    assert_eq!(
        Expr::Pow(
            Box::new(Expr::Add(vec![var(), num(1)])),
            Box::new(Expr::Mul(rat(1, 1), vec![var(), var()]))
        )
        .to_string(),
        "(x + 1)^(x*x)"
    );
    assert_eq!(
        Expr::Equation(Box::new(var()), Box::new(num(0))).to_string(),
        "x = 0"
    );
}
