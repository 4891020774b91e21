use zk_sumcheck::expr::Expr;
use zk_sumcheck::fields::BaseField;

fn f(x: u64) -> BaseField {
    BaseField::from_u64(x)
}

#[test]
fn expr_linear_combination() {
    let e = Expr::<2>::from_u64(3).mul(Expr::var(1)).sub(Expr::var(2).mul(Expr::from_u64(5)));
    let lc = e.to_linear_combination().unwrap();
    // at the vertex of column 1 the value is 3, at column 2 it is -5
    assert_eq!(lc.evaluate(&[f(0), f(1)]), f(3));
    assert_eq!(lc.evaluate(&[f(1), f(0)]), BaseField::from_i64(-5));
    assert_eq!(lc.evaluate_hypercube(2), BaseField::from_i64(-5));
    assert_eq!(lc.evaluate_hypercube(0), f(0));
}

#[test]
fn expr_not_linear() {
    assert!(Expr::<2>::var(0).mul(Expr::var(1)).to_linear_combination().is_none());
    assert!(Expr::<2>::from_u64(1).to_linear_combination().is_none());
    assert!(Expr::<2>::from_u64(1).mul(Expr::from_u64(2)).to_linear_combination().is_none());
    assert!(Expr::<2>::var(0).to_quadratic().is_none());
}

#[test]
fn expr_quadratic() {
    let var = Expr::<2>::var;
    // x0 * x0 + x1 * x1 - x2 * x2 at the row (3, 4, 5, 7): zero
    let e = var(0).mul(var(0)).add(var(1).mul(var(1))).sub(var(2).mul(var(2)));
    let q = e.to_quadratic().unwrap();
    // at the vertex of column 0 on both sides: 1
    assert_eq!(q.evaluate(&[f(0), f(0)], &[f(0), f(0)]), f(1));
    // column 2 on both sides: -1
    assert_eq!(q.evaluate(&[f(1), f(0)], &[f(1), f(0)]), BaseField::from_i64(-1));
    // different columns on the two sides: 0
    assert_eq!(q.evaluate(&[f(0), f(0)], &[f(0), f(1)]), f(0));
    assert_eq!(q.evaluate_hypercube(2, 2), BaseField::from_i64(-1));
}
