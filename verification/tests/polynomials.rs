use zk_sumcheck::fields::BaseField;
use zk_sumcheck::lagrange;
use zk_sumcheck::polynomials::{mobius_inversion, LagrangePolynomial, SquarePolynomial, SquarePolynomialEval};

fn f(x: u64) -> BaseField {
    BaseField::from_u64(x)
}

/// The multilinear polynomial with coefficients `coeffs` at `point`; the
/// first coordinate belongs to the top bit of the coefficient index.
fn evaluate_coefficients(coeffs: &[BaseField], point: &[BaseField]) -> BaseField {
    let n = point.len();
    let mut acc = BaseField::zero();
    for (m, c) in coeffs.iter().enumerate() {
        let mut term = *c;
        for (t, x) in point.iter().enumerate() {
            if (m >> (n - 1 - t)) & 1 == 1 {
                term = term.mul(*x);
            }
        }
        acc = acc.add(term);
    }
    acc
}

fn vertices() -> Vec<[BaseField; 4]> {
    (0..16u64)
        .map(|i| [f((i >> 3) & 1), f((i >> 2) & 1), f((i >> 1) & 1), f(i & 1)])
        .collect()
}

#[test]
fn polynomials_translation_test() {
    let coeffs: Vec<BaseField> = (1..=16).map(f).collect();
    let evals: Vec<BaseField> = vertices().iter().map(|p| evaluate_coefficients(&coeffs, p)).collect();
    assert_eq!(coeffs, mobius_inversion(evals));
}

#[test]
fn lagrange_translation_test() {
    let coeffs: Vec<BaseField> = (1..=16).map(f).collect();
    let evals: Vec<BaseField> = vertices().iter().map(|p| evaluate_coefficients(&coeffs, p)).collect();
    assert_eq!(coeffs, lagrange::mobius_inversion(evals));
}

#[test]
fn lagrange_polynomial_to_coefficients() {
    let coeffs: Vec<BaseField> = (1..=16).map(|x| f(3 * x + 1)).collect();
    let evals: Vec<BaseField> = vertices().iter().map(|p| evaluate_coefficients(&coeffs, p)).collect();
    let poly = LagrangePolynomial::new(evals);
    assert_eq!(poly.to_coefficient_list(), coeffs);
}

#[test]
fn mobius_of_two_values() {
    // values 5 at 0 and 8 at 1: the line 5 + 3x
    assert_eq!(mobius_inversion(vec![f(5), f(8)]), vec![f(5), f(3)]);
}

#[test]
fn square_polynomial_from_values() {
    // 2 + 3x + 4x^2: 2 at 0, 9 at 1, 3 at -1
    let eval = SquarePolynomialEval { zero: f(2), one: f(9), minus_one: f(3) };
    let poly = eval.to_polynomial();
    assert_eq!(poly.coeffs, [f(2), f(3), f(4)]);
    assert_eq!(eval.evaluate(f(5)), f(2 + 15 + 100));
    assert_eq!(poly.evaluate(f(5)), f(117));
}

#[test]
fn square_polynomial_evaluate() {
    let poly = SquarePolynomial { coeffs: [f(1), f(1), f(1)] };
    assert_eq!(poly.evaluate(f(10)), f(111));
    assert_eq!(poly.evaluate(BaseField::from_i64(-1)), f(1));
}

#[test]
fn square_polynomial_eval_add() {
    let a = SquarePolynomialEval { zero: f(1), one: f(2), minus_one: f(3) };
    let b = SquarePolynomialEval { zero: f(10), one: f(20), minus_one: f(30) };
    let c = a.add(b);
    assert_eq!((c.zero, c.one, c.minus_one), (f(11), f(22), f(33)));
}

#[test]
fn to_polynomial_is_additive() {
    let p = SquarePolynomialEval { one: f(7), zero: f(2), minus_one: f(5) };
    let q = SquarePolynomialEval { one: f(11), zero: f(13), minus_one: f(1) };
    let s = p.add(q).to_polynomial();
    let (a, b) = (p.to_polynomial(), q.to_polynomial());
    for k in 0..3 {
        assert_eq!(s.coeffs[k], a.coeffs[k].add(b.coeffs[k]));
    }
    let x = f(123456);
    assert_eq!(p.add(q).evaluate(x), p.evaluate(x).add(q.evaluate(x)));
}

#[test]
fn mobius_coefficients_sum_over_submasks() {
    let evals: Vec<BaseField> = [3u64, 9, 27, 1, 14, 5, 8, 2].iter().map(|&x| f(x)).collect();
    let coeffs = mobius_inversion(evals.clone());
    for m in 0..8usize {
        let mut total = BaseField::zero();
        for s in 0..8usize {
            if s & m == s {
                total = total.add(coeffs[s]);
            }
        }
        assert_eq!(total, evals[m]);
    }
}
