use std::time::Instant;
use zk_sumcheck::constraints::{ConstraintSet, Trace, BQCS};
use zk_sumcheck::expr::Expr;
use zk_sumcheck::fields::BaseField;
use zk_sumcheck::partial_sums::SumcheckError;
use zk_sumcheck::polynomials::SquarePolynomial;

const I: usize = 4;
const J: usize = 2;
const K: usize = 1;

fn f(x: u64) -> BaseField {
    BaseField::from_u64(x)
}

fn pythagorean_rows() -> Vec<Vec<BaseField>> {
    // The first three are pythagorean triples; the fourth is the sum of
    // the first two.
    let rows: [[u64; 4]; 16] = [
        [3, 4, 5, 7],
        [5, 12, 13, 17],
        [8, 15, 17, 23],
        [7, 24, 25, 31],
        [20, 21, 29, 41],
        [12, 35, 37, 47],
        [9, 40, 41, 49],
        [28, 45, 53, 73],
        [11, 60, 61, 71],
        [16, 63, 65, 79],
        [33, 56, 65, 89],
        [48, 55, 73, 103],
        [13, 84, 85, 97],
        [36, 77, 85, 113],
        [39, 80, 89, 119],
        [65, 72, 97, 137],
    ];
    rows.iter().map(|r| r.iter().map(|&x| f(x)).collect()).collect()
}

fn pythagorean_trace() -> Trace<I, J> {
    Trace::<I, J> { rows: pythagorean_rows() }
}

fn pythagorean_set() -> ConstraintSet<J, K> {
    let var = Expr::<J>::var;
    let expr1 = var(0).mul(var(0)).add(var(1).mul(var(1))).sub(var(2).mul(var(2)));
    let expr2 = var(0).add(var(1)).mul(var(0).add(var(1))).sub(var(3).mul(var(3)));
    let expressions = vec![expr1.to_quadratic().unwrap(), expr2.to_quadratic().unwrap()];
    ConstraintSet::<J, K> { expressions }
}

fn pythagorean_cs() -> BQCS<I, J, K> {
    BQCS::new(pythagorean_trace(), pythagorean_set())
}

#[test]
fn sumcheck_test() {
    let mut system = pythagorean_cs();
    let mut rng = system.rng.clone();
    let sum = BaseField::from_u64(0);
    let pols = system.generate_partial_polynomials(sum);
    println!("{pols:#?}");
    system.verify_sumcheck(&mut rng, &pols, sum).unwrap();
}

fn tall_trace<const H: usize>() -> Trace<H, J> {
    let mut rows = pythagorean_rows();
    for _ in 0..H - I {
        rows.extend(rows.clone());
    }
    assert_eq!(rows.len(), 1 << H);
    Trace::<H, J> { rows }
}

#[test]
fn sumcheck_high_bench() {
    const TOTAL_LOG_HEIGHT: usize = 18;
    let trace = tall_trace::<TOTAL_LOG_HEIGHT>();
    let mut system = BQCS::new(trace, pythagorean_set());
    let mut rng = system.rng.clone();
    let sum = BaseField::from_u64(0);
    println!("GENERATING POLYNOMIAL FOR HEIGHT {} AND WIDTH {}", 1 << TOTAL_LOG_HEIGHT, 1 << J);
    let now = Instant::now();
    let pols = system.generate_partial_polynomials(sum);
    println!("Generation took {:?}", now.elapsed());
    println!("VERIFYING");
    let now = Instant::now();
    system.verify_sumcheck(&mut rng, &pols, sum).unwrap();
    println!("Verification took {:?}", now.elapsed());
}

#[test]
fn sumcheck_high_transposed_bench() {
    const TOTAL_LOG_HEIGHT: usize = 18;
    let trace = tall_trace::<TOTAL_LOG_HEIGHT>();
    let mut system = BQCS::new(trace, pythagorean_set());
    let mut rng = system.rng.clone();
    let sum = BaseField::from_u64(0);
    println!("GENERATING POLYNOMIAL FOR HEIGHT {} AND WIDTH {}", 1 << TOTAL_LOG_HEIGHT, 1 << J);
    let now = Instant::now();
    let pols = system.generate_partial_polynomials_transposed(sum);
    println!("Generation took {:?}", now.elapsed());
    println!("VERIFYING");
    let now = Instant::now();
    system.verify_sumcheck_transposed(&mut rng, &pols, sum).unwrap();
    println!("Verification took {:?}", now.elapsed());
}

#[test]
fn sumcheck_transposed_small() {
    let mut system = pythagorean_cs();
    let mut rng = system.rng.clone();
    let sum = BaseField::zero();
    let pols = system.generate_partial_polynomials_transposed(sum);
    assert_eq!(pols.len(), 2 * (I + J));
    assert!(system.verify_sumcheck_transposed(&mut rng, &pols, sum).is_ok());
}

#[test]
fn sumcheck_claim_differs_from_proof() {
    let mut system = pythagorean_cs();
    let mut rng = system.rng.clone();
    let pols = system.generate_partial_polynomials(BaseField::zero());
    assert_eq!(system.verify_sumcheck(&mut rng, &pols, f(1)), Err(SumcheckError::DoesNotSumcheck));
}

#[test]
fn sumcheck_false_claim_fails_at_the_end() {
    // The prover's rounds are consistent with any claim; a false one is
    // caught at the final evaluation.
    let mut system = pythagorean_cs();
    let mut rng = system.rng.clone();
    let pols = system.generate_partial_polynomials(f(1));
    assert_eq!(system.verify_sumcheck(&mut rng, &pols, f(1)), Err(SumcheckError::EvaluationMismatch));
}

#[test]
fn sumcheck_tampered_polynomial() {
    let mut system = pythagorean_cs();
    let mut rng = system.rng.clone();
    let mut pols = system.generate_partial_polynomials(BaseField::zero());
    // Moves the sum of the values at 0 and 1 of polynomial 3 by 4, so the
    // check between polynomials 2 and 3 fails.
    let c = pols[3].coeffs;
    pols[3] = SquarePolynomial { coeffs: [c[0].add(f(1)), c[1].add(f(2)), c[2]] };
    assert_eq!(system.verify_sumcheck(&mut rng, &pols, BaseField::zero()), Err(SumcheckError::PolynomialMismatch(2)));
}

#[test]
fn sumcheck_without_variables() {
    let trace = Trace::<0, 0> { rows: vec![vec![f(3)]] };
    let var = Expr::<0>::var;
    let e = var(0).mul(var(0));
    let set = ConstraintSet::<0, 0> { expressions: vec![e.to_quadratic().unwrap()] };
    let mut system = BQCS::new(trace, set);
    let mut rng = system.rng.clone();
    let pols = system.generate_partial_polynomials(f(9));
    assert!(pols.is_empty());
    assert_eq!(system.verify_sumcheck(&mut rng, &pols, f(9)), Err(SumcheckError::NoPolynomial));
}

#[test]
fn hypercube_sum_matches_claim() {
    let system = pythagorean_cs();
    let mut total = BaseField::zero();
    for row in 0..(1 << I) {
        for c1 in 0..(1 << J) {
            for c2 in 0..(1 << J) {
                total = total.add(system.evaluate_hypercube(row, c1, c2));
            }
        }
    }
    assert_eq!(total, BaseField::zero());
}

fn vertex(bits: usize, n: usize) -> Vec<BaseField> {
    (0..n).map(|k| f(((bits >> (n - 1 - k)) & 1) as u64)).collect()
}

#[test]
fn system_polynomial_agrees_with_hypercube_at_vertices() {
    let system = pythagorean_cs();
    for row in [0usize, 5, 15] {
        for c1 in 0..(1 << J) {
            for c2 in 0..(1 << J) {
                let r = vertex(row, I);
                let at_vertex = system.evaluate(&r, &r, &vertex(c1, J), &vertex(c2, J));
                assert_eq!(at_vertex, system.evaluate_hypercube(row, c1, c2));
            }
        }
    }
}

#[test]
fn system_summed_over_boolean_points_is_hypercube_sum() {
    let system = pythagorean_cs();
    let mut total = BaseField::zero();
    let mut off_diagonal = BaseField::zero();
    for r1 in 0..(1usize << I) {
        for r2 in 0..(1usize << I) {
            for c1 in 0..(1usize << J) {
                for c2 in 0..(1usize << J) {
                    let v = system.evaluate(&vertex(r1, I), &vertex(r2, I), &vertex(c1, J), &vertex(c2, J));
                    total = total.add(v);
                    if r1 != r2 {
                        off_diagonal = off_diagonal.add(v);
                        assert_eq!(v, BaseField::zero());
                    }
                }
            }
        }
    }
    assert_eq!(off_diagonal, BaseField::zero());
    assert_eq!(total, BaseField::zero());
}

#[test]
fn sumcheck_error_messages() {
    assert_eq!(SumcheckError::NoPolynomial.message(), "Expects at least one polynomial");
    assert_eq!(SumcheckError::DoesNotSumcheck.message(), "Does not sumcheck");
    assert_eq!(SumcheckError::PolynomialMismatch(12).message(), "Polynomial 12 does not satisfy equation");
    assert_eq!(SumcheckError::EvaluationMismatch.message(), "Does not match polynomial evaluation");
}

#[test]
fn square_polynomial_text() {
    let q = SquarePolynomial { coeffs: [f(3), f(0), BaseField::from_i64(-1)] };
    assert_eq!(q.text(), "3 + 0*X + 18446744069414584320*X^2");
}
