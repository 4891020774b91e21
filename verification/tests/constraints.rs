use zk_sumcheck::constraints::{Delta, Trace, Var};
use zk_sumcheck::fields::BaseField;

fn f(x: u64) -> BaseField {
    BaseField::from_u64(x)
}

fn row(values: [u64; 4]) -> Vec<BaseField> {
    values.iter().map(|&x| f(x)).collect()
}

#[test]
fn trace_evaluation_test() {
    let rows = vec![row([1, 2, 3, 4]), row([5, 6, 7, 8]), row([9, 10, 11, 12]), row([13, 14, 15, 16])];
    let trace = Trace::<2, 2> { rows };
    let zero = [f(0), f(0)];
    let one = [f(0), f(1)];
    let two = [f(1), f(0)];
    let three = [f(1), f(1)];
    assert_eq!(trace.evaluate(&zero, &two), f(3));
    assert_eq!(trace.evaluate(&one, &one), f(6));
    assert_eq!(trace.evaluate(&two, &zero), f(9));
    assert_eq!(trace.evaluate(&three, &three), f(16));
}

#[test]
fn delta_evaluation_test() {
    let delta = Delta::<4> { data: vec![f(4), f(8), f(12), f(10)] };
    let point1 = [f(0), f(1), f(1), f(0)];
    let point2 = [f(1), f(1), f(1), f(0)];
    assert_eq!(delta.evaluate(&point1, &point2), f(0));
    let res = BaseField::from_i64((1 - 4) * 8 * 12 * (1 - 10));
    assert_eq!(delta.evaluate(&point1, &point1), res);
}

#[test]
fn trace_between_vertices_interpolates() {
    // Halfway between rows 0 and 1 (top row bit at 1/2), column 0.
    let rows = vec![row([1, 2, 3, 4]), row([5, 6, 7, 8]), row([9, 10, 11, 12]), row([13, 14, 15, 16])];
    let trace = Trace::<2, 2> { rows };
    let half = BaseField::from_u64(2).inverse().unwrap();
    let r = trace.evaluate(&[half, f(0)], &[f(0), f(0)]);
    // (1 + 9) / 2
    assert_eq!(r, f(5));
}

#[test]
fn var_evaluate_is_equality_polynomial() {
    let v = Var::<2>::new(2);
    assert_eq!(v.evaluate(&[f(1), f(0)]), f(1));
    assert_eq!(v.evaluate(&[f(0), f(1)]), f(0));
    // eq(2, (3, 5)) = 3 * (1 - 5)
    assert_eq!(v.evaluate(&[f(3), f(5)]), BaseField::from_i64(-12));
}

#[test]
fn var_evaluate_hypercube_is_indicator() {
    let v = Var::<3>::new(5);
    assert_eq!(v.evaluate_hypercube(5), f(1));
    assert_eq!(v.evaluate_hypercube(4), f(0));
}

#[test]
fn delta_hypercube_matches_evaluate_at_vertex() {
    let delta = Delta::<2> { data: vec![f(7), f(11)] };
    for bits in 0..4usize {
        let p = [f(((bits >> 1) & 1) as u64), f((bits & 1) as u64)];
        assert_eq!(delta.evaluate_hypercube(bits), delta.evaluate(&p, &p));
    }
    let table = delta.build_table();
    assert_eq!(table.len(), 4);
    assert_eq!(table[3], BaseField::from_u64(77));
}

#[test]
fn points_from_draws_reduces_words_in_order() {
    let draws = [5u64, u64::MAX, 7, 18446744069414584321u64 + 3];
    let (di, dk) = zk_sumcheck::constraints::points_from_draws::<2, 2>(&draws);
    assert_eq!(di, vec![f(5), BaseField::from_u64(u64::MAX)]);
    assert_eq!(dk, vec![f(7), f(3)]);
    assert_eq!(BaseField::from_u64(u64::MAX), f(4294967294));
}

#[test]
fn delta_is_symmetric_and_vanishes_off_diagonal() {
    let delta = Delta::<3> { data: vec![f(4), f(9), f(21)] };
    let x = [f(2), f(5), f(11)];
    let y = [f(3), f(7), f(13)];
    assert_eq!(delta.evaluate(&x, &y), delta.evaluate(&y, &x));
    let b = [f(1), f(0), f(1)];
    let c = [f(1), f(1), f(1)];
    assert_eq!(delta.evaluate(&b, &c), f(0));
}

#[test]
fn delta_hypercube_sums_to_one() {
    let delta = Delta::<3> { data: vec![f(4), f(9), f(21)] };
    let mut total = f(0);
    for b in 0..8usize {
        total = total.add(delta.evaluate_hypercube(b));
    }
    assert_eq!(total, f(1));
}

#[test]
fn variables_sum_to_one_at_any_point() {
    let p = [f(3), f(17)];
    let mut total = f(0);
    for i in 0..4usize {
        total = total.add(Var::<2>::new(i).evaluate(&p));
    }
    assert_eq!(total, f(1));
}
