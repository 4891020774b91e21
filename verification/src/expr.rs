//! Arithmetic expressions over column variables, and their conversion to
//! the linear combinations and quadratics that constraints are made of.
use vstd::prelude::*;
use vstd::arithmetic::power2::*;
use crate::constraints::{lemma_lc_terms, lemma_quadratic_terms, LinearCombination, Quadratic, Var};
use crate::fields::{
    fadd, fe, fmul, fneg, fsub, lemma_add_fe, lemma_fe_small, lemma_fmul_comm_assoc, lemma_fmul_fadd, lemma_fmul_fsub,
    lemma_fneg_facts, lemma_reduce_args, lemma_view_range, p, BaseField,
};
use crate::mle::{eq_poly, lemma_sum_ext, lemma_sum_split, sum};

verus! {

/// An expression built from field constants and column variables.
pub enum Expr<const J: usize> {
    Elem(BaseField),
    Var(Var<J>),
    Add(Box<Expr<J>>, Box<Expr<J>>),
    Sub(Box<Expr<J>>, Box<Expr<J>>),
    Mul(Box<Expr<J>>, Box<Expr<J>>),
}

/// The terms of a linear combination as (coefficient, variable index).
pub open spec fn lc_view<const J: usize>(lc: LinearCombination<J>) -> Seq<(int, int)> {
    lc.terms().map_values(|t: (BaseField, Var<J>)| (t.0@, t.1.index()))
}

/// The terms of a quadratic as pairs of linear-combination terms.
pub open spec fn quadratic_view<const J: usize>(q: Quadratic<J>) -> Seq<(Seq<(int, int)>, Seq<(int, int)>)> {
    q.terms().map_values(|t: (LinearCombination<J>, LinearCombination<J>)| (lc_view(t.0), lc_view(t.1)))
}

/// The value of linear-combination terms at the column point `pts`.
pub open spec fn terms_value(ts: Seq<(int, int)>, pts: Seq<int>) -> int {
    fe(sum(|k: int| fmul(ts[k].0, eq_poly(ts[k].1, pts)), ts.len() as int))
}

impl<const J: usize> Expr<J> {
    /// The value of the expression at the column point `pts`: a variable is
    /// the equality polynomial of its index there.
    pub open spec fn eval(self, pts: Seq<int>) -> int
        decreases self,
    {
        match self {
            Expr::Elem(c) => c@,
            Expr::Var(v) => eq_poly(v.index(), pts),
            Expr::Add(a, b) => fadd(a.eval(pts), b.eval(pts)),
            Expr::Sub(a, b) => fsub(a.eval(pts), b.eval(pts)),
            Expr::Mul(a, b) => fmul(a.eval(pts), b.eval(pts)),
        }
    }

    /// The expression is a sum or difference of variables scaled by
    /// constants, in the shapes the conversion accepts: a constant factor
    /// stands first, or else last, in a product.
    pub open spec fn is_linear(self) -> bool
        decreases self,
    {
        match self {
            Expr::Elem(_) => false,
            Expr::Var(_) => true,
            Expr::Add(a, b) => a.is_linear() && b.is_linear(),
            Expr::Sub(a, b) => a.is_linear() && b.is_linear(),
            Expr::Mul(a, b) => match *a {
                Expr::Elem(_) => b.is_linear(),
                _ => match *b {
                    Expr::Elem(_) => a.is_linear(),
                    _ => false,
                },
            },
        }
    }

    /// The terms of the linear combination, every coefficient scaled by
    /// `acc`.
    pub open spec fn linear_terms(self, acc: int) -> Seq<(int, int)>
        decreases self,
    {
        match self {
            Expr::Elem(_) => Seq::empty(),
            Expr::Var(v) => seq![(acc, v.index())],
            Expr::Add(a, b) => a.linear_terms(acc) + b.linear_terms(acc),
            Expr::Sub(a, b) => a.linear_terms(acc) + b.linear_terms(fneg(acc)),
            Expr::Mul(a, b) => match *a {
                Expr::Elem(c) => b.linear_terms(fmul(c@, acc)),
                _ => match *b {
                    Expr::Elem(c) => a.linear_terms(fmul(c@, acc)),
                    _ => Seq::empty(),
                },
            },
        }
    }

    /// The expression is a sum or difference of products of two linear
    /// expressions.
    pub open spec fn is_quadratic(self) -> bool
        decreases self,
    {
        match self {
            Expr::Add(a, b) => a.is_quadratic() && b.is_quadratic(),
            Expr::Sub(a, b) => a.is_quadratic() && b.is_quadratic(),
            Expr::Mul(a, b) => a.is_linear() && b.is_linear(),
            _ => false,
        }
    }

    /// The terms of the quadratic, the left factor of every product scaled
    /// by `acc`.
    pub open spec fn quadratic_terms(self, acc: int) -> Seq<(Seq<(int, int)>, Seq<(int, int)>)>
        decreases self,
    {
        match self {
            Expr::Add(a, b) => a.quadratic_terms(acc) + b.quadratic_terms(acc),
            Expr::Sub(a, b) => a.quadratic_terms(acc) + b.quadratic_terms(fneg(acc)),
            Expr::Mul(a, b) => seq![(a.linear_terms(acc), b.linear_terms(1))],
            _ => Seq::empty(),
        }
    }

    /// The value of the expression read as a quadratic, with the left factor
    /// of each product at `c1` and the right one at `c2`.
    pub open spec fn eval_split(self, c1: Seq<int>, c2: Seq<int>) -> int
        decreases self,
    {
        match self {
            Expr::Add(a, b) => fadd(a.eval_split(c1, c2), b.eval_split(c1, c2)),
            Expr::Sub(a, b) => fsub(a.eval_split(c1, c2), b.eval_split(c1, c2)),
            Expr::Mul(a, b) => fmul(a.eval(c1), b.eval(c2)),
            _ => 0,
        }
    }

    /// The variable with index `index`.
    pub fn var(index: usize) -> (r: Expr<J>)
        requires
            J < usize::BITS,
            index < pow2(J as nat),
        ensures
            r matches Expr::Var(v) && v.index() == index,
    {
        Expr::Var(Var::new(index))
    }

    /// The constant `elem`, reduced into the field.
    pub fn from_u64(elem: u64) -> (r: Expr<J>)
        ensures
            r matches Expr::Elem(c) && c@ == fe(elem as int),
    {
        Expr::Elem(BaseField::from_u64(elem))
    }

    /// The linear combination the expression is, if it is linear.
    pub fn to_linear_combination(&self) -> (r: Option<LinearCombination<J>>)
        ensures
            r is Some <==> self.is_linear(),
            r matches Some(lc) ==> lc_view(lc) == self.linear_terms(1),
    {
        self.to_linear_combination_acc(BaseField::one())
    }

    fn to_linear_combination_acc(&self, acc: BaseField) -> (r: Option<LinearCombination<J>>)
        ensures
            r is Some <==> self.is_linear(),
            r matches Some(lc) ==> lc_view(lc) == self.linear_terms(acc@),
        decreases self,
    {
        match self {
            Expr::Var(var) => {
                let lc = LinearCombination(vec![(acc, *var)]);
                proof {
                    lemma_lc_terms(lc);
                    assert(lc_view(lc) =~= seq![(acc@, var.index())]);
                }
                Some(lc)
            },
            Expr::Mul(a, b) => {
                if let Expr::Elem(c) = &**a {
                    return b.to_linear_combination_acc(c.mul(acc));
                }
                if let Expr::Elem(c) = &**b {
                    return a.to_linear_combination_acc(c.mul(acc));
                }
                None
            },
            Expr::Add(a, b) => {
                let la = a.to_linear_combination_acc(acc);
                match la {
                    None => None,
                    Some(la) => {
                        let lb = b.to_linear_combination_acc(acc);
                        match lb {
                            None => None,
                            Some(lb) => Some(concat_lc(la, lb)),
                        }
                    },
                }
            },
            Expr::Sub(a, b) => {
                let la = a.to_linear_combination_acc(acc);
                match la {
                    None => None,
                    Some(la) => {
                        let lb = b.to_linear_combination_acc(acc.neg());
                        match lb {
                            None => None,
                            Some(lb) => Some(concat_lc(la, lb)),
                        }
                    },
                }
            },
            Expr::Elem(..) => None,
        }
    }

    /// The quadratic the expression is, if it is quadratic.
    pub fn to_quadratic(&self) -> (r: Option<Quadratic<J>>)
        ensures
            r is Some <==> self.is_quadratic(),
            r matches Some(q) ==> quadratic_view(q) == self.quadratic_terms(1),
    {
        self.to_quadratic_acc(BaseField::one())
    }

    fn to_quadratic_acc(&self, acc: BaseField) -> (r: Option<Quadratic<J>>)
        ensures
            r is Some <==> self.is_quadratic(),
            r matches Some(q) ==> quadratic_view(q) == self.quadratic_terms(acc@),
        decreases self,
    {
        match self {
            Expr::Add(a, b) => {
                let qa = a.to_quadratic_acc(acc);
                match qa {
                    None => None,
                    Some(qa) => {
                        let qb = b.to_quadratic_acc(acc);
                        match qb {
                            None => None,
                            Some(qb) => Some(concat_quadratic(qa, qb)),
                        }
                    },
                }
            },
            Expr::Sub(a, b) => {
                let qa = a.to_quadratic_acc(acc);
                match qa {
                    None => None,
                    Some(qa) => {
                        let qb = b.to_quadratic_acc(acc.neg());
                        match qb {
                            None => None,
                            Some(qb) => Some(concat_quadratic(qa, qb)),
                        }
                    },
                }
            },
            Expr::Mul(a, b) => {
                let la = a.to_linear_combination_acc(acc);
                match la {
                    None => None,
                    Some(la) => {
                        let lb = b.to_linear_combination();
                        match lb {
                            None => None,
                            Some(lb) => {
                                let q = Quadratic(vec![(la, lb)]);
                                proof {
                                    lemma_quadratic_terms(q);
                                    assert(quadratic_view(q) =~= seq![(lc_view(la), lc_view(lb))]);
                                }
                                Some(q)
                            },
                        }
                    },
                }
            },
            Expr::Var(..) => None,
            Expr::Elem(..) => None,
        }
    }

    /// The sum of two expressions.
    pub fn add(self, other: Expr<J>) -> (r: Expr<J>)
        ensures
            r == Expr::Add(Box::new(self), Box::new(other)),
    {
        Expr::Add(Box::new(self), Box::new(other))
    }

    /// The difference of two expressions.
    pub fn sub(self, other: Expr<J>) -> (r: Expr<J>)
        ensures
            r == Expr::Sub(Box::new(self), Box::new(other)),
    {
        Expr::Sub(Box::new(self), Box::new(other))
    }

    /// The product of two expressions.
    pub fn mul(self, other: Expr<J>) -> (r: Expr<J>)
        ensures
            r == Expr::Mul(Box::new(self), Box::new(other)),
    {
        Expr::Mul(Box::new(self), Box::new(other))
    }
}

/// The terms of `a` followed by those of `b`.
fn concat_lc<const J: usize>(a: LinearCombination<J>, b: LinearCombination<J>) -> (r: LinearCombination<J>)
    ensures
        lc_view(r) == lc_view(a) + lc_view(b),
{
    proof {
        lemma_lc_terms(a);
        lemma_lc_terms(b);
    }
    let mut ta = a.0;
    let mut tb = b.0;
    ta.append(&mut tb);
    let r = LinearCombination(ta);
    proof {
        lemma_lc_terms(r);
        assert(lc_view(r) =~= lc_view(a) + lc_view(b));
    }
    r
}

/// The products of `a` followed by those of `b`.
fn concat_quadratic<const J: usize>(a: Quadratic<J>, b: Quadratic<J>) -> (r: Quadratic<J>)
    ensures
        quadratic_view(r) == quadratic_view(a) + quadratic_view(b),
{
    proof {
        lemma_quadratic_terms(a);
        lemma_quadratic_terms(b);
    }
    let mut ta = a.0;
    let mut tb = b.0;
    ta.append(&mut tb);
    let r = Quadratic(ta);
    proof {
        lemma_quadratic_terms(r);
        assert(quadratic_view(r) =~= quadratic_view(a) + quadratic_view(b));
    }
    r
}

/// The value of quadratic terms at the column points `c1` and `c2`.
pub open spec fn quadratic_terms_value(qs: Seq<(Seq<(int, int)>, Seq<(int, int)>)>, c1: Seq<int>, c2: Seq<int>) -> int {
    fe(sum(|k: int| fmul(terms_value(qs[k].0, c1), terms_value(qs[k].1, c2)), qs.len() as int))
}

/// A linear combination is worth the value of its terms.
pub proof fn lemma_lc_value<const J: usize>(lc: LinearCombination<J>, pts: Seq<int>)
    ensures
        lc.value(pts) == terms_value(lc_view(lc), pts),
{
    let ts = lc_view(lc);
    lemma_sum_ext(
        |k: int| fmul(lc.terms()[k].0@, eq_poly(lc.terms()[k].1.index(), pts)),
        |k: int| fmul(ts[k].0, eq_poly(ts[k].1, pts)),
        ts.len() as int,
    );
}

/// A quadratic is worth the value of its terms.
pub proof fn lemma_quadratic_value<const J: usize>(q: Quadratic<J>, c1: Seq<int>, c2: Seq<int>)
    ensures
        q.value(c1, c2) == quadratic_terms_value(quadratic_view(q), c1, c2),
{
    let qs = quadratic_view(q);
    assert forall|k: int| 0 <= k < qs.len() implies
        #[trigger] fmul(q.terms()[k].0.value(c1), q.terms()[k].1.value(c2)) == fmul(terms_value(qs[k].0, c1), terms_value(qs[k].1, c2)) by {
        lemma_lc_value(q.terms()[k].0, c1);
        lemma_lc_value(q.terms()[k].1, c2);
    }
    lemma_sum_ext(
        |k: int| fmul(q.terms()[k].0.value(c1), q.terms()[k].1.value(c2)),
        |k: int| fmul(terms_value(qs[k].0, c1), terms_value(qs[k].1, c2)),
        qs.len() as int,
    );
}

/// The value of concatenated terms is the sum of the values.
proof fn lemma_terms_value_concat(t1: Seq<(int, int)>, t2: Seq<(int, int)>, pts: Seq<int>)
    ensures
        terms_value(t1 + t2, pts) == fadd(terms_value(t1, pts), terms_value(t2, pts)),
{
    let t = t1 + t2;
    let f = |k: int| fmul(t[k].0, eq_poly(t[k].1, pts));
    let g = |k: int| fmul(t1[k].0, eq_poly(t1[k].1, pts));
    let h = |k: int| fmul(t2[k].0, eq_poly(t2[k].1, pts));
    assert forall|k: int| 0 <= k < t2.len() implies #[trigger] f(t1.len() + k) == h(k) by {
        assert(t[t1.len() + k] == t2[k]);
    }
    lemma_sum_split(f, g, h, t1.len() as int, t2.len() as int);
    lemma_add_fe(sum(g, t1.len() as int), sum(h, t2.len() as int));
}

/// The value of concatenated quadratic terms is the sum of the values.
proof fn lemma_quadratic_terms_value_concat(q1: Seq<(Seq<(int, int)>, Seq<(int, int)>)>, q2: Seq<(Seq<(int, int)>, Seq<(int, int)>)>, c1: Seq<int>, c2: Seq<int>)
    ensures
        quadratic_terms_value(q1 + q2, c1, c2) == fadd(quadratic_terms_value(q1, c1, c2), quadratic_terms_value(q2, c1, c2)),
{
    let q = q1 + q2;
    let f = |k: int| fmul(terms_value(q[k].0, c1), terms_value(q[k].1, c2));
    let g = |k: int| fmul(terms_value(q1[k].0, c1), terms_value(q1[k].1, c2));
    let h = |k: int| fmul(terms_value(q2[k].0, c1), terms_value(q2[k].1, c2));
    assert forall|k: int| 0 <= k < q2.len() implies #[trigger] f(q1.len() + k) == h(k) by {
        assert(q[q1.len() + k] == q2[k]);
    }
    lemma_sum_split(f, g, h, q1.len() as int, q2.len() as int);
    lemma_add_fe(sum(g, q1.len() as int), sum(h, q2.len() as int));
}

/// The terms of a linear expression, scaled by `acc`, are worth `acc` times
/// the expression.
proof fn lemma_linear_terms_value<const J: usize>(e: Expr<J>, acc: int, pts: Seq<int>)
    requires
        e.is_linear(),
    ensures
        terms_value(e.linear_terms(acc), pts) == fmul(acc, e.eval(pts)),
    decreases e,
{
    match e {
        Expr::Var(v) => {
            let ts = e.linear_terms(acc);
            assert(ts.len() == 1);
            assert(ts[0] == (acc, v.index()));
            let f = |k: int| fmul(ts[k].0, eq_poly(ts[k].1, pts));
            assert(sum(f, 0) == 0);
            assert(sum(f, 1) == f(0));
            assert(terms_value(ts, pts) == fe(sum(f, 1)));
            lemma_reduce_args(acc * eq_poly(v.index(), pts), 0);
            assert(e.eval(pts) == eq_poly(v.index(), pts));
            assert(f(0) == fmul(acc, eq_poly(v.index(), pts)));
            assert(terms_value(ts, pts) == fe(fmul(acc, eq_poly(v.index(), pts))));
        },
        Expr::Add(a, b) => {
            lemma_linear_terms_value(*a, acc, pts);
            lemma_linear_terms_value(*b, acc, pts);
            lemma_terms_value_concat(a.linear_terms(acc), b.linear_terms(acc), pts);
            lemma_fmul_fadd(acc, a.eval(pts), b.eval(pts));
            assert(terms_value(e.linear_terms(acc), pts) == fmul(acc, e.eval(pts)));
        },
        Expr::Sub(a, b) => {
            lemma_linear_terms_value(*a, acc, pts);
            lemma_linear_terms_value(*b, fneg(acc), pts);
            lemma_terms_value_concat(a.linear_terms(acc), b.linear_terms(fneg(acc)), pts);
            lemma_fmul_fsub(acc, a.eval(pts), b.eval(pts));
            lemma_fneg_facts(acc, b.eval(pts));
            lemma_fneg_facts(fmul(acc, b.eval(pts)), fmul(acc, a.eval(pts)));
            assert(terms_value(e.linear_terms(acc), pts) == fmul(acc, e.eval(pts)));
        },
        Expr::Mul(a, b) => {
            match *a {
                Expr::Elem(c) => {
                    lemma_linear_terms_value(*b, fmul(c@, acc), pts);
                    assert(a.eval(pts) == c@);
                    assert(e.linear_terms(acc) == b.linear_terms(fmul(c@, acc)));
                    lemma_fmul_comm_assoc(c@, acc, b.eval(pts));
                    lemma_fmul_comm_assoc(acc, c@, b.eval(pts));
                    assert(terms_value(e.linear_terms(acc), pts) == fmul(acc, e.eval(pts)));
                },
                _ => {
                    match *b {
                        Expr::Elem(c) => {
                            lemma_linear_terms_value(*a, fmul(c@, acc), pts);
                            assert(b.eval(pts) == c@);
                            assert(e.linear_terms(acc) == a.linear_terms(fmul(c@, acc)));
                            lemma_fmul_comm_assoc(c@, acc, a.eval(pts));
                            lemma_fmul_comm_assoc(acc, c@, a.eval(pts));
                            lemma_fmul_comm_assoc(c@, a.eval(pts), 0);
                            assert(terms_value(e.linear_terms(acc), pts) == fmul(acc, e.eval(pts)));
                        },
                        _ => {},
                    }
                },
            }
        },
        Expr::Elem(_) => {},
    }
}

/// The terms of a quadratic expression, scaled by `acc`, are worth `acc`
/// times the expression read as a quadratic.
proof fn lemma_quadratic_terms_value<const J: usize>(e: Expr<J>, acc: int, c1: Seq<int>, c2: Seq<int>)
    requires
        e.is_quadratic(),
    ensures
        quadratic_terms_value(e.quadratic_terms(acc), c1, c2) == fmul(acc, e.eval_split(c1, c2)),
    decreases e,
{
    match e {
        Expr::Add(a, b) => {
            lemma_quadratic_terms_value(*a, acc, c1, c2);
            lemma_quadratic_terms_value(*b, acc, c1, c2);
            lemma_quadratic_terms_value_concat(a.quadratic_terms(acc), b.quadratic_terms(acc), c1, c2);
            lemma_fmul_fadd(acc, a.eval_split(c1, c2), b.eval_split(c1, c2));
        },
        Expr::Sub(a, b) => {
            lemma_quadratic_terms_value(*a, acc, c1, c2);
            lemma_quadratic_terms_value(*b, fneg(acc), c1, c2);
            lemma_quadratic_terms_value_concat(a.quadratic_terms(acc), b.quadratic_terms(fneg(acc)), c1, c2);
            lemma_fmul_fsub(acc, a.eval_split(c1, c2), b.eval_split(c1, c2));
            lemma_fneg_facts(acc, b.eval_split(c1, c2));
            lemma_fneg_facts(fmul(acc, b.eval_split(c1, c2)), fmul(acc, a.eval_split(c1, c2)));
        },
        Expr::Mul(a, b) => {
            let qs = e.quadratic_terms(acc);
            lemma_linear_terms_value(*a, acc, c1);
            lemma_linear_terms_value(*b, 1, c2);
            let va = a.eval(c1);
            let vb = b.eval(c2);
            assert(0 <= vb < p());
            lemma_reduce_args(vb, 0);
            assert(fmul(1, vb) == vb) by {
                lemma_fe_small(vb);
            }
            let f = |k: int| fmul(terms_value(qs[k].0, c1), terms_value(qs[k].1, c2));
            assert(sum(f, 0) == 0);
            assert(sum(f, 1) == f(0));
            lemma_fmul_comm_assoc(acc, va, vb);
            lemma_reduce_args(fmul(acc, va) * vb, 0);
        },
        _ => {},
    }
}

/// Read as a quadratic with both points equal, a quadratic expression is
/// the expression.
proof fn lemma_eval_split_diagonal<const J: usize>(e: Expr<J>, x: Seq<int>)
    requires
        e.is_quadratic(),
    ensures
        e.eval_split(x, x) == e.eval(x),
    decreases e,
{
    match e {
        Expr::Add(a, b) => {
            lemma_eval_split_diagonal(*a, x);
            lemma_eval_split_diagonal(*b, x);
        },
        Expr::Sub(a, b) => {
            lemma_eval_split_diagonal(*a, x);
            lemma_eval_split_diagonal(*b, x);
        },
        _ => {},
    }
}

/// The linear combination built from a linear expression evaluates, at
/// every column point, to the expression.
pub proof fn lemma_linear_combination_evaluates<const J: usize>(e: Expr<J>, lc: LinearCombination<J>, pts: Seq<int>)
    requires
        e.is_linear(),
        lc_view(lc) == e.linear_terms(1),
    ensures
        lc.value(pts) == e.eval(pts),
{
    lemma_lc_value(lc, pts);
    lemma_linear_terms_value(e, 1, pts);
    lemma_eval_range(e, pts);
    lemma_fe_small(e.eval(pts));
    lemma_reduce_args(e.eval(pts), 0);
}

/// The quadratic built from a quadratic expression evaluates, at every
/// pair of column points, to the expression with the left factors at the
/// first point and the right factors at the second; at two equal points, to
/// the expression itself.
pub proof fn lemma_quadratic_evaluates<const J: usize>(e: Expr<J>, q: Quadratic<J>, c1: Seq<int>, c2: Seq<int>)
    requires
        e.is_quadratic(),
        quadratic_view(q) == e.quadratic_terms(1),
    ensures
        q.value(c1, c2) == e.eval_split(c1, c2),
        q.value(c1, c1) == e.eval(c1),
{
    lemma_quadratic_value(q, c1, c2);
    lemma_quadratic_terms_value(e, 1, c1, c2);
    lemma_eval_split_range(e, c1, c2);
    lemma_fe_small(e.eval_split(c1, c2));
    lemma_reduce_args(e.eval_split(c1, c2), 0);
    lemma_quadratic_value(q, c1, c1);
    lemma_quadratic_terms_value(e, 1, c1, c1);
    lemma_eval_split_range(e, c1, c1);
    lemma_fe_small(e.eval_split(c1, c1));
    lemma_eval_split_diagonal(e, c1);
}

proof fn lemma_eval_range<const J: usize>(e: Expr<J>, pts: Seq<int>)
    ensures
        0 <= e.eval(pts) < p(),
    decreases e,
{
    match e {
        Expr::Elem(c) => { lemma_view_range(c); },
        Expr::Var(v) => { crate::mle::lemma_eq_poly_range(v.index(), pts); },
        _ => {},
    }
}

proof fn lemma_eval_split_range<const J: usize>(e: Expr<J>, c1: Seq<int>, c2: Seq<int>)
    ensures
        0 <= e.eval_split(c1, c2) < p(),
{
}

/// The linear expressions are the variables, closed under sums,
/// differences and scaling by a constant on either side: a constant alone,
/// or a product of two linear expressions, is not linear. Their terms add,
/// subtract and scale as the expressions do.
pub proof fn lemma_linear_closed<const J: usize>(a: Expr<J>, b: Expr<J>, c: BaseField, v: Var<J>, pts: Seq<int>)
    ensures
        Expr::<J>::Var(v).is_linear(),
        !Expr::<J>::Elem(c).is_linear(),
        Expr::Add(Box::new(a), Box::new(b)).is_linear() == (a.is_linear() && b.is_linear()),
        Expr::Sub(Box::new(a), Box::new(b)).is_linear() == (a.is_linear() && b.is_linear()),
        Expr::Mul(Box::new(Expr::<J>::Elem(c)), Box::new(a)).is_linear() == a.is_linear(),
        Expr::Mul(Box::new(a), Box::new(Expr::<J>::Elem(c))).is_linear() == a.is_linear(),
        a.is_linear() && b.is_linear() ==> !Expr::Mul(Box::new(a), Box::new(b)).is_linear(),
        a.is_linear() && b.is_linear() ==> terms_value(Expr::Add(Box::new(a), Box::new(b)).linear_terms(1), pts)
            == fadd(a.eval(pts), b.eval(pts)),
        a.is_linear() && b.is_linear() ==> terms_value(Expr::Sub(Box::new(a), Box::new(b)).linear_terms(1), pts)
            == fsub(a.eval(pts), b.eval(pts)),
        a.is_linear() ==> terms_value(Expr::Mul(Box::new(Expr::<J>::Elem(c)), Box::new(a)).linear_terms(1), pts)
            == fmul(c@, a.eval(pts)),
        a.is_linear() ==> terms_value(Expr::Mul(Box::new(a), Box::new(Expr::<J>::Elem(c))).linear_terms(1), pts)
            == fmul(a.eval(pts), c@),
{
    let add = Expr::Add(Box::new(a), Box::new(b));
    let sub = Expr::Sub(Box::new(a), Box::new(b));
    let ml = Expr::Mul(Box::new(Expr::<J>::Elem(c)), Box::new(a));
    let mr = Expr::Mul(Box::new(a), Box::new(Expr::<J>::Elem(c)));
    assert(!Expr::<J>::Elem(c).is_linear());
    assert(Expr::<J>::Elem(c).eval(pts) == c@);
    match a {
        Expr::Elem(_) => {
            assert(!a.is_linear());
            assert(!mr.is_linear());
            assert(!ml.is_linear());
        },
        _ => {
            assert(mr.is_linear() == a.is_linear());
            assert(ml.is_linear() == a.is_linear());
        },
    }
    if a.is_linear() {
        assert(!(a is Elem));
        assert(ml.is_linear());
        assert(mr.is_linear());
        assert(ml.eval(pts) == fmul(c@, a.eval(pts)));
        assert(mr.eval(pts) == fmul(a.eval(pts), c@));
        lemma_linear_terms_value(ml, 1, pts);
        lemma_linear_terms_value(mr, 1, pts);
        lemma_eval_range(ml, pts);
        lemma_eval_range(mr, pts);
        lemma_fe_small(ml.eval(pts));
        lemma_fe_small(mr.eval(pts));
        lemma_reduce_args(ml.eval(pts), 0);
        assert(fmul(1, ml.eval(pts)) == ml.eval(pts)) by {
            assert(1 * ml.eval(pts) == ml.eval(pts));
        }
        assert(fmul(1, mr.eval(pts)) == mr.eval(pts)) by {
            assert(1 * mr.eval(pts) == mr.eval(pts));
        }
        if b.is_linear() {
            assert(!(b is Elem));
            lemma_linear_terms_value(add, 1, pts);
            lemma_linear_terms_value(sub, 1, pts);
            lemma_eval_range(add, pts);
            lemma_eval_range(sub, pts);
            lemma_fe_small(add.eval(pts));
            lemma_fe_small(sub.eval(pts));
            assert(fmul(1, add.eval(pts)) == add.eval(pts)) by {
                assert(1 * add.eval(pts) == add.eval(pts));
            }
            assert(fmul(1, sub.eval(pts)) == sub.eval(pts)) by {
                assert(1 * sub.eval(pts) == sub.eval(pts));
            }
        }
    }
}

/// The quadratic expressions are the products of two linear expressions,
/// closed under sums and differences of any shapes: a variable or a constant
/// alone is not quadratic. Their terms add and subtract as the expressions
/// do.
pub proof fn lemma_quadratic_closed<const J: usize>(a: Expr<J>, b: Expr<J>, c: BaseField, v: Var<J>, c1: Seq<int>, c2: Seq<int>)
    ensures
        !Expr::<J>::Var(v).is_quadratic(),
        !Expr::<J>::Elem(c).is_quadratic(),
        Expr::Add(Box::new(a), Box::new(b)).is_quadratic() == (a.is_quadratic() && b.is_quadratic()),
        Expr::Sub(Box::new(a), Box::new(b)).is_quadratic() == (a.is_quadratic() && b.is_quadratic()),
        Expr::Mul(Box::new(a), Box::new(b)).is_quadratic() == (a.is_linear() && b.is_linear()),
        a.is_quadratic() && b.is_quadratic() ==> quadratic_terms_value(
            Expr::Add(Box::new(a), Box::new(b)).quadratic_terms(1), c1, c2) == fadd(a.eval_split(c1, c2), b.eval_split(c1, c2)),
        a.is_quadratic() && b.is_quadratic() ==> quadratic_terms_value(
            Expr::Sub(Box::new(a), Box::new(b)).quadratic_terms(1), c1, c2) == fsub(a.eval_split(c1, c2), b.eval_split(c1, c2)),
        a.is_linear() && b.is_linear() ==> quadratic_terms_value(
            Expr::Mul(Box::new(a), Box::new(b)).quadratic_terms(1), c1, c2) == fmul(a.eval(c1), b.eval(c2)),
{
    let add = Expr::Add(Box::new(a), Box::new(b));
    let sub = Expr::Sub(Box::new(a), Box::new(b));
    let mul = Expr::Mul(Box::new(a), Box::new(b));
    if a.is_quadratic() && b.is_quadratic() {
        lemma_quadratic_terms_value(add, 1, c1, c2);
        lemma_quadratic_terms_value(sub, 1, c1, c2);
        lemma_eval_split_range(add, c1, c2);
        lemma_eval_split_range(sub, c1, c2);
        assert(fmul(1, add.eval_split(c1, c2)) == add.eval_split(c1, c2)) by {
            assert(1 * add.eval_split(c1, c2) == add.eval_split(c1, c2));
            lemma_fe_small(add.eval_split(c1, c2));
        }
        assert(fmul(1, sub.eval_split(c1, c2)) == sub.eval_split(c1, c2)) by {
            assert(1 * sub.eval_split(c1, c2) == sub.eval_split(c1, c2));
            lemma_fe_small(sub.eval_split(c1, c2));
        }
    }
    if a.is_linear() && b.is_linear() {
        lemma_quadratic_terms_value(mul, 1, c1, c2);
        lemma_eval_split_range(mul, c1, c2);
        assert(fmul(1, mul.eval_split(c1, c2)) == mul.eval_split(c1, c2)) by {
            assert(1 * mul.eval_split(c1, c2) == mul.eval_split(c1, c2));
            lemma_fe_small(mul.eval_split(c1, c2));
        }
    }
}

} // verus!
