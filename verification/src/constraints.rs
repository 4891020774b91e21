//! Batched quadratic constraint systems over a row-major trace.
use vstd::prelude::*;
use vstd::arithmetic::power2::*;
use crate::bits::{bit, lemma_bit_shift};
use crate::fields::{
    chacha_from_thread_rng, fadd, fe, fmul, fsub, lemma_view_range, p, random_base, thread_random_u64, thread_rng,
    BaseField,
};
use crate::mle::{eq_poly, eq_prod, fprod, lemma_fsum_step, lemma_fsum_step_offset, lemma_sum_ext, sel, sum, vals2};

verus! {

/// A column index among `2^J` columns.
#[derive(Clone, Copy, Debug)]
pub struct Var<const J: usize>(pub(crate) usize);

impl<const J: usize> Var<J> {
    /// The index this variable stands for.
    pub closed spec fn index(self) -> int {
        self.0 as int
    }

    pub fn new(value: usize) -> (r: Self)
        requires
            J < usize::BITS,
            value < pow2(J as nat),
        ensures
            r.index() == value,
    {
        Var(value)
    }

    /// The equality polynomial of this index at `points`.
    pub fn evaluate(&self, points: &[BaseField]) -> (r: BaseField)
        requires
            J <= usize::BITS,
            points.len() == J,
        ensures
            r@ == eq_poly(self.index(), points@.map_values(|x: BaseField| x@)),
    {
        let index = self.0;
        let one = BaseField::one();
        let mut acc = BaseField::one();
        let ghost pts = points@.map_values(|x: BaseField| x@);
        let mut i: usize = 0;
        while i < J
            invariant
                0 <= i <= J,
                J <= usize::BITS,
                points.len() == J,
                one@ == 1,
                pts == points@.map_values(|x: BaseField| x@),
                pts.len() == J,
                acc@ == eq_prod(index as int, pts, i as nat),
            decreases J - i,
        {
            // The points are read from last to first: the first point belongs
            // to the top bit.
            let point = points[J - 1 - i];
            proof { lemma_bit_shift(index, i); }
            let factor = if (index >> i) & 1 == 1 { point } else { one.sub(point) };
            proof {
                assert(pts[J - (i + 1)] == point@);
                assert(factor@ == sel(bit(index as int, i as nat), pts[J - (i + 1)]));
            }
            acc = acc.mul(factor);
            i = i + 1;
        }
        acc
    }
}


pub(crate) proof fn lemma_var_index<const J: usize>(v: Var<J>)
    ensures
        v.index() == v.0 as int,
{
}

/// A linear combination `sum c * eq(var, .)` of column variables.
#[derive(Clone, Debug)]
pub struct LinearCombination<const J: usize>(pub(crate) Vec<(BaseField, Var<J>)>);

impl<const J: usize> LinearCombination<J> {
    /// The coefficients and variables.
    pub closed spec fn terms(self) -> Seq<(BaseField, Var<J>)> {
        self.0@
    }

    /// The value of the combination at `pts`.
    pub open spec fn value(self, pts: Seq<int>) -> int {
        fe(sum(|k: int| fmul(self.terms()[k].0@, eq_poly(self.terms()[k].1.index(), pts)), self.terms().len() as int))
    }

    pub fn evaluate(&self, points: &[BaseField]) -> (r: BaseField)
        requires
            J <= usize::BITS,
            points.len() == J,
        ensures
            r@ == self.value(points@.map_values(|x: BaseField| x@)),
    {
        let ghost pts = points@.map_values(|x: BaseField| x@);
        let ghost f = |k: int| fmul(self.terms()[k].0@, eq_poly(self.terms()[k].1.index(), pts));
        let mut acc = BaseField::zero();
        let mut k: usize = 0;
        while k < self.0.len()
            invariant
                0 <= k <= self.0.len(),
                J <= usize::BITS,
                points.len() == J,
                pts == points@.map_values(|x: BaseField| x@),
                f == (|k: int| fmul(self.terms()[k].0@, eq_poly(self.terms()[k].1.index(), pts))),
                acc@ == fe(sum(f, k as int)),
            decreases self.0.len() - k,
        {
            let (c, x) = self.0[k];
            let t = c.mul(x.evaluate(points));
            proof { lemma_fsum_step(f, k as int); }
            acc = acc.add(t);
            k = k + 1;
        }
        acc
    }
}

pub(crate) proof fn lemma_lc_terms<const J: usize>(l: LinearCombination<J>)
    ensures
        l.terms() == l.0@,
{
}

/// A sum of products of two linear combinations, the first read at one
/// column point and the second at another.
#[derive(Clone, Debug)]
pub struct Quadratic<const J: usize>(pub(crate) Vec<(LinearCombination<J>, LinearCombination<J>)>);

impl<const J: usize> Quadratic<J> {
    /// The pairs of linear combinations.
    pub closed spec fn terms(self) -> Seq<(LinearCombination<J>, LinearCombination<J>)> {
        self.0@
    }

    /// The value at the column points `c1` and `c2`.
    pub open spec fn value(self, c1: Seq<int>, c2: Seq<int>) -> int {
        fe(sum(|k: int| fmul(self.terms()[k].0.value(c1), self.terms()[k].1.value(c2)), self.terms().len() as int))
    }

    pub fn evaluate(&self, col1: &[BaseField], col2: &[BaseField]) -> (r: BaseField)
        requires
            J <= usize::BITS,
            col1.len() == J,
            col2.len() == J,
        ensures
            r@ == self.value(col1@.map_values(|x: BaseField| x@), col2@.map_values(|x: BaseField| x@)),
    {
        let ghost c1 = col1@.map_values(|x: BaseField| x@);
        let ghost c2 = col2@.map_values(|x: BaseField| x@);
        let ghost f = |k: int| fmul(self.terms()[k].0.value(c1), self.terms()[k].1.value(c2));
        let mut acc = BaseField::zero();
        let mut k: usize = 0;
        while k < self.0.len()
            invariant
                0 <= k <= self.0.len(),
                J <= usize::BITS,
                col1.len() == J,
                col2.len() == J,
                c1 == col1@.map_values(|x: BaseField| x@),
                c2 == col2@.map_values(|x: BaseField| x@),
                f == (|k: int| fmul(self.terms()[k].0.value(c1), self.terms()[k].1.value(c2))),
                acc@ == fe(sum(f, k as int)),
            decreases self.0.len() - k,
        {
            let t = self.0[k].0.evaluate(col1).mul(self.0[k].1.evaluate(col2));
            proof { lemma_fsum_step(f, k as int); }
            acc = acc.add(t);
            k = k + 1;
        }
        acc
    }
}


pub(crate) proof fn lemma_quadratic_terms<const J: usize>(q: Quadratic<J>)
    ensures
        q.terms() == q.0@,
{
}

/// `2^K` quadratic constraints on a row.
#[derive(Clone, Debug)]
pub struct ConstraintSet<const J: usize, const K: usize> {
    pub expressions: Vec<Quadratic<J>>,
}

impl<const J: usize, const K: usize> ConstraintSet<J, K> {
    pub open spec fn wf(self) -> bool {
        self.expressions.len() == pow2(K as nat)
    }
}

/// The constraints batched by the equality polynomial at a random point.
#[derive(Clone, Debug)]
pub struct ConstraintSetMatrix<const J: usize, const K: usize> {
    pub set: ConstraintSet<J, K>,
    pub random_k: Vec<BaseField>,
}

impl<const J: usize, const K: usize> ConstraintSetMatrix<J, K> {
    pub open spec fn wf(self) -> bool {
        &&& self.set.wf()
        &&& self.random_k.len() == K
        &&& J < usize::BITS
        &&& K < usize::BITS
    }

    /// The batching point.
    pub open spec fn rk(self) -> Seq<int> {
        self.random_k@.map_values(|x: BaseField| x@)
    }

    /// The batched constraint at the column points `c1` and `c2`.
    pub open spec fn value(self, c1: Seq<int>, c2: Seq<int>) -> int {
        fe(sum(|k: int| fmul(eq_poly(k, self.rk()), self.set.expressions@[k].value(c1, c2)),
            self.set.expressions.len() as int))
    }

    pub fn evaluate(&self, col1: &[BaseField], col2: &[BaseField]) -> (r: BaseField)
        requires
            self.wf(),
            col1.len() == J,
            col2.len() == J,
        ensures
            r@ == self.value(col1@.map_values(|x: BaseField| x@), col2@.map_values(|x: BaseField| x@)),
    {
        let ghost c1 = col1@.map_values(|x: BaseField| x@);
        let ghost c2 = col2@.map_values(|x: BaseField| x@);
        let ghost f = |k: int| fmul(eq_poly(k, self.rk()), self.set.expressions@[k].value(c1, c2));
        let random_k = self.random_k.as_slice();
        let mut acc = BaseField::zero();
        let mut k: usize = 0;
        while k < self.set.expressions.len()
            invariant
                0 <= k <= self.set.expressions.len(),
                self.wf(),
                random_k@ == self.random_k@,
                col1.len() == J,
                col2.len() == J,
                c1 == col1@.map_values(|x: BaseField| x@),
                c2 == col2@.map_values(|x: BaseField| x@),
                f == (|k: int| fmul(eq_poly(k, self.rk()), self.set.expressions@[k].value(c1, c2))),
                acc@ == fe(sum(f, k as int)),
            decreases self.set.expressions.len() - k,
        {
            let constraint_mask = Var::<K>(k).evaluate(random_k);
            let t = constraint_mask.mul(self.set.expressions[k].evaluate(col1, col2));
            proof { lemma_fsum_step(f, k as int); }
            acc = acc.add(t);
            k = k + 1;
        }
        acc
    }
}

/// The execution trace: `2^I` rows of `2^J` columns.
#[derive(Clone, Debug)]
pub struct Trace<const I: usize, const J: usize> {
    pub rows: Vec<Vec<BaseField>>,
}

impl<const I: usize, const J: usize> Trace<I, J> {
    pub open spec fn wf(self) -> bool {
        &&& I < usize::BITS
        &&& J < usize::BITS
        &&& self.rows.len() == pow2(I as nat)
        &&& forall|i: int| 0 <= i < self.rows.len() ==> (#[trigger] self.rows@[i]).len() == pow2(J as nat)
    }

    /// The field values of the trace.
    pub open spec fn table(self) -> Seq<Seq<int>> {
        vals2(self.rows@)
    }

    /// The multilinear extension of the trace at the row point `row` and the
    /// column point `col`.
    pub open spec fn value(self, row: Seq<int>, col: Seq<int>) -> int {
        fe(sum(|i: int| sum(|j: int| fmul(fmul(self.table()[i][j], eq_poly(i, row)), eq_poly(j, col)),
            pow2(J as nat) as int), pow2(I as nat) as int))
    }

    pub fn evaluate(&self, row: &[BaseField], col: &[BaseField]) -> (r: BaseField)
        requires
            self.wf(),
            row.len() == I,
            col.len() == J,
        ensures
            r@ == self.value(row@.map_values(|x: BaseField| x@), col@.map_values(|x: BaseField| x@)),
    {
        let ghost rp = row@.map_values(|x: BaseField| x@);
        let ghost cp = col@.map_values(|x: BaseField| x@);
        let ghost nj = pow2(J as nat) as int;
        let ghost g = |i: int, j: int| fmul(fmul(self.table()[i][j], eq_poly(i, rp)), eq_poly(j, cp));
        let ghost outer = |i: int| sum(|j: int| g(i, j), nj);
        let mut res = BaseField::zero();
        let mut i: usize = 0;
        while i < self.rows.len()
            invariant
                0 <= i <= self.rows.len(),
                self.wf(),
                row.len() == I,
                col.len() == J,
                rp == row@.map_values(|x: BaseField| x@),
                cp == col@.map_values(|x: BaseField| x@),
                nj == pow2(J as nat),
                g == (|i: int, j: int| fmul(fmul(self.table()[i][j], eq_poly(i, rp)), eq_poly(j, cp))),
                outer == (|i: int| sum(|j: int| g(i, j), nj)),
                res@ == fe(sum(outer, i as int)),
            decreases self.rows.len() - i,
        {
            let coeffs = &self.rows[i];
            let row_mask = Var::<I>(i).evaluate(row);
            let ghost gi = |j: int| g(i as int, j);
            let mut j: usize = 0;
            while j < coeffs.len()
                invariant
                    0 <= j <= coeffs.len(),
                    0 <= i < self.rows.len(),
                    coeffs == self.rows@[i as int],
                    self.wf(),
                    col.len() == J,
                    rp == row@.map_values(|x: BaseField| x@),
                    cp == col@.map_values(|x: BaseField| x@),
                    nj == pow2(J as nat),
                    row_mask@ == eq_poly(i as int, rp),
                    g == (|i: int, j: int| fmul(fmul(self.table()[i][j], eq_poly(i, rp)), eq_poly(j, cp))),
                    gi == (|j: int| g(i as int, j)),
                    res@ == fe(sum(outer, i as int) + sum(gi, j as int)),
                decreases coeffs.len() - j,
            {
                let col_mask = Var::<J>(j).evaluate(col);
                let t = coeffs[j].mul(row_mask).mul(col_mask);
                proof {
                    assert(self.table()[i as int][j as int] == coeffs@[j as int]@);
                    lemma_fsum_step_offset(sum(outer, i as int), gi, j as int);
                }
                res = res.add(t);
                j = j + 1;
            }
            proof {
                assert(outer(i as int) == sum(gi, nj));
                lemma_fsum_step(outer, i as int);
            }
            i = i + 1;
        }
        proof {
            let vf = |i: int| sum(|j: int| fmul(fmul(self.table()[i][j], eq_poly(i, rp)), eq_poly(j, cp)), nj);
            assert forall|i: int| 0 <= i < self.rows.len() implies #[trigger] outer(i) == vf(i) by {
                assert((|j: int| g(i, j)) =~= (|j: int| fmul(fmul(self.table()[i][j], eq_poly(i, rp)), eq_poly(j, cp))));
            }
            lemma_sum_ext(outer, vf, self.rows.len() as int);
        }
        res
    }
}

/// The diagonal factor of the row variables: a product over the bits of
/// `a*b*c + (1-a)*(1-b)*(1-c)`.
#[derive(Clone, Debug)]
pub struct Delta<const I: usize> {
    pub data: Vec<BaseField>,
}

/// One factor of `Delta`.
pub open spec fn pass(a: int, b: int, c: int) -> int {
    fadd(fmul(fmul(a, b), c), fmul(fmul(fsub(1, a), fsub(1, b)), fsub(1, c)))
}

impl<const I: usize> Delta<I> {
    pub open spec fn wf(self) -> bool {
        &&& self.data.len() == I
        &&& I < usize::BITS
    }

    pub open spec fn point(self) -> Seq<int> {
        self.data@.map_values(|x: BaseField| x@)
    }

    /// The value at the row points `b` and `c`.
    pub open spec fn value(self, b: Seq<int>, c: Seq<int>) -> int {
        fprod(|i: int| pass(self.point()[i], b[i], c[i]), I as int)
    }

    pub fn evaluate(&self, b: &[BaseField], c: &[BaseField]) -> (r: BaseField)
        requires
            self.wf(),
            b.len() == I,
            c.len() == I,
        ensures
            r@ == self.value(b@.map_values(|x: BaseField| x@), c@.map_values(|x: BaseField| x@)),
    {
        let ghost bp = b@.map_values(|x: BaseField| x@);
        let ghost cp = c@.map_values(|x: BaseField| x@);
        let ghost f = |i: int| pass(self.point()[i], bp[i], cp[i]);
        let one = BaseField::one();
        let mut acc = BaseField::one();
        let mut i: usize = 0;
        while i < I
            invariant
                0 <= i <= I,
                self.wf(),
                b.len() == I,
                c.len() == I,
                one@ == 1,
                bp == b@.map_values(|x: BaseField| x@),
                cp == c@.map_values(|x: BaseField| x@),
                f == (|i: int| pass(self.point()[i], bp[i], cp[i])),
                acc@ == fprod(f, i as int),
            decreases I - i,
        {
            let a = self.data[i];
            let bi = b[i];
            let ci = c[i];
            let t = a.mul(bi).mul(ci).add(one.sub(a).mul(one.sub(bi)).mul(one.sub(ci)));
            proof {
                assert(f(i as int) == pass(a@, bi@, ci@));
            }
            acc = acc.mul(t);
            i = i + 1;
        }
        acc
    }
}


/// Batched quadratic constraint system: the trace, the constraints batched at
/// a random point, and the random diagonal factor of the rows. `rng` drives
/// the challenges of the sumcheck prover.
pub struct BQCS<const I: usize, const J: usize, const K: usize> {
    pub delta: Delta<I>,
    pub trace: Trace<I, J>,
    pub matrix: ConstraintSetMatrix<J, K>,
    pub rng: rand_chacha::ChaCha8Rng,
    /// The challenges drawn by `random` so far, in order.
    pub drawn: Ghost<Seq<int>>,
}

impl<const I: usize, const J: usize, const K: usize> BQCS<I, J, K> {
    pub open spec fn wf(self) -> bool {
        &&& self.delta.wf()
        &&& self.trace.wf()
        &&& self.matrix.wf()
    }

    /// The polynomial that the system sums over the hypercube, at row points
    /// `b`, `c` and column points `x`, `y`.
    pub open spec fn value(self, b: Seq<int>, c: Seq<int>, x: Seq<int>, y: Seq<int>) -> int {
        fmul(fmul(fmul(self.delta.value(b, c), self.matrix.value(x, y)), self.trace.value(b, x)), self.trace.value(c, y))
    }

    /// Draws the random diagonal and batching points from the thread-local
    /// generator, and seeds the challenge generator from it.
    pub fn new(trace: Trace<I, J>, set: ConstraintSet<J, K>) -> (r: Self)
        requires
            trace.wf(),
            set.wf(),
            K < usize::BITS,
        ensures
            r.wf(),
            r.trace == trace,
            r.matrix.set == set,
            exists|draws: Seq<u64>| drawn_points::<I, K>(draws, r.delta.data@, r.matrix.random_k@),
            r.drawn@ == Seq::<int>::empty(),
    {
        let (random_i, random_k) = generate_challenges::<I, J, K>(&trace);
        let delta = Delta { data: random_i };
        let matrix = ConstraintSetMatrix { set, random_k };
        let mut thread = thread_rng();
        let rng = chacha_from_thread_rng(&mut thread);
        BQCS { delta, trace, matrix, rng, drawn: Ghost(Seq::empty()) }
    }

    /// The next challenge of the prover.
    pub fn random(&mut self) -> (r: BaseField)
        ensures
            final(self).delta == old(self).delta,
            final(self).trace == old(self).trace,
            final(self).matrix == old(self).matrix,
            final(self).drawn@ == old(self).drawn@.push(r@),
    {
        let r = random_base(&mut self.rng);
        proof {
            self.drawn@ = self.drawn@.push(r@);
        }
        r
    }

    pub fn evaluate(&self, row1: &[BaseField], row2: &[BaseField], col1: &[BaseField], col2: &[BaseField]) -> (r: BaseField)
        requires
            self.wf(),
            row1.len() == I,
            row2.len() == I,
            col1.len() == J,
            col2.len() == J,
        ensures
            r@ == self.value(
                row1@.map_values(|x: BaseField| x@),
                row2@.map_values(|x: BaseField| x@),
                col1@.map_values(|x: BaseField| x@),
                col2@.map_values(|x: BaseField| x@),
            ),
    {
        let d = self.delta.evaluate(row1, row2);
        let a = self.matrix.evaluate(col1, col2);
        let c = d.mul(a);
        if c.is_zero() {
            proof {
                let t1 = self.trace.value(row1@.map_values(|x: BaseField| x@), col1@.map_values(|x: BaseField| x@));
                let t2 = self.trace.value(row2@.map_values(|x: BaseField| x@), col2@.map_values(|x: BaseField| x@));
                assert(fmul(0, t1) == 0);
                assert(fmul(0, t2) == 0);
            }
            return BaseField::zero();
        }
        let w1 = self.trace.evaluate(row1, col1);
        let w2 = self.trace.evaluate(row2, col2);
        c.mul(w1).mul(w2)
    }
}

/// The diagonal point and the batching point from drawn words: the first
/// `I` words reduced into the field, then the next `K`.
pub fn points_from_draws<const I: usize, const K: usize>(draws: &[u64]) -> (r: (Vec<BaseField>, Vec<BaseField>))
    requires
        draws.len() == I + K,
    ensures
        r.0.len() == I,
        r.1.len() == K,
        forall|t: int| 0 <= t < I ==> (#[trigger] r.0@[t])@ == fe(draws@[t] as int),
        forall|t: int| 0 <= t < K ==> (#[trigger] r.1@[t])@ == fe(draws@[I + t] as int),
{
    let mut random_i: Vec<BaseField> = Vec::new();
    let mut i: usize = 0;
    while i < I
        invariant
            random_i.len() == i,
            i <= I,
            draws.len() == I + K,
            forall|t: int| 0 <= t < i ==> (#[trigger] random_i@[t])@ == fe(draws@[t] as int),
        decreases I - i,
    {
        random_i.push(BaseField::from_u64(draws[i]));
        i = i + 1;
    }
    let mut random_k: Vec<BaseField> = Vec::new();
    let mut k: usize = 0;
    while k < K
        invariant
            random_k.len() == k,
            k <= K,
            draws.len() == I + K,
            forall|t: int| 0 <= t < k ==> (#[trigger] random_k@[t])@ == fe(draws@[I + t] as int),
        decreases K - k,
    {
        random_k.push(BaseField::from_u64(draws[I + k]));
        k = k + 1;
    }
    (random_i, random_k)
}

/// The two points are made from drawn words, as `points_from_draws` says.
pub open spec fn drawn_points<const I: usize, const K: usize>(draws: Seq<u64>, di: Seq<BaseField>, dk: Seq<BaseField>) -> bool {
    &&& draws.len() == I + K
    &&& di.len() == I
    &&& dk.len() == K
    &&& forall|t: int| 0 <= t < I ==> (#[trigger] di[t])@ == fe(draws[t] as int)
    &&& forall|t: int| 0 <= t < K ==> (#[trigger] dk[t])@ == fe(draws[I + t] as int)
}

/// Draws `I` diagonal coordinates and then `K` batching coordinates from
/// the thread-local generator; they do not depend on the trace.
fn generate_challenges<const I: usize, const J: usize, const K: usize>(_trace: &Trace<I, J>) -> (r: (Vec<BaseField>, Vec<BaseField>))
    requires
        I + K <= usize::MAX,
    ensures
        exists|draws: Seq<u64>| drawn_points::<I, K>(draws, r.0@, r.1@),
{
    let mut rng = thread_rng();
    let mut draws: Vec<u64> = Vec::new();
    let n: usize = I + K;
    let mut t: usize = 0;
    while t < n
        invariant
            draws.len() == t,
            t <= n,
        decreases n - t,
    {
        draws.push(thread_random_u64(&mut rng));
        t = t + 1;
    }
    let r = points_from_draws::<I, K>(draws.as_slice());
    proof {
        assert(drawn_points::<I, K>(draws@, r.0@, r.1@));
    }
    r
}

} // verus!
