# zk_sumcheck

A verified sumcheck prover and verifier for batched quadratic constraint
systems over the Goldilocks field, with the pieces around it: field
arithmetic (Goldilocks and a 128-bit prime field), multilinear extensions,
quadratic polynomials in one variable, constraint expressions, a SHA-256
Merkle tree and a hashing transcript.

Every function in `src/` carries a contract that Verus proves. The main
results are stated as proof functions:

- `honest_prover::lemma_sumcheck_accepts` and its transposed twin: for any
  challenges, the quadratics the prover sends for the true hypercube sum
  pass every check of the verifier, the last one against the system's
  polynomial at the challenge point.
- `honest_prover::lemma_satisfied_system_accepted`: a trace that satisfies
  its constraints on every row sums to zero, so the claim zero is accepted.
- `merkle_tree::lemma_open_verify`: an opening of a committed leaf verifies
  against the root at its index.
- `vertices::lemma_system_at_vertex`: the system's polynomial agrees with its
  hypercube table at every vertex.
- `expr::lemma_linear_combination_evaluates`, `expr::lemma_quadratic_evaluates`:
  converting an expression keeps its value.
- `polynomials::lemma_through_interpolates`: the quadratic through three
  values takes them at 0, 1 and -1.
- `identities`: the equality polynomials are affine in each coordinate and
  sum to one; the diagonal factor is symmetric, vanishes at distinct
  hypercube points and sums to one over the hypercube; the batched
  constraints pick out one constraint at a vertex of the batching point;
  turning values into coefficients is additive; a wrong final value fails
  only the last check of the verifier; summed over every boolean choice of
  its four points, the system's polynomial gives its hypercube sum.
- `coefficients::lemma_mobius_at_vertices`: the coefficients that Möbius
  inversion computes give, at each vertex of the hypercube, the value they
  were computed from (the coefficients of the sub-masks of an index add up
  to the value at that index, `lemma_mobius_submask_sums`).
- `soundness::lemma_wrong_claim_rejected` and its transposed twin: for a
  claim off the hypercube sum by an invertible amount, and challenges none
  of which makes `r(r+1)/2` zero, the prover's quadratics pass every check
  between rounds and fail the final one.
- `transcript::lemma_transcript_appends`: a transcript's challenge is the
  hash of all the labelled messages appended to it, in order.

Calls into `sha2`, `rand` and `rand_chacha` go through small trusted
wrappers whose contracts state only what those crates document.

What is not here: the polynomial-commitment driver (`run_pcs` and its
configuration `Conf`, `default_conf`, `default_polynomial`,
`default_points`) is built on the `whir` commitment scheme and the
`spongefish` transcript crates, and the FRI prover and verifier needs an NTT
module and the `bincode` crate; none of these can be had or built here, so
those parts are not part of this library.

`app/` holds what Verus does not see: serde copies of the library's types
and a benchmark macro.
