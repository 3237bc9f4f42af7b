# piopkit

Building blocks of polynomial interactive oracle proofs over a prime field
`Z/qZ`, verified with Verus.

- `field`: the prime field, with inverses and exact division.
- `multilinear`, `hypercube`, `identities`: multilinear polynomials held by
  their hypercube evaluations or their coefficients, the changes of basis
  between the two, the equality polynomial `eq(z, .)`, and the identities that
  relate them.
- `codes`: linear codes, Reed-Solomon codes and foldable codes (a message of
  `k0 * 2^d` entries is encoded by folding its halves with per-level weights).
- `basefold`, `completeness`: the BaseFold polynomial commitment (commit,
  evaluation proofs, verifier) and the proof that honest evaluation proofs are
  accepted.
- `sumcheck`: univariate round polynomials held by their values at a few
  points, with Lagrange interpolation.
- `matmul`, `r1cs`: dense, diagonal, sparse, repeated and Hadamard matrices,
  and rank-one constraint systems.
- `linsolve`: solvability of linear systems by Gaussian elimination.
- `lattice`, `rng`: centered lifts and bounded vectors for lattice arguments,
  random field elements and the Fiat-Shamir challenge simulator.

`app/` holds what works with floating-point numbers (rejection sampling,
discrete Gaussians, norms) and printing.

The lattice parts of the wider project (the ABDLOP commitment, the LatSigma
proof of linear relations) and the Spartan, vPIR and vMM protocols are not
here: they compute in polynomial rings `Z_q[X]/(X^N + 1)` with NTTs, and over
multivariate polynomial rings, all provided by `feanor-math`, which does not
build with a stable toolchain. For the same reason the field is a prime field
of the library's own (`field`), and polynomials are held by their coefficient
or evaluation vectors.

The challenges of the BaseFold prover and verifier come from a deterministic
generator (`rng::FiatShamirSim`, seeded with a fixed string); its draws are
named as functions of the generator state (`rng::fs_challenges`), so that the
contracts of `eval`, `eval_fast` and `verify` speak of the same challenges and
`basefold::lemma_eval_verify_complete` states that honest proofs are accepted.
