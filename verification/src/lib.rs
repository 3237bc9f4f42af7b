use vstd::prelude::*;

pub mod sums;
pub mod field;
pub mod util;
pub mod rng;
pub mod matmul;
pub mod multilinear;
pub mod hypercube;
pub mod identities;
pub mod linsolve;
pub mod codes;
pub mod basefold;
pub mod completeness;
pub mod sumcheck;
pub mod r1cs;
pub mod lattice;
pub mod commit;
