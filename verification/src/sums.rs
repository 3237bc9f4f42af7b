//! Finite sums over the integers and how they interact with reduction modulo `q`.
use vstd::arithmetic::div_mod::*;
use vstd::arithmetic::mul::*;
use vstd::prelude::*;

verus! {

/// `f(0) + f(1) + ... + f(n - 1)`.
pub open spec fn sum(n: nat, f: spec_fn(int) -> int) -> int
    decreases n,
{
    if n == 0 {
        0
    } else {
        sum((n - 1) as nat, f) + f(n - 1)
    }
}

/// Sums only depend on the summands below the bound.
pub proof fn lemma_sum_ext(n: nat, f: spec_fn(int) -> int, g: spec_fn(int) -> int)
    requires
        forall|i: int| 0 <= i < n ==> #[trigger] f(i) == g(i),
    ensures
        sum(n, f) == sum(n, g),
    decreases n,
{
    if n > 0 {
        lemma_sum_ext((n - 1) as nat, f, g);
    }
}

/// The sum of zeros is zero.
pub proof fn lemma_sum_zero(n: nat, f: spec_fn(int) -> int)
    requires
        forall|i: int| 0 <= i < n ==> #[trigger] f(i) == 0,
    ensures
        sum(n, f) == 0,
    decreases n,
{
    if n > 0 {
        lemma_sum_zero((n - 1) as nat, f);
    }
}

/// A sum of pointwise sums is the sum of the two sums.
pub proof fn lemma_sum_add(n: nat, f: spec_fn(int) -> int, g: spec_fn(int) -> int)
    ensures
        sum(n, |i: int| f(i) + g(i)) == sum(n, f) + sum(n, g),
    decreases n,
{
    if n > 0 {
        lemma_sum_add((n - 1) as nat, f, g);
    }
}

/// A constant factor can be pulled out of a sum.
pub proof fn lemma_sum_scale(n: nat, c: int, f: spec_fn(int) -> int)
    ensures
        sum(n, |i: int| c * f(i)) == c * sum(n, f),
    decreases n,
{
    if n > 0 {
        lemma_sum_scale((n - 1) as nat, c, f);
        lemma_mul_is_distributive_add(c, sum((n - 1) as nat, f), f(n - 1));
    }
}

/// A sum with a single nonzero summand at `k`.
pub proof fn lemma_sum_single(n: nat, k: int, f: spec_fn(int) -> int)
    requires
        0 <= k < n,
        forall|i: int| 0 <= i < n && i != k ==> #[trigger] f(i) == 0,
    ensures
        sum(n, f) == f(k),
    decreases n,
{
    if n - 1 == k {
        lemma_sum_zero(k as nat, f);
    } else {
        lemma_sum_single((n - 1) as nat, k, f);
    }
}

/// Splitting a sum at `m`.
pub proof fn lemma_sum_split(m: nat, n: nat, f: spec_fn(int) -> int)
    ensures
        sum(m + n, f) == sum(m, f) + sum(n, |i: int| f(m + i)),
    decreases n,
{
    if n > 0 {
        lemma_sum_split(m, (n - 1) as nat, f);
    }
}

/// A sum over `a * b` indices as a double sum over blocks of length `b`.
pub proof fn lemma_sum_blocks(a: nat, b: nat, f: spec_fn(int) -> int)
    ensures
        sum(a * b, f) == sum(a, |k: int| sum(b, |j: int| f(k * b + j))),
    decreases a,
{
    let F = |k: int| sum(b, |j: int| f(k * b + j));
    if a == 0 {
        assert(a * b == 0) by {
            lemma_mul_basics(b as int);
        }
    } else {
        lemma_sum_blocks((a - 1) as nat, b, f);
        assert(a * b == (a - 1) * b + b) by {
            lemma_mul_is_distributive_sub_other_way(b as int, a as int, 1);
        }
        lemma_sum_split(((a - 1) * b) as nat, b, f);
        let g = |j: int| f(((a - 1) * b) as nat + j);
        let h = |j: int| f((a - 1) * b + j);
        lemma_sum_ext(b, g, h);
        assert(F(a - 1) == sum(b, h));
        assert(sum(a, F) == sum((a - 1) as nat, F) + F(a - 1));
    }
}

/// Exchanging the order of a double sum.
pub proof fn lemma_sum_swap(a: nat, b: nat, f: spec_fn(int, int) -> int)
    ensures
        sum(a, |i: int| sum(b, |j: int| f(i, j))) == sum(b, |j: int| sum(a, |i: int| f(i, j))),
    decreases a,
{
    let L = |i: int| sum(b, |j: int| f(i, j));
    let k = |j: int| sum(a, |i: int| f(i, j));
    if a == 0 {
        lemma_sum_zero(b, k);
    } else {
        lemma_sum_swap((a - 1) as nat, b, f);
        let g = |j: int| sum((a - 1) as nat, |i: int| f(i, j));
        let h = |j: int| f(a - 1, j);
        lemma_sum_add(b, g, h);
        assert forall|j: int| 0 <= j < b implies #[trigger] k(j) == g(j) + h(j) by {}
        lemma_sum_ext(b, k, |j: int| g(j) + h(j));
        assert(L(a - 1) == sum(b, h));
        assert(sum(a, L) == sum((a - 1) as nat, L) + L(a - 1));
    }
}

/// Reducing every summand modulo `q` does not change the sum modulo `q`.
pub proof fn lemma_sum_mod(n: nat, q: int, f: spec_fn(int) -> int)
    requires
        q > 0,
    ensures
        sum(n, |i: int| f(i) % q) % q == sum(n, f) % q,
    decreases n,
{
    if n > 0 {
        lemma_sum_mod((n - 1) as nat, q, f);
        let g = |i: int| f(i) % q;
        lemma_add_mod_noop(sum((n - 1) as nat, g), g(n - 1), q);
        lemma_add_mod_noop(sum((n - 1) as nat, f), f(n - 1), q);
        lemma_mod_twice(f(n - 1), q);
    }
}

/// Summands that agree modulo `q` give sums that agree modulo `q`.
pub proof fn lemma_sum_congruent(n: nat, q: int, f: spec_fn(int) -> int, g: spec_fn(int) -> int)
    requires
        q > 0,
        forall|i: int| 0 <= i < n ==> #[trigger] (f(i) % q) == g(i) % q,
    ensures
        sum(n, f) % q == sum(n, g) % q,
{
    lemma_sum_mod(n, q, f);
    lemma_sum_mod(n, q, g);
    lemma_sum_ext(n, |i: int| f(i) % q, |i: int| g(i) % q);
}

/// `f(0) * f(1) * ... * f(n - 1)`.
pub open spec fn prod(n: nat, f: spec_fn(int) -> int) -> int
    decreases n,
{
    if n == 0 {
        1
    } else {
        prod((n - 1) as nat, f) * f(n - 1)
    }
}

/// Products only depend on the factors below the bound.
pub proof fn lemma_prod_ext(n: nat, f: spec_fn(int) -> int, g: spec_fn(int) -> int)
    requires
        forall|i: int| 0 <= i < n ==> #[trigger] f(i) == g(i),
    ensures
        prod(n, f) == prod(n, g),
    decreases n,
{
    if n > 0 {
        lemma_prod_ext((n - 1) as nat, f, g);
    }
}

/// Factors that agree modulo `q` give products that agree modulo `q`.
pub proof fn lemma_prod_congruent(n: nat, q: int, f: spec_fn(int) -> int, g: spec_fn(int) -> int)
    requires
        q > 0,
        forall|i: int| 0 <= i < n ==> #[trigger] (f(i) % q) == g(i) % q,
    ensures
        prod(n, f) % q == prod(n, g) % q,
    decreases n,
{
    if n > 0 {
        lemma_prod_congruent((n - 1) as nat, q, f, g);
        lemma_mul_mod_noop_general(prod((n - 1) as nat, f), f(n - 1), q);
        lemma_mul_mod_noop_general(prod((n - 1) as nat, g), g(n - 1), q);
    }
}

/// One step of a running product modulo `q`.
pub proof fn lemma_prod_step(n: nat, q: int, f: spec_fn(int) -> int, acc: int, x: int)
    requires
        q > 0,
        acc == prod(n, f) % q,
        x == f(n as int) % q,
    ensures
        (acc * x) % q == prod(n + 1, f) % q,
{
    lemma_mul_mod_noop_general(prod(n, f), f(n as int), q);
}

/// One step of a running sum modulo `q`.
pub proof fn lemma_sum_step(n: nat, q: int, f: spec_fn(int) -> int, acc: int, x: int)
    requires
        q > 0,
        acc == sum(n, f) % q,
        x == f(n as int) % q,
    ensures
        (acc + x) % q == sum(n + 1, f) % q,
{
    lemma_add_mod_noop(sum(n, f), f(n as int), q);
}

/// Splitting a product at `m`.
pub proof fn lemma_prod_split(m: nat, n: nat, f: spec_fn(int) -> int)
    ensures
        prod(m + n, f) == prod(m, f) * prod(n, |i: int| f(m + i)),
    decreases n,
{
    if n == 0 {
        lemma_mul_basics(prod(m, f));
    } else {
        lemma_prod_split(m, (n - 1) as nat, f);
        lemma_mul_is_associative(prod(m, f), prod((n - 1) as nat, |i: int| f(m + i)), f(m + n - 1));
    }
}

} // verus!
