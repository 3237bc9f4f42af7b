//! Multilinear polynomials over a prime field.
//!
//! A multilinear polynomial in `n` variables is held either by its evaluations
//! on the hypercube `{0,1}^n` or by its coefficients; in both forms, index `k`
//! stands for the point (or monomial) whose `i`-th coordinate (or exponent) is
//! bit `i` of `k`, least significant first.
use crate::field::{all_canonical, is_prime, PrimeField};
use crate::sums::{
    lemma_prod_split, lemma_prod_congruent, lemma_prod_ext, lemma_prod_step, lemma_sum_ext, lemma_sum_step, prod, sum,
};
use crate::util::{bit_at, bit_of, copy_slice, lemma_bit_of_add_pow2, lemma_bit_of_bound, lemma_has_set_bit, lemma_increment_bits};
use vstd::arithmetic::div_mod::*;
use vstd::arithmetic::mul::*;
use vstd::arithmetic::power2::*;
use vstd::prelude::*;

verus! {

/// The factor of the equality polynomial for coordinate value `z` and bit `b`:
/// `z` when `b` is one, `1 - z` otherwise.
pub open spec fn eq_factor(z: int, b: nat) -> int {
    if b == 1 {
        z
    } else {
        1 - z
    }
}

/// `eq(z, k) = prod_i (z_i if bit i of k is set, else 1 - z_i)`: the Lagrange
/// basis polynomial of the hypercube point `k`, evaluated at `z`.
pub open spec fn eq_point(z: Seq<u64>, k: nat) -> int {
    prod(z.len(), |i: int| eq_factor(z[i] as int, bit_of(k, i as nat)))
}

/// `eq(z, r) = prod_i (z_i r_i + (1 - z_i)(1 - r_i))`.
pub open spec fn eq_eval(z: Seq<u64>, r: Seq<u64>) -> int {
    prod(z.len(), |i: int| z[i] * r[i] + (1 - z[i]) * (1 - r[i]))
}

/// The value at `r` of the multilinear polynomial with hypercube evaluations `evals`:
/// `sum_k evals[k] * eq(r, k)`.
pub open spec fn mle_eval(evals: Seq<u64>, r: Seq<u64>) -> int {
    sum(evals.len(), |k: int| evals[k] * eq_point(r, k as nat))
}

/// `prod_{i: bit i of k is set} r_i`: the monomial with exponent bits `k`, evaluated at `r`.
pub open spec fn monomial(r: Seq<u64>, k: nat) -> int {
    prod(r.len(), |i: int| if bit_of(k, i as nat) == 1 { r[i] as int } else { 1 })
}

/// The equality polynomial `eq(z, .)`, the multilinear Lagrange basis polynomial
/// that is one at the point `z` of the hypercube and zero at the others.
pub struct MultilinearBasis {
    field: PrimeField,
    z: Vec<u64>,
}

impl MultilinearBasis {
    /// The point `z`.
    pub closed spec fn point(&self) -> Seq<u64> {
        self.z@
    }

    /// The characteristic of the field.
    pub closed spec fn modulus(&self) -> nat {
        self.field.q()
    }

    /// The basis polynomial for the point `z`.
    pub fn new(field: &PrimeField, z: &[u64]) -> (mb: MultilinearBasis)
        requires
            all_canonical(z@, field.q()),
        ensures
            mb.point() == z@,
            mb.modulus() == field.q(),
            mb.wf(),
    {
        proof {
            use_type_invariant(field);
        }
        MultilinearBasis { field: *field, z: copy_slice(z) }
    }

    /// The point is canonical in a prime field.
    pub closed spec fn wf(&self) -> bool {
        &&& is_prime(self.field.q())
        &&& all_canonical(self.z@, self.field.q())
    }

    /// `eq(z, at)`.
    pub fn evaluate(&self, at: &[u64]) -> (r: u64)
        requires
            self.wf(),
            at.len() == self.point().len(),
            all_canonical(at@, self.modulus()),
        ensures
            r == eq_eval(self.point(), at@) % (self.modulus() as int),
            r < self.modulus(),
    {
        let f = &self.field;
        let ghost q = f.q() as int;
        let ghost g = |i: int| self.z@[i] * at@[i] + (1 - self.z@[i]) * (1 - at@[i]);
        let mut acc = f.one();
        let mut i: usize = 0;
        proof {
            lemma_small_mod(1, q as nat);
        }
        while i < self.z.len()
            invariant
                self.wf(),
                q == f.q(),
                f == &self.field,
                at.len() == self.z.len(),
                all_canonical(at@, q as nat),
                i <= self.z.len(),
                g == (|i: int| self.z@[i] * at@[i] + (1 - self.z@[i]) * (1 - at@[i])),
                acc < q,
                acc == prod(i as nat, g) % q,
            decreases self.z.len() - i,
        {
            let zi = self.z[i];
            let ri = at[i];
            let one = f.one();
            let a = f.mul(zi, ri);
            let b = f.mul(f.sub(one, zi), f.sub(one, ri));
            let t = f.add(a, b);
            proof {
                lemma_mul_mod_noop_general(1 - zi, 1 - ri, q);
                lemma_add_mod_noop(zi * ri, (1 - zi) * (1 - ri), q);
                lemma_prod_step(i as nat, q, g, acc as int, t as int);
            }
            acc = f.mul(acc, t);
            i = i + 1;
        }
        acc
    }

    /// `eq(z, at)` for a point `at` of the hypercube given by its bits.
    pub fn evaluate_athc(&self, at: Vec<usize>) -> (r: u64)
        requires
            self.wf(),
            at.len() == self.point().len(),
            forall|i: int| 0 <= i < at.len() ==> #[trigger] at@[i] == 0 || at@[i] == 1,
        ensures
            r == prod(self.point().len(), |i: int| eq_factor(self.point()[i] as int, at@[i] as nat)) % (self.modulus() as int),
            r < self.modulus(),
    {
        let f = &self.field;
        let ghost q = f.q() as int;
        let ghost g = |i: int| eq_factor(self.z@[i] as int, at@[i] as nat);
        let mut acc = f.one();
        let mut i: usize = 0;
        proof {
            lemma_small_mod(1, q as nat);
        }
        while i < self.z.len()
            invariant
                self.wf(),
                q == f.q(),
                f == &self.field,
                at.len() == self.z.len(),
                forall|i: int| 0 <= i < at.len() ==> #[trigger] at@[i] == 0 || at@[i] == 1,
                i <= self.z.len(),
                g == (|i: int| eq_factor(self.z@[i] as int, at@[i] as nat)),
                acc < q,
                acc == prod(i as nat, g) % q,
            decreases self.z.len() - i,
        {
            let zi = self.z[i];
            let t = if at[i] == 0 {
                f.sub(f.one(), zi)
            } else {
                proof {
                    lemma_small_mod(zi as nat, q as nat);
                }
                zi
            };
            proof {
                lemma_prod_step(i as nat, q, g, acc as int, t as int);
            }
            acc = f.mul(acc, t);
            i = i + 1;
        }
        acc
    }

    /// `eq(z, k)` for every point `k` of the hypercube, by repeated doubling.
    pub fn evals_slow(&self) -> (res: Vec<u64>)
        requires
            self.wf(),
            1 <= self.point().len() < usize::BITS,
        ensures
            res.len() == pow2(self.point().len()),
            forall|k: int| 0 <= k < res.len() ==> #[trigger] res[k] == eq_point(self.point(), k as nat) % (self.modulus() as int),
    {
        let f = &self.field;
        let ghost q = f.q() as int;
        let vc = self.z.len();
        proof {
            vstd::bits::lemma_usize_pow2_no_overflow(vc as nat);
            assert(1 * pow2(vc as nat) == pow2(vc as nat));
            vstd::bits::lemma_usize_shl_is_mul(1, vc);
            lemma_pow2_unfold(vc as nat);
            vstd::bits::lemma_usize_pow2_no_overflow((vc - 1) as nat);
            assert(1 * pow2((vc - 1) as nat) == pow2((vc - 1) as nat));
            vstd::bits::lemma_usize_shl_is_mul(1, (vc - 1) as usize);
        }
        let n = 1usize << vc;
        let half = 1usize << (vc - 1);
        let one = f.one();
        let mut res: Vec<u64> = vec![one; n];
        let mut ws: Vec<u64> = vec![one; half];
        let mut i: usize = 0;
        proof {
            lemma2_to64();
            lemma_small_mod(1, q as nat);
        }
        while i < vc
            invariant
                self.wf(),
                q == f.q(),
                f == &self.field,
                vc == self.z.len(),
                1 <= vc < usize::BITS,
                n == pow2(vc as nat),
                half == pow2((vc - 1) as nat),
                n == 2 * half,
                i <= vc,
                res.len() == n,
                ws.len() == half,
                forall|k: int| 0 <= k < n ==> #[trigger] res@[k] < q,
                forall|k: int| 0 <= k < pow2(i as nat) ==> #[trigger] res@[k] == prod(
                    i as nat,
                    |t: int| eq_factor(self.z@[t] as int, bit_of(k as nat, t as nat)),
                ) % q,
            decreases vc - i,
        {
            proof {
                vstd::bits::lemma_usize_pow2_no_overflow(i as nat);
                assert(1 * pow2(i as nat) == pow2(i as nat));
                vstd::bits::lemma_usize_shl_is_mul(1, i);
                if i < vc - 1 {
                    lemma_pow2_strictly_increases(i as nat, (vc - 1) as nat);
                }
                lemma_pow2_unfold((i + 1) as nat);
                if i + 1 < vc {
                    lemma_pow2_strictly_increases((i + 1) as nat, vc as nat);
                }
            }
            let p = 1usize << i;
            let zi = self.z[i];
            let omz = f.sub(f.one(), zi);
            let ghost prev = res@;
            // copy the first half
            let mut k: usize = 0;
            while k < p
                invariant
                    k <= p <= half,
                    n == 2 * half,
                    res.len() == n,
                    ws.len() == half,
                    res@ == prev,
                    forall|l: int| 0 <= l < k ==> #[trigger] ws@[l] == prev[l],
                decreases p - k,
            {
                ws.set(k, res[k]);
                k = k + 1;
            }
            let mut k: usize = 0;
            while k < p
                invariant
                    self.wf(),
                    q == f.q(),
                    f == &self.field,
                    k <= p,
                    p == pow2(i as nat),
                    2 * p <= n,
                    p <= half,
                    res.len() == n,
                    ws.len() == half,
                    omz < q,
                    zi < q,
                    forall|l: int| 0 <= l < p ==> #[trigger] ws@[l] == prev[l],
                    forall|l: int| 0 <= l < n ==> #[trigger] prev[l] < q,
                    forall|l: int| 0 <= l < n ==> #[trigger] res@[l] < q,
                    forall|l: int| 0 <= l < k ==> #[trigger] res@[l] == (prev[l] * omz) % q,
                    forall|l: int| 0 <= l < k ==> #[trigger] res@[p + l] == (prev[l] * zi) % q,
                    forall|l: int| k <= l < p ==> #[trigger] res@[l] == prev[l],
                decreases p - k,
            {
                let a = f.mul(ws[k], omz);
                let b = f.mul(ws[k], zi);
                res.set(k, a);
                res.set(p + k, b);
                k = k + 1;
            }
            proof {
                let ii = i as nat;
                assert forall|k: int| 0 <= k < pow2(ii + 1) implies #[trigger] res@[k] == prod(
                    ii + 1,
                    |t: int| eq_factor(self.z@[t] as int, bit_of(k as nat, t as nat)),
                ) % q by {
                    let g = |t: int| eq_factor(self.z@[t] as int, bit_of(k as nat, t as nat));
                    if k < p {
                        assert(prev[k] == prod(ii, g) % q);
                        assert(res@[k] == (prev[k] * omz) % q);
                        lemma_bit_of_add_pow2(k as nat, ii, 0);
                        lemma_prod_step(ii, q, g, prev[k] as int, omz as int);
                    } else {
                        let l = k - p;
                        let gl = |t: int| eq_factor(self.z@[t] as int, bit_of(l as nat, t as nat));
                        assert(prev[l] == prod(ii, gl) % q);
                        assert(res@[p + l] == (prev[l] * zi) % q);
                        assert forall|t: int| 0 <= t < ii implies #[trigger] g(t) == gl(t) by {
                            lemma_bit_of_add_pow2(l as nat, ii, t as nat);
                        }
                        lemma_prod_ext(ii, g, gl);
                        lemma_bit_of_add_pow2(l as nat, ii, 0);
                        lemma_small_mod(zi as nat, q as nat);
                        lemma_prod_step(ii, q, g, prev[l] as int, zi as int);
                    }
                }
            }
            i = i + 1;
        }
        res
    }
}

/// Splits `prod_t f(t)` over `n` factors around index `j`.
pub proof fn lemma_prod_around(n: nat, j: nat, f: spec_fn(int) -> int)
    requires
        j < n,
    ensures
        prod(n, f) == prod(j, f) * f(j as int) * prod((n - j - 1) as nat, |i: int| f(j + 1 + i)),
{
    let r = (n - j - 1) as nat;
    lemma_prod_split(j, (n - j) as nat, f);
    let g = |i: int| f(j + i);
    lemma_prod_split(1, r, g);
    assert(prod(0, g) == 1);
    lemma_mul_basics(g(0));
    assert(prod(1, g) == prod(0, g) * g(0));
    assert(prod(1, g) == g(0));
    lemma_prod_ext(r, |i: int| g(1 + i), |i: int| f(j + 1 + i));
    lemma_mul_is_associative(prod(j, f), f(j as int), prod(r, |i: int| f(j + 1 + i)));
}

/// The streaming step of the hypercube evaluations of `eq(z, .)`: from `eq(z, v)`
/// to `eq(z, v + 1)`, where `j` is the lowest set bit of `v + 1`, multiply by
/// `z_j / (1 - z_j)` and by `(1 - z_t) / z_t` for every `t < j`.
proof fn lemma_eq_point_next(z: Seq<u64>, q: int, v: nat, j: nat, cur: int, s: int, d: int)
    requires
        q > 0,
        j < z.len(),
        bit_of(v + 1, j) == 1,
        forall|t: nat| t < j ==> #[trigger] bit_of(v + 1, t) == 0,
        cur % q == eq_point(z, v) % q,
        (s * (1 - z[j as int])) % q == (z[j as int] as int) % q,
        (d * prod(j, |t: int| z[t] as int)) % q == prod(j, |t: int| 1 - z[t]) % q,
    ensures
        (cur * s * d) % q == eq_point(z, v + 1) % q,
{
    let n = z.len();
    let fv = |t: int| eq_factor(z[t] as int, bit_of(v, t as nat));
    let fw = |t: int| eq_factor(z[t] as int, bit_of(v + 1, t as nat));
    let r = (n - j - 1) as nat;
    lemma_prod_around(n, j, fv);
    lemma_prod_around(n, j, fw);
    assert forall|t: int| 0 <= t < j implies #[trigger] fv(t) == z[t] as int by {
        lemma_increment_bits(v, j, t as nat);
    }
    assert forall|t: int| 0 <= t < j implies #[trigger] fw(t) == 1 - z[t] by {
        assert(bit_of(v + 1, t as nat) == 0);
    }
    lemma_prod_ext(j, fv, |t: int| z[t] as int);
    lemma_prod_ext(j, fw, |t: int| 1 - z[t]);
    assert forall|i: int| 0 <= i < r implies #[trigger] fv(j + 1 + i) == fw(j + 1 + i) by {
        lemma_increment_bits(v, j, (j + 1 + i) as nat);
    }
    lemma_prod_ext(r, |i: int| fv(j + 1 + i), |i: int| fw(j + 1 + i));
    lemma_increment_bits(v, j, 0);
    let x = prod(j, |t: int| z[t] as int);
    let y = prod(j, |t: int| 1 - z[t]);
    let sv = prod(r, |i: int| fv(j + 1 + i));
    let zj = z[j as int] as int;
    let a = 1 - zj;
    assert(eq_point(z, v) == x * a * sv);
    assert(eq_point(z, v + 1) == y * zj * sv);
    // cur * s * d == (d * x) * (s * a) * sv, up to the congruence cur == x * a * sv
    lemma_mul_mod_noop_left(cur, s * d, q);
    lemma_mul_mod_noop_left(x * a * sv, s * d, q);
    lemma_mul_is_associative(cur, s, d);
    lemma_mul_is_associative(x * a * sv, s, d);
    assert((x * a * sv) * (s * d) == ((d * x) * (s * a)) * sv) by (nonlinear_arith);
    lemma_mul_mod_noop_left((d * x) * (s * a), sv, q);
    lemma_mul_mod_noop_general(d * x, s * a, q);
    lemma_mul_is_commutative(s, a);
    lemma_mul_mod_noop_general(y, zj, q);
    lemma_mul_mod_noop_left(y * zj, sv, q);
}

/// Streams the evaluations of `eq(z, .)` on the hypercube, point after point
/// in increasing order, with one multiplication per point (plus one per
/// trailing one-bit of the point index).
pub struct MultilinearBasisEvals {
    field: PrimeField,
    z: Vec<u64>,
    ind: usize,
    cur: u64,
}

/// The streamed evaluations of `eq(z, .)` are defined: no coordinate of `z` is one
/// (each step divides by `1 - z_j`) and no coordinate but the last is zero (each
/// step divides by the `z_t` below the lowest set bit).
pub open spec fn streamable(z: Seq<u64>) -> bool {
    forall|i: int| 0 <= i < z.len() ==> #[trigger] z[i] != 1 && (i + 1 < z.len() ==> z[i] != 0)
}

impl MultilinearBasisEvals {
    /// The point `z`.
    pub closed spec fn point(&self) -> Seq<u64> {
        self.z@
    }

    /// The characteristic of the field.
    pub closed spec fn modulus(&self) -> nat {
        self.field.q()
    }

    /// The number of evaluations already produced.
    pub closed spec fn index(&self) -> nat {
        self.ind as nat
    }

    /// A copy of the stream, at the same position.
    pub fn clone(&self) -> (r: MultilinearBasisEvals)
        ensures
            r.point() == self.point(),
            r.modulus() == self.modulus(),
            r.index() == self.index(),
            self.wf() ==> r.wf(),
    {
        let z = copy_slice(self.z.as_slice());
        MultilinearBasisEvals { field: self.field.clone(), z, ind: self.ind, cur: self.cur }
    }

    /// The state is consistent: the current value is `eq(z, index)` (or the last value
    /// once all evaluations are produced).
    pub closed spec fn wf(&self) -> bool {
        &&& is_prime(self.field.q())
        &&& all_canonical(self.z@, self.field.q())
        &&& self.z.len() < usize::BITS
        &&& self.ind <= pow2(self.z.len() as nat)
        &&& self.cur < self.field.q()
        &&& self.cur == eq_point(self.z@, if self.ind < pow2(self.z.len() as nat) {
            self.ind as nat
        } else {
            (self.ind - 1) as nat
        }) % (self.field.q() as int)
    }

    /// `prod_i (1 - z_i)`, the evaluation at the first point of the hypercube.
    fn zero_eval(field: &PrimeField, z: &Vec<u64>) -> (r: u64)
        requires
            all_canonical(z@, field.q()),
        ensures
            r == eq_point(z@, 0) % (field.q() as int),
            r < field.q(),
    {
        proof {
            use_type_invariant(field);
        }
        let ghost q = field.q() as int;
        let ghost g = |i: int| eq_factor(z@[i] as int, bit_of(0, i as nat));
        let mut acc = field.one();
        let mut i: usize = 0;
        proof {
            lemma_small_mod(1, q as nat);
        }
        while i < z.len()
            invariant
                q == field.q(),
                q > 1,
                all_canonical(z@, field.q()),
                i <= z.len(),
                g == (|i: int| eq_factor(z@[i] as int, bit_of(0, i as nat))),
                acc < q,
                acc == prod(i as nat, g) % q,
            decreases z.len() - i,
        {
            let t = field.sub(field.one(), z[i]);
            proof {
                lemma_pow2_pos(i as nat);
                lemma_basic_div(0, pow2(i as nat) as int);
                lemma_small_mod(0, 2);
                lemma_prod_step(i as nat, q, g, acc as int, t as int);
            }
            acc = field.mul(acc, t);
            i = i + 1;
        }
        acc
    }

    /// The evaluations of `eq(z, .)`, starting at the first point of the hypercube.
    pub fn new(field: &PrimeField, z: &[u64]) -> (e: MultilinearBasisEvals)
        requires
            all_canonical(z@, field.q()),
            z.len() < usize::BITS,
        ensures
            e.wf(),
            e.point() == z@,
            e.modulus() == field.q(),
            e.index() == 0,
    {
        proof {
            use_type_invariant(field);
            lemma_pow2_pos(z.len() as nat);
        }
        let zv = copy_slice(z);
        let cur = Self::zero_eval(field, &zv);
        MultilinearBasisEvals { field: *field, z: zv, ind: 0, cur }
    }

    /// Back to the first point of the hypercube.
    pub fn reset(&mut self)
        requires
            old(self).wf(),
        ensures
            final(self).wf(),
            final(self).point() == old(self).point(),
            final(self).modulus() == old(self).modulus(),
            final(self).index() == 0,
    {
        self.ind = 0;
        self.cur = Self::zero_eval(&self.field, &self.z);
        proof {
            lemma_pow2_pos(self.z.len() as nat);
        }
    }

    /// The evaluation at the current point.
    pub fn cur(&self) -> (c: u64)
        requires
            self.wf(),
        ensures
            c == eq_point(self.point(), if self.index() < pow2(self.point().len()) {
                self.index()
            } else {
                (self.index() - 1) as nat
            }) % (self.modulus() as int),
            c < self.modulus(),
    {
        self.cur
    }

    /// The evaluation at the next point, or `None` once all `2^n` are produced.
    pub fn next(&mut self) -> (r: Option<u64>)
        requires
            old(self).wf(),
            streamable(old(self).point()),
        ensures
            final(self).wf(),
            final(self).point() == old(self).point(),
            final(self).modulus() == old(self).modulus(),
            old(self).index() < pow2(old(self).point().len()) ==> {
                &&& r == Some((eq_point(old(self).point(), old(self).index()) % (old(self).modulus() as int)) as u64)
                &&& final(self).index() == old(self).index() + 1
            },
            old(self).index() >= pow2(old(self).point().len()) ==> r is None && final(self).index() == old(self).index(),
    {
        let n = self.z.len();
        proof {
            vstd::bits::lemma_usize_pow2_no_overflow(n as nat);
            assert(1 * pow2(n as nat) == pow2(n as nat));
            vstd::bits::lemma_usize_shl_is_mul(1, n);
        }
        let total = 1usize << n;
        if self.ind + 1 < total {
            let res = self.cur;
            let field = self.field;
            let ghost q = field.q() as int;
            let ghost v = self.ind as nat;
            self.ind = self.ind + 1;
            let ind = self.ind;
            // the lowest set bit of the new index
            proof {
                lemma_has_set_bit(ind as nat, n as nat);
            }
            let mut j: usize = 0;
            while j < n && (ind >> j) & 1 == 0
                invariant
                    j <= n < usize::BITS,
                    0 < ind < pow2(n as nat),
                    exists|t: nat| t < n && #[trigger] bit_of(ind as nat, t) == 1,
                    forall|t: nat| t < j ==> #[trigger] bit_of(ind as nat, t) == 0,
                decreases n - j,
            {
                proof {
                    vstd::bits::lemma_usize_shr_is_div(ind, j);
                    let y = ind >> j;
                    assert(y & 1 == y % 2) by (bit_vector);
                }
                j = j + 1;
            }
            proof {
                if j == n {
                    let t = choose|t: nat| t < n && #[trigger] bit_of(ind as nat, t) == 1;
                    assert(bit_of(ind as nat, t) == 0);
                }
                vstd::bits::lemma_usize_shr_is_div(ind, j);
                let y = ind >> j;
                assert(y & 1 == y % 2) by (bit_vector);
                assert(bit_of(ind as nat, j as nat) == 1) by {
                    crate::util::lemma_bit_of_bound(ind as nat, j as nat);
                }
            }
            let one = field.one();
            let zj = self.z[j];
            let omzj = field.sub(one, zj);
            proof {
                assert(zj != 1);
                if zj == 0 {
                    lemma_small_mod(1, q as nat);
                } else {
                    lemma_neg_mod(1 - zj, q);
                }
            }
            let s = field.div(zj, omzj);
            let ghost px = |t: int| self.z@[t] as int;
            let ghost py = |t: int| 1 - self.z@[t];
            let mut d = one;
            let mut i: usize = 0;
            proof {
                lemma_small_mod(1, q as nat);
            }
            while i < j
                invariant
                    is_prime(q as nat),
                    q == field.q(),
                    j < n == self.z.len(),
                    all_canonical(self.z@, q as nat),
                    streamable(self.z@),
                    px == (|t: int| self.z@[t] as int),
                    py == (|t: int| 1 - self.z@[t]),
                    one == 1,
                    i <= j,
                    d < q,
                    (d * prod(i as nat, px)) % q == prod(i as nat, py) % q,
                decreases j - i,
            {
                let zi = self.z[i];
                let omzi = field.sub(one, zi);
                let di = field.div(omzi, zi);
                let ghost a = prod(i as nat, px);
                let ghost b = prod(i as nat, py);
                let dn = field.mul(d, di);
                proof {
                    // dn * a * zi == (d * a) * (di * zi) == b * (1 - zi)   (mod q)
                    assert(zi < q);
                    assert(omzi == (1 - zi) % q);
                    assert((di * zi) % q == omzi as int);
                    assert(prod((i + 1) as nat, px) == a * zi);
                    assert(prod((i + 1) as nat, py) == b * (1 - zi));
                    assert((d * di) * (a * zi) == (d * a) * (di * zi)) by (nonlinear_arith);
                    lemma_mul_mod_noop_left(d * di, a * zi, q);
                    assert(dn == (d * di) % q);
                    assert((dn * (a * zi)) % q == ((d * di) * (a * zi)) % q);
                    lemma_mul_mod_noop_general(d * a, di * zi, q);
                    assert(((d * a) * (di * zi)) % q == (((d * a) % q) * ((di * zi) % q)) % q);
                    assert(((d * a) * (di * zi)) % q == ((b % q) * ((1 - zi) % q)) % q);
                    lemma_mul_mod_noop_general(b, 1 - zi, q);
                    assert((dn * prod((i + 1) as nat, px)) % q == prod((i + 1) as nat, py) % q);
                }
                d = dn;
                i = i + 1;
            }
            let scalar = field.mul(s, d);
            proof {
                lemma_small_mod(zj as nat, q as nat);
                lemma_mul_mod_noop_general(s as int, 1 - zj, q);
                lemma_small_mod(res as nat, q as nat);
                lemma_eq_point_next(self.z@, q, v, j as nat, res as int, s as int, d as int);
                lemma_mul_is_associative(res as int, s as int, d as int);
                lemma_mul_mod_noop_right(res as int, s * d, q);
            }
            self.cur = field.mul(res, scalar);
            Some(res)
        } else if self.ind + 1 == total {
            self.ind = self.ind + 1;
            Some(self.cur)
        } else {
            None
        }
    }
}

/// Column `i` of `s` laid out in rows of `width`: the entries `s[c * width + i]`.
/// For hypercube data, these are the values with the low coordinates fixed to the
/// bits of `i`, indexed by the high coordinates.
pub open spec fn fold_column(s: Seq<u64>, width: nat, i: int) -> Seq<u64> {
    Seq::new(s.len() / width, |c: int| s[c * width + i])
}

/// The value at `r` of the multilinear polynomial with coefficients `coeffs`:
/// `sum_k coeffs[k] * prod_{i in k} r_i`.
pub open spec fn coeff_eval(coeffs: Seq<u64>, r: Seq<u64>) -> int {
    sum(coeffs.len(), |k: int| coeffs[k] * monomial(r, k as nat))
}

/// The number of set bits among the `n` lowest bits of `x`.
pub open spec fn popcount(x: nat, n: nat) -> nat
    decreases n,
{
    if n == 0 {
        0
    } else {
        popcount(x, (n - 1) as nat) + bit_of(x, (n - 1) as nat)
    }
}

/// The value at `at` of the multilinear polynomial with hypercube evaluations
/// `evals`, streaming the evaluations of `eq(at, .)`.
pub fn evaluate_at_fromevals(field: &PrimeField, at: &[u64], evals: &[u64]) -> (r: u64)
    requires
        at.len() < usize::BITS,
        evals.len() == pow2(at.len() as nat),
        all_canonical(at@, field.q()),
        all_canonical(evals@, field.q()),
        streamable(at@),
    ensures
        r == mle_eval(evals@, at@) % (field.q() as int),
        r < field.q(),
{
    proof {
        use_type_invariant(field);
        field.lemma_q_fits();
    }
    let ghost q = field.q() as int;
    let ghost f = |k: int| evals@[k] * eq_point(at@, k as nat);
    let mut eq = MultilinearBasisEvals::new(field, at);
    let mut acc = field.zero();
    let mut k: usize = 0;
    proof {
        lemma_small_mod(0, q as nat);
    }
    while k < evals.len()
        invariant
            eq.wf(),
            eq.point() == at@,
            eq.modulus() == q,
            eq.index() == k,
            streamable(at@),
            evals.len() == pow2(at.len() as nat),
            all_canonical(evals@, q as nat),
            q == field.q(),
            q > 1,
            q <= u64::MAX,
            f == (|k: int| evals@[k] * eq_point(at@, k as nat)),
            k <= evals.len(),
            acc < q,
            acc == sum(k as nat, f) % q,
        decreases evals.len() - k,
    {
        let e = eq.next().unwrap();
        let t = field.mul(evals[k], e);
        proof {
            lemma_mul_mod_noop_right(evals@[k as int] as int, eq_point(at@, k as nat), q);
            lemma_sum_step(k as nat, q, f, acc as int, t as int);
        }
        acc = field.add(acc, t);
        k = k + 1;
    }
    acc
}

/// `pow2(a) * pow2(b) == pow2(a + b)` and `pow2(a + b) / pow2(b) == pow2(a)`.
pub proof fn lemma_pow2_split(a: nat, b: nat)
    ensures
        pow2(a) * pow2(b) == pow2(a + b),
        pow2(a + b) / pow2(b) == pow2(a),
        pow2(b) > 0,
{
    lemma_pow2_adds(a, b);
    lemma_pow2_pos(b);
    lemma_div_multiples_vanish(pow2(a) as int, pow2(b) as int);
    lemma_mul_is_commutative(pow2(a) as int, pow2(b) as int);
}

/// `c * w + i < n * w` for `c < n` and `i < w`.
pub proof fn lemma_row_index(c: int, i: int, n: int, w: int)
    requires
        0 <= c < n,
        0 <= i < w,
    ensures
        0 <= c * w + i < n * w,
        c * w + i >= c * w,
        c * w >= 0,
{
    lemma_mul_inequality(c + 1, n, w);
    lemma_mul_is_distributive_add_other_way(w, c, 1);
    lemma_mul_nonnegative(c, w);
}

/// Evaluates the last `at.len()` variables of the multilinear polynomial with
/// the `2^logsize` hypercube evaluations `evals` at `at`, in place: the first
/// `2^(logsize - at.len())` entries become the evaluations of the restricted
/// polynomial in the remaining variables; the others are left as they were.
pub fn evaluate_at_fromevals_inplace(field: &PrimeField, logsize: usize, at: &[u64], evals: &mut [u64])
    requires
        0 < at.len() <= logsize < usize::BITS,
        old(evals)@.len() == pow2(logsize as nat),
        all_canonical(at@, field.q()),
        all_canonical(old(evals)@, field.q()),
        streamable(at@),
    ensures
        final(evals)@.len() == old(evals)@.len(),
        all_canonical(final(evals)@, field.q()),
        forall|i: int|
            0 <= i < pow2((logsize - at.len()) as nat) ==> #[trigger] final(evals)@[i] == mle_eval(
                fold_column(old(evals)@, pow2((logsize - at.len()) as nat), i),
                at@,
            ) % (field.q() as int),
        forall|i: int|
            pow2((logsize - at.len()) as nat) <= i < old(evals)@.len() ==> #[trigger] final(evals)@[i] == old(evals)@[i],
{
    proof {
        use_type_invariant(field);
        field.lemma_q_fits();
    }
    let ghost q = field.q() as int;
    let ghost old_evals = evals@;
    let m = at.len();
    let ghost w = pow2((logsize - m) as nat);
    proof {
        vstd::bits::lemma_usize_pow2_no_overflow((logsize - m) as nat);
        assert(1 * pow2((logsize - m) as nat) == pow2((logsize - m) as nat));
        vstd::bits::lemma_usize_shl_is_mul(1, (logsize - m) as usize);
        vstd::bits::lemma_usize_pow2_no_overflow(m as nat);
        assert(1 * pow2(m as nat) == pow2(m as nat));
        vstd::bits::lemma_usize_shl_is_mul(1, m);
        lemma_pow2_split(m as nat, (logsize - m) as nat);
        assert(m as nat + (logsize - m) as nat == logsize as nat);
        lemma_mul_is_commutative(pow2(m as nat) as int, w as int);
        assert(w * pow2(m as nat) == old_evals.len());
        lemma_pow2_pos(m as nat);
        vstd::bits::lemma_usize_pow2_no_overflow(logsize as nat);
    }
    let reslen = 1usize << (logsize - m);
    let cols = 1usize << m;
    let ghost g = |i: int, c: nat| sum(c, |cc: int| old_evals[cc * w + i] * eq_point(at@, cc as nat));
    let mut eq = MultilinearBasisEvals::new(field, at);
    let first = eq.next().unwrap();
    let mut i: usize = 0;
    while i < reslen
        invariant
            reslen == w,
            w * cols == old_evals.len(),
            old_evals.len() <= usize::MAX,
            cols >= 1,
            cols == pow2(m as nat),
            evals@.len() == old_evals.len(),
            all_canonical(evals@, q as nat),
            q == field.q(),
            q > 1,
            q <= u64::MAX,
            first == (eq_point(at@, 0) % q) as u64,
            i <= reslen,
            forall|j: int| 0 <= j < i ==> #[trigger] evals@[j] == g(j, 1) % q,
            forall|j: int| i <= j < old_evals.len() ==> #[trigger] evals@[j] == old_evals[j],
            g == (|i: int, c: nat| sum(c, |cc: int| old_evals[cc * w + i] * eq_point(at@, cc as nat))),
        decreases reslen - i,
    {
        proof {
            lemma_row_index(0, i as int, cols as int, w as int);
            lemma_mul_mod_noop_right(evals@[i as int] as int, eq_point(at@, 0), q);
            let h = |cc: int| old_evals[cc * w + i] * eq_point(at@, cc as nat);
            assert(sum(1, h) == sum(0, h) + h(0));
            assert(0 * w == 0) by {
                lemma_mul_basics(w as int);
            }
        }
        let v = field.mul(evals[i], first);
        evals[i] = v;
        i = i + 1;
    }
    let mut c: usize = 1;
    while c < cols
        invariant
            reslen == w,
            w * cols == old_evals.len(),
            old_evals.len() <= usize::MAX,
            cols >= 1,
            cols == pow2(m as nat),
            1 <= c <= cols,
            eq.wf(),
            eq.point() == at@,
            eq.modulus() == q,
            eq.index() == c,
            streamable(at@),
            m == at.len(),
            m < usize::BITS,
            evals@.len() == old_evals.len(),
            all_canonical(evals@, q as nat),
            all_canonical(old_evals, q as nat),
            q == field.q(),
            q > 1,
            q <= u64::MAX,
            forall|j: int| 0 <= j < w ==> #[trigger] evals@[j] == g(j, c as nat) % q,
            forall|j: int| w <= j < old_evals.len() ==> #[trigger] evals@[j] == old_evals[j],
            g == (|i: int, c: nat| sum(c, |cc: int| old_evals[cc * w + i] * eq_point(at@, cc as nat))),
        decreases cols - c,
    {
        let e = eq.next().unwrap();
        let mut i: usize = 0;
        while i < reslen
            invariant
                reslen == w,
                w * cols == old_evals.len(),
                old_evals.len() <= usize::MAX,
            old_evals.len() <= usize::MAX,
            cols >= 1,
                1 <= c < cols,
                evals@.len() == old_evals.len(),
                all_canonical(evals@, q as nat),
                all_canonical(old_evals, q as nat),
                q == field.q(),
                q > 1,
                q <= u64::MAX,
                e == (eq_point(at@, c as nat) % q) as u64,
                i <= reslen,
                forall|j: int| 0 <= j < i ==> #[trigger] evals@[j] == g(j, (c + 1) as nat) % q,
                forall|j: int| i <= j < w ==> #[trigger] evals@[j] == g(j, c as nat) % q,
                forall|j: int| w <= j < old_evals.len() ==> #[trigger] evals@[j] == old_evals[j],
                g == (|i: int, c: nat| sum(c, |cc: int| old_evals[cc * w + i] * eq_point(at@, cc as nat))),
            decreases reslen - i,
        {
            proof {
                lemma_row_index(c as int, i as int, cols as int, w as int);
                lemma_mul_inequality(1, c as int, w as int);
            }
            let idx = c * reslen + i;
            let x = evals[idx];
            let t = field.mul(x, e);
            proof {
                let h = |cc: int| old_evals[cc * w + i] * eq_point(at@, cc as nat);
                assert(g(i as int, c as nat) == sum(c as nat, h));
                assert(g(i as int, (c + 1) as nat) == sum((c + 1) as nat, h));
                lemma_mul_mod_noop_right(x as int, eq_point(at@, c as nat), q);
                lemma_sum_step(c as nat, q, h, evals@[i as int] as int, t as int);
            }
            let v = field.add(evals[i], t);
            evals[i] = v;
            i = i + 1;
        }
        c = c + 1;
    }
    proof {
        assert forall|i: int| 0 <= i < w implies #[trigger] evals@[i] == mle_eval(fold_column(old_evals, w, i), at@) % q by {
            let col = fold_column(old_evals, w, i);
            assert(col.len() == cols) by {
                lemma_div_multiples_vanish(cols as int, w as int);
                lemma_mul_is_commutative(w as int, cols as int);
            }
            lemma_sum_ext(
                cols as nat,
                |cc: int| old_evals[cc * w + i] * eq_point(at@, cc as nat),
                |k: int| col[k] * eq_point(at@, k as nat),
            );
        }
    }
}

/// `prod_{i: bit i of c is set} at_i`, the monomial with exponent bits `c` at `at`.
fn monomial_at(field: &PrimeField, at: &[u64], c: usize) -> (r: u64)
    requires
        at.len() < usize::BITS,
        all_canonical(at@, field.q()),
    ensures
        r == monomial(at@, c as nat) % (field.q() as int),
        r < field.q(),
{
    proof {
        use_type_invariant(field);
    }
    let ghost q = field.q() as int;
    let ghost h = |i: int| if bit_of(c as nat, i as nat) == 1 { at@[i] as int } else { 1 };
    let mut acc = field.one();
    let mut t: usize = 0;
    proof {
        lemma_small_mod(1, q as nat);
    }
    while t < at.len()
        invariant
            at.len() < usize::BITS,
            all_canonical(at@, q as nat),
            q == field.q(),
            q > 1,
            t <= at.len(),
            h == (|i: int| if bit_of(c as nat, i as nat) == 1 { at@[i] as int } else { 1 }),
            acc < q,
            acc == prod(t as nat, h) % q,
        decreases at.len() - t,
    {
        if bit_at(c, t) {
            proof {
                lemma_small_mod(at@[t as int] as nat, q as nat);
                lemma_prod_step(t as nat, q, h, acc as int, at@[t as int] as int);
            }
            acc = field.mul(acc, at[t]);
        } else {
            proof {
                lemma_small_mod(1, q as nat);
                lemma_prod_step(t as nat, q, h, acc as int, 1);
                lemma_small_mod(acc as nat, q as nat);
            }
        }
        t = t + 1;
    }
    acc
}

/// Evaluates the last `at.len()` variables of the multilinear polynomial with
/// the `2^logsize` coefficients `coeff` at `at`: the coefficients of the
/// restricted polynomial in the remaining `logsize - at.len()` variables.
pub fn evaluate_at_fromcoeff(field: &PrimeField, logsize: usize, at: &[u64], coeff: &[u64]) -> (res: Vec<u64>)
    requires
        0 < logsize < usize::BITS,
        at.len() <= logsize,
        coeff.len() == pow2(logsize as nat),
        all_canonical(at@, field.q()),
        all_canonical(coeff@, field.q()),
    ensures
        res.len() == pow2((logsize - at.len()) as nat),
        all_canonical(res@, field.q()),
        forall|l: int|
            0 <= l < res.len() ==> #[trigger] res@[l] == coeff_eval(
                fold_column(coeff@, pow2((logsize - at.len()) as nat), l),
                at@,
            ) % (field.q() as int),
{
    proof {
        use_type_invariant(field);
    }
    let ghost q = field.q() as int;
    let m = at.len();
    let ghost w = pow2((logsize - m) as nat);
    proof {
        vstd::bits::lemma_usize_pow2_no_overflow((logsize - m) as nat);
        assert(1 * pow2((logsize - m) as nat) == pow2((logsize - m) as nat));
        vstd::bits::lemma_usize_shl_is_mul(1, (logsize - m) as usize);
        vstd::bits::lemma_usize_pow2_no_overflow(m as nat);
        assert(1 * pow2(m as nat) == pow2(m as nat));
        vstd::bits::lemma_usize_shl_is_mul(1, m);
        lemma_pow2_split(m as nat, (logsize - m) as nat);
        assert(m as nat + (logsize - m) as nat == logsize as nat);
        lemma_mul_is_commutative(pow2(m as nat) as int, w as int);
        assert(w * pow2(m as nat) == coeff.len());
    }
    let reslen = 1usize << (logsize - m);
    let cols = 1usize << m;
    let ghost g = |l: int, c: nat| sum(c, |cc: int| coeff@[cc * w + l] * monomial(at@, cc as nat));
    let zero = field.zero();
    let mut res: Vec<u64> = vec![zero; reslen];
    let mut c: usize = 0;
    proof {
        lemma_small_mod(0, q as nat);
        assert forall|j: int| 0 <= j < w implies #[trigger] res@[j] == g(j, 0) % q by {
            assert(g(j, 0) == 0);
        }
    }
    while c < cols
        invariant
            reslen == w,
            w * cols == coeff.len(),
            cols == pow2(m as nat),
            c <= cols,
            m == at.len(),
            m < usize::BITS,
            res.len() == reslen,
            all_canonical(res@, q as nat),
            all_canonical(coeff@, q as nat),
            all_canonical(at@, q as nat),
            q == field.q(),
            q > 1,
            forall|j: int| 0 <= j < w ==> #[trigger] res@[j] == g(j, c as nat) % q,
            g == (|l: int, c: nat| sum(c, |cc: int| coeff@[cc * w + l] * monomial(at@, cc as nat))),
        decreases cols - c,
    {
        let mon = monomial_at(field, at, c);
        let mut l: usize = 0;
        while l < reslen
            invariant
                reslen == w,
                w * cols == coeff.len(),
                c < cols,
                res.len() == reslen,
                all_canonical(res@, q as nat),
                all_canonical(coeff@, q as nat),
                q == field.q(),
                q > 1,
                mon == monomial(at@, c as nat) % q,
                l <= reslen,
                forall|j: int| 0 <= j < l ==> #[trigger] res@[j] == g(j, (c + 1) as nat) % q,
                forall|j: int| l <= j < w ==> #[trigger] res@[j] == g(j, c as nat) % q,
                g == (|l: int, c: nat| sum(c, |cc: int| coeff@[cc * w + l] * monomial(at@, cc as nat))),
            decreases reslen - l,
        {
            proof {
                lemma_row_index(c as int, l as int, cols as int, w as int);
            }
            let x = coeff[c * reslen + l];
            let t = field.mul(x, mon);
            proof {
                let h = |cc: int| coeff@[cc * w + l] * monomial(at@, cc as nat);
                assert(g(l as int, c as nat) == sum(c as nat, h));
                assert(g(l as int, (c + 1) as nat) == sum((c + 1) as nat, h));
                lemma_mul_mod_noop_right(x as int, monomial(at@, c as nat), q);
                lemma_sum_step(c as nat, q, h, res@[l as int] as int, t as int);
            }
            let v = field.add(res[l], t);
            res.set(l, v);
            l = l + 1;
        }
        c = c + 1;
    }
    proof {
        assert forall|l: int| 0 <= l < w implies #[trigger] res@[l] == coeff_eval(fold_column(coeff@, w, l), at@) % q by {
            let col = fold_column(coeff@, w, l);
            assert(col.len() == cols) by {
                lemma_div_multiples_vanish(cols as int, w as int);
                lemma_mul_is_commutative(w as int, cols as int);
            }
            lemma_sum_ext(
                cols as nat,
                |cc: int| coeff@[cc * w + l] * monomial(at@, cc as nat),
                |k: int| col[k] * monomial(at@, k as nat),
            );
        }
    }
    res
}

/// The number of set bits among the `n` lowest bits of `i`.
fn popcount_exec(i: usize, n: usize) -> (r: usize)
    requires
        n < usize::BITS,
    ensures
        r == popcount(i as nat, n as nat),
        r <= n,
{
    let mut cnt: usize = 0;
    let mut t: usize = 0;
    while t < n
        invariant
            t <= n < usize::BITS,
            cnt == popcount(i as nat, t as nat),
            cnt <= t,
        decreases n - t,
    {
        proof {
            lemma_bit_of_bound(i as nat, t as nat);
        }
        if bit_at(i, t) {
            cnt = cnt + 1;
        }
        t = t + 1;
    }
    cnt
}

/// The sum over the hypercube `{0,1}^n`, with `size == 2^n`, of the multilinear
/// polynomial with coefficients `coeff`: the monomial with exponent bits `i`
/// takes the value one on `size >> popcount(i)` points. That count is taken as
/// an `i32`.
pub fn sum_over_hypercube_fromcoeff(field: &PrimeField, size: usize, coeff: &[u64]) -> (r: u64)
    requires
        exists|n: nat| size == pow2(n),
        all_canonical(coeff@, field.q()),
    ensures
        forall|n: nat|
            size == pow2(n) ==> r == sum(
                coeff@.len(),
                |i: int| coeff@[i] * (((size as nat) / pow2(popcount(i as nat, n))) as i32),
            ) % (field.q() as int),
        r < field.q(),
{
    proof {
        use_type_invariant(field);
    }
    let ghost q = field.q() as int;
    // the exponent n with size == 2^n
    let ghost n0 = choose|n: nat| size == pow2(n);
    let mut vc: usize = 0;
    let mut pw: usize = 1;
    proof {
        lemma2_to64();
        lemma_pow2_pos(n0);
        if n0 >= usize::BITS {
            if n0 > usize::BITS {
                lemma_pow2_strictly_increases(usize::BITS as nat, n0);
            }
            crate::util::lemma_usize_bits_pow2();
        }
    }
    while pw < size
        invariant
            size == pow2(n0),
            n0 < usize::BITS,
            pw == pow2(vc as nat),
            vc <= n0,
        decreases n0 - vc,
    {
        proof {
            if vc == n0 {
                assert(false);
            }
            lemma_pow2_unfold((vc + 1) as nat);
            if vc + 1 < n0 {
                lemma_pow2_strictly_increases((vc + 1) as nat, n0);
            }
        }
        pw = pw * 2;
        vc = vc + 1;
    }
    proof {
        if vc < n0 {
            lemma_pow2_strictly_increases(vc as nat, n0);
        }
    }
    let ghost w = |i: int| coeff@[i] * (((size as nat) / pow2(popcount(i as nat, vc as nat))) as i32);
    let mut acc = field.zero();
    let mut i: usize = 0;
    proof {
        lemma_small_mod(0, q as nat);
    }
    while i < coeff.len()
        invariant
            size == pow2(vc as nat),
            vc < usize::BITS,
            all_canonical(coeff@, q as nat),
            q == field.q(),
            q > 1,
            w == (|i: int| coeff@[i] * (((size as nat) / pow2(popcount(i as nat, vc as nat))) as i32)),
            i <= coeff.len(),
            acc < q,
            acc == sum(i as nat, w) % q,
        decreases coeff.len() - i,
    {
        let pc = popcount_exec(i, vc);
        proof {
            vstd::bits::lemma_usize_shr_is_div(size, pc);
        }
        let weight = (size >> pc) as i32;
        let t = field.mul_int(coeff[i], weight as i64);
        proof {
            lemma_sum_step(i as nat, q, w, acc as int, t as int);
        }
        acc = field.add(acc, t);
        i = i + 1;
    }
    proof {
        assert forall|n: nat| size == pow2(n) implies vc == n by {
            if n < vc {
                lemma_pow2_strictly_increases(n, vc as nat);
            } else if n > vc {
                lemma_pow2_strictly_increases(vc as nat, n);
            }
        }
    }
    acc
}

/// `sum_i coeff_i * scalars_i`, over the indices present in both.
pub fn sum_over_hypercube_withscalars(field: &PrimeField, scalars: &[u64], coeff: &[u64]) -> (r: u64)
    requires
        all_canonical(scalars@, field.q()),
        all_canonical(coeff@, field.q()),
    ensures
        r == sum(
            if coeff@.len() <= scalars@.len() { coeff@.len() } else { scalars@.len() },
            |i: int| coeff@[i] * scalars@[i],
        ) % (field.q() as int),
        r < field.q(),
{
    proof {
        use_type_invariant(field);
    }
    let ghost q = field.q() as int;
    let ghost f = |i: int| coeff@[i] * scalars@[i];
    let n = if coeff.len() <= scalars.len() {
        coeff.len()
    } else {
        scalars.len()
    };
    let mut acc = field.zero();
    let mut i: usize = 0;
    proof {
        lemma_small_mod(0, q as nat);
    }
    while i < n
        invariant
            n <= coeff.len(),
            n <= scalars.len(),
            all_canonical(coeff@, q as nat),
            all_canonical(scalars@, q as nat),
            q == field.q(),
            q > 1,
            f == (|i: int| coeff@[i] * scalars@[i]),
            i <= n,
            acc < q,
            acc == sum(i as nat, f) % q,
        decreases n - i,
    {
        let t = field.mul(coeff[i], scalars[i]);
        proof {
            lemma_sum_step(i as nat, q, f, acc as int, t as int);
        }
        acc = field.add(acc, t);
        i = i + 1;
    }
    acc
}

/// A negative number above `-q` is congruent to its sum with `q`.
proof fn lemma_neg_mod(x: int, q: int)
    requires
        q > 0,
        -q <= x < 0,
    ensures
        x % q == x + q,
{
    lemma_fundamental_div_mod_converse(x, q, -1, x + q);
}

} // verus!
