//! Identities of multilinear polynomials held by their coefficients: how the
//! value splits over the variables, what fixing the high variables does to the
//! coefficients, and how the equality polynomial factors.
use crate::field::all_canonical;
use crate::codes::{block, lincomb};
use crate::basefold::restrict_coeffs;
use crate::hypercube::{add_down_layer, add_up_layer, coeffs_to_evals, ints, lemma_transposed_len, transposed_layers, zeta_layers};
use crate::multilinear::{
    coeff_eval, eq_eval, eq_factor, eq_point, fold_column, lemma_pow2_split, lemma_prod_around, lemma_row_index, mle_eval, monomial,
    popcount,
};
use crate::sums::{
    lemma_prod_ext, lemma_prod_split, lemma_sum_add, lemma_sum_blocks, lemma_sum_congruent, lemma_sum_ext, lemma_sum_scale, lemma_sum_single,
    lemma_sum_split, lemma_sum_swap,
    prod, sum,
};
use crate::util::{bit_of, bits_of, lemma_bit_clear, lemma_bit_of_bound, lemma_bit_set, lemma_bit_set_bound, lemma_bits_to_int_bits_of};
use vstd::arithmetic::div_mod::*;
use vstd::arithmetic::mul::*;
use vstd::arithmetic::power2::*;
use vstd::prelude::*;

verus! {

/// The bits of `c * 2^m + l` (for `l < 2^m`) are those of `l` below `m` and
/// those of `c` from `m` on.
pub proof fn lemma_bit_of_concat(c: nat, l: nat, m: nat, i: nat)
    requires
        l < pow2(m),
    ensures
        i < m ==> bit_of(c * pow2(m) + l, i) == bit_of(l, i),
        i >= m ==> bit_of(c * pow2(m) + l, i) == bit_of(c, (i - m) as nat),
{
    lemma_pow2_pos(m);
    lemma_pow2_pos(i);
    let x = c * pow2(m) + l;
    if i < m {
        let e = (m - i) as nat;
        lemma_pow2_adds(i, e);
        lemma_pow2_pos(e);
        let pi = pow2(i) as int;
        let pe = pow2(e) as int;
        // c * 2^m + l == (c * 2^e) * 2^i + l
        assert(c * pow2(m) == (c * pe) * pi) by {
            lemma_mul_is_associative(c as int, pe, pi);
            lemma_mul_is_commutative(pe, pi);
        }
        lemma_fundamental_div_mod(l as int, pi);
        let lq = l as int / pi;
        let lr = l as int % pi;
        lemma_mod_bound(l as int, pi);
        assert(x == (c * pe + lq) * pi + lr) by {
            lemma_mul_is_distributive_add_other_way(pi, c * pe, lq);
            lemma_mul_is_commutative(lq, pi);
        }
        lemma_fundamental_div_mod_converse(x as int, pi, c * pe + lq, lr);
        // (c * 2^e + lq) % 2 == lq % 2 since 2^e is even
        lemma_pow2_unfold(e);
        let pe1 = pow2((e - 1) as nat) as int;
        assert(c * pe + lq == (c * pe1) * 2 + lq) by {
            lemma_mul_is_associative(c as int, 2, pe1);
            lemma_mul_is_commutative(2, pe1);
            lemma_mul_is_associative(c as int, pe1, 2);
        }
        lemma_mod_multiples_vanish(c * pe1, lq, 2);
        lemma_mul_nonnegative(c as int, pe1);
        lemma_mul_is_commutative(c * pe1, 2);
    } else {
        let e = (i - m) as nat;
        lemma_pow2_adds(m, e);
        lemma_pow2_pos(e);
        let pm = pow2(m) as int;
        let pe = pow2(e) as int;
        lemma_fundamental_div_mod_converse(x as int, pm, c as int, l as int);
        lemma_mul_is_commutative(c as int, pm);
        // x / 2^i == (x / 2^m) / 2^e
        lemma_div_denominator(x as int, pm, pe);
    }
}

/// The monomial with exponent bits `c * 2^m + l` at `w ++ r` (`w` of length
/// `m`) is the monomial `l` at `w` times the monomial `c` at `r`.
pub proof fn lemma_monomial_split(w: Seq<u64>, r: Seq<u64>, l: nat, c: nat)
    requires
        l < pow2(w.len()),
    ensures
        monomial(w + r, c * pow2(w.len()) + l) == monomial(w, l) * monomial(r, c),
{
    let m = w.len();
    let k = c * pow2(m) + l;
    let wr = w + r;
    let f = |i: int| if bit_of(k, i as nat) == 1 { wr[i] as int } else { 1 };
    lemma_prod_split(m, r.len(), f);
    let fw = |i: int| if bit_of(l, i as nat) == 1 { w[i] as int } else { 1 };
    assert forall|i: int| 0 <= i < m implies #[trigger] f(i) == fw(i) by {
        lemma_bit_of_concat(c, l, m, i as nat);
    }
    lemma_prod_ext(m, f, fw);
    let fs = |i: int| f(m + i);
    let fr = |i: int| if bit_of(c, i as nat) == 1 { r[i] as int } else { 1 };
    assert forall|i: int| 0 <= i < r.len() implies #[trigger] fs(i) == fr(i) by {
        lemma_bit_of_concat(c, l, m, (m + i) as nat);
    }
    lemma_prod_ext(r.len(), fs, fr);
}

/// The value at `w ++ r` of the polynomial with coefficients `s`, grouped by
/// the monomials of the high variables `r`: block `c` of `2^m` coefficients is
/// a polynomial in the low variables `w`, weighted by the monomial `c` at `r`.
pub proof fn lemma_coeff_eval_blocks(s: Seq<u64>, w: Seq<u64>, r: Seq<u64>)
    requires
        s.len() == pow2(w.len() + r.len()),
    ensures
        coeff_eval(s, w + r) == sum(pow2(r.len()), |c: int| monomial(r, c as nat) * coeff_eval(block(s, pow2(w.len()), c), w)),
{
    let m = w.len();
    let b = pow2(m);
    let a = pow2(r.len());
    lemma_pow2_adds(r.len(), m);
    assert(s.len() == a * b);
    let f = |j: int| s[j] * monomial(w + r, j as nat);
    lemma_sum_blocks(a, b, f);
    let inner = |k: int| sum(b, |j: int| f(k * b + j));
    let target = |c: int| monomial(r, c as nat) * coeff_eval(block(s, b, c), w);
    assert forall|c: int| 0 <= c < a implies #[trigger] inner(c) == target(c) by {
        let blk = block(s, b, c);
        lemma_mul_inequality(c + 1, a as int, b as int);
        lemma_mul_is_distributive_add_other_way(b as int, c, 1);
        assert(blk.len() == b);
        let g = |j: int| monomial(r, c as nat) * (blk[j] * monomial(w, j as nat));
        let fc = |j: int| f(c * b + j);
        assert forall|j: int| 0 <= j < b implies #[trigger] fc(j) == g(j) by {
            lemma_mul_is_commutative(c, b as int);
            lemma_monomial_split(w, r, j as nat, c as nat);
            assert(blk[j] == s[c * b + j]);
            lemma_mul_is_associative(s[c * b + j] as int, monomial(w, j as nat), monomial(r, c as nat));
            lemma_mul_is_commutative(s[c * b + j] * monomial(w, j as nat), monomial(r, c as nat));
        }
        lemma_sum_ext(b, fc, g);
        let h = |j: int| blk[j] * monomial(w, j as nat);
        let mr = monomial(r, c as nat);
        lemma_sum_scale(b, mr, h);
        let hs = |i: int| mr * h(i);
        assert forall|j: int| 0 <= j < b implies #[trigger] g(j) == hs(j) by {}
        lemma_sum_ext(b, g, hs);
        assert(inner(c) == sum(b, fc));
        assert(coeff_eval(blk, w) == sum(b, h));
    }
    lemma_sum_ext(a, inner, target);
}

/// The value of a polynomial in one more variable `x`, above the variables
/// `w`: the low half of the coefficients plus `x` times the high half.
pub proof fn lemma_coeff_eval_top(s: Seq<u64>, w: Seq<u64>, x: u64)
    requires
        s.len() == pow2(w.len() + 1),
    ensures
        coeff_eval(s, w + seq![x]) == coeff_eval(s.subrange(0, pow2(w.len()) as int), w) + x * coeff_eval(
            s.subrange(pow2(w.len()) as int, s.len() as int),
            w,
        ),
{
    let b = pow2(w.len());
    let r = seq![x];
    lemma_coeff_eval_blocks(s, w, r);
    lemma_pow2_unfold(1);
    lemma2_to64();
    lemma_pow2_adds(w.len(), 1);
    assert(s.len() == 2 * b);
    let target = |c: int| monomial(r, c as nat) * coeff_eval(block(s, b, c), w);
    assert(sum(1, target) == sum(0, target) + target(0));
    assert(sum(2, target) == sum(1, target) + target(1));
    lemma_monomial_single(x);
    lemma_mul_basics(coeff_eval(block(s, b, 0), w));
    assert(pow2(r.len()) == 2);
    assert(block(s, b, 0) == s.subrange(0, b as int));
    assert(block(s, b, 1) == s.subrange(b as int, s.len() as int));
}

/// The two monomials in one variable.
pub proof fn lemma_monomial_single(x: u64)
    ensures
        monomial(seq![x], 0) == 1,
        monomial(seq![x], 1) == x,
{
    let r = seq![x];
    lemma2_to64();
    assert(bit_of(0, 0) == 0);
    assert(bit_of(1, 0) == 1);
    let m0 = |i: int| if bit_of(0, i as nat) == 1 { r[i] as int } else { 1 };
    let m1 = |i: int| if bit_of(1, i as nat) == 1 { r[i] as int } else { 1 };
    assert(prod(1, m0) == prod(0, m0) * m0(0));
    assert(prod(1, m1) == prod(0, m1) * m1(0));
    assert(r[0] == x);
    assert(prod(0, m1) == 1);
    assert(prod(0, m0) == 1);
    lemma_mul_basics(x as int);
    assert(monomial(r, 0) == prod(1, m0));
    assert(monomial(r, 1) == prod(1, m1));
}

/// A polynomial in one variable with two coefficients.
pub proof fn lemma_coeff_eval_pair(b: Seq<u64>, x: u64)
    requires
        b.len() == 2,
    ensures
        coeff_eval(b, seq![x]) == b[0] + x * b[1],
{
    lemma_monomial_single(x);
    let f = |k: int| b[k] * monomial(seq![x], k as nat);
    assert(sum(1, f) == sum(0, f) + f(0));
    assert(sum(2, f) == sum(1, f) + f(1));
    lemma_mul_basics(b[0] as int);
    lemma_mul_is_commutative(b[1] as int, x as int);
}

/// `(u + a v) % q` only depends on `u` and `v` modulo `q`.
pub proof fn lemma_mod_lin(u: int, v: int, a: int, q: int)
    requires
        q > 0,
    ensures
        (u + a * v) % q == (u % q + a * (v % q)) % q,
{
    lemma_mul_mod_noop_right(a, v, q);
    lemma_add_mod_noop(u, a * v, q);
    lemma_add_mod_noop(u % q, a * (v % q), q);
    lemma_mod_twice(u, q);
    lemma_mod_twice(a * (v % q), q);
}

/// Fixing one more variable `x` (the lowest of the high ones) folds the
/// coefficients: the new coefficient `l` is the old coefficient `l` plus `x`
/// times the old coefficient `l + 2^(m-1)`.
pub proof fn lemma_restrict_step(coeff: Seq<u64>, r: Seq<u64>, x: u64, m: nat, q: int)
    requires
        0 < q <= u64::MAX,
        m >= 1,
        coeff.len() == pow2(m + r.len()),
    ensures
        ({
            let g = restrict_coeffs(coeff, r, m, q);
            let h = pow2((m - 1) as nat) as int;
            restrict_coeffs(coeff, seq![x] + r, (m - 1) as nat, q) == lincomb(
                g.subrange(0, h),
                g.subrange(h, 2 * h),
                x as int,
                q,
            )
        }),
{
    let g = restrict_coeffs(coeff, r, m, q);
    let h = pow2((m - 1) as nat);
    let w = pow2(m);
    let xr = seq![x] + r;
    lemma_pow2_unfold(m);
    assert(w == 2 * h);
    lemma_pow2_split(r.len() + 1, (m - 1) as nat);
    assert((r.len() + 1) + (m - 1) == m + r.len());
    lemma_pow2_split(r.len(), m);
    let lhs = restrict_coeffs(coeff, xr, (m - 1) as nat, q);
    let rhs = lincomb(g.subrange(0, h as int), g.subrange(h as int, 2 * h as int), x as int, q);
    assert forall|l: int| 0 <= l < h implies #[trigger] lhs[l] == rhs[l] by {
        let s = fold_column(coeff, h, l);
        let a = fold_column(coeff, w, l);
        let b = fold_column(coeff, w, l + h);
        let nr = pow2(r.len());
        assert(s.len() == pow2(r.len() + 1));
        assert(a.len() == nr);
        assert(b.len() == nr);
        assert(xr.len() == 1 + r.len());
        assert(seq![x].len() == 1);
        lemma_coeff_eval_blocks(s, seq![x], r);
        assert(seq![x] + r == xr);
        let blocks = |c: int| monomial(r, c as nat) * coeff_eval(block(s, pow2(1), c), seq![x]);
        let split = |c: int| a[c] * monomial(r, c as nat) + x * (b[c] * monomial(r, c as nat));
        lemma2_to64();
        assert forall|c: int| 0 <= c < nr implies #[trigger] blocks(c) == split(c) by {
            let blk = block(s, 2, c);
            lemma_mul_inequality(c + 1, nr as int, 2);
            lemma_mul_is_distributive_add_other_way(2, c, 1);
            lemma_mul_is_commutative(c + 1, 2);
            lemma_mul_is_commutative(c, 2);
            assert(s.len() == 2 * nr) by {
                lemma_pow2_unfold(r.len() + 1);
            }
            assert(blk.len() == 2);
            lemma_coeff_eval_pair(blk, x);
            // the entries of the block
            assert((2 * c) * h == c * w) by {
                lemma_mul_is_associative(2, c, h as int);
                lemma_mul_is_commutative(2, c);
                lemma_mul_is_associative(c, 2, h as int);
            }
            assert((2 * c + 1) * h == c * w + h) by {
                lemma_mul_is_distributive_add_other_way(h as int, 2 * c, 1);
            }
            lemma_row_index(c, l, nr as int, w as int);
            lemma_row_index(c, l + h, nr as int, w as int);
            assert(blk[0] == s[2 * c]);
            assert(blk[1] == s[2 * c + 1]);
            assert(s[2 * c] == coeff[(2 * c) * h + l]);
            assert(s[2 * c + 1] == coeff[(2 * c + 1) * h + l]);
            assert(a[c] == coeff[c * w + l]);
            assert(b[c] == coeff[c * w + (l + h)]);
            let mr = monomial(r, c as nat);
            assert(mr * (a[c] + x * b[c]) == a[c] * mr + x * (b[c] * mr)) by (nonlinear_arith);
        }
        lemma_sum_ext(nr, blocks, split);
        let fa = |c: int| a[c] * monomial(r, c as nat);
        let fb = |c: int| b[c] * monomial(r, c as nat);
        let xfb = |c: int| x * fb(c);
        lemma_sum_ext(nr, split, |c: int| fa(c) + xfb(c));
        lemma_sum_add(nr, fa, xfb);
        lemma_sum_scale(nr, x as int, fb);
        assert(coeff_eval(a, r) == sum(nr, fa));
        assert(coeff_eval(b, r) == sum(nr, fb));
        let ea = coeff_eval(a, r);
        let eb = coeff_eval(b, r);
        assert(coeff_eval(s, xr) == ea + x * eb);
        assert(g[l] == (ea % q) as u64);
        assert(g[l + h] == (eb % q) as u64);
        lemma_mod_lin(ea, eb, x as int, q);
    }
    assert(lhs =~= rhs);
}

/// Fixing no variable leaves the (reduced) coefficients as they are.
pub proof fn lemma_restrict_none(coeff: Seq<u64>, n: nat, q: int)
    requires
        q > 0,
        coeff.len() == pow2(n),
        all_canonical(coeff, q as nat),
    ensures
        restrict_coeffs(coeff, Seq::empty(), n, q) == coeff,
{
    let res = restrict_coeffs(coeff, Seq::empty(), n, q);
    lemma_pow2_pos(n);
    assert forall|l: int| 0 <= l < coeff.len() implies #[trigger] res[l] == coeff[l] by {
        let col = fold_column(coeff, pow2(n), l);
        lemma_div_basics(pow2(n) as int);
        assert(col.len() == 1);
        assert(col[0] == coeff[l]);
        let f = |k: int| col[k] * monomial(Seq::<u64>::empty(), k as nat);
        assert(monomial(Seq::<u64>::empty(), 0) == 1);
        assert(sum(1, f) == sum(0, f) + f(0));
        lemma_mul_basics(col[0] as int);
        lemma_small_mod(coeff[l] as nat, q as nat);
    }
    assert(res =~= coeff);
}

/// Coefficients combined entrywise combine the values.
pub proof fn lemma_coeff_eval_lincomb(a: Seq<u64>, b: Seq<u64>, x: int, w: Seq<u64>, q: int)
    requires
        0 < q <= u64::MAX,
        a.len() == b.len(),
    ensures
        coeff_eval(lincomb(a, b, x, q), w) % q == (coeff_eval(a, w) + x * coeff_eval(b, w)) % q,
{
    let n = a.len();
    let c = lincomb(a, b, x, q);
    let fc = |k: int| c[k] * monomial(w, k as nat);
    let fa = |k: int| a[k] * monomial(w, k as nat);
    let fb = |k: int| b[k] * monomial(w, k as nat);
    let xfb = |k: int| x * fb(k);
    let fs = |k: int| fa(k) + xfb(k);
    assert forall|k: int| 0 <= k < n implies #[trigger] (fc(k) % q) == fs(k) % q by {
        let mk = monomial(w, k as nat);
        lemma_mod_bound(a[k] + x * b[k], q);
        assert(c[k] as int == (a[k] + x * b[k]) % q);
        lemma_mul_mod_noop_left(a[k] + x * b[k], mk, q);
        assert((a[k] + x * b[k]) * mk == a[k] * mk + x * (b[k] * mk)) by (nonlinear_arith);
    }
    lemma_sum_congruent(n, q, fc, fs);
    lemma_sum_add(n, fa, xfb);
    lemma_sum_scale(n, x, fb);
}

/// The equality polynomial splits off its first coordinate.
pub proof fn lemma_eq_eval_front(z0: u64, z: Seq<u64>, r0: u64, r: Seq<u64>)
    requires
        z.len() == r.len(),
    ensures
        eq_eval(seq![z0] + z, seq![r0] + r) == (z0 * r0 + (1 - z0) * (1 - r0)) * eq_eval(z, r),
{
    let zz = seq![z0] + z;
    let rr = seq![r0] + r;
    let f = |i: int| zz[i] * rr[i] + (1 - zz[i]) * (1 - rr[i]);
    lemma_prod_split(1, z.len(), f);
    assert(prod(1, f) == prod(0, f) * f(0));
    lemma_mul_basics(f(0));
    let g = |i: int| z[i] * r[i] + (1 - z[i]) * (1 - r[i]);
    let fs = |i: int| f(1 + i);
    assert forall|i: int| 0 <= i < z.len() implies #[trigger] fs(i) == g(i) by {
        assert(zz[1 + i] == z[i]);
        assert(rr[1 + i] == r[i]);
    }
    lemma_prod_ext(z.len(), fs, g);
    assert(zz.len() == 1 + z.len());
}

/// The hypercube evaluations of `eq(z, .)`.
pub open spec fn eq_points(z: Seq<u64>) -> Seq<int> {
    Seq::new(pow2(z.len()), |j: int| eq_point(z, j as nat))
}

/// The factors of `eq(z, k)` after the first `h` transposed layers: the
/// coordinates below `h` contribute `z_i` where bit `i` of `k` is set and one
/// elsewhere; the others still contribute the factor of `eq`.
pub open spec fn partial_eq(z: Seq<u64>, k: nat, h: nat) -> int {
    prod(
        z.len(),
        |i: int|
            if i < h {
                if bit_of(k, i as nat) == 1 {
                    z[i] as int
                } else {
                    1
                }
            } else {
                eq_factor(z[i] as int, bit_of(k, i as nat))
            },
    )
}

/// The transposed layers turn the hypercube evaluations of `eq(z, .)` into the
/// monomials at `z`, layer by layer.
proof fn lemma_transposed_partial(z: Seq<u64>, h: nat)
    requires
        h <= z.len(),
    ensures
        forall|k: int|
            0 <= k < pow2(z.len()) ==> #[trigger] transposed_layers(eq_points(z), h)[k] == partial_eq(z, k as nat, h),
    decreases h,
{
    let n = z.len();
    let e = eq_points(z);
    if h == 0 {
        assert forall|k: int| 0 <= k < pow2(n) implies #[trigger] transposed_layers(e, h)[k] == partial_eq(z, k as nat, h) by {
            let f = |i: int| eq_factor(z[i] as int, bit_of(k as nat, i as nat));
            let g = |i: int|
                if i < h {
                    if bit_of(k as nat, i as nat) == 1 {
                        z[i] as int
                    } else {
                        1
                    }
                } else {
                    eq_factor(z[i] as int, bit_of(k as nat, i as nat))
                };
            lemma_prod_ext(n, f, g);
        }
    } else {
        let m = (h - 1) as nat;
        lemma_transposed_partial(z, m);
        let t = transposed_layers(e, m);
        lemma_transposed_len(e, m);
        assert forall|k: int| 0 <= k < pow2(n) implies #[trigger] transposed_layers(e, h)[k] == partial_eq(z, k as nat, h) by {
            let fk = |i: int|
                if i < h {
                    if bit_of(k as nat, i as nat) == 1 {
                        z[i] as int
                    } else {
                        1
                    }
                } else {
                    eq_factor(z[i] as int, bit_of(k as nat, i as nat))
                };
            let gk = |i: int|
                if i < m {
                    if bit_of(k as nat, i as nat) == 1 {
                        z[i] as int
                    } else {
                        1
                    }
                } else {
                    eq_factor(z[i] as int, bit_of(k as nat, i as nat))
                };
            lemma_bit_of_bound(k as nat, m);
            if bit_of(k as nat, m) == 1 {
                assert forall|i: int| 0 <= i < n implies #[trigger] fk(i) == gk(i) by {}
                lemma_prod_ext(n, fk, gk);
            } else {
                let k2 = k + pow2(m);
                lemma_bit_set_bound(k as nat, m, n);
                let g2 = |i: int|
                    if i < m {
                        if bit_of(k2 as nat, i as nat) == 1 {
                            z[i] as int
                        } else {
                            1
                        }
                    } else {
                        eq_factor(z[i] as int, bit_of(k2 as nat, i as nat))
                    };
                assert(t[k] == prod(n, gk));
                assert(t[k2] == prod(n, g2));
                lemma_prod_around(n, m, gk);
                lemma_prod_around(n, m, g2);
                lemma_prod_around(n, m, fk);
                lemma_bit_set(k as nat, m, m);
                assert forall|i: int| 0 <= i < m implies #[trigger] g2(i) == gk(i) by {
                    lemma_bit_set(k as nat, m, i as nat);
                }
                lemma_prod_ext(m, g2, gk);
                lemma_prod_ext(m, fk, gk);
                let r = (n - m - 1) as nat;
                let s2 = |i: int| g2(m + 1 + i);
                let sk = |i: int| gk(m + 1 + i);
                let sf = |i: int| fk(m + 1 + i);
                assert forall|i: int| 0 <= i < r implies #[trigger] s2(i) == sk(i) by {
                    lemma_bit_set(k as nat, m, (m + 1 + i) as nat);
                }
                lemma_prod_ext(r, s2, sk);
                assert forall|i: int| 0 <= i < r implies #[trigger] sf(i) == sk(i) by {}
                lemma_prod_ext(r, sf, sk);
                let before = prod(m, gk);
                let after = prod(r, sk);
                let zm = z[m as int] as int;
                assert(gk(m as int) == 1 - zm);
                assert(g2(m as int) == zm);
                assert(fk(m as int) == 1);
                assert(before * (1 - zm) * after + before * zm * after == before * 1 * after) by (nonlinear_arith);
            }
        }
    }
}

/// The transposed transform of the hypercube evaluations of `eq(z, .)` is the
/// sequence of monomials at `z`.
pub proof fn lemma_transposed_eq(z: Seq<u64>)
    ensures
        forall|k: int|
            0 <= k < pow2(z.len()) ==> #[trigger] transposed_layers(eq_points(z), z.len())[k] == monomial(z, k as nat),
{
    lemma_transposed_partial(z, z.len());
    assert forall|k: int| 0 <= k < pow2(z.len()) implies #[trigger] partial_eq(z, k as nat, z.len()) == monomial(z, k as nat) by {
        let f = |i: int|
            if i < z.len() {
                if bit_of(k as nat, i as nat) == 1 {
                    z[i] as int
                } else {
                    1
                }
            } else {
                eq_factor(z[i] as int, bit_of(k as nat, i as nat))
            };
        let g = |i: int| if bit_of(k as nat, i as nat) == 1 { z[i] as int } else { 1 };
        lemma_prod_ext(z.len(), f, g);
    }
}

/// The inner product of two sequences over the first `n` indices.
pub open spec fn inner(a: Seq<int>, b: Seq<int>, n: nat) -> int {
    sum(n, |k: int| a[k] * b[k])
}

/// Bit `h` of `blk * 2^(h+1) + j` (for `j < 2^(h+1)`) is whether `j >= 2^h`.
proof fn lemma_bit_in_block(blk: nat, j: nat, h: nat)
    requires
        j < pow2(h + 1),
    ensures
        bit_of(blk * pow2(h + 1) + j, h) == (if j < pow2(h) { 0nat } else { 1nat }),
{
    lemma_bit_of_concat(blk, j, h + 1, h);
    lemma_pow2_unfold(h + 1);
    lemma_pow2_pos(h);
    let p = pow2(h) as int;
    if j < pow2(h) {
        lemma_basic_div(j as int, p);
    } else {
        lemma_fundamental_div_mod_converse(j as int, p, 1, j - p);
    }
}

/// One transposed layer moves to the other side of an inner product as the
/// coefficients-to-evaluations layer of the same bit.
pub proof fn lemma_layer_transpose(c: Seq<int>, s: Seq<int>, h: nat, n: nat)
    requires
        h < n,
        c.len() == pow2(n),
        s.len() == pow2(n),
    ensures
        inner(c, add_down_layer(s, h), pow2(n)) == inner(add_up_layer(c, h), s, pow2(n)),
{
    let p = pow2(h);
    let w = pow2(h + 1);
    let nb = pow2((n - h - 1) as nat);
    lemma_pow2_unfold(h + 1);
    lemma_pow2_adds((n - h - 1) as nat, h + 1);
    assert(pow2(n) == nb * w);
    let ds = add_down_layer(s, h);
    let uc = add_up_layer(c, h);
    let f = |k: int| c[k] * ds[k];
    let g = |k: int| uc[k] * s[k];
    lemma_sum_blocks(nb, w, f);
    lemma_sum_blocks(nb, w, g);
    let fb = |b: int| sum(w, |j: int| f(b * w + j));
    let gb = |b: int| sum(w, |j: int| g(b * w + j));
    assert forall|b: int| 0 <= b < nb implies #[trigger] fb(b) == gb(b) by {
        let base = b * w;
        lemma_mul_inequality(b + 1, nb as int, w as int);
        lemma_mul_is_distributive_add_other_way(w as int, b, 1);
        lemma_mul_nonnegative(b, w as int);
        let fj = |j: int| f(base + j);
        let gj = |j: int| g(base + j);
        lemma_sum_split(p, p, fj);
        lemma_sum_split(p, p, gj);
        // the low half: f has c s + c s', g has c s; the high half: f has c s, g has c s + c' s
        let fl = |j: int| c[base + j] * s[base + j] + c[base + j] * s[base + j + p];
        let gl = |j: int| c[base + j] * s[base + j];
        let fh = |j: int| c[base + p + j] * s[base + p + j];
        let gh = |j: int| c[base + p + j] * s[base + p + j] + c[base + j] * s[base + p + j];
        assert forall|j: int| 0 <= j < p implies #[trigger] fj(j) == fl(j) by {
            lemma_bit_in_block(b as nat, j as nat, h);
            lemma_mul_is_distributive_add(c[base + j], s[base + j], s[base + j + p]);
        }
        assert forall|j: int| 0 <= j < p implies #[trigger] gj(j) == gl(j) by {
            lemma_bit_in_block(b as nat, j as nat, h);
        }
        let fjs = |j: int| fj(p + j);
        let gjs = |j: int| gj(p + j);
        assert forall|j: int| 0 <= j < p implies #[trigger] fjs(j) == fh(j) by {
            lemma_bit_in_block(b as nat, (p + j) as nat, h);
        }
        assert forall|j: int| 0 <= j < p implies #[trigger] gjs(j) == gh(j) by {
            lemma_bit_in_block(b as nat, (p + j) as nat, h);
            lemma_mul_is_distributive_add_other_way(s[base + p + j], c[base + p + j], c[base + j]);
        }
        lemma_sum_ext(p, fj, fl);
        lemma_sum_ext(p, gj, gl);
        lemma_sum_ext(p, fjs, fh);
        lemma_sum_ext(p, gjs, gh);
        let x1 = |j: int| c[base + j] * s[base + j];
        let x2 = |j: int| c[base + j] * s[base + j + p];
        let y1 = |j: int| c[base + p + j] * s[base + p + j];
        lemma_sum_add(p, x1, x2);
        lemma_sum_ext(p, fl, |j: int| x1(j) + x2(j));
        let y2 = |j: int| c[base + j] * s[base + p + j];
        lemma_sum_add(p, y1, y2);
        lemma_sum_ext(p, gh, |j: int| y1(j) + y2(j));
        lemma_sum_ext(p, x2, y2);
        lemma_sum_ext(p, gl, x1);
        lemma_sum_ext(p, fh, y1);
        assert(w == p + p);
    }
    lemma_sum_ext(nb, fb, gb);
}

/// The coefficients-to-evaluations layers applied from the highest bit down.
pub open spec fn zeta_down(c: Seq<int>, h: nat) -> Seq<int>
    decreases h,
{
    if h == 0 {
        c
    } else {
        zeta_down(add_up_layer(c, (h - 1) as nat), (h - 1) as nat)
    }
}

/// The transposed layers move to the other side of an inner product as the
/// coefficients-to-evaluations layers in the opposite order.
proof fn lemma_transposed_transpose(c: Seq<int>, s: Seq<int>, h: nat, n: nat)
    requires
        h <= n,
        c.len() == pow2(n),
        s.len() == pow2(n),
    ensures
        inner(c, transposed_layers(s, h), pow2(n)) == inner(zeta_down(c, h), s, pow2(n)),
    decreases h,
{
    if h > 0 {
        let m = (h - 1) as nat;
        lemma_transposed_len(s, m);
        lemma_layer_transpose(c, transposed_layers(s, m), m, n);
        let uc = add_up_layer(c, m);
        lemma_transposed_transpose(uc, s, m, n);
    }
}

/// Coefficients-to-evaluations layers of different bits commute.
proof fn lemma_up_layers_commute(s: Seq<int>, a: nat, b: nat)
    requires
        a != b,
    ensures
        add_up_layer(add_up_layer(s, b), a) == add_up_layer(add_up_layer(s, a), b),
{
    let l = add_up_layer(add_up_layer(s, b), a);
    let r = add_up_layer(add_up_layer(s, a), b);
    assert forall|k: int| 0 <= k < s.len() implies #[trigger] l[k] == r[k] by {
        let kn = k as nat;
        if bit_of(kn, a) == 1 {
            lemma_bit_clear(kn, a, b);
            let ka = (kn - pow2(a)) as nat;
            if bit_of(kn, b) == 1 {
                lemma_bit_clear(kn, b, a);
                lemma_bit_clear(ka, b, a);
                let kb = (kn - pow2(b)) as nat;
                lemma_bit_clear(kb, a, b);
                assert((ka - pow2(b)) as nat == (kb - pow2(a)) as nat);
            }
        } else if bit_of(kn, b) == 1 {
            lemma_bit_clear(kn, b, a);
        }
    }
    assert(l =~= r);
}

/// A coefficients-to-evaluations layer above the others passes through them.
proof fn lemma_up_layer_through(s: Seq<int>, a: nat, hi: nat)
    requires
        hi <= a,
    ensures
        zeta_layers(add_up_layer(s, a), 0, hi) == add_up_layer(zeta_layers(s, 0, hi), a),
    decreases hi,
{
    if hi > 0 {
        lemma_up_layer_through(s, a, (hi - 1) as nat);
        lemma_up_layers_commute(zeta_layers(s, 0, (hi - 1) as nat), (hi - 1) as nat, a);
    }
}

/// The order of the coefficients-to-evaluations layers does not matter.
proof fn lemma_zeta_down(c: Seq<int>, h: nat)
    ensures
        zeta_down(c, h) == zeta_layers(c, 0, h),
    decreases h,
{
    if h > 0 {
        let m = (h - 1) as nat;
        lemma_zeta_down(add_up_layer(c, m), m);
        lemma_up_layer_through(c, m, m);
    }
}

/// The coefficients-to-evaluations transform and the transposed transform are
/// adjoint: `<c, T^t s> == <T c, s>`.
pub proof fn lemma_transform_adjoint(c: Seq<int>, s: Seq<int>, n: nat)
    requires
        c.len() == pow2(n),
        s.len() == pow2(n),
    ensures
        inner(c, transposed_layers(s, n), pow2(n)) == inner(coeffs_to_evals(c, n), s, pow2(n)),
{
    lemma_transposed_transpose(c, s, n, n);
    lemma_zeta_down(c, n);
}

/// The hypercube point `j` in `n` coordinates: coordinate `i` is bit `i` of `j`.
pub open spec fn hypercube_point(j: nat, n: nat) -> Seq<u64> {
    Seq::new(n, |i: int| bit_of(j, i as nat) as u64)
}

/// A product with a zero factor is zero.
proof fn lemma_prod_zero_factor(n: nat, f: spec_fn(int) -> int, i: nat)
    requires
        i < n,
        f(i as int) == 0,
    ensures
        prod(n, f) == 0,
{
    lemma_prod_around(n, i, f);
    lemma_mul_basics(prod(i, f));
    lemma_mul_basics(prod((n - i - 1) as nat, |t: int| f(i + 1 + t)));
}

/// A product of ones is one.
proof fn lemma_prod_ones(n: nat, f: spec_fn(int) -> int)
    requires
        forall|i: int| 0 <= i < n ==> #[trigger] f(i) == 1,
    ensures
        prod(n, f) == 1,
    decreases n,
{
    if n > 0 {
        lemma_prod_ones((n - 1) as nat, f);
    }
}

/// Numbers below `2^n` with the same `n` low bits are equal.
proof fn lemma_bits_determine(j: nat, k: nat, n: nat)
    requires
        j < pow2(n),
        k < pow2(n),
        forall|i: nat| i < n ==> #[trigger] bit_of(j, i) == bit_of(k, i),
    ensures
        j == k,
{
    lemma_bits_to_int_bits_of(j, n);
    lemma_bits_to_int_bits_of(k, n);
    assert(bits_of(j, n) =~= bits_of(k, n)) by {
        assert forall|i: int| 0 <= i < n implies #[trigger] bits_of(j, n)[i] == bits_of(k, n)[i] by {
            assert(bit_of(j, i as nat) == bit_of(k, i as nat));
        }
    }
    lemma_small_mod(j, pow2(n));
    lemma_small_mod(k, pow2(n));
}

/// At a point of the hypercube, `eq` is the indicator of that point.
pub proof fn lemma_eq_at_hypercube(j: nat, k: nat, n: nat)
    requires
        j < pow2(n),
        k < pow2(n),
    ensures
        eq_point(hypercube_point(j, n), k) == if j == k { 1int } else { 0int },
{
    let x = hypercube_point(j, n);
    let f = |i: int| eq_factor(x[i] as int, bit_of(k, i as nat));
    if j == k {
        assert forall|i: int| 0 <= i < n implies #[trigger] f(i) == 1 by {
            lemma_bit_of_bound(j, i as nat);
        }
        lemma_prod_ones(n, f);
    } else {
        if forall|i: nat| i < n ==> #[trigger] bit_of(j, i) == bit_of(k, i) {
            lemma_bits_determine(j, k, n);
        }
        let i = choose|i: nat| i < n && #[trigger] bit_of(j, i) != bit_of(k, i);
        lemma_bit_of_bound(j, i);
        lemma_bit_of_bound(k, i);
        assert(f(i as int) == 0);
        lemma_prod_zero_factor(n, f, i);
    }
}

/// The hypercube evaluations computed from the coefficients `c` are the
/// values of the polynomial at the points of the hypercube.
pub proof fn lemma_coeffs_to_evals_values(c: Seq<u64>, n: nat, j: nat)
    requires
        c.len() == pow2(n),
        j < pow2(n),
    ensures
        coeffs_to_evals(ints(c), n)[j as int] == coeff_eval(c, hypercube_point(j, n)),
{
    let x = hypercube_point(j, n);
    let e = eq_points(x);
    lemma_transform_adjoint(ints(c), e, n);
    lemma_transposed_eq(x);
    crate::hypercube::lemma_layers_len(ints(c), 0, n);
    let t = coeffs_to_evals(ints(c), n);
    // <T c, e_j> == (T c)[j]
    let g = |k: int| t[k] * e[k];
    assert forall|k: int| 0 <= k < pow2(n) && k != j implies #[trigger] g(k) == 0 by {
        lemma_eq_at_hypercube(j, k as nat, n);
        lemma_mul_basics(t[k]);
    }
    lemma_eq_at_hypercube(j, j, n);
    lemma_mul_basics(t[j as int]);
    lemma_sum_single(pow2(n), j as int, g);
    // <c, T^t e_j> == sum_k c_k monomial(x, k)
    let tt = transposed_layers(e, n);
    let f = |k: int| ints(c)[k] * tt[k];
    let h = |k: int| c[k] * monomial(x, k as nat);
    assert forall|k: int| 0 <= k < pow2(n) implies #[trigger] f(k) == h(k) by {}
    lemma_sum_ext(pow2(n), f, h);
}

/// The multilinear extension of the hypercube evaluations computed from the
/// coefficients `c` is the polynomial of `c`: its value at any `r` is the
/// value computed from the coefficients, also after reducing modulo `q`.
pub proof fn lemma_mle_of_evals(c: Seq<u64>, evals: Seq<u64>, r: Seq<u64>, q: int)
    requires
        q > 0,
        c.len() == pow2(r.len()),
        evals.len() == c.len(),
        forall|k: int| 0 <= k < evals.len() ==> #[trigger] (evals[k] as int) % q == coeffs_to_evals(ints(c), r.len())[k] % q,
    ensures
        mle_eval(evals, r) % q == coeff_eval(c, r) % q,
{
    let n = r.len();
    let e = eq_points(r);
    lemma_transform_adjoint(ints(c), e, n);
    lemma_transposed_eq(r);
    let t = coeffs_to_evals(ints(c), n);
    let tt = transposed_layers(e, n);
    let f = |k: int| ints(c)[k] * tt[k];
    let h = |k: int| c[k] * monomial(r, k as nat);
    assert forall|k: int| 0 <= k < pow2(n) implies #[trigger] f(k) == h(k) by {}
    lemma_sum_ext(pow2(n), f, h);
    let m1 = |k: int| evals[k] * eq_point(r, k as nat);
    let m2 = |k: int| t[k] * e[k];
    assert forall|k: int| 0 <= k < pow2(n) implies #[trigger] (m1(k) % q) == m2(k) % q by {
        lemma_mul_mod_noop_left(evals[k] as int, eq_point(r, k as nat), q);
        lemma_mul_mod_noop_left(t[k], e[k], q);
    }
    lemma_sum_congruent(pow2(n), q, m1, m2);
}

/// The sequence of `2^n` ones.
pub open spec fn all_ones(n: nat) -> Seq<int> {
    Seq::new(pow2(n), |j: int| 1int)
}

/// The factors of the transposed transform of the all-ones sequence after
/// `h` layers: two for each coordinate below `h` whose bit is clear.
pub open spec fn partial_ones(k: nat, h: nat, n: nat) -> int {
    prod(n, |i: int| if i < h && bit_of(k, i as nat) == 0 { 2 } else { 1 })
}

/// The transposed layers of the all-ones sequence, layer by layer.
proof fn lemma_transposed_ones_partial(n: nat, h: nat)
    requires
        h <= n,
    ensures
        forall|k: int|
            0 <= k < pow2(n) ==> #[trigger] transposed_layers(all_ones(n), h)[k] == partial_ones(k as nat, h, n),
    decreases h,
{
    let ones = all_ones(n);
    if h == 0 {
        assert forall|k: int| 0 <= k < pow2(n) implies #[trigger] transposed_layers(ones, h)[k] == partial_ones(k as nat, h, n) by {
            lemma_prod_ones(n, |i: int| if i < h && bit_of(k as nat, i as nat) == 0 { 2 } else { 1 });
        }
    } else {
        let m = (h - 1) as nat;
        lemma_transposed_ones_partial(n, m);
        let t = transposed_layers(ones, m);
        lemma_transposed_len(ones, m);
        assert forall|k: int| 0 <= k < pow2(n) implies #[trigger] transposed_layers(ones, h)[k] == partial_ones(k as nat, h, n) by {
            let fk = |i: int| if i < h && bit_of(k as nat, i as nat) == 0 { 2int } else { 1int };
            let gk = |i: int| if i < m && bit_of(k as nat, i as nat) == 0 { 2int } else { 1int };
            lemma_bit_of_bound(k as nat, m);
            if bit_of(k as nat, m) == 1 {
                assert forall|i: int| 0 <= i < n implies #[trigger] fk(i) == gk(i) by {}
                lemma_prod_ext(n, fk, gk);
            } else {
                let k2 = k + pow2(m);
                lemma_bit_set_bound(k as nat, m, n);
                let g2 = |i: int| if i < m && bit_of(k2 as nat, i as nat) == 0 { 2int } else { 1int };
                assert(t[k] == prod(n, gk));
                assert(t[k2] == prod(n, g2));
                assert forall|i: int| 0 <= i < n implies #[trigger] g2(i) == gk(i) by {
                    if i < m {
                        lemma_bit_set(k as nat, m, i as nat);
                    }
                }
                lemma_prod_ext(n, g2, gk);
                lemma_prod_around(n, m, gk);
                lemma_prod_around(n, m, fk);
                lemma_prod_ext(m, fk, gk);
                let r = (n - m - 1) as nat;
                let sk = |i: int| gk(m + 1 + i);
                let sf = |i: int| fk(m + 1 + i);
                assert forall|i: int| 0 <= i < r implies #[trigger] sf(i) == sk(i) by {}
                lemma_prod_ext(r, sf, sk);
                let before = prod(m, gk);
                let after = prod(r, sk);
                assert(gk(m as int) == 1);
                assert(fk(m as int) == 2);
                assert(before * 1 * after + before * 1 * after == before * 2 * after) by (nonlinear_arith);
            }
        }
    }
}

/// The product of the factors for all coordinates is `2^(n - popcount)`.
proof fn lemma_partial_ones_full(k: nat, n: nat)
    ensures
        popcount(k, n) <= n,
        partial_ones(k, n, n) == pow2((n - popcount(k, n)) as nat),
    decreases n,
{
    let f = |i: int| if i < n && bit_of(k, i as nat) == 0 { 2int } else { 1int };
    if n == 0 {
        lemma2_to64();
    } else {
        let m = (n - 1) as nat;
        lemma_partial_ones_full(k, m);
        let g = |i: int| if i < m && bit_of(k, i as nat) == 0 { 2int } else { 1int };
        assert forall|i: int| 0 <= i < m implies #[trigger] f(i) == g(i) by {}
        lemma_prod_ext(m, f, g);
        lemma_bit_of_bound(k, m);
        assert(prod(n, f) == prod(m, f) * f(m as int));
        if bit_of(k, m) == 1 {
            lemma_mul_basics(prod(m, f));
        } else {
            lemma_pow2_unfold((n - popcount(k, n)) as nat);
            lemma_mul_is_commutative(prod(m, f), 2);
        }
    }
}

/// The sum of the values of the polynomial with coefficients `c` over the
/// hypercube is the sum of the coefficients weighted by `2^(n - popcount)`,
/// the weights `sum_over_hypercube_fromcoeff` uses (as `i32`, exact for
/// fewer than 31 variables).
pub proof fn lemma_hypercube_sum(c: Seq<u64>, n: nat)
    requires
        c.len() == pow2(n),
        n < 31,
    ensures
        sum(pow2(n), |j: int| coeffs_to_evals(ints(c), n)[j]) == sum(
            c.len(),
            |i: int| c[i] * (((pow2(n) as nat) / pow2(popcount(i as nat, n))) as i32),
        ),
{
    let ones = all_ones(n);
    lemma_transform_adjoint(ints(c), ones, n);
    lemma_transposed_ones_partial(n, n);
    let t = coeffs_to_evals(ints(c), n);
    let tt = transposed_layers(ones, n);
    let f1 = |j: int| t[j] * ones[j];
    let f2 = |j: int| t[j];
    assert forall|j: int| 0 <= j < pow2(n) implies #[trigger] f1(j) == f2(j) by {
        lemma_mul_basics(t[j]);
    }
    lemma_sum_ext(pow2(n), f1, f2);
    let g1 = |i: int| ints(c)[i] * tt[i];
    let g2 = |i: int| c[i] * (((pow2(n) as nat) / pow2(popcount(i as nat, n))) as i32);
    assert forall|i: int| 0 <= i < pow2(n) implies #[trigger] g1(i) == g2(i) by {
        lemma_partial_ones_full(i as nat, n);
        let pc = popcount(i as nat, n);
        lemma_pow2_split((n - pc) as nat, pc);
        assert((n - pc) as nat + pc == n);
        lemma_pow2_strictly_increases((n - pc) as nat, 31);
        lemma2_to64_rest();
        lemma2_to64();
        if n - pc < 31 {
            if n - pc < 30 {
                lemma_pow2_strictly_increases((n - pc) as nat, 30);
            }
        }
    }
    lemma_sum_ext(pow2(n), g1, g2);
}

/// The coefficients with the high variables fixed to `r` give, at `w`, the
/// value of the polynomial at `w ++ r`.
pub proof fn lemma_restrict_eval(coeff: Seq<u64>, w: Seq<u64>, r: Seq<u64>, q: int)
    requires
        0 < q <= u64::MAX,
        coeff.len() == pow2(w.len() + r.len()),
    ensures
        coeff_eval(restrict_coeffs(coeff, r, w.len(), q), w) % q == coeff_eval(coeff, w + r) % q,
{
    let m = w.len();
    let b = pow2(m);
    let a = pow2(r.len());
    lemma_pow2_adds(r.len(), m);
    lemma_pow2_split(r.len(), m);
    assert(coeff.len() == a * b);
    lemma_coeff_eval_blocks(coeff, w, r);
    let ff = |c: int, l: int| monomial(r, c as nat) * (coeff[c * b + l] * monomial(w, l as nat));
    let outer = |c: int| monomial(r, c as nat) * coeff_eval(block(coeff, b, c), w);
    let rows = |c: int| sum(b, |l: int| ff(c, l));
    assert forall|c: int| 0 <= c < a implies #[trigger] outer(c) == rows(c) by {
        let blk = block(coeff, b, c);
        lemma_mul_inequality(c + 1, a as int, b as int);
        lemma_mul_is_distributive_add_other_way(b as int, c, 1);
        lemma_mul_nonnegative(c, b as int);
        let h = |l: int| blk[l] * monomial(w, l as nat);
        let mr = monomial(r, c as nat);
        lemma_sum_scale(b, mr, h);
        let hs = |l: int| mr * h(l);
        let fc = |l: int| ff(c, l);
        assert forall|l: int| 0 <= l < b implies #[trigger] hs(l) == fc(l) by {
            assert(blk[l] == coeff[c * b + l]);
        }
        lemma_sum_ext(b, hs, fc);
        assert(coeff_eval(blk, w) == sum(b, h));
    }
    lemma_sum_ext(a, outer, rows);
    lemma_sum_swap(a, b, ff);
    let cols = |l: int| sum(a, |c: int| ff(c, l));
    let target = |l: int| coeff_eval(fold_column(coeff, b, l), r) * monomial(w, l as nat);
    assert forall|l: int| 0 <= l < b implies #[trigger] cols(l) == target(l) by {
        let col = fold_column(coeff, b, l);
        assert(col.len() == a);
        let g = |c: int| col[c] * monomial(r, c as nat);
        let mw = monomial(w, l as nat);
        lemma_sum_scale(a, mw, g);
        let gs = |c: int| mw * g(c);
        let fl = |c: int| ff(c, l);
        assert forall|c: int| 0 <= c < a implies #[trigger] fl(c) == gs(c) by {
            assert(col[c] == coeff[c * b + l]);
            let x = coeff[c * b + l] as int;
            let mrc = monomial(r, c as nat);
            assert(mrc * (x * mw) == mw * (x * mrc)) by (nonlinear_arith);
        }
        lemma_sum_ext(a, fl, gs);
        lemma_mul_is_commutative(mw, sum(a, g));
    }
    lemma_sum_ext(b, cols, target);
    let res = restrict_coeffs(coeff, r, m, q);
    let fr = |l: int| res[l] * monomial(w, l as nat);
    assert forall|l: int| 0 <= l < b implies #[trigger] (fr(l) % q) == target(l) % q by {
        let v = coeff_eval(fold_column(coeff, b, l), r);
        lemma_mod_bound(v, q);
        lemma_mul_mod_noop_left(v, monomial(w, l as nat), q);
        lemma_mul_mod_noop_left(res[l] as int, monomial(w, l as nat), q);
        lemma_mod_twice(v, q);
        assert(res[l] as int == v % q);
    }
    lemma_sum_congruent(b, q, fr, target);
}

/// The equality polynomial splits over a concatenation of coordinates.
pub proof fn lemma_eq_eval_concat(a: Seq<u64>, b: Seq<u64>, r: Seq<u64>, s: Seq<u64>)
    requires
        a.len() == r.len(),
        b.len() == s.len(),
    ensures
        eq_eval(a + b, r + s) == eq_eval(a, r) * eq_eval(b, s),
{
    let ab = a + b;
    let rs = r + s;
    let f = |i: int| ab[i] * rs[i] + (1 - ab[i]) * (1 - rs[i]);
    lemma_prod_split(a.len(), b.len(), f);
    let fa = |i: int| a[i] * r[i] + (1 - a[i]) * (1 - r[i]);
    let fb = |i: int| b[i] * s[i] + (1 - b[i]) * (1 - s[i]);
    assert forall|i: int| 0 <= i < a.len() implies #[trigger] f(i) == fa(i) by {}
    lemma_prod_ext(a.len(), f, fa);
    let fs = |i: int| f(a.len() + i);
    assert forall|i: int| 0 <= i < b.len() implies #[trigger] fs(i) == fb(i) by {
        assert(ab[a.len() + i] == b[i]);
        assert(rs[a.len() + i] == s[i]);
    }
    lemma_prod_ext(b.len(), fs, fb);
}

/// At a point of the hypercube, `eq` evaluates to the factor product
/// `eq_point`.
pub proof fn lemma_eq_eval_hypercube(z: Seq<u64>, x: nat)
    ensures
        eq_eval(z, hypercube_point(x, z.len())) == eq_point(z, x),
{
    let p = hypercube_point(x, z.len());
    let f = |i: int| z[i] * p[i] + (1 - z[i]) * (1 - p[i]);
    let g = |i: int| eq_factor(z[i] as int, bit_of(x, i as nat));
    assert forall|i: int| 0 <= i < z.len() implies #[trigger] f(i) == g(i) by {
        lemma_bit_of_bound(x, i as nat);
        lemma_mul_basics(z[i] as int);
        lemma_mul_basics(1 - z[i]);
    }
    lemma_prod_ext(z.len(), f, g);
}

/// The weighted sum over the hypercube of the values of a polynomial against
/// `eq(z, .)` is its value at `z`.
pub proof fn lemma_eq_weighted_sum(c: Seq<u64>, z: Seq<u64>)
    requires
        c.len() == pow2(z.len()),
    ensures
        sum(
            pow2(z.len()),
            |x: int| coeff_eval(c, hypercube_point(x as nat, z.len())) * eq_point(z, x as nat),
        ) == coeff_eval(c, z),
{
    let n = z.len();
    let e = eq_points(z);
    lemma_transform_adjoint(ints(c), e, n);
    lemma_transposed_eq(z);
    let t = coeffs_to_evals(ints(c), n);
    let tt = transposed_layers(e, n);
    let f = |k: int| ints(c)[k] * tt[k];
    let h = |k: int| c[k] * monomial(z, k as nat);
    assert forall|k: int| 0 <= k < pow2(n) implies #[trigger] f(k) == h(k) by {}
    lemma_sum_ext(pow2(n), f, h);
    let m1 = |x: int| coeff_eval(c, hypercube_point(x as nat, n)) * eq_point(z, x as nat);
    let m2 = |x: int| t[x] * e[x];
    assert forall|x: int| 0 <= x < pow2(n) implies #[trigger] m1(x) == m2(x) by {
        lemma_coeffs_to_evals_values(c, n, x as nat);
    }
    lemma_sum_ext(pow2(n), m1, m2);
}

} // verus!
