//! Completeness of the BaseFold evaluation proofs: the proof computed for the
//! committed polynomial and its true value at a point is accepted.
use crate::basefold::{
    basefold_accepts, eval_proof, fold_level, final_ok, fold_pos, level_len, lemma_fold_position, lemma_twice_nonzero, mus_at, prover_code,
    prover_poly, prover_sum, restrict_coeffs, round_line, round_ok, round_poly, tmp_at, top_at, upoly_eval, valid_challenges,
};
use crate::codes::{all_nonzero, encodes, fold_encode, lemma_fold_encode_foldable, lemma_fold_encode_len, FoldableCode, RSFoldableCode};
use crate::field::{all_canonical, fdiv, is_prime, lemma_fdiv_prime, lemma_inverse_exists};
use crate::matmul::MatrixMul;
use crate::codes::lincomb;
use crate::codes::LinearCode;
use crate::hypercube::{ints, lemma_transposed_len, lemma_transposed_mod, reduce, transposed_layers};
use crate::identities::{
    eq_points, hypercube_point, lemma_coeff_eval_lincomb, lemma_coeff_eval_top, lemma_eq_eval_concat, lemma_eq_eval_front,
    lemma_eq_eval_hypercube, lemma_eq_weighted_sum, lemma_mod_lin, lemma_restrict_eval, lemma_restrict_none, lemma_restrict_step,
    lemma_transposed_eq,
};
use crate::multilinear::{coeff_eval, eq_eval, eq_point, fold_column, lemma_pow2_split, monomial};
use crate::sums::{lemma_sum_congruent, lemma_sum_ext, lemma_sum_scale, sum};
use vstd::arithmetic::div_mod::*;
use vstd::arithmetic::mul::*;
use vstd::arithmetic::power::pow;
use vstd::arithmetic::power2::*;
use vstd::prelude::*;

verus! {

/// The challenges of the first `i` rounds, last drawn first: the values of the
/// variables `n - i, .., n - 1`.
pub open spec fn chrev_at(ch: Seq<u64>, i: nat) -> Seq<u64> {
    ch.subrange(0, i as int).reverse()
}

/// The sum the sumcheck claims going into round `i` for the polynomial with
/// coefficients `coeff` at `z`: `eq(z_hi, challenges)` times the value at
/// `z_lo` of the polynomial with its high variables set to the challenges.
pub open spec fn claim_at(coeff: Seq<u64>, z: Seq<u64>, ch: Seq<u64>, i: nat, q: int) -> int {
    let n = z.len();
    let m = (n - i) as nat;
    let r = chrev_at(ch, i);
    (eq_eval(z.subrange(m as int, n as int), r) * coeff_eval(restrict_coeffs(coeff, r, m, q), z.subrange(0, m as int))) % q
}

/// A polynomial with three coefficients.
proof fn lemma_upoly3(h: Seq<u64>, x: int)
    requires
        h.len() == 3,
    ensures
        upoly_eval(h, x) == h[0] + h[1] * x + h[2] * (x * x),
{
    let f = |i: int| h[i] * pow(x, i as nat);
    assert(sum(1, f) == sum(0, f) + f(0));
    assert(sum(2, f) == sum(1, f) + f(1));
    assert(sum(3, f) == sum(2, f) + f(2));
    reveal(pow);
    assert(pow(x, 0) == 1);
    assert(pow(x, 1) == x * pow(x, 0));
    assert(pow(x, 2) == x * pow(x, 1));
    lemma_mul_basics(x);
    lemma_mul_basics(h[0] as int);
}

/// `u t0 + (v t0 + u t1) x + v t1 x^2 == (u + v x)(t0 + t1 x)`.
proof fn lemma_line_product(u: int, v: int, t0: int, t1: int, x: int)
    ensures
        u * t0 + (v * t0 + u * t1) * x + (v * t1) * (x * x) == (u + v * x) * (t0 + t1 * x),
{
    let w = t0 + t1 * x;
    lemma_mul_is_distributive_add_other_way(w, u, v * x);
    lemma_mul_is_distributive_add(u, t0, t1 * x);
    lemma_mul_is_distributive_add(v * x, t0, t1 * x);
    lemma_mul_is_associative(u, t1, x);
    lemma_mul_is_associative(v, x, t0);
    lemma_mul_is_commutative(x, t0);
    lemma_mul_is_associative(v, t0, x);
    lemma_mul_is_associative(v * x, t1, x);
    lemma_mul_is_associative(v, x, t1);
    lemma_mul_is_commutative(x, t1);
    lemma_mul_is_associative(v, t1, x);
    lemma_mul_is_associative(v * t1, x, x);
    lemma_mul_is_distributive_add_other_way(x, v * t0, u * t1);
}

/// The round polynomial is `((1 - z_j) + (2 z_j - 1) X) (t0 + t1 X)` modulo `q`.
proof fn lemma_round_poly_value(t0: int, t1: int, zj: int, x: int, q: int)
    requires
        q > 0,
    ensures
        (((1 - zj) * t0) % q + (((2 * zj - 1) * t0 + (1 - zj) * t1) % q) * x + (((2 * zj - 1) * t1) % q) * (x * x))
            % q == (((1 - zj) + (2 * zj - 1) * x) * (t0 + t1 * x)) % q,
{
    let a = (1 - zj) * t0;
    let b = (2 * zj - 1) * t0 + (1 - zj) * t1;
    let c = (2 * zj - 1) * t1;
    let xx = x * x;
    lemma_mul_mod_noop_left(b, x, q);
    lemma_mul_mod_noop_left(c, xx, q);
    lemma_add_mod_noop(a % q + (b % q) * x, (c % q) * xx, q);
    lemma_add_mod_noop(a % q, (b % q) * x, q);
    lemma_add_mod_noop(a, b * x, q);
    lemma_add_mod_noop(a + b * x, c * xx, q);
    lemma_mod_twice(a, q);
    lemma_line_product(1 - zj, 2 * zj - 1, t0, t1, x);
    // (a % q + (b % q) x) % q == (a + b x) % q
    assert(((a % q + (b % q) * x) % q + ((c % q) * xx) % q) % q == ((a + b * x) % q + (c * xx) % q) % q);
}

/// `(1 - z) + (2z - 1) c == z c + (1 - z)(1 - c)`: the line of the round
/// polynomial's first factor is the factor of `eq`.
proof fn lemma_eq_line(zj: int, c: int)
    ensures
        (1 - zj) + (2 * zj - 1) * c == zj * c + (1 - zj) * (1 - c),
{
    lemma_mul_is_distributive_sub_other_way(c, 2 * zj, 1);
    lemma_mul_is_associative(2, zj, c);
    lemma_mul_is_distributive_sub(1 - zj, 1, c);
    lemma_mul_is_distributive_sub_other_way(c, 1, zj);
    lemma_mul_basics(c);
    lemma_mul_basics(1 - zj);
}

/// Products only depend on their factors modulo `q`.
proof fn lemma_mul_cong(x: int, y: int, x2: int, y2: int, q: int)
    requires
        q > 0,
        x % q == x2 % q,
        y % q == y2 % q,
    ensures
        (x * y) % q == (x2 * y2) % q,
{
    lemma_mul_mod_noop_general(x, y, q);
    lemma_mul_mod_noop_general(x2, y2, q);
}

/// The challenges of `i + 1` rounds, last drawn first: the new challenge in
/// front of those of `i` rounds.
proof fn lemma_chrev_step(ch: Seq<u64>, i: nat)
    requires
        i < ch.len(),
    ensures
        chrev_at(ch, i + 1) == seq![ch[i as int]] + chrev_at(ch, i),
{
    assert(chrev_at(ch, i + 1) =~= seq![ch[i as int]] + chrev_at(ch, i));
}

/// Round `i` of the sumcheck, for the polynomial with coefficients `coeff`
/// times `eq(z, .)`: the round polynomial computed with a claimed sum `s`
/// sums over `{0, 1}` to `s`; computed with the true claim, or without one,
/// it sums to the true claim and its value at the round's challenge is the
/// next claim.
pub proof fn lemma_round(coeff: Seq<u64>, z: Seq<u64>, ch: Seq<u64>, i: nat, sum: Option<u64>, q: int)
    requires
        0 < q <= u64::MAX,
        i < z.len(),
        i < ch.len(),
        coeff.len() == pow2(z.len()),
    ensures
        ({
            let h = round_poly(coeff, z, chrev_at(ch, i), sum, q);
            &&& h.len() == 3
            &&& (sum matches Some(s) ==> (upoly_eval(h, 0) + upoly_eval(h, 1)) % q == (s as int) % q)
            &&& (sum is None || sum == Some(claim_at(coeff, z, ch, i, q) as u64)) ==> {
                &&& (upoly_eval(h, 0) + upoly_eval(h, 1)) % q == claim_at(coeff, z, ch, i, q)
                &&& upoly_eval(h, ch[i as int] as int) % q == claim_at(coeff, z, ch, i + 1, q)
            }
        }),
{
    let n = z.len();
    let m = (n - i) as nat;
    let r = chrev_at(ch, i);
    assert(r.len() == i);
    let g = restrict_coeffs(coeff, r, m, q);
    let half = pow2((m - 1) as nat);
    lemma_pow2_unfold(m);
    let zlo = z.subrange(0, m - 1);
    let zj = z[m - 1] as int;
    let ee = eq_eval(z.subrange(m as int, n as int), r);
    let e = ee % q;
    let aa = coeff_eval(g.subrange(0, half as int), zlo);
    let bb = coeff_eval(g.subrange(half as int, 2 * half as int), zlo);
    let a = aa % q;
    let b = bb % q;
    let (t0, t1) = round_line(coeff, z, r, sum, q);
    assert(t1 == (e * b) % q);
    let h = round_poly(coeff, z, r, sum, q);
    let claim = claim_at(coeff, z, ch, i, q);
    lemma_mod_bound(e * b, q);
    lemma_mod_bound(e * a, q);
    // the values of the round polynomial
    assert forall|x: int| #[trigger] upoly_eval(h, x) % q == (((1 - zj) + (2 * zj - 1) * x) * (t0 + t1 * x)) % q by {
        lemma_upoly3(h, x);
        lemma_mod_bound((1 - zj) * t0, q);
        lemma_mod_bound((2 * zj - 1) * t0 + (1 - zj) * t1, q);
        lemma_mod_bound((2 * zj - 1) * t1, q);
        lemma_round_poly_value(t0, t1, zj, x, q);
    }
    // at zero and one: t0 + zj t1
    assert((upoly_eval(h, 0) + upoly_eval(h, 1)) % q == (t0 + zj * t1) % q) by {
        let v0 = upoly_eval(h, 0);
        let v1 = upoly_eval(h, 1);
        assert(v0 % q == (((1 - zj) + (2 * zj - 1) * 0) * (t0 + t1 * 0)) % q);
        assert(v1 % q == (((1 - zj) + (2 * zj - 1) * 1) * (t0 + t1 * 1)) % q);
        lemma_mul_basics(2 * zj - 1);
        lemma_mul_basics(t1);
        assert(((1 - zj) + (2 * zj - 1) * 1) == zj);
        lemma_add_mod_noop(v0, v1, q);
        lemma_add_mod_noop((1 - zj) * t0, zj * (t0 + t1), q);
        lemma_mul_is_distributive_add(zj, t0, t1);
        lemma_mul_is_distributive_sub_other_way(t0, 1, zj);
        lemma_mul_basics(t0);
        lemma_mul_is_commutative(zj, t0);
    }
    match sum {
        Some(s) => {
            assert(t0 == (s - t1 * zj) % q);
            lemma_add_mod_noop(t0, zj * t1, q);
            lemma_add_mod_noop(s - t1 * zj, zj * t1, q);
            lemma_mod_twice(s - t1 * zj, q);
            lemma_mod_twice(zj * t1, q);
            lemma_mul_is_commutative(t1, zj);
        },
        None => {},
    }
    if sum is None || sum == Some(claim as u64) {
        // the claim is e (a + zj b)
        lemma_coeff_eval_top(g, zlo, z[m - 1]);
        assert(zlo + seq![z[m - 1]] =~= z.subrange(0, m as int));
        assert(claim == (ee * (aa + zj * bb)) % q);
        lemma_mod_lin(aa, bb, zj, q);
        lemma_mod_lin(a, b, zj, q);
        lemma_mod_twice(aa, q);
        lemma_mod_twice(bb, q);
        lemma_mod_twice(ee, q);
        lemma_mul_cong(ee, aa + zj * bb, e, a + zj * b, q);
        // t0 == e a and t1 == e b modulo q
        assert(t0 % q == (e * a) % q) by {
            match sum {
                Some(s) => {
                    lemma_mod_bound(claim, q);
                    lemma_small_mod(claim as nat, q as nat);
                    assert(s == claim);
                    assert(claim == (e * (a + zj * b)) % q);
                    lemma_mul_is_distributive_add(e, a, zj * b);
                    lemma_mul_is_associative(e, zj, b);
                    lemma_mul_is_commutative(e, zj);
                    lemma_mul_is_associative(zj, e, b);
                    lemma_mul_mod_noop_right(zj, e * b, q);
                    lemma_mul_is_commutative(t1, zj);
                    lemma_sub_mod_noop(claim, t1 * zj, q);
                    lemma_sub_mod_noop(e * a + zj * (e * b), zj * (e * b), q);
                    lemma_mod_twice(e * (a + zj * b), q);
                    lemma_mod_twice(t0, q);
                },
                None => {
                    lemma_mod_twice(e * a, q);
                },
            }
        }
        assert(t1 % q == (e * b) % q) by {
            lemma_mod_twice(e * b, q);
        }
        // the sum over {0, 1}
        assert((t0 + zj * t1) % q == claim) by {
            lemma_add_mod_noop(t0, zj * t1, q);
            lemma_mul_mod_noop_right(zj, t1, q);
            lemma_mul_mod_noop_right(zj, e * b, q);
            lemma_add_mod_noop(e * a, zj * (e * b), q);
            lemma_mul_is_distributive_add(e, a, zj * b);
            lemma_mul_is_associative(e, zj, b);
            lemma_mul_is_commutative(e, zj);
            lemma_mul_is_associative(zj, e, b);
        }
        // the value at the challenge
        let c = ch[i as int] as int;
        lemma_chrev_step(ch, i);
        let r2 = chrev_at(ch, i + 1);
        let m2 = (m - 1) as nat;
        let g2 = restrict_coeffs(coeff, r2, m2, q);
        lemma_restrict_step(coeff, r, ch[i as int], m, q);
        assert(g2 == lincomb(g.subrange(0, half as int), g.subrange(half as int, 2 * half as int), c, q));
        lemma_coeff_eval_lincomb(g.subrange(0, half as int), g.subrange(half as int, 2 * half as int), c, zlo, q);
        assert(z.subrange(m2 as int, n as int) =~= seq![z[m - 1]] + z.subrange(m as int, n as int));
        lemma_eq_eval_front(z[m - 1], z.subrange(m as int, n as int), ch[i as int], r);
        let lc = zj * c + (1 - zj) * (1 - c);
        let ee2 = eq_eval(z.subrange(m2 as int, n as int), r2);
        assert(ee2 == lc * ee);
        assert(z.subrange(0, m2 as int) == zlo);
        let v2 = coeff_eval(g2, zlo);
        assert(v2 % q == (aa + c * bb) % q);
        assert(claim_at(coeff, z, ch, i + 1, q) == (ee2 * v2) % q);
        lemma_eq_line(zj, c);
        // value: (lc (t0 + t1 c)) == lc e (a + c b) == lc ee (aa + c bb) == ee2 v2 (mod q)
        assert((t0 + t1 * c) % q == (e * (a + c * b)) % q) by {
            lemma_mod_lin(t0, t1, c, q);
            lemma_mul_is_commutative(t1, c);
            lemma_mul_mod_noop_right(c, t1, q);
            lemma_mul_mod_noop_right(c, e * b, q);
            lemma_add_mod_noop(t0, c * t1, q);
            lemma_add_mod_noop(e * a, c * (e * b), q);
            lemma_mul_is_distributive_add(e, a, c * b);
            lemma_mul_is_associative(e, c, b);
            lemma_mul_is_commutative(e, c);
            lemma_mul_is_associative(c, e, b);
        }
        assert((e * (a + c * b)) % q == (ee * (aa + c * bb)) % q) by {
            lemma_mod_lin(aa, bb, c, q);
            lemma_mod_lin(a, b, c, q);
            lemma_mod_twice(aa, q);
            lemma_mod_twice(bb, q);
            lemma_mul_cong(e, a + c * b, ee, aa + c * bb, q);
            lemma_mod_twice(ee, q);
        }
        assert(upoly_eval(h, c) % q == (lc * (t0 + t1 * c)) % q);
        lemma_mod_twice(ee * (aa + c * bb), q);
        lemma_mul_cong(lc, t0 + t1 * c, lc, ee * (aa + c * bb), q);
        lemma_mul_cong(ee, aa + c * bb, ee, v2, q);
        lemma_mul_cong(lc, ee * (aa + c * bb), lc, ee * v2, q);
        lemma_mul_is_associative(lc, ee, v2);
    }
}

/// The claimed sums of the rounds: with the true value `y` of the polynomial
/// at `z` (or without claimed sums), the sum the verifier carries into round
/// `i` is the true claim, and the round polynomial of each round sums to it.
pub proof fn lemma_claims(coeff: Seq<u64>, z: Seq<u64>, ch: Seq<u64>, y: u64, yopt: Option<u64>, polys: Seq<Seq<u64>>, d: nat, q: int, i: nat)
    requires
        0 < q <= u64::MAX,
        d <= z.len(),
        ch.len() == d,
        i <= d,
        polys.len() >= d,
        coeff.len() == pow2(z.len()),
        y as int == claim_at(coeff, z, ch, 0, q),
        yopt is None || yopt == Some(y),
        forall|k: int| 0 <= k < d ==> #[trigger] polys[k] == prover_poly(coeff, z, ch, yopt, q, k as nat),
    ensures
        tmp_at(polys, ch, y as int, q, i) == claim_at(coeff, z, ch, i, q),
        i < d ==> (yopt is None || prover_sum(coeff, z, ch, yopt, q, i) == Some(claim_at(coeff, z, ch, i, q) as u64)),
        i < d ==> (upoly_eval(polys[i as int], 0) + upoly_eval(polys[i as int], 1)) % q == claim_at(coeff, z, ch, i, q),
    decreases i,
{
    if i > 0 {
        let k = (i - 1) as nat;
        lemma_claims(coeff, z, ch, y, yopt, polys, d, q, k);
        lemma_round(coeff, z, ch, k, prover_sum(coeff, z, ch, yopt, q, k), q);
        assert(polys[k as int] == round_poly(coeff, z, chrev_at(ch, k), prover_sum(coeff, z, ch, yopt, q, k), q));
        let c = claim_at(coeff, z, ch, i, q);
        lemma_mod_bound(c, q);
        assert(tmp_at(polys, ch, y as int, q, i) == upoly_eval(polys[k as int], ch[k as int] as int) % q);
        if i < d {
            lemma_round(coeff, z, ch, i, prover_sum(coeff, z, ch, yopt, q, i), q);
            assert(polys[i as int] == round_poly(coeff, z, chrev_at(ch, i), prover_sum(coeff, z, ch, yopt, q, i), q));
            match yopt {
                Some(y0) => {
                    assert(prover_sum(coeff, z, ch, yopt, q, i) == Some(
                        (upoly_eval(prover_poly(coeff, z, ch, yopt, q, k), ch[k as int] as int) % q) as u64,
                    ));
                },
                None => {},
            }
        }
    } else {
        if d > 0 {
            lemma_round(coeff, z, ch, 0, prover_sum(coeff, z, ch, yopt, q, 0), q);
            assert(polys[0] == round_poly(coeff, z, chrev_at(ch, 0), prover_sum(coeff, z, ch, yopt, q, 0), q));
        }
    }
}

/// The coefficients after the challenges of the first `j` rounds: the
/// message of the codeword folded in round `j - 1`.
pub open spec fn msg_at(coeff: Seq<u64>, ch: Seq<u64>, j: nat, n: nat, q: int) -> Seq<u64> {
    restrict_coeffs(coeff, chrev_at(ch, j), (n - j) as nat, q)
}

/// Codewords hold residues modulo `q`.
proof fn lemma_fold_encode_range(code: RSFoldableCode, msg: Seq<u64>, dd: nat, i: int)
    requires
        code.fc_wf(),
        0 <= i < fold_encode(&code, msg, dd).len(),
    ensures
        0 <= fold_encode(&code, msg, dd)[i] < code.modulus(),
{
    code.lemma_fc_wf();
    let q = code.modulus() as int;
    if dd == 0 {
        lemma_mod_bound(sum(code.base_k(), |j: int| code.base_entry(i, j) * msg[j]), q);
    } else {
        let half = (msg.len() / 2) as int;
        let l = fold_encode(&code, msg.subrange(0, half), (dd - 1) as nat);
        let r = fold_encode(&code, msg.subrange(half, msg.len() as int), (dd - 1) as nat);
        let t = code.twiddle((dd - 1) as nat);
        if i < l.len() {
            lemma_mod_bound(l[i] + t[i] * r[i], q);
        } else {
            let j = i - l.len();
            lemma_mod_bound(l[j] - t[j] * r[j], q);
        }
    }
}

/// Folding a codeword at the challenge `c` gives the codeword of the folded
/// message `lo + c * hi`.
proof fn lemma_fold_value(code: RSFoldableCode, top: Seq<u64>, msg: Seq<u64>, dd: nat, c: u64, m: int)
    requires
        code.fc_wf(),
        code.depth() is Some,
        0 < dd <= code.depth().unwrap(),
        code.modulus() % 2 == 1,
        all_nonzero(code.twiddle((dd - 1) as nat)),
        msg.len() == code.base_k() * pow2(dd),
        forall|k: int| 0 <= k < level_len(code, dd) ==> #[trigger] top[k] as int == fold_encode(&code, msg, dd)[k],
        0 <= m < level_len(code, (dd - 1) as nat),
        c < code.modulus(),
    ensures
        ({
            let q = code.modulus() as int;
            let k = code.base_k() * pow2((dd - 1) as nat);
            let folded = lincomb(msg.subrange(0, k as int), msg.subrange(k as int, 2 * k as int), c as int, q);
            &&& 0 <= fold_encode(&code, folded, (dd - 1) as nat)[m] < q
            &&& fold_pos(q, code.twiddle((dd - 1) as nat), top, level_len(code, (dd - 1) as nat) as int, c as int, m)
                == fold_encode(&code, folded, (dd - 1) as nat)[m]
        }),
{
    code.lemma_fc_wf();
    code.lemma_base_code();
    code.base_code().gen().lemma_wf();
    let q = code.modulus() as int;
    let k = code.base_k() * pow2((dd - 1) as nat);
    let n = level_len(code, (dd - 1) as nat);
    let folded = lincomb(msg.subrange(0, k as int), msg.subrange(k as int, 2 * k as int), c as int, q);
    lemma_fold_encode_foldable(&code, msg, c as int, dd, m);
    let t = code.twiddle((dd - 1) as nat);
    let tm = t[m] as int;
    assert(t.len() == n);
    assert(tm != 0);
    assert(tm < q);
    lemma_twice_nonzero(tm, q);
    lemma_pow2_unfold(dd);
    assert(level_len(code, dd) == 2 * n) by {
        lemma_mul_is_associative(code.base_n() as int, 2, pow2((dd - 1) as nat) as int);
        lemma_mul_is_commutative(code.base_n() as int, 2);
        lemma_mul_is_associative(2, code.base_n() as int, pow2((dd - 1) as nat) as int);
    }
    assert(top[m] as int == fold_encode(&code, msg, dd)[m]);
    assert(top[m + n] as int == fold_encode(&code, msg, dd)[m + n]);
    lemma_fold_encode_len(&code, folded, (dd - 1) as nat);
    lemma_fold_encode_range(code, folded, (dd - 1) as nat, m);
    let f = fold_encode(&code, folded, (dd - 1) as nat)[m];
    let num = ((c + tm) * top[m] + (tm - c) * top[m + n]) % q;
    // f * (2 t) == num
    lemma_mul_mod_noop_right(f, 2 * tm, q);
    lemma_mul_is_commutative(f, 2 * tm);
    lemma_mod_twice((c + tm) * top[m] + (tm - c) * top[m + n], q);
    lemma_mod_twice(2 * tm, q);
    lemma_fdiv_prime(num, (2 * tm) % q, q, f);
}

/// The codeword the prover sends in round `i` is the codeword of the message
/// after the first `i + 1` challenges, one level down.
pub proof fn lemma_prover_codes(code: RSFoldableCode, com: Seq<u64>, coeff: Seq<u64>, ch: Seq<u64>, n: nat, i: nat)
    requires
        code.fc_wf(),
        code.depth() is Some,
        i < code.depth().unwrap() <= n,
        code.base_k() == pow2((n - code.depth().unwrap()) as nat),
        code.modulus() % 2 == 1,
        forall|dind: nat| dind < code.depth().unwrap() ==> all_nonzero(#[trigger] code.twiddle(dind)),
        coeff.len() == pow2(n),
        all_canonical(coeff, code.modulus()),
        ch.len() == code.depth().unwrap(),
        all_canonical(ch, code.modulus()),
        com.len() == level_len(code, code.depth().unwrap()),
        forall|k: int| 0 <= k < com.len() ==> #[trigger] com[k] as int == fold_encode(&code, coeff, code.depth().unwrap())[k],
    ensures
        ({
            let d = code.depth().unwrap();
            let dind = (d - 1 - i) as nat;
            let pc = prover_code(code, com, ch, i);
            let msg = msg_at(coeff, ch, i + 1, n, code.modulus() as int);
            &&& pc.len() == level_len(code, dind)
            &&& msg.len() == code.base_k() * pow2(dind)
            &&& forall|k: int| 0 <= k < pc.len() ==> #[trigger] pc[k] as int == fold_encode(&code, msg, dind)[k]
            &&& forall|k: int| 0 <= k < pc.len() ==> #[trigger] pc[k] as int == fold_pos(
                code.modulus() as int,
                code.twiddle(dind),
                top_at(com, prover_codes_seq(code, com, ch, i), i as int),
                level_len(code, dind) as int,
                ch[i as int] as int,
                k,
            )
        }),
    decreases i,
{
    code.lemma_fc_wf();
    let d = code.depth().unwrap();
    let q = code.modulus() as int;
    let dd = (d - i) as nat;
    let dind = (dd - 1) as nat;
    let kappa = (n - d) as nat;
    // the message and the codeword going into round i
    let msg = msg_at(coeff, ch, i, n, q);
    let top = if i == 0 { com } else { prover_code(code, com, ch, (i - 1) as nat) };
    lemma_pow2_split(kappa, dd);
    assert(kappa + dd == (n - i) as nat);
    lemma_mul_is_commutative(pow2(kappa) as int, pow2(dd) as int);
    assert(msg.len() == code.base_k() * pow2(dd));
    if i == 0 {
        lemma_restrict_none(coeff, n, q);
        assert(chrev_at(ch, 0) =~= Seq::<u64>::empty());
        assert(msg == coeff);
    } else {
        lemma_prover_codes(code, com, coeff, ch, n, (i - 1) as nat);
    }
    assert(top_at(com, prover_codes_seq(code, com, ch, i), i as int) == top);
    assert forall|k: int| 0 <= k < level_len(code, dd) implies #[trigger] top[k] as int == fold_encode(&code, msg, dd)[k] by {}
    // the folded message is the message after one more challenge
    let k = code.base_k() * pow2(dind);
    lemma_pow2_split(kappa, dind);
    assert(kappa + dind == (n - i - 1) as nat);
    lemma_mul_is_commutative(pow2(kappa) as int, pow2(dind) as int);
    lemma_restrict_step(coeff, chrev_at(ch, i), ch[i as int], (n - i) as nat, q);
    lemma_chrev_step(ch, i);
    assert(k == pow2((n - i - 1) as nat));
    let folded = lincomb(msg.subrange(0, k as int), msg.subrange(k as int, 2 * k as int), ch[i as int] as int, q);
    assert(msg_at(coeff, ch, i + 1, n, q) == folded);
    let pc = prover_code(code, com, ch, i);
    assert forall|m: int| 0 <= m < pc.len() implies #[trigger] pc[m] as int == fold_encode(&code, folded, dind)[m] && pc[m] as int == fold_pos(
        q,
        code.twiddle(dind),
        top,
        level_len(code, dind) as int,
        ch[i as int] as int,
        m,
    ) by {
        lemma_fold_value(code, top, msg, dd, ch[i as int], m);
    }
}

/// The codewords the prover sends in the first `i` rounds.
pub open spec fn prover_codes_seq(code: RSFoldableCode, com: Seq<u64>, ch: Seq<u64>, i: nat) -> Seq<Seq<u64>> {
    Seq::new(i, |k: int| prover_code(code, com, ch, k as nat))
}

/// The spot-check positions of round `i` lie in the codeword folded in that
/// round.
proof fn lemma_mus_range(code: RSFoldableCode, mus: Seq<usize>, d: nat, i: nat)
    requires
        i < d,
        forall|j: int| 0 <= j < mus.len() ==> #[trigger] mus[j] < level_len(code, (d - 1) as nat),
    ensures
        mus_at(code, mus, d, i).len() == mus.len(),
        forall|j: int| 0 <= j < mus.len() ==> #[trigger] mus_at(code, mus, d, i)[j] < level_len(code, (d - 1 - i) as nat),
    decreases i,
{
    if i > 0 {
        lemma_mus_range(code, mus, d, (i - 1) as nat);
        lemma_fold_position(code, mus_at(code, mus, d, (i - 1) as nat), (d - i) as nat);
    }
}

/// The first claim is the value of the polynomial at `z`.
proof fn lemma_first_claim(coeff: Seq<u64>, z: Seq<u64>, ch: Seq<u64>, q: int)
    requires
        0 < q,
        coeff.len() == pow2(z.len()),
        all_canonical(coeff, q as nat),
    ensures
        claim_at(coeff, z, ch, 0, q) == coeff_eval(coeff, z) % q,
{
    let n = z.len();
    lemma_restrict_none(coeff, n, q);
    assert(chrev_at(ch, 0) =~= Seq::<u64>::empty());
    assert(z.subrange(0, n as int) =~= z);
    assert(eq_eval(z.subrange(n as int, n as int), Seq::<u64>::empty()) == 1);
    lemma_mul_basics(coeff_eval(coeff, z));
}

/// The verifier's last check holds for the prover's last codeword and
/// coefficients, given the true last claim (and, for base messages of length
/// one, a nonzero `eq(z, challenges)`).
proof fn lemma_final(code: RSFoldableCode, coeff: Seq<u64>, z: Seq<u64>, ch: Seq<u64>, lastcode: Seq<u64>, last: Seq<u64>, tmp: int)
    requires
        code.fc_wf(),
        code.depth() is Some,
        0 < code.depth().unwrap() <= z.len(),
        code.base_k() == pow2((z.len() - code.depth().unwrap()) as nat),
        ch.len() == code.depth().unwrap(),
        coeff.len() == pow2(z.len()),
        lastcode.len() == code.base_n(),
        forall|k: int|
            0 <= k < lastcode.len() ==> #[trigger] lastcode[k] as int == fold_encode(
                &code,
                msg_at(coeff, ch, code.depth().unwrap(), z.len(), code.modulus() as int),
                0,
            )[k],
        last == if code.base_k() > 1 {
            restrict_coeffs(coeff, ch.reverse(), (z.len() - code.depth().unwrap()) as nat, code.modulus() as int)
        } else {
            Seq::empty()
        },
        tmp == claim_at(coeff, z, ch, code.depth().unwrap(), code.modulus() as int),
        code.base_k() == 1 ==> eq_eval(z, ch.reverse()) % (code.modulus() as int) != 0,
    ensures
        final_ok(code, z, lastcode, last, ch.reverse(), tmp),
{
    code.lemma_fc_wf();
    code.lemma_base_code();
    code.base_code().gen().lemma_wf();
    let q = code.modulus() as int;
    let n = z.len();
    let d = code.depth().unwrap();
    let kappa = (n - d) as nat;
    let chrev = ch.reverse();
    assert(chrev_at(ch, d) =~= chrev);
    let md = msg_at(coeff, ch, d, n, q);
    assert(md.len() == pow2(kappa));
    let zlo = z.subrange(0, kappa as int);
    let zhi = z.subrange(kappa as int, n as int);
    let ehi = eq_eval(zhi, chrev);
    assert(tmp == (ehi * coeff_eval(md, zlo)) % q);
    if code.base_k() == 1 {
        lemma_pow2_pos(kappa);
        if kappa > 0 {
            lemma_pow2_strictly_increases(0, kappa);
            lemma2_to64();
        }
        assert(kappa == 0);
        assert(zhi =~= z);
        assert(md.len() == 1);
        let v = md[0];
        let f = |k: int| md[k] * monomial(zlo, k as nat);
        assert(monomial(zlo, 0) == 1);
        assert(sum(1, f) == sum(0, f) + f(0));
        lemma_mul_basics(v as int);
        assert(coeff_eval(md, zlo) == v);
        let e = ehi % q;
        lemma_mod_bound(coeff_eval(fold_column(coeff, pow2(kappa), 0), chrev), q);
        assert(v < q);
        lemma_mul_mod_noop_right(v as int, ehi, q);
        lemma_mul_is_commutative(v as int, ehi);
        lemma_mod_twice(ehi * v, q);
        lemma_mod_twice(ehi, q);
        lemma_fdiv_prime(tmp, e, q, v as int);
        assert(seq![fdiv(tmp, e, q) as u64] =~= md);
    } else {
        assert(last == md);
        let eqv = Seq::new(pow2(kappa), |k: int| (eq_point(zlo, k as nat) % q) as u64);
        let ep = eq_points(zlo);
        assert(ints(eqv) =~= reduce(ep, q)) by {
            assert forall|k: int| 0 <= k < pow2(kappa) implies #[trigger] ints(eqv)[k] == reduce(ep, q)[k] by {
                lemma_mod_bound(eq_point(zlo, k as nat), q);
            }
        }
        lemma_transposed_mod(ep, kappa, kappa, q);
        lemma_transposed_eq(zlo);
        lemma_transposed_len(ints(eqv), kappa);
        let scal = reduce(transposed_layers(ints(eqv), kappa), q);
        assert(scal.len() == pow2(kappa));
        assert forall|k: int| 0 <= k < pow2(kappa) implies #[trigger] scal[k] == monomial(zlo, k as nat) % q by {
            assert(reduce(transposed_layers(reduce(ep, q), kappa), q)[k] == reduce(transposed_layers(ep, kappa), q)[k]);
        }
        let nn = pow2(kappa);
        let f1 = |i: int| last[i] * scal[i];
        let f2 = |i: int| last[i] * monomial(zlo, i as nat);
        assert forall|i: int| 0 <= i < nn implies #[trigger] (f1(i) % q) == f2(i) % q by {
            lemma_mul_mod_noop_right(last[i] as int, monomial(zlo, i as nat), q);
        }
        lemma_sum_congruent(nn, q, f1, f2);
        let ev = sum(nn, f1) % q;
        assert(ev == coeff_eval(md, zlo) % q);
        lemma_mul_mod_noop_general(coeff_eval(md, zlo), ehi, q);
        lemma_mul_is_commutative(coeff_eval(md, zlo), ehi);
        lemma_mul_is_commutative(ev, ehi % q);
    }
}

/// Completeness of the BaseFold evaluation proofs: for the codeword `com`
/// of the polynomial with coefficients `coeff`, its value `y` at `z`, and
/// the evaluation proof the prover computes for the challenges `ch` (with
/// the claimed sums carried from `y`, or computed from the polynomial
/// alone), the verifier accepts for the same challenges and any spot-check
/// positions in the first folded codeword. Where the base messages have
/// length one, the last check divides by `eq(z, challenges)`, which must
/// not vanish.
pub proof fn lemma_basefold_complete(
    code: RSFoldableCode,
    com: Seq<u64>,
    coeff: Seq<u64>,
    z: Seq<u64>,
    y: u64,
    yopt: Option<u64>,
    ch: Seq<u64>,
    mus: Seq<usize>,
    codes: Seq<Seq<u64>>,
    polys: Seq<Seq<u64>>,
    last: Seq<u64>,
)
    requires
        code.fc_wf(),
        code.depth() is Some,
        0 < code.depth().unwrap() <= z.len(),
        code.base_k() == pow2((z.len() - code.depth().unwrap()) as nat),
        code.modulus() % 2 == 1,
        forall|dind: nat| dind < code.depth().unwrap() ==> all_nonzero(#[trigger] code.twiddle(dind)),
        coeff.len() == pow2(z.len()),
        all_canonical(coeff, code.modulus()),
        all_canonical(z, code.modulus()),
        com.len() == level_len(code, code.depth().unwrap()),
        ints(com) == fold_encode(&code, coeff, code.depth().unwrap()),
        y as int == coeff_eval(coeff, z) % (code.modulus() as int),
        yopt is None || yopt == Some(y),
        valid_challenges(code, ch),
        forall|j: int| 0 <= j < mus.len() ==> #[trigger] mus[j] < level_len(code, (code.depth().unwrap() - 1) as nat),
        eval_proof(code, com, coeff, z, yopt, ch, codes, polys, last),
        code.base_k() == 1 ==> eq_eval(z, ch.reverse()) % (code.modulus() as int) != 0,
    ensures
        basefold_accepts(code, com, z, y as int, codes, polys, last, ch, mus),
{
    code.lemma_fc_wf();
    let q = code.modulus() as int;
    let d = code.depth().unwrap();
    let n = z.len();
    assert(all_canonical(ch, q as nat));
    assert forall|k: int| 0 <= k < com.len() implies #[trigger] com[k] as int == fold_encode(&code, coeff, d)[k] by {
        assert(ints(com)[k] == com[k] as int);
    }
    lemma_first_claim(coeff, z, ch, q);
    assert forall|i: int| 0 <= i < d implies #[trigger] round_ok(
        code,
        (d - 1 - i) as nat,
        top_at(com, codes, i),
        codes[i],
        polys[i],
        tmp_at(polys, ch, y as int, q, i as nat),
        ch[i] as int,
        mus_at(code, mus, d, i as nat),
    ) by {
        let dind = (d - 1 - i) as nat;
        lemma_prover_codes(code, com, coeff, ch, n, i as nat);
        lemma_claims(coeff, z, ch, y, yopt, polys, d, q, i as nat);
        lemma_mus_range(code, mus, d, i as nat);
        assert(top_at(com, prover_codes_seq(code, com, ch, i as nat), i) == top_at(com, codes, i)) by {
            if i > 0 {
                assert(prover_codes_seq(code, com, ch, i as nat)[i - 1] == prover_code(code, com, ch, (i - 1) as nat));
            }
        }
        let ms = mus_at(code, mus, d, i as nat);
        assert forall|j: int| 0 <= j < ms.len() implies #[trigger] codes[i][ms[j] as int] as int == fold_pos(
            q,
            code.twiddle(dind),
            top_at(com, codes, i),
            level_len(code, dind) as int,
            ch[i] as int,
            ms[j] as int,
        ) by {}
        if dind == 0 {
            code.lemma_base_code();
            let msg = msg_at(coeff, ch, (i + 1) as nat, n, q);
            let x = Seq::new(msg.len(), |j: int| msg[j] as int);
            let gen = code.base_code().gen();
            lemma_pow2_0_basics();
            lemma_mul_basics(code.base_n() as int);
            assert forall|r: int| 0 <= r < gen.nrows() implies #[trigger] codes[i][r] as int == sum(gen.ncols(), |j: int| gen.entry(r, j) * x[j]) % (gen.modulus() as int) by {
                assert(codes[i][r] as int == fold_encode(&code, msg, 0)[r]);
                assert(fold_encode(&code, msg, 0)[r] == sum(code.base_k(), |j: int| code.base_entry(r, j) * msg[j]) % q);
                lemma_sum_ext(code.base_k(), |j: int| code.base_entry(r, j) * msg[j], |j: int| gen.entry(r, j) * x[j]);
            }
            assert(encodes(&gen, x, codes[i]));
        }
    }
    lemma_prover_codes(code, com, coeff, ch, n, (d - 1) as nat);
    lemma_claims(coeff, z, ch, y, yopt, polys, d, q, d);
    lemma_pow2_0_basics();
    lemma_mul_basics(code.base_n() as int);
    lemma_pow2_pos((n - d) as nat);
    assert(codes[d - 1].len() == code.base_n());
    lemma_final(code, coeff, z, ch, codes[d - 1], last, tmp_at(polys, ch, y as int, q, d));
}

/// `pow2(0) == 1`.
proof fn lemma_pow2_0_basics()
    ensures
        pow2(0) == 1,
{
    lemma2_to64();
}

/// With the true claim as its claimed sum, the round polynomial is the one
/// computed from the polynomial alone.
pub proof fn lemma_round_fast_slow(coeff: Seq<u64>, z: Seq<u64>, ch: Seq<u64>, i: nat, q: int)
    requires
        0 < q <= u64::MAX,
        i < z.len(),
        i <= ch.len(),
        coeff.len() == pow2(z.len()),
    ensures
        round_poly(coeff, z, chrev_at(ch, i), Some(claim_at(coeff, z, ch, i, q) as u64), q) == round_poly(
            coeff,
            z,
            chrev_at(ch, i),
            None,
            q,
        ),
{
    let n = z.len();
    let m = (n - i) as nat;
    let r = chrev_at(ch, i);
    let claim = claim_at(coeff, z, ch, i, q);
    let g = restrict_coeffs(coeff, r, m, q);
    let half = pow2((m - 1) as nat);
    lemma_pow2_unfold(m);
    let zlo = z.subrange(0, m - 1);
    let zj = z[m - 1] as int;
    let ee = eq_eval(z.subrange(m as int, n as int), r);
    let e = ee % q;
    let aa = coeff_eval(g.subrange(0, half as int), zlo);
    let bb = coeff_eval(g.subrange(half as int, 2 * half as int), zlo);
    let a = aa % q;
    let b = bb % q;
    let (t0s, t1s) = round_line(coeff, z, r, Some(claim as u64), q);
    let (t0n, t1n) = round_line(coeff, z, r, None, q);
    assert(t1s == t1n);
    let t1 = t1n;
    lemma_mod_bound(claim, q);
    lemma_small_mod(claim as nat, q as nat);
    // the claim is e (a + zj b)
    lemma_coeff_eval_top(g, zlo, z[m - 1]);
    assert(zlo + seq![z[m - 1]] =~= z.subrange(0, m as int));
    lemma_mod_lin(aa, bb, zj, q);
    lemma_mod_lin(a, b, zj, q);
    lemma_mod_twice(aa, q);
    lemma_mod_twice(bb, q);
    lemma_mod_twice(ee, q);
    lemma_mul_cong(ee, aa + zj * bb, e, a + zj * b, q);
    assert(claim == (e * (a + zj * b)) % q);
    lemma_mul_is_distributive_add(e, a, zj * b);
    lemma_mul_is_associative(e, zj, b);
    lemma_mul_is_commutative(e, zj);
    lemma_mul_is_associative(zj, e, b);
    lemma_mul_mod_noop_right(zj, e * b, q);
    lemma_mul_is_commutative(t1, zj);
    lemma_sub_mod_noop(claim, t1 * zj, q);
    lemma_sub_mod_noop(e * a + zj * (e * b), zj * (e * b), q);
    lemma_mod_twice(e * (a + zj * b), q);
    assert(t0s == t0n);
}

/// The sumcheck sum of a round: the polynomial with coefficients `coeff`
/// times `eq(z, .)`, with the round's variable at `c` and the variables above
/// it fixed to `r`, summed over the hypercube of the variables below.
pub open spec fn round_sum(coeff: Seq<u64>, z: Seq<u64>, r: Seq<u64>, c: u64) -> int {
    let m = (z.len() - r.len()) as nat;
    sum(
        pow2((m - 1) as nat),
        |x: int| round_term(coeff, z, hypercube_point(x as nat, (m - 1) as nat) + seq![c] + r),
    )
}

/// One term of the sumcheck sum: the polynomial times `eq(z, .)` at `pt`.
pub open spec fn round_term(coeff: Seq<u64>, z: Seq<u64>, pt: Seq<u64>) -> int {
    coeff_eval(coeff, pt) * eq_eval(z, pt)
}

/// The round polynomial computed from the polynomial alone is the sumcheck
/// polynomial of the round: its value at any `c` is the sum over the
/// hypercube of the variables below the round's of the polynomial times
/// `eq(z, .)`, with the round's variable at `c` and those above at `r`.
pub proof fn lemma_round_poly_sum(coeff: Seq<u64>, z: Seq<u64>, r: Seq<u64>, c: u64, q: int)
    requires
        0 < q <= u64::MAX,
        r.len() < z.len(),
        coeff.len() == pow2(z.len()),
    ensures
        upoly_eval(round_poly(coeff, z, r, None, q), c as int) % q == round_sum(coeff, z, r, c) % q,
{
    let n = z.len();
    let m = (n - r.len()) as nat;
    let m1 = (m - 1) as nat;
    let g = restrict_coeffs(coeff, r, m, q);
    let half = pow2(m1);
    lemma_pow2_unfold(m);
    let zlo = z.subrange(0, m1 as int);
    let zj = z[m - 1] as int;
    let zhi = z.subrange(m as int, n as int);
    let ee = eq_eval(zhi, r);
    let e = ee % q;
    let aa = coeff_eval(g.subrange(0, half as int), zlo);
    let bb = coeff_eval(g.subrange(half as int, 2 * half as int), zlo);
    let a = aa % q;
    let b = bb % q;
    let (t0, t1) = round_line(coeff, z, r, None, q);
    let h = round_poly(coeff, z, r, None, q);
    let ci = c as int;
    let lc = zj * ci + (1 - zj) * (1 - ci);
    // the value of the round polynomial: lc e (a + c b)
    lemma_upoly3(h, ci);
    lemma_mod_bound((1 - zj) * t0, q);
    lemma_mod_bound((2 * zj - 1) * t0 + (1 - zj) * t1, q);
    lemma_mod_bound((2 * zj - 1) * t1, q);
    lemma_mod_bound(e * a, q);
    lemma_mod_bound(e * b, q);
    lemma_round_poly_value(t0, t1, zj, ci, q);
    lemma_eq_line(zj, ci);
    assert((t0 + t1 * ci) % q == (e * (a + ci * b)) % q) by {
        lemma_mod_lin(t0, t1, ci, q);
        lemma_mul_is_commutative(t1, ci);
        lemma_mul_mod_noop_right(ci, t1, q);
        lemma_mul_mod_noop_right(ci, e * b, q);
        lemma_add_mod_noop(t0, ci * t1, q);
        lemma_add_mod_noop(e * a, ci * (e * b), q);
        lemma_mod_twice(e * a, q);
        lemma_mul_is_distributive_add(e, a, ci * b);
        lemma_mul_is_associative(e, ci, b);
        lemma_mul_is_commutative(e, ci);
        lemma_mul_is_associative(ci, e, b);
    }
    assert((e * (a + ci * b)) % q == (ee * (aa + ci * bb)) % q) by {
        lemma_mod_lin(aa, bb, ci, q);
        lemma_mod_lin(a, b, ci, q);
        lemma_mod_twice(aa, q);
        lemma_mod_twice(bb, q);
        lemma_mod_twice(ee, q);
        lemma_mul_cong(e, a + ci * b, ee, aa + ci * bb, q);
    }
    lemma_mul_cong(lc, t0 + t1 * ci, lc, ee * (aa + ci * bb), q);
    // the coefficients with the round's variable at c too
    let cr = seq![c] + r;
    let g2 = restrict_coeffs(coeff, cr, m1, q);
    lemma_restrict_step(coeff, r, c, m, q);
    lemma_coeff_eval_lincomb(g.subrange(0, half as int), g.subrange(half as int, 2 * half as int), ci, zlo, q);
    let v2 = coeff_eval(g2, zlo);
    assert(v2 % q == (aa + ci * bb) % q);
    lemma_pow2_split(m1, cr.len());
    assert(m1 + cr.len() == n);
    // the terms of the sum
    let k = lc * ee;
    let term = |x: int| round_term(coeff, z, hypercube_point(x as nat, m1) + seq![c] + r);
    let simple = |x: int| coeff_eval(g2, hypercube_point(x as nat, m1)) * eq_point(zlo, x as nat);
    let scaled = |x: int| k * simple(x);
    assert(z =~= zlo + (seq![z[m - 1]] + zhi));
    assert forall|x: int| 0 <= x < pow2(m1) implies #[trigger] (term(x) % q) == scaled(x) % q by {
        let hp = hypercube_point(x as nat, m1);
        let pt = hp + seq![c] + r;
        assert(pt =~= hp + cr);
        lemma_restrict_eval(coeff, hp, cr, q);
        lemma_eq_eval_concat(zlo, seq![z[m - 1]] + zhi, hp, cr);
        lemma_eq_eval_front(z[m - 1], zhi, c, r);
        lemma_eq_eval_hypercube(zlo, x as nat);
        let p1 = coeff_eval(coeff, pt);
        let p2 = coeff_eval(g2, hp);
        let ep = eq_point(zlo, x as nat);
        assert(eq_eval(z, pt) == ep * (lc * ee));
        lemma_mul_cong(p1, ep * k, p2, ep * k, q);
        assert(p2 * (ep * k) == k * (p2 * ep)) by (nonlinear_arith);
    }
    lemma_sum_congruent(pow2(m1), q, term, scaled);
    lemma_sum_scale(pow2(m1), k, simple);
    lemma_eq_weighted_sum(g2, zlo);
    assert(sum(pow2(m1), simple) == v2);
    // both sides are lc ee (aa + c bb)
    lemma_mul_cong(k, v2, k, aa + ci * bb, q);
    lemma_mul_is_associative(lc, ee, aa + ci * bb);
}

/// With the true value `y` of the polynomial at `z`, the prover that carries
/// the claimed sums from `y` (`eval_fast`) computes the same evaluation proof
/// as the prover that computes each round from the polynomial alone (`eval`).
pub proof fn lemma_fast_matches_plain(
    code: RSFoldableCode,
    com: Seq<u64>,
    coeff: Seq<u64>,
    z: Seq<u64>,
    y: u64,
    ch: Seq<u64>,
    codes: Seq<Seq<u64>>,
    polys: Seq<Seq<u64>>,
    last: Seq<u64>,
)
    requires
        code.fc_wf(),
        code.depth() is Some,
        0 < z.len(),
        code.depth().unwrap() <= z.len(),
        ch.len() == code.depth().unwrap(),
        coeff.len() == pow2(z.len()),
        all_canonical(coeff, code.modulus()),
        y as int == coeff_eval(coeff, z) % (code.modulus() as int),
    ensures
        eval_proof(code, com, coeff, z, Some(y), ch, codes, polys, last) == eval_proof(code, com, coeff, z, None, ch, codes, polys, last),
{
    code.lemma_fc_wf();
    let q = code.modulus() as int;
    let d = code.depth().unwrap();
    let np = if d == 0 { 1nat } else { d };
    lemma_first_claim(coeff, z, ch, q);
    assert forall|i: int| 0 <= i < np implies #[trigger] prover_poly(coeff, z, ch, Some(y), q, i as nat) == prover_poly(
        coeff,
        z,
        ch,
        None,
        q,
        i as nat,
    ) by {
        let ps = Seq::new(np, |k: int| prover_poly(coeff, z, ch, Some(y), q, k as nat));
        if i == 0 {
            assert(prover_sum(coeff, z, ch, Some(y), q, 0) == Some(y));
            lemma_mod_bound(coeff_eval(coeff, z), q);
            assert(claim_at(coeff, z, ch, 0, q) as u64 == y);
        } else {
            lemma_claims(coeff, z, ch, y, Some(y), ps, d, q, i as nat);
        }
        lemma_round_fast_slow(coeff, z, ch, i as nat, q);
    }
}

} // verus!

verus! {

/// Soundness of the first round: for the evaluation proof computed from the
/// polynomial alone (as `eval` does), the first round polynomial sums to the
/// value of the polynomial at `z`, so the verifier rejects any claimed value
/// `y` that differs from it, whatever the challenges and spot-check positions.
pub proof fn lemma_wrong_value_rejected(
    code: RSFoldableCode,
    com: Seq<u64>,
    coeff: Seq<u64>,
    z: Seq<u64>,
    y: u64,
    ch: Seq<u64>,
    mus: Seq<usize>,
    codes: Seq<Seq<u64>>,
    polys: Seq<Seq<u64>>,
    last: Seq<u64>,
)
    requires
        code.fc_wf(),
        code.depth() is Some,
        0 < code.depth().unwrap() <= z.len(),
        coeff.len() == pow2(z.len()),
        all_canonical(coeff, code.modulus()),
        ch.len() == code.depth().unwrap(),
        eval_proof(code, com, coeff, z, None, ch, codes, polys, last),
        y as int != coeff_eval(coeff, z) % (code.modulus() as int),
    ensures
        !basefold_accepts(code, com, z, y as int, codes, polys, last, ch, mus),
{
    let q = code.modulus() as int;
    let d = code.depth().unwrap();
    code.lemma_fc_wf();
    lemma_round(coeff, z, ch, 0, None, q);
    lemma_first_claim(coeff, z, ch, q);
    assert(ch.subrange(0, 0).reverse() =~= chrev_at(ch, 0));
    assert(polys[0] == round_poly(coeff, z, chrev_at(ch, 0), None, q));
    if basefold_accepts(code, com, z, y as int, codes, polys, last, ch, mus) {
        assert(round_ok(
            code,
            (d - 1) as nat,
            top_at(com, codes, 0),
            codes[0],
            polys[0],
            tmp_at(polys, ch, y as int, q, 0),
            ch[0] as int,
            mus_at(code, mus, d, 0),
        ));
        assert(false);
    }
}

} // verus!

verus! {

/// `x % q == y % q` exactly when `(x - y) % q == 0`.
proof fn lemma_cong_diff(x: int, y: int, q: int)
    requires
        q > 0,
        x % q == y % q,
    ensures
        (x - y) % q == 0,
{
    lemma_sub_mod_noop(x, y, q);
    lemma_small_mod(0, q as nat);
}

/// The values at `x` of the round polynomial: `((1 - z_j) + (2 z_j - 1) x)(t0 + t1 x)`.
proof fn lemma_round_poly_at(coeff: Seq<u64>, z: Seq<u64>, r: Seq<u64>, sum: Option<u64>, q: int, x: int)
    requires
        0 < q <= u64::MAX,
        r.len() < z.len(),
    ensures
        upoly_eval(round_poly(coeff, z, r, sum, q), x) % q == ((
            (1 - z[z.len() - r.len() - 1]) + (2 * z[z.len() - r.len() - 1] - 1) * x) * (round_line(coeff, z, r, sum, q).0
            + round_line(coeff, z, r, sum, q).1 * x)) % q,
{
    let zj = z[z.len() - r.len() - 1] as int;
    let (t0, t1) = round_line(coeff, z, r, sum, q);
    let h = round_poly(coeff, z, r, sum, q);
    lemma_upoly3(h, x);
    lemma_mod_bound((1 - zj) * t0, q);
    lemma_mod_bound((2 * zj - 1) * t0 + (1 - zj) * t1, q);
    lemma_mod_bound((2 * zj - 1) * t1, q);
    lemma_round_poly_value(t0, t1, zj, x, q);
}

/// A wrong claimed sum shifts the next claim: the round polynomial computed
/// with the claimed sum `s` takes, at the round's challenge `c`, the true next
/// claim plus `(s - claim) * (z_j c + (1 - z_j)(1 - c))`, modulo `q`.
proof fn lemma_round_shift(coeff: Seq<u64>, z: Seq<u64>, ch: Seq<u64>, i: nat, s: u64, q: int)
    requires
        0 < q <= u64::MAX,
        i < z.len(),
        i < ch.len(),
        coeff.len() == pow2(z.len()),
        s < q,
    ensures
        ({
            let zj = z[z.len() - i - 1] as int;
            let c = ch[i as int] as int;
            let lc = zj * c + (1 - zj) * (1 - c);
            (upoly_eval(round_poly(coeff, z, chrev_at(ch, i), Some(s), q), c) % q - claim_at(coeff, z, ch, i + 1, q)
                - (s - claim_at(coeff, z, ch, i, q)) * lc) % q == 0
        }),
{
    let n = z.len();
    let r = chrev_at(ch, i);
    let zj = z[n - i - 1] as int;
    let c = ch[i as int] as int;
    let lc = zj * c + (1 - zj) * (1 - c);
    let c0 = claim_at(coeff, z, ch, i, q);
    lemma_mod_bound(
        (eq_eval(z.subrange((n - i) as int, n as int), r) * coeff_eval(
            restrict_coeffs(coeff, r, (n - i) as nat, q),
            z.subrange(0, (n - i) as int),
        )),
        q,
    );
    assert(0 <= c0 < q);
    lemma_round(coeff, z, ch, i, Some(c0 as u64), q);
    let hs = round_poly(coeff, z, r, Some(s), q);
    let hc = round_poly(coeff, z, r, Some(c0 as u64), q);
    lemma_round_poly_at(coeff, z, r, Some(s), q, c);
    lemma_round_poly_at(coeff, z, r, Some(c0 as u64), q, c);
    let (ts, t1) = round_line(coeff, z, r, Some(s), q);
    let (tc, t1c) = round_line(coeff, z, r, Some(c0 as u64), q);
    assert(t1c == t1);
    lemma_eq_line(zj, c);
    let lp = (1 - zj) + (2 * zj - 1) * c;
    assert(lp == lc);
    let a = lp * (ts + t1 * c);
    let b = lp * (tc + t1 * c);
    // a - b == lc (ts - tc)
    assert(a - b == lp * (ts - tc)) by {
        lemma_mul_is_distributive_sub(lp, ts + t1 * c, tc + t1 * c);
    }
    // ts - tc == s - c0 modulo q
    assert((ts - tc) % q == (s - c0) % q) by {
        lemma_sub_mod_noop(s - t1 * zj, c0 - t1 * zj, q);
    }
    assert((lp * (ts - tc)) % q == (lp * (s - c0)) % q) by {
        lemma_mul_mod_noop_right(lp, ts - tc, q);
        lemma_mul_mod_noop_right(lp, s - c0, q);
    }
    let vs = upoly_eval(hs, c) % q;
    let vc = upoly_eval(hc, c) % q;
    assert(vs == a % q);
    assert(vc == b % q);
    assert(vc == claim_at(coeff, z, ch, i + 1, q));
    assert((vs - vc) % q == (a - b) % q) by {
        lemma_sub_mod_noop(a, b, q);
    }
    lemma_mul_is_commutative(s - c0, lc);
    lemma_cong_diff(vs - vc, (s - c0) * lc, q);
}

/// The claims that the verifier carries from a claimed value `y`, for the
/// round polynomials computed with claimed sums carried from `y` (as
/// `eval_fast` computes them): before round `i`, the carried claim is the true
/// claim plus `(y - v) * eq(z_top, challenges)`, modulo `q`, where `v` is the
/// value of the polynomial at `z` and `z_top` the last `i` coordinates of `z`.
proof fn lemma_fast_claims_shift(coeff: Seq<u64>, z: Seq<u64>, ch: Seq<u64>, y: u64, polys: Seq<Seq<u64>>, d: nat, q: int, i: nat)
    requires
        0 < q <= u64::MAX,
        d <= z.len(),
        ch.len() == d,
        i <= d,
        polys.len() >= d,
        coeff.len() == pow2(z.len()),
        all_canonical(coeff, q as nat),
        y < q,
        forall|k: int| 0 <= k < d ==> #[trigger] polys[k] == prover_poly(coeff, z, ch, Some(y), q, k as nat),
    ensures
        0 <= tmp_at(polys, ch, y as int, q, i) < q,
        (tmp_at(polys, ch, y as int, q, i) - claim_at(coeff, z, ch, i, q) - (y - coeff_eval(coeff, z) % q) * eq_eval(
            z.subrange(z.len() - i, z.len() as int),
            chrev_at(ch, i),
        )) % q == 0,
    decreases i,
{
    let n = z.len();
    let v = coeff_eval(coeff, z) % q;
    if i == 0 {
        lemma_first_claim(coeff, z, ch, q);
        assert(chrev_at(ch, 0) =~= Seq::<u64>::empty());
        assert(z.subrange(n as int, n as int) =~= Seq::<u64>::empty());
        assert(eq_eval(Seq::<u64>::empty(), Seq::<u64>::empty()) == 1);
        lemma_mul_basics(y - v);
        lemma_small_mod(0, q as nat);
    } else {
        let k = (i - 1) as nat;
        lemma_fast_claims_shift(coeff, z, ch, y, polys, d, q, k);
        let tk = tmp_at(polys, ch, y as int, q, k);
        let ck = claim_at(coeff, z, ch, k, q);
        let ek = eq_eval(z.subrange(n - k, n as int), chrev_at(ch, k));
        // the claimed sum of round k is the carried claim
        assert(prover_sum(coeff, z, ch, Some(y), q, k) == Some(tk as u64)) by {
            if k > 0 {
                assert(polys[k - 1] == prover_poly(coeff, z, ch, Some(y), q, (k - 1) as nat));
            }
        }
        assert(ch.subrange(0, k as int).reverse() == chrev_at(ch, k));
        assert(polys[k as int] == round_poly(coeff, z, chrev_at(ch, k), Some(tk as u64), q));
        lemma_round_shift(coeff, z, ch, k, tk as u64, q);
        let zj = z[n - k - 1];
        let c = ch[k as int];
        let lc = zj * c + (1 - zj) * (1 - c);
        let ti = tmp_at(polys, ch, y as int, q, i);
        let ci = claim_at(coeff, z, ch, i, q);
        assert(ti == upoly_eval(polys[k as int], c as int) % q);
        lemma_mod_bound(upoly_eval(polys[k as int], c as int), q);
        // (ti - ci - (tk - ck) lc) % q == 0 and (tk - ck - (y - v) ek) % q == 0
        lemma_chrev_step(ch, k);
        assert(z.subrange(n - i, n as int) =~= seq![zj] + z.subrange(n - k, n as int));
        lemma_eq_eval_front(zj, z.subrange(n - k, n as int), c, chrev_at(ch, k));
        let ei = eq_eval(z.subrange(n - i, n as int), chrev_at(ch, i));
        assert(ei == lc * ek);
        let u = tk - ck - (y - v) * ek;
        // ti - ci - (y - v) ei == (ti - ci - (tk - ck) lc) + lc u
        assert(ti - ci - (y - v) * ei == (ti - ci - (tk - ck) * lc) + lc * u) by {
            lemma_mul_is_distributive_sub(lc, tk - ck, (y - v) * ek);
            lemma_mul_is_commutative(tk - ck, lc);
            lemma_mul_is_associative(lc, y - v, ek);
            lemma_mul_is_commutative(lc, y - v);
            lemma_mul_is_associative(y - v, lc, ek);
        }
        assert((lc * u) % q == 0) by {
            lemma_mul_mod_noop_right(lc, u, q);
            lemma_mul_basics(lc);
            lemma_small_mod(0, q as nat);
        }
        lemma_add_mod_noop(ti - ci - (tk - ck) * lc, lc * u, q);
        lemma_small_mod(0, q as nat);
    }
}

/// Modulo a prime, a product vanishes only when a factor does.
proof fn lemma_prime_product_zero(a: int, b: int, q: int)
    requires
        q > 1,
        is_prime(q as nat),
        (a * b) % q == 0,
        b % q != 0,
    ensures
        a % q == 0,
{
    let binv = lemma_inverse_exists(b, q);
    // a == a (b binv) == (a b) binv modulo q
    lemma_mul_is_associative(a, b, binv);
    lemma_mul_mod_noop_right(a, b * binv, q);
    lemma_mul_basics(a);
    lemma_mul_mod_noop_left(a * b, binv, q);
    lemma_mul_basics(binv);
    lemma_small_mod(0, q as nat);
}

/// Soundness for claimed values: the evaluation proof that `eval_fast`
/// computes from a claimed value `y` (carrying the claimed sums from `y`) is
/// rejected when `y` is not the value of the polynomial at `z`, whatever the
/// spot-check positions, provided `eq(z_top, challenges)` does not vanish
/// modulo `q` (`z_top` the last `d` coordinates of `z`): the wrong claim then
/// reaches the last check shifted by `(y - v) eq(z_top, challenges)`, which the
/// last check sees. Where it vanishes, the shift vanishes too and the wrong
/// claim goes through, as in any sumcheck with such challenges.
#[verifier::spinoff_prover]
pub proof fn lemma_false_claim_rejected(
    code: RSFoldableCode,
    com: Seq<u64>,
    coeff: Seq<u64>,
    z: Seq<u64>,
    y: u64,
    ch: Seq<u64>,
    mus: Seq<usize>,
    codes: Seq<Seq<u64>>,
    polys: Seq<Seq<u64>>,
    last: Seq<u64>,
)
    requires
        code.fc_wf(),
        code.depth() is Some,
        0 < code.depth().unwrap() <= z.len(),
        code.base_k() == pow2((z.len() - code.depth().unwrap()) as nat),
        code.base_n() > 0,
        code.modulus() % 2 == 1,
        forall|dind: nat| dind < code.depth().unwrap() ==> all_nonzero(#[trigger] code.twiddle(dind)),
        coeff.len() == pow2(z.len()),
        all_canonical(coeff, code.modulus()),
        valid_challenges(code, ch),
        com.len() == level_len(code, code.depth().unwrap()),
        ints(com) == fold_encode(&code, coeff, code.depth().unwrap()),
        eval_proof(code, com, coeff, z, Some(y), ch, codes, polys, last),
        y < code.modulus(),
        y as int != coeff_eval(coeff, z) % (code.modulus() as int),
        eq_eval(z.subrange(z.len() - code.depth().unwrap(), z.len() as int), ch.reverse()) % (code.modulus() as int) != 0,
    ensures
        !basefold_accepts(code, com, z, y as int, codes, polys, last, ch, mus),
{
    code.lemma_fc_wf();
    code.lemma_base_code();
    code.base_code().gen().lemma_wf();
    let q = code.modulus() as int;
    let d = code.depth().unwrap();
    let n = z.len();
    assert(is_prime(q as nat));
    assert(all_canonical(ch, q as nat));
    let v = coeff_eval(coeff, z) % q;
    let delta = y - v;
    lemma_mod_bound(coeff_eval(coeff, z), q);
    assert(delta % q != 0) by {
        if delta > 0 {
            lemma_small_mod(delta as nat, q as nat);
        } else {
            lemma_fundamental_div_mod_converse(delta, q, -1, delta + q);
        }
    }
    lemma_fast_claims_shift(coeff, z, ch, y, polys, d, q, d);
    let chrev = ch.reverse();
    assert(chrev_at(ch, d) =~= chrev);
    let tmpd = tmp_at(polys, ch, y as int, q, d);
    let cd = claim_at(coeff, z, ch, d, q);
    let ef = eq_eval(z.subrange(n - d, n as int), chrev);
    assert((tmpd - cd - delta * ef) % q == 0);
    // the prover's last codeword
    assert forall|k: int| 0 <= k < com.len() implies #[trigger] com[k] as int == fold_encode(&code, coeff, d)[k] by {
        assert(ints(com)[k] == com[k] as int);
    }
    lemma_prover_codes(code, com, coeff, ch, n, (d - 1) as nat);
    lemma_pow2_0_basics();
    lemma_mul_basics(code.base_n() as int);
    assert(codes[d - 1].len() == code.base_n());
    let md = msg_at(coeff, ch, d, n, q);
    if basefold_accepts(code, com, z, y as int, codes, polys, last, ch, mus) {
        assert(final_ok(code, z, codes[d - 1], last, chrev, tmpd));
        if code.base_k() > 1 {
            lemma_final(code, coeff, z, ch, codes[d - 1], last, cd);
            assert(final_ok(code, z, codes[d - 1], last, chrev, cd));
            assert(tmpd == cd);
            assert((-(delta * ef)) % q == 0);
            assert((delta * ef) % q == 0) by {
                lemma_sub_mod_noop(0, -(delta * ef), q);
                lemma_small_mod(0, q as nat);
            }
            lemma_prime_product_zero(delta, ef, q);
        } else {
            let kappa = (n - d) as nat;
            lemma_pow2_pos(kappa);
            if kappa > 0 {
                lemma_pow2_strictly_increases(0, kappa);
            }
            assert(kappa == 0);
            assert(z.subrange(n - d, n as int) =~= z);
            let e = ef % q;
            assert(md.len() == 1);
            let m0 = md[0];
            lemma_mod_bound(coeff_eval(fold_column(coeff, pow2(kappa), 0), chrev), q);
            assert(m0 < q);
            // the true last claim is eq(z, challenges) times the last message
            let zlo = z.subrange(0, 0);
            let f = |k: int| md[k] * monomial(zlo, k as nat);
            assert(monomial(zlo, 0) == 1);
            assert(sum(1, f) == sum(0, f) + f(0));
            lemma_mul_basics(m0 as int);
            assert(coeff_eval(md, zlo) == m0);
            assert(z.subrange(n - d, n as int) == z.subrange(kappa as int, n as int));
            assert(cd == (ef * m0) % q);
            // m0 == fdiv(cd, e)
            lemma_mod_twice(ef, q);
            assert(e % q != 0);
            lemma_mul_mod_noop_right(m0 as int, ef, q);
            lemma_mul_is_commutative(m0 as int, ef);
            lemma_mod_twice(ef * m0, q);
            lemma_fdiv_prime(cd, e, q, m0 as int);
            // (m0 + delta) % q == fdiv(tmpd, e)
            let m1 = (m0 + delta) % q;
            lemma_mod_bound(m0 + delta, q);
            assert((m1 * e) % q == tmpd % q) by {
                lemma_mul_mod_noop_left(m0 + delta, e, q);
                lemma_mul_mod_noop_right(m0 + delta, ef, q);
                lemma_mul_is_distributive_add_other_way(ef, m0 as int, delta);
                lemma_mul_is_commutative(m0 + delta, ef);
                lemma_mul_is_commutative(delta, ef);
                // tmpd == cd + delta ef (mod q) and cd == ef m0 (mod q)
                lemma_fundamental_div_mod(tmpd - cd - delta * ef, q);
                lemma_mod_multiples_vanish((tmpd - cd - delta * ef) / q, cd + delta * ef, q);
                lemma_add_mod_noop(ef * m0, delta * ef, q);
                lemma_add_mod_noop(cd, delta * ef, q);
                lemma_mod_twice(ef * m0, q);
            }
            lemma_fdiv_prime(tmpd, e, q, m1);
            // both last checks look at the same first entry
            lemma_final(code, coeff, z, ch, codes[d - 1], last, cd);
            assert(final_ok(code, z, codes[d - 1], last, chrev, cd));
            let x0 = fold_encode(&code, seq![m0], 0)[0];
            let x1 = fold_encode(&code, seq![m1 as u64], 0)[0];
            assert(codes[d - 1][0] as int == x0);
            assert(codes[d - 1][0] as int == x1);
            let g0 = |j: int| code.base_entry(0, j) * seq![m0][j];
            let g1 = |j: int| code.base_entry(0, j) * seq![m1 as u64][j];
            assert(sum(1, g0) == sum(0, g0) + g0(0));
            assert(sum(1, g1) == sum(0, g1) + g1(0));
            assert(code.base_entry(0, 0) == 1) by {
                reveal(pow);
                lemma_small_mod(1, q as nat);
            }
            lemma_small_mod(m0 as nat, q as nat);
            lemma_small_mod(m1 as nat, q as nat);
            code.lemma_fc_wf();
            assert((m1 as u64) as int == m1);
            assert(g0(0) == m0 as int) by {
                lemma_mul_basics(m0 as int);
            }
            assert(g1(0) == m1) by {
                lemma_mul_basics(m1);
            }
            assert(x0 == sum(code.base_k(), g0) % q);
            assert(x1 == sum(code.base_k(), g1) % q);
            assert(x0 == m0);
            assert(x1 == m1);
            assert(m1 == m0);
            assert(delta % q == 0) by {
                lemma_add_mod_noop(m0 as int, delta, q);
                lemma_small_mod(m0 as nat, q as nat);
                lemma_fundamental_div_mod(m0 + delta, q);
                lemma_fundamental_div_mod(delta, q);
                lemma_mod_bound(delta, q);
                lemma_fundamental_div_mod_converse(delta, q, (m0 + delta) / q, 0);
            }
        }
    }
}

/// Consistency of folding: when the verifier accepts, at every spot-check
/// position of every round the codeword sent for that round agrees with the
/// fold, with that round's challenge, of the codeword above it (the
/// commitment in the first round).
pub proof fn lemma_accepted_folds_consistent(
    code: RSFoldableCode,
    com: Seq<u64>,
    z: Seq<u64>,
    y: int,
    codes: Seq<Seq<u64>>,
    polys: Seq<Seq<u64>>,
    last: Seq<u64>,
    ch: Seq<u64>,
    mus: Seq<usize>,
    i: nat,
    j: int,
)
    requires
        basefold_accepts(code, com, z, y, codes, polys, last, ch, mus),
        i < code.depth().unwrap(),
        0 <= j < mus.len(),
        forall|jj: int| 0 <= jj < mus.len() ==> #[trigger] mus[jj] < level_len(code, (code.depth().unwrap() - 1) as nat),
    ensures
        ({
            let d = code.depth().unwrap();
            let m = mus_at(code, mus, d, i)[j] as int;
            &&& 0 <= m < level_len(code, (d - 1 - i) as nat)
            &&& codes[i as int][m] == fold_level(code, top_at(com, codes, i as int), (d - 1 - i) as nat, ch[i as int] as int)[m]
        }),
{
    let d = code.depth().unwrap();
    let q = code.modulus() as int;
    lemma_mus_range(code, mus, d, i);
    let ii = i as int;
    assert(round_ok(
        code,
        (d - 1 - ii) as nat,
        top_at(com, codes, ii),
        codes[ii],
        polys[ii],
        tmp_at(polys, ch, y, q, ii as nat),
        ch[ii] as int,
        mus_at(code, mus, d, ii as nat),
    ));
}

/// A proof whose first folded codeword differs everywhere from the fold of the
/// commitment with the first challenge is rejected as soon as one spot check
/// is made.
pub proof fn lemma_unfolded_codeword_rejected(
    code: RSFoldableCode,
    com: Seq<u64>,
    z: Seq<u64>,
    y: int,
    codes: Seq<Seq<u64>>,
    polys: Seq<Seq<u64>>,
    last: Seq<u64>,
    ch: Seq<u64>,
    mus: Seq<usize>,
)
    requires
        0 < code.depth().unwrap(),
        mus.len() > 0,
        forall|jj: int| 0 <= jj < mus.len() ==> #[trigger] mus[jj] < level_len(code, (code.depth().unwrap() - 1) as nat),
        codes.len() > 0,
        forall|m: int|
            0 <= m < level_len(code, (code.depth().unwrap() - 1) as nat) ==> #[trigger] codes[0][m] != fold_level(
                code,
                com,
                (code.depth().unwrap() - 1) as nat,
                ch[0] as int,
            )[m],
    ensures
        !basefold_accepts(code, com, z, y, codes, polys, last, ch, mus),
{
    if basefold_accepts(code, com, z, y, codes, polys, last, ch, mus) {
        lemma_accepted_folds_consistent(code, com, z, y, codes, polys, last, ch, mus, 0, 0);
        let m = mus_at(code, mus, code.depth().unwrap(), 0)[0] as int;
        assert(top_at(com, codes, 0) == com);
        assert(codes[0][m] != fold_level(code, com, (code.depth().unwrap() - 1) as nat, ch[0] as int)[m]);
    }
}

} // verus!
