//! Pieces of the BaseFold polynomial commitment: folding codewords by
//! interpolating lines, and the weights of the sumcheck rounds.
use crate::field::{all_canonical, fdiv, is_quotient, PrimeField};
use crate::codes::{all_nonzero, encodes, fold_encode, idx, FoldableCode, LinearCode, RSFoldableCode};
use crate::commit::{Commitment, Proof};
use crate::matmul::MatrixMul;
use crate::hypercube::{evalscalars_to_coeffscalars, ints, reduce, transposed_layers};
use crate::completeness::{lemma_basefold_complete, lemma_fast_matches_plain};
use crate::rng::{fs_after, fs_challenges, lemma_fs_challenges_prefix, lemma_fs_challenges_valid, nonzero_draw, thread_index_below, FiatShamirSim};
use crate::sums::{lemma_sum_ext, sum};
use crate::util::{ceil_log2, floor_log2, log2_ceil, log2_floor};
use vstd::arithmetic::power::pow;
use crate::multilinear::{coeff_eval, evaluate_at_fromcoeff, fold_column, monomial, eq_eval, eq_point, lemma_pow2_split, lemma_row_index, streamable, MultilinearBasis, MultilinearBasisEvals};
use vstd::arithmetic::div_mod::*;
use vstd::arithmetic::mul::*;
use vstd::arithmetic::power2::*;
use vstd::prelude::*;

verus! {

/// The value at `a` of the line through `(x, y1)` and `(-x, y2)`:
/// `((a + x) y1 + (x - a) y2) / 2x`.
pub fn interpdeg1(field: &PrimeField, x: u64, y1: u64, y2: u64, a: u64) -> (r: u64)
    requires
        x < field.q(),
        y1 < field.q(),
        y2 < field.q(),
        a < field.q(),
        (2 * x) % (field.q() as int) != 0,
    ensures
        r == fdiv(((a + x) * y1 + (x - a) * y2) % (field.q() as int), (2 * x) % (field.q() as int), field.q() as int),
        r < field.q(),
        a == x ==> r == y1,
        (a + x) % (field.q() as int) == 0 ==> r == y2,
{
    let ghost q = field.q() as int;
    proof {
        use_type_invariant(field);
    }
    let tl = field.add(a, x);
    let tr = field.sub(x, a);
    let tl = field.mul(tl, y1);
    let tr = field.mul(tr, y2);
    let num = field.add(tl, tr);
    let den = field.mul_int(x, 2);
    proof {
        lemma_mul_is_commutative(x as int, 2);
        lemma_mul_mod_noop_left(a + x, y1 as int, q);
        lemma_mul_mod_noop_left(x - a, y2 as int, q);
        lemma_add_mod_noop((a + x) * y1, (x - a) * y2, q);
        lemma_mod_twice((a + x) * y1 + (x - a) * y2, q);
    }
    let r = field.div(num, den);
    proof {
        let n = (a + x) * y1 + (x - a) * y2;
        if a == x {
            // y1 * 2x == 2x * y1
            assert(n == (2 * x) * y1) by (nonlinear_arith)
                requires
                    a == x,
                    n == (a + x) * y1 + (x - a) * y2,
            ;
            lemma_mul_mod_noop_right(y1 as int, 2 * x, q);
            lemma_mul_is_commutative(y1 as int, 2 * x);
            lemma_small_mod(y1 as nat, q as nat);
            assert(is_quotient(y1 as int, num as int, den as int, q));
        }
        if (a + x) % q == 0 {
            // n == (a + x)(y1 - y2) + 2x y2 == 2x y2 (mod q)
            assert(n == (a + x) * (y1 - y2) + (2 * x) * y2) by (nonlinear_arith)
                requires
                    n == (a + x) * y1 + (x - a) * y2,
            ;
            lemma_mul_mod_noop_left(a + x, y1 - y2, q);
            lemma_add_mod_noop((a + x) * (y1 - y2), (2 * x) * y2, q);
            lemma_mod_twice((2 * x) * y2, q);
            lemma_small_mod(0, q as nat);
            lemma_mul_mod_noop_right(y2 as int, 2 * x, q);
            lemma_mul_is_commutative(y2 as int, 2 * x);
            lemma_small_mod(y2 as nat, q as nat);
            assert(is_quotient(y2 as int, num as int, den as int, q));
        }
    }
    r
}

/// `(a * ((b * c) % q)) % q == (a * b * c) % q`, with the factors reduced first.
proof fn lemma_mul3_mod(a: int, b: int, c: int, q: int)
    requires
        q > 0,
    ensures
        ((a % q) * (((b % q) * (c % q)) % q)) % q == (a * b * c) % q,
{
    lemma_mul_mod_noop_general(b, c, q);
    lemma_mul_mod_noop_general(a, b * c, q);
    lemma_mul_mod_noop_right(a % q, ((b % q) * (c % q)), q);
    lemma_mul_is_associative(a, b, c);
}

/// The weight of hypercube point `c * 2^(dmini - 1) + l` in the sumcheck round
/// of BaseFold that leaves the variable `dmini - 1` free, after the challenges
/// `ch` for the variables above it: `eq(z_hi, ch) * eq(ch, c) * eq(z_lo, l)`
/// with `z_lo` the first `dmini - 1` and `z_hi` the last coordinates of `z`.
pub open spec fn basefold_scalar(z: Seq<u64>, ch: Seq<u64>, dmini: nat, c: nat, l: nat, q: int) -> int {
    (eq_eval(z.subrange(dmini as int, z.len() as int), ch) * eq_point(ch, c) * eq_point(
        z.subrange(0, dmini - 1),
        l,
    )) % q
}

/// The weights of the `2^(z.len() - 1)` hypercube points in the sumcheck round
/// of BaseFold that leaves the variable `dmini - 1` free (see `basefold_scalar`).
pub fn basefold_evalscalars(field: &PrimeField, z: &[u64], challenges: &[u64], dmini: usize) -> (res: Vec<u64>)
    requires
        1 <= dmini <= z.len() < usize::BITS,
        challenges.len() == z.len() - dmini,
        all_canonical(z@, field.q()),
        all_canonical(challenges@, field.q()),
        streamable(challenges@),
        streamable(z@.subrange(0, dmini - 1)),
    ensures
        res.len() == pow2((z.len() - 1) as nat),
        all_canonical(res@, field.q()),
        forall|c: int, l: int|
            0 <= c < pow2((z.len() - dmini) as nat) && 0 <= l < pow2((dmini - 1) as nat) ==> #[trigger] res@[idx(
                c,
                pow2((dmini - 1) as nat) as int,
                l,
            )] == basefold_scalar(z@, challenges@, dmini as nat, c as nat, l as nat, field.q() as int),
{
    let ghost q = field.q() as int;
    proof {
        use_type_invariant(field);
        field.lemma_q_fits();
    }
    let d = z.len();
    let zhi = vstd::slice::slice_subrange(z, dmini, d);
    let zlo = vstd::slice::slice_subrange(z, 0, dmini - 1);
    proof {
        assert forall|i: int| 0 <= i < zhi@.len() implies #[trigger] zhi@[i] < q by {
            assert(zhi@[i] == z@[dmini + i]);
        }
        assert forall|i: int| 0 <= i < zlo@.len() implies #[trigger] zlo@[i] < q by {
            assert(zlo@[i] == z@[i]);
        }
    }
    let mb = MultilinearBasis::new(field, zhi);
    let eq0 = mb.evaluate(challenges);
    let mut eq1 = MultilinearBasisEvals::new(field, challenges);
    let mut eq2 = MultilinearBasisEvals::new(field, zlo);
    proof {
        vstd::bits::lemma_usize_pow2_no_overflow((dmini - 1) as nat);
        assert(1 * pow2((dmini - 1) as nat) == pow2((dmini - 1) as nat));
        vstd::bits::lemma_usize_shl_is_mul(1, (dmini - 1) as usize);
        vstd::bits::lemma_usize_pow2_no_overflow((d - dmini) as nat);
        assert(1 * pow2((d - dmini) as nat) == pow2((d - dmini) as nat));
        vstd::bits::lemma_usize_shl_is_mul(1, (d - dmini) as usize);
        lemma_pow2_split((d - dmini) as nat, (dmini - 1) as nat);
        assert((d - dmini) as nat + (dmini - 1) as nat == (d - 1) as nat);
        vstd::bits::lemma_usize_pow2_no_overflow((d - 1) as nat);
        lemma_pow2_pos((dmini - 1) as nat);
    }
    let w = 1usize << (dmini - 1);
    let nblocks = 1usize << (d - dmini);
    let ghost zs = z@;
    let ghost ch = challenges@;
    let mut res: Vec<u64> = Vec::new();
    let mut c: usize = 0;
    while c < nblocks
        invariant
            q == field.q(),
            q > 1,
            q <= u64::MAX,
            w > 0,
            eq0 == eq_eval(zs.subrange(dmini as int, zs.len() as int), ch) % q,
            eq0 < q,
            eq1.wf(),
            eq1.point() == ch,
            eq1.modulus() == q,
            eq1.index() == c,
            eq2.wf(),
            eq2.point() == zs.subrange(0, dmini - 1),
            eq2.modulus() == q,
            eq2.index() == 0,
            streamable(ch),
            streamable(zs.subrange(0, dmini - 1)),
            ch.len() == (d - dmini),
            zs.len() == d,
            1 <= dmini <= d,
            w == pow2((dmini - 1) as nat),
            nblocks == pow2((d - dmini) as nat),
            nblocks * w <= usize::MAX,
            c <= nblocks,
            res.len() == c * w,
            all_canonical(res@, q as nat),
            forall|cc: int, ll: int|
                0 <= cc < c && 0 <= ll < w ==> #[trigger] res@[idx(cc, w as int, ll)] == basefold_scalar(
                    zs,
                    ch,
                    dmini as nat,
                    cc as nat,
                    ll as nat,
                    q,
                ),
        decreases nblocks - c,
    {
        let cur1 = eq1.cur();
        let ghost base_len = res@.len();
        proof {
            lemma_row_index(c as int, 0, nblocks as int, w as int);
            lemma_mul_inequality(c as int + 1, nblocks as int, w as int);
            lemma_mul_is_distributive_add_other_way(w as int, c as int, 1);
        }
        let mut l: usize = 0;
        while l < w
            invariant
                q == field.q(),
                q > 1,
                q <= u64::MAX,
                eq0 == eq_eval(zs.subrange(dmini as int, zs.len() as int), ch) % q,
                eq0 < q,
                cur1 == eq_point(ch, c as nat) % q,
                cur1 < q,
                eq2.wf(),
                eq2.point() == zs.subrange(0, dmini - 1),
                eq2.modulus() == q,
                eq2.index() == l,
                streamable(zs.subrange(0, dmini - 1)),
                zs.subrange(0, dmini - 1).len() == dmini - 1,
                w == pow2((dmini - 1) as nat),
                c < nblocks,
                (c + 1) * w <= nblocks * w,
                (c + 1) * w == c * w + w,
                nblocks * w <= usize::MAX,
                base_len == c * w,
                l <= w,
                res.len() == base_len + l,
                all_canonical(res@, q as nat),
                forall|cc: int, ll: int|
                    0 <= cc < c && 0 <= ll < w ==> #[trigger] res@[idx(cc, w as int, ll)] == basefold_scalar(
                        zs,
                        ch,
                        dmini as nat,
                        cc as nat,
                        ll as nat,
                        q,
                    ),
                forall|ll: int| 0 <= ll < l ==> #[trigger] res@[idx(c as int, w as int, ll)] == basefold_scalar(
                    zs,
                    ch,
                    dmini as nat,
                    c as nat,
                    ll as nat,
                    q,
                ),
            decreases w - l,
        {
            let e2 = eq2.next().unwrap();
            let v = field.mul(eq0, field.mul(cur1, e2));
            proof {
                lemma_mul3_mod(
                    eq_eval(zs.subrange(dmini as int, zs.len() as int), ch),
                    eq_point(ch, c as nat),
                    eq_point(zs.subrange(0, dmini - 1), l as nat),
                    q,
                );
                assert forall|cc: int, ll: int|
                    0 <= cc < c && 0 <= ll < w implies #[trigger] idx(cc, w as int, ll) < res@.len() by {
                    lemma_row_index(cc, ll, c as int, w as int);
                }
                assert(idx(c as int, w as int, l as int) == res@.len());
            }
            res.push(v);
            l = l + 1;
        }
        eq1.next();
        eq2.reset();
        c = c + 1;
    }
    proof {
        lemma_mul_is_commutative(nblocks as int, w as int);
    }
    res
}

/// The value at `x` of the univariate polynomial with coefficients `c`
/// (lowest degree first).
pub open spec fn upoly_eval(c: Seq<u64>, x: int) -> int {
    sum(c.len(), |i: int| c[i] * pow(x, i as nat))
}

/// The value at `x` of the univariate polynomial with coefficients `c`.
pub fn poly_eval(field: &PrimeField, c: &[u64], x: u64) -> (r: u64)
    requires
        x < field.q(),
        all_canonical(c@, field.q()),
    ensures
        r == upoly_eval(c@, x as int) % (field.q() as int),
        r < field.q(),
{
    let ghost q = field.q() as int;
    proof {
        use_type_invariant(field);
    }
    let ghost f = |i: int| c@[i] * pow(x as int, i as nat);
    let mut acc = field.zero();
    let mut pw = field.one();
    let mut i: usize = 0;
    proof {
        lemma_small_mod(0, q as nat);
        lemma_small_mod(1, q as nat);
        vstd::arithmetic::power::lemma_pow0(x as int);
    }
    while i < c.len()
        invariant
            q == field.q(),
            q > 1,
            x < q,
            all_canonical(c@, q as nat),
            f == (|i: int| c@[i] * pow(x as int, i as nat)),
            i <= c.len(),
            acc < q,
            acc == sum(i as nat, f) % q,
            pw < q,
            pw == pow(x as int, i as nat) % q,
        decreases c.len() - i,
    {
        let t = field.mul(c[i], pw);
        proof {
            lemma_mul_mod_noop_right(c@[i as int] as int, pow(x as int, i as nat), q);
            crate::sums::lemma_sum_step(i as nat, q, f, acc as int, t as int);
            vstd::arithmetic::power::lemma_pow_adds(x as int, i as nat, 1);
            vstd::arithmetic::power::lemma_pow1(x as int);
            lemma_mul_mod_noop_left(pow(x as int, i as nat), x as int, q);
        }
        acc = field.add(acc, t);
        pw = field.mul(pw, x);
        i = i + 1;
    }
    acc
}

/// The commitment to a polynomial: the codeword of its coefficients.
pub struct BaseFoldCommitment {
    pub code_el: Vec<u64>,
}

impl Commitment for BaseFoldCommitment {}

/// An evaluation proof: the folded codewords, the sumcheck round polynomials
/// (by their coefficients) and, where the base code has messages longer than
/// one, the coefficients of the fully folded polynomial.
pub struct BaseFoldProof {
    pub code_els: Vec<Vec<u64>>,
    pub sumcheck_els: Vec<Vec<u64>>,
    pub sumcheck_last: Vec<u64>,
}

impl Proof for BaseFoldProof {}

/// A copy of the rows of `v`.
fn clone_rows(v: &Vec<Vec<u64>>) -> (r: Vec<Vec<u64>>)
    ensures
        r.len() == v.len(),
        forall|i: int| 0 <= i < v.len() ==> (#[trigger] r@[i])@ == v@[i]@,
{
    let mut r: Vec<Vec<u64>> = Vec::new();
    let mut i: usize = 0;
    while i < v.len()
        invariant
            i <= v.len(),
            r.len() == i,
            forall|k: int| 0 <= k < i ==> (#[trigger] r@[k])@ == v@[k]@,
        decreases v.len() - i,
    {
        r.push(v[i].clone());
        i = i + 1;
    }
    r
}

impl BaseFoldProof {
    /// A copy of the proof.
    pub fn clone(&self) -> (p: BaseFoldProof)
        ensures
            p.code_els.len() == self.code_els.len(),
            forall|i: int| 0 <= i < self.code_els.len() ==> (#[trigger] p.code_els@[i])@ == self.code_els@[i]@,
            p.sumcheck_els.len() == self.sumcheck_els.len(),
            forall|i: int| 0 <= i < self.sumcheck_els.len() ==> (#[trigger] p.sumcheck_els@[i])@ == self.sumcheck_els@[i]@,
            p.sumcheck_last@ == self.sumcheck_last@,
    {
        BaseFoldProof {
            code_els: clone_rows(&self.code_els),
            sumcheck_els: clone_rows(&self.sumcheck_els),
            sumcheck_last: self.sumcheck_last.clone(),
        }
    }
}

/// The BaseFold polynomial commitment for multilinear polynomials in
/// `varcount` variables, with a foldable Reed-Solomon code and `ver_rep`
/// spot checks per folding round.
pub struct BaseFoldPCS {
    fs: FiatShamirSim,
    varcount: usize,
    code: RSFoldableCode,
    ver_rep: usize,
}

impl BaseFoldPCS {
    /// The code.
    pub closed spec fn code_spec(&self) -> RSFoldableCode {
        self.code
    }

    /// The number of variables.
    pub closed spec fn vars(&self) -> nat {
        self.varcount as nat
    }

    /// The challenge generator.
    pub closed spec fn challenger(&self) -> FiatShamirSim {
        self.fs
    }

    /// The challenges of the folding rounds, one per round and highest
    /// variable first, as the challenge generator draws them from its current
    /// state.
    pub open spec fn round_challenges(&self) -> Seq<u64> {
        fs_challenges(self.challenger().state(), self.code_spec().modulus(), self.code_spec().depth().unwrap())
    }

    /// The number of spot checks per round.
    pub closed spec fn reps(&self) -> nat {
        self.ver_rep as nat
    }

    /// The scheme is well formed: a foldable code with `d` levels and a base
    /// message length `2^(varcount - d)`, all lengths fitting in `usize`, and
    /// challenges in the field of the code.
    pub closed spec fn wf(&self) -> bool {
        &&& self.code.fc_wf()
        &&& self.code.depth() is Some
        &&& self.code.depth().unwrap() <= self.varcount
        &&& self.code.base_k() == pow2((self.varcount - self.code.depth().unwrap()) as nat)
        &&& self.varcount < usize::BITS
        &&& self.code.base_n() * pow2(self.code.depth().unwrap()) <= usize::MAX
        &&& self.fs.q() == self.code.modulus()
    }

    /// The scheme for polynomials in `varcount` variables whose base code has
    /// messages of length `k0` (a power of two at most `2^varcount`) and rate
    /// `1 / c`, with `ver_rep` spot checks per round.
    pub fn new(field: &PrimeField, varcount: usize, k0: usize, c: usize, ver_rep: usize) -> (pcs: BaseFoldPCS)
        requires
            exists|e: nat| #[trigger] pow2(e) == k0,
            k0 <= pow2(varcount as nat),
            varcount < usize::BITS,
            k0 * c * k0 <= usize::MAX,
            c * pow2(varcount as nat) <= usize::MAX,
        ensures
            pcs.wf(),
            pcs.vars() == varcount,
            pcs.reps() == ver_rep,
            pcs.code_spec().modulus() == field.q(),
            pcs.code_spec().base_k() == k0,
            pcs.code_spec().base_n() == k0 * c,
            pcs.code_spec().depth() is Some,
            pcs.code_spec().depth().unwrap() <= varcount,
            pow2((varcount - pcs.code_spec().depth().unwrap()) as nat) == k0,
            pcs.challenger().is_fresh(),
            forall|dind: nat| #[trigger] pcs.code_spec().twiddle(dind).len() > 0 ==> all_nonzero(pcs.code_spec().twiddle(dind)),
    {
        let ghost e0 = choose|e: nat| #[trigger] pow2(e) == k0;
        proof {
            lemma_pow2_pos(e0);
            if e0 > varcount {
                lemma_pow2_strictly_increases(varcount as nat, e0);
            }
        }
        // the exponent of k0
        let mut lg: usize = 0;
        let mut pw: usize = 1;
        proof {
            lemma2_to64();
        }
        while pw < k0
            invariant
                k0 == pow2(e0),
                e0 <= varcount < usize::BITS,
                pw == pow2(lg as nat),
                lg <= e0,
            decreases e0 - lg,
        {
            proof {
                if lg == e0 {
                    assert(false);
                }
                lemma_pow2_unfold((lg + 1) as nat);
                if lg + 1 < e0 {
                    lemma_pow2_strictly_increases((lg + 1) as nat, e0);
                }
                if e0 < varcount {
                    lemma_pow2_strictly_increases(e0, varcount as nat);
                }
                vstd::bits::lemma_usize_pow2_no_overflow(varcount as nat);
            }
            pw = pw * 2;
            lg = lg + 1;
        }
        proof {
            if lg < e0 {
                lemma_pow2_strictly_increases(lg as nat, e0);
            }
        }
        let d = varcount - lg;
        proof {
            lemma_pow2_split(d as nat, lg as nat);
            assert(d as nat + lg as nat == varcount as nat);
            lemma_mul_is_associative(k0 as int, c as int, pow2(d as nat) as int);
            lemma_mul_is_commutative(k0 as int, pow2(d as nat) as int);
            lemma_mul_is_commutative(c as int, (pow2(d as nat) * k0) as int);
            lemma_mul_is_associative(c as int, pow2(d as nat) as int, k0 as int);
            lemma_mul_is_commutative(c as int, pow2(d as nat) as int);
            lemma_mul_is_associative(pow2(d as nat) as int, c as int, k0 as int);
            lemma_mul_is_commutative(c as int, k0 as int);
        }
        let code = RSFoldableCode::new(field, k0, c, Some(d));
        let fs = FiatShamirSim::new(field);
        BaseFoldPCS { fs, varcount, code, ver_rep }
    }

    /// What a well-formed scheme guarantees: a well-formed foldable code with
    /// a fixed number `d <= varcount` of levels, base messages of length
    /// `2^(varcount - d)`, and challenges drawn in the field of the code.
    pub proof fn lemma_wf(&self)
        requires
            self.wf(),
        ensures
            self.code_spec().fc_wf(),
            self.code_spec().depth() is Some,
            self.code_spec().depth().unwrap() <= self.vars(),
            self.code_spec().base_k() == pow2((self.vars() - self.code_spec().depth().unwrap()) as nat),
            self.challenger().q() == self.code_spec().modulus(),
            1 < self.code_spec().modulus() <= u64::MAX,
    {
        self.code.lemma_fc_wf();
    }

    /// The field of the polynomials.
    pub fn field(&self) -> (f: &PrimeField)
        requires
            self.wf(),
        ensures
            f.q() == self.code_spec().modulus(),
    {
        self.code.ring()
    }

    /// The foldable code.
    pub fn code(&self) -> (c: &RSFoldableCode)
        ensures
            *c == self.code_spec(),
    {
        &self.code
    }

    /// Puts the challenge generator back in its initial state.
    pub fn reset_fs(&mut self)
        requires
            old(self).wf(),
        ensures
            final(self).wf(),
            final(self).code_spec() == old(self).code_spec(),
            final(self).vars() == old(self).vars(),
            final(self).reps() == old(self).reps(),
            final(self).challenger().is_fresh(),
    {
        self.fs.reset();
    }

    /// The next challenge: a nonzero field element.
    pub fn get_challenge(&mut self) -> (ch: u64)
        requires
            old(self).wf(),
        ensures
            final(self).wf(),
            final(self).code_spec() == old(self).code_spec(),
            final(self).vars() == old(self).vars(),
            final(self).reps() == old(self).reps(),
            (ch, final(self).challenger().state()) == nonzero_draw(old(self).challenger().state(), old(self).code_spec().modulus()),
            0 < ch < old(self).code_spec().modulus(),
    {
        self.fs.challenge()
    }

    /// The commitment to the polynomial with the `2^varcount` coefficients `poly`:
    /// their codeword.
    pub fn commit(&self, poly: &[u64]) -> (com: BaseFoldCommitment)
        requires
            self.wf(),
            poly.len() == pow2(self.vars()),
            all_canonical(poly@, self.code_spec().modulus()),
        ensures
            ints(com.code_el@) == fold_encode(&self.code_spec(), poly@, self.code_spec().depth().unwrap()),
            com.code_el.len() == level_len(self.code_spec(), self.code_spec().depth().unwrap()),
            all_canonical(com.code_el@, self.code_spec().modulus()),
    {
        let ghost d = self.code.depth().unwrap();
        proof {
            crate::codes::lemma_fold_encode_len(&self.code, poly@, d);
        }
        let ghost k0 = self.code.base_k();
        proof {
            lemma_pow2_split(d, (self.varcount - d) as nat);
            assert(d + (self.varcount - d) as nat == self.varcount as nat);
            lemma_mod_multiples_basic(pow2(d) as int, k0 as int);
            lemma_div_multiples_vanish(pow2(d) as int, k0 as int);
            lemma_mul_is_commutative(pow2(d) as int, k0 as int);
            self.code.lemma_base_code();
            lemma_fundamental_div_mod(self.code.base_n() as int, k0 as int);
            lemma_mul_is_commutative(k0 as int, (self.code.base_n() / k0) as int);
            lemma_mul_is_associative(pow2(d) as int, k0 as int, (self.code.base_n() / k0) as int);
            lemma_mul_is_commutative(pow2(d) as int, self.code.base_n() as int);
        }
        BaseFoldCommitment { code_el: self.code.encode(poly) }
    }

    /// Opening a commitment is not checked: every opening is accepted.
    pub fn open(&self, _com: &BaseFoldCommitment, _poly: &[u64]) -> (r: bool)
        ensures
            r,
    {
        true
    }
}

/// The coefficients of the polynomial with coefficients `coeff` (in
/// `log2(coeff.len())` variables) after its last `ch.len()` variables are set
/// to `ch`, reduced modulo `q`: `2^rest` of them.
pub open spec fn restrict_coeffs(coeff: Seq<u64>, ch: Seq<u64>, rest: nat, q: int) -> Seq<u64> {
    Seq::new(pow2(rest), |l: int| (coeff_eval(fold_column(coeff, pow2(rest), l), ch) % q) as u64)
}

/// The two halves of the round polynomial of the BaseFold sumcheck, as a
/// line `t0 + t1 X`: `t1` is `eq(z_hi, ch)` times the value at `z_lo` of the
/// restricted polynomial's part that has the free variable, and `t0` comes
/// from the claimed sum where one is given and likewise from the other part
/// otherwise.
pub open spec fn round_line(coeff: Seq<u64>, z: Seq<u64>, ch: Seq<u64>, sum: Option<u64>, q: int) -> (int, int) {
    let d = z.len();
    let dmini = (d - ch.len()) as nat;
    let g = restrict_coeffs(coeff, ch, dmini, q);
    let half = pow2((dmini - 1) as nat) as int;
    let zlo = z.subrange(0, dmini - 1);
    let e = eq_eval(z.subrange(dmini as int, d as int), ch) % q;
    let a = coeff_eval(g.subrange(0, half), zlo) % q;
    let b = coeff_eval(g.subrange(half, 2 * half), zlo) % q;
    let t1 = (e * b) % q;
    let zj = z[dmini - 1] as int;
    let t0 = match sum {
        Some(s) => (s - t1 * zj) % q,
        None => (e * a) % q,
    };
    (t0, t1)
}

/// The round polynomial of the BaseFold sumcheck for the polynomial with
/// coefficients `coeff` times `eq(z, .)`, in the variable `z.len() - ch.len() - 1`
/// after the challenges `ch` for the variables above it: the product of
/// `eq(z_j, X) = (1 - z_j) + (2 z_j - 1) X` with the line `round_line`, by its
/// three coefficients.
pub fn sumcheck_sum_basefold(field: &PrimeField, coeff: &[u64], z: &[u64], challenges: &[u64], sum: Option<u64>) -> (h: Vec<u64>)
    requires
        0 < z.len() < usize::BITS,
        challenges.len() < z.len(),
        coeff.len() == pow2(z.len() as nat),
        all_canonical(coeff@, field.q()),
        all_canonical(z@, field.q()),
        all_canonical(challenges@, field.q()),
        sum matches Some(s) ==> s < field.q(),
    ensures
        ({
            let q = field.q() as int;
            let (t0, t1) = round_line(coeff@, z@, challenges@, sum, q);
            let zj = z@[z.len() - challenges.len() - 1] as int;
            &&& h.len() == 3
            &&& h@[0] == ((1 - zj) * t0) % q
            &&& h@[1] == ((2 * zj - 1) * t0 + (1 - zj) * t1) % q
            &&& h@[2] == ((2 * zj - 1) * t1) % q
        }),
        all_canonical(h@, field.q()),
{
    let ghost q = field.q() as int;
    proof {
        use_type_invariant(field);
        field.lemma_q_fits();
    }
    let d = z.len();
    let i = challenges.len();
    let dmini = d - i;
    // the coefficients after the challenges
    let g = evaluate_at_fromcoeff(field, d, challenges, coeff);
    proof {
        assert(g@ =~= restrict_coeffs(coeff@, challenges@, dmini as nat, q));
        vstd::bits::lemma_usize_pow2_no_overflow((dmini - 1) as nat);
        assert(1 * pow2((dmini - 1) as nat) == pow2((dmini - 1) as nat));
        vstd::bits::lemma_usize_shl_is_mul(1, (dmini - 1) as usize);
        lemma_pow2_unfold(dmini as nat);
    }
    let half = 1usize << (dmini - 1);
    let f0 = vstd::slice::slice_subrange(g.as_slice(), 0, half);
    let f1 = vstd::slice::slice_subrange(g.as_slice(), half, 2 * half);
    let zlo = vstd::slice::slice_subrange(z, 0, dmini - 1);
    let zhi = vstd::slice::slice_subrange(z, dmini, d);
    proof {
        assert forall|t: int| 0 <= t < f0@.len() implies #[trigger] f0@[t] < q by {
            assert(f0@[t] == g@[t]);
        }
        assert forall|t: int| 0 <= t < f1@.len() implies #[trigger] f1@[t] < q by {
            assert(f1@[t] == g@[half + t]);
        }
        assert forall|t: int| 0 <= t < zlo@.len() implies #[trigger] zlo@[t] < q by {
            assert(zlo@[t] == z@[t]);
        }
        assert forall|t: int| 0 <= t < zhi@.len() implies #[trigger] zhi@[t] < q by {
            assert(zhi@[t] == z@[dmini + t]);
        }
    }
    let a = coeff_value(field, f0, zlo);
    let b = coeff_value(field, f1, zlo);
    let mb = MultilinearBasis::new(field, zhi);
    let e = mb.evaluate(challenges);
    let t1 = field.mul(e, b);
    let zj = z[dmini - 1];
    let t0 = match sum {
        Some(s) => field.sub(s, field.mul(t1, zj)),
        None => field.mul(e, a),
    };
    let one = field.one();
    let omz = field.sub(one, zj);
    let tzm = field.sub(field.mul_int(zj, 2), one);
    let h0 = field.mul(omz, t0);
    let h1 = field.add(field.mul(tzm, t0), field.mul(omz, t1));
    let h2 = field.mul(tzm, t1);
    proof {
        let zji = zj as int;
        assert(e == eq_eval(z@.subrange(dmini as int, d as int), challenges@) % q);
        assert(a == coeff_eval(g@.subrange(0, half as int), zlo@) % q);
        assert(b == coeff_eval(g@.subrange(half as int, 2 * half as int), zlo@) % q);
        match sum {
            Some(s) => {
                lemma_sub_mod_noop(s as int, t1 * zji, q);
                lemma_mod_twice(t1 * zji, q);
                lemma_small_mod(s as nat, q as nat);
            },
            None => {},
        }
        lemma_mul_is_commutative(zji, 2);
        lemma_sub_mod_noop(2 * zji, 1, q);
        lemma_mod_twice(2 * zji, q);
        lemma_small_mod(1, q as nat);
        lemma_mul_mod_noop_left(1 - zji, t0 as int, q);
        lemma_mul_mod_noop_left(2 * zji - 1, t0 as int, q);
        lemma_mul_mod_noop_left(1 - zji, t1 as int, q);
        lemma_mul_mod_noop_left(2 * zji - 1, t1 as int, q);
        lemma_add_mod_noop((2 * zji - 1) * t0, (1 - zji) * t1, q);
    }
    vec![h0, h1, h2]
}

/// The value at `at` of the multilinear polynomial with the `2^at.len()`
/// coefficients `coeff`.
fn coeff_value(field: &PrimeField, coeff: &[u64], at: &[u64]) -> (r: u64)
    requires
        at.len() < usize::BITS,
        coeff.len() == pow2(at.len() as nat),
        all_canonical(coeff@, field.q()),
        all_canonical(at@, field.q()),
    ensures
        r == coeff_eval(coeff@, at@) % (field.q() as int),
        r < field.q(),
{
    let ghost q = field.q() as int;
    proof {
        use_type_invariant(field);
    }
    if at.len() == 0 {
        proof {
            lemma2_to64();
            assert(coeff@.len() == 1);
            let f = |k: int| coeff@[k] * monomial(at@, k as nat);
            assert(monomial(at@, 0) == 1);
            assert(sum(1, f) == sum(0, f) + f(0));
            lemma_small_mod(coeff@[0] as nat, q as nat);
        }
        coeff[0]
    } else {
        let v = evaluate_at_fromcoeff(field, at.len(), at, coeff);
        proof {
            lemma2_to64();
            assert(fold_column(coeff@, pow2(0), 0) =~= coeff@);
            assert(v@[0] == coeff_eval(fold_column(coeff@, pow2(0), 0), at@) % q);
        }
        v[0]
    }
}

/// Whether the evaluations of `eq(z, .)` can be streamed (see `streamable`).
fn is_streamable(z: &[u64]) -> (r: bool)
    ensures
        r == streamable(z@),
{
    let mut i: usize = 0;
    while i < z.len()
        invariant
            i <= z.len(),
            forall|k: int| 0 <= k < i ==> #[trigger] z@[k] != 1 && (k + 1 < z.len() ==> z@[k] != 0),
        decreases z.len() - i,
    {
        if z[i] == 1 || (i + 1 < z.len() && z[i] == 0) {
            return false;
        }
        i = i + 1;
    }
    true
}

/// The evaluations `eq(z, k)` at every point `k` of the hypercube: streamed
/// where no division by zero occurs, else by repeated doubling.
fn eq_evals(field: &PrimeField, z: &[u64]) -> (v: Vec<u64>)
    requires
        z.len() < usize::BITS,
        all_canonical(z@, field.q()),
    ensures
        v.len() == pow2(z.len() as nat),
        all_canonical(v@, field.q()),
        forall|k: int| 0 <= k < v.len() ==> #[trigger] v@[k] == eq_point(z@, k as nat) % (field.q() as int),
{
    let ghost q = field.q() as int;
    if !is_streamable(z) {
        proof {
            use_type_invariant(field);
            field.lemma_q_fits();
        }
        if z.len() == 0 {
            proof {
                assert(eq_point(z@, 0) == 1);
                lemma_small_mod(1, q as nat);
            }
            return vec![1u64];
        }
        let mb = MultilinearBasis::new(field, z);
        let v = mb.evals_slow();
        proof {
            assert forall|k: int| 0 <= k < v.len() implies #[trigger] v@[k] < q by {
                lemma_mod_bound(eq_point(z@, k as nat), q);
            }
        }
        return v;
    }
    proof {
        use_type_invariant(field);
        field.lemma_q_fits();
        vstd::bits::lemma_usize_pow2_no_overflow(z.len() as nat);
        assert(1 * pow2(z.len() as nat) == pow2(z.len() as nat));
        vstd::bits::lemma_usize_shl_is_mul(1, z.len());
    }
    let n = 1usize << z.len();
    let mut eq = MultilinearBasisEvals::new(field, z);
    let mut v: Vec<u64> = Vec::new();
    let mut k: usize = 0;
    while k < n
        invariant
            q == field.q(),
            1 < q <= u64::MAX,
            n == pow2(z.len() as nat),
            eq.wf(),
            eq.point() == z@,
            eq.modulus() == q,
            eq.index() == k,
            streamable(z@),
            k <= n,
            v.len() == k,
            all_canonical(v@, q as nat),
            forall|j: int| 0 <= j < k ==> #[trigger] v@[j] == eq_point(z@, j as nat) % q,
        decreases n - k,
    {
        let e = eq.next().unwrap();
        v.push(e);
        k = k + 1;
    }
    v
}

/// The value at position `m` of the codeword folded with the challenge `chall`:
/// the line through `(t_m, top[m])` and `(-t_m, top[m + n])` at `chall`.
pub open spec fn fold_pos(q: int, t: Seq<u64>, top: Seq<u64>, n: int, chall: int, m: int) -> int {
    fdiv(((chall + t[m]) * top[m] + (t[m] - chall) * top[m + n]) % q, (2 * t[m]) % q, q)
}

/// The codeword length at folding level `dind`.
pub open spec fn level_len(code: RSFoldableCode, dind: nat) -> nat {
    code.base_n() * pow2(dind)
}

/// The spot-check positions after a round at level `dind`: folded into the
/// first half of the next level.
pub open spec fn next_mus(code: RSFoldableCode, mus: Seq<usize>, dind: nat) -> Seq<usize> {
    Seq::new(
        mus.len(),
        |j: int|
            if dind > 0 && mus[j] >= level_len(code, (dind - 1) as nat) {
                (mus[j] - level_len(code, (dind - 1) as nat)) as usize
            } else {
                mus[j]
            },
    )
}

/// The spot-check positions in round `i` of `d`.
pub open spec fn mus_at(code: RSFoldableCode, mus: Seq<usize>, d: nat, i: nat) -> Seq<usize>
    decreases i,
{
    if i == 0 {
        mus
    } else {
        next_mus(code, mus_at(code, mus, d, (i - 1) as nat), (d - i) as nat)
    }
}

/// The claimed sum going into round `i`: `y`, then the previous round
/// polynomial at the previous challenge.
pub open spec fn tmp_at(polys: Seq<Seq<u64>>, ch: Seq<u64>, y: int, q: int, i: nat) -> int {
    if i == 0 {
        y
    } else {
        upoly_eval(polys[i - 1], ch[i - 1] as int) % q
    }
}

/// Round `i` of the verifier: the folded codeword agrees with the fold of the
/// codeword above at the spot-check positions, the last folded codeword is a
/// codeword of the base code, and the round polynomial sums to the claim.
pub open spec fn round_ok(
    code: RSFoldableCode,
    dind: nat,
    top: Seq<u64>,
    cw: Seq<u64>,
    poly: Seq<u64>,
    tmp: int,
    chall: int,
    mus: Seq<usize>,
) -> bool {
    let q = code.modulus() as int;
    &&& forall|j: int|
        0 <= j < mus.len() ==> #[trigger] cw[mus[j] as int] as int == fold_pos(
            q,
            code.twiddle(dind),
            top,
            level_len(code, dind) as int,
            chall,
            mus[j] as int,
        )
    &&& (dind == 0 ==> exists|x: Seq<int>| #[trigger] encodes(&code.base_code().gen(), x, cw))
    &&& (upoly_eval(poly, 0) + upoly_eval(poly, 1)) % q == tmp
}

/// The final check of the verifier, against the fully folded claim `tmp` and
/// the challenges `chrev` listed from the lowest folded variable up.
pub open spec fn final_ok(code: RSFoldableCode, z: Seq<u64>, lastcode: Seq<u64>, last: Seq<u64>, chrev: Seq<u64>, tmp: int) -> bool {
    let q = code.modulus() as int;
    if code.base_k() == 1 {
        let e = eq_eval(z, chrev) % q;
        &&& e != 0
        &&& forall|i: int|
            0 <= i < code.base_n() ==> #[trigger] lastcode[i] as int == fold_encode(
                &code,
                seq![fdiv(tmp, e, q) as u64],
                0,
            )[i]
    } else {
        let kappa = (z.len() - chrev.len()) as nat;
        let zlo = z.subrange(0, kappa as int);
        let eqv = Seq::new(pow2(kappa), |k: int| (eq_point(zlo, k as nat) % q) as u64);
        let scal = reduce(transposed_layers(ints(eqv), kappa), q);
        let n = if last.len() <= scal.len() { last.len() } else { scal.len() };
        let ev = sum(n, |i: int| last[i] * scal[i]) % q;
        &&& forall|i: int| 0 <= i < code.base_n() ==> #[trigger] lastcode[i] as int == fold_encode(&code, last, 0)[i]
        &&& tmp == (ev * (eq_eval(z.subrange(kappa as int, z.len() as int), chrev) % q)) % q
    }
}

/// The codeword folded in round `i`: the commitment, then the previous fold.
pub open spec fn top_at(com: Seq<u64>, codes: Seq<Seq<u64>>, i: int) -> Seq<u64> {
    if i == 0 {
        com
    } else {
        codes[i - 1]
    }
}

/// The verifier accepts the evaluation proof for the challenges `ch` (one per
/// round, highest variable first) and the spot-check positions `mus`.
pub open spec fn basefold_accepts(
    code: RSFoldableCode,
    com: Seq<u64>,
    z: Seq<u64>,
    y: int,
    codes: Seq<Seq<u64>>,
    polys: Seq<Seq<u64>>,
    last: Seq<u64>,
    ch: Seq<u64>,
    mus: Seq<usize>,
) -> bool {
    let d = code.depth().unwrap();
    let q = code.modulus() as int;
    &&& codes.len() == d
    &&& polys.len() == d
    &&& (last.len() > 0) != (code.base_k() == 1)
    &&& forall|i: int|
        0 <= i < d ==> #[trigger] round_ok(
            code,
            (d - 1 - i) as nat,
            top_at(com, codes, i),
            codes[i],
            polys[i],
            tmp_at(polys, ch, y, q, i as nat),
            ch[i] as int,
            mus_at(code, mus, d, i as nat),
        )
    &&& final_ok(code, z, codes[d - 1], last, ch.reverse(), tmp_at(polys, ch, y, q, d))
}

/// For an odd prime `q`, twice a nonzero residue is nonzero.
pub proof fn lemma_twice_nonzero(x: int, q: int)
    requires
        0 < x < q,
        q % 2 == 1,
    ensures
        (2 * x) % q != 0,
{
    if 2 * x < q {
        lemma_small_mod((2 * x) as nat, q as nat);
    } else {
        lemma_fundamental_div_mod_converse(2 * x, q, 1, 2 * x - q);
    }
}

/// The challenges in reverse order.
fn reversed(v: &Vec<u64>) -> (r: Vec<u64>)
    ensures
        r@ == v@.reverse(),
{
    let mut r: Vec<u64> = Vec::new();
    let mut i: usize = v.len();
    while i > 0
        invariant
            i <= v.len(),
            r.len() == v.len() - i,
            forall|k: int| 0 <= k < r.len() ==> #[trigger] r@[k] == v@[v.len() - 1 - k],
        decreases i,
    {
        i = i - 1;
        r.push(v[i]);
    }
    proof {
        assert(r@ =~= v@.reverse());
    }
    r
}

/// The shapes of an evaluation proof that the verifier relies on: field
/// elements throughout, each folded codeword, where there is one per round,
/// at least as long as its level (the last one exactly as long: it is tested
/// as a codeword of the base code), and the last coefficients, where given
/// with base messages longer than one, of the base message length.
pub open spec fn proof_shapes(code: RSFoldableCode, codes: Seq<Seq<u64>>, polys: Seq<Seq<u64>>, last: Seq<u64>) -> bool {
    let d = code.depth().unwrap();
    let q = code.modulus();
    &&& (codes.len() == d ==> forall|i: int|
        0 <= i < d ==> (#[trigger] codes[i]).len() >= level_len(code, (d - 1 - i) as nat) && (i == d - 1 ==> codes[i].len()
            == level_len(code, 0)))
    &&& forall|i: int| 0 <= i < codes.len() ==> all_canonical(#[trigger] codes[i], q)
    &&& forall|i: int| 0 <= i < polys.len() ==> all_canonical(#[trigger] polys[i], q)
    &&& all_canonical(last, q)
    &&& (code.base_k() > 1 && last.len() > 0 ==> last.len() == code.base_k())
}

impl BaseFoldPCS {
    /// What the verifier relies on without checking: the inputs are field
    /// elements, the commitment and every folded codeword are at least as long
    /// as their level (see `proof_shapes`), the weights are nonzero in an odd field, the last
    /// coefficients, where given with base messages longer than one, have the
    /// base message length.
    pub open spec fn verify_shapes(
        &self,
        com: Seq<u64>,
        z: Seq<u64>,
        y: u64,
        codes: Seq<Seq<u64>>,
        polys: Seq<Seq<u64>>,
        last: Seq<u64>,
    ) -> bool {
        let code = self.code_spec();
        let d = code.depth().unwrap();
        let q = code.modulus();
        &&& proof_shapes(code, codes, polys, last)
        &&& self.wf()
        &&& code.base_n() > 0
        &&& q % 2 == 1
        &&& forall|dind: nat| dind < d ==> all_nonzero(#[trigger] code.twiddle(dind))
        &&& z.len() == self.vars()
        &&& all_canonical(z, q)
        &&& y < q
        &&& com.len() >= level_len(code, d)
        &&& all_canonical(com, q)
    }

    /// One round of the verifier (see `round_ok`).
    fn round_check(&self, dind: usize, top: &Vec<u64>, cw: &Vec<u64>, poly: &Vec<u64>, tmp: u64, chall: u64, mus: &Vec<usize>) -> (r: bool)
        requires
            self.wf(),
            dind < self.code_spec().depth().unwrap(),
            self.code_spec().modulus() % 2 == 1,
            all_nonzero(self.code_spec().twiddle(dind as nat)),
            top.len() >= level_len(self.code_spec(), dind as nat + 1),
            cw.len() >= level_len(self.code_spec(), dind as nat),
            dind == 0 ==> cw.len() == level_len(self.code_spec(), 0),
            all_canonical(top@, self.code_spec().modulus()),
            all_canonical(cw@, self.code_spec().modulus()),
            all_canonical(poly@, self.code_spec().modulus()),
            tmp < self.code_spec().modulus(),
            chall < self.code_spec().modulus(),
            forall|j: int| 0 <= j < mus.len() ==> #[trigger] mus@[j] < level_len(self.code_spec(), dind as nat),
        ensures
            r == round_ok(self.code_spec(), dind as nat, top@, cw@, poly@, tmp as int, chall as int, mus@),
    {
        let ghost code = self.code;
        let ghost q = code.modulus() as int;
        let f = self.code.ring();
        proof {
            use_type_invariant(f);
            self.code.lemma_base_code();
            lemma_pow2_unfold(dind as nat + 1);
            lemma_mul_is_associative(code.base_n() as int, 2, pow2(dind as nat) as int);
            lemma_mul_is_commutative(code.base_n() as int, 2);
            lemma_mul_is_associative(2, code.base_n() as int, pow2(dind as nat) as int);
            if dind + 1 < code.depth().unwrap() {
                lemma_pow2_strictly_increases(dind as nat + 1, code.depth().unwrap());
            }
            lemma_mul_inequality(pow2(dind as nat + 1) as int, pow2(code.depth().unwrap()) as int, code.base_n() as int);
            lemma_mul_is_commutative(pow2(dind as nat + 1) as int, code.base_n() as int);
            lemma_mul_is_commutative(pow2(code.depth().unwrap()) as int, code.base_n() as int);
        }
        let t = self.code.t(dind);
        let n = self.code.n(dind);
        let mut rescode = true;
        let mut j: usize = 0;
        while j < mus.len()
            invariant
                f.q() == q,
                q == code.modulus(),
                q % 2 == 1,
                code == self.code,
                t@ == code.twiddle(dind as nat),
                t@.len() == n,
                all_nonzero(t@),
                all_canonical(t@, q as nat),
                n == level_len(code, dind as nat),
                top.len() >= 2 * n,
                cw.len() >= n,
                all_canonical(top@, q as nat),
                all_canonical(cw@, q as nat),
                chall < q,
                forall|jj: int| 0 <= jj < mus.len() ==> #[trigger] mus@[jj] < n,
                j <= mus.len(),
                rescode == forall|jj: int| 0 <= jj < j ==> #[trigger] cw@[mus@[jj] as int] as int == fold_pos(
                    q,
                    t@,
                    top@,
                    n as int,
                    chall as int,
                    mus@[jj] as int,
                ),
            decreases mus.len() - j,
        {
            let m = mus[j];
            proof {
                assert(t@[m as int] != 0);
                lemma_twice_nonzero(t@[m as int] as int, q);
            }
            let v = interpdeg1(f, t[m], top[m], top[m + n], chall);
            let ok = v == cw[m];
            rescode = rescode && ok;
            j = j + 1;
        }
        if dind == 0 {
            proof {
                assert(self.code.base_code().gen().nrows() == level_len(code, 0)) by {
                    lemma2_to64();
                }
            }
            let g0 = self.code.G0code();
            let isc = g0.is_code_element(cw.as_slice());
            rescode = rescode && isc;
        }
        let p0 = poly_eval(f, poly.as_slice(), 0);
        let p1 = poly_eval(f, poly.as_slice(), 1);
        let respoly = f.add(p0, p1) == tmp;
        proof {
            lemma_add_mod_noop(upoly_eval(poly@, 0), upoly_eval(poly@, 1), q);
        }
        rescode && respoly
    }

    /// The final check of the verifier (see `final_ok`).
    fn final_check(&self, z: &[u64], lastcode: &Vec<u64>, last: &Vec<u64>, chrev: &Vec<u64>, tmp: u64) -> (r: bool)
        requires
            self.wf(),
            self.code_spec().depth().unwrap() > 0,
            z.len() == self.vars(),
            chrev.len() == self.code_spec().depth().unwrap(),
            lastcode.len() == self.code_spec().base_n(),
            all_canonical(z@, self.code_spec().modulus()),
            all_canonical(chrev@, self.code_spec().modulus()),
            all_canonical(lastcode@, self.code_spec().modulus()),
            all_canonical(last@, self.code_spec().modulus()),
            tmp < self.code_spec().modulus(),
            self.code_spec().base_k() > 1 ==> last.len() == self.code_spec().base_k(),
        ensures
            r == final_ok(self.code_spec(), z@, lastcode@, last@, chrev@, tmp as int),
    {
        let ghost code = self.code;
        let ghost q = code.modulus() as int;
        let f = self.code.ring();
        proof {
            use_type_invariant(f);
            self.code.lemma_base_code();
            lemma2_to64();
        }
        let d = self.code.d();
        let k0 = self.code.k0();
        let n0 = self.g0_rows();
        if k0 == 1 {
            proof {
                if self.varcount > d {
                    lemma_pow2_strictly_increases(0, (self.varcount - d) as nat);
                }
                assert(z.len() == d);
            }
            let mb = MultilinearBasis::new(f, z);
            let e = mb.evaluate(chrev.as_slice());
            if e == 0 {
                return false;
            }
            let m = f.div(tmp, e);
            let msg: Vec<u64> = vec![m];
            proof {
                assert(msg@ == seq![fdiv(tmp as int, e as int, q) as u64]);
                assert(pow2(0) == msg@.len() / code.base_k());
                lemma_mul_basics(code.base_n() as int);
            }
            let enc = self.code.encode(msg.as_slice());
            proof {
                assert(ints(enc@) == fold_encode(&code, msg@, 0));
                crate::codes::lemma_fold_encode_len(&code, msg@, 0);
                lemma_mul_basics(code.base_n() as int);
            }
            let mut i: usize = 0;
            while i < n0
                invariant
                    n0 == code.base_n(),
                    code == self.code_spec(),
                    q == code.modulus(),
                    code.base_k() == 1,
                    e == eq_eval(z@, chrev@) % q,
                    e != 0,
                    msg@ == seq![fdiv(tmp as int, e as int, q) as u64],
                    enc.len() == n0,
                    lastcode.len() == n0,
                    ints(enc@) == fold_encode(&code, msg@, 0),
                    i <= n0,
                    forall|k: int| 0 <= k < i ==> #[trigger] lastcode@[k] as int == fold_encode(&code, msg@, 0)[k],
                decreases n0 - i,
            {
                if enc[i] != lastcode[i] {
                    proof {
                        assert(ints(enc@)[i as int] == enc@[i as int] as int);
                        assert(lastcode@[i as int] as int != fold_encode(&code, msg@, 0)[i as int]);
                    }
                    return false;
                }
                proof {
                    assert(ints(enc@)[i as int] == enc@[i as int] as int);
                }
                i = i + 1;
            }
            true
        } else {
            let kappa = self.varcount - d;
            let zlo = vstd::slice::slice_subrange(z, 0, kappa);
            let zhi = vstd::slice::slice_subrange(z, kappa, z.len());
            proof {
                assert forall|t: int| 0 <= t < zlo@.len() implies #[trigger] zlo@[t] < q by {
                    assert(zlo@[t] == z@[t]);
                }
                assert forall|t: int| 0 <= t < zhi@.len() implies #[trigger] zhi@[t] < q by {
                    assert(zhi@[t] == z@[kappa + t]);
                }
                assert(pow2(1) == last@.len() / code.base_k() || pow2(0) == last@.len() / code.base_k());
                lemma_div_multiples_vanish(1, code.base_k() as int);
                lemma_mod_multiples_basic(1, code.base_k() as int);
                lemma_fundamental_div_mod(code.base_n() as int, code.base_k() as int);
                lemma_mul_is_commutative(code.base_k() as int, (code.base_n() / code.base_k()) as int);
            }
            let encm = self.code.encode(last.as_slice());
            let mut eqv = eq_evals(f, zlo);
            proof {
                assert(eqv@ =~= Seq::new(pow2(kappa as nat), |k: int| (eq_point(zlo@, k as nat) % q) as u64));
            }
            let ghost eqv0 = eqv@;
            evalscalars_to_coeffscalars(f, kappa, eqv.as_mut_slice());
            let ev = crate::multilinear::sum_over_hypercube_withscalars(f, eqv.as_slice(), last.as_slice());
            let mb = MultilinearBasis::new(f, zhi);
            let ehi = mb.evaluate(chrev.as_slice());
            let rhs = f.mul(ev, ehi);
            proof {
                assert(ints(encm@) == fold_encode(&code, last@, 0));
                crate::codes::lemma_fold_encode_len(&code, last@, 0);
                lemma_mul_basics(code.base_n() as int);
                assert(eqv0 == Seq::new(pow2(kappa as nat), |k: int| (eq_point(zlo@, k as nat) % q) as u64));
                assert(ints(eqv@) == reduce(transposed_layers(ints(eqv0), kappa as nat), q));
                assert forall|k: int| 0 <= k < eqv@.len() implies #[trigger] eqv@[k] as int == reduce(transposed_layers(ints(eqv0), kappa as nat), q)[k] by {
                    assert(ints(eqv@)[k] == eqv@[k] as int);
                }
                let scal = reduce(transposed_layers(ints(eqv0), kappa as nat), q);
                crate::hypercube::lemma_layers_len(ints(eqv0), 0, kappa as nat);
                lemma_sum_ext(
                    if last@.len() <= eqv@.len() { last@.len() } else { eqv@.len() },
                    |i: int| last@[i] * eqv@[i],
                    |i: int| last@[i] * scal[i],
                );
            }
            let mut i: usize = 0;
            while i < n0
                invariant
                    n0 == code.base_n(),
                    code == self.code_spec(),
                    code.base_k() != 1,
                    encm.len() == n0,
                    lastcode.len() == n0,
                    ints(encm@) == fold_encode(&code, last@, 0),
                    i <= n0,
                    forall|k: int| 0 <= k < i ==> #[trigger] lastcode@[k] as int == fold_encode(&code, last@, 0)[k],
                decreases n0 - i,
            {
                if encm[i] != lastcode[i] {
                    proof {
                        assert(ints(encm@)[i as int] == encm@[i as int] as int);
                        assert(lastcode@[i as int] as int != fold_encode(&code, last@, 0)[i as int]);
                    }
                    return false;
                }
                proof {
                    assert(ints(encm@)[i as int] == encm@[i as int] as int);
                }
                i = i + 1;
            }
            proof {
                lemma_mul_mod_noop_right(ev as int, eq_eval(zhi@, chrev@), q);
                assert(zhi@ == z@.subrange(kappa as int, z@.len() as int));
                assert(zlo@ == z@.subrange(0, kappa as int));
            }
            tmp == rhs
        }
    }

    /// The number of rows of the base code.
    fn g0_rows(&self) -> (r: usize)
        requires
            self.wf(),
        ensures
            r == self.code_spec().base_n(),
    {
        proof {
            self.code.lemma_base_code();
        }
        self.code.G0code().generator().rows()
    }
}

/// A spot-check position `m` of a codeword of length `2 L` maps into the
/// first half, of length `L`.
pub proof fn lemma_fold_position(code: RSFoldableCode, mus: Seq<usize>, dind: nat)
    requires
        dind > 0,
        forall|j: int| 0 <= j < mus.len() ==> #[trigger] mus[j] < level_len(code, dind),
    ensures
        forall|j: int| 0 <= j < mus.len() ==> #[trigger] next_mus(code, mus, dind)[j] < level_len(code, (dind - 1) as nat),
{
    lemma_pow2_unfold(dind);
    lemma_mul_is_associative(code.base_n() as int, 2, pow2((dind - 1) as nat) as int);
    lemma_mul_is_commutative(code.base_n() as int, 2);
    lemma_mul_is_associative(2, code.base_n() as int, pow2((dind - 1) as nat) as int);
}

/// The level lengths fit where the deepest one does.
pub proof fn lemma_level_len_bound(code: RSFoldableCode, a: nat, b: nat)
    requires
        a <= b,
    ensures
        level_len(code, a) <= level_len(code, b),
{
    if a < b {
        lemma_pow2_strictly_increases(a, b);
    }
    lemma_mul_inequality(pow2(a) as int, pow2(b) as int, code.base_n() as int);
    lemma_mul_is_commutative(pow2(a) as int, code.base_n() as int);
    lemma_mul_is_commutative(pow2(b) as int, code.base_n() as int);
}

impl BaseFoldPCS {
    /// The spot-check positions after a round at level `dind`.
    fn fold_mus(&self, mus: &mut Vec<usize>, dind: usize)
        requires
            self.wf(),
            0 < dind <= self.code_spec().depth().unwrap(),
            forall|j: int| 0 <= j < old(mus).len() ==> #[trigger] old(mus)@[j] < level_len(self.code_spec(), dind as nat),
        ensures
            final(mus)@ == next_mus(self.code_spec(), old(mus)@, dind as nat),
            forall|j: int| 0 <= j < final(mus).len() ==> #[trigger] final(mus)@[j] < level_len(self.code_spec(), (dind - 1) as nat),
    {
        proof {
            lemma_fold_position(self.code, mus@, dind as nat);
            lemma_level_len_bound(self.code, (dind - 1) as nat, self.code.depth().unwrap());
        }
        let ghost m0 = mus@;
        let half = self.code.n(dind - 1);
        let mut j: usize = 0;
        while j < mus.len()
            invariant
                half == level_len(self.code_spec(), (dind - 1) as nat),
                0 < dind,
                mus.len() == m0.len(),
                j <= mus.len(),
                forall|jj: int| 0 <= jj < j ==> #[trigger] mus@[jj] == next_mus(self.code_spec(), m0, dind as nat)[jj],
                forall|jj: int| j <= jj < mus.len() ==> #[trigger] mus@[jj] == m0[jj],
            decreases m0.len() - j,
        {
            if mus[j] >= half {
                let v = mus[j] - half;
                mus.set(j, v);
            }
            j = j + 1;
        }
        proof {
            assert(mus@ =~= next_mus(self.code_spec(), m0, dind as nat));
        }
    }

    /// The verifier with the given challenges (one per round, highest
    /// variable first) and spot-check positions: folding consistency at the
    /// positions, sumcheck consistency, and the final check.
    pub fn verify_with(
        &self,
        com: &BaseFoldCommitment,
        z: &[u64],
        y: u64,
        proof: &BaseFoldProof,
        challs: &[u64],
        mu: &[usize],
    ) -> (r: bool)
        requires
            self.verify_shapes(
                com.code_el@,
                z@,
                y,
                crate::linsolve::views(proof.code_els@),
                crate::linsolve::views(proof.sumcheck_els@),
                proof.sumcheck_last@,
            ),
            self.code_spec().depth().unwrap() > 0,
            challs.len() == self.code_spec().depth().unwrap(),
            all_canonical(challs@, self.code_spec().modulus()),
            forall|j: int| 0 <= j < mu.len() ==> #[trigger] mu@[j] < level_len(self.code_spec(), (self.code_spec().depth().unwrap() - 1) as nat),
        ensures
            r == basefold_accepts(
                self.code_spec(),
                com.code_el@,
                z@,
                y as int,
                crate::linsolve::views(proof.code_els@),
                crate::linsolve::views(proof.sumcheck_els@),
                proof.sumcheck_last@,
                challs@,
                mu@,
            ),
    {
        let ghost code = self.code;
        let ghost q = code.modulus() as int;
        let ghost codes = crate::linsolve::views(proof.code_els@);
        let ghost polys = crate::linsolve::views(proof.sumcheck_els@);
        let f = self.code.ring();
        proof {
            use_type_invariant(f);
            self.code.lemma_base_code();
        }
        let d = self.code.d();
        let k0 = self.code.k0();
        if proof.code_els.len() != d || proof.sumcheck_els.len() != d || (proof.sumcheck_last.len() > 0) == (k0 == 1) {
            return false;
        }
        let mut mus: Vec<usize> = Vec::new();
        let mut j: usize = 0;
        while j < mu.len()
            invariant
                j <= mu.len(),
                mus@ == mu@.subrange(0, j as int),
            decreases mu.len() - j,
        {
            mus.push(mu[j]);
            j = j + 1;
        }
        proof {
            assert(mu@.subrange(0, mu@.len() as int) =~= mu@);
        }
        let mut tmp = y;
        let mut i: usize = 0;
        while i < d
            invariant
                self.verify_shapes(com.code_el@, z@, y, codes, polys, proof.sumcheck_last@),
                code == self.code_spec(),
                q == code.modulus(),
                f.q() == q,
                d == code.depth().unwrap(),
                codes == crate::linsolve::views(proof.code_els@),
                polys == crate::linsolve::views(proof.sumcheck_els@),
                codes.len() == d,
                polys.len() == d,
                challs.len() == d,
                all_canonical(challs@, q as nat),
                i <= d,
                mus@ == mus_at(code, mu@, d as nat, i as nat),
                i < d ==> forall|jj: int| 0 <= jj < mus.len() ==> #[trigger] mus@[jj] < level_len(code, (d - 1 - i) as nat),
                tmp == tmp_at(polys, challs@, y as int, q, i as nat),
                tmp < q,
                forall|ii: int|
                    0 <= ii < i ==> #[trigger] round_ok(
                        code,
                        (d - 1 - ii) as nat,
                        top_at(com.code_el@, codes, ii),
                        codes[ii],
                        polys[ii],
                        tmp_at(polys, challs@, y as int, q, ii as nat),
                        challs@[ii] as int,
                        mus_at(code, mu@, d as nat, ii as nat),
                    ),
            decreases d - i,
        {
            let dind = d - 1 - i;
            let top = if i == 0 {
                &com.code_el
            } else {
                &proof.code_els[i - 1]
            };
            proof {
                assert(top@ == top_at(com.code_el@, codes, i as int));
                assert(codes[i as int] == proof.code_els@[i as int]@);
                assert(polys[i as int] == proof.sumcheck_els@[i as int]@);
                assert(all_canonical(codes[i as int], q as nat));
                assert(all_canonical(polys[i as int], q as nat));
                if i > 0 {
                    assert(all_canonical(codes[i - 1], q as nat));
                }
            }
            let ok = self.round_check(dind, top, &proof.code_els[i], &proof.sumcheck_els[i], tmp, challs[i], &mus);
            if !ok {
                proof {
                    assert(!round_ok(
                        code,
                        (d - 1 - i) as nat,
                        top_at(com.code_el@, codes, i as int),
                        codes[i as int],
                        polys[i as int],
                        tmp_at(polys, challs@, y as int, q, i as nat),
                        challs@[i as int] as int,
                        mus_at(code, mu@, d as nat, i as nat),
                    ));
                    assert(!basefold_accepts(
                        self.code_spec(),
                        com.code_el@,
                        z@,
                        y as int,
                        codes,
                        polys,
                        proof.sumcheck_last@,
                        challs@,
                        mu@,
                    )) by {
                        if basefold_accepts(
                            self.code_spec(),
                            com.code_el@,
                            z@,
                            y as int,
                            codes,
                            polys,
                            proof.sumcheck_last@,
                            challs@,
                            mu@,
                        ) {
                            let ii = i as int;
                            assert(0 <= ii < d);
                            assert(round_ok(
                                code,
                                (d - 1 - ii) as nat,
                                top_at(com.code_el@, codes, ii),
                                codes[ii],
                                polys[ii],
                                tmp_at(polys, challs@, y as int, q, ii as nat),
                                challs@[ii] as int,
                                mus_at(code, mu@, d as nat, ii as nat),
                            ));
                            assert(false);
                        }
                    }
                }
                return false;
            }
            if dind > 0 {
                self.fold_mus(&mut mus, dind);
            }
            tmp = poly_eval(f, proof.sumcheck_els[i].as_slice(), challs[i]);
            i = i + 1;
            proof {
                if dind == 0 {
                    assert(i == d);
                }
            }
        }
        let mut cv: Vec<u64> = Vec::new();
        let mut j: usize = 0;
        while j < challs.len()
            invariant
                j <= challs.len(),
                cv@ == challs@.subrange(0, j as int),
            decreases challs.len() - j,
        {
            cv.push(challs[j]);
            j = j + 1;
        }
        proof {
            assert(challs@.subrange(0, challs@.len() as int) =~= challs@);
        }
        let chrev = reversed(&cv);
        proof {
            lemma2_to64();
            assert(codes[d - 1] == proof.code_els@[d - 1]@);
            assert forall|t: int| 0 <= t < chrev@.len() implies #[trigger] chrev@[t] < q by {
                assert(chrev@[t] == challs@[d - 1 - t]);
            }
        }
        self.final_check(z, &proof.code_els[d - 1], &proof.sumcheck_last, &chrev, tmp)
    }
}


/// Spot-check positions as the verifier draws them: `reps` positions in the
/// first folded codeword.
pub open spec fn valid_queries(code: RSFoldableCode, reps: nat, mus: Seq<usize>) -> bool {
    let d = code.depth().unwrap();
    &&& mus.len() == reps
    &&& forall|j: int| 0 <= j < mus.len() ==> #[trigger] mus[j] < level_len(code, (d - 1) as nat)
}

impl BaseFoldPCS {
    /// The verifier: draws `ver_rep` spot-check positions from the thread-local
    /// generator, then the challenge of each round from the challenge
    /// generator as the rounds go, and accepts exactly when
    /// `basefold_accepts` holds for the positions and the challenges the
    /// generator gives from its state on entry. It stops drawing at the first
    /// round that fails.
    pub fn verify(&mut self, com: BaseFoldCommitment, z: &[u64], y: u64, poly: &[u64], proof: BaseFoldProof) -> (r: bool)
        requires
            old(self).verify_shapes(
                com.code_el@,
                z@,
                y,
                crate::linsolve::views(proof.code_els@),
                crate::linsolve::views(proof.sumcheck_els@),
                proof.sumcheck_last@,
            ),
            old(self).code_spec().depth().unwrap() > 0 || proof.code_els.len() != 0 || proof.sumcheck_els.len() != 0 || (
            proof.sumcheck_last.len() > 0) == (old(self).code_spec().base_k() == 1),
        ensures
            final(self).wf(),
            final(self).code_spec() == old(self).code_spec(),
            final(self).vars() == old(self).vars(),
            final(self).reps() == old(self).reps(),
            exists|k: nat|
                k <= old(self).code_spec().depth().unwrap() && #[trigger] fs_after(
                    old(self).challenger().state(),
                    old(self).code_spec().modulus(),
                    k,
                ) == final(self).challenger().state(),
            exists|mus: Seq<usize>|
                #[trigger] valid_queries(old(self).code_spec(), old(self).reps(), mus) && r == basefold_accepts(
                    old(self).code_spec(),
                    com.code_el@,
                    z@,
                    y as int,
                    crate::linsolve::views(proof.code_els@),
                    crate::linsolve::views(proof.sumcheck_els@),
                    proof.sumcheck_last@,
                    old(self).round_challenges(),
                    mus,
                ),
    {
        let ghost code = self.code;
        let ghost q = code.modulus() as int;
        let ghost reps = self.ver_rep as nat;
        let ghost codes = crate::linsolve::views(proof.code_els@);
        let ghost polys = crate::linsolve::views(proof.sumcheck_els@);
        let ghost s0 = self.fs.state();
        let ghost qn = code.modulus();
        let ghost allch = fs_challenges(s0, qn, code.depth().unwrap());
        let f = self.code.ring();
        proof {
            use_type_invariant(f);
            self.code.lemma_base_code();
            lemma_fs_challenges_valid(s0, qn, code.depth().unwrap());
            assert(fs_after(s0, qn, 0) == s0);
            if code.depth().unwrap() > 0 {
                lemma_level_len_bound(code, 0, (code.depth().unwrap() - 1) as nat);
                lemma_level_len_bound(code, (code.depth().unwrap() - 1) as nat, code.depth().unwrap());
            }
            lemma_pow2_pos((code.depth().unwrap() - 1) as nat);
            lemma_mul_strictly_positive(code.base_n() as int, pow2((code.depth().unwrap() - 1) as nat) as int);
            assert(f.q() > 1);
        }
        let d = self.code.d();
        let k0 = self.code.k0();
        if proof.code_els.len() != d || proof.sumcheck_els.len() != d || (proof.sumcheck_last.len() > 0) == (k0 == 1) {
            proof {
                let musw = Seq::new(reps, |j: int| 0usize);
                assert(valid_queries(code, reps, musw));
                assert(codes.len() == proof.code_els.len());
                assert(polys.len() == proof.sumcheck_els.len());
                assert(!basefold_accepts(code, com.code_el@, z@, y as int, codes, polys, proof.sumcheck_last@, allch, musw));
                assert(code == old(self).code_spec());
                assert(reps == old(self).reps());
                assert(valid_queries(old(self).code_spec(), old(self).reps(), musw));
                assert(fs_after(old(self).challenger().state(), old(self).code_spec().modulus(), 0) == self.challenger().state());
            }
            return false;
        }
        assert(d > 0);
        // the spot-check positions in the first folded codeword
        let nmu = self.code.n(d - 1);
        let mut mus: Vec<usize> = Vec::new();
        let mut j: usize = 0;
        while j < self.ver_rep
            invariant
                j <= self.ver_rep,
                mus.len() == j,
                nmu == level_len(code, (d - 1) as nat),
                nmu > 0,
                forall|jj: int| 0 <= jj < j ==> #[trigger] mus@[jj] < nmu,
            decreases self.ver_rep - j,
        {
            let m = thread_index_below(nmu);
            mus.push(m);
            j = j + 1;
        }
        let ghost mus0 = mus@;
        let opened = self.open(&com, poly);
        let mut cv: Vec<u64> = Vec::new();
        let mut tmp = y;
        let mut i: usize = 0;
        while i < d
            invariant
                self.verify_shapes(com.code_el@, z@, y, codes, polys, proof.sumcheck_last@),
                self.code_spec() == code,
                self.reps() == reps,
                self.vars() == old(self).vars(),
                code == old(self).code_spec(),
                reps == old(self).reps(),
                q == code.modulus(),
                d == code.depth().unwrap(),
                codes == crate::linsolve::views(proof.code_els@),
                polys == crate::linsolve::views(proof.sumcheck_els@),
                codes.len() == d,
                polys.len() == d,
                mus0.len() == reps,
                forall|jj: int| 0 <= jj < mus0.len() ==> #[trigger] mus0[jj] < level_len(code, (d - 1) as nat),
                opened,
                i <= d,
                s0 == old(self).challenger().state(),
                qn == code.modulus(),
                allch == fs_challenges(s0, qn, d as nat),
                self.challenger().state() == fs_after(s0, qn, i as nat),
                cv@ == fs_challenges(s0, qn, i as nat),
                cv.len() == i,
                forall|k: int| 0 <= k < i ==> 0 < #[trigger] cv@[k] < q,
                mus@ == mus_at(code, mus0, d as nat, i as nat),
                i < d ==> forall|jj: int| 0 <= jj < mus.len() ==> #[trigger] mus@[jj] < level_len(code, (d - 1 - i) as nat),
                tmp == tmp_at(polys, cv@, y as int, q, i as nat),
                tmp < q,
                forall|ii: int|
                    0 <= ii < i ==> #[trigger] round_ok(
                        code,
                        (d - 1 - ii) as nat,
                        top_at(com.code_el@, codes, ii),
                        codes[ii],
                        polys[ii],
                        tmp_at(polys, cv@, y as int, q, ii as nat),
                        cv@[ii] as int,
                        mus_at(code, mus0, d as nat, ii as nat),
                    ),
            decreases d - i,
        {
            let chall = self.get_challenge();
            let dind = d - 1 - i;
            let top = if i == 0 {
                &com.code_el
            } else {
                &proof.code_els[i - 1]
            };
            proof {
                assert(top@ == top_at(com.code_el@, codes, i as int));
                assert(codes[i as int] == proof.code_els@[i as int]@);
                assert(polys[i as int] == proof.sumcheck_els@[i as int]@);
                assert(all_canonical(codes[i as int], q as nat));
                assert(all_canonical(polys[i as int], q as nat));
                if i > 0 {
                    assert(all_canonical(codes[i - 1], q as nat));
                }
            }
            let ok = self.round_check(dind, top, &proof.code_els[i], &proof.sumcheck_els[i], tmp, chall, &mus);
            let ghost cv0 = cv@;
            cv.push(chall);
            proof {
                assert(cv@ =~= fs_challenges(s0, qn, (i + 1) as nat));
                assert(self.challenger().state() == fs_after(s0, qn, (i + 1) as nat));
            }
            if !ok {
                proof {
                    let ext = allch;
                    assert(cv@ == fs_challenges(s0, qn, (i + 1) as nat));
                    lemma_fs_challenges_prefix(s0, qn, (i + 1) as nat, d as nat);
                    assert(ext.subrange(0, i + 1) == cv@);
                    assert(ext[i as int] == cv@[i as int]);
                    assert(ext[i as int] == chall);
                    assert(i > 0 ==> ext[i - 1] == cv@[i - 1]);
                    assert(i > 0 ==> ext[i - 1] == cv0[i - 1]);
                    assert(tmp_at(polys, ext, y as int, q, i as nat) == tmp_at(polys, cv0, y as int, q, i as nat));
                    assert(valid_queries(code, reps, mus0));
                    assert(fs_after(s0, qn, (i + 1) as nat) == self.challenger().state());
                    if basefold_accepts(code, com.code_el@, z@, y as int, codes, polys, proof.sumcheck_last@, ext, mus0) {
                        let ii = i as int;
                        assert(round_ok(
                            code,
                            (d - 1 - ii) as nat,
                            top_at(com.code_el@, codes, ii),
                            codes[ii],
                            polys[ii],
                            tmp_at(polys, ext, y as int, q, ii as nat),
                            ext[ii] as int,
                            mus_at(code, mus0, d as nat, ii as nat),
                        ));
                        assert(false);
                    }
                }
                return false;
            }
            proof {
                assert forall|ii: int| 0 <= ii < i + 1 implies #[trigger] round_ok(
                    code,
                    (d - 1 - ii) as nat,
                    top_at(com.code_el@, codes, ii),
                    codes[ii],
                    polys[ii],
                    tmp_at(polys, cv@, y as int, q, ii as nat),
                    cv@[ii] as int,
                    mus_at(code, mus0, d as nat, ii as nat),
                ) by {
                    assert(cv@[ii] == if ii < i { cv0[ii] } else { chall });
                    if ii > 0 {
                        assert(cv@[ii - 1] == cv0[ii - 1]);
                    }
                    assert(tmp_at(polys, cv@, y as int, q, ii as nat) == tmp_at(polys, cv0, y as int, q, ii as nat));
                    if ii < i {
                        assert(round_ok(
                            code,
                            (d - 1 - ii) as nat,
                            top_at(com.code_el@, codes, ii),
                            codes[ii],
                            polys[ii],
                            tmp_at(polys, cv0, y as int, q, ii as nat),
                            cv0[ii] as int,
                            mus_at(code, mus0, d as nat, ii as nat),
                        ));
                    }
                }
            }
            if dind > 0 {
                self.fold_mus(&mut mus, dind);
            }
            tmp = poly_eval(self.code.ring(), proof.sumcheck_els[i].as_slice(), chall);
            i = i + 1;
            proof {
                assert(cv@[i - 1] == chall);
                if dind == 0 {
                    assert(i == d);
                }
            }
        }
        let chrev = reversed(&cv);
        proof {
            lemma2_to64();
            assert(codes[d - 1] == proof.code_els@[d - 1]@);
            assert forall|t: int| 0 <= t < chrev@.len() implies #[trigger] chrev@[t] < q by {
                assert(chrev@[t] == cv@[d - 1 - t]);
            }
        }
        let r = self.final_check(z, &proof.code_els[d - 1], &proof.sumcheck_last, &chrev, tmp);
        proof {
            assert(valid_queries(code, reps, mus0));
            assert(cv@ == allch);
        }
        r
    }
}


/// The coefficients of the sumcheck round polynomial computed by
/// `sumcheck_sum_basefold` (see `round_line`).
pub open spec fn round_poly(coeff: Seq<u64>, z: Seq<u64>, ch: Seq<u64>, sum: Option<u64>, q: int) -> Seq<u64> {
    let (t0, t1) = round_line(coeff, z, ch, sum, q);
    let zj = z[z.len() - ch.len() - 1] as int;
    seq![
        (((1 - zj) * t0) % q) as u64,
        (((2 * zj - 1) * t0 + (1 - zj) * t1) % q) as u64,
        (((2 * zj - 1) * t1) % q) as u64,
    ]
}

/// The codeword of level `dind` folded from `top` (of level `dind + 1`) at
/// the challenge `chall`.
pub open spec fn fold_level(code: RSFoldableCode, top: Seq<u64>, dind: nat, chall: int) -> Seq<u64> {
    let n = level_len(code, dind);
    Seq::new(n, |m: int| fold_pos(code.modulus() as int, code.twiddle(dind), top, n as int, chall, m) as u64)
}

/// The codeword the prover sends in round `i`, for the challenges `ch`.
pub open spec fn prover_code(code: RSFoldableCode, com: Seq<u64>, ch: Seq<u64>, i: nat) -> Seq<u64>
    decreases i,
{
    let d = code.depth().unwrap();
    let top = if i == 0 {
        com
    } else {
        prover_code(code, com, ch, (i - 1) as nat)
    };
    fold_level(code, top, (d - 1 - i) as nat, ch[i as int] as int)
}

/// The round polynomial the prover sends in round `i`, for the challenges
/// `ch`: with the claimed sum carried from round to round where `y` is
/// given, else computed from the polynomial alone.
pub open spec fn prover_poly(coeff: Seq<u64>, z: Seq<u64>, ch: Seq<u64>, y: Option<u64>, q: int, i: nat) -> Seq<u64>
    decreases i, 1nat,
{
    round_poly(coeff, z, ch.subrange(0, i as int).reverse(), prover_sum(coeff, z, ch, y, q, i), q)
}

/// The claimed sum the prover goes into round `i` with, where `y` is given:
/// `y`, then the previous round polynomial at the previous challenge.
pub open spec fn prover_sum(coeff: Seq<u64>, z: Seq<u64>, ch: Seq<u64>, y: Option<u64>, q: int, i: nat) -> Option<u64>
    decreases i, 0nat,
{
    match y {
        Some(y0) => Some(
            if i == 0 {
                y0
            } else {
                (upoly_eval(prover_poly(coeff, z, ch, y, q, (i - 1) as nat), ch[i - 1] as int) % q) as u64
            },
        ),
        None => None,
    }
}

/// Challenges as the prover draws them: one nonzero field element per round.
pub open spec fn valid_challenges(code: RSFoldableCode, ch: Seq<u64>) -> bool {
    &&& ch.len() == code.depth().unwrap()
    &&& forall|k: int| 0 <= k < ch.len() ==> 0 < #[trigger] ch[k] < code.modulus()
}

/// The evaluation proof of the polynomial with coefficients `coeff` at `z`
/// for the challenges `ch`: the folded codewords, the round polynomials, and,
/// where the base messages are longer than one, the coefficients left after
/// all challenges.
pub open spec fn eval_proof(
    code: RSFoldableCode,
    com: Seq<u64>,
    coeff: Seq<u64>,
    z: Seq<u64>,
    y: Option<u64>,
    ch: Seq<u64>,
    codes: Seq<Seq<u64>>,
    polys: Seq<Seq<u64>>,
    last: Seq<u64>,
) -> bool {
    let d = code.depth().unwrap();
    let q = code.modulus() as int;
    &&& codes.len() == d
    &&& polys.len() == if d == 0 { 1 } else { d }
    &&& forall|i: int| 0 <= i < d ==> #[trigger] codes[i] == prover_code(code, com, ch, i as nat)
    &&& forall|i: int| 0 <= i < polys.len() ==> #[trigger] polys[i] == prover_poly(coeff, z, ch, y, q, i as nat)
    &&& last == if code.base_k() > 1 {
        restrict_coeffs(coeff, ch.reverse(), (z.len() - d) as nat, q)
    } else {
        Seq::empty()
    }
}

/// The prover's codeword of a round depends only on the challenges up to it.
proof fn lemma_prover_code_prefix(code: RSFoldableCode, com: Seq<u64>, c1: Seq<u64>, c2: Seq<u64>, i: nat)
    requires
        i < c1.len(),
        i < c2.len(),
        forall|k: int| 0 <= k <= i ==> c1[k] == c2[k],
    ensures
        prover_code(code, com, c1, i) == prover_code(code, com, c2, i),
    decreases i,
{
    if i > 0 {
        lemma_prover_code_prefix(code, com, c1, c2, (i - 1) as nat);
    }
}

/// The prover's round polynomial depends only on the challenges before it.
proof fn lemma_prover_poly_prefix(coeff: Seq<u64>, z: Seq<u64>, c1: Seq<u64>, c2: Seq<u64>, y: Option<u64>, q: int, i: nat)
    requires
        i <= c1.len(),
        i <= c2.len(),
        forall|k: int| 0 <= k < i ==> c1[k] == c2[k],
    ensures
        prover_poly(coeff, z, c1, y, q, i) == prover_poly(coeff, z, c2, y, q, i),
    decreases i,
{
    if i > 0 {
        lemma_prover_poly_prefix(coeff, z, c1, c2, y, q, (i - 1) as nat);
    }
    assert(c1.subrange(0, i as int) =~= c2.subrange(0, i as int));
}

impl BaseFoldPCS {
    /// The codeword of level `dind` folded from `top` at `chall`.
    fn fold_codeword(&self, top: &Vec<u64>, dind: usize, chall: u64) -> (r: Vec<u64>)
        requires
            self.wf(),
            dind < self.code_spec().depth().unwrap(),
            self.code_spec().modulus() % 2 == 1,
            all_nonzero(self.code_spec().twiddle(dind as nat)),
            top.len() == level_len(self.code_spec(), dind as nat + 1),
            all_canonical(top@, self.code_spec().modulus()),
            chall < self.code_spec().modulus(),
        ensures
            r@ == fold_level(self.code_spec(), top@, dind as nat, chall as int),
            all_canonical(r@, self.code_spec().modulus()),
    {
        let ghost code = self.code;
        let ghost q = code.modulus() as int;
        let f = self.code.ring();
        proof {
            use_type_invariant(f);
            self.code.lemma_base_code();
            lemma_pow2_unfold(dind as nat + 1);
            lemma_mul_is_associative(code.base_n() as int, 2, pow2(dind as nat) as int);
            lemma_mul_is_commutative(code.base_n() as int, 2);
            lemma_mul_is_associative(2, code.base_n() as int, pow2(dind as nat) as int);
            lemma_level_len_bound(code, dind as nat + 1, code.depth().unwrap());
        }
        let t = self.code.t(dind);
        let n = self.code.n(dind);
        let mut r: Vec<u64> = Vec::new();
        let mut m: usize = 0;
        while m < n
            invariant
                f.q() == q,
                q == code.modulus(),
                q % 2 == 1,
                code == self.code,
                t@ == code.twiddle(dind as nat),
                t@.len() == n,
                all_nonzero(t@),
                all_canonical(t@, q as nat),
                n == level_len(code, dind as nat),
                top.len() == 2 * n,
                all_canonical(top@, q as nat),
                chall < q,
                m <= n,
                r.len() == m,
                forall|k: int| 0 <= k < m ==> #[trigger] r@[k] == fold_level(code, top@, dind as nat, chall as int)[k],
                all_canonical(r@, q as nat),
            decreases n - m,
        {
            proof {
                assert(t@[m as int] != 0);
                lemma_twice_nonzero(t@[m as int] as int, q);
            }
            let v = interpdeg1(f, t[m], top[m], top[m + n], chall);
            r.push(v);
            m = m + 1;
        }
        proof {
            assert(r@ =~= fold_level(code, top@, dind as nat, chall as int));
        }
        r
    }

    /// The prover's rounds: for each level from the top, a challenge, the
    /// folded codeword and the sumcheck round polynomial, with the claimed
    /// sum `y` carried along where given; the challenge generator is left as
    /// it was.
    fn prove_rounds(&mut self, com: &BaseFoldCommitment, z: &[u64], y: Option<u64>, poly: &[u64]) -> (p: BaseFoldProof)
        requires
            old(self).wf(),
            old(self).vars() > 0,
            old(self).code_spec().modulus() % 2 == 1,
            forall|dind: nat|
                dind < old(self).code_spec().depth().unwrap() ==> all_nonzero(#[trigger] old(self).code_spec().twiddle(dind)),
            z.len() == old(self).vars(),
            all_canonical(z@, old(self).code_spec().modulus()),
            y matches Some(s) ==> s < old(self).code_spec().modulus(),
            poly.len() == pow2(old(self).vars()),
            all_canonical(poly@, old(self).code_spec().modulus()),
            com.code_el.len() == level_len(old(self).code_spec(), old(self).code_spec().depth().unwrap()),
            all_canonical(com.code_el@, old(self).code_spec().modulus()),
        ensures
            *final(self) == *old(self),
            valid_challenges(old(self).code_spec(), old(self).round_challenges()),
            proof_shapes(
                old(self).code_spec(),
                crate::linsolve::views(p.code_els@),
                crate::linsolve::views(p.sumcheck_els@),
                p.sumcheck_last@,
            ),
            eval_proof(
                old(self).code_spec(),
                com.code_el@,
                poly@,
                z@,
                y,
                old(self).round_challenges(),
                crate::linsolve::views(p.code_els@),
                crate::linsolve::views(p.sumcheck_els@),
                p.sumcheck_last@,
            ),
    {
        let ghost code = self.code;
        let ghost q = code.modulus() as int;
        let ghost s0 = *self;
        let ghost st0 = self.fs.state();
        let ghost qn = code.modulus();
        let fsclone = self.fs.clone();
        let f0 = self.code.ring();
        proof {
            use_type_invariant(f0);
            self.code.lemma_base_code();
        }
        let d = self.code.d();
        let vc = self.varcount;
        let k0 = self.code.k0();
        let mut codes: Vec<Vec<u64>> = Vec::new();
        let mut polys: Vec<Vec<u64>> = Vec::new();
        let mut cv: Vec<u64> = Vec::new();
        let mut chrev: Vec<u64> = Vec::new();
        let h0 = sumcheck_sum_basefold(self.code.ring(), poly, z, chrev.as_slice(), y);
        proof {
            assert(cv@.subrange(0, 0) =~= Seq::<u64>::empty());
            assert(chrev@ =~= cv@.subrange(0, 0).reverse());
            assert(h0@ == prover_poly(poly@, z@, cv@, y, q, 0));
        }
        polys.push(h0);
        let mut i: usize = 0;
        while i < d
            invariant
                self.wf(),
                self.code == code,
                self.varcount == s0.varcount,
                self.ver_rep == s0.ver_rep,
                s0.code == code,
                fsclone == s0.fs,
                q == code.modulus(),
                q % 2 == 1,
                d == code.depth().unwrap(),
                d <= vc,
                vc > 0,
                vc == z.len(),
                forall|dind: nat| dind < d ==> all_nonzero(#[trigger] code.twiddle(dind)),
                z.len() == s0.vars(),
                all_canonical(z@, q as nat),
                y matches Some(s) ==> s < q,
                poly.len() == pow2(vc as nat),
                all_canonical(poly@, q as nat),
                com.code_el.len() == level_len(code, d as nat),
                all_canonical(com.code_el@, q as nat),
                i <= d,
                st0 == s0.fs.state(),
                qn == code.modulus(),
                cv@ == fs_challenges(st0, qn, i as nat),
                self.fs.state() == fs_after(st0, qn, i as nat),
                cv.len() == i,
                forall|k: int| 0 <= k < i ==> 0 < #[trigger] cv@[k] < q,
                chrev@ == cv@.reverse(),
                codes.len() == i,
                forall|k: int| 0 <= k < i ==> (#[trigger] codes@[k])@ == prover_code(code, com.code_el@, cv@, k as nat),
                forall|k: int| 0 <= k < i ==> all_canonical((#[trigger] codes@[k])@, q as nat),
                forall|k: int| 0 <= k < i ==> (#[trigger] codes@[k])@.len() == level_len(code, (d - 1 - k) as nat),
                polys.len() == if i < d || d == 0 { i + 1 } else { d as int },
                forall|k: int| 0 <= k < polys.len() ==> (#[trigger] polys@[k])@ == prover_poly(poly@, z@, cv@, y, q, k as nat),
                forall|k: int| 0 <= k < polys.len() ==> all_canonical((#[trigger] polys@[k])@, q as nat),
            decreases d - i,
        {
            let chall = self.get_challenge();
            let dind = d - 1 - i;
            let ghost cv0 = cv@;
            let newcode = if i == 0 {
                self.fold_codeword(&com.code_el, dind, chall)
            } else {
                proof {
                    assert(codes@[i - 1]@ == prover_code(code, com.code_el@, cv@, (i - 1) as nat));
                    assert(codes@[i - 1]@.len() == level_len(code, dind as nat + 1));
                    assert(all_canonical(codes@[i - 1]@, q as nat));
                }
                self.fold_codeword(&codes[i - 1], dind, chall)
            };
            cv.push(chall);
            chrev = reversed(&cv);
            proof {
                assert(cv@ =~= fs_challenges(st0, qn, (i + 1) as nat));
                assert(self.fs.state() == fs_after(st0, qn, (i + 1) as nat));
                assert forall|k: int| 0 <= k < i implies (#[trigger] codes@[k])@ == prover_code(code, com.code_el@, cv@, k as nat) by {
                    lemma_prover_code_prefix(code, com.code_el@, cv0, cv@, k as nat);
                }
                lemma_prover_code_prefix(code, com.code_el@, cv0.push(chall), cv@, i as nat);
                if i > 0 {
                    lemma_prover_code_prefix(code, com.code_el@, cv0, cv@, (i - 1) as nat);
                }
                assert(newcode@ == prover_code(code, com.code_el@, cv@, i as nat));
                assert forall|k: int| 0 <= k < polys.len() implies (#[trigger] polys@[k])@ == prover_poly(poly@, z@, cv@, y, q, k as nat) by {
                    lemma_prover_poly_prefix(poly@, z@, cv0, cv@, y, q, k as nat);
                }
            }
            codes.push(newcode);
            if dind != 0 {
                let sum = match y {
                    Some(_) => Some(poly_eval(self.code.ring(), polys[i].as_slice(), chall)),
                    None => None,
                };
                proof {
                    assert(cv@.subrange(0, i + 1) =~= cv@);
                    lemma_pow2_pos(vc as nat);
                }
                let h = sumcheck_sum_basefold(self.code.ring(), poly, z, chrev.as_slice(), sum);
                proof {
                    assert(cv@[i as int] == chall);
                    assert(h@ == prover_poly(poly@, z@, cv@, y, q, (i + 1) as nat));
                }
                polys.push(h);
            }
            i = i + 1;
        }
        let last = if k0 > 1 {
            evaluate_at_fromcoeff(self.code.ring(), vc, chrev.as_slice(), poly)
        } else {
            Vec::new()
        };
        proof {
            assert(last@ =~= if code.base_k() > 1 {
                restrict_coeffs(poly@, cv@.reverse(), (z.len() - d) as nat, q)
            } else {
                Seq::empty()
            });
        }
        self.fs = fsclone;
        let p = BaseFoldProof { code_els: codes, sumcheck_els: polys, sumcheck_last: last };
        proof {
            assert(cv@ == fs_challenges(st0, qn, d as nat));
            assert(valid_challenges(code, cv@));
            let vcodes = crate::linsolve::views(p.code_els@);
            let vpolys = crate::linsolve::views(p.sumcheck_els@);
            assert forall|k: int| 0 <= k < vcodes.len() implies all_canonical(#[trigger] vcodes[k], code.modulus()) by {
                assert(vcodes[k] == codes@[k]@);
            }
            assert forall|k: int| 0 <= k < d implies (#[trigger] vcodes[k]).len() == level_len(code, (d - 1 - k) as nat) by {
                assert(vcodes[k] == codes@[k]@);
            }
            assert forall|k: int| 0 <= k < vpolys.len() implies all_canonical(#[trigger] vpolys[k], code.modulus()) by {
                assert(vpolys[k] == polys@[k]@);
            }
            assert(eval_proof(code, com.code_el@, poly@, z@, y, cv@, crate::linsolve::views(p.code_els@), crate::linsolve::views(p.sumcheck_els@), p.sumcheck_last@));
        }
        p
    }
}

impl BaseFoldPCS {
    /// The evaluation proof at `z` of the polynomial with the `2^varcount`
    /// coefficients `poly`, committed in `com`: each round polynomial is
    /// computed from the polynomial itself, and the claimed value `_y` is not
    /// used. The challenge generator is left as it was, so that the verifier
    /// draws the same challenges.
    pub fn eval(&mut self, com: &BaseFoldCommitment, z: &[u64], _y: u64, poly: &[u64]) -> (p: BaseFoldProof)
        requires
            old(self).wf(),
            old(self).vars() > 0,
            old(self).code_spec().modulus() % 2 == 1,
            forall|dind: nat|
                dind < old(self).code_spec().depth().unwrap() ==> all_nonzero(#[trigger] old(self).code_spec().twiddle(dind)),
            z.len() == old(self).vars(),
            all_canonical(z@, old(self).code_spec().modulus()),
            poly.len() == pow2(old(self).vars()),
            all_canonical(poly@, old(self).code_spec().modulus()),
            com.code_el.len() == level_len(old(self).code_spec(), old(self).code_spec().depth().unwrap()),
            all_canonical(com.code_el@, old(self).code_spec().modulus()),
        ensures
            *final(self) == *old(self),
            valid_challenges(old(self).code_spec(), old(self).round_challenges()),
            proof_shapes(
                old(self).code_spec(),
                crate::linsolve::views(p.code_els@),
                crate::linsolve::views(p.sumcheck_els@),
                p.sumcheck_last@,
            ),
            eval_proof(
                old(self).code_spec(),
                com.code_el@,
                poly@,
                z@,
                None,
                old(self).round_challenges(),
                crate::linsolve::views(p.code_els@),
                crate::linsolve::views(p.sumcheck_els@),
                p.sumcheck_last@,
            ),
    {
        self.prove_rounds(com, z, None, poly)
    }

    /// The evaluation proof as `eval`, with each round polynomial's constant
    /// part taken from the claimed sum, starting from `y`.
    pub fn eval_fast(&mut self, com: &BaseFoldCommitment, z: &[u64], y: u64, poly: &[u64]) -> (p: BaseFoldProof)
        requires
            old(self).wf(),
            old(self).vars() > 0,
            old(self).code_spec().modulus() % 2 == 1,
            forall|dind: nat|
                dind < old(self).code_spec().depth().unwrap() ==> all_nonzero(#[trigger] old(self).code_spec().twiddle(dind)),
            z.len() == old(self).vars(),
            all_canonical(z@, old(self).code_spec().modulus()),
            y < old(self).code_spec().modulus(),
            poly.len() == pow2(old(self).vars()),
            all_canonical(poly@, old(self).code_spec().modulus()),
            com.code_el.len() == level_len(old(self).code_spec(), old(self).code_spec().depth().unwrap()),
            all_canonical(com.code_el@, old(self).code_spec().modulus()),
        ensures
            *final(self) == *old(self),
            valid_challenges(old(self).code_spec(), old(self).round_challenges()),
            proof_shapes(
                old(self).code_spec(),
                crate::linsolve::views(p.code_els@),
                crate::linsolve::views(p.sumcheck_els@),
                p.sumcheck_last@,
            ),
            eval_proof(
                old(self).code_spec(),
                com.code_el@,
                poly@,
                z@,
                Some(y),
                old(self).round_challenges(),
                crate::linsolve::views(p.code_els@),
                crate::linsolve::views(p.sumcheck_els@),
                p.sumcheck_last@,
            ),
    {
        self.prove_rounds(com, z, Some(y), poly)
    }
}

/// The size in bits of an evaluation proof with `d` rounds of `reps` spot
/// checks and base messages of length `k0`, over a field of `q` elements,
/// with authentication paths for codewords of length `nd`: the count of
/// field elements times their bits plus a worst-case path of 256-bit hashes.
pub open spec fn proof_size(d: nat, reps: nat, k0: nat, q: nat, nd: nat) -> nat {
    (d * 2 * reps + 3 * d + (if k0 == 0 { 0 } else { log2_floor(k0) })) * (log2_ceil(q) + log2_floor(nd) * 256)
}

impl BaseFoldPCS {
    /// The size in bits of an evaluation proof (see `proof_size`).
    pub fn proofsize(&self) -> (r: usize)
        requires
            self.wf(),
            proof_size(
                self.code_spec().depth().unwrap(),
                self.reps(),
                self.code_spec().base_k(),
                self.code_spec().modulus(),
                level_len(self.code_spec(), self.code_spec().depth().unwrap()),
            ) <= usize::MAX,
        ensures
            r == proof_size(
                self.code_spec().depth().unwrap(),
                self.reps(),
                self.code_spec().base_k(),
                self.code_spec().modulus(),
                level_len(self.code_spec(), self.code_spec().depth().unwrap()),
            ),
    {
        let ghost code = self.code;
        let f = self.code.ring();
        proof {
            use_type_invariant(f);
            self.code.lemma_base_code();
            lemma_pow2_pos(0);
            lemma2_to64();
        }
        let d = self.code.d();
        let k0 = self.code.k0();
        let nd = self.code.n(d);
        let lk: u64 = if k0 == 0 { 0 } else { floor_log2(k0 as u64) };
        let bits = ceil_log2(f.modulus());
        let lnd = floor_log2(nd as u64);
        proof {
            // the logarithms of 64-bit values are below 64
            lemma_log2_floor_bound(k0 as nat, 64);
            lemma_log2_floor_bound(nd as nat, 64);
            lemma_log2_floor_bound((f.q() - 1) as nat, 64);
            assert(bits >= 1);
        }
        let w: u64 = bits + lnd * 256;
        let ghost a = d * 2 * self.ver_rep;
        let ghost ps = a + 3 * d + lk;
        proof {
            assert(ps == d * 2 * self.ver_rep + 3 * d + lk);
            lemma_mul_inequality(1, w as int, ps as int);
            lemma_mul_is_commutative(ps as int, w as int);
            assert(ps * w <= usize::MAX);
            assert(0 <= d * 2 * self.ver_rep) by (nonlinear_arith);
        }
        let ps_exec = d * 2 * self.ver_rep + 3 * d + (lk as usize);
        ps_exec * (w as usize)
    }
}

/// The base-2 logarithm of a value below `2^b` is below `b`.
proof fn lemma_log2_floor_bound(n: nat, b: nat)
    requires
        n < pow2(b),
        b > 0,
    ensures
        log2_floor(n) < b,
    decreases b,
{
    if n > 1 {
        lemma_pow2_unfold(b);
        if b > 1 {
            lemma_log2_floor_bound(n / 2, (b - 1) as nat);
        } else {
            lemma2_to64();
        }
    }
}

} // verus!

verus! {

/// Completeness with the challenge generator: the evaluation proof that
/// `eval` (`yopt` is `None`) or `eval_fast` (`yopt` is `Some(y)`) makes for
/// the codeword `com` of the polynomial with coefficients `coeff` and its
/// value `y` at `z`, from a state of the scheme, is accepted by `verify`
/// started from the same state, whichever spot-check positions it draws.
/// Both draw the same challenges, as `eval` leaves the generator as it found
/// it. Where the base messages have length one, the last check divides by
/// `eq(z, challenges)`, which must not vanish.
pub proof fn lemma_eval_verify_complete(
    pcs: BaseFoldPCS,
    com: Seq<u64>,
    coeff: Seq<u64>,
    z: Seq<u64>,
    y: u64,
    yopt: Option<u64>,
    mus: Seq<usize>,
    codes: Seq<Seq<u64>>,
    polys: Seq<Seq<u64>>,
    last: Seq<u64>,
)
    requires
        pcs.wf(),
        pcs.code_spec().depth().unwrap() > 0,
        pcs.code_spec().modulus() % 2 == 1,
        forall|dind: nat|
            dind < pcs.code_spec().depth().unwrap() ==> all_nonzero(#[trigger] pcs.code_spec().twiddle(dind)),
        z.len() == pcs.vars(),
        all_canonical(z, pcs.code_spec().modulus()),
        coeff.len() == pow2(pcs.vars()),
        all_canonical(coeff, pcs.code_spec().modulus()),
        com.len() == level_len(pcs.code_spec(), pcs.code_spec().depth().unwrap()),
        ints(com) == fold_encode(&pcs.code_spec(), coeff, pcs.code_spec().depth().unwrap()),
        y as int == coeff_eval(coeff, z) % (pcs.code_spec().modulus() as int),
        yopt is None || yopt == Some(y),
        valid_queries(pcs.code_spec(), pcs.reps(), mus),
        eval_proof(pcs.code_spec(), com, coeff, z, yopt, pcs.round_challenges(), codes, polys, last),
        pcs.code_spec().base_k() == 1 ==> eq_eval(z, pcs.round_challenges().reverse()) % (pcs.code_spec().modulus() as int)
            != 0,
    ensures
        basefold_accepts(pcs.code_spec(), com, z, y as int, codes, polys, last, pcs.round_challenges(), mus),
{
    let code = pcs.code_spec();
    code.lemma_fc_wf();
    lemma_fs_challenges_valid(pcs.challenger().state(), code.modulus(), code.depth().unwrap());
    assert(valid_challenges(code, pcs.round_challenges()));
    lemma_basefold_complete(code, com, coeff, z, y, yopt, pcs.round_challenges(), mus, codes, polys, last);
}

/// With the true value `y` of the polynomial at `z`, `eval_fast` and `eval`
/// started from the same state of the scheme compute the same evaluation
/// proof: both draw the challenges `round_challenges`, and for them the
/// proof that carries the claimed sums from `y` is the proof computed from
/// the polynomial alone.
pub proof fn lemma_eval_fast_matches_eval(
    pcs: BaseFoldPCS,
    com: Seq<u64>,
    coeff: Seq<u64>,
    z: Seq<u64>,
    y: u64,
    codes: Seq<Seq<u64>>,
    polys: Seq<Seq<u64>>,
    last: Seq<u64>,
)
    requires
        pcs.wf(),
        pcs.vars() > 0,
        z.len() == pcs.vars(),
        coeff.len() == pow2(pcs.vars()),
        all_canonical(coeff, pcs.code_spec().modulus()),
        y as int == coeff_eval(coeff, z) % (pcs.code_spec().modulus() as int),
    ensures
        eval_proof(pcs.code_spec(), com, coeff, z, Some(y), pcs.round_challenges(), codes, polys, last)
            == eval_proof(pcs.code_spec(), com, coeff, z, None, pcs.round_challenges(), codes, polys, last),
{
    let code = pcs.code_spec();
    code.lemma_fc_wf();
    lemma_fs_challenges_valid(pcs.challenger().state(), code.modulus(), code.depth().unwrap());
    lemma_fast_matches_plain(code, com, coeff, z, y, pcs.round_challenges(), codes, polys, last);
}

/// Soundness with the challenge generator: the evaluation proof that
/// `eval_fast` makes from a state of the scheme for a claimed value `y` that is
/// not the polynomial's value at `z` is rejected by `verify` started from the
/// same state, whichever spot-check positions it draws, unless
/// `eq(z_top, challenges)` vanishes modulo `q` (`z_top` the last `d`
/// coordinates of `z`).
pub proof fn lemma_eval_fast_false_claim_rejected(
    pcs: BaseFoldPCS,
    com: Seq<u64>,
    coeff: Seq<u64>,
    z: Seq<u64>,
    y: u64,
    mus: Seq<usize>,
    codes: Seq<Seq<u64>>,
    polys: Seq<Seq<u64>>,
    last: Seq<u64>,
)
    requires
        pcs.wf(),
        pcs.code_spec().depth().unwrap() > 0,
        pcs.code_spec().base_n() > 0,
        pcs.code_spec().modulus() % 2 == 1,
        forall|dind: nat|
            dind < pcs.code_spec().depth().unwrap() ==> all_nonzero(#[trigger] pcs.code_spec().twiddle(dind)),
        z.len() == pcs.vars(),
        coeff.len() == pow2(pcs.vars()),
        all_canonical(coeff, pcs.code_spec().modulus()),
        com.len() == level_len(pcs.code_spec(), pcs.code_spec().depth().unwrap()),
        ints(com) == fold_encode(&pcs.code_spec(), coeff, pcs.code_spec().depth().unwrap()),
        y < pcs.code_spec().modulus(),
        y as int != coeff_eval(coeff, z) % (pcs.code_spec().modulus() as int),
        eval_proof(pcs.code_spec(), com, coeff, z, Some(y), pcs.round_challenges(), codes, polys, last),
        eq_eval(
            z.subrange(z.len() - pcs.code_spec().depth().unwrap(), z.len() as int),
            pcs.round_challenges().reverse(),
        ) % (pcs.code_spec().modulus() as int) != 0,
    ensures
        !basefold_accepts(pcs.code_spec(), com, z, y as int, codes, polys, last, pcs.round_challenges(), mus),
{
    let code = pcs.code_spec();
    code.lemma_fc_wf();
    lemma_fs_challenges_valid(pcs.challenger().state(), code.modulus(), code.depth().unwrap());
    assert(valid_challenges(code, pcs.round_challenges()));
    crate::completeness::lemma_false_claim_rejected(code, com, coeff, z, y, pcs.round_challenges(), mus, codes, polys, last);
}

} // verus!
