//! Linear codes given by a generator matrix, Reed-Solomon codes, and the
//! foldable codes built from them.
use crate::field::{all_canonical, is_prime, PrimeField};
use crate::matmul::{decimal, DenseMatrixMul, MatrixMul};
use crate::hypercube::ints;
use crate::multilinear::{lemma_pow2_split, lemma_row_index};
use crate::sums::{lemma_sum_add, lemma_sum_congruent, lemma_sum_ext, lemma_sum_scale, sum};
use vstd::arithmetic::div_mod::*;
use vstd::arithmetic::mul::*;
use vstd::arithmetic::power::pow;
use vstd::arithmetic::power2::*;
use vstd::prelude::*;

verus! {

/// A linear code: the codeword of a message is the product of the generator
/// matrix with the message.
pub trait LinearCode: Sized {
    /// The kind of generator matrix.
    type MM: MatrixMul;

    /// The generator matrix.
    spec fn gen(&self) -> Self::MM;

    /// The field of the code.
    fn ring(&self) -> (f: &PrimeField)
        requires
            self.gen().wf(),
        ensures
            f.q() == self.gen().modulus(),
    ;

    /// The generator matrix.
    fn generator(&self) -> (g: &Self::MM)
        ensures
            *g == self.gen(),
    ;

    /// The codeword of `input`: the generator times `input`.
    fn encode(&self, input: &[u64]) -> (res: Vec<u64>)
        requires
            self.gen().wf(),
            input.len() == self.gen().ncols(),
            all_canonical(input@, self.gen().modulus()),
        ensures
            res.len() == self.gen().nrows(),
            all_canonical(res@, self.gen().modulus()),
            forall|i: int|
                0 <= i < self.gen().nrows() ==> #[trigger] res[i] == sum(
                    self.gen().ncols(),
                    |j: int| self.gen().entry(i, j) * input@[j],
                ) % (self.gen().modulus() as int),
    ;

    /// Whether `input` is a codeword: the generator times some message.
    fn is_code_element(&self, input: &[u64]) -> (r: bool)
        requires
            self.gen().wf(),
            input.len() == self.gen().nrows(),
            all_canonical(input@, self.gen().modulus()),
        ensures
            r == exists|x: Seq<int>| #[trigger] encodes(&self.gen(), x, input@),
    ;
}

/// `(a - b) % q == 0` exactly when `a % q == b`, for `0 <= b < q`.
proof fn lemma_mod_diff_zero(a: int, b: int, q: int)
    requires
        0 <= b < q,
    ensures
        ((a - b) % q == 0) == (a % q == b),
{
    lemma_sub_mod_noop(a, b, q);
    lemma_small_mod(b as nat, q as nat);
    lemma_mod_bound(a, q);
    let d = a % q - b;
    if d < 0 {
        lemma_fundamental_div_mod_converse(d, q, -1, d + q);
    } else {
        lemma_small_mod(d as nat, q as nat);
    }
}

/// `y` is the product of the generator `g` with the message `x`, in `Z/qZ`.
pub open spec fn encodes<M: MatrixMul>(g: &M, x: Seq<int>, y: Seq<u64>) -> bool {
    &&& x.len() == g.ncols()
    &&& forall|i: int|
        0 <= i < g.nrows() ==> #[trigger] y[i] as int == sum(g.ncols(), |j: int| g.entry(i, j) * x[j]) % (
        g.modulus() as int)
}

/// Every encoding is a codeword: the generator times `input`, reduced, is
/// recognized by `encodes` with the message `input`.
pub proof fn lemma_encoding_is_codeword<M: MatrixMul>(g: &M, input: Seq<u64>, res: Seq<u64>)
    requires
        input.len() == g.ncols(),
        forall|i: int|
            0 <= i < g.nrows() ==> #[trigger] res[i] == sum(g.ncols(), |j: int| g.entry(i, j) * input[j]) % (
            g.modulus() as int),
    ensures
        exists|x: Seq<int>| #[trigger] encodes(g, x, res),
{
    let x = Seq::new(input.len(), |j: int| input[j] as int);
    assert forall|i: int| 0 <= i < g.nrows() implies #[trigger] res[i] as int == sum(g.ncols(), |j: int| g.entry(i, j) * x[j]) % (
    g.modulus() as int) by {
        lemma_sum_ext(g.ncols(), |j: int| g.entry(i, j) * input[j], |j: int| g.entry(i, j) * x[j]);
    }
    assert(encodes(g, x, res));
}

/// The evaluation point of row `i` of a Reed-Solomon generator matrix: the
/// image in `Z/qZ` of the integer `i + 1`, taken as an `i32`.
pub open spec fn rs_point(i: int, q: nat) -> int {
    (((i + 1) as i32) as int) % (q as int)
}

/// Calls `format!("RS_Generator_{}_{}", input_len, output_len)`: the prefix
/// and the decimal digits of the two lengths, separated by an underscore.
#[verifier::external_body]
fn describe_rs_generator(input_len: usize, output_len: usize) -> (r: String)
    ensures
        r@ == "RS_Generator_"@ + decimal(input_len as nat) + "_"@ + decimal(output_len as nat),
{
    format!("RS_Generator_{}_{}", input_len, output_len)
}

/// The Reed-Solomon code with messages of length `k` and codewords of length
/// `n`: the codeword of a message is the evaluation of the polynomial with the
/// message as coefficients at the points `1, 2, .., n` of the field.
pub struct RScode {
    field: PrimeField,
    genr: DenseMatrixMul,
}

impl RScode {
    /// The generator is well formed over the field of the code, with row `i`
    /// holding the powers `1, x_i, x_i^2, ..` of the evaluation point `x_i`.
    pub closed spec fn wf(&self) -> bool {
        &&& self.genr.wf()
        &&& self.genr.modulus() == self.field.q()
        &&& self.genr.ncols() > 0
        &&& forall|i: int, j: int|
            0 <= i < self.genr.nrows() && 0 <= j < self.genr.ncols() ==> #[trigger] self.genr.entry(i, j)
                == pow(rs_point(i, self.field.q()), j as nat) % (self.field.q() as int)
    }

    /// A well-formed code has a well-formed generator whose entry `(i, j)` is
    /// the `j`-th power of the evaluation point of row `i`.
    pub proof fn lemma_wf(&self)
        requires
            self.wf(),
        ensures
            self.gen().wf(),
            self.gen().ncols() > 0,
            forall|i: int, j: int|
                0 <= i < self.gen().nrows() && 0 <= j < self.gen().ncols() ==> #[trigger] self.gen().entry(i, j) == pow(
                    rs_point(i, self.gen().modulus()),
                    j as nat,
                ) % (self.gen().modulus() as int),
    {
    }

    /// The Reed-Solomon code for messages of length `input_len` and codewords
    /// of length `output_len`.
    pub fn new(field: &PrimeField, input_len: usize, output_len: usize) -> (code: RScode)
        requires
            input_len > 0,
            input_len * output_len <= usize::MAX,
        ensures
            code.wf(),
            code.gen().wf(),
            code.gen().modulus() == field.q(),
            code.gen().ncols() == input_len,
            code.gen().nrows() == output_len,
            forall|i: int, j: int|
                0 <= i < output_len && 0 <= j < input_len ==> #[trigger] code.gen().entry(i, j) == pow(
                    rs_point(i, field.q()),
                    j as nat,
                ) % (field.q() as int),
            code.gen().description() == "RS_Generator_"@ + decimal(input_len as nat) + "_"@ + decimal(output_len as nat),
    {
        proof {
            use_type_invariant(field);
        }
        let ghost q = field.q();
        let mut domain: Vec<u64> = Vec::new();
        let mut i: usize = 0;
        while i < output_len
            invariant
                i <= output_len,
                q == field.q(),
                domain.len() == i,
                forall|k: int| 0 <= k < domain.len() ==> #[trigger] domain@[k] == rs_point(k, q),
            decreases output_len - i,
        {
            let x = field.from_int(((i + 1) as i32) as i64);
            domain.push(x);
            i = i + 1;
        }
        Self::from_domain(field, input_len, domain)
    }

    /// The code whose generator has rows `1, x, x^2, .., x^(input_len - 1)` for
    /// the points `x` of `domain`.
    fn from_domain(field: &PrimeField, input_len: usize, domain: Vec<u64>) -> (code: RScode)
        requires
            input_len > 0,
            input_len * domain.len() <= usize::MAX,
            forall|k: int| 0 <= k < domain.len() ==> #[trigger] domain@[k] == rs_point(k, field.q()),
        ensures
            code.wf(),
            code.gen().description() == "RS_Generator_"@ + decimal(input_len as nat) + "_"@ + decimal(domain.len() as nat),
            code.gen().modulus() == field.q(),
            code.gen().ncols() == input_len,
            code.gen().nrows() == domain.len(),
    {
        proof {
            use_type_invariant(field);
        }
        let ghost q = field.q();
        let output_len = domain.len();
        let mut data: Vec<u64> = Vec::new();
        let mut i: usize = 0;
        while i < output_len
            invariant
                output_len == domain.len(),
                input_len * output_len <= usize::MAX,
                input_len > 0,
                q == field.q(),
                q > 1,
                i <= output_len,
                data.len() == i * input_len,
                forall|k: int| 0 <= k < domain.len() ==> #[trigger] domain@[k] == rs_point(k, q),
                all_canonical(data@, q),
                forall|a: int, b: int|
                    0 <= a < i && 0 <= b < input_len ==> #[trigger] data@[a * input_len + b] == pow(
                        rs_point(a, q),
                        b as nat,
                    ) % (q as int),
            decreases output_len - i,
        {
            proof {
                lemma_mul_inequality(i as int + 1, output_len as int, input_len as int);
                lemma_mul_is_distributive_add_other_way(input_len as int, i as int, 1);
                lemma_mul_is_commutative(input_len as int, i as int + 1);
                lemma_small_mod(0, 2);
                assert(rs_point(i as int, q) < q) by {
                    lemma_mod_bound((((i + 1) as i32) as int), q as int);
                }
            }
            let ghost start = data@;
            let x = domain[i];
            let mut j: usize = 0;
            while j < input_len
                invariant
                    i < output_len,
                    (i + 1) * input_len <= usize::MAX,
                    i * input_len + input_len == (i + 1) * input_len,
                    q == field.q(),
                    q > 1,
                    x == rs_point(i as int, q),
                    x < q,
                    j <= input_len,
                    data.len() == i * input_len + j,
                    data@.subrange(0, i * input_len) == start,
                    all_canonical(data@, q),
                    forall|b: int| 0 <= b < j ==> #[trigger] data@[i * input_len + b] == pow(
                        rs_point(i as int, q),
                        b as nat,
                    ) % (q as int),
                decreases input_len - j,
            {
                let p = field.pow(x, j as u64);
                data.push(p);
                j = j + 1;
            }
            proof {
                assert forall|a: int, b: int|
                    0 <= a < i + 1 && 0 <= b < input_len implies #[trigger] data@[a * input_len + b] == pow(
                    rs_point(a, q),
                    b as nat,
                ) % (q as int) by {
                    if a < i {
                        crate::matmul::lemma_index_bound(a, b, i as int, input_len as int);
                        assert(data@[a * input_len + b] == start[a * input_len + b]);
                    }
                }
            }
            i = i + 1;
        }
        proof {
            lemma_mod_multiples_basic(output_len as int, input_len as int);
            lemma_div_multiples_vanish(output_len as int, input_len as int);
            lemma_mul_is_commutative(output_len as int, input_len as int);
        }
        let desc = describe_rs_generator(input_len, output_len);
        let genr = DenseMatrixMul::new(field, input_len, data, desc.as_str());
        let code = RScode { field: *field, genr };
        proof {
            assert forall|a: int, b: int|
                0 <= a < code.genr.nrows() && 0 <= b < code.genr.ncols() implies #[trigger] code.genr.entry(a, b)
                == pow(rs_point(a, q), b as nat) % (q as int) by {
                assert(code.genr.entry(a, b) == data@[a * input_len + b]);
            }
        }
        code
    }
}

impl LinearCode for RScode {
    type MM = DenseMatrixMul;

    closed spec fn gen(&self) -> DenseMatrixMul {
        self.genr
    }

    fn ring(&self) -> (f: &PrimeField) {
        // the generator shares the field of the code
        let f = self.genr.ring();
        f
    }

    fn generator(&self) -> (g: &DenseMatrixMul) {
        &self.genr
    }

    fn is_code_element(&self, input: &[u64]) -> (r: bool) {
        let ghost q = self.genr.modulus() as int;
        let f = self.genr.ring();
        proof {
            self.genr.lemma_wf();
        }
        let n = self.genr.rows();
        let k = self.genr.columns();
        let mut rows: Vec<Vec<u64>> = Vec::new();
        let mut i: usize = 0;
        while i < n
            invariant
                self.genr.wf(),
                q == self.genr.modulus(),
                n == self.genr.nrows(),
                k == self.genr.ncols(),
                input.len() == n,
                all_canonical(input@, q as nat),
                forall|a: int, b: int| 0 <= a < n && 0 <= b < k ==> #[trigger] self.genr.entry(a, b) < q,
                i <= n,
                rows.len() == i,
                forall|t: int| 0 <= t < i ==> (#[trigger] rows@[t])@.len() == k + 1,
                forall|t: int, j: int| 0 <= t < i && 0 <= j < k ==> #[trigger] rows@[t]@[j] == self.genr.entry(t, j),
                forall|t: int| 0 <= t < i ==> #[trigger] rows@[t]@[k as int] == input@[t],
            decreases n - i,
        {
            let mut row: Vec<u64> = Vec::new();
            let mut j: usize = 0;
            while j < k
                invariant
                    self.genr.wf(),
                    n == self.genr.nrows(),
                    k == self.genr.ncols(),
                    i < n,
                    j <= k,
                    row.len() == j,
                    forall|b: int| 0 <= b < j ==> #[trigger] row@[b] == self.genr.entry(i as int, b),
                decreases k - j,
            {
                row.push(self.genr.get(i, j));
                j = j + 1;
            }
            row.push(input[i]);
            rows.push(row);
            i = i + 1;
        }
        let ghost rv = crate::linsolve::views(rows@);
        proof {
            assert forall|t: int| 0 <= t < rv.len() implies (#[trigger] rv[t]).len() == k + 1 && all_canonical(rv[t], q as nat) by {
                assert(rv[t] == rows@[t]@);
                assert forall|j: int| 0 <= j < rv[t].len() implies #[trigger] rv[t][j] < q by {
                    if j < k {
                        assert(rv[t][j] == self.genr.entry(t, j));
                    }
                }
            }
        }
        let r = crate::linsolve::solvable_system(f, rows, k);
        proof {
            // a solution of the system is a message of input, and conversely
            assert forall|x: Seq<int>| x.len() == k implies (#[trigger] crate::linsolve::system_holds(rv, x, k as nat, q) <==> encodes(&self.genr, x, input@)) by {
                if crate::linsolve::system_holds(rv, x, k as nat, q) {
                    assert forall|t: int| 0 <= t < n implies #[trigger] input@[t] as int == sum(k as nat, |j: int| self.genr.entry(t, j) * x[j]) % q by {
                        assert(crate::linsolve::row_holds(rv[t], x, k as nat, q));
                        lemma_sum_ext(k as nat, |j: int| rv[t][j] * x[j], |j: int| self.genr.entry(t, j) * x[j]);
                        lemma_mod_diff_zero(sum(k as nat, |j: int| self.genr.entry(t, j) * x[j]), input@[t] as int, q);
                    }
                }
                if encodes(&self.genr, x, input@) {
                    assert forall|t: int| 0 <= t < rv.len() implies #[trigger] crate::linsolve::row_holds(rv[t], x, k as nat, q) by {
                        assert(input@[t] as int == sum(k as nat, |j: int| self.genr.entry(t, j) * x[j]) % q);
                        lemma_sum_ext(k as nat, |j: int| rv[t][j] * x[j], |j: int| self.genr.entry(t, j) * x[j]);
                        lemma_mod_diff_zero(sum(k as nat, |j: int| self.genr.entry(t, j) * x[j]), input@[t] as int, q);
                    }
                }
            }
            if r {
                let x = choose|x: Seq<int>| x.len() == k && #[trigger] crate::linsolve::system_holds(rv, x, k as nat, q);
                assert(encodes(&self.genr, x, input@));
            }
            if exists|x: Seq<int>| #[trigger] encodes(&self.genr, x, input@) {
                let x = choose|x: Seq<int>| #[trigger] encodes(&self.genr, x, input@);
                assert(crate::linsolve::system_holds(rv, x, k as nat, q));
            }
        }
        r
    }

    fn encode(&self, input: &[u64]) -> (res: Vec<u64>) {
        let res = self.genr.mul(input);
        proof {
            self.genr.lemma_wf();
            let q = self.genr.modulus() as int;
            assert forall|i: int| 0 <= i < res.len() implies #[trigger] res@[i] < q by {
                lemma_mod_bound(sum(self.genr.ncols(), |j: int| self.genr.entry(i, j) * input@[j]), q);
            }
        }
        res
    }
}

/// Block `m` of `s` cut into blocks of `size` entries.
pub open spec fn block(s: Seq<u64>, size: nat, m: int) -> Seq<u64> {
    s.subrange(m * size, (m + 1) * size)
}

/// Position `i` of block `m` of `size` entries.
pub open spec fn idx(m: int, size: int, i: int) -> int {
    m * size + i
}

/// A code whose codewords are built by folding: a message of `k0 * 2^d` entries
/// is encoded by encoding its two halves `l` and `r` with the code of depth
/// `d - 1` and taking `(l + t * r, l - t * r)`, with a fixed vector `t` of
/// weights for each depth; a message of `k0` entries is encoded with a base
/// linear code.
pub trait FoldableCode: Sized {
    /// The base linear code.
    type C: LinearCode;

    /// The code is well formed.
    spec fn fc_wf(&self) -> bool;

    /// The characteristic of the field.
    spec fn modulus(&self) -> nat;

    /// The message length of the base code.
    spec fn base_k(&self) -> nat;

    /// The codeword length of the base code.
    spec fn base_n(&self) -> nat;

    /// The number of folding levels, when fixed.
    spec fn depth(&self) -> Option<nat>;

    /// The weights of folding level `dind`.
    spec fn twiddle(&self, dind: nat) -> Seq<u64>;

    /// The entry in row `i` and column `j` of the generator of the base code.
    spec fn base_entry(&self, i: int, j: int) -> u64;

    /// A well formed code is over a field of a `u64` characteristic.
    proof fn lemma_fc_wf(&self)
        requires
            self.fc_wf(),
        ensures
            1 < self.modulus() <= u64::MAX,
    ;

    /// The field of the code.
    fn ring(&self) -> (f: &PrimeField)
        requires
            self.fc_wf(),
        ensures
            f.q() == self.modulus(),
    ;

    /// The number of folding levels.
    fn d(&self) -> (r: usize)
        requires
            self.fc_wf(),
            self.depth() is Some,
        ensures
            r == self.depth().unwrap(),
    ;

    /// The message length of the base code.
    fn k0(&self) -> (r: usize)
        requires
            self.fc_wf(),
        ensures
            r == self.base_k(),
    ;

    /// The rate inverse: codeword length over message length.
    fn c(&self) -> (r: usize)
        requires
            self.fc_wf(),
        ensures
            r == self.base_n() / self.base_k(),
    ;

    /// The message length at depth `d`: `k0 * 2^d`.
    fn k(&self, d: usize) -> (r: usize)
        requires
            self.fc_wf(),
            self.base_k() * pow2(d as nat) <= usize::MAX,
        ensures
            r == self.base_k() * pow2(d as nat),
    ;

    /// The codeword length at depth `d`: `c * k0 * 2^d`.
    fn n(&self, d: usize) -> (r: usize)
        requires
            self.fc_wf(),
            self.base_n() * pow2(d as nat) <= usize::MAX,
        ensures
            r == self.base_n() * pow2(d as nat),
    ;

    /// The weights of folding level `d`.
    fn t(&self, d: usize) -> (r: &Vec<u64>)
        requires
            self.fc_wf(),
            self.depth() is Some,
            d < self.depth().unwrap(),
        ensures
            r@ == self.twiddle(d as nat),
    ;

}

/// The codeword of `input` with `dd` folding levels (see `FoldableCode`).
pub open spec fn fold_encode<FC: FoldableCode>(fc: &FC, input: Seq<u64>, dd: nat) -> Seq<int>
    decreases dd,
{
    let q = fc.modulus() as int;
    if dd == 0 {
        Seq::new(fc.base_n(), |i: int| sum(fc.base_k(), |j: int| fc.base_entry(i, j) * input[j]) % q)
    } else {
        let half = (input.len() / 2) as int;
        let l = fold_encode(fc, input.subrange(0, half), (dd - 1) as nat);
        let r = fold_encode(fc, input.subrange(half, input.len() as int), (dd - 1) as nat);
        let t = fc.twiddle((dd - 1) as nat);
        Seq::new(
            2 * l.len(),
            |i: int|
                if i < l.len() {
                    (l[i] + t[i] * r[i]) % q
                } else {
                    (l[i - l.len()] - t[i - l.len()] * r[i - l.len()]) % q
                },
        )
    }
}

/// The codeword of block `m` of `input`, cut into messages of depth `dind`.
pub open spec fn level<FC: FoldableCode>(fc: &FC, input: Seq<u64>, dind: nat, m: int) -> Seq<int> {
    fold_encode(fc, block(input, fc.base_k() * pow2(dind), m), dind)
}

/// Codewords of depth `dd` have `base_n * 2^dd` entries.
pub proof fn lemma_fold_encode_len<FC: FoldableCode>(fc: &FC, input: Seq<u64>, dd: nat)
    ensures
        fold_encode(fc, input, dd).len() == fc.base_n() * pow2(dd),
    decreases dd,
{
    if dd == 0 {
        lemma_pow2_0();
    } else {
        let half = (input.len() / 2) as int;
        lemma_fold_encode_len(fc, input.subrange(0, half), (dd - 1) as nat);
        lemma_pow2_unfold(dd);
        lemma_mul_is_associative(fc.base_n() as int, 2, pow2((dd - 1) as nat) as int);
        lemma_mul_is_commutative(fc.base_n() as int, 2);
        lemma_mul_is_associative(2, fc.base_n() as int, pow2((dd - 1) as nat) as int);
    }
}

/// `pow2(0) == 1`.
proof fn lemma_pow2_0()
    ensures
        pow2(0) == 1,
{
    lemma2_to64();
}

/// The codeword of block `p` at depth `dind + 1` from those of blocks `2p` and
/// `2p + 1` at depth `dind`.
proof fn lemma_level_step<FC: FoldableCode>(fc: &FC, input: Seq<u64>, dind: nat, p: int)
    requires
        0 <= p,
        (p + 1) * (fc.base_k() * pow2(dind + 1)) <= input.len(),
    ensures
        ({
            let cs = fc.base_n() * pow2(dind);
            let q = fc.modulus() as int;
            let t = fc.twiddle(dind);
            let l = level(fc, input, dind, 2 * p);
            let r = level(fc, input, dind, 2 * p + 1);
            let x = level(fc, input, dind + 1, p);
            &&& l.len() == cs
            &&& r.len() == cs
            &&& x.len() == 2 * cs
            &&& forall|i: int| 0 <= i < cs ==> #[trigger] x[i] == (l[i] + t[i] * r[i]) % q
            &&& forall|i: int| 0 <= i < cs ==> #[trigger] x[cs + i] == (l[i] - t[i] * r[i]) % q
        }),
{
    let k = fc.base_k() * pow2(dind);
    let k2 = fc.base_k() * pow2(dind + 1);
    lemma_pow2_unfold(dind + 1);
    assert(k2 == 2 * k) by {
        lemma_mul_is_associative(fc.base_k() as int, 2, pow2(dind) as int);
        lemma_mul_is_commutative(fc.base_k() as int, 2);
        lemma_mul_is_associative(2, fc.base_k() as int, pow2(dind) as int);
    }
    let xs = block(input, k2, p);
    assert(p * k2 == (2 * p) * k) by {
        lemma_mul_is_associative(p, 2, k as int);
        lemma_mul_is_commutative(p, 2);
    }
    assert((p + 1) * k2 == (2 * p + 2) * k) by {
        lemma_mul_is_associative(p + 1, 2, k as int);
        lemma_mul_is_commutative(p + 1, 2);
    }
    assert((2 * p + 1) * k == (2 * p) * k + k) by {
        lemma_mul_is_distributive_add_other_way(k as int, 2 * p, 1);
    }
    assert((2 * p + 2) * k == (2 * p + 1) * k + k) by {
        lemma_mul_is_distributive_add_other_way(k as int, 2 * p + 1, 1);
    }
    lemma_mul_nonnegative(2 * p, k as int);
    assert(xs.len() == 2 * k);
    assert(xs.subrange(0, k as int) =~= block(input, k, 2 * p));
    assert(xs.subrange(k as int, (2 * k) as int) =~= block(input, k, 2 * p + 1));
    lemma_fold_encode_len(fc, block(input, k, 2 * p), dind);
    lemma_fold_encode_len(fc, block(input, k, 2 * p + 1), dind);
    lemma_fold_encode_len(fc, xs, dind + 1);
    lemma_mul_is_associative(fc.base_n() as int, 2, pow2(dind) as int);
    lemma_mul_is_commutative(fc.base_n() as int, 2);
    lemma_mul_is_associative(2, fc.base_n() as int, pow2(dind) as int);
}

/// `x + a * y` entrywise, in `Z/qZ`.
pub open spec fn lincomb(x: Seq<u64>, y: Seq<u64>, a: int, q: int) -> Seq<u64> {
    Seq::new(x.len(), |i: int| ((x[i] + a * y[i]) % q) as u64)
}

/// Reducing a linear combination of two sums modulo `q`.
proof fn lemma_mod_lincomb(u: int, v: int, a: int, q: int)
    requires
        q > 0,
    ensures
        (u + a * v) % q == (u % q + a * (v % q)) % q,
{
    lemma_mul_mod_noop_right(a, v, q);
    lemma_add_mod_noop(u, a * v, q);
    lemma_add_mod_noop(u % q, a * (v % q), q);
    lemma_mod_twice(u, q);
}

/// One folding step commutes with linear combinations, modulo `q`.
proof fn lemma_lincomb_step(lx: int, rx: int, ly: int, ry: int, t: int, a: int, q: int, plus: bool)
    requires
        q > 0,
    ensures
        ({
            let s: int = if plus { 1 } else { -1 };
            ((lx + a * ly) % q + s * (t * ((rx + a * ry) % q))) % q == ((lx + s * (t * rx)) % q + a * ((ly + s * (t
                * ry)) % q)) % q
        }),
{
    let s: int = if plus { 1 } else { -1 };
    let u = lx + s * (t * rx);
    let v = ly + s * (t * ry);
    let w = t * ry;
    assert(t * (rx + a * ry) == t * rx + t * (a * ry)) by {
        lemma_mul_is_distributive_add(t, rx, a * ry);
    }
    assert(t * (a * ry) == a * w) by {
        lemma_mul_is_associative(t, a, ry);
        lemma_mul_is_commutative(t, a);
        lemma_mul_is_associative(a, t, ry);
    }
    assert(s * (t * rx + a * w) == s * (t * rx) + s * (a * w)) by {
        lemma_mul_is_distributive_add(s, t * rx, a * w);
    }
    assert(s * (a * w) == a * (s * w)) by {
        lemma_mul_is_associative(s, a, w);
        lemma_mul_is_commutative(s, a);
        lemma_mul_is_associative(a, s, w);
    }
    assert(a * v == a * ly + a * (s * w)) by {
        lemma_mul_is_distributive_add(a, ly, s * w);
    }
    assert((lx + a * ly) + s * (t * (rx + a * ry)) == u + a * v);
    lemma_mul_mod_noop_right(t, rx + a * ry, q);
    lemma_mul_mod_noop_right(s, t * (rx + a * ry), q);
    lemma_mul_mod_noop_right(s, t * ((rx + a * ry) % q), q);
    lemma_add_mod_noop(lx + a * ly, s * (t * (rx + a * ry)), q);
    lemma_add_mod_noop((lx + a * ly) % q, s * (t * ((rx + a * ry) % q)), q);
    lemma_mod_twice(lx + a * ly, q);
    lemma_mod_lincomb(u, v, a, q);
}

/// The base encoding is linear.
proof fn lemma_base_linear(k: nat, e: spec_fn(int) -> int, x: Seq<u64>, y: Seq<u64>, a: int, q: int)
    requires
        0 < q <= u64::MAX,
        x.len() >= k,
        y.len() >= k,
    ensures
        sum(k, |j: int| e(j) * lincomb(x, y, a, q)[j]) % q == (sum(k, |j: int| e(j) * x[j]) % q + a * (sum(
            k,
            |j: int| e(j) * y[j],
        ) % q)) % q,
{
    let lc = lincomb(x, y, a, q);
    let f1 = |j: int| e(j) * lc[j];
    let ex = |j: int| e(j) * x[j];
    let ey = |j: int| e(j) * y[j];
    let ay = |j: int| a * ey(j);
    let f2 = |j: int| ex(j) + ay(j);
    assert forall|j: int| 0 <= j < k implies #[trigger] (f1(j) % q) == f2(j) % q by {
        lemma_mod_bound(x[j] + a * y[j], q);
        assert(lc[j] == (x[j] + a * y[j]) % q);
        lemma_mul_mod_noop_right(e(j), x[j] + a * y[j], q);
        assert(e(j) * (x[j] + a * y[j]) == e(j) * x[j] + a * (e(j) * y[j])) by (nonlinear_arith);
    }
    lemma_sum_congruent(k, q, f1, f2);
    lemma_sum_add(k, ex, ay);
    lemma_sum_ext(k, f2, |i: int| ex(i) + ay(i));
    lemma_sum_scale(k, a, ey);
    lemma_sum_ext(k, ay, |i: int| a * ey(i));
    lemma_mod_lincomb(sum(k, ex), sum(k, ey), a, q);
}

/// Linearity: the codeword of `x + a * y` is the codeword of `x` plus `a` times
/// the codeword of `y`.
pub proof fn lemma_fold_encode_linear<FC: FoldableCode>(fc: &FC, x: Seq<u64>, y: Seq<u64>, a: int, dd: nat)
    requires
        fc.fc_wf(),
        x.len() == fc.base_k() * pow2(dd),
        y.len() == x.len(),
    ensures
        fold_encode(fc, lincomb(x, y, a, fc.modulus() as int), dd).len() == fold_encode(fc, x, dd).len(),
        forall|i: int|
            0 <= i < fold_encode(fc, x, dd).len() ==> #[trigger] fold_encode(
                fc,
                lincomb(x, y, a, fc.modulus() as int),
                dd,
            )[i] == (fold_encode(fc, x, dd)[i] + a * fold_encode(fc, y, dd)[i]) % (fc.modulus() as int),
    decreases dd,
{
    fc.lemma_fc_wf();
    let q = fc.modulus() as int;
    let lc = lincomb(x, y, a, q);
    lemma_fold_encode_len(fc, x, dd);
    lemma_fold_encode_len(fc, y, dd);
    lemma_fold_encode_len(fc, lc, dd);
    if dd == 0 {
        lemma_pow2_0();
        assert forall|i: int| 0 <= i < fold_encode(fc, x, dd).len() implies #[trigger] fold_encode(fc, lc, dd)[i]
            == (fold_encode(fc, x, dd)[i] + a * fold_encode(fc, y, dd)[i]) % q by {
            lemma_base_linear(fc.base_k(), |j: int| fc.base_entry(i, j) as int, x, y, a, q);
            lemma_sum_ext(fc.base_k(), |j: int| fc.base_entry(i, j) * lc[j], |j: int| (|j: int| fc.base_entry(i, j) as int)(j) * lc[j]);
            lemma_sum_ext(fc.base_k(), |j: int| fc.base_entry(i, j) * x[j], |j: int| (|j: int| fc.base_entry(i, j) as int)(j) * x[j]);
            lemma_sum_ext(fc.base_k(), |j: int| fc.base_entry(i, j) * y[j], |j: int| (|j: int| fc.base_entry(i, j) as int)(j) * y[j]);
        }
    } else {
        let k = fc.base_k() * pow2((dd - 1) as nat);
        lemma_pow2_unfold(dd);
        assert(x.len() == 2 * k) by {
            lemma_mul_is_associative(fc.base_k() as int, 2, pow2((dd - 1) as nat) as int);
            lemma_mul_is_commutative(fc.base_k() as int, 2);
            lemma_mul_is_associative(2, fc.base_k() as int, pow2((dd - 1) as nat) as int);
        }
        let xl = x.subrange(0, k as int);
        let xr = x.subrange(k as int, 2 * k as int);
        let yl = y.subrange(0, k as int);
        let yr = y.subrange(k as int, 2 * k as int);
        assert(lc.subrange(0, k as int) =~= lincomb(xl, yl, a, q));
        assert(lc.subrange(k as int, 2 * k as int) =~= lincomb(xr, yr, a, q));
        assert(x.subrange(k as int, x.len() as int) == xr);
        assert(y.subrange(k as int, y.len() as int) == yr);
        assert(lc.subrange(k as int, lc.len() as int) == lincomb(xr, yr, a, q));
        lemma_fold_encode_linear(fc, xl, yl, a, (dd - 1) as nat);
        lemma_fold_encode_linear(fc, xr, yr, a, (dd - 1) as nat);
        let lx = fold_encode(fc, xl, (dd - 1) as nat);
        let rx = fold_encode(fc, xr, (dd - 1) as nat);
        let ly = fold_encode(fc, yl, (dd - 1) as nat);
        let ry = fold_encode(fc, yr, (dd - 1) as nat);
        let ll = fold_encode(fc, lincomb(xl, yl, a, q), (dd - 1) as nat);
        let rl = fold_encode(fc, lincomb(xr, yr, a, q), (dd - 1) as nat);
        let t = fc.twiddle((dd - 1) as nat);
        let n = lx.len();
        lemma_fold_encode_len(fc, xl, (dd - 1) as nat);
        lemma_fold_encode_len(fc, yl, (dd - 1) as nat);
        lemma_fold_encode_len(fc, xr, (dd - 1) as nat);
        lemma_fold_encode_len(fc, yr, (dd - 1) as nat);
        lemma_fold_encode_len(fc, lincomb(xl, yl, a, q), (dd - 1) as nat);
        assert forall|i: int| 0 <= i < fold_encode(fc, x, dd).len() implies #[trigger] fold_encode(fc, lc, dd)[i]
            == (fold_encode(fc, x, dd)[i] + a * fold_encode(fc, y, dd)[i]) % q by {
            if i < n {
                assert(ll[i] == (lx[i] + a * ly[i]) % q);
                assert(rl[i] == (rx[i] + a * ry[i]) % q);
                lemma_lincomb_step(lx[i], rx[i], ly[i], ry[i], t[i] as int, a, q, true);
            } else {
                let j = i - n;
                assert(ll[j] == (lx[j] + a * ly[j]) % q);
                assert(rl[j] == (rx[j] + a * ry[j]) % q);
                lemma_lincomb_step(lx[j], rx[j], ly[j], ry[j], t[j] as int, a, q, false);
                assert(-1 * (t[j] * rl[j]) == -(t[j] * rl[j]));
                assert(-1 * (t[j] * rx[j]) == -(t[j] * rx[j]));
                assert(-1 * (t[j] * ry[j]) == -(t[j] * ry[j]));
            }
        }
    }
}

/// Foldability: from the two halves `c[i]`, `c[i + n]` of a codeword of depth
/// `dd` and the weight `t_i`, the line through `(t_i, c[i])` and `(-t_i, c[i + n])`
/// evaluated at `a` is, times `2 t_i`, the codeword of the folded message
/// `x_left + a * x_right` at `i`.
pub proof fn lemma_fold_encode_foldable<FC: FoldableCode>(fc: &FC, x: Seq<u64>, a: int, dd: nat, i: int)
    requires
        fc.fc_wf(),
        dd > 0,
        x.len() == fc.base_k() * pow2(dd),
        0 <= i < fc.base_n() * pow2((dd - 1) as nat),
    ensures
        ({
            let q = fc.modulus() as int;
            let k = fc.base_k() * pow2((dd - 1) as nat);
            let n = fc.base_n() * pow2((dd - 1) as nat);
            let c = fold_encode(fc, x, dd);
            let t = fc.twiddle((dd - 1) as nat)[i] as int;
            let folded = lincomb(x.subrange(0, k as int), x.subrange(k as int, 2 * k as int), a, q);
            ((a + t) * c[i] + (t - a) * c[i + n]) % q == (2 * t * fold_encode(fc, folded, (dd - 1) as nat)[i]) % q
        }),
{
    fc.lemma_fc_wf();
    let q = fc.modulus() as int;
    let k = fc.base_k() * pow2((dd - 1) as nat);
    let n = fc.base_n() * pow2((dd - 1) as nat);
    lemma_pow2_unfold(dd);
    assert(x.len() == 2 * k) by {
        lemma_mul_is_associative(fc.base_k() as int, 2, pow2((dd - 1) as nat) as int);
        lemma_mul_is_commutative(fc.base_k() as int, 2);
        lemma_mul_is_associative(2, fc.base_k() as int, pow2((dd - 1) as nat) as int);
    }
    let xl = x.subrange(0, k as int);
    let xr = x.subrange(k as int, 2 * k as int);
    assert(x.subrange(k as int, x.len() as int) == xr);
    let c = fold_encode(fc, x, dd);
    let l = fold_encode(fc, xl, (dd - 1) as nat);
    let r = fold_encode(fc, xr, (dd - 1) as nat);
    lemma_fold_encode_len(fc, xl, (dd - 1) as nat);
    lemma_fold_encode_linear(fc, xl, xr, a, (dd - 1) as nat);
    let t = fc.twiddle((dd - 1) as nat)[i] as int;
    let f = fold_encode(fc, lincomb(xl, xr, a, q), (dd - 1) as nat);
    assert(c[i] == (l[i] + t * r[i]) % q);
    assert(c[i + n] == (l[i] - t * r[i]) % q);
    assert(f[i] == (l[i] + a * r[i]) % q);
    // (a + t)(L + tR) + (t - a)(L - tR) == 2t(L + aR)
    assert((a + t) * (l[i] + t * r[i]) + (t - a) * (l[i] - t * r[i]) == 2 * t * (l[i] + a * r[i])) by (nonlinear_arith);
    lemma_mul_mod_noop_right(a + t, l[i] + t * r[i], q);
    lemma_mul_mod_noop_right(t - a, l[i] - t * r[i], q);
    lemma_add_mod_noop((a + t) * (l[i] + t * r[i]), (t - a) * (l[i] - t * r[i]), q);
    lemma_add_mod_noop((a + t) * c[i], (t - a) * c[i + n], q);
    lemma_mul_mod_noop_right(2 * t, l[i] + a * r[i], q);
}

/// `res` holds, block by block, the codewords of the `nblocks` blocks of
/// `input` at depth `dind`.
pub open spec fn holds_level<FC: FoldableCode>(fc: &FC, res: Seq<u64>, input: Seq<u64>, dind: nat, nblocks: nat) -> bool {
    let cs = fc.base_n() * pow2(dind);
    &&& res.len() == nblocks * cs
    &&& forall|m: int, i: int|
        0 <= m < nblocks && 0 <= i < cs ==> #[trigger] res[idx(m, cs as int, i)] == level(fc, input, dind, m)[i]
}

/// The foldable code whose base code is a Reed-Solomon code.
pub struct RSFoldableCode {
    g0code: RScode,
    d: Option<usize>,
    t: Vec<Vec<u64>>,
}

/// Every entry of `s` is nonzero.
pub open spec fn all_nonzero(s: Seq<u64>) -> bool {
    forall|i: int| 0 <= i < s.len() ==> #[trigger] s[i] != 0
}

impl RSFoldableCode {
    /// The foldable code with a Reed-Solomon base code for messages of length
    /// `k0` and codewords of length `k0 * c`, and, when `d` is given, `d`
    /// levels of random nonzero weights.
    pub fn new(field: &PrimeField, k0: usize, c: usize, d: Option<usize>) -> (code: RSFoldableCode)
        requires
            k0 > 0,
            k0 * c * k0 <= usize::MAX,
            d matches Some(dv) ==> dv <= usize::BITS && k0 * c * pow2(dv as nat) <= usize::MAX,
        ensures
            code.fc_wf(),
            code.modulus() == field.q(),
            code.base_k() == k0,
            code.base_n() == k0 * c,
            code.depth() == (match d {
                Some(dv) => Some(dv as nat),
                None => None::<nat>,
            }),
            forall|dind: nat| #[trigger] code.twiddle(dind).len() > 0 ==> all_nonzero(code.twiddle(dind)),
    {
        proof {
            lemma_mul_is_commutative(k0 as int, (k0 * c) as int);
            lemma_mul_is_associative(k0 as int, c as int, k0 as int);
            lemma_mul_inequality(1, k0 as int, (k0 * c) as int);
        }
        let g0code = RScode::new(field, k0, k0 * c);
        let t = match d {
            Some(dv) => Self::construct_t(dv, &g0code),
            None => Vec::new(),
        };
        let code = RSFoldableCode { g0code, d, t };
        proof {
            assert(code.g0code.genr.nrows() == k0 * c);
            lemma_mod_multiples_basic(c as int, k0 as int);
            lemma_mul_is_commutative(k0 as int, c as int);
            lemma_div_multiples_vanish(c as int, k0 as int);
            assert forall|dind: nat| #[trigger] code.twiddle(dind).len() > 0 implies all_nonzero(code.twiddle(dind)) by {
                if dind < code.t.len() {
                    assert(all_nonzero(code.t@[dind as int]@));
                }
            }
        }
        code
    }

    /// `d` levels of random nonzero weights for the base code `G0code`: level
    /// `dind` has `2^dind` times as many weights as the base code has rows.
    pub fn construct_t(d: usize, G0code: &RScode) -> (t: Vec<Vec<u64>>)
        requires
            G0code.wf(),
            d <= usize::BITS,
            G0code.gen().nrows() * pow2(d as nat) <= usize::MAX,
        ensures
            t.len() == d,
            forall|dind: int|
                0 <= dind < d ==> (#[trigger] t@[dind]@).len() == G0code.gen().nrows() * pow2(dind as nat)
                    && all_canonical(t@[dind]@, G0code.gen().modulus()) && all_nonzero(t@[dind]@),
    {
        let f = G0code.ring();
        let rows = G0code.generator().rows();
        let mut t: Vec<Vec<u64>> = Vec::new();
        let mut dind: usize = 0;
        while dind < d
            invariant
                G0code.wf(),
                f.q() == G0code.gen().modulus(),
                rows == G0code.gen().nrows(),
                rows * pow2(d as nat) <= usize::MAX,
                d <= usize::BITS,
                dind <= d,
                t.len() == dind,
                forall|e: int|
                    0 <= e < dind ==> (#[trigger] t@[e]@).len() == rows * pow2(e as nat) && all_canonical(
                        t@[e]@,
                        G0code.gen().modulus(),
                    ) && all_nonzero(t@[e]@),
            decreases d - dind,
        {
            proof {
                vstd::bits::lemma_usize_pow2_no_overflow(dind as nat);
                assert(1 * pow2(dind as nat) == pow2(dind as nat));
                vstd::bits::lemma_usize_shl_is_mul(1, dind);
                if dind < d {
                    lemma_pow2_strictly_increases(dind as nat, d as nat);
                }
                lemma_mul_inequality(pow2(dind as nat) as int, pow2(d as nat) as int, rows as int);
                lemma_mul_is_commutative(pow2(dind as nat) as int, rows as int);
                lemma_mul_is_commutative(pow2(d as nat) as int, rows as int);
            }
            let len = rows * (1usize << dind);
            let mut level: Vec<u64> = Vec::new();
            let mut i: usize = 0;
            while i < len
                invariant
                    i <= len,
                    level.len() == i,
                    f.q() == G0code.gen().modulus(),
                    all_canonical(level@, G0code.gen().modulus()),
                    all_nonzero(level@),
                decreases len - i,
            {
                let x = f.random_nonzero_element_thread();
                level.push(x);
                i = i + 1;
            }
            t.push(level);
            dind = dind + 1;
        }
        t
    }

    /// The foldable code with a Reed-Solomon base code for messages of length
    /// `k0` and codewords of length `k0 * c`, and the given weights: level
    /// `dind` must hold `c * k0 * 2^dind` weights.
    pub fn from(field: &PrimeField, k0: usize, c: usize, t: Vec<Vec<u64>>) -> (code: RSFoldableCode)
        requires
            k0 > 0,
            k0 * c * k0 <= usize::MAX,
            forall|dind: int|
                0 <= dind < t.len() ==> (#[trigger] t@[dind]@).len() == c * k0 * pow2(dind as nat) && all_canonical(
                    t@[dind]@,
                    field.q(),
                ),
        ensures
            code.fc_wf(),
            code.modulus() == field.q(),
            code.base_k() == k0,
            code.base_n() == k0 * c,
            code.depth() == Some(t.len() as nat),
            forall|dind: int| 0 <= dind < t.len() ==> code.twiddle(dind as nat) == #[trigger] t@[dind]@,
    {
        proof {
            lemma_mul_is_commutative(k0 as int, (k0 * c) as int);
            lemma_mul_is_associative(k0 as int, c as int, k0 as int);
            lemma_mul_inequality(1, k0 as int, (k0 * c) as int);
        }
        let g0code = RScode::new(field, k0, k0 * c);
        let d = t.len();
        let code = RSFoldableCode { g0code, d: Some(d), t };
        proof {
            lemma_mod_multiples_basic(c as int, k0 as int);
            lemma_mul_is_commutative(k0 as int, c as int);
            lemma_div_multiples_vanish(c as int, k0 as int);
        }
        code
    }

    /// The base code is well formed.
    pub closed spec fn base_code_wf(&self) -> bool {
        self.g0code.wf()
    }

    /// The weights of every level.
    pub closed spec fn levels(&self) -> Seq<Seq<u64>> {
        Seq::new(self.t.len() as nat, |i: int| self.t@[i]@)
    }

    /// Whether each level `dind` holds `c * k0 * 2^dind` weights and the base
    /// generator has `c * k0` rows.
    pub fn check_invariants(&self) -> (r: bool)
        requires
            self.base_code_wf(),
            self.depth() == Some(self.levels().len()),
            self.base_k() * pow2(self.levels().len()) <= usize::MAX,
            self.base_n() * pow2(self.levels().len()) <= usize::MAX,
        ensures
            r == ((forall|dind: int|
                0 <= dind < self.levels().len() ==> #[trigger] self.levels()[dind].len() == (self.base_n()
                    / self.base_k()) * (self.base_k() * pow2(dind as nat))) && (self.base_n() / self.base_k())
                * self.base_k() == self.base_n()),
    {
        let k0 = self.g0code.generator().columns();
        let rows = self.g0code.generator().rows();
        let c = rows / k0;
        let d = self.t.len();
        proof {
            lemma_fundamental_div_mod(rows as int, k0 as int);
            lemma_mul_is_commutative(k0 as int, c as int);
            lemma_mod_bound(rows as int, k0 as int);
        }
        let mut dind: usize = 0;
        while dind < d
            invariant
                d == self.depth().unwrap(),
                d == self.t.len(),
                k0 == self.base_k(),
                k0 > 0,
                rows == self.base_n(),
                c == rows / k0,
                c * k0 <= rows,
                rows * pow2(d as nat) <= usize::MAX,
                k0 * pow2(d as nat) <= usize::MAX,
                dind <= d,
                forall|e: int| 0 <= e < dind ==> #[trigger] self.levels()[e].len() == c * (k0 * pow2(e as nat)),
            decreases d - dind,
        {
            proof {
                lemma_pow2_strictly_increases(dind as nat, d as nat);
                lemma_mul_inequality(1, k0 as int, pow2(d as nat) as int);
                lemma_pow2_fits(d as nat);
                lemma_mul_inequality(c as int, rows as int, pow2(dind as nat) as int);
                lemma_mul_inequality(pow2(dind as nat) as int, pow2(d as nat) as int, rows as int);
                lemma_mul_is_commutative(pow2(dind as nat) as int, rows as int);
                lemma_mul_is_commutative(pow2(d as nat) as int, rows as int);
                lemma_mul_is_associative(c as int, k0 as int, pow2(dind as nat) as int);
                lemma_mul_inequality((c * k0) as int, rows as int, pow2(dind as nat) as int);
                vstd::bits::lemma_usize_pow2_no_overflow(dind as nat);
                assert(1 * pow2(dind as nat) == pow2(dind as nat));
                vstd::bits::lemma_usize_shl_is_mul(1, dind);
                lemma_mul_inequality(pow2(dind as nat) as int, pow2(d as nat) as int, k0 as int);
                lemma_mul_is_commutative(pow2(dind as nat) as int, k0 as int);
                lemma_mul_is_commutative(pow2(d as nat) as int, k0 as int);
            }
            let n = c * (k0 * (1usize << dind));
            if self.t[dind].len() != n {
                proof {
                    assert(self.levels()[dind as int].len() != (self.base_n() / self.base_k()) * (self.base_k()
                        * pow2(dind as nat)));
                }
                return false;
            }
            dind = dind + 1;
        }
        c * k0 == rows
    }
}

/// `pow2(a) <= pow2(b)` for `a <= b`.
proof fn lemma_pow2_strictly_increases_or_eq(a: nat, b: nat)
    requires
        a <= b,
    ensures
        pow2(a) <= pow2(b),
{
    if a < b {
        lemma_pow2_strictly_increases(a, b);
    }
}

/// `pow2(d) <= usize::MAX` only for `d < usize::BITS`.
proof fn lemma_pow2_fits(d: nat)
    requires
        pow2(d) <= usize::MAX,
    ensures
        d < usize::BITS,
{
    if d >= usize::BITS {
        lemma_pow2_strictly_increases_or_eq(usize::BITS as nat, d);
        crate::util::lemma_usize_bits_pow2();
    }
}

impl RSFoldableCode {
    /// One folding level: from the codewords of the `2 * npairs` blocks of
    /// depth `dind` in `cur` to those of the `npairs` blocks of depth `dind + 1`.
    fn fold_level(&self, cur: &Vec<u64>, Ghost(inp): Ghost<Seq<u64>>, dind: usize, npairs: usize) -> (next: Vec<u64>)
        requires
            self.fc_wf(),
            self.depth() is Some,
            dind < self.depth().unwrap(),
            holds_level(self, cur@, inp, dind as nat, 2 * npairs as nat),
            all_canonical(cur@, self.modulus()),
            npairs > 0,
            inp.len() <= usize::MAX,
            npairs * (self.base_k() * pow2(dind as nat + 1)) <= inp.len(),
            npairs * (self.base_n() * pow2(dind as nat + 1)) <= usize::MAX,
        ensures
            holds_level(self, next@, inp, dind as nat + 1, npairs as nat),
            all_canonical(next@, self.modulus()),
    {
        let ghost q = self.modulus() as int;
        let f = self.ring();
        proof {
            use_type_invariant(f);
            lemma_pow2_unfold(dind as nat + 1);
            lemma_mul_is_associative(self.base_n() as int, 2, pow2(dind as nat) as int);
            lemma_mul_is_commutative(self.base_n() as int, 2);
            lemma_mul_is_associative(2, self.base_n() as int, pow2(dind as nat) as int);
            lemma_mul_is_associative(npairs as int, 2, (self.base_n() * pow2(dind as nat)) as int);
            lemma_mul_is_commutative(npairs as int, 2);
            assert(dind < self.t.len());
        }
        let ghost csg = self.base_n() * pow2(dind as nat);
        proof {
            // 2^(dind + 1) <= k0 * 2^(dind + 1) <= npairs * k0 * 2^(dind + 1) <= usize::MAX
            let kk = (self.base_k() * pow2(dind as nat + 1)) as int;
            lemma_mul_inequality(1, npairs as int, kk);
            lemma_mul_inequality(1, self.base_k() as int, pow2(dind as nat + 1) as int);
            lemma_pow2_fits(dind as nat + 1);
            lemma_mul_inequality(1, npairs as int, (self.base_n() * pow2(dind as nat + 1)) as int);
            lemma_pow2_unfold(dind as nat + 1);
            lemma_mul_inequality(pow2(dind as nat) as int, pow2(dind as nat + 1) as int, self.base_n() as int);
            lemma_mul_is_commutative(pow2(dind as nat) as int, self.base_n() as int);
            lemma_mul_is_commutative(pow2(dind as nat + 1) as int, self.base_n() as int);
            lemma_mul_is_associative(self.base_k() as int, 2, pow2(dind as nat) as int);
            lemma_mul_is_commutative(self.base_k() as int, 2);
            lemma_mul_is_associative(2, self.base_k() as int, pow2(dind as nat) as int);
            vstd::bits::lemma_usize_pow2_no_overflow(dind as nat);
            assert(1 * pow2(dind as nat) == pow2(dind as nat));
            vstd::bits::lemma_usize_shl_is_mul(1, dind);
        }
        let cs = self.g0code.generator().rows() * (1usize << dind);
        let t = &self.t[dind];
        proof {
            lemma_mul_nonnegative(npairs as int, 2);
            if npairs > 0 {
                lemma_mul_inequality(1, npairs as int, (2 * csg) as int);
            }
            vstd::bits::lemma_usize_pow2_no_overflow(dind as nat);
            assert(1 * pow2(dind as nat) == pow2(dind as nat));
            vstd::bits::lemma_usize_shl_is_mul(1, dind);
        }
        let mut next: Vec<u64> = Vec::new();
        let mut p: usize = 0;
        while p < npairs
            invariant
                self.fc_wf(),
                f.q() == q,
                q == self.modulus() as int,
                q > 1,
                dind < self.t.len(),
                t@ == self.twiddle(dind as nat),
                t@.len() == cs,
                all_canonical(t@, q as nat),
                cs == csg,
                csg == self.base_n() * pow2(dind as nat),
                self.base_n() * pow2(dind as nat + 1) == 2 * csg,
                self.base_k() * pow2(dind as nat + 1) == 2 * (self.base_k() * pow2(dind as nat)),
                holds_level(self, cur@, inp, dind as nat, 2 * npairs as nat),
                all_canonical(cur@, q as nat),
                npairs * (self.base_k() * pow2(dind as nat + 1)) <= inp.len(),
                npairs * (2 * csg) <= usize::MAX,
                p <= npairs,
                next.len() == p * (2 * cs),
                all_canonical(next@, q as nat),
                forall|pp: int, i: int|
                    0 <= pp < p && 0 <= i < 2 * cs ==> #[trigger] next@[idx(pp, 2 * cs as int, i)] == level(
                        self,
                        inp,
                        dind as nat + 1,
                        pp,
                    )[i],
            decreases npairs - p,
        {
            proof {
                lemma_mul_inequality(p as int + 1, npairs as int, (self.base_k() * pow2(dind as nat + 1)) as int);
                lemma_level_step(self, inp, dind as nat, p as int);
                lemma_mul_inequality(p as int + 1, npairs as int, (2 * cs) as int);
                lemma_mul_is_distributive_add_other_way((2 * cs) as int, p as int, 1);
            }
            let ghost x = level(self, inp, dind as nat + 1, p as int);
            let ghost base_len = next@.len();
            // the left halves: l + t * r
            let mut i: usize = 0;
            while i < cs
                invariant
                    f.q() == q,
                    q == self.modulus() as int,
                    q > 1,
                    t@.len() == cs,
                    all_canonical(t@, q as nat),
                    t@ == self.twiddle(dind as nat),
                    cs == csg,
                    csg == self.base_n() * pow2(dind as nat),
                    holds_level(self, cur@, inp, dind as nat, 2 * npairs as nat),
                    all_canonical(cur@, q as nat),
                    p < npairs,
                    (p + 1) * (2 * cs) <= npairs * (2 * cs),
                    npairs * (2 * cs) <= usize::MAX,
                    (p + 1) * (2 * cs) == p * (2 * cs) + 2 * cs,
                    base_len == p * (2 * cs),
                    x == level(self, inp, dind as nat + 1, p as int),
                    x.len() == 2 * cs,
                    forall|j: int| 0 <= j < cs ==> #[trigger] x[j] == (level(self, inp, dind as nat, 2 * p)[j]
                        + self.twiddle(dind as nat)[j] * level(self, inp, dind as nat, 2 * p + 1)[j]) % q,
                    i <= cs,
                    next.len() == base_len + i,
                    all_canonical(next@, q as nat),
                    forall|pp: int, j: int|
                        0 <= pp < p && 0 <= j < 2 * cs ==> #[trigger] next@[idx(pp, 2 * cs as int, j)] == level(
                            self,
                            inp,
                            dind as nat + 1,
                            pp,
                        )[j],
                    forall|j: int| 0 <= j < i ==> #[trigger] next@[idx(p as int, 2 * cs as int, j)] == x[j],
                decreases cs - i,
            {
                proof {
                    lemma_row_index(2 * p as int, i as int, 2 * npairs as int, cs as int);
                    lemma_row_index(2 * p as int + 1, i as int, 2 * npairs as int, cs as int);
                    lemma_mul_is_associative(2, npairs as int, cs as int);
                    lemma_mul_is_associative(npairs as int, 2, cs as int);
                    lemma_mul_is_commutative(2, npairs as int);
                    lemma_mul_inequality(1, cs as int, 2 * npairs as int);
                    lemma_mul_is_commutative(cs as int, 2 * npairs as int);
                    assert(cur@[idx(2 * p as int, csg as int, i as int)] == level(self, inp, dind as nat, 2 * p)[i as int]);
                    assert(cur@[idx(2 * p as int + 1, csg as int, i as int)] == level(self, inp, dind as nat, 2 * p + 1)[i as int]);
                }
                let l = cur[(2 * p) * cs + i];
                let r = cur[(2 * p + 1) * cs + i];
                let rt = f.mul(r, t[i]);
                let v = f.add(l, rt);
                proof {
                    assert(l == level(self, inp, dind as nat, 2 * p)[i as int]);
                    assert(r == level(self, inp, dind as nat, 2 * p + 1)[i as int]);
                    lemma_mul_is_commutative(r as int, t@[i as int] as int);
                    lemma_small_mod(l as nat, q as nat);
                    lemma_add_mod_noop(l as int, t@[i as int] * r, q);
                    lemma_mod_twice(t@[i as int] * r, q);
                    lemma_add_mod_noop(l as int, rt as int, q);
                    assert forall|pp: int, j: int|
                        0 <= pp < p && 0 <= j < 2 * cs implies #[trigger] idx(pp, 2 * cs as int, j) < next@.len() by {
                        lemma_row_index(pp, j, p as int, (2 * cs) as int);
                    }
                    assert(idx(p as int, 2 * cs as int, i as int) == next@.len());
                }
                next.push(v);
                i = i + 1;
            }
            // the right halves: l - t * r
            let mut i: usize = 0;
            while i < cs
                invariant
                    f.q() == q,
                    q == self.modulus() as int,
                    q > 1,
                    t@.len() == cs,
                    all_canonical(t@, q as nat),
                    t@ == self.twiddle(dind as nat),
                    cs == csg,
                    csg == self.base_n() * pow2(dind as nat),
                    holds_level(self, cur@, inp, dind as nat, 2 * npairs as nat),
                    all_canonical(cur@, q as nat),
                    p < npairs,
                    (p + 1) * (2 * cs) <= npairs * (2 * cs),
                    npairs * (2 * cs) <= usize::MAX,
                    (p + 1) * (2 * cs) == p * (2 * cs) + 2 * cs,
                    base_len == p * (2 * cs),
                    x == level(self, inp, dind as nat + 1, p as int),
                    x.len() == 2 * cs,
                    forall|j: int| 0 <= j < cs ==> #[trigger] x[cs + j] == (level(self, inp, dind as nat, 2 * p)[j]
                        - self.twiddle(dind as nat)[j] * level(self, inp, dind as nat, 2 * p + 1)[j]) % q,
                    i <= cs,
                    next.len() == base_len + cs + i,
                    all_canonical(next@, q as nat),
                    forall|pp: int, j: int|
                        0 <= pp < p && 0 <= j < 2 * cs ==> #[trigger] next@[idx(pp, 2 * cs as int, j)] == level(
                            self,
                            inp,
                            dind as nat + 1,
                            pp,
                        )[j],
                    forall|j: int| 0 <= j < cs + i ==> #[trigger] next@[idx(p as int, 2 * cs as int, j)] == x[j],
                decreases cs - i,
            {
                proof {
                    lemma_row_index(2 * p as int, i as int, 2 * npairs as int, cs as int);
                    lemma_row_index(2 * p as int + 1, i as int, 2 * npairs as int, cs as int);
                    lemma_mul_is_associative(2, npairs as int, cs as int);
                    lemma_mul_is_associative(npairs as int, 2, cs as int);
                    lemma_mul_is_commutative(2, npairs as int);
                    lemma_mul_inequality(1, cs as int, 2 * npairs as int);
                    lemma_mul_is_commutative(cs as int, 2 * npairs as int);
                    assert(cur@[idx(2 * p as int, csg as int, i as int)] == level(self, inp, dind as nat, 2 * p)[i as int]);
                    assert(cur@[idx(2 * p as int + 1, csg as int, i as int)] == level(self, inp, dind as nat, 2 * p + 1)[i as int]);
                }
                let l = cur[(2 * p) * cs + i];
                let r = cur[(2 * p + 1) * cs + i];
                let rt = f.mul(r, t[i]);
                let v = f.sub(l, rt);
                proof {
                    assert(l == level(self, inp, dind as nat, 2 * p)[i as int]);
                    assert(r == level(self, inp, dind as nat, 2 * p + 1)[i as int]);
                    lemma_mul_is_commutative(r as int, t@[i as int] as int);
                    lemma_small_mod(l as nat, q as nat);
                    lemma_sub_mod_noop(l as int, t@[i as int] * r, q);
                    lemma_mod_twice(t@[i as int] * r, q);
                    lemma_sub_mod_noop(l as int, rt as int, q);
                    assert forall|pp: int, j: int|
                        0 <= pp < p && 0 <= j < 2 * cs implies #[trigger] idx(pp, 2 * cs as int, j) < next@.len() by {
                        lemma_row_index(pp, j, p as int, (2 * cs) as int);
                    }
                    assert(idx(p as int, 2 * cs as int, cs + i) == next@.len());
                }
                next.push(v);
                i = i + 1;
            }
            p = p + 1;
        }
        next
    }
}

impl FoldableCode for RSFoldableCode {
    type C = RScode;

    closed spec fn fc_wf(&self) -> bool {
        &&& self.g0code.wf()
        &&& self.g0code.genr.nrows() % self.g0code.genr.ncols() == 0
        &&& match self.d {
            Some(dv) => self.t.len() == dv,
            None => self.t.len() == 0,
        }
        &&& forall|dind: int|
            0 <= dind < self.t.len() ==> (#[trigger] self.t@[dind]@).len() == self.g0code.genr.nrows() * pow2(
                dind as nat,
            ) && all_canonical(self.t@[dind]@, self.g0code.field.q())
    }

    closed spec fn modulus(&self) -> nat {
        self.g0code.field.q()
    }

    closed spec fn base_k(&self) -> nat {
        self.g0code.genr.ncols()
    }

    closed spec fn base_n(&self) -> nat {
        self.g0code.genr.nrows()
    }

    closed spec fn depth(&self) -> Option<nat> {
        match self.d {
            Some(dv) => Some(dv as nat),
            None => None,
        }
    }

    closed spec fn twiddle(&self, dind: nat) -> Seq<u64> {
        if dind < self.t.len() {
            self.t@[dind as int]@
        } else {
            Seq::empty()
        }
    }

    closed spec fn base_entry(&self, i: int, j: int) -> u64 {
        self.g0code.genr.entry(i, j)
    }

    proof fn lemma_fc_wf(&self) {
        self.g0code.genr.lemma_wf();
    }

    fn ring(&self) -> (f: &PrimeField) {
        self.g0code.ring()
    }

    fn d(&self) -> (r: usize) {
        self.d.unwrap()
    }

    fn k0(&self) -> (r: usize) {
        self.g0code.generator().columns()
    }

    fn c(&self) -> (r: usize) {
        self.g0code.generator().rows() / self.g0code.generator().columns()
    }

    fn k(&self, d: usize) -> (r: usize) {
        proof {
            lemma_mul_inequality(1, self.base_k() as int, pow2(d as nat) as int);
            lemma_pow2_fits(d as nat);
            vstd::bits::lemma_usize_pow2_no_overflow(d as nat);
            assert(1 * pow2(d as nat) == pow2(d as nat));
            vstd::bits::lemma_usize_shl_is_mul(1, d);
        }
        self.k0() * (1usize << d)
    }

    fn n(&self, d: usize) -> (r: usize) {
        let rows = self.g0code.generator().rows();
        if rows == 0 {
            proof {
                lemma_mul_basics(pow2(d as nat) as int);
            }
            return 0;
        }
        proof {
            lemma_mul_inequality(1, self.base_n() as int, pow2(d as nat) as int);
            lemma_pow2_fits(d as nat);
            vstd::bits::lemma_usize_pow2_no_overflow(d as nat);
            assert(1 * pow2(d as nat) == pow2(d as nat));
            vstd::bits::lemma_usize_shl_is_mul(1, d);
        }
        rows * (1usize << d)
    }

    fn t(&self, d: usize) -> (r: &Vec<u64>) {
        &self.t[d]
    }

}

impl RSFoldableCode {
    /// The codeword of `input`, whose length is `k0` times a power of two `2^d`
    /// with `d` at most the number of folding levels.
    pub fn encode(&self, input: &[u64]) -> (res: Vec<u64>)
        requires
            self.fc_wf(),
            self.depth() is Some,
            input@.len() % self.base_k() == 0,
            exists|dd: nat| #[trigger] pow2(dd) == input@.len() / self.base_k() && dd <= self.depth().unwrap(),
            input@.len() * (self.base_n() / self.base_k()) <= usize::MAX,
            all_canonical(input@, self.modulus()),
        ensures
            forall|dd: nat|
                #[trigger] pow2(dd) == input@.len() / self.base_k() ==> ints(res@) == fold_encode(self, input@, dd),
            all_canonical(res@, self.modulus()),
    {
        let ghost q = self.modulus() as int;
        let ghost inp = input@;
        let f = self.ring();
        proof {
            use_type_invariant(f);
        }
        let k0 = self.k0();
        let n0 = self.g0code.generator().rows();
        let nb = input.len() / k0;
        proof {
            assert(self.g0code.gen().modulus() == q);
        }
        let ghost dd0 = choose|dd: nat| #[trigger] pow2(dd) == input@.len() / self.base_k() && dd <= self.depth().unwrap();
        proof {
            lemma_fundamental_div_mod(n0 as int, k0 as int);
            lemma_fundamental_div_mod(input.len() as int, k0 as int);
            let c = n0 / k0;
            // the output has c * len == nb * n0 entries
            lemma_mul_is_commutative(k0 as int, nb as int);
            lemma_mul_is_commutative(k0 as int, c as int);
            lemma_mul_is_associative(nb as int, k0 as int, c as int);
            lemma_mul_is_commutative(input.len() as int, c as int);
            assert(nb * n0 == input.len() * c);
            lemma_pow2_pos(dd0);
        }
        // the number of folding levels: nb == 2^dd
        let mut dd: usize = 0;
        let mut pw: usize = 1;
        proof {
            lemma_pow2_0();
            lemma_pow2_fits(dd0);
        }
        while pw < nb
            invariant
                nb == pow2(dd0),
                dd0 < usize::BITS,
                pw == pow2(dd as nat),
                dd <= dd0,
            decreases dd0 - dd,
        {
            proof {
                if dd == dd0 {
                    assert(false);
                }
                lemma_pow2_unfold((dd + 1) as nat);
                lemma_pow2_strictly_increases_or_eq((dd + 1) as nat, dd0);
            }
            pw = pw * 2;
            dd = dd + 1;
        }
        proof {
            if dd < dd0 {
                lemma_pow2_strictly_increases(dd as nat, dd0);
            }
            lemma_pow2_0();
            lemma_mul_basics(k0 as int);
            lemma_mul_basics(n0 as int);
        }
        // level 0: every block of k0 entries encoded with the base code
        let mut res: Vec<u64> = Vec::new();
        let mut m: usize = 0;
        while m < nb
            invariant
                self.fc_wf(),
                f.q() == q,
                q == self.modulus(),
                self.g0code.gen().modulus() == q,
                q > 1,
                k0 == self.base_k(),
                k0 > 0,
                n0 == self.base_n(),
                nb == input.len() / k0,
                nb * k0 == input.len(),
                nb * n0 <= usize::MAX,
                inp == input@,
                all_canonical(inp, q as nat),
                m <= nb,
                self.base_k() * pow2(0) == k0,
                self.base_n() * pow2(0) == n0,
                res.len() == m * n0,
                all_canonical(res@, q as nat),
                forall|mm: int, i: int|
                    0 <= mm < m && 0 <= i < n0 ==> #[trigger] res@[idx(mm, n0 as int, i)] == level(self, inp, 0, mm)[i],
            decreases nb - m,
        {
            proof {
                lemma_row_index(m as int, 0, nb as int, k0 as int);
                lemma_mul_inequality(m as int + 1, nb as int, k0 as int);
                lemma_mul_is_distributive_add_other_way(k0 as int, m as int, 1);
                lemma_mul_inequality(m as int + 1, nb as int, n0 as int);
                lemma_mul_is_distributive_add_other_way(n0 as int, m as int, 1);
            }
            let blk = vstd::slice::slice_subrange(input, m * k0, (m + 1) * k0);
            proof {
                assert(blk@ == block(inp, k0 as nat, m as int));
                assert forall|a: int| 0 <= a < blk@.len() implies #[trigger] blk@[a] < q by {
                    assert(blk@[a] == inp[m * k0 + a]);
                }
            }
            let enc = self.g0code.encode(blk);
            let ghost lv = level(self, inp, 0, m as int);
            proof {
                assert forall|i: int| 0 <= i < n0 implies #[trigger] lv[i] == enc@[i] as int by {
                    lemma_sum_ext(
                        k0 as nat,
                        |j: int| self.g0code.gen().entry(i, j) * blk@[j],
                        |j: int| self.base_entry(i, j) * block(inp, (self.base_k() * pow2(0)) as nat, m as int)[j],
                    );
                }
            }
            let ghost base_len = res@.len();
            let mut i: usize = 0;
            while i < n0
                invariant
                    f.q() == q,
                    m < nb,
                    n0 == self.base_n(),
                    enc.len() == n0,
                    all_canonical(enc@, q as nat),
                    (m + 1) * n0 <= nb * n0,
                    nb * n0 <= usize::MAX,
                    (m + 1) * n0 == m * n0 + n0,
                    base_len == m * n0,
                    i <= n0,
                    res.len() == base_len + i,
                    all_canonical(res@, q as nat),
                    forall|j: int| 0 <= j < n0 ==> #[trigger] lv[j] == enc@[j] as int,
                    lv == level(self, inp, 0, m as int),
                    forall|mm: int, j: int|
                        0 <= mm < m && 0 <= j < n0 ==> #[trigger] res@[idx(mm, n0 as int, j)] == level(self, inp, 0, mm)[j],
                    forall|j: int| 0 <= j < i ==> #[trigger] res@[idx(m as int, n0 as int, j)] == lv[j],
                decreases n0 - i,
            {
                proof {
                    assert forall|mm: int, j: int|
                        0 <= mm < m && 0 <= j < n0 implies #[trigger] idx(mm, n0 as int, j) < res@.len() by {
                        lemma_row_index(mm, j, m as int, n0 as int);
                    }
                    assert(idx(m as int, n0 as int, i as int) == res@.len());
                }
                res.push(enc[i]);
                i = i + 1;
            }
            m = m + 1;
        }
        // the folding levels
        let mut dind: usize = 0;
        let mut nblocks: usize = nb;
        proof {
            assert(holds_level(self, res@, inp, 0, nb as nat));
        }
        while dind < dd
            invariant
                self.fc_wf(),
                self.depth() is Some,
                dd as nat == dd0,
                dd0 <= self.depth().unwrap(),
                f.q() == q,
                q == self.modulus(),
                inp == input@,
                inp.len() == input.len(),
                nb == pow2(dd0),
                nb * k0 == inp.len(),
                nb * n0 <= usize::MAX,
                k0 == self.base_k(),
                n0 == self.base_n(),
                dind <= dd,
                nblocks == pow2((dd - dind) as nat),
                holds_level(self, res@, inp, dind as nat, nblocks as nat),
                all_canonical(res@, q as nat),
            decreases dd - dind,
        {
            proof {
                lemma_pow2_unfold((dd - dind) as nat);
                lemma_pow2_pos((dd - dind - 1) as nat);
                let np = pow2((dd - dind - 1) as nat);
                lemma_pow2_split((dd - dind - 1) as nat, dind as nat + 1);
                assert((dd - dind - 1) as nat + (dind as nat + 1) == dd0);
                lemma_mul_is_associative(np as int, k0 as int, pow2(dind as nat + 1) as int);
                lemma_mul_is_commutative(np as int, k0 as int);
                lemma_mul_is_associative(k0 as int, np as int, pow2(dind as nat + 1) as int);
                lemma_mul_is_commutative(nb as int, k0 as int);
                lemma_mul_is_associative(np as int, n0 as int, pow2(dind as nat + 1) as int);
                lemma_mul_is_commutative(np as int, n0 as int);
                lemma_mul_is_associative(n0 as int, np as int, pow2(dind as nat + 1) as int);
                lemma_mul_is_commutative(nb as int, n0 as int);
            }
            res = self.fold_level(&res, Ghost(inp), dind, nblocks / 2);
            nblocks = nblocks / 2;
            dind = dind + 1;
        }
        proof {
            lemma_pow2_0();
            let full = fold_encode(self, inp, dd0);
            let cs = self.base_n() * pow2(dd0);
            lemma_fold_encode_len(self, inp, dd0);
            lemma_mul_is_commutative(k0 as int, nb as int);
            assert(holds_level(self, res@, inp, dd0, 1));
            assert(res@.len() == cs);
            assert(block(inp, (k0 * pow2(dd0)) as nat, 0) =~= inp);
            assert(level(self, inp, dd0, 0) == full);
            assert forall|i: int| 0 <= i < res@.len() implies #[trigger] ints(res@)[i] == full[i] by {
                assert(idx(0, cs as int, i) == i);
                assert(res@[idx(0, cs as int, i)] == level(self, inp, dd0, 0)[i]);
            }
            assert(ints(res@) =~= full);
            assert forall|dd: nat| #[trigger] pow2(dd) == input@.len() / self.base_k() implies dd == dd0 by {
                if dd < dd0 {
                    lemma_pow2_strictly_increases(dd, dd0);
                } else if dd > dd0 {
                    lemma_pow2_strictly_increases(dd0, dd);
                }
            }
        }
        res
    }
}

impl RSFoldableCode {
    /// The base Reed-Solomon code.
    pub closed spec fn base_code(&self) -> RScode {
        self.g0code
    }

    /// The base code of a well formed foldable code is a well formed code with
    /// `base_n` rows and `base_k` columns over the same field.
    pub proof fn lemma_base_code(&self)
        requires
            self.fc_wf(),
        ensures
            self.base_code().wf(),
            self.base_code().gen().wf(),
            self.base_code().gen().modulus() == self.modulus(),
            self.base_code().gen().nrows() == self.base_n(),
            self.base_code().gen().ncols() == self.base_k(),
            self.base_k() > 0,
            self.base_n() % self.base_k() == 0,
            1 < self.modulus() <= u64::MAX,
            forall|i: int, j: int| #[trigger] self.base_entry(i, j) == self.base_code().gen().entry(i, j),
            forall|i: int, j: int|
                0 <= i < self.base_n() && 0 <= j < self.base_k() ==> #[trigger] self.base_entry(i, j) == pow(
                    rs_point(i, self.modulus()),
                    j as nat,
                ) % (self.modulus() as int),
            self.depth() is Some ==> forall|dind: nat|
                dind < self.depth().unwrap() ==> (#[trigger] self.twiddle(dind)).len() == self.base_n() * pow2(dind)
                    && all_canonical(self.twiddle(dind), self.modulus()),
    {
        self.g0code.genr.lemma_wf();
        self.g0code.lemma_wf();
    }

    /// The base Reed-Solomon code.
    #[allow(non_snake_case)]
    pub fn G0code(&self) -> (g: &RScode)
        ensures
            *g == self.base_code(),
    {
        &self.g0code
    }
}

} // verus!
