//! Rank-one constraint systems: sparse matrices `A`, `B`, `C` whose rows are
//! indexed by the hypercube, and the evaluation of their multilinear extension
//! in the row variables.
use crate::codes::idx;
use crate::field::{all_canonical, fdiv, PrimeField};
use crate::matmul::{lemma_sparse_dot, lemma_sparse_entry, sparse_entry, sparse_row_wf, sparse_rows_draw, MatrixMul, SparseMatrixMul};
use crate::multilinear::{eq_point, lemma_pow2_split, lemma_row_index, streamable, MultilinearBasis, MultilinearBasisEvals};
use crate::sums::{lemma_sum_step, sum};
use crate::util::{bit_of, bits_from_int};
use vstd::arithmetic::div_mod::*;
use vstd::arithmetic::mul::*;
use vstd::arithmetic::power2::*;
use vstd::prelude::*;

verus! {

/// `sum_{c < n} M[c * w + l][j] * eq(at, c)`: the row-`l` part of column `j` of
/// `M`, with the high row variables evaluated at `at` (its first `n` terms).
pub open spec fn rowvar_sum(m: &SparseMatrixMul, w: nat, l: int, j: int, at: Seq<u64>, n: nat) -> int {
    sum(n, |c: int| m.entry(c * w + l, j) * eq_point(at, c as nat))
}

/// Adds `eqv` times the sparse row `row` to the `cols` entries of `acc` from `base` on.
fn accumulate_row(field: &PrimeField, acc: &mut Vec<u64>, row: &Vec<(usize, u64)>, base: usize, cols: usize, eqv: u64)
    requires
        sparse_row_wf(row@, cols as nat, field.q()),
        base + cols <= old(acc).len(),
        eqv < field.q(),
        all_canonical(old(acc)@, field.q()),
    ensures
        final(acc).len() == old(acc).len(),
        all_canonical(final(acc)@, field.q()),
        forall|j: int| 0 <= j < cols ==> #[trigger] final(acc)@[base + j] == (old(acc)@[base + j] + (sparse_entry(row@, j)
            * eqv) % (field.q() as int)) % (field.q() as int),
        forall|k: int| 0 <= k < old(acc).len() && !(base <= k < base + cols) ==> #[trigger] final(acc)@[k] == old(acc)@[k],
{
    let ghost q = field.q() as int;
    let ghost acc0 = acc@;
    proof {
        use_type_invariant(field);
    }
    let mut k: usize = 0;
    proof {
        assert forall|j: int| 0 <= j < cols implies #[trigger] acc@[base + j] == (acc0[base + j] + (sparse_entry(
            row@.subrange(0, 0),
            j,
        ) * eqv) % q) % q by {
            assert(row@.subrange(0, 0).len() == 0);
            assert(sparse_entry(row@.subrange(0, 0), j) == 0);
            lemma_small_mod(0, q as nat);
            lemma_small_mod(acc0[base + j] as nat, q as nat);
        }
    }
    while k < row.len()
        invariant
            q == field.q(),
            q > 1,
            eqv < q,
            sparse_row_wf(row@, cols as nat, q as nat),
            base + cols <= acc.len(),
            acc.len() == acc0.len(),
            all_canonical(acc@, q as nat),
            all_canonical(acc0, q as nat),
            k <= row.len(),
            forall|j: int| 0 <= j < cols ==> #[trigger] acc@[base + j] == (acc0[base + j] + (sparse_entry(
                row@.subrange(0, k as int),
                j,
            ) * eqv) % q) % q,
            forall|t: int| 0 <= t < acc0.len() && !(base <= t < base + cols) ==> #[trigger] acc@[t] == acc0[t],
        decreases row.len() - k,
    {
        let (j, el) = row[k];
        let ghost pre = row@.subrange(0, k as int);
        let ghost post = row@.subrange(0, k as int + 1);
        proof {
            assert(post.drop_last() =~= pre);
            assert(post.last() == row@[k as int]);
            assert(sparse_row_wf(pre, cols as nat, q as nat)) by {
                assert forall|a: int, b: int| 0 <= a < b < pre.len() implies (#[trigger] pre[a]).0 < (#[trigger] pre[b]).0 by {
                    assert(pre[a] == row@[a] && pre[b] == row@[b]);
                }
            }
            lemma_sparse_entry(pre, cols as nat, q as nat, j as int);
            assert forall|t: int| 0 <= t < pre.len() implies pre[t].0 != j by {
                assert(pre[t] == row@[t]);
                assert(row@[t].0 < row@[k as int].0);
            }
            assert(sparse_entry(pre, j as int) == 0);
            assert(sparse_entry(post, j as int) == el);
            assert forall|jj: int| 0 <= jj < cols && jj != j implies #[trigger] sparse_entry(post, jj) == sparse_entry(pre, jj) by {
            }
            lemma_small_mod(0, q as nat);
            lemma_small_mod(acc0[base + j] as nat, q as nat);
        }
        let cur = acc[base + j];
        let t = field.mul(el, eqv);
        let v = field.add(cur, t);
        acc.set(base + j, v);
        k = k + 1;
    }
    proof {
        assert(row@.subrange(0, row@.len() as int) =~= row@);
    }
}

/// A matrix of a rank-one constraint system: a sparse matrix with `2^rowlogsize`
/// rows and a power of two of columns.
pub struct R1CSMatrix {
    rowlogsize: usize,
    mm: SparseMatrixMul,
}

impl R1CSMatrix {
    /// The sparse matrix.
    pub closed spec fn matrix(&self) -> SparseMatrixMul {
        self.mm
    }

    /// The number of row variables.
    pub closed spec fn logrows(&self) -> nat {
        self.rowlogsize as nat
    }

    /// The matrix is well formed and has `2^rowlogsize` rows.
    pub closed spec fn wf(&self) -> bool {
        &&& self.mm.wf()
        &&& self.mm.nrows() == pow2(self.rowlogsize as nat)
        &&& self.rowlogsize < usize::BITS
    }

    /// The constraint matrix given by `mm`, whose numbers of rows and columns are
    /// powers of two.
    pub fn new(mm: SparseMatrixMul) -> (r: R1CSMatrix)
        requires
            mm.wf(),
            exists|n: nat| mm.nrows() == pow2(n),
            exists|n: nat| mm.ncols() == pow2(n),
        ensures
            r.wf(),
            r.matrix() == mm,
            pow2(r.logrows()) == mm.nrows(),
    {
        let rows = mm.rows();
        let ghost n0 = choose|n: nat| mm.nrows() == pow2(n);
        let mut lg: usize = 0;
        let mut pw: usize = 1;
        proof {
            lemma2_to64();
            lemma_pow2_pos(n0);
            if n0 >= usize::BITS {
                if n0 > usize::BITS {
                    lemma_pow2_strictly_increases(usize::BITS as nat, n0);
                }
                crate::util::lemma_usize_bits_pow2();
            }
        }
        while pw < rows
            invariant
                rows == pow2(n0),
                n0 < usize::BITS,
                pw == pow2(lg as nat),
                lg <= n0,
            decreases n0 - lg,
        {
            proof {
                if lg == n0 {
                    assert(false);
                }
                lemma_pow2_unfold((lg + 1) as nat);
                if lg + 1 < n0 {
                    lemma_pow2_strictly_increases((lg + 1) as nat, n0);
                }
            }
            pw = pw * 2;
            lg = lg + 1;
        }
        proof {
            if lg < n0 {
                lemma_pow2_strictly_increases(lg as nat, n0);
            }
        }
        R1CSMatrix { rowlogsize: lg, mm }
    }

    /// The number of row variables.
    pub fn rowlogsize(&self) -> (r: usize)
        ensures
            r == self.logrows(),
    {
        self.rowlogsize
    }

    /// The product of the matrix with `rhs`.
    pub fn mul(&self, rhs: &[u64]) -> (res: Vec<u64>)
        requires
            self.wf(),
            rhs.len() == self.matrix().ncols(),
            all_canonical(rhs@, self.matrix().modulus()),
        ensures
            res.len() == self.matrix().nrows(),
            forall|i: int|
                0 <= i < self.matrix().nrows() ==> #[trigger] res[i] == sum(
                    self.matrix().ncols(),
                    |j: int| self.matrix().entry(i, j) * rhs@[j],
                ) % (self.matrix().modulus() as int),
    {
        self.mm.mul(rhs)
    }

    /// Splits the flat accumulator into rows of `cols` entries.
    fn split_rows(acc: &Vec<u64>, nrows: usize, cols: usize) -> (res: Vec<Vec<u64>>)
        requires
            acc.len() == nrows * cols,
        ensures
            res.len() == nrows,
            forall|l: int| 0 <= l < nrows ==> (#[trigger] res@[l]).len() == cols,
            forall|l: int, j: int| 0 <= l < nrows && 0 <= j < cols ==> #[trigger] res@[l]@[j] == acc@[idx(l, cols as int, j)],
    {
        let mut res: Vec<Vec<u64>> = Vec::new();
        let mut l: usize = 0;
        while l < nrows
            invariant
                acc.len() == nrows * cols,
                l <= nrows,
                res.len() == l,
                forall|ll: int| 0 <= ll < l ==> (#[trigger] res@[ll]).len() == cols,
                forall|ll: int, j: int| 0 <= ll < l && 0 <= j < cols ==> #[trigger] res@[ll]@[j] == acc@[idx(ll, cols as int, j)],
            decreases nrows - l,
        {
            let mut row: Vec<u64> = Vec::new();
            let mut j: usize = 0;
            while j < cols
                invariant
                    acc.len() == nrows * cols,
                    l < nrows,
                    j <= cols,
                    row.len() == j,
                    forall|jj: int| 0 <= jj < j ==> #[trigger] row@[jj] == acc@[idx(l as int, cols as int, jj)],
                decreases cols - j,
            {
                proof {
                    lemma_row_index(l as int, j as int, nrows as int, cols as int);
                }
                row.push(acc[l * cols + j]);
                j = j + 1;
            }
            res.push(row);
            l = l + 1;
        }
        res
    }
}

impl R1CSMatrix {
    /// Adds `eqv` times the rows `c * w + l`, for every `l < w`, to row `l` of
    /// the flat accumulator of `w` rows of `cols` entries.
    fn accumulate_block(&self, acc: &mut Vec<u64>, c: usize, w: usize, cols: usize, eqv: u64)
        requires
            self.wf(),
            cols == self.matrix().ncols(),
            (c + 1) * w <= self.matrix().nrows(),
            old(acc).len() == w * cols,
            eqv < self.matrix().modulus(),
            all_canonical(old(acc)@, self.matrix().modulus()),
        ensures
            final(acc).len() == old(acc).len(),
            all_canonical(final(acc)@, self.matrix().modulus()),
            forall|l: int, j: int|
                0 <= l < w && 0 <= j < cols ==> #[trigger] final(acc)@[idx(l, cols as int, j)] == (old(acc)@[idx(
                    l,
                    cols as int,
                    j,
                )] + (self.matrix().entry(c * w + l, j) * eqv) % (self.matrix().modulus() as int)) % (
                self.matrix().modulus() as int),
    {
        let ghost acc0 = acc@;
        let ghost q = self.mm.modulus() as int;
        let field = self.mm.ring();
        let data = self.mm.get_data();
        proof {
            self.mm.lemma_rows();
            assert(data@.map_values(|r: Vec<(usize, u64)>| r@) == self.mm.rows_view());
        }
        let mut l: usize = 0;
        while l < w
            invariant
                self.wf(),
                field.q() == q,
                q == self.mm.modulus(),
                cols == self.mm.ncols(),
                (c + 1) * w <= self.mm.nrows(),
                data@.map_values(|r: Vec<(usize, u64)>| r@) == self.mm.rows_view(),
                self.mm.rows_view().len() == self.mm.nrows(),
                forall|i: int| 0 <= i < self.mm.nrows() ==> sparse_row_wf(#[trigger] self.mm.rows_view()[i], self.mm.ncols(), self.mm.modulus()),
                forall|i: int, j: int| 0 <= i < self.mm.nrows() ==> #[trigger] self.mm.entry(i, j) == sparse_entry(self.mm.rows_view()[i], j),
                acc.len() == w * cols,
                acc0.len() == w * cols,
                eqv < q,
                all_canonical(acc@, q as nat),
                l <= w,
                forall|ll: int, j: int|
                    0 <= ll < l && 0 <= j < cols ==> #[trigger] acc@[idx(ll, cols as int, j)] == (acc0[idx(
                        ll,
                        cols as int,
                        j,
                    )] + (self.mm.entry(c * w + ll, j) * eqv) % q) % q,
                forall|ll: int, j: int| l <= ll < w && 0 <= j < cols ==> #[trigger] acc@[idx(ll, cols as int, j)] == acc0[idx(ll, cols as int, j)],
            decreases w - l,
        {
            proof {
                lemma_row_index(c as int, l as int, c as int + 1, w as int);
                lemma_mul_is_distributive_add_other_way(w as int, c as int, 1);
                vstd::bits::lemma_usize_pow2_no_overflow(self.rowlogsize as nat);
                lemma_mul_inequality(l as int, l as int + 1, cols as int);
                lemma_mul_inequality(l as int + 1, w as int, cols as int);
                lemma_mul_is_distributive_add_other_way(cols as int, l as int, 1);
            }
            let i = c * w + l;
            let row = &data[i];
            proof {
                assert(row@ == self.mm.rows_view()[i as int]);
            }
            let ghost before = acc@;
            accumulate_row(field, acc, row, l * cols, cols, eqv);
            proof {
                assert forall|ll: int, j: int| 0 <= ll < w && 0 <= j < cols && ll != l implies #[trigger] acc@[idx(ll, cols as int, j)] == before[idx(ll, cols as int, j)] by {
                    lemma_row_index(ll, j, w as int, cols as int);
                    if ll < l {
                        lemma_mul_inequality(ll + 1, l as int, cols as int);
                        lemma_mul_is_distributive_add_other_way(cols as int, ll, 1);
                    } else {
                        lemma_mul_inequality(l as int + 1, ll, cols as int);
                    }
                }
                assert forall|j: int| 0 <= j < cols implies #[trigger] acc@[idx(l as int, cols as int, j)] == (acc0[idx(l as int, cols as int, j)] + (self.mm.entry(c * w + l, j) * eqv) % q) % q by {
                    assert(idx(l as int, cols as int, j) == l * cols + j);
                    assert(self.mm.entry(i as int, j) == sparse_entry(row@, j));
                }
            }
            l = l + 1;
        }
    }

    /// The multilinear extension of the matrix evaluated at `at` in its last
    /// (high) row variables: a matrix of `2^(rowlogsize - at.len())` rows whose
    /// row `l` and column `j` is `sum_c M[c * 2^(rowlogsize - at.len()) + l][j] * eq(at, c)`.
    /// Each `eq(at, c)` is computed from scratch.
    pub fn evaluate_rowvars_slow(&self, at: &[u64]) -> (res: Vec<Vec<u64>>)
        requires
            self.wf(),
            at.len() <= self.logrows(),
            all_canonical(at@, self.matrix().modulus()),
            pow2((self.logrows() - at.len()) as nat) * self.matrix().ncols() <= usize::MAX,
        ensures
            res.len() == pow2((self.logrows() - at.len()) as nat),
            forall|l: int| 0 <= l < res.len() ==> (#[trigger] res@[l]).len() == self.matrix().ncols(),
            forall|l: int, j: int|
                0 <= l < res.len() && 0 <= j < self.matrix().ncols() ==> #[trigger] res@[l]@[j] == rowvar_sum(
                    &self.matrix(),
                    pow2((self.logrows() - at.len()) as nat),
                    l,
                    j,
                    at@,
                    pow2(at.len() as nat),
                ) % (self.matrix().modulus() as int),
    {
        let field = self.mm.ring();
        let ghost q = self.mm.modulus() as int;
        proof {
            use_type_invariant(field);
        }
        let cols = self.mm.columns();
        let m = at.len();
        let rl = self.rowlogsize;
        proof {
            vstd::bits::lemma_usize_pow2_no_overflow((rl - m) as nat);
            assert(1 * pow2((rl - m) as nat) == pow2((rl - m) as nat));
            vstd::bits::lemma_usize_shl_is_mul(1, (rl - m) as usize);
            vstd::bits::lemma_usize_pow2_no_overflow(m as nat);
            assert(1 * pow2(m as nat) == pow2(m as nat));
            vstd::bits::lemma_usize_shl_is_mul(1, m);
            lemma_pow2_split(m as nat, (rl - m) as nat);
            assert(m as nat + (rl - m) as nat == rl as nat);
        }
        let w = 1usize << (rl - m);
        let nc = 1usize << m;
        let mb = MultilinearBasis::new(field, at);
        let zero = field.zero();
        let mut acc: Vec<u64> = vec![zero; w * cols];
        let ghost g = |l: int, j: int, n: nat| rowvar_sum(&self.mm, w as nat, l, j, at@, n);
        proof {
            lemma_small_mod(0, q as nat);
            assert forall|l: int, j: int| 0 <= l < w && 0 <= j < cols implies #[trigger] acc@[idx(l, cols as int, j)] == g(l, j, 0) % q by {
                lemma_row_index(l, j, w as int, cols as int);
            }
        }
        let mut c: usize = 0;
        while c < nc
            invariant
                self.wf(),
                field.q() == q,
                q == self.mm.modulus(),
                q > 1,
                mb.wf(),
                mb.point() == at@,
                mb.modulus() == q,
                m == at.len(),
                m < usize::BITS,
                cols == self.mm.ncols(),
                nc == pow2(m as nat),
                w == pow2((rl - m) as nat),
                nc * w == self.mm.nrows(),
                acc.len() == w * cols,
                all_canonical(acc@, q as nat),
                c <= nc,
                g == (|l: int, j: int, n: nat| rowvar_sum(&self.mm, w as nat, l, j, at@, n)),
                forall|l: int, j: int| 0 <= l < w && 0 <= j < cols ==> #[trigger] acc@[idx(l, cols as int, j)] == g(l, j, c as nat) % q,
            decreases nc - c,
        {
            let bitsc = bits_from_int(c, m);
            proof {
                assert forall|i: int| 0 <= i < bitsc.len() implies #[trigger] bitsc@[i] == 0 || bitsc@[i] == 1 by {
                    crate::util::lemma_bit_of_bound(c as nat, i as nat);
                }
            }
            let eqv = mb.evaluate_athc(bitsc);
            proof {
                crate::sums::lemma_prod_ext(
                    m as nat,
                    |i: int| crate::multilinear::eq_factor(at@[i] as int, bitsc@[i] as nat),
                    |i: int| crate::multilinear::eq_factor(at@[i] as int, bit_of(c as nat, i as nat)),
                );
                assert(eqv == eq_point(at@, c as nat) % q);
                lemma_mul_inequality(c as int + 1, nc as int, w as int);
            }
            let ghost before = acc@;
            self.accumulate_block(&mut acc, c, w, cols, eqv);
            proof {
                assert forall|l: int, j: int| 0 <= l < w && 0 <= j < cols implies #[trigger] acc@[idx(l, cols as int, j)] == g(l, j, c as nat + 1) % q by {
                    let f = |cc: int| self.mm.entry(cc * w + l, j) * eq_point(at@, cc as nat);
                    assert(g(l, j, c as nat) == sum(c as nat, f));
                    assert(g(l, j, c as nat + 1) == sum(c as nat + 1, f));
                    lemma_mul_mod_noop_right(self.mm.entry(c * w + l, j) as int, eq_point(at@, c as nat), q);
                    lemma_sum_step(c as nat, q, f, before[idx(l, cols as int, j)] as int, (self.mm.entry(c * w + l, j) * eqv) % q);
                }
            }
            c = c + 1;
        }
        Self::split_rows(&acc, w, cols)
    }

    /// The multilinear extension of the matrix evaluated at `at` in its last
    /// (high) row variables (see `evaluate_rowvars_slow`), streaming the
    /// evaluations of `eq(at, .)`.
    pub fn evaluate_rowvars(&self, at: &[u64]) -> (res: Vec<Vec<u64>>)
        requires
            self.wf(),
            at.len() <= self.logrows(),
            all_canonical(at@, self.matrix().modulus()),
            streamable(at@),
            pow2((self.logrows() - at.len()) as nat) * self.matrix().ncols() <= usize::MAX,
        ensures
            res.len() == pow2((self.logrows() - at.len()) as nat),
            forall|l: int| 0 <= l < res.len() ==> (#[trigger] res@[l]).len() == self.matrix().ncols(),
            forall|l: int, j: int|
                0 <= l < res.len() && 0 <= j < self.matrix().ncols() ==> #[trigger] res@[l]@[j] == rowvar_sum(
                    &self.matrix(),
                    pow2((self.logrows() - at.len()) as nat),
                    l,
                    j,
                    at@,
                    pow2(at.len() as nat),
                ) % (self.matrix().modulus() as int),
    {
        let field = self.mm.ring();
        let ghost q = self.mm.modulus() as int;
        proof {
            use_type_invariant(field);
            field.lemma_q_fits();
        }
        let cols = self.mm.columns();
        let m = at.len();
        let rl = self.rowlogsize;
        proof {
            vstd::bits::lemma_usize_pow2_no_overflow((rl - m) as nat);
            assert(1 * pow2((rl - m) as nat) == pow2((rl - m) as nat));
            vstd::bits::lemma_usize_shl_is_mul(1, (rl - m) as usize);
            vstd::bits::lemma_usize_pow2_no_overflow(m as nat);
            assert(1 * pow2(m as nat) == pow2(m as nat));
            vstd::bits::lemma_usize_shl_is_mul(1, m);
            lemma_pow2_split(m as nat, (rl - m) as nat);
            assert(m as nat + (rl - m) as nat == rl as nat);
        }
        let w = 1usize << (rl - m);
        let nc = 1usize << m;
        let mut eq = MultilinearBasisEvals::new(field, at);
        let zero = field.zero();
        let mut acc: Vec<u64> = vec![zero; w * cols];
        let ghost g = |l: int, j: int, n: nat| rowvar_sum(&self.mm, w as nat, l, j, at@, n);
        proof {
            lemma_small_mod(0, q as nat);
            assert forall|l: int, j: int| 0 <= l < w && 0 <= j < cols implies #[trigger] acc@[idx(l, cols as int, j)] == g(l, j, 0) % q by {
                lemma_row_index(l, j, w as int, cols as int);
            }
        }
        let mut c: usize = 0;
        while c < nc
            invariant
                self.wf(),
                field.q() == q,
                q == self.mm.modulus(),
                q > 1,
                q <= u64::MAX,
                eq.wf(),
                eq.point() == at@,
                eq.modulus() == q,
                eq.index() == c,
                streamable(at@),
                m == at.len(),
                m < usize::BITS,
                cols == self.mm.ncols(),
                nc == pow2(m as nat),
                w == pow2((rl - m) as nat),
                nc * w == self.mm.nrows(),
                acc.len() == w * cols,
                all_canonical(acc@, q as nat),
                c <= nc,
                g == (|l: int, j: int, n: nat| rowvar_sum(&self.mm, w as nat, l, j, at@, n)),
                forall|l: int, j: int| 0 <= l < w && 0 <= j < cols ==> #[trigger] acc@[idx(l, cols as int, j)] == g(l, j, c as nat) % q,
            decreases nc - c,
        {
            let eqv = eq.next().unwrap();
            proof {
                lemma_mul_inequality(c as int + 1, nc as int, w as int);
            }
            let ghost before = acc@;
            self.accumulate_block(&mut acc, c, w, cols, eqv);
            proof {
                assert forall|l: int, j: int| 0 <= l < w && 0 <= j < cols implies #[trigger] acc@[idx(l, cols as int, j)] == g(l, j, c as nat + 1) % q by {
                    let f = |cc: int| self.mm.entry(cc * w + l, j) * eq_point(at@, cc as nat);
                    assert(g(l, j, c as nat) == sum(c as nat, f));
                    assert(g(l, j, c as nat + 1) == sum(c as nat + 1, f));
                    lemma_mul_mod_noop_right(self.mm.entry(c * w + l, j) as int, eq_point(at@, c as nat), q);
                    lemma_sum_step(c as nat, q, f, before[idx(l, cols as int, j)] as int, (self.mm.entry(c * w + l, j) * eqv) % q);
                }
            }
            c = c + 1;
        }
        Self::split_rows(&acc, w, cols)
    }
}

/// A rank-one constraint system `(A z) * (B z) == C z`.
#[allow(non_snake_case)]
pub struct R1CS {
    pub A: R1CSMatrix,
    pub B: R1CSMatrix,
    pub C: R1CSMatrix,
}

/// The column of the single entry of row `i` of the matrix `C` built for the
/// witness `z`: `i` itself where `z_i` is a nonzero entry of `z`, otherwise the
/// first nonzero entry of `z`.
pub open spec fn c_column(z: Seq<u64>, i: int, col: int) -> bool {
    &&& 0 <= col < z.len()
    &&& z[col] != 0
    &&& (i < z.len() && z[i] != 0 ==> col == i)
    &&& (!(i < z.len() && z[i] != 0) ==> forall|j: int| 0 <= j < col ==> #[trigger] z[j] == 0)
}

impl R1CS {
    /// The constraint system with the matrices `A`, `B` and `C`.
    #[allow(non_snake_case)]
    pub fn new(A: SparseMatrixMul, B: SparseMatrixMul, C: SparseMatrixMul) -> (r: R1CS)
        requires
            A.wf(),
            B.wf(),
            C.wf(),
            exists|n: nat| A.nrows() == pow2(n),
            exists|n: nat| A.ncols() == pow2(n),
            exists|n: nat| B.nrows() == pow2(n),
            exists|n: nat| B.ncols() == pow2(n),
            exists|n: nat| C.nrows() == pow2(n),
            exists|n: nat| C.ncols() == pow2(n),
        ensures
            r.A.wf(),
            r.B.wf(),
            r.C.wf(),
            r.A.matrix() == A,
            r.B.matrix() == B,
            r.C.matrix() == C,
    {
        R1CS { A: R1CSMatrix::new(A), B: R1CSMatrix::new(B), C: R1CSMatrix::new(C) }
    }

    /// A random constraint system satisfied by `z`, with `rowlen` constraints:
    /// `A` and `B` have three random entries per row; `C` has one entry per row,
    /// chosen so that `C z == (A z) * (B z)`. Also returns `A z`, `B z` and `C z`.
    pub fn random_from(field: &PrimeField, rng: &mut rand_seeder::SipRng, z: &[u64], rowlen: usize) -> (r: (
        R1CS,
        Vec<u64>,
        Vec<u64>,
        Vec<u64>,
    ))
        requires
            all_canonical(z@, field.q()),
            exists|j: int| 0 <= j < z.len() && z@[j] != 0,
            3 <= z.len(),
            exists|n: nat| rowlen == pow2(n),
            exists|n: nat| z.len() == pow2(n),
        ensures
            ({
                let (cs, za, zb, zc) = r;
                let q = field.q() as int;
                &&& cs.A.wf() && cs.B.wf() && cs.C.wf()
                &&& cs.A.matrix().modulus() == field.q() && cs.B.matrix().modulus() == field.q()
                    && cs.C.matrix().modulus() == field.q()
                &&& cs.A.matrix().nrows() == rowlen && cs.B.matrix().nrows() == rowlen && cs.C.matrix().nrows() == rowlen
                &&& cs.A.matrix().ncols() == z.len() && cs.B.matrix().ncols() == z.len() && cs.C.matrix().ncols() == z.len()
                &&& forall|i: int| 0 <= i < rowlen ==> (#[trigger] cs.A.matrix().rows_view()[i]).len() == 3
                &&& forall|i: int| 0 <= i < rowlen ==> (#[trigger] cs.B.matrix().rows_view()[i]).len() == 3
                &&& forall|i: int|
                    0 <= i < rowlen ==> #[trigger] cs.A.matrix().rows_view()[i] == sparse_rows_draw(
                        *old(rng),
                        field.q(),
                        z.len() as nat,
                        3,
                        rowlen as nat,
                    ).0[i]
                &&& forall|i: int|
                    0 <= i < rowlen ==> #[trigger] cs.B.matrix().rows_view()[i] == sparse_rows_draw(
                        sparse_rows_draw(*old(rng), field.q(), z.len() as nat, 3, rowlen as nat).1,
                        field.q(),
                        z.len() as nat,
                        3,
                        rowlen as nat,
                    ).0[i]
                &&& *final(rng) == sparse_rows_draw(
                    sparse_rows_draw(*old(rng), field.q(), z.len() as nat, 3, rowlen as nat).1,
                    field.q(),
                    z.len() as nat,
                    3,
                    rowlen as nat,
                ).1
                &&& za.len() == rowlen && zb.len() == rowlen && zc.len() == rowlen
                &&& forall|i: int| 0 <= i < rowlen ==> #[trigger] za@[i] == sum(z.len() as nat, |j: int| cs.A.matrix().entry(i, j) * z@[j]) % q
                &&& forall|i: int| 0 <= i < rowlen ==> #[trigger] zb@[i] == sum(z.len() as nat, |j: int| cs.B.matrix().entry(i, j) * z@[j]) % q
                &&& forall|i: int| 0 <= i < rowlen ==> #[trigger] zc@[i] == (za@[i] * zb@[i]) % q
                &&& forall|i: int| 0 <= i < rowlen ==> sum(z.len() as nat, |j: int| cs.C.matrix().entry(i, j) * z@[j]) % q == #[trigger] zc@[i]
                &&& forall|i: int| 0 <= i < rowlen ==> {
                    let row = #[trigger] cs.C.matrix().rows_view()[i];
                    &&& row.len() == 1
                    &&& c_column(z@, i, row[0].0 as int)
                    &&& row[0].1 == fdiv(zc@[i] as int, z@[row[0].0 as int] as int, q)
                }
            }),
    {
        let ghost q = field.q() as int;
        proof {
            use_type_invariant(field);
        }
        let n = z.len();
        let a = SparseMatrixMul::random(field, rng, rowlen, n, 3, "A");
        let b = SparseMatrixMul::random(field, rng, rowlen, n, 3, "B");
        let za = a.mul(z);
        let zb = b.mul(z);
        proof {
            a.lemma_wf();
            b.lemma_wf();
            assert forall|k: int| 0 <= k < rowlen implies #[trigger] za@[k] < q by {
                lemma_mod_bound(sum(n as nat, |j: int| a.entry(k, j) * z@[j]), q);
            }
            assert forall|k: int| 0 <= k < rowlen implies #[trigger] zb@[k] < q by {
                lemma_mod_bound(sum(n as nat, |j: int| b.entry(k, j) * z@[j]), q);
            }
        }
        let mut zc: Vec<u64> = Vec::new();
        let mut i: usize = 0;
        while i < rowlen
            invariant
                q == field.q(),
                za.len() == rowlen,
                zb.len() == rowlen,
                forall|k: int| 0 <= k < rowlen ==> #[trigger] za@[k] < q,
                forall|k: int| 0 <= k < rowlen ==> #[trigger] zb@[k] < q,
                i <= rowlen,
                zc.len() == i,
                forall|k: int| 0 <= k < i ==> #[trigger] zc@[k] == (za@[k] * zb@[k]) % q,
                all_canonical(zc@, q as nat),
            decreases rowlen - i,
        {
            zc.push(field.mul(za[i], zb[i]));
            i = i + 1;
        }
        // the first nonzero entry of z
        let mut first: usize = 0;
        while first < n && z[first] == 0
            invariant
                first <= n,
                n == z.len(),
                exists|j: int| 0 <= j < z.len() && z@[j] != 0,
                forall|j: int| 0 <= j < first ==> #[trigger] z@[j] == 0,
            decreases n - first,
        {
            first = first + 1;
        }
        let mut crows: Vec<Vec<(usize, u64)>> = Vec::new();
        let mut i: usize = 0;
        while i < rowlen
            invariant
                q == field.q(),
                q > 1,
                n == z.len(),
                first < n,
                z@[first as int] != 0,
                forall|j: int| 0 <= j < first ==> #[trigger] z@[j] == 0,
                all_canonical(z@, q as nat),
                zc.len() == rowlen,
                all_canonical(zc@, q as nat),
                i <= rowlen,
                crows.len() == i,
                forall|k: int| 0 <= k < i ==> sparse_row_wf(#[trigger] crows@[k]@, n as nat, q as nat),
                forall|k: int| 0 <= k < i ==> {
                    let row = #[trigger] crows@[k]@;
                    &&& row.len() == 1
                    &&& c_column(z@, k, row[0].0 as int)
                    &&& row[0].1 == fdiv(zc@[k] as int, z@[row[0].0 as int] as int, q)
                    &&& (row[0].1 * z@[row[0].0 as int]) % q == zc@[k] as int
                },
            decreases rowlen - i,
        {
            let col = if i < n && z[i] != 0 {
                i
            } else {
                first
            };
            let v = field.div(zc[i], z[col]);
            let mut row: Vec<(usize, u64)> = Vec::new();
            row.push((col, v));
            crows.push(row);
            i = i + 1;
        }
        let c = SparseMatrixMul::new(field, n, crows, "C");
        let ghost cv = c;
        proof {
            cv.lemma_rows();
            assert forall|k: int| 0 <= k < rowlen implies sum(n as nat, |j: int| cv.entry(k, j) * z@[j]) % q == #[trigger] zc@[k] by {
                let row = cv.rows_view()[k];
                lemma_sparse_dot(row, n as nat, q as nat, z@);
                crate::sums::lemma_sum_ext(n as nat, |j: int| cv.entry(k, j) * z@[j], |j: int| sparse_entry(row, j) * z@[j]);
                assert(row.drop_last().len() == 0);
                assert(crate::matmul::sparse_dot(row.drop_last(), z@) == 0);
                assert(row.last() == row[0]);
                assert(crate::matmul::sparse_dot(row, z@) == row[0].1 * z@[row[0].0 as int]);
            }
        }
        let cs = R1CS::new(a, b, c);
        (cs, za, zb, zc)
    }
}

} // verus!
