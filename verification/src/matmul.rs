//! Matrices over a prime field and their products with vectors.
//!
//! Every matrix kind exposes its entries through `MatrixMul::entry`, and its
//! product with a vector is stated entrywise: entry `i` of `M * v` is
//! `sum_j M[i][j] * v[j]` reduced modulo the field's characteristic.
use crate::field::{all_canonical, is_prime, PrimeField};
use rand_seeder::SipRng;
use crate::rng::{below_draw, element_draw};
use crate::sums::{lemma_sum_split, lemma_sum_add, lemma_sum_blocks, lemma_sum_congruent, lemma_sum_ext, lemma_sum_scale, lemma_sum_single, lemma_sum_swap, lemma_sum_zero, sum};
use vstd::arithmetic::div_mod::*;
use vstd::arithmetic::mul::*;
use vstd::arithmetic::power2::*;
use vstd::prelude::*;

verus! {

/// The exact integer `sum_j M[i][j] * v[j]`.
pub open spec fn row_dot<M: MatrixMul>(m: &M, i: int, v: Seq<u64>) -> int {
    sum(m.ncols(), |j: int| m.entry(i, j) * v[j])
}

/// Two matrices have the same shape, field and entries.
pub open spec fn same_matrix<M: MatrixMul, N: MatrixMul>(a: &M, b: &N) -> bool {
    &&& a.modulus() == b.modulus()
    &&& a.nrows() == b.nrows()
    &&& a.ncols() == b.ncols()
    &&& forall|i: int, j: int|
        0 <= i < a.nrows() && 0 <= j < a.ncols() ==> #[trigger] a.entry(i, j) == b.entry(i, j)
}

/// A matrix over a prime field that can be multiplied with vectors.
pub trait MatrixMul: Sized {
    /// The matrix is well formed.
    spec fn wf(&self) -> bool;

    /// The characteristic of the field of the entries.
    spec fn modulus(&self) -> nat;

    /// The number of rows.
    spec fn nrows(&self) -> nat;

    /// The number of columns.
    spec fn ncols(&self) -> nat;

    /// The entry in row `i` and column `j`.
    spec fn entry(&self, i: int, j: int) -> u64;

    /// A well formed matrix is over a prime field and holds canonical entries.
    proof fn lemma_wf(&self)
        requires
            self.wf(),
        ensures
            is_prime(self.modulus()),
            self.modulus() <= u64::MAX,
            forall|i: int, j: int|
                0 <= i < self.nrows() && 0 <= j < self.ncols() ==> #[trigger] self.entry(i, j)
                    < self.modulus(),
    ;

    /// The field of the entries.
    fn ring(&self) -> (f: &PrimeField)
        requires
            self.wf(),
        ensures
            f.q() == self.modulus(),
    ;

    /// The description of the matrix.
    spec fn description(&self) -> Seq<char>;

    /// The description of the matrix.
    fn desc(&self) -> (d: &String)
        ensures
            d@ == self.description(),
    ;

    /// The number of rows.
    fn rows(&self) -> (r: usize)
        ensures
            r == self.nrows(),
    ;

    /// The number of columns.
    fn columns(&self) -> (c: usize)
        ensures
            c == self.ncols(),
    ;

    /// The entry in row `i` and column `j`.
    fn get(&self, i: usize, j: usize) -> (e: u64)
        requires
            self.wf(),
            i < self.nrows(),
            j < self.ncols(),
        ensures
            e == self.entry(i as int, j as int),
    ;

    /// The product of the matrix with the column vector `rhs`.
    fn mul(&self, rhs: &[u64]) -> (res: Vec<u64>)
        requires
            self.wf(),
            rhs.len() == self.ncols(),
            all_canonical(rhs@, self.modulus()),
        ensures
            res.len() == self.nrows(),
            forall|i: int|
                0 <= i < self.nrows() ==> #[trigger] res[i] == sum(
                    self.ncols(),
                    |j: int| self.entry(i, j) * rhs@[j],
                ) % (self.modulus() as int),
    ;

    /// A copy of the matrix.
    fn clone_matrix(&self) -> (r: Self)
        requires
            self.wf(),
        ensures
            r.wf(),
            r.modulus() == self.modulus(),
            r.nrows() == self.nrows(),
            r.ncols() == self.ncols(),
            r.description() == self.description(),
            forall|i: int, j: int|
                0 <= i < self.nrows() && 0 <= j < self.ncols() ==> #[trigger] r.entry(i, j)
                    == self.entry(i, j),
    ;
}

/// `i * c + j < r * c` for `i < r` and `j < c`.
pub proof fn lemma_index_bound(i: int, j: int, r: int, c: int)
    requires
        0 <= i < r,
        0 <= j < c,
    ensures
        0 <= i * c + j < r * c,
        i * c <= i * c + j,
{
    lemma_mul_inequality(i + 1, r, c);
    lemma_mul_is_distributive_add_other_way(c, i, 1);
    lemma_mul_nonnegative(i, c);
}

/// `i / b < a` and `i % b < b` for `0 <= i < b * a`.
pub proof fn lemma_div_bound(i: int, b: int, a: int)
    requires
        0 <= i < b * a,
        b > 0,
        a >= 0,
    ensures
        0 <= i / b < a,
        0 <= i % b < b,
{
    lemma_mul_is_commutative(b, a);
    lemma_div_by_multiple_is_strongly_ordered(i, a * b, a, b);
    lemma_div_by_multiple(a, b);
    lemma_div_pos_is_pos(i, b);
    lemma_mod_bound(i, b);
}

/// One step of a running dot product modulo `q`.
pub proof fn lemma_dot_step(n: nat, q: int, f: spec_fn(int) -> int, acc: int, x: int, y: int)
    requires
        q > 0,
        acc == sum(n, f) % q,
        x == y % q,
        y == f(n as int),
    ensures
        (acc + x) % q == sum(n + 1, f) % q,
{
    lemma_add_mod_noop(sum(n, f), y, q);
    lemma_mod_twice(sum(n, f), q);
    lemma_mod_twice(y, q);
    lemma_add_mod_noop(acc, x, q);
}

/// A dense matrix, stored row by row.
pub struct DenseMatrixMul {
    field: PrimeField,
    rows: usize,
    columns: usize,
    data: Vec<u64>,
    desc: String,
}

impl DenseMatrixMul {
    /// The entries, row by row.
    pub closed spec fn data_view(&self) -> Seq<u64> {
        self.data@
    }

    /// A matrix with `columns` columns whose rows are the consecutive chunks of `data`.
    pub fn new(field: &PrimeField, columns: usize, data: Vec<u64>, desc: &str) -> (m: DenseMatrixMul)
        requires
            columns > 0,
            data.len() % columns == 0,
            all_canonical(data@, field.q()),
        ensures
            m.wf(),
            m.modulus() == field.q(),
            m.ncols() == columns,
            m.nrows() == data.len() / columns,
            m.data_view() == data@,
            m.description() == desc@,
            forall|i: int, j: int|
                0 <= i < m.nrows() && 0 <= j < columns ==> #[trigger] m.entry(i, j) == data@[i
                    * columns + j],
    {
        proof {
            use_type_invariant(field);
            lemma_fundamental_div_mod(data.len() as int, columns as int);
            lemma_mul_is_commutative(columns as int, data.len() as int / columns as int);
        }
        let rows = data.len() / columns;
        DenseMatrixMul { field: field.clone(), rows, columns, data, desc: desc.to_string() }
    }

    /// A matrix with uniformly random entries drawn from `rng`.
    pub fn random(field: &PrimeField, rng: &mut SipRng, rows: usize, columns: usize, desc: &str) -> (m: DenseMatrixMul)
        requires
            columns > 0,
            rows * columns <= usize::MAX,
        ensures
            m.wf(),
            m.modulus() == field.q(),
            m.nrows() == rows,
            m.ncols() == columns,
            m.description() == desc@,
            (m.data_view(), *final(rng)) == crate::rng::element_draws(*old(rng), field.q(), (rows * columns) as nat),
            forall|i: int, j: int|
                0 <= i < rows && 0 <= j < columns ==> #[trigger] m.entry(i, j) == m.data_view()[i * columns + j],
    {
        let data = crate::rng::gen_random(field, rng, rows * columns);
        proof {
            lemma_mod_multiples_basic(rows as int, columns as int);
            lemma_div_multiples_vanish(rows as int, columns as int);
            lemma_mul_is_commutative(rows as int, columns as int);
        }
        DenseMatrixMul::new(field, columns, data, desc)
    }

    /// The entries of the matrix, row by row.
    pub fn data(&self) -> (d: &Vec<u64>)
        ensures
            d@ == self.data_view(),
    {
        &self.data
    }

    /// The product of the block of rows `rows` and columns `columns` with `rhs`.
    pub fn submatmul(&self, rows: std::ops::Range<usize>, columns: std::ops::Range<usize>, rhs: &[u64]) -> (res: Vec<u64>)
        requires
            self.wf(),
            rows.start < self.nrows(),
            1 <= rows.end <= self.nrows(),
            rows.start <= rows.end,
            columns.start < self.ncols(),
            1 <= columns.end <= self.ncols(),
            columns.start <= columns.end,
            rhs.len() == columns.end - columns.start,
            all_canonical(rhs@, self.modulus()),
        ensures
            res.len() == rows.end - rows.start,
            forall|k: int|
                0 <= k < res.len() ==> #[trigger] res[k] == sum(
                    (columns.end - columns.start) as nat,
                    |j: int| self.entry(rows.start + k, columns.start + j) * rhs@[j],
                ) % (self.modulus() as int),
    {
        let ghost q = self.modulus() as int;
        let clen = columns.end - columns.start;
        let mut res: Vec<u64> = Vec::new();
        let mut i = rows.start;
        while i < rows.end
            invariant
                self.wf(),
                q == self.modulus(),
                rows.start <= i <= rows.end <= self.nrows(),
                columns.start <= columns.end <= self.ncols(),
                clen == columns.end - columns.start,
                rhs.len() == clen,
                all_canonical(rhs@, self.modulus()),
                res.len() == i - rows.start,
                forall|k: int|
                    0 <= k < res.len() ==> #[trigger] res[k] == sum(
                        clen as nat,
                        |j: int| self.entry(rows.start + k, columns.start + j) * rhs@[j],
                    ) % q,
            decreases rows.end - i,
        {
            let ghost f = |j: int| self.entry(i as int, columns.start + j) * rhs@[j];
            let mut acc: u64 = 0;
            let mut t: usize = 0;
            proof {
                lemma_small_mod(0, q as nat);
            }
            while t < clen
                invariant
                    self.wf(),
                    q == self.modulus(),
                    i < self.nrows(),
                    columns.start <= columns.end <= self.ncols(),
                    clen == columns.end - columns.start,
                    rhs.len() == clen,
                    all_canonical(rhs@, self.modulus()),
                    t <= clen,
                    f == (|j: int| self.entry(i as int, columns.start + j) * rhs@[j]),
                    acc < q,
                    acc == sum(t as nat, f) % q,
                decreases clen - t,
            {
                let e = self.get(i, columns.start + t);
                proof {
                    self.lemma_wf();
                }
                let p = self.field.mul(e, rhs[t]);
                proof {
                    lemma_dot_step(t as nat, q, f, acc as int, p as int, e * rhs@[t as int]);
                }
                acc = self.field.add(acc, p);
                t = t + 1;
            }
            res.push(acc);
            proof {
                let k = i - rows.start;
                assert(res[k] == sum(
                    clen as nat,
                    |j: int| self.entry(rows.start + k, columns.start + j) * rhs@[j],
                ) % q);
            }
            i = i + 1;
        }
        res
    }
}

impl MatrixMul for DenseMatrixMul {
    closed spec fn wf(&self) -> bool {
        &&& is_prime(self.field.q())
        &&& self.rows * self.columns == self.data.len()
        &&& all_canonical(self.data@, self.field.q())
    }

    closed spec fn modulus(&self) -> nat {
        self.field.q()
    }

    closed spec fn nrows(&self) -> nat {
        self.rows as nat
    }

    closed spec fn ncols(&self) -> nat {
        self.columns as nat
    }

    closed spec fn description(&self) -> Seq<char> {
        self.desc@
    }

    closed spec fn entry(&self, i: int, j: int) -> u64 {
        self.data@[i * self.columns + j]
    }

    proof fn lemma_wf(&self) {
        self.field.lemma_q_fits();
        assert forall|i: int, j: int|
            0 <= i < self.nrows() && 0 <= j < self.ncols() implies #[trigger] self.entry(i, j)
            < self.modulus() by {
            lemma_index_bound(i, j, self.rows as int, self.columns as int);
        }
    }

    fn ring(&self) -> (f: &PrimeField) {
        &self.field
    }

    fn desc(&self) -> (d: &String) {
        &self.desc
    }

    fn rows(&self) -> (r: usize) {
        self.rows
    }

    fn columns(&self) -> (c: usize) {
        self.columns
    }

    fn get(&self, i: usize, j: usize) -> (e: u64) {
        proof {
            lemma_index_bound(i as int, j as int, self.rows as int, self.columns as int);
        }
        self.data[i * self.columns + j]
    }

    fn mul(&self, rhs: &[u64]) -> (res: Vec<u64>) {
        let ghost q = self.modulus() as int;
        let mut res: Vec<u64> = Vec::new();
        let mut i: usize = 0;
        while i < self.rows
            invariant
                self.wf(),
                q == self.modulus(),
                i <= self.rows,
                rhs.len() == self.columns,
                all_canonical(rhs@, self.modulus()),
                res.len() == i,
                forall|k: int| 0 <= k < i ==> #[trigger] res[k] == sum(self.columns as nat, |j: int| self.entry(k, j) * rhs@[j]) % q,
            decreases self.rows - i,
        {
            let ghost f = |j: int| self.entry(i as int, j) * rhs@[j];
            let mut acc: u64 = 0;
            let mut t: usize = 0;
            proof {
                lemma_small_mod(0, q as nat);
            }
            while t < self.columns
                invariant
                    self.wf(),
                    q == self.modulus(),
                    i < self.rows,
                    rhs.len() == self.columns,
                    all_canonical(rhs@, self.modulus()),
                    t <= self.columns,
                    f == (|j: int| self.entry(i as int, j) * rhs@[j]),
                    acc < q,
                    acc == sum(t as nat, f) % q,
                decreases self.columns - t,
            {
                let e = self.get(i, t);
                proof {
                    self.lemma_wf();
                }
                let p = self.field.mul(e, rhs[t]);
                proof {
                    lemma_dot_step(t as nat, q, f, acc as int, p as int, e * rhs@[t as int]);
                }
                acc = self.field.add(acc, p);
                t = t + 1;
            }
            res.push(acc);
            i = i + 1;
        }
        res
    }

    fn clone_matrix(&self) -> (r: Self) {
        DenseMatrixMul {
            field: self.field,
            rows: self.rows,
            columns: self.columns,
            data: self.data.clone(),
            desc: self.desc.clone(),
        }
    }
}


/// A square diagonal matrix.
pub struct DiagMatrixMul {
    field: PrimeField,
    size: usize,
    data: Vec<u64>,
    desc: String,
}

impl DiagMatrixMul {
    /// The diagonal matrix with diagonal `data`.
    pub fn new(field: &PrimeField, size: usize, data: Vec<u64>, desc: &str) -> (m: DiagMatrixMul)
        requires
            data.len() == size,
            all_canonical(data@, field.q()),
        ensures
            m.wf(),
            m.modulus() == field.q(),
            m.nrows() == size,
            m.ncols() == size,
            m.description() == desc@,
            forall|i: int, j: int|
                0 <= i < size && 0 <= j < size ==> #[trigger] m.entry(i, j) == if i == j {
                    data@[i]
                } else {
                    0
                },
    {
        proof {
            use_type_invariant(field);
        }
        DiagMatrixMul { field: field.clone(), size, data, desc: desc.to_string() }
    }
}

impl MatrixMul for DiagMatrixMul {
    closed spec fn wf(&self) -> bool {
        &&& is_prime(self.field.q())
        &&& self.data.len() == self.size
        &&& all_canonical(self.data@, self.field.q())
    }

    closed spec fn modulus(&self) -> nat {
        self.field.q()
    }

    closed spec fn nrows(&self) -> nat {
        self.size as nat
    }

    closed spec fn ncols(&self) -> nat {
        self.size as nat
    }

    closed spec fn description(&self) -> Seq<char> {
        self.desc@
    }

    closed spec fn entry(&self, i: int, j: int) -> u64 {
        if i == j {
            self.data@[i]
        } else {
            0
        }
    }

    proof fn lemma_wf(&self) {
        self.field.lemma_q_fits();
    }

    fn ring(&self) -> (f: &PrimeField) {
        &self.field
    }

    fn desc(&self) -> (d: &String) {
        &self.desc
    }

    fn rows(&self) -> (r: usize) {
        self.size
    }

    fn columns(&self) -> (c: usize) {
        self.size
    }

    fn get(&self, i: usize, j: usize) -> (e: u64) {
        if i != j {
            0
        } else {
            self.data[i]
        }
    }

    fn mul(&self, rhs: &[u64]) -> (res: Vec<u64>) {
        let ghost q = self.modulus() as int;
        let mut res: Vec<u64> = Vec::new();
        let mut i: usize = 0;
        while i < self.size
            invariant
                self.wf(),
                q == self.modulus(),
                i <= self.size,
                rhs.len() == self.size,
                all_canonical(rhs@, self.modulus()),
                res.len() == i,
                forall|k: int|
                    0 <= k < i ==> #[trigger] res[k] == sum(
                        self.size as nat,
                        |j: int| self.entry(k, j) * rhs@[j],
                    ) % q,
            decreases self.size - i,
        {
            let p = self.field.mul(self.data[i], rhs[i]);
            proof {
                let f = |j: int| self.entry(i as int, j) * rhs@[j];
                assert forall|j: int| 0 <= j < self.size && j != i implies #[trigger] f(j) == 0 by {
                    lemma_mul_basics(rhs@[j] as int);
                }
                lemma_sum_single(self.size as nat, i as int, f);
            }
            res.push(p);
            i = i + 1;
        }
        res
    }

    fn clone_matrix(&self) -> (r: Self) {
        DiagMatrixMul {
            field: self.field,
            size: self.size,
            data: self.data.clone(),
            desc: self.desc.clone(),
        }
    }
}

/// The entry in column `j` of a sparse row: the value of the last pair with
/// column `j`, or zero.
pub open spec fn sparse_entry(row: Seq<(usize, u64)>, j: int) -> u64
    decreases row.len(),
{
    if row.len() == 0 {
        0
    } else if row.last().0 == j {
        row.last().1
    } else {
        sparse_entry(row.drop_last(), j)
    }
}

/// The columns of a sparse row are strictly increasing and below `columns`,
/// One step of selection sampling with `needed` of the `remaining` columns
/// still to take: whether the next column is taken, and the generator's state
/// after the decision. Every remaining column is taken when all are needed,
/// none when none is; otherwise a draw below `remaining` decides, with
/// probability `needed / remaining`.
pub open spec fn take_draw(s: SipRng, remaining: nat, needed: nat) -> (bool, SipRng) {
    if needed == remaining {
        (true, s)
    } else if needed == 0 {
        (false, s)
    } else {
        ((below_draw(s, remaining).0 as nat) < needed, below_draw(s, remaining).1)
    }
}

/// The entries of a random sparse row from column `j` on, with `needed`
/// entries still to place among `columns` columns, drawn from state `s`:
/// columns by selection sampling (see `take_draw`), each taken column with a
/// uniform value (see `element_draw`); and the state after them.
pub open spec fn sparse_row_draw(s: SipRng, q: nat, columns: nat, j: nat, needed: nat) -> (Seq<(usize, u64)>, SipRng)
    decreases columns - j,
{
    if j >= columns {
        (Seq::empty(), s)
    } else {
        let t = take_draw(s, (columns - j) as nat, needed);
        if t.0 && needed > 0 {
            let e = element_draw(t.1, q);
            let rest = sparse_row_draw(e.1, q, columns, j + 1, (needed - 1) as nat);
            (seq![(j as usize, e.0)] + rest.0, rest.1)
        } else {
            sparse_row_draw(t.1, q, columns, j + 1, needed)
        }
    }
}

/// The first `n` random sparse rows with `rowhw` entries each, drawn one after
/// the other from state `s`, and the state after them.
pub open spec fn sparse_rows_draw(s: SipRng, q: nat, columns: nat, rowhw: nat, n: nat) -> (Seq<Seq<(usize, u64)>>, SipRng)
    decreases n,
{
    if n == 0 {
        (Seq::empty(), s)
    } else {
        let p = sparse_rows_draw(s, q, columns, rowhw, (n - 1) as nat);
        let r = sparse_row_draw(p.1, q, columns, 0, rowhw);
        (p.0.push(r.0), r.1)
    }
}

/// and its values are canonical modulo `q`.
pub open spec fn sparse_row_wf(row: Seq<(usize, u64)>, columns: nat, q: nat) -> bool {
    &&& forall|k: int| 0 <= k < row.len() ==> (#[trigger] row[k]).0 < columns && row[k].1 < q
    &&& forall|k: int, l: int| 0 <= k < l < row.len() ==> (#[trigger] row[k]).0 < (#[trigger] row[l]).0
}

/// `sum_k row[k].1 * v[row[k].0]`.
pub open spec fn sparse_dot(row: Seq<(usize, u64)>, v: Seq<u64>) -> int
    decreases row.len(),
{
    if row.len() == 0 {
        0
    } else {
        sparse_dot(row.drop_last(), v) + row.last().1 * v[row.last().0 as int]
    }
}

/// A column below every column of the row has entry zero; the entry at a listed
/// column is its value.
pub proof fn lemma_sparse_entry(row: Seq<(usize, u64)>, columns: nat, q: nat, j: int)
    requires
        sparse_row_wf(row, columns, q),
    ensures
        (forall|k: int| 0 <= k < row.len() ==> row[k].0 != j) ==> sparse_entry(row, j) == 0,
        forall|k: int| 0 <= k < row.len() && #[trigger] row[k].0 == j ==> sparse_entry(row, j) == row[k].1,
    decreases row.len(),
{
    if row.len() > 0 {
        let t = row.drop_last();
        assert(sparse_row_wf(t, columns, q)) by {
            assert forall|k: int, l: int| 0 <= k < l < t.len() implies (#[trigger] t[k]).0 < (#[trigger] t[l]).0 by {
                assert(row[k] == t[k] && row[l] == t[l]);
            }
        }
        lemma_sparse_entry(t, columns, q, j);
        assert forall|k: int| 0 <= k < row.len() && #[trigger] row[k].0 == j implies sparse_entry(row, j) == row[k].1 by {
            if k < row.len() - 1 {
                assert(row[k].0 < row[row.len() - 1].0);
                assert(t[k] == row[k]);
            }
        }
    }
}

/// The dense dot product of a sparse row equals the sum over its listed entries.
pub proof fn lemma_sparse_dot(row: Seq<(usize, u64)>, columns: nat, q: nat, v: Seq<u64>)
    requires
        sparse_row_wf(row, columns, q),
    ensures
        sum(columns, |j: int| sparse_entry(row, j) * v[j]) == sparse_dot(row, v),
    decreases row.len(),
{
    let f = |j: int| sparse_entry(row, j) * v[j];
    if row.len() == 0 {
        assert forall|j: int| 0 <= j < columns implies #[trigger] f(j) == 0 by {
            lemma_mul_basics(v[j] as int);
        }
        lemma_sum_zero(columns, f);
    } else {
        let t = row.drop_last();
        let (c, x) = row.last();
        assert(sparse_row_wf(t, columns, q)) by {
            assert forall|k: int, l: int| 0 <= k < l < t.len() implies (#[trigger] t[k]).0 < (#[trigger] t[l]).0 by {
                assert(row[k] == t[k] && row[l] == t[l]);
            }
        }
        lemma_sparse_dot(t, columns, q, v);
        let g = |j: int| sparse_entry(t, j) * v[j];
        let h = |j: int| if j == c { x * v[j] } else { 0 };
        assert forall|j: int| 0 <= j < columns implies #[trigger] f(j) == g(j) + h(j) by {
            if j == c {
                lemma_sparse_entry(t, columns, q, j);
                assert forall|k: int| 0 <= k < t.len() implies t[k].0 != j by {
                    assert(row[k] == t[k]);
                    assert(row[k].0 < row[row.len() - 1].0);
                }
                lemma_mul_basics(v[j] as int);
            }
        }
        lemma_sum_ext(columns, f, |j: int| g(j) + h(j));
        lemma_sum_add(columns, g, h);
        assert(c < columns);
        lemma_sum_single(columns, c as int, h);
    }
}

/// The entries listed by sparse rows as `(row, column, value)`, row by row.
pub open spec fn flat_entries(rows: Seq<Seq<(usize, u64)>>) -> Seq<(usize, usize, u64)>
    decreases rows.len(),
{
    if rows.len() == 0 {
        Seq::empty()
    } else {
        let i = (rows.len() - 1) as usize;
        let row = rows.last();
        flat_entries(rows.drop_last()) + Seq::new(row.len(), |t: int| (i, row[t].0, row[t].1))
    }
}

/// A copy of a sparse row.
fn copy_sparse_row(row: &Vec<(usize, u64)>) -> (r: Vec<(usize, u64)>)
    ensures
        r@ == row@,
{
    let mut r: Vec<(usize, u64)> = Vec::new();
    let mut k: usize = 0;
    while k < row.len()
        invariant
            k <= row.len(),
            r@ == row@.subrange(0, k as int),
        decreases row.len() - k,
    {
        r.push(row[k]);
        k = k + 1;
    }
    assert(row@.subrange(0, row.len() as int) =~= row@);
    r
}

/// A sparse matrix: for every row, the list of its nonzero entries as
/// `(column, value)` pairs in increasing column order.
pub struct SparseMatrixMul {
    field: PrimeField,
    rows: usize,
    columns: usize,
    data: Vec<Vec<(usize, u64)>>,
    desc: String,
}

impl SparseMatrixMul {
    /// The rows of the matrix as lists of `(column, value)` pairs.
    pub closed spec fn rows_view(&self) -> Seq<Seq<(usize, u64)>> {
        self.data@.map_values(|r: Vec<(usize, u64)>| r@)
    }

    /// The sparse matrix with `columns` columns and the given rows.
    pub fn new(field: &PrimeField, columns: usize, data: Vec<Vec<(usize, u64)>>, desc: &str) -> (m: SparseMatrixMul)
        requires
            forall|i: int| 0 <= i < data.len() ==> sparse_row_wf(#[trigger] data@[i]@, columns as nat, field.q()),
        ensures
            m.wf(),
            m.modulus() == field.q(),
            m.nrows() == data.len(),
            m.ncols() == columns,
            m.description() == desc@,
            forall|i: int| 0 <= i < data.len() ==> #[trigger] m.rows_view()[i] == data@[i]@,
            forall|i: int, j: int|
                0 <= i < data.len() && 0 <= j < columns ==> #[trigger] m.entry(i, j) == sparse_entry(data@[i]@, j),
    {
        proof {
            use_type_invariant(field);
        }
        let rows = data.len();
        SparseMatrixMul { field: field.clone(), rows, columns, data, desc: desc.to_string() }
    }

    /// The entries of a well formed sparse matrix are those its rows list.
    pub proof fn lemma_rows(&self)
        requires
            self.wf(),
        ensures
            self.rows_view().len() == self.nrows(),
            forall|i: int| 0 <= i < self.nrows() ==> sparse_row_wf(#[trigger] self.rows_view()[i], self.ncols(), self.modulus()),
            forall|i: int, j: int| 0 <= i < self.nrows() ==> #[trigger] self.entry(i, j) == sparse_entry(self.rows_view()[i], j),
    {
    }

    /// The rows of the matrix as lists of `(column, value)` pairs.
    pub fn get_data(&self) -> (d: &Vec<Vec<(usize, u64)>>)
        ensures
            d@.map_values(|r: Vec<(usize, u64)>| r@) == self.rows_view(),
    {
        &self.data
    }

    /// The rows of the matrix as lists of `(column, value)` pairs, in order.
    pub fn iter_rows(&self) -> (d: &Vec<Vec<(usize, u64)>>)
        ensures
            d@.map_values(|r: Vec<(usize, u64)>| r@) == self.rows_view(),
    {
        &self.data
    }

    /// The listed entries as `(row, column, value)`, row by row.
    pub fn iter(&self) -> (r: Vec<(usize, usize, u64)>)
        ensures
            r@ == flat_entries(self.rows_view()),
    {
        let mut r: Vec<(usize, usize, u64)> = Vec::new();
        let mut i: usize = 0;
        while i < self.data.len()
            invariant
                i <= self.data.len(),
                r@ == flat_entries(self.rows_view().subrange(0, i as int)),
            decreases self.data.len() - i,
        {
            let ghost r0 = r@;
            let row = &self.data[i];
            let mut k: usize = 0;
            while k < row.len()
                invariant
                    k <= row.len(),
                    row@ == self.rows_view()[i as int],
                    r@ == r0 + Seq::new(k as nat, |t: int| (i, row@[t].0, row@[t].1)),
                decreases row.len() - k,
            {
                let (c, v) = row[k];
                r.push((i, c, v));
                k = k + 1;
                proof {
                    assert(r@ =~= r0 + Seq::new(k as nat, |t: int| (i, row@[t].0, row@[t].1)));
                }
            }
            proof {
                let rs = self.rows_view().subrange(0, i + 1);
                assert(rs.drop_last() =~= self.rows_view().subrange(0, i as int));
                assert(rs.last() == row@);
            }
            i = i + 1;
        }
        proof {
            assert(self.rows_view().subrange(0, self.data.len() as int) =~= self.rows_view());
        }
        r
    }

    /// A random matrix in which every row has exactly `rowhw` nonzero-position entries,
    /// in columns chosen uniformly at random, with uniformly random values: row
    /// after row, as `sparse_rows_draw` gives them from the generator's state.
    pub fn random(field: &PrimeField, rng: &mut SipRng, rows: usize, columns: usize, rowhw: usize, desc: &str) -> (m: SparseMatrixMul)
        requires
            rowhw <= columns,
        ensures
            m.wf(),
            m.modulus() == field.q(),
            m.nrows() == rows,
            m.ncols() == columns,
            m.description() == desc@,
            forall|i: int| 0 <= i < rows ==> (#[trigger] m.rows_view()[i]).len() == rowhw,
            forall|i: int|
                0 <= i < rows ==> #[trigger] m.rows_view()[i] == sparse_rows_draw(
                    *old(rng),
                    field.q(),
                    columns as nat,
                    rowhw as nat,
                    rows as nat,
                ).0[i],
            *final(rng) == sparse_rows_draw(*old(rng), field.q(), columns as nat, rowhw as nat, rows as nat).1,
    {
        let ghost q = field.q();
        let ghost s0 = *rng;
        let mut data: Vec<Vec<(usize, u64)>> = Vec::new();
        let mut i: usize = 0;
        while i < rows
            invariant
                i <= rows,
                rowhw <= columns,
                q == field.q(),
                data.len() == i,
                forall|k: int| 0 <= k < i ==> sparse_row_wf(#[trigger] data@[k]@, columns as nat, field.q()),
                forall|k: int| 0 <= k < i ==> (#[trigger] data@[k]@).len() == rowhw,
                sparse_rows_draw(s0, q, columns as nat, rowhw as nat, i as nat).0.len() == i,
                forall|k: int|
                    0 <= k < i ==> #[trigger] data@[k]@ == sparse_rows_draw(s0, q, columns as nat, rowhw as nat, i as nat).0[k],
                *rng == sparse_rows_draw(s0, q, columns as nat, rowhw as nat, i as nat).1,
            decreases rows - i,
        {
            // selection sampling: column j is taken with probability needed / remaining
            let ghost srow = *rng;
            let mut row: Vec<(usize, u64)> = Vec::new();
            let mut j: usize = 0;
            while j < columns
                invariant
                    j <= columns,
                    rowhw <= columns,
                    q == field.q(),
                    row.len() <= rowhw,
                    rowhw - row.len() <= columns - j,
                    sparse_row_wf(row@, columns as nat, field.q()),
                    forall|k: int| 0 <= k < row.len() ==> (#[trigger] row@[k]).0 < j,
                    row@ + sparse_row_draw(*rng, q, columns as nat, j as nat, (rowhw - row.len()) as nat).0
                        == sparse_row_draw(srow, q, columns as nat, 0, rowhw as nat).0,
                    sparse_row_draw(*rng, q, columns as nat, j as nat, (rowhw - row.len()) as nat).1
                        == sparse_row_draw(srow, q, columns as nat, 0, rowhw as nat).1,
                decreases columns - j,
            {
                let ghost sc = *rng;
                let ghost prefix = row@;
                let needed = rowhw - row.len();
                let remaining = columns - j;
                let take = if needed == remaining {
                    true
                } else if needed == 0 {
                    false
                } else {
                    let u = crate::rng::sip_random_below(rng, remaining as u64);
                    u < needed as u64
                };
                proof {
                    assert((take, *rng) == take_draw(sc, remaining as nat, needed as nat));
                }
                if take {
                    let x = field.random_element(rng);
                    let ghost prev = row@;
                    row.push((j, x));
                    proof {
                        assert(sparse_row_wf(row@, columns as nat, field.q())) by {
                            assert forall|k: int, l: int| 0 <= k < l < row.len() implies (#[trigger] row@[k]).0 < (#[trigger] row@[l]).0 by {
                                if l == row.len() - 1 {
                                    assert(row@[k] == prev[k]);
                                }
                            }
                        }
                        let rest = sparse_row_draw(*rng, q, columns as nat, (j + 1) as nat, (needed - 1) as nat);
                        assert(sparse_row_draw(sc, q, columns as nat, j as nat, needed as nat).0 == seq![(j, x)] + rest.0);
                        assert(row@ + rest.0 =~= prefix + (seq![(j, x)] + rest.0));
                    }
                } else {
                    proof {
                        assert(sparse_row_draw(sc, q, columns as nat, j as nat, needed as nat) == sparse_row_draw(
                            *rng,
                            q,
                            columns as nat,
                            (j + 1) as nat,
                            needed as nat,
                        ));
                    }
                }
                j = j + 1;
            }
            proof {
                assert(sparse_row_draw(*rng, q, columns as nat, j as nat, (rowhw - row.len()) as nat).0 =~= Seq::<(usize, u64)>::empty());
                assert(row@ + Seq::<(usize, u64)>::empty() =~= row@);
            }
            let ghost data0 = data@;
            data.push(row);
            i = i + 1;
            proof {
                assert forall|k: int|
                    0 <= k < i implies #[trigger] data@[k]@ == sparse_rows_draw(s0, q, columns as nat, rowhw as nat, i as nat).0[k] by {
                    if k < i - 1 {
                        assert(data@[k] == data0[k]);
                    }
                }
            }
        }
        SparseMatrixMul::new(field, columns, data, desc)
    }

    /// The sparse form of any matrix, listing every entry.
    pub fn from<M: MatrixMul>(mm: &M) -> (m: SparseMatrixMul)
        requires
            mm.wf(),
        ensures
            m.wf(),
            m.modulus() == mm.modulus(),
            m.nrows() == mm.nrows(),
            m.ncols() == mm.ncols(),
            m.description() == mm.description(),
            forall|i: int, j: int|
                0 <= i < mm.nrows() && 0 <= j < mm.ncols() ==> #[trigger] m.entry(i, j) == mm.entry(i, j),
            forall|i: int|
                0 <= i < mm.nrows() ==> #[trigger] m.rows_view()[i] == Seq::new(mm.ncols(), |j: int| (j as usize, mm.entry(i, j))),
    {
        let field = mm.ring();
        let rows = mm.rows();
        let columns = mm.columns();
        proof {
            mm.lemma_wf();
        }
        let mut data: Vec<Vec<(usize, u64)>> = Vec::new();
        let mut i: usize = 0;
        while i < rows
            invariant
                mm.wf(),
                field.q() == mm.modulus(),
                rows == mm.nrows(),
                columns == mm.ncols(),
                i <= rows,
                data.len() == i,
                forall|i: int, j: int|
                    0 <= i < mm.nrows() && 0 <= j < mm.ncols() ==> #[trigger] mm.entry(i, j) < mm.modulus(),
                forall|k: int| 0 <= k < i ==> sparse_row_wf(#[trigger] data@[k]@, columns as nat, field.q()),
                forall|k: int, j: int|
                    0 <= k < i && 0 <= j < columns ==> #[trigger] sparse_entry(data@[k]@, j) == mm.entry(k, j),
                forall|k: int|
                    0 <= k < i ==> #[trigger] data@[k]@ == Seq::new(mm.ncols(), |j: int| (j as usize, mm.entry(k, j))),
            decreases rows - i,
        {
            let mut row: Vec<(usize, u64)> = Vec::new();
            let mut j: usize = 0;
            while j < columns
                invariant
                    mm.wf(),
                    field.q() == mm.modulus(),
                    i < rows == mm.nrows(),
                    columns == mm.ncols(),
                    j <= columns,
                    row.len() == j,
                    forall|i: int, j: int|
                        0 <= i < mm.nrows() && 0 <= j < mm.ncols() ==> #[trigger] mm.entry(i, j) < mm.modulus(),
                    forall|k: int| 0 <= k < j ==> #[trigger] row@[k] == (k as usize, mm.entry(i as int, k)),
                decreases columns - j,
            {
                let x = mm.get(i, j);
                row.push((j, x));
                j = j + 1;
            }
            proof {
                assert(sparse_row_wf(row@, columns as nat, field.q()));
                assert forall|j: int| 0 <= j < columns implies #[trigger] sparse_entry(row@, j) == mm.entry(i as int, j) by {
                    lemma_sparse_entry(row@, columns as nat, field.q(), j);
                    assert(row@[j].0 == j);
                }
                assert(row@ =~= Seq::new(mm.ncols(), |j: int| (j as usize, mm.entry(i as int, j))));
            }
            data.push(row);
            i = i + 1;
        }
        SparseMatrixMul::new(field, columns, data, mm.desc().as_str())
    }
}

impl MatrixMul for SparseMatrixMul {
    closed spec fn wf(&self) -> bool {
        &&& is_prime(self.field.q())
        &&& self.data.len() == self.rows
        &&& forall|i: int| 0 <= i < self.rows ==> sparse_row_wf(#[trigger] self.data@[i]@, self.columns as nat, self.field.q())
    }

    closed spec fn modulus(&self) -> nat {
        self.field.q()
    }

    closed spec fn nrows(&self) -> nat {
        self.rows as nat
    }

    closed spec fn ncols(&self) -> nat {
        self.columns as nat
    }

    closed spec fn description(&self) -> Seq<char> {
        self.desc@
    }

    closed spec fn entry(&self, i: int, j: int) -> u64 {
        sparse_entry(self.data@[i]@, j)
    }

    proof fn lemma_wf(&self) {
        self.field.lemma_q_fits();
        assert forall|i: int, j: int|
            0 <= i < self.nrows() && 0 <= j < self.ncols() implies #[trigger] self.entry(i, j)
            < self.modulus() by {
            let row = self.data@[i]@;
            lemma_sparse_entry(row, self.columns as nat, self.field.q(), j);
            if exists|k: int| 0 <= k < row.len() && row[k].0 == j {
                let k = choose|k: int| 0 <= k < row.len() && row[k].0 == j;
                assert(row[k].0 == j);
            }
        }
    }

    fn ring(&self) -> (f: &PrimeField) {
        &self.field
    }

    fn desc(&self) -> (d: &String) {
        &self.desc
    }

    fn rows(&self) -> (r: usize) {
        self.rows
    }

    fn columns(&self) -> (c: usize) {
        self.columns
    }

    fn get(&self, i: usize, j: usize) -> (e: u64) {
        let row = &self.data[i];
        let mut k: usize = 0;
        proof {
            lemma_sparse_entry(row@, self.columns as nat, self.field.q(), j as int);
        }
        while k < row.len()
            invariant
                self.wf(),
                i < self.rows,
                row@ == self.data@[i as int]@,
                k <= row.len(),
                forall|l: int| 0 <= l < k ==> (#[trigger] row@[l]).0 != j,
            decreases row.len() - k,
        {
            if row[k].0 == j {
                proof {
                    lemma_sparse_entry(row@, self.columns as nat, self.field.q(), j as int);
                }
                return row[k].1;
            }
            k = k + 1;
        }
        proof {
            lemma_sparse_entry(row@, self.columns as nat, self.field.q(), j as int);
        }
        0
    }

    fn mul(&self, rhs: &[u64]) -> (res: Vec<u64>) {
        let ghost q = self.modulus() as int;
        let mut res: Vec<u64> = Vec::new();
        let mut i: usize = 0;
        while i < self.rows
            invariant
                self.wf(),
                q == self.modulus(),
                i <= self.rows,
                rhs.len() == self.columns,
                all_canonical(rhs@, self.modulus()),
                res.len() == i,
                forall|k: int|
                    0 <= k < i ==> #[trigger] res[k] == sum(
                        self.columns as nat,
                        |j: int| self.entry(k, j) * rhs@[j],
                    ) % q,
            decreases self.rows - i,
        {
            let row = &self.data[i];
            let mut acc: u64 = 0;
            let mut t: usize = 0;
            proof {
                lemma_small_mod(0, q as nat);
            }
            while t < row.len()
                invariant
                    self.wf(),
                    q == self.modulus(),
                    i < self.rows,
                    row@ == self.data@[i as int]@,
                    rhs.len() == self.columns,
                    all_canonical(rhs@, self.modulus()),
                    t <= row.len(),
                    acc < q,
                    acc == sparse_dot(row@.subrange(0, t as int), rhs@) % q,
                decreases row.len() - t,
            {
                let (j, x) = row[t];
                let p = self.field.mul(x, rhs[j]);
                proof {
                    let s = row@.subrange(0, t as int + 1);
                    assert(s.drop_last() =~= row@.subrange(0, t as int));
                    lemma_add_mod_noop(sparse_dot(row@.subrange(0, t as int), rhs@), x * rhs@[j as int], q);
                    lemma_mod_twice(sparse_dot(row@.subrange(0, t as int), rhs@), q);
                    lemma_mod_twice(x * rhs@[j as int], q);
                    lemma_add_mod_noop(acc as int, p as int, q);
                }
                acc = self.field.add(acc, p);
                t = t + 1;
            }
            proof {
                assert(row@.subrange(0, row@.len() as int) =~= row@);
                lemma_sparse_dot(row@, self.columns as nat, self.field.q(), rhs@);
                lemma_sum_ext(
                    self.columns as nat,
                    |j: int| self.entry(i as int, j) * rhs@[j],
                    |j: int| sparse_entry(row@, j) * rhs@[j],
                );
            }
            res.push(acc);
            i = i + 1;
        }
        res
    }

    fn clone_matrix(&self) -> (r: Self) {
        let mut data: Vec<Vec<(usize, u64)>> = Vec::new();
        let mut i: usize = 0;
        while i < self.data.len()
            invariant
                i <= self.data.len(),
                data.len() == i,
                forall|k: int| 0 <= k < i ==> #[trigger] data@[k]@ == self.data@[k]@,
            decreases self.data.len() - i,
        {
            data.push(copy_sparse_row(&self.data[i]));
            i = i + 1;
        }
        proof {
            assert forall|k: int| 0 <= k < self.rows implies sparse_row_wf(#[trigger] data@[k]@, self.columns as nat, self.field.q()) by {
                assert(data@[k]@ == self.data@[k]@);
            }
            assert forall|k: int, j: int| 0 <= k < self.rows && 0 <= j < self.columns implies #[trigger] sparse_entry(data@[k]@, j) == sparse_entry(self.data@[k]@, j) by {
                assert(data@[k]@ == self.data@[k]@);
            }
        }
        SparseMatrixMul {
            field: self.field,
            rows: self.rows,
            columns: self.columns,
            data,
            desc: self.desc.clone(),
        }
    }
}


/// Row `I * br + i` of a Kronecker product `B (x) R` times `v`: the product can be
/// computed by first combining the blocks of `v` with row `I` of `R` and then
/// multiplying by row `i` of `B`.
pub proof fn lemma_kron_row(
    q: int,
    bc: nat,
    rc: nat,
    b: spec_fn(int) -> int,
    r: spec_fn(int) -> int,
    v: spec_fn(int) -> int,
)
    requires
        q > 0,
        bc > 0,
    ensures
        sum(rc * bc, |t: int| ((b(t % (bc as int)) * r(t / (bc as int))) % q) * v(t)) % q == sum(
            bc,
            |j: int| b(j) * (sum(rc, |k: int| v(k * bc + j) * r(k)) % q),
        ) % q,
{
    let c = bc as int;
    let f0 = |t: int| ((b(t % c) * r(t / c)) % q) * v(t);
    let f1 = |t: int| b(t % c) * r(t / c) * v(t);
    assert forall|t: int| 0 <= t < rc * bc implies #[trigger] (f0(t) % q) == f1(t) % q by {
        lemma_mul_mod_noop_left(b(t % c) * r(t / c), v(t), q);
    }
    lemma_sum_congruent(rc * bc, q, f0, f1);
    lemma_sum_blocks(rc, bc, f1);
    let g = |k: int, j: int| b(j) * (v(k * bc + j) * r(k));
    let ff = |k: int| sum(bc, |j: int| f1(k * bc + j));
    let gg = |k: int| sum(bc, |j: int| g(k, j));
    assert forall|k: int| 0 <= k < rc implies #[trigger] ff(k) == gg(k) by {
        assert forall|j: int| 0 <= j < bc implies #[trigger] f1(k * bc + j) == g(k, j) by {
            lemma_fundamental_div_mod_converse(k * c + j, c, k, j);
            lemma_mul_is_commutative(k, c);
            lemma_mul_is_associative(b(j), r(k), v(k * bc + j));
            lemma_mul_is_commutative(r(k), v(k * bc + j));
        }
        lemma_sum_ext(bc, |j: int| f1(k * bc + j), |j: int| g(k, j));
    }
    lemma_sum_ext(rc, ff, gg);
    lemma_sum_swap(rc, bc, g);
    let sw = |j: int| sum(rc, |k: int| g(k, j));
    let inner = |j: int| sum(rc, |k: int| v(k * bc + j) * r(k));
    let h1 = |j: int| b(j) * inner(j);
    let h2 = |j: int| b(j) * (inner(j) % q);
    assert forall|j: int| 0 <= j < bc implies #[trigger] sw(j) == h1(j) by {
        lemma_sum_scale(rc, b(j), |k: int| v(k * bc + j) * r(k));
        lemma_sum_ext(rc, |k: int| g(k, j), |k: int| b(j) * (|k: int| v(k * bc + j) * r(k))(k));
    }
    lemma_sum_ext(bc, sw, h1);
    assert forall|j: int| 0 <= j < bc implies #[trigger] (h1(j) % q) == h2(j) % q by {
        lemma_mul_mod_noop_right(b(j), inner(j), q);
    }
    lemma_sum_ext(bc, h2, |j: int| b(j) * (sum(rc, |k: int| v(k * bc + j) * r(k)) % q));
    lemma_sum_congruent(bc, q, h1, h2);
}

/// The decimal digits of `n`, most significant first, as `format!` writes an
/// unsigned integer.
pub open spec fn decimal(n: nat) -> Seq<char>
    decreases n,
{
    if n < 10 {
        seq![(n + 48) as char]
    } else {
        decimal(n / 10).push(((n % 10) + 48) as char)
    }
}

/// Calls `format!("onesrep_{}{}", rowrep, columnrep)`: the prefix followed by
/// the decimal digits of `rowrep` and those of `columnrep`.
#[verifier::external_body]
fn describe_ones(rowrep: usize, columnrep: usize) -> (r: String)
    ensures
        r@ == "onesrep_"@ + decimal(rowrep as nat) + decimal(columnrep as nat),
{
    format!("onesrep_{}{}", rowrep, columnrep)
}

/// Calls `format!("{}_{}_{}", base, kind, rep)`: the three strings joined by
/// underscores.
#[verifier::external_body]
fn describe_repeat(base: &str, kind: &str, rep: &str) -> (r: String)
    ensures
        r@ == base@ + "_"@ + kind@ + "_"@ + rep@,
{
    format!("{}_{}_{}", base, kind, rep)
}

/// Calls `format!("hadamard{}", k)`: the prefix followed by the decimal digits
/// of `k`.
#[verifier::external_body]
fn describe_hadamard(k: usize) -> (r: String)
    ensures
        r@ == "hadamard"@ + decimal(k as nat),
{
    format!("hadamard{}", k)
}

/// The matrix whose block `(I, J)` is `R[I][J]` times the base matrix `B`
/// (the Kronecker product `R (x) B`).
pub struct RepeatMatrixMul<MM: MatrixMul> {
    basemm: MM,
    repmm: DenseMatrixMul,
    rows: usize,
    columns: usize,
    data: Vec<u64>,
    desc: String,
}

/// The entry formula of the Kronecker product `rep (x) base`.
pub open spec fn kron_entry<MM: MatrixMul>(base: &MM, rep: &DenseMatrixMul, i: int, j: int) -> u64 {
    let br = base.nrows() as int;
    let bc = base.ncols() as int;
    ((base.entry(i % br, j % bc) * rep.entry(i / br, j / bc)) % (base.modulus() as int)) as u64
}

impl<MM: MatrixMul> RepeatMatrixMul<MM> {
    /// Entry `(i, j)` of `repmm (x) basemm`, computed from the two matrices.
    fn get_noref(basemm: &MM, repmm: &DenseMatrixMul, i: usize, j: usize) -> (e: u64)
        requires
            basemm.wf(),
            repmm.wf(),
            repmm.modulus() == basemm.modulus(),
            basemm.nrows() > 0,
            basemm.ncols() > 0,
            i < basemm.nrows() * repmm.nrows(),
            j < basemm.ncols() * repmm.ncols(),
        ensures
            e == kron_entry(basemm, repmm, i as int, j as int),
    {
        let field = basemm.ring();
        let br = basemm.rows();
        let bc = basemm.columns();
        proof {
            lemma_div_bound(i as int, br as int, repmm.nrows() as int);
            lemma_div_bound(j as int, bc as int, repmm.ncols() as int);
            basemm.lemma_wf();
            repmm.lemma_wf();
        }
        let x = basemm.get(i % br, j % bc);
        let y = repmm.get(i / br, j / bc);
        field.mul(x, y)
    }

    /// The base matrix.
    pub closed spec fn base(&self) -> &MM {
        &self.basemm
    }

    /// The matrix of block weights.
    pub closed spec fn weights(&self) -> &DenseMatrixMul {
        &self.repmm
    }

    /// The precomputed entries, row by row (empty when not precomputed).
    pub closed spec fn data_view(&self) -> Seq<u64> {
        self.data@
    }

    /// The base matrix repeated `rowrep` times vertically and `columnrep` times horizontally.
    pub fn new(basemm: &MM, rowrep: usize, columnrep: usize) -> (m: RepeatMatrixMul<MM>)
        requires
            basemm.wf(),
            rowrep > 0,
            columnrep > 0,
            basemm.nrows() > 0,
            basemm.ncols() > 0,
            basemm.nrows() * rowrep <= usize::MAX,
            basemm.ncols() * columnrep <= usize::MAX,
            rowrep * columnrep <= usize::MAX,
        ensures
            m.wf(),
            m.modulus() == basemm.modulus(),
            m.nrows() == basemm.nrows() * rowrep,
            m.ncols() == basemm.ncols() * columnrep,
            m.description() == basemm.description() + "_"@ + "repeatmm"@ + "_"@ + "onesrep_"@ + decimal(rowrep as nat)
                + decimal(columnrep as nat),
            forall|i: int, j: int|
                0 <= i < m.nrows() && 0 <= j < m.ncols() ==> #[trigger] m.entry(i, j) == basemm.entry(
                    i % (basemm.nrows() as int),
                    j % (basemm.ncols() as int),
                ),
    {
        let field = basemm.ring();
        let mut ones: Vec<u64> = Vec::new();
        let one = field.one();
        let n = rowrep * columnrep;
        while ones.len() < n
            invariant
                ones.len() <= n,
                one == 1,
                one < field.q(),
                forall|k: int| 0 <= k < ones.len() ==> #[trigger] ones@[k] == 1,
            decreases n - ones.len(),
        {
            ones.push(one);
        }
        proof {
            lemma_mod_multiples_basic(rowrep as int, columnrep as int);
            lemma_div_multiples_vanish(rowrep as int, columnrep as int);
            lemma_mul_is_commutative(rowrep as int, columnrep as int);
        }
        let ones_desc = describe_ones(rowrep, columnrep);
        let repmm = DenseMatrixMul::new(field, columnrep, ones, ones_desc.as_str());
        let desc = describe_repeat(basemm.desc().as_str(), "repeatmm", repmm.desc().as_str());
        let basecopy = basemm.clone_matrix();
        let rows = basemm.rows() * rowrep;
        let columns = basemm.columns() * columnrep;
        let m = RepeatMatrixMul { basemm: basecopy, repmm, rows, columns, data: Vec::new(), desc };
        proof {
            assert forall|a: int, b: int|
                0 <= a < m.repmm.nrows() && 0 <= b < m.repmm.ncols() implies #[trigger] m.repmm.entry(a, b) == 1 by {
                lemma_index_bound(a, b, rowrep as int, columnrep as int);
            }
            assert(m.wf());
            basemm.lemma_wf();
            let q = basemm.modulus() as int;
            assert forall|i: int, j: int|
                0 <= i < m.nrows() && 0 <= j < m.ncols() implies #[trigger] m.entry(i, j) == basemm.entry(
                    i % (basemm.nrows() as int),
                    j % (basemm.ncols() as int),
                ) by {
                let br = basemm.nrows() as int;
                let bc = basemm.ncols() as int;
                lemma_div_bound(i, br, rowrep as int);
                lemma_div_bound(j, bc, columnrep as int);
                lemma_index_bound(i / br, j / bc, rowrep as int, columnrep as int);
                let x = basemm.entry(i % br, j % bc);
                assert(x * 1 == x);
                lemma_small_mod(x as nat, q as nat);
            }
        }
        m
    }

    /// The base matrix weighted block by block by `repmm`, with all entries precomputed.
    pub fn new_extra(basemm: &MM, repmm: DenseMatrixMul) -> (m: RepeatMatrixMul<MM>)
        requires
            basemm.wf(),
            repmm.wf(),
            repmm.modulus() == basemm.modulus(),
            basemm.nrows() > 0,
            basemm.ncols() > 0,
            basemm.nrows() * repmm.nrows() <= usize::MAX,
            basemm.ncols() * repmm.ncols() <= usize::MAX,
            basemm.nrows() * repmm.nrows() * (basemm.ncols() * repmm.ncols()) <= usize::MAX,
        ensures
            m.wf(),
            m.modulus() == basemm.modulus(),
            m.nrows() == basemm.nrows() * repmm.nrows(),
            m.ncols() == basemm.ncols() * repmm.ncols(),
            m.description() == basemm.description() + "_"@ + "repeat"@ + "_"@ + repmm.description(),
            m.data_view().len() == m.nrows() * m.ncols(),
            forall|i: int, j: int|
                0 <= i < m.nrows() && 0 <= j < m.ncols() ==> #[trigger] m.entry(i, j) == kron_entry(basemm, &repmm, i, j),
            forall|i: int, j: int|
                0 <= i < m.nrows() && 0 <= j < m.ncols() ==> #[trigger] m.data_view()[i * m.ncols() + j] == m.entry(i, j),
    {
        let br = basemm.rows();
        let bc = basemm.columns();
        let rr = repmm.rows();
        let rc = repmm.columns();
        let field = basemm.ring();
        let nrows = br * rr;
        let ncols = bc * rc;
        proof {
            basemm.lemma_wf();
            repmm.lemma_wf();
        }
        let mut data: Vec<u64> = Vec::new();
        let mut i: usize = 0;
        while i < nrows
            invariant
                basemm.wf(),
                repmm.wf(),
                repmm.modulus() == basemm.modulus(),
                field.q() == basemm.modulus(),
                br == basemm.nrows() > 0,
                bc == basemm.ncols() > 0,
                rr == repmm.nrows(),
                rc == repmm.ncols(),
                nrows == br * rr,
                ncols == bc * rc,
                nrows * ncols <= usize::MAX,
                i <= nrows,
                data.len() == i * ncols,
                forall|a: int, b: int| 0 <= a < br && 0 <= b < bc ==> #[trigger] basemm.entry(a, b) < basemm.modulus(),
                forall|a: int, b: int| 0 <= a < rr && 0 <= b < rc ==> #[trigger] repmm.entry(a, b) < basemm.modulus(),
                forall|a: int, b: int|
                    0 <= a < i && 0 <= b < ncols ==> #[trigger] data@[a * ncols + b] == kron_entry(basemm, &repmm, a, b),
            decreases nrows - i,
        {
            let mut j: usize = 0;
            proof {
                lemma_mul_inequality((i + 1) as int, nrows as int, ncols as int);
                lemma_mul_is_distributive_add_other_way(ncols as int, i as int, 1);
            }
            while j < ncols
                invariant
                    basemm.wf(),
                    repmm.wf(),
                    repmm.modulus() == basemm.modulus(),
                    field.q() == basemm.modulus(),
                    br == basemm.nrows() > 0,
                    bc == basemm.ncols() > 0,
                    rr == repmm.nrows(),
                    rc == repmm.ncols(),
                    nrows == br * rr,
                    ncols == bc * rc,
                    i < nrows,
                    i * ncols + ncols <= usize::MAX,
                    j <= ncols,
                    data.len() == i * ncols + j,
                    forall|a: int, b: int| 0 <= a < br && 0 <= b < bc ==> #[trigger] basemm.entry(a, b) < basemm.modulus(),
                    forall|a: int, b: int| 0 <= a < rr && 0 <= b < rc ==> #[trigger] repmm.entry(a, b) < basemm.modulus(),
                    forall|a: int, b: int|
                        0 <= a < i && 0 <= b < ncols ==> #[trigger] data@[a * ncols + b] == kron_entry(basemm, &repmm, a, b),
                    forall|b: int| 0 <= b < j ==> #[trigger] data@[i * ncols + b] == kron_entry(basemm, &repmm, i as int, b),
                decreases ncols - j,
            {
                let e = Self::get_noref(basemm, &repmm, i, j);
                let ghost before = data@;
                data.push(e);
                proof {
                    assert forall|a: int, b: int|
                        0 <= a < i && 0 <= b < ncols implies #[trigger] data@[a * ncols + b] == kron_entry(basemm, &repmm, a, b) by {
                        lemma_index_bound(a, b, i as int, ncols as int);
                        assert(data@[a * ncols + b] == before[a * ncols + b]);
                    }
                    assert(data@[i * ncols + j] == kron_entry(basemm, &repmm, i as int, j as int));
                }
                j = j + 1;
            }
            proof {
                assert forall|a: int, b: int|
                    0 <= a < i + 1 && 0 <= b < ncols implies #[trigger] data@[a * ncols + b] == kron_entry(basemm, &repmm, a, b) by {
                    if a == i {
                        assert(data@[i * ncols + b] == kron_entry(basemm, &repmm, i as int, b));
                    }
                }
            }
            i = i + 1;
        }
        let desc = describe_repeat(basemm.desc().as_str(), "repeat", repmm.desc().as_str());
        let basecopy = basemm.clone_matrix();
        let m = RepeatMatrixMul { basemm: basecopy, repmm, rows: nrows, columns: ncols, data, desc };
        proof {
            assert forall|i: int, j: int|
                0 <= i < m.nrows() && 0 <= j < m.ncols() implies #[trigger] m.entry(i, j) == kron_entry(basemm, &m.repmm, i, j) by {
                lemma_div_bound(i, br as int, rr as int);
                lemma_div_bound(j, bc as int, rc as int);
            }
            assert forall|i: int, j: int|
                0 <= i < m.nrows() && 0 <= j < m.ncols() implies #[trigger] m.data@[i * m.ncols() + j] == m.entry(i, j) by {
                lemma_div_bound(i, br as int, rr as int);
                lemma_div_bound(j, bc as int, rc as int);
                assert(data@[i * ncols + j] == kron_entry(basemm, &m.repmm, i, j));
            }
            assert forall|i: int, j: int|
                0 <= i < m.rows && 0 <= j < m.columns implies #[trigger] m.data@[i * m.columns + j] == kron_entry(&m.basemm, &m.repmm, i, j) by {
                assert(m.data@[i * m.ncols() + j] == m.entry(i, j));
            }
            assert(m.basemm.wf());
            assert(m.repmm.wf());
            assert(m.repmm.modulus() == m.basemm.modulus());
            assert(m.rows == m.basemm.nrows() * m.repmm.nrows());
            assert(m.columns == m.basemm.ncols() * m.repmm.ncols());
            assert(m.data.len() == m.rows * m.columns);
        }
        m
    }
}

impl<MM: MatrixMul> MatrixMul for RepeatMatrixMul<MM> {
    closed spec fn wf(&self) -> bool {
        &&& self.basemm.wf()
        &&& self.repmm.wf()
        &&& self.repmm.modulus() == self.basemm.modulus()
        &&& self.basemm.nrows() > 0
        &&& self.basemm.ncols() > 0
        &&& self.rows == self.basemm.nrows() * self.repmm.nrows()
        &&& self.columns == self.basemm.ncols() * self.repmm.ncols()
        &&& if self.data.len() == 0 {
            self.rows * self.columns == 0 || forall|a: int, b: int|
                0 <= a < self.repmm.nrows() && 0 <= b < self.repmm.ncols() ==> #[trigger] self.repmm.entry(a, b) == 1
        } else {
            &&& self.data.len() == self.rows * self.columns
            &&& forall|i: int, j: int|
                0 <= i < self.rows && 0 <= j < self.columns ==> #[trigger] self.data@[i * self.columns + j] == kron_entry(&self.basemm, &self.repmm, i, j)
        }
    }

    closed spec fn modulus(&self) -> nat {
        self.basemm.modulus()
    }

    closed spec fn nrows(&self) -> nat {
        self.rows as nat
    }

    closed spec fn ncols(&self) -> nat {
        self.columns as nat
    }

    closed spec fn description(&self) -> Seq<char> {
        self.desc@
    }

    closed spec fn entry(&self, i: int, j: int) -> u64 {
        kron_entry(&self.basemm, &self.repmm, i, j)
    }

    proof fn lemma_wf(&self) {
        self.basemm.lemma_wf();
        let q = self.modulus() as int;
        assert forall|i: int, j: int|
            0 <= i < self.nrows() && 0 <= j < self.ncols() implies #[trigger] self.entry(i, j)
            < self.modulus() by {
            let br = self.basemm.nrows() as int;
            let bc = self.basemm.ncols() as int;
            lemma_mod_bound(self.basemm.entry(i % br, j % bc) * self.repmm.entry(i / br, j / bc), q);
        }
    }

    fn ring(&self) -> (f: &PrimeField) {
        self.basemm.ring()
    }

    fn desc(&self) -> (d: &String) {
        &self.desc
    }

    fn rows(&self) -> (r: usize) {
        self.rows
    }

    fn columns(&self) -> (c: usize) {
        self.columns
    }

    fn get(&self, i: usize, j: usize) -> (e: u64) {
        if self.data.len() > 0 {
            proof {
                lemma_index_bound(i as int, j as int, self.rows as int, self.columns as int);
            }
            self.data[i * self.columns + j]
        } else {
            let br = self.basemm.rows();
            let bc = self.basemm.columns();
            proof {
                lemma_mul_strictly_positive(self.rows as int, self.columns as int);
                self.basemm.lemma_wf();
                lemma_div_bound(i as int, br as int, self.repmm.nrows() as int);
                lemma_div_bound(j as int, bc as int, self.repmm.ncols() as int);
                let x = self.basemm.entry((i % br) as int, (j % bc) as int);
                assert(x * 1 == x);
                lemma_small_mod(x as nat, self.modulus());
            }
            self.basemm.get(i % br, j % bc)
        }
    }

    fn mul(&self, rhs: &[u64]) -> (res: Vec<u64>) {
        let ghost q = self.modulus() as int;
        let field = self.basemm.ring();
        let br = self.basemm.rows();
        let bc = self.basemm.columns();
        let rr = self.repmm.rows();
        let rc = self.repmm.columns();
        proof {
            self.basemm.lemma_wf();
            self.repmm.lemma_wf();
        }
        let mut res: Vec<u64> = Vec::new();
        let mut bi: usize = 0;
        while bi < rr
            invariant
                self.wf(),
                q == self.modulus(),
                q <= u64::MAX,
                field.q() == q,
                br == self.basemm.nrows(),
                bc == self.basemm.ncols(),
                rr == self.repmm.nrows(),
                rc == self.repmm.ncols(),
                rhs.len() == bc * rc,
                all_canonical(rhs@, self.modulus()),
                bi <= rr,
                res.len() == bi * br,
                forall|a: int, b: int| 0 <= a < rr && 0 <= b < rc ==> #[trigger] self.repmm.entry(a, b) < q,
                forall|k: int|
                    0 <= k < bi * br ==> #[trigger] res[k] == sum(
                        self.ncols(),
                        |j: int| self.entry(k, j) * rhs@[j],
                    ) % q,
            decreases rr - bi,
        {
            // combine the blocks of rhs with the weights of block row bi
            let mut tmp: Vec<u64> = Vec::new();
            while tmp.len() < bc
                invariant
                    tmp.len() <= bc,
                    forall|k: int| 0 <= k < tmp.len() ==> #[trigger] tmp@[k] == 0,
                decreases bc - tmp.len(),
            {
                tmp.push(0);
            }
            let ghost rowr = |k: int| self.repmm.entry(bi as int, k) as int;
            let ghost vr = |t: int| rhs@[t] as int;
            proof {
                lemma_small_mod(0, q as nat);
            }
            let mut bj: usize = 0;
            while bj < rc
                invariant
                    self.wf(),
                    q == self.modulus(),
                    field.q() == q,
                    br == self.basemm.nrows(),
                    bc == self.basemm.ncols(),
                    rr == self.repmm.nrows(),
                    rc == self.repmm.ncols(),
                    bi < rr,
                    rowr == (|k: int| self.repmm.entry(bi as int, k) as int),
                    vr == (|t: int| rhs@[t] as int),
                    rhs.len() == bc * rc,
                    all_canonical(rhs@, self.modulus()),
                    forall|a: int, b: int| 0 <= a < rr && 0 <= b < rc ==> #[trigger] self.repmm.entry(a, b) < q,
                    bj <= rc,
                    tmp.len() == bc,
                    forall|j: int|
                        0 <= j < bc ==> #[trigger] tmp@[j] == sum(bj as nat, |k: int| vr(k * bc + j) * rowr(k)) % q,
                decreases rc - bj,
            {
                let w = self.repmm.get(bi, bj);
                let mut j: usize = 0;
                while j < bc
                    invariant
                        self.wf(),
                        q == self.modulus(),
                        field.q() == q,
                        bc == self.basemm.ncols(),
                        rc == self.repmm.ncols(),
                        bj < rc,
                        rowr == (|k: int| self.repmm.entry(bi as int, k) as int),
                        vr == (|t: int| rhs@[t] as int),
                        w == self.repmm.entry(bi as int, bj as int),
                        w < q,
                        rhs.len() == bc * rc,
                        all_canonical(rhs@, self.modulus()),
                        j <= bc,
                        tmp.len() == bc,
                        forall|k: int|
                            0 <= k < j ==> #[trigger] tmp@[k] == sum((bj + 1) as nat, |l: int| vr(l * bc + k) * rowr(l)) % q,
                        forall|k: int|
                            j <= k < bc ==> #[trigger] tmp@[k] == sum(bj as nat, |l: int| vr(l * bc + k) * rowr(l)) % q,
                    decreases bc - j,
                {
                    proof {
                        lemma_index_bound(bj as int, j as int, rc as int, bc as int);
                        lemma_mul_is_commutative(rc as int, bc as int);
                    }
                    let idx = bj * bc + j;
                    let p = field.mul(rhs[idx], w);
                    proof {
                        lemma_dot_step(bj as nat, q, |l: int| vr(l * bc + j) * rowr(l), tmp@[j as int] as int, p as int, rhs@[idx as int] * w);
                    }
                    let nv = field.add(tmp[j], p);
                    tmp.set(j, nv);
                    j = j + 1;
                }
                bj = bj + 1;
            }
            let block = self.basemm.mul(&tmp);
            proof {
                assert forall|i: int| 0 <= i < br implies #[trigger] block[i] == sum(
                    self.ncols(),
                    |j: int| self.entry(bi * br + i, j) * rhs@[j],
                ) % q by {
                    let r0 = bi * br + i;
                    lemma_fundamental_div_mod_converse(r0, br as int, bi as int, i);
                    let b = |j: int| self.basemm.entry(i, j) as int;
                    lemma_kron_row(q, bc as nat, rc as nat, b, rowr, vr);
                    lemma_sum_ext(
                        bc as nat,
                        |j: int| self.basemm.entry(i, j) * tmp@[j],
                        |j: int| b(j) * (sum(rc as nat, |k: int| vr(k * bc + j) * rowr(k)) % q),
                    );
                    lemma_mul_is_commutative(rc as int, bc as int);
                    let e1 = |j: int| self.entry(r0, j) * rhs@[j];
                    let e2 = |t: int| ((b(t % (bc as int)) * rowr(t / (bc as int))) % q) * vr(t);
                    assert forall|t: int| 0 <= t < self.ncols() implies #[trigger] e1(t) == e2(t) by {
                        lemma_div_bound(t, bc as int, rc as int);
                        lemma_mod_bound(b(t % (bc as int)) * rowr(t / (bc as int)), q);
                    }
                    lemma_sum_ext(self.ncols(), e1, e2);
                }
            }
            let mut k: usize = 0;
            let ghost before = res@;
            while k < br
                invariant
                    k <= br,
                    block.len() == br,
                    res.len() == bi * br + k,
                    forall|t: int| 0 <= t < bi * br ==> #[trigger] res@[t] == before[t],
                    before.len() == bi * br,
                    forall|t: int| 0 <= t < k ==> #[trigger] res@[bi * br + t] == block[t],
                decreases br - k,
            {
                res.push(block[k]);
                k = k + 1;
            }
            proof {
                lemma_mul_is_distributive_add_other_way(br as int, bi as int, 1);
                assert forall|t: int| 0 <= t < (bi + 1) * br implies #[trigger] res[t] == sum(
                    self.ncols(),
                    |j: int| self.entry(t, j) * rhs@[j],
                ) % q by {
                    if t >= bi * br {
                        assert(res@[bi * br + (t - bi * br)] == block[t - bi * br]);
                    }
                }
            }
            bi = bi + 1;
        }
        proof {
            lemma_mul_is_commutative(rr as int, br as int);
        }
        res
    }

    fn clone_matrix(&self) -> (r: Self) {
        let basemm = self.basemm.clone_matrix();
        let repmm = self.repmm.clone_matrix();
        let r = RepeatMatrixMul {
            basemm,
            repmm,
            rows: self.rows,
            columns: self.columns,
            data: crate::util::copy_slice(self.data.as_slice()),
            desc: self.desc.clone(),
        };
        proof {
            assert forall|i: int, j: int|
                0 <= i < self.nrows() && 0 <= j < self.ncols() implies #[trigger] r.entry(i, j) == self.entry(i, j) by {
                lemma_div_bound(i, self.basemm.nrows() as int, self.repmm.nrows() as int);
                lemma_div_bound(j, self.basemm.ncols() as int, self.repmm.ncols() as int);
            }
            if self.data.len() > 0 {
                assert forall|i: int, j: int|
                    0 <= i < r.rows && 0 <= j < r.columns implies #[trigger] r.data@[i * r.columns + j] == kron_entry(&r.basemm, &r.repmm, i, j) by {
                    assert(r.entry(i, j) == self.entry(i, j));
                    assert(self.data@[i * self.columns + j] == kron_entry(&self.basemm, &self.repmm, i, j));
                }
            }
        }
        r
    }
}


/// The sign in row `i` and column `j` of the Sylvester-Hadamard matrix of size `2^n`:
/// `H_n = [[H_{n-1}, H_{n-1}], [H_{n-1}, -H_{n-1}]]`.
pub open spec fn hadamard_sign(n: nat, i: int, j: int) -> int
    decreases n,
{
    if n == 0 {
        1
    } else {
        let h = pow2((n - 1) as nat) as int;
        hadamard_sign((n - 1) as nat, i % h, j % h) * if i / h == 1 && j / h == 1 {
            -1int
        } else {
            1int
        }
    }
}

/// The Sylvester-Hadamard matrix of size `2^logsize`, with entries `1` and `-1`.
pub struct HadamardMatrixMul {
    mm: RepeatMatrixMul<DenseMatrixMul>,
}

impl HadamardMatrixMul {
    /// The entries of the matrix, row by row.
    pub closed spec fn data_view(&self) -> Seq<u64> {
        self.mm.data@
    }

    /// The Hadamard matrix of size `2^logsize` over `field`.
    pub fn new(field: &PrimeField, logsize: usize) -> (m: HadamardMatrixMul)
        requires
            logsize > 0,
            pow2(logsize as nat) * pow2(logsize as nat) <= usize::MAX,
        ensures
            m.wf(),
            m.modulus() == field.q(),
            m.nrows() == pow2(logsize as nat),
            m.ncols() == pow2(logsize as nat),
            m.description() == (if logsize == 1 { "hadamard0"@ } else { "hadamard"@ + decimal((logsize - 1) as nat) }) + "_"@
                + "repeat"@ + "_"@ + "hadamard1"@,
            m.data_view().len() == m.nrows() * m.ncols(),
            forall|i: int, j: int|
                0 <= i < m.nrows() && 0 <= j < m.ncols() ==> #[trigger] m.entry(i, j) == hadamard_sign(logsize as nat, i, j) % (field.q() as int),
            forall|i: int, j: int|
                0 <= i < m.nrows() && 0 <= j < m.ncols() ==> #[trigger] m.data_view()[i * m.ncols() + j] == m.entry(i, j),
        decreases logsize,
    {
        proof {
            use_type_invariant(field);
            field.lemma_q_fits();
        }
        let ghost q = field.q() as int;
        let one = field.one();
        let mone = field.neg_one();
        let repmm = DenseMatrixMul::new(field, 2, vec![one, one, one, mone], "hadamard1");
        let ghost h = pow2((logsize - 1) as nat) as int;
        proof {
            lemma_pow2_pos((logsize - 1) as nat);
            lemma_pow2_unfold(logsize as nat);
            assert forall|a: int, b: int| 0 <= a < 2 && 0 <= b < 2 implies #[trigger] repmm.entry(a, b) == (if a == 1 && b == 1 { -1int } else { 1int }) % q by {
                lemma_small_mod(1, q as nat);
            }
        }
        let base = if logsize == 1 {
            let b = DenseMatrixMul::new(field, 1, vec![one], "hadamard0");
            proof {
                assert(b.entry(0, 0) == 1);
                lemma2_to64();
                lemma_small_mod(1, q as nat);
            }
            b
        } else {
            proof {
                lemma_pow2_pos((logsize - 1) as nat);
                lemma_mul_inequality(h, 2 * h, h);
                lemma_mul_is_commutative(h, 2 * h);
                lemma_mul_inequality(h, 2 * h, 2 * h);
            }
            let tmp = HadamardMatrixMul::new(field, logsize - 1);
            proof {
                lemma_mul_inequality(1, h, h);
                crate::util::lemma_usize_bits_pow2();
                if logsize - 1 >= usize::BITS {
                    if logsize - 1 > usize::BITS {
                        lemma_pow2_strictly_increases(usize::BITS as nat, (logsize - 1) as nat);
                    }
                }
                vstd::bits::lemma_usize_pow2_no_overflow((logsize - 1) as nat);
                assert(1 * pow2((logsize - 1) as nat) == pow2((logsize - 1) as nat));
                vstd::bits::lemma_usize_shl_is_mul(1, (logsize - 1) as usize);
                lemma_mod_multiples_basic(h, h);
                lemma_div_multiples_vanish(h, h);
                tmp.lemma_wf();
                assert forall|k: int| 0 <= k < tmp.mm.data@.len() implies #[trigger] tmp.mm.data@[k] < q by {
                    lemma_fundamental_div_mod(k, h);
                    lemma_div_bound(k, h, h);
                    lemma_mul_is_commutative(h, k / h);
                    assert(tmp.data_view()[(k / h) * tmp.ncols() + k % h] == tmp.entry(k / h, k % h));
                }
            }
            let bdesc = describe_hadamard(logsize - 1);
            let b = DenseMatrixMul::new(field, 1usize << (logsize - 1), tmp.mm.data, bdesc.as_str());
            proof {
                assert forall|i: int, j: int| 0 <= i < h && 0 <= j < h implies #[trigger] b.entry(i, j) == hadamard_sign((logsize - 1) as nat, i, j) % q by {
                    assert(tmp.data_view()[i * tmp.ncols() + j] == tmp.entry(i, j));
                }
            }
            b
        };
        proof {
            lemma_mul_is_commutative(h, 2);
            base.lemma_wf();
            lemma_mul_inequality(1, 2 * h, 2 * h);
        }
        let mm = RepeatMatrixMul::new_extra(&base, repmm);
        let m = HadamardMatrixMul { mm };
        proof {
            assert forall|i: int, j: int|
                0 <= i < m.nrows() && 0 <= j < m.ncols() implies #[trigger] m.entry(i, j) == hadamard_sign(logsize as nat, i, j) % q by {
                lemma_div_bound(i, h, 2);
                lemma_div_bound(j, h, 2);
                let x = hadamard_sign((logsize - 1) as nat, i % h, j % h);
                let y = if i / h == 1 && j / h == 1 { -1int } else { 1int };
                if logsize == 1 {
                    lemma2_to64();
                    assert(h == 1);
                    lemma_small_mod(0, 1);
                    assert(i % h == 0 && j % h == 0);
                }
                lemma_mul_mod_noop_general(x, y, q);
            }
        }
        m
    }
}

impl MatrixMul for HadamardMatrixMul {
    closed spec fn wf(&self) -> bool {
        self.mm.wf()
    }

    closed spec fn modulus(&self) -> nat {
        self.mm.modulus()
    }

    closed spec fn nrows(&self) -> nat {
        self.mm.nrows()
    }

    closed spec fn ncols(&self) -> nat {
        self.mm.ncols()
    }

    closed spec fn description(&self) -> Seq<char> {
        self.mm.description()
    }

    closed spec fn entry(&self, i: int, j: int) -> u64 {
        self.mm.entry(i, j)
    }

    proof fn lemma_wf(&self) {
        self.mm.lemma_wf();
    }

    fn ring(&self) -> (f: &PrimeField) {
        self.mm.ring()
    }

    fn desc(&self) -> (d: &String) {
        self.mm.desc()
    }

    fn rows(&self) -> (r: usize) {
        self.mm.rows()
    }

    fn columns(&self) -> (c: usize) {
        self.mm.columns()
    }

    fn get(&self, i: usize, j: usize) -> (e: u64) {
        self.mm.get(i, j)
    }

    fn mul(&self, rhs: &[u64]) -> (res: Vec<u64>) {
        let res = self.mm.mul(rhs);
        proof {
            assert forall|i: int| 0 <= i < self.nrows() implies #[trigger] res[i] == sum(
                self.ncols(),
                |j: int| self.entry(i, j) * rhs@[j],
            ) % (self.modulus() as int) by {
                lemma_sum_ext(self.ncols(), |j: int| self.entry(i, j) * rhs@[j], |j: int| self.mm.entry(i, j) * rhs@[j]);
            }
        }
        res
    }

    fn clone_matrix(&self) -> (r: Self) {
        HadamardMatrixMul { mm: self.mm.clone_matrix() }
    }
}


/// Matrix-vector multiplication is linear: `M (a + c b) = M a + c M b` in the field.
pub proof fn lemma_mul_linear<M: MatrixMul>(m: &M, i: int, a: Seq<u64>, b: Seq<u64>, c: int, v: Seq<u64>)
    requires
        m.wf(),
        a.len() == m.ncols(),
        b.len() == m.ncols(),
        v.len() == m.ncols(),
        forall|j: int| 0 <= j < m.ncols() ==> #[trigger] v[j] == (a[j] + c * b[j]) % (m.modulus() as int),
    ensures
        row_dot(m, i, v) % (m.modulus() as int) == (row_dot(m, i, a) + c * row_dot(m, i, b)) % (m.modulus() as int),
{
    m.lemma_wf();
    let q = m.modulus() as int;
    let n = m.ncols();
    let f = |j: int| m.entry(i, j) * v[j];
    let fa = |j: int| m.entry(i, j) * a[j];
    let fb = |j: int| m.entry(i, j) * b[j];
    let g = |j: int| fa(j) + c * fb(j);
    assert forall|j: int| 0 <= j < n implies #[trigger] (f(j) % q) == g(j) % q by {
        lemma_mul_mod_noop_right(m.entry(i, j) as int, a[j] + c * b[j], q);
        lemma_mul_is_distributive_add(m.entry(i, j) as int, a[j] as int, c * b[j]);
        lemma_mul_is_associative(m.entry(i, j) as int, c, b[j] as int);
        lemma_mul_is_commutative(m.entry(i, j) as int, c);
        lemma_mul_is_associative(c, m.entry(i, j) as int, b[j] as int);
    }
    lemma_sum_congruent(n, q, f, g);
    lemma_sum_add(n, fa, |j: int| c * fb(j));
    lemma_sum_ext(n, g, |j: int| fa(j) + (|j: int| c * fb(j))(j));
    lemma_sum_scale(n, c, fb);
}

/// Multiplying by a matrix column block by column block: the products of the
/// left `c1` columns with `r1` and of the remaining columns with `r2` add up to
/// the product with the concatenation of `r1` and `r2`.
pub proof fn lemma_mul_column_split<M: MatrixMul>(m: &M, i: int, c1: nat, r1: Seq<u64>, r2: Seq<u64>)
    requires
        c1 <= m.ncols(),
        r1.len() == c1,
        r2.len() == m.ncols() - c1,
    ensures
        sum(c1, |j: int| m.entry(i, j) * r1[j]) + sum((m.ncols() - c1) as nat, |j: int| m.entry(i, c1 + j) * r2[j])
            == row_dot(m, i, r1 + r2),
{
    let v = r1 + r2;
    let n2 = (m.ncols() - c1) as nat;
    let f = |j: int| m.entry(i, j) * v[j];
    lemma_sum_split(c1, n2, f);
    lemma_sum_ext(c1, f, |j: int| m.entry(i, j) * r1[j]);
    lemma_sum_ext(n2, |j: int| f(c1 + j), |j: int| m.entry(i, c1 + j) * r2[j]);
}

/// Two matrices with the same entries have the same products with every vector.
pub proof fn lemma_mul_same_entries<M: MatrixMul, N: MatrixMul>(a: &M, b: &N, i: int, v: Seq<u64>)
    requires
        same_matrix(a, b),
        0 <= i < a.nrows(),
    ensures
        row_dot(a, i, v) == row_dot(b, i, v),
{
    lemma_sum_ext(a.ncols(), |j: int| a.entry(i, j) * v[j], |j: int| b.entry(i, j) * v[j]);
}

} // verus!
