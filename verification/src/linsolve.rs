//! Solvability of linear systems over a prime field, by Gaussian elimination.
//!
//! A system with `k` unknowns is held as augmented rows `[a_0, .., a_{k-1}, b]`,
//! each standing for the equation `a_0 x_0 + .. + a_{k-1} x_{k-1} = b`.
use crate::field::{all_canonical, PrimeField};
use crate::sums::{lemma_sum_add, lemma_sum_congruent, lemma_sum_ext, lemma_sum_scale, lemma_sum_step, sum};
use vstd::arithmetic::div_mod::*;
use vstd::arithmetic::mul::*;
use vstd::prelude::*;

verus! {

/// `sum_{j < k} row[j] * x[j]`.
pub open spec fn row_lhs(row: Seq<u64>, x: Seq<int>, k: nat) -> int {
    sum(k, |j: int| row[j] * x[j])
}

/// The equation of `row` holds for `x` in `Z/qZ`.
pub open spec fn row_holds(row: Seq<u64>, x: Seq<int>, k: nat, q: int) -> bool {
    (row_lhs(row, x, k) - row[k as int]) % q == 0
}

/// Every equation of `rows` holds for `x`.
pub open spec fn system_holds(rows: Seq<Seq<u64>>, x: Seq<int>, k: nat, q: int) -> bool {
    forall|i: int| 0 <= i < rows.len() ==> #[trigger] row_holds(rows[i], x, k, q)
}

/// The system has a solution in `Z/qZ`.
pub open spec fn solvable(rows: Seq<Seq<u64>>, k: nat, q: int) -> bool {
    exists|x: Seq<int>| x.len() == k && #[trigger] system_holds(rows, x, k, q)
}

/// Two systems have the same solutions.
pub open spec fn equivalent(a: Seq<Seq<u64>>, b: Seq<Seq<u64>>, k: nat, q: int) -> bool {
    forall|x: Seq<int>| x.len() == k ==> (#[trigger] system_holds(a, x, k, q) <==> system_holds(b, x, k, q))
}

/// Every row has `k + 1` canonical entries.
pub open spec fn rows_wf(rows: Seq<Seq<u64>>, k: nat, q: nat) -> bool {
    forall|i: int| 0 <= i < rows.len() ==> (#[trigger] rows[i]).len() == k + 1 && all_canonical(rows[i], q)
}

/// `o - f * p` entrywise, reduced modulo `q`.
pub open spec fn row_sub(o: Seq<u64>, p: Seq<u64>, f: int, q: int) -> Seq<u64> {
    Seq::new(o.len(), |j: int| ((o[j] - f * p[j]) % q) as u64)
}

/// Subtracting `f` times an equation from another keeps the solutions: the new
/// equation holds exactly where the old one does, given the subtracted one.
proof fn lemma_row_sub(o: Seq<u64>, p: Seq<u64>, f: int, x: Seq<int>, k: nat, q: int)
    requires
        0 < q <= u64::MAX,
        o.len() == k + 1,
        p.len() == k + 1,
        row_holds(p, x, k, q),
    ensures
        row_holds(row_sub(o, p, f, q), x, k, q) <==> row_holds(o, x, k, q),
{
    let n = row_sub(o, p, f, q);
    let g1 = |j: int| n[j] * x[j];
    let ox = |j: int| o[j] * x[j];
    let px = |j: int| p[j] * x[j];
    let mpx = |j: int| (-f) * px(j);
    let g2 = |j: int| ox(j) + mpx(j);
    assert forall|j: int| 0 <= j < k implies #[trigger] (g1(j) % q) == g2(j) % q by {
        lemma_mod_bound(o[j] - f * p[j], q);
        assert(n[j] == (o[j] - f * p[j]) % q);
        lemma_mul_mod_noop_left(o[j] - f * p[j], x[j], q);
        assert((o[j] - f * p[j]) * x[j] == o[j] * x[j] + (-f) * (p[j] * x[j])) by (nonlinear_arith);
    }
    lemma_sum_congruent(k, q, g1, g2);
    lemma_sum_add(k, ox, mpx);
    lemma_sum_ext(k, g2, |j: int| ox(j) + mpx(j));
    lemma_sum_scale(k, -f, px);
    lemma_sum_ext(k, mpx, |j: int| (-f) * px(j));
    // lhs(n) == lhs(o) - f lhs(p) and n[k] == o[k] - f p[k] (mod q)
    let lo = row_lhs(o, x, k);
    let lp = row_lhs(p, x, k);
    let ln = row_lhs(n, x, k);
    lemma_sum_ext(k, g1, |j: int| n[j] * x[j]);
    lemma_sum_ext(k, ox, |j: int| o[j] * x[j]);
    lemma_sum_ext(k, px, |j: int| p[j] * x[j]);
    assert(ln % q == (lo + (-f) * lp) % q);
    lemma_mod_bound(o[k as int] - f * p[k as int], q);
    assert(n[k as int] == (o[k as int] - f * p[k as int]) % q);
    // (ln - n_k) == (lo - o_k) - f (lp - p_k)  (mod q)
    let d = (lo - o[k as int]) - f * (lp - p[k as int]);
    let ok = o[k as int] as int;
    let pk = p[k as int] as int;
    assert(lo + (-f) * lp - (ok - f * pk) == (lo - ok) - f * (lp - pk)) by (nonlinear_arith);
    lemma_sub_mod_noop(ln, n[k as int] as int, q);
    lemma_sub_mod_noop(lo + (-f) * lp, o[k as int] - f * p[k as int], q);
    lemma_mod_twice(o[k as int] - f * p[k as int], q);
    assert((ln - n[k as int]) % q == d % q);
    // (lp - p_k) == 0 (mod q), so d == lo - o_k (mod q)
    lemma_mul_mod_noop_right(f, lp - p[k as int], q);
    lemma_small_mod(0, q as nat);
    lemma_sub_mod_noop(lo - o[k as int], f * (lp - p[k as int]), q);
    lemma_mod_twice(lo - o[k as int], q);
}

/// The rows as sequences.
pub open spec fn views(m: Seq<Vec<u64>>) -> Seq<Seq<u64>> {
    Seq::new(m.len(), |i: int| m[i]@)
}

/// The first `c` entries of `row` are zero.
pub open spec fn zero_prefix(row: Seq<u64>, c: nat) -> bool {
    forall|j: int| 0 <= j < c ==> #[trigger] row[j] == 0
}

/// Row echelon form on the first `c` columns: the first `r` rows have their
/// first nonzero entry in the increasing columns `piv`; the other rows start
/// with `c` zeros.
pub open spec fn echelon(m: Seq<Seq<u64>>, piv: Seq<usize>, r: nat, c: nat) -> bool {
    &&& piv.len() == r
    &&& r <= m.len()
    &&& forall|t: int| 0 <= t < r ==> #[trigger] piv[t] < c
    &&& forall|t1: int, t2: int| 0 <= t1 < t2 < r ==> #[trigger] piv[t1] < #[trigger] piv[t2]
    &&& forall|t: int| 0 <= t < r ==> #[trigger] m[t][piv[t] as int] != 0 && zero_prefix(m[t], piv[t] as nat)
    &&& forall|i: int| r <= i < m.len() ==> zero_prefix(#[trigger] m[i], c)
}

/// The pivot of row `t` of an echelon form.
proof fn lemma_echelon_pivot(m: Seq<Seq<u64>>, piv: Seq<usize>, r: nat, c: nat, t: int)
    requires
        echelon(m, piv, r, c),
        0 <= t < r,
    ensures
        m[t][piv[t] as int] != 0,
        zero_prefix(m[t], piv[t] as nat),
        piv[t] < c,
{
}

/// An equation with all coefficients zero has left-hand side zero.
proof fn lemma_zero_lhs(row: Seq<u64>, x: Seq<int>, k: nat)
    requires
        zero_prefix(row, k),
    ensures
        row_lhs(row, x, k) == 0,
{
    assert forall|j: int| 0 <= j < k implies #[trigger] (row[j] * x[j]) == 0 by {
        assert(row[j] == 0);
    }
    crate::sums::lemma_sum_zero(k, |j: int| row[j] * x[j]);
}

/// Replacing row `i` by itself minus `f` times row `p` keeps the solutions.
proof fn lemma_system_row_sub(rows: Seq<Seq<u64>>, i: int, p: int, f: int, k: nat, q: int)
    requires
        0 < q <= u64::MAX,
        rows_wf(rows, k, q as nat),
        0 <= i < rows.len(),
        0 <= p < rows.len(),
        i != p,
    ensures
        equivalent(rows, rows.update(i, row_sub(rows[i], rows[p], f, q)), k, q),
        rows_wf(rows.update(i, row_sub(rows[i], rows[p], f, q)), k, q as nat),
{
    let new = rows.update(i, row_sub(rows[i], rows[p], f, q));
    assert forall|x: Seq<int>| x.len() == k implies (#[trigger] system_holds(rows, x, k, q) <==> system_holds(new, x, k, q)) by {
        if system_holds(rows, x, k, q) {
            assert(row_holds(rows[p], x, k, q));
            lemma_row_sub(rows[i], rows[p], f, x, k, q);
            assert forall|j: int| 0 <= j < new.len() implies #[trigger] row_holds(new[j], x, k, q) by {
                if j != i {
                    assert(row_holds(rows[j], x, k, q));
                }
            }
        }
        if system_holds(new, x, k, q) {
            assert(row_holds(new[p], x, k, q));
            lemma_row_sub(rows[i], rows[p], f, x, k, q);
            assert forall|j: int| 0 <= j < rows.len() implies #[trigger] row_holds(rows[j], x, k, q) by {
                assert(row_holds(new[j], x, k, q));
            }
        }
    }
    assert forall|j: int| 0 <= j < new.len() implies (#[trigger] new[j]).len() == k + 1 && all_canonical(new[j], q as nat) by {
        if j == i {
            assert forall|t: int| 0 <= t < new[j].len() implies #[trigger] new[j][t] < q by {
                lemma_mod_bound(rows[i][t] - f * rows[p][t], q);
            }
        }
    }
}

/// Exchanging two rows keeps the solutions.
proof fn lemma_system_swap(rows: Seq<Seq<u64>>, i: int, j: int, k: nat, q: int)
    requires
        0 <= i < rows.len(),
        0 <= j < rows.len(),
    ensures
        equivalent(rows, rows.update(i, rows[j]).update(j, rows[i]), k, q),
{
    let new = rows.update(i, rows[j]).update(j, rows[i]);
    assert forall|x: Seq<int>| x.len() == k implies (#[trigger] system_holds(rows, x, k, q) <==> system_holds(new, x, k, q)) by {
        if system_holds(rows, x, k, q) {
            assert forall|t: int| 0 <= t < new.len() implies #[trigger] row_holds(new[t], x, k, q) by {
                if t == j {
                    assert(row_holds(rows[i], x, k, q));
                } else if t == i {
                    assert(row_holds(rows[j], x, k, q));
                } else {
                    assert(row_holds(rows[t], x, k, q));
                }
            }
        }
        if system_holds(new, x, k, q) {
            assert forall|t: int| 0 <= t < rows.len() implies #[trigger] row_holds(rows[t], x, k, q) by {
                if t == i {
                    assert(row_holds(new[j], x, k, q));
                } else if t == j {
                    if i == j {
                        assert(row_holds(new[j], x, k, q));
                    } else {
                        assert(row_holds(new[i], x, k, q));
                    }
                } else {
                    assert(row_holds(new[t], x, k, q));
                }
            }
        }
    }
}

/// `o - f * p` entrywise in the field.
fn row_sub_exec(field: &PrimeField, o: &Vec<u64>, p: &Vec<u64>, f: u64) -> (r: Vec<u64>)
    requires
        o.len() == p.len(),
        all_canonical(o@, field.q()),
        all_canonical(p@, field.q()),
        f < field.q(),
    ensures
        r@ == row_sub(o@, p@, f as int, field.q() as int),
{
    let ghost q = field.q() as int;
    proof {
        field.lemma_q_fits();
        use_type_invariant(field);
    }
    let mut r: Vec<u64> = Vec::new();
    let mut j: usize = 0;
    while j < o.len()
        invariant
            q == field.q(),
            q > 1,
            q <= u64::MAX,
            o.len() == p.len(),
            all_canonical(o@, q as nat),
            all_canonical(p@, q as nat),
            f < q,
            j <= o.len(),
            r.len() == j,
            forall|t: int| 0 <= t < j ==> #[trigger] r@[t] == row_sub(o@, p@, f as int, q)[t],
        decreases o.len() - j,
    {
        let fp = field.mul(f, p[j]);
        let v = field.sub(o[j], fp);
        proof {
            lemma_sub_mod_noop(o@[j as int] as int, f * p@[j as int], q);
            lemma_mod_twice(f * p@[j as int], q);
            lemma_small_mod(o@[j as int] as nat, q as nat);
            lemma_mod_bound(o@[j as int] - f * p@[j as int], q);
        }
        r.push(v);
        j = j + 1;
    }
    proof {
        assert(r@ =~= row_sub(o@, p@, f as int, q));
    }
    r
}

/// Brings the system to row echelon form by row exchanges and by subtracting
/// multiples of a pivot row from the rows below it; returns the echelon form
/// and the pivot columns.
fn echelonize(field: &PrimeField, rows: Vec<Vec<u64>>, k: usize) -> (res: (Vec<Vec<u64>>, Vec<usize>))
    requires
        rows_wf(views(rows@), k as nat, field.q()),
    ensures
        res.0.len() == rows.len(),
        rows_wf(views(res.0@), k as nat, field.q()),
        equivalent(views(rows@), views(res.0@), k as nat, field.q() as int),
        echelon(views(res.0@), res.1@, res.1.len() as nat, k as nat),
{
    let ghost q = field.q() as int;
    let ghost orig = views(rows@);
    proof {
        field.lemma_q_fits();
        use_type_invariant(field);
    }
    let mut m = rows;
    let n = m.len();
    let mut piv: Vec<usize> = Vec::new();
    let mut r: usize = 0;
    let mut c: usize = 0;
    proof {
        assert(views(m@) == orig);
        assert forall|t: int| 0 <= t < n implies (#[trigger] m@[t]).len() == k + 1 by {
            assert(views(m@)[t] == m@[t]@);
        }
    }
    while c < k
        invariant
            q == field.q(),
            1 < q <= u64::MAX,
            m.len() == n,
            rows_wf(views(m@), k as nat, q as nat),
            forall|t: int| 0 <= t < n ==> (#[trigger] m@[t]).len() == k + 1,
            equivalent(orig, views(m@), k as nat, q),
            orig.len() == n,
            c <= k,
            r == piv.len(),
            echelon(views(m@), piv@, r as nat, c as nat),
        decreases k - c,
    {
        // look for a pivot in column c among the rows r..n
        let mut i: usize = r;
        while i < n && m[i][c] == 0
            invariant
                m.len() == n,
                r <= i <= n,
                c < k,
                rows_wf(views(m@), k as nat, q as nat),
                forall|t: int| 0 <= t < n ==> (#[trigger] m@[t]).len() == k + 1,
                forall|t: int| r <= t < i ==> #[trigger] views(m@)[t][c as int] == 0,
            decreases n - i,
        {
            proof {
                assert(views(m@)[i as int] == m@[i as int]@);
            }
            i = i + 1;
        }
        if i < n {
            // move the pivot row to position r
            let ghost before = views(m@);
            let row_i = m[i].clone();
            let row_r = m[r].clone();
            m.set(i, row_r);
            m.set(r, row_i);
            proof {
                lemma_system_swap(before, r as int, i as int, k as nat, q);
                assert(views(m@) =~= before.update(r as int, before[i as int]).update(i as int, before[r as int]));
                assert(views(m@) =~= before.update(i as int, before[r as int]).update(r as int, before[i as int]));
            }
            let p = m[r][c];
            proof {
                assert(views(m@)[r as int][c as int] == p);
                assert(p != 0);
                assert(p < q);
            }
            // clear column c below the pivot
            let mut i2: usize = r + 1;
            while i2 < n
                invariant
                    q == field.q(),
                    1 < q <= u64::MAX,
                    m.len() == n,
                    orig.len() == n,
                    r < n,
                    c < k,
                    r == piv.len(),
                    rows_wf(views(m@), k as nat, q as nat),
                    forall|t: int| 0 <= t < n ==> (#[trigger] m@[t]).len() == k + 1,
                    equivalent(orig, views(m@), k as nat, q),
                    0 < p < q,
                    views(m@)[r as int][c as int] == p,
                    zero_prefix(views(m@)[r as int], c as nat),
                    echelon(views(m@), piv@, r as nat, c as nat),
                    r + 1 <= i2 <= n,
                    forall|t: int| r < t < i2 ==> #[trigger] views(m@)[t][c as int] == 0,
                decreases n - i2,
            {
                let a = m[i2][c];
                proof {
                    assert(views(m@)[i2 as int][c as int] == a);
                }
                if a != 0 {
                    let f = field.div(a, p);
                    let ghost before = views(m@);
                    proof {
                        assert(before[i2 as int] == m@[i2 as int]@);
                        assert(before[r as int] == m@[r as int]@);
                    }
                    let newrow = row_sub_exec(field, &m[i2], &m[r], f);
                    m.set(i2, newrow);
                    proof {
                        lemma_system_row_sub(before, i2 as int, r as int, f as int, k as nat, q);
                        assert(views(m@) =~= before.update(i2 as int, row_sub(before[i2 as int], before[r as int], f as int, q)));
                        let nr = views(m@)[i2 as int];
                        // the new row keeps its zero prefix and loses its entry in column c
                        assert forall|j: int| 0 <= j < c implies #[trigger] nr[j] == 0 by {
                            assert(before[i2 as int][j] == 0);
                            assert(before[r as int][j] == 0);
                            lemma_small_mod(0, q as nat);
                        }
                        assert(nr[c as int] == 0) by {
                            lemma_mul_is_commutative(f as int, p as int);
                            assert(((a - f * p) % q) == 0) by {
                                lemma_sub_mod_noop(a as int, f * p, q);
                                lemma_small_mod(a as nat, q as nat);
                                lemma_small_mod(0, q as nat);
                            }
                        }
                        assert(echelon(views(m@), piv@, r as nat, c as nat));
                    }
                }
                i2 = i2 + 1;
            }
            let ghost old_piv = piv@;
            proof {
                assert(echelon(views(m@), old_piv, r as nat, c as nat));
            }
            piv.push(c);
            r = r + 1;
            proof {
                let mv = views(m@);
                assert(echelon(mv, old_piv, (r - 1) as nat, c as nat));
                assert(piv@ == old_piv.push(c));
                assert forall|t: int| 0 <= t < r implies #[trigger] mv[t][piv@[t] as int] != 0 && zero_prefix(mv[t], piv@[t] as nat) by {
                    if t < r - 1 {
                        assert(piv@[t] == old_piv[t]);
                        lemma_echelon_pivot(mv, old_piv, (r - 1) as nat, c as nat, t);
                    } else {
                        assert(t == r - 1);
                        assert(piv@[t] == c);
                        assert(mv[t][c as int] == p);
                        assert(zero_prefix(mv[t], c as nat));
                    }
                }
                assert forall|ii: int| r <= ii < mv.len() implies zero_prefix(#[trigger] mv[ii], c as nat + 1) by {
                    assert(zero_prefix(mv[ii], c as nat));
                    assert(mv[ii][c as int] == 0);
                }
                assert forall|t1: int, t2: int| 0 <= t1 < t2 < r implies #[trigger] piv@[t1] < #[trigger] piv@[t2] by {
                    if t2 < r - 1 {
                        assert(piv@[t1] == old_piv[t1] && piv@[t2] == old_piv[t2]);
                    } else {
                        assert(piv@[t1] == old_piv[t1]);
                    }
                }
                assert forall|t: int| 0 <= t < r implies #[trigger] piv@[t] < c + 1 by {
                    if t < r - 1 {
                        lemma_echelon_pivot(mv, old_piv, (r - 1) as nat, c as nat, t);
                    }
                }
                assert(piv@.len() == r);
                assert(r <= mv.len());
                assert(echelon(mv, piv@, r as nat, c as nat + 1));
            }
        } else {
            proof {
                let mv = views(m@);
                assert forall|ii: int| r <= ii < mv.len() implies zero_prefix(#[trigger] mv[ii], c as nat + 1) by {
                    assert(zero_prefix(mv[ii], c as nat));
                    assert(mv[ii][c as int] == 0);
                }
            }
        }
        c = c + 1;
    }
    (m, piv)
}

/// The field elements of `x` as integers.
pub open spec fn as_ints(x: Seq<u64>) -> Seq<int> {
    Seq::new(x.len(), |j: int| x[j] as int)
}

/// Setting `x[c]` where the row has coefficient zero keeps its left-hand side.
proof fn lemma_lhs_update_zero(row: Seq<u64>, x: Seq<int>, k: nat, c: int, v: int)
    requires
        x.len() == k,
        row.len() > k,
        0 <= c < x.len(),
        row[c] == 0,
    ensures
        row_lhs(row, x.update(c, v), k) == row_lhs(row, x, k),
{
    assert forall|j: int| 0 <= j < k implies #[trigger] (row[j] * x.update(c, v)[j]) == row[j] * x[j] by {
        if j == c {
            lemma_mul_basics(v);
            lemma_mul_basics(x[c]);
        }
    }
    lemma_sum_ext(k, |j: int| row[j] * x.update(c, v)[j], |j: int| row[j] * x[j]);
}

/// Splitting the left-hand side of a row with zero prefix up to `pc` into the
/// pivot term and the terms after it.
proof fn lemma_lhs_split(row: Seq<u64>, x: Seq<int>, k: nat, pc: int)
    requires
        0 <= pc < k,
        zero_prefix(row, pc as nat),
    ensures
        row_lhs(row, x, k) == row[pc] * x[pc] + sum(k, |j: int| if j > pc { row[j] * x[j] } else { 0 }),
{
    let g = |j: int| if j > pc { row[j] * x[j] } else { 0 };
    let h = |j: int| if j == pc { row[pc] * x[pc] } else { 0 };
    assert forall|j: int| 0 <= j < k implies #[trigger] (row[j] * x[j]) == h(j) + g(j) by {
        if j < pc {
            assert(row[j] == 0);
        }
    }
    lemma_sum_ext(k, |j: int| row[j] * x[j], |j: int| h(j) + g(j));
    lemma_sum_add(k, h, g);
    crate::sums::lemma_sum_single(k, pc, h);
}

/// Whether the system of `rows`, each holding `k` coefficients and a
/// right-hand side, has a solution in the field.
pub fn solvable_system(field: &PrimeField, rows: Vec<Vec<u64>>, k: usize) -> (r: bool)
    requires
        rows_wf(views(rows@), k as nat, field.q()),
    ensures
        r == solvable(views(rows@), k as nat, field.q() as int),
{
    let ghost q = field.q() as int;
    let ghost orig = views(rows@);
    proof {
        field.lemma_q_fits();
        use_type_invariant(field);
    }
    let (m, piv) = echelonize(field, rows, k);
    let ghost mv = views(m@);
    let n = m.len();
    let r = piv.len();
    proof {
        assert forall|t: int| 0 <= t < n implies (#[trigger] m@[t]).len() == k + 1 by {
            assert(mv[t] == m@[t]@);
        }
    }
    // an equation 0 = b with b nonzero has no solution
    let mut i: usize = r;
    while i < n
        invariant
            q == field.q(),
            1 < q <= u64::MAX,
            mv == views(m@),
            n == m.len(),
            r <= i <= n,
            forall|t: int| 0 <= t < n ==> (#[trigger] m@[t]).len() == k + 1,
            rows_wf(mv, k as nat, q as nat),
            echelon(mv, piv@, r as nat, k as nat),
            equivalent(orig, mv, k as nat, q),
            orig == views(rows@),
            forall|t: int| r <= t < i ==> #[trigger] mv[t][k as int] == 0,
        decreases n - i,
    {
        if m[i][k] != 0 {
            proof {
                assert(mv[i as int] == m@[i as int]@);
                assert(zero_prefix(mv[i as int], k as nat));
                assert forall|x: Seq<int>| x.len() == k implies !#[trigger] system_holds(orig, x, k as nat, q) by {
                    lemma_zero_lhs(mv[i as int], x, k as nat);
                    assert(0 < mv[i as int][k as int] < q);
                    lemma_small_mod(mv[i as int][k as int] as nat, q as nat);
                    lemma_fundamental_div_mod_converse(0 - mv[i as int][k as int], q, -1, q - mv[i as int][k as int]);
                    assert(!row_holds(mv[i as int], x, k as nat, q));
                }
                if solvable(orig, k as nat, q) {
                    let x = choose|x: Seq<int>| x.len() == k && #[trigger] system_holds(orig, x, k as nat, q);
                    assert(!system_holds(orig, x, k as nat, q));
                }
                assert(!solvable(orig, k as nat, q));
                assert(orig == views(rows@));
            }
            return false;
        }
        i = i + 1;
    }
    // back substitution, free unknowns set to zero
    let zero = field.zero();
    let mut x: Vec<u64> = vec![zero; k];
    let mut t: usize = r;
    proof {
        assert forall|tt: int| r <= tt < n implies #[trigger] row_holds(mv[tt], as_ints(x@), k as nat, q) by {
            lemma_zero_lhs(mv[tt], as_ints(x@), k as nat);
            lemma_small_mod(0, q as nat);
        }
    }
    while t > 0
        invariant
            q == field.q(),
            1 < q <= u64::MAX,
            mv == views(m@),
            n == m.len(),
            r <= n,
            t <= r,
            x.len() == k,
            all_canonical(x@, q as nat),
            forall|tt: int| 0 <= tt < n ==> (#[trigger] m@[tt]).len() == k + 1,
            rows_wf(mv, k as nat, q as nat),
            echelon(mv, piv@, r as nat, k as nat),
            forall|tt: int| t <= tt < n ==> #[trigger] row_holds(mv[tt], as_ints(x@), k as nat, q),
        decreases t,
    {
        t = t - 1;
        let pc = piv[t];
        proof {
            lemma_echelon_pivot(mv, piv@, r as nat, k as nat, t as int);
            assert(mv[t as int] == m@[t as int]@);
        }
        let row = &m[t];
        let ghost g = |j: int| if j > pc { row@[j] * as_ints(x@)[j] } else { 0 };
        let mut s = field.zero();
        let mut j: usize = pc + 1;
        proof {
            assert forall|jj: int| 0 <= jj < pc + 1 implies #[trigger] g(jj) == 0 by {}
            crate::sums::lemma_sum_zero((pc + 1) as nat, g);
            lemma_small_mod(0, q as nat);
        }
        while j < k
            invariant
                q == field.q(),
                1 < q <= u64::MAX,
                row@.len() == k + 1,
                all_canonical(row@, q as nat),
                x.len() == k,
                all_canonical(x@, q as nat),
                pc < k,
                pc + 1 <= j <= k,
                g == (|j: int| if j > pc { row@[j] * as_ints(x@)[j] } else { 0 }),
                s < q,
                s == sum(j as nat, g) % q,
            decreases k - j,
        {
            let v = field.mul(row[j], x[j]);
            proof {
                lemma_sum_step(j as nat, q, g, s as int, v as int);
            }
            s = field.add(s, v);
            j = j + 1;
        }
        let b = field.sub(row[k], s);
        let p = row[pc];
        let xv = field.div(b, p);
        let ghost xold = as_ints(x@);
        x.set(pc, xv);
        proof {
            let xn = as_ints(x@);
            assert(xn =~= xold.update(pc as int, xv as int));
            // rows below keep holding: their coefficient at pc is zero
            assert forall|tt: int| t < tt < n implies #[trigger] row_holds(mv[tt], xn, k as nat, q) by {
                assert(row_holds(mv[tt], xold, k as nat, q));
                if tt < r {
                    lemma_echelon_pivot(mv, piv@, r as nat, k as nat, tt);
                    assert(piv@[t as int] < piv@[tt]);
                    assert(mv[tt][pc as int] == 0);
                } else {
                    assert(zero_prefix(mv[tt], k as nat));
                    assert(mv[tt][pc as int] == 0);
                }
                lemma_lhs_update_zero(mv[tt], xold, k as nat, pc as int, xv as int);
            }
            // row t now holds: p * x[pc] + s == b + s == row[k]
            lemma_lhs_split(row@, xn, k as nat, pc as int);
            let gn = |j: int| if j > pc { row@[j] * xn[j] } else { 0 };
            lemma_sum_ext(k as nat, g, gn);
            let lhs = row_lhs(row@, xn, k as nat);
            assert(lhs == p * xv + sum(k as nat, g));
            lemma_mul_is_commutative(p as int, xv as int);
            let gs = sum(k as nat, g);
            let rk = row@[k as int] as int;
            assert((p * xv) % q == b);
            assert(gs % q == s);
            lemma_add_mod_noop(p * xv, gs, q);
            assert(lhs % q == (b + s) % q);
            assert(b == (rk - s) % q);
            lemma_add_mod_noop(rk - s, s as int, q);
            lemma_small_mod(s as nat, q as nat);
            lemma_mod_twice(rk - s, q);
            assert((b + s) % q == rk % q);
            lemma_sub_mod_noop(lhs, rk, q);
            lemma_small_mod(0, q as nat);
            assert((lhs - rk) % q == 0);
            assert(row_holds(mv[t as int], xn, k as nat, q));
        }
    }
    proof {
        let xi = as_ints(x@);
        assert(system_holds(mv, xi, k as nat, q));
        assert(system_holds(orig, xi, k as nat, q));
    }
    true
}

} // verus!
