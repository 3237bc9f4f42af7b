//! The univariate round polynomials of the sumcheck protocol, held by their
//! values at a few integer points and evaluated elsewhere by Lagrange
//! interpolation.
use crate::field::{all_canonical, fdiv, is_prime, lemma_fdiv_prime, PrimeField};
use crate::multilinear::lemma_prod_around;
use crate::sums::{lemma_prod_congruent, lemma_prod_step, lemma_sum_single, lemma_sum_step, prod, sum};
use vstd::arithmetic::div_mod::*;
use vstd::arithmetic::mul::*;
use vstd::prelude::*;

verus! {

/// The factor `j` of the numerator of the Lagrange basis polynomial of point
/// `i` at `a`: `a - p_j`, or one for `j == i`.
pub open spec fn lagrange_num_factor(points: Seq<i32>, a: int, i: int, q: int) -> spec_fn(int) -> int {
    |j: int|
        if j == i {
            1
        } else {
            a - (points[j] as int) % q
        }
}

/// The factor `j` of the denominator of the Lagrange basis polynomial of point
/// `i`: `p_i - p_j`, or one for `j == i`.
pub open spec fn lagrange_den_factor(points: Seq<i32>, i: int) -> spec_fn(int) -> int {
    |j: int|
        if j == i {
            1
        } else {
            points[i] - points[j]
        }
}

/// The value at `a` of the Lagrange basis polynomial of point `i` of `points`,
/// in `Z/qZ`: `prod_{j != i} (a - p_j) / prod_{j != i} (p_i - p_j)`.
pub open spec fn lagrange_at(points: Seq<i32>, a: int, i: int, q: int) -> int {
    fdiv(
        prod(points.len(), lagrange_num_factor(points, a, i, q)) % q,
        prod(points.len(), lagrange_den_factor(points, i)) % q,
        q,
    )
}

/// The value at `a` of the polynomial of degree below `points.len()` with the
/// values `evals` at `points`, in `Z/qZ`.
pub open spec fn interpolate_at(points: Seq<i32>, evals: Seq<u64>, a: int, q: int) -> int {
    sum(points.len(), |i: int| evals[i] * lagrange_at(points, a, i, q)) % q
}

/// The Lagrange basis at the points is computable: every difference of two
/// points and every running product of the differences fits in an `i32`, and
/// no denominator vanishes modulo `q`.
pub open spec fn lagrange_ok(points: Seq<i32>, q: int) -> bool {
    &&& forall|i: int, j: int|
        0 <= i < points.len() && 0 <= j < points.len() ==> i32::MIN <= #[trigger] (points[i] - points[j])
            <= i32::MAX
    &&& forall|i: int, m: nat|
        0 <= i < points.len() && m <= points.len() ==> i32::MIN <= #[trigger] prod(
            m,
            lagrange_den_factor(points, i),
        ) <= i32::MAX
    &&& forall|i: int|
        0 <= i < points.len() ==> #[trigger] prod(points.len(), lagrange_den_factor(points, i)) % q != 0
}

/// The Lagrange basis polynomial of point `i` is one at that point and zero
/// at the other points.
pub proof fn lemma_lagrange_at_point(points: Seq<i32>, i: int, j: int, q: int)
    requires
        q > 1,
        is_prime(q as nat),
        lagrange_ok(points, q),
        0 <= i < points.len(),
        0 <= j < points.len(),
    ensures
        lagrange_at(points, (points[j] as int) % q, i, q) == if i == j { 1int } else { 0int },
{
    let n = points.len();
    let a = (points[j] as int) % q;
    let num = lagrange_num_factor(points, a, i, q);
    let den = lagrange_den_factor(points, i);
    assert(prod(n, den) % q != 0);
    if i == j {
        // the numerator is the denominator modulo q
        assert forall|k: int| 0 <= k < n implies #[trigger] (num(k) % q) == den(k) % q by {
            if k != i {
                lemma_sub_mod_noop(points[i] as int, points[k] as int, q);
                lemma_mod_twice(points[i] as int, q);
                lemma_mod_twice(points[k] as int, q);
            }
        }
        lemma_prod_congruent(n, q, num, den);
        lemma_mod_twice(prod(n, den), q);
        lemma_mul_basics(prod(n, den) % q);
        lemma_small_mod(1, q as nat);
        lemma_mod_twice(prod(n, num), q);
        lemma_fdiv_prime(prod(n, num) % q, prod(n, den) % q, q, 1);
    } else {
        lemma_prod_around(n as nat, j as nat, num);
        assert(num(j) == 0);
        lemma_mul_basics(prod(j as nat, num));
        lemma_mul_basics(prod((n - j - 1) as nat, |t: int| num(j + 1 + t)));
        assert(prod(n, num) == 0);
        lemma_mod_twice(prod(n, den), q);
        lemma_mul_basics(prod(n, den) % q);
        lemma_small_mod(0, q as nat);
        lemma_fdiv_prime(0, prod(n, den) % q, q, 0);
    }
}

/// Interpolation through points whose Lagrange basis is computable gives back
/// the value at each point.
pub proof fn lemma_interpolate_at_point(points: Seq<i32>, evals: Seq<u64>, j: int, q: int)
    requires
        q > 1,
        is_prime(q as nat),
        lagrange_ok(points, q),
        0 <= j < points.len(),
        evals.len() == points.len(),
    ensures
        interpolate_at(points, evals, (points[j] as int) % q, q) == (evals[j] as int) % q,
{
    let n = points.len();
    let a = (points[j] as int) % q;
    let f = |i: int| evals[i] * lagrange_at(points, a, i, q);
    assert forall|i: int| 0 <= i < n && i != j implies #[trigger] f(i) == 0 by {
        lemma_lagrange_at_point(points, i, j, q);
        lemma_mul_basics(evals[i] as int);
    }
    lemma_lagrange_at_point(points, j, j, q);
    lemma_mul_basics(evals[j] as int);
    lemma_sum_single(n, j, f);
}

/// The value among `evals` of the first of `points` equal to `x`, if any.
pub open spec fn lookup(points: Seq<i32>, evals: Seq<u64>, x: i32) -> Option<u64>
    decreases points.len(),
{
    if points.len() == 0 {
        None
    } else if points[0] == x {
        Some(evals[0])
    } else {
        lookup(points.drop_first(), evals.drop_first(), x)
    }
}



/// A point found by `lookup` is one of the points, with its value.
proof fn lemma_lookup_found(points: Seq<i32>, evals: Seq<u64>, x: i32)
    requires
        points.len() == evals.len(),
        lookup(points, evals, x) is Some,
    ensures
        exists|j: int| 0 <= j < points.len() && points[j] == x && #[trigger] evals[j] == lookup(points, evals, x)->0,
    decreases points.len(),
{
    if points[0] != x {
        lemma_lookup_found(points.drop_first(), evals.drop_first(), x);
        let j = choose|j: int|
            0 <= j < points.len() - 1 && points.drop_first()[j] == x && #[trigger] evals.drop_first()[j] == lookup(
                points.drop_first(),
                evals.drop_first(),
                x,
            )->0;
        assert(points[j + 1] == x && evals[j + 1] == lookup(points, evals, x)->0);
    } else {
        assert(points[0] == x && evals[0] == lookup(points, evals, x)->0);
    }
}

/// A univariate polynomial held by its values at `0`, `1` and further integer
/// points.
pub struct PolyEvals {
    eval01: [u64; 2],
    points: Vec<i32>,
    evals: Vec<u64>,
}

impl PolyEvals {
    /// The value at each point `p_i` of the Lagrange basis polynomials of `points`,
    /// evaluated at `a`.
    pub fn get_lagrange_polys_at(field: &PrimeField, a: u64, points: &[i32]) -> (res: Vec<u64>)
        requires
            a < field.q(),
            lagrange_ok(points@, field.q() as int),
        ensures
            res.len() == points.len(),
            all_canonical(res@, field.q()),
            forall|i: int| 0 <= i < points.len() ==> #[trigger] res@[i] == lagrange_at(points@, a as int, i, field.q() as int),
    {
        let ghost q = field.q() as int;
        proof {
            use_type_invariant(field);
        }
        let n = points.len();
        let mut res: Vec<u64> = Vec::new();
        let mut i: usize = 0;
        while i < n
            invariant
                n == points.len(),
                q == field.q(),
                q > 1,
                a < q,
                lagrange_ok(points@, q),
                i <= n,
                res.len() == i,
                all_canonical(res@, q as nat),
                forall|k: int| 0 <= k < i ==> #[trigger] res@[k] == lagrange_at(points@, a as int, k, q),
            decreases n - i,
        {
            let ghost nf = lagrange_num_factor(points@, a as int, i as int, q);
            let ghost df = lagrange_den_factor(points@, i as int);
            let mut nom = field.one();
            let mut invdenom: i32 = 1;
            let mut j: usize = 0;
            proof {
                lemma_small_mod(1, q as nat);
            }
            while j < n
                invariant
                    n == points.len(),
                    q == field.q(),
                    q > 1,
                    a < q,
                    i < n,
                    lagrange_ok(points@, q),
                    nf == lagrange_num_factor(points@, a as int, i as int, q),
                    df == lagrange_den_factor(points@, i as int),
                    j <= n,
                    nom < q,
                    nom == prod(j as nat, nf) % q,
                    invdenom == prod(j as nat, df),
                decreases n - j,
            {
                if j != i {
                    let pj = field.from_int(points[j] as i64);
                    let diff = field.sub(a, pj);
                    proof {
                        assert(nf(j as int) == a - (points@[j as int] as int) % q);
                        lemma_prod_step(j as nat, q, nf, nom as int, diff as int);
                        assert(i32::MIN <= points@[i as int] - points@[j as int] <= i32::MAX);
                        assert(i32::MIN <= prod(j as nat + 1, df) <= i32::MAX);
                        assert(prod(j as nat + 1, df) == prod(j as nat, df) * df(j as int));
                        assert(df(j as int) == points@[i as int] - points@[j as int]);
                    }
                    nom = field.mul(nom, diff);
                    invdenom = invdenom * (points[i] - points[j]);
                } else {
                    proof {
                        lemma_small_mod(1, q as nat);
                        lemma_prod_step(j as nat, q, nf, nom as int, 1);
                        lemma_small_mod(nom as nat, q as nat);
                        assert(prod(j as nat + 1, df) == prod(j as nat, df) * df(j as int));
                        assert(df(j as int) == 1);
                    }
                }
                j = j + 1;
            }
            let den = field.from_int(invdenom as i64);
            proof {
                assert(prod(n as nat, df) % q != 0);
            }
            let l = field.div(nom, den);
            res.push(l);
            i = i + 1;
        }
        res
    }

    /// All the points: `0`, `1`, then the further points.
    pub closed spec fn all_points(&self) -> Seq<i32> {
        seq![0i32, 1i32] + self.points@
    }

    /// The values at all the points.
    pub closed spec fn all_evals(&self) -> Seq<u64> {
        seq![self.eval01[0], self.eval01[1]] + self.evals@
    }

    /// The further points.
    pub closed spec fn other_points(&self) -> Seq<i32> {
        self.points@
    }

    /// The values at the further points.
    pub closed spec fn other_evals(&self) -> Seq<u64> {
        self.evals@
    }

    /// There is one value per further point.
    pub closed spec fn wf(&self) -> bool {
        self.points.len() == self.evals.len()
    }

    /// The polynomial with the values `eval01` at `0` and `1` and `evals` at `points`.
    pub fn new(eval01: [u64; 2], points: Vec<i32>, evals: Vec<u64>) -> (p: PolyEvals)
        requires
            points.len() == evals.len(),
        ensures
            p.wf(),
            p.all_points() == seq![0i32, 1i32] + points@,
            p.all_evals() == seq![eval01[0], eval01[1]] + evals@,
            p.other_points() == points@,
            p.other_evals() == evals@,
    {
        PolyEvals { eval01, points, evals }
    }

    /// `2 y0 - y1`: the value at `-1` of the line with the values `y0` at `0`
    /// and `y1` at `1` (and, with the roles swapped, the value at `2`).
    fn degone_at_negone(field: &PrimeField, atzero: u64, atone: u64) -> (r: u64)
        requires
            atzero < field.q(),
            atone < field.q(),
        ensures
            r == (2 * atzero - atone) % (field.q() as int),
            r < field.q(),
    {
        let twice = field.mul_int(atzero, 2);
        let r = field.sub(twice, atone);
        proof {
            let q = field.q() as int;
            lemma_mul_is_commutative(atzero as int, 2);
            lemma_sub_mod_noop(2 * atzero, atone as int, q);
            lemma_mod_twice(2 * atzero, q);
            lemma_small_mod(atone as nat, q as nat);
        }
        r
    }

    /// The points `0`, `1` and the further points.
    pub fn get_points(&self) -> (r: Vec<i32>)
        ensures
            r@ == self.all_points(),
    {
        let mut r: Vec<i32> = vec![0, 1];
        let mut i: usize = 0;
        while i < self.points.len()
            invariant
                i <= self.points.len(),
                r@ == seq![0i32, 1i32] + self.points@.subrange(0, i as int),
            decreases self.points.len() - i,
        {
            r.push(self.points[i]);
            i = i + 1;
            proof {
                assert(self.points@.subrange(0, i as int) =~= self.points@.subrange(0, i - 1).push(self.points@[i - 1]));
            }
        }
        proof {
            assert(self.points@.subrange(0, self.points@.len() as int) =~= self.points@);
        }
        r
    }

    /// The values at `0`, `1` and the further points.
    pub fn get_evals(&self) -> (r: Vec<u64>)
        ensures
            r@ == self.all_evals(),
    {
        let mut r: Vec<u64> = vec![self.eval01[0], self.eval01[1]];
        let mut i: usize = 0;
        while i < self.evals.len()
            invariant
                i <= self.evals.len(),
                r@ == seq![self.eval01[0], self.eval01[1]] + self.evals@.subrange(0, i as int),
            decreases self.evals.len() - i,
        {
            r.push(self.evals[i]);
            i = i + 1;
            proof {
                assert(self.evals@.subrange(0, i as int) =~= self.evals@.subrange(0, i - 1).push(self.evals@[i - 1]));
            }
        }
        proof {
            assert(self.evals@.subrange(0, self.evals@.len() as int) =~= self.evals@);
        }
        r
    }
    /// The value at `a` of the polynomial of lowest degree through all the
    /// points, by Lagrange interpolation.
    pub fn interp(&self, field: &PrimeField, a: u64) -> (r: u64)
        requires
            self.wf(),
            a < field.q(),
            all_canonical(self.all_evals(), field.q()),
            lagrange_ok(self.all_points(), field.q() as int),
        ensures
            r == interpolate_at(self.all_points(), self.all_evals(), a as int, field.q() as int),
            r < field.q(),
    {
        let ghost q = field.q() as int;
        proof {
            use_type_invariant(field);
        }
        let points = self.get_points();
        let lagr = Self::get_lagrange_polys_at(field, a, points.as_slice());
        let evals = self.get_evals();
        let ghost f = |i: int| evals@[i] * lagrange_at(points@, a as int, i, q);
        let mut acc = field.zero();
        let mut i: usize = 0;
        proof {
            lemma_small_mod(0, q as nat);
        }
        while i < points.len()
            invariant
                q == field.q(),
                q > 1,
                points.len() == evals.len(),
                lagr.len() == points.len(),
                all_canonical(lagr@, q as nat),
                all_canonical(evals@, q as nat),
                forall|k: int| 0 <= k < points.len() ==> #[trigger] lagr@[k] == lagrange_at(points@, a as int, k, q),
                f == (|i: int| evals@[i] * lagrange_at(points@, a as int, i, q)),
                i <= points.len(),
                acc < q,
                acc == sum(i as nat, f) % q,
            decreases points.len() - i,
        {
            let t = field.mul(evals[i], lagr[i]);
            proof {
                lemma_sum_step(i as nat, q, f, acc as int, t as int);
            }
            acc = field.add(acc, t);
            i = i + 1;
        }
        acc
    }

    /// The value at the integer `x`: the stored value where `x` is one of the
    /// points (the first such), the interpolated value elsewhere.
    pub open spec fn value_at(&self, x: i32, q: int) -> int {
        if x == 0 {
            self.all_evals()[0] as int
        } else if x == 1 {
            self.all_evals()[1] as int
        } else {
            match lookup(self.other_points(), self.other_evals(), x) {
                Some(e) => e as int,
                None => interpolate_at(self.all_points(), self.all_evals(), (x as int) % q, q),
            }
        }
    }

    /// The value at any integer `x` is the value at `x` of the polynomial of
    /// lowest degree through all the points and their values (Lagrange
    /// interpolation), where the points are distinct modulo the prime `q` and
    /// the values are residues: at a point, that point's value; elsewhere, the
    /// interpolated value.
    pub proof fn lemma_value_at_interpolates(&self, x: i32, q: int)
        requires
            self.wf(),
            q > 1,
            is_prime(q as nat),
            lagrange_ok(self.all_points(), q),
            all_canonical(self.all_evals(), q as nat),
        ensures
            self.value_at(x, q) == interpolate_at(self.all_points(), self.all_evals(), (x as int) % q, q),
    {
        let pts = self.all_points();
        let evs = self.all_evals();
        if x == 0 {
            lemma_interpolate_at_point(pts, evs, 0, q);
            lemma_small_mod(evs[0] as nat, q as nat);
        } else if x == 1 {
            lemma_interpolate_at_point(pts, evs, 1, q);
            lemma_small_mod(evs[1] as nat, q as nat);
        } else {
            match lookup(self.other_points(), self.other_evals(), x) {
                Some(e) => {
                    lemma_lookup_found(self.other_points(), self.other_evals(), x);
                    let j = choose|j: int|
                        0 <= j < self.other_points().len() && self.other_points()[j] == x
                            && #[trigger] self.other_evals()[j] == lookup(self.other_points(), self.other_evals(), x)->0;
                    assert(pts[j + 2] == x);
                    assert(evs[j + 2] == e);
                    lemma_interpolate_at_point(pts, evs, j + 2, q);
                    lemma_small_mod(e as nat, q as nat);
                },
                None => {},
            }
        }
    }

    /// The value at the integer `x` (see `value_at`).
    pub fn at(&self, field: &PrimeField, x: i32) -> (r: u64)
        requires
            self.wf(),
            all_canonical(self.all_evals(), field.q()),
            x != 0 && x != 1 && lookup(self.other_points(), self.other_evals(), x) is None ==> lagrange_ok(
                self.all_points(),
                field.q() as int,
            ),
        ensures
            r == self.value_at(x, field.q() as int),
            r < field.q(),
    {
        proof {
            assert(self.all_evals()[0] == self.eval01[0]);
            assert(self.all_evals()[1] == self.eval01[1]);
        }
        if x == 0 {
            return self.eval01[0];
        }
        if x == 1 {
            return self.eval01[1];
        }
        let n = self.points.len();
        let mut i: usize = 0;
        proof {
            assert(self.points@.subrange(0, n as int) =~= self.points@);
            assert(self.evals@.subrange(0, n as int) =~= self.evals@);
        }
        while i < n
            invariant
                n == self.points.len(),
                n == self.evals.len(),
                x != 0 && x != 1,
                all_canonical(self.all_evals(), field.q()),
                i <= n,
                lookup(self.points@, self.evals@, x) == lookup(
                    self.points@.subrange(i as int, n as int),
                    self.evals@.subrange(i as int, n as int),
                    x,
                ),
            decreases n - i,
        {
            if self.points[i] == x {
                proof {
                    assert(self.all_evals()[i + 2] == self.evals@[i as int]);
                    assert(self.points@.subrange(i as int, n as int)[0] == x);
                    assert(self.evals@.subrange(i as int, n as int)[0] == self.evals@[i as int]);
                    let sp = self.points@.subrange(i as int, n as int);
                    let se = self.evals@.subrange(i as int, n as int);
                    assert(lookup(sp, se, x) == Some(se[0]));
                    assert(lookup(self.other_points(), self.other_evals(), x) == Some(self.evals@[i as int]));
                }
                return self.evals[i];
            }
            proof {
                assert(self.points@.subrange(i as int, n as int).drop_first() =~= self.points@.subrange(
                    i + 1,
                    n as int,
                ));
                assert(self.evals@.subrange(i as int, n as int).drop_first() =~= self.evals@.subrange(
                    i + 1,
                    n as int,
                ));
            }
            i = i + 1;
        }
        let a = field.from_int(x as i64);
        self.interp(field, a)
    }

    /// The value at the integer `x` of a polynomial known at `0` and `1` only:
    /// at `-1` and `2` from the line through the two values, elsewhere as `at`.
    pub fn degone_at(&self, field: &PrimeField, x: i32) -> (r: u64)
        requires
            self.wf(),
            self.other_points().len() == 0,
            all_canonical(self.all_evals(), field.q()),
        ensures
            x == -1 ==> r == (2 * self.all_evals()[0] - self.all_evals()[1]) % (field.q() as int),
            x == 2 ==> r == (2 * self.all_evals()[1] - self.all_evals()[0]) % (field.q() as int),
            x != -1 && x != 2 ==> r == self.value_at(x, field.q() as int),
            r < field.q(),
    {
        proof {
            assert(self.all_evals()[0] == self.eval01[0]);
            assert(self.all_evals()[1] == self.eval01[1]);
        }
        if x == -1 {
            Self::degone_at_negone(field, self.eval01[0], self.eval01[1])
        } else if x == 2 {
            Self::degone_at_negone(field, self.eval01[1], self.eval01[0])
        } else {
            proof {
                use_type_invariant(field);
                lemma_lagrange_ok_01(field.q() as int);
                assert(self.all_points() =~= seq![0i32, 1i32]);
            }
            self.at(field, x)
        }
    }

    /// Whether the two polynomials take the same values at `0, 1, .., M - 1`,
    /// where `M` is the number of further points of `self`.
    pub fn eq(&self, field: &PrimeField, other: &PolyEvals) -> (r: bool)
        requires
            self.wf(),
            other.wf(),
            self.other_points().len() <= i32::MAX,
            all_canonical(self.all_evals(), field.q()),
            all_canonical(other.all_evals(), field.q()),
            lagrange_ok(self.all_points(), field.q() as int),
            lagrange_ok(other.all_points(), field.q() as int),
        ensures
            r == (forall|x: i32|
                0 <= x < self.other_points().len() ==> #[trigger] self.value_at(x, field.q() as int) == other.value_at(
                    x,
                    field.q() as int,
                )),
    {
        let m = self.points.len() as i32;
        let mut x: i32 = 0;
        while x < m
            invariant
                self.wf(),
                other.wf(),
                m == self.other_points().len(),
                0 <= x <= m,
                all_canonical(self.all_evals(), field.q()),
                all_canonical(other.all_evals(), field.q()),
                lagrange_ok(self.all_points(), field.q() as int),
                lagrange_ok(other.all_points(), field.q() as int),
                forall|y: i32| 0 <= y < x ==> #[trigger] self.value_at(y, field.q() as int) == other.value_at(y, field.q() as int),
            decreases m - x,
        {
            let a = self.at(field, x);
            let b = other.at(field, x);
            if a != b {
                return false;
            }
            x = x + 1;
        }
        true
    }

    /// A copy of the polynomial.
    pub fn clone(&self, field: &PrimeField) -> (p: PolyEvals)
        requires
            self.wf(),
        ensures
            p.wf(),
            p.all_points() == self.all_points(),
            p.all_evals() == self.all_evals(),
            p.other_points() == self.other_points(),
            p.other_evals() == self.other_evals(),
    {
        let points = self.points.clone();
        let evals = self.evals.clone();
        PolyEvals { eval01: [self.eval01[0], self.eval01[1]], points, evals }
    }
}

/// The Lagrange basis at the points `0` and `1` is computable in every field.
proof fn lemma_lagrange_ok_01(q: int)
    requires
        q > 1,
    ensures
        lagrange_ok(seq![0i32, 1i32], q),
{
    let p = seq![0i32, 1i32];
    assert forall|i: int, m: nat| 0 <= i < p.len() && m <= p.len() implies i32::MIN <= #[trigger] prod(
        m,
        lagrange_den_factor(p, i),
    ) <= i32::MAX by {
        let f = lagrange_den_factor(p, i);
        assert(prod(0, f) == 1);
        assert(prod(1, f) == prod(0, f) * f(0));
        assert(prod(2, f) == prod(1, f) * f(1));
    }
    assert forall|i: int| 0 <= i < p.len() implies #[trigger] prod(p.len(), lagrange_den_factor(p, i)) % q != 0 by {
        let f = lagrange_den_factor(p, i);
        assert(prod(0, f) == 1);
        assert(prod(1, f) == prod(0, f) * f(0));
        assert(prod(2, f) == prod(1, f) * f(1));
        if i == 0 {
            assert(prod(2, f) == -1);
            lemma_fundamental_div_mod_converse(-1, q, -1, q - 1);
        } else {
            assert(prod(2, f) == 1);
            lemma_small_mod(1, q as nat);
        }
    }
}

} // verus!
