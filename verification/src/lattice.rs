//! Integer views of field elements for lattice arguments: centered lifts, their
//! inner products, vectors of bounded infinity norm, and the candidate of a
//! rejection-sampling round.
use crate::field::{all_canonical, centered, PrimeField};
use crate::rng::{below_draw, sip_random_below};
use crate::sums::sum;
use rand_seeder::SipRng;
use vstd::arithmetic::div_mod::*;
use vstd::arithmetic::mul::*;
use vstd::prelude::*;

verus! {

/// The variants of rejection sampling.
#[derive(PartialEq, Eq, Structural, Clone, Copy)]
pub enum RejSamplModes {
    Mode1,
    Mode2,
}

/// `r` is the image in `Z/qZ` of the centered lift of some residue modulo `bnd`.
pub open spec fn is_infbnd(r: u64, bnd: int, q: int) -> bool {
    exists|x: int| 0 <= x < bnd && r == #[trigger] centered(x, bnd) % q
}

/// `sum_{i < n} lift(l_i) * lift(r_i)` for the centered lifts modulo `q`.
pub open spec fn lifted_inner(l: Seq<u64>, r: Seq<u64>, q: int, n: nat) -> int {
    sum(n, |i: int| centered(l[i] as int, q) * centered(r[i] as int, q))
}

/// A centered lift is at most `q / 2 + 1` in absolute value.
proof fn lemma_centered_bound(a: int, q: int)
    requires
        0 <= a < q,
    ensures
        -(q / 2 + 1) <= centered(a, q) <= q / 2 + 1,
{
}

/// The inner product over the integers of the centered lifts of `left` and
/// `right`, over the indices present in both.
pub fn inner_prod(field: &PrimeField, left: &[u64], right: &[u64]) -> (r: i128)
    requires
        all_canonical(left@, field.q()),
        all_canonical(right@, field.q()),
        (if left.len() <= right.len() { left.len() } else { right.len() }) * ((field.q() / 2 + 1) * (field.q()
            / 2 + 1)) <= i128::MAX,
    ensures
        r == lifted_inner(left@, right@, field.q() as int, if left.len() <= right.len() { left.len() as nat } else { right.len() as nat }),
{
    let ghost q = field.q() as int;
    let ghost b = (q / 2 + 1) * (q / 2 + 1);
    let ghost f = |i: int| centered(left@[i] as int, q) * centered(right@[i] as int, q);
    let n = if left.len() <= right.len() {
        left.len()
    } else {
        right.len()
    };
    let mut acc: i128 = 0;
    let mut i: usize = 0;
    proof {
        lemma_mul_nonnegative(q / 2 + 1, q / 2 + 1);
    }
    while i < n
        invariant
            q == field.q(),
            b == (q / 2 + 1) * (q / 2 + 1),
            b >= 0,
            n <= left.len(),
            n <= right.len(),
            n * b <= i128::MAX,
            all_canonical(left@, q as nat),
            all_canonical(right@, q as nat),
            f == (|i: int| centered(left@[i] as int, q) * centered(right@[i] as int, q)),
            i <= n,
            acc == sum(i as nat, f),
            -(i * b) <= acc <= i * b,
        decreases n - i,
    {
        let a = field.smallest_lift(left[i]);
        let c = field.smallest_lift(right[i]);
        proof {
            lemma_centered_bound(left@[i as int] as int, q);
            lemma_centered_bound(right@[i as int] as int, q);
            let x = a as int;
            let y = c as int;
            let h = q / 2 + 1;
            assert(-b <= x * y <= b) by (nonlinear_arith)
                requires
                    -h <= x <= h,
                    -h <= y <= h,
                    b == h * h,
            ;
            lemma_mul_inequality(i as int + 1, n as int, b);
            lemma_mul_is_distributive_add_other_way(b, i as int, 1);
            assert(-(2 * b) <= x * y);
        }
        acc = acc + (a as i128) * (c as i128);
        i = i + 1;
    }
    acc
}

/// The field element standing for the integer `x - m` or `x` of absolute
/// value at most `m / 2` congruent to `x < m` modulo `m`.
pub fn infbnd_element(field: &PrimeField, x: u64, m: u64) -> (r: u64)
    requires
        x < m <= i64::MAX,
    ensures
        r == centered(x as int, m as int) % (field.q() as int),
        r < field.q(),
{
    let c: i64 = if x <= m / 2 {
        x as i64
    } else {
        (x as i64) - (m as i64)
    };
    field.from_int(c)
}

/// The element of infinity norm at most `bnd / 2` drawn from the generator in
/// state `s`: the centered lift of a draw below `bnd` (see `below_draw`),
/// mapped into `Z/qZ`, and the state after it.
pub open spec fn infbnd_draw(s: SipRng, q: nat, bnd: nat) -> (u64, SipRng) {
    let b = below_draw(s, bnd);
    ((centered(b.0 as int, bnd as int) % (q as int)) as u64, b.1)
}

/// The first `n` such elements drawn one after the other from state `s`, and
/// the state after them.
pub open spec fn infbnd_draws(s: SipRng, q: nat, bnd: nat, n: nat) -> (Seq<u64>, SipRng)
    decreases n,
{
    if n == 0 {
        (Seq::empty(), s)
    } else {
        let p = infbnd_draws(s, q, bnd, (n - 1) as nat);
        let e = infbnd_draw(p.1, q, bnd);
        (p.0.push(e.0), e.1)
    }
}

/// A random element of infinity norm at most `bnd / 2`: the centered lift of a
/// uniform draw below `bnd`, mapped into the field.
pub fn gen_infbnd(field: &PrimeField, rng: &mut SipRng, bnd: u64) -> (r: u64)
    requires
        0 < bnd <= i64::MAX,
    ensures
        (r, *final(rng)) == infbnd_draw(*old(rng), field.q(), bnd as nat),
        is_infbnd(r, bnd as int, field.q() as int),
        r < field.q(),
{
    let x = sip_random_below(rng, bnd);
    let r = infbnd_element(field, x, bnd);
    proof {
        assert(0 <= x < bnd && r == centered(x as int, bnd as int) % (field.q() as int));
    }
    r
}

/// `size` random elements of infinity norm at most `bnd / 2` (see `gen_infbnd`).
pub fn gen_vector_infbnd(field: &PrimeField, rng: &mut SipRng, bnd: u64, size: usize) -> (v: Vec<u64>)
    requires
        0 < bnd <= i64::MAX,
    ensures
        (v@, *final(rng)) == infbnd_draws(*old(rng), field.q(), bnd as nat, size as nat),
        v.len() == size,
        all_canonical(v@, field.q()),
        forall|i: int| 0 <= i < size ==> is_infbnd(#[trigger] v@[i], bnd as int, field.q() as int),
{
    let ghost s0 = *rng;
    let mut v: Vec<u64> = Vec::new();
    let mut i: usize = 0;
    while i < size
        invariant
            0 < bnd <= i64::MAX,
            i <= size,
            v.len() == i,
            all_canonical(v@, field.q()),
            forall|k: int| 0 <= k < i ==> is_infbnd(#[trigger] v@[k], bnd as int, field.q() as int),
            (v@, *rng) == infbnd_draws(s0, field.q(), bnd as nat, i as nat),
        decreases size - i,
    {
        let e = gen_infbnd(field, rng, bnd);
        v.push(e);
        i = i + 1;
        proof {
            assert(infbnd_draws(s0, field.q(), bnd as nat, i as nat).0 =~= v@);
        }
    }
    v
}

/// One candidate of a rejection-sampling round for the challenge `chall`: the
/// masked response `z = y + chall * s` and the shift `v = chall * s`.
pub fn rejsampl_candidate(field: &PrimeField, chall: u64, y: &[u64], s: &[u64]) -> (r: (Vec<u64>, Vec<u64>))
    requires
        chall < field.q(),
        all_canonical(y@, field.q()),
        all_canonical(s@, field.q()),
    ensures
        r.0.len() == (if y.len() <= s.len() { y.len() } else { s.len() }),
        r.1.len() == r.0.len(),
        forall|i: int| 0 <= i < r.0.len() ==> #[trigger] r.1@[i] == (s@[i] * chall) % (field.q() as int),
        forall|i: int| 0 <= i < r.0.len() ==> #[trigger] r.0@[i] == (y@[i] + r.1@[i]) % (field.q() as int),
        all_canonical(r.0@, field.q()),
        all_canonical(r.1@, field.q()),
{
    let n = if y.len() <= s.len() {
        y.len()
    } else {
        s.len()
    };
    let mut z: Vec<u64> = Vec::new();
    let mut v: Vec<u64> = Vec::new();
    let mut i: usize = 0;
    while i < n
        invariant
            n <= y.len(),
            n <= s.len(),
            chall < field.q(),
            all_canonical(y@, field.q()),
            all_canonical(s@, field.q()),
            i <= n,
            z.len() == i,
            v.len() == i,
            forall|k: int| 0 <= k < i ==> #[trigger] v@[k] == (s@[k] * chall) % (field.q() as int),
            forall|k: int| 0 <= k < i ==> #[trigger] z@[k] == (y@[k] + v@[k]) % (field.q() as int),
            all_canonical(z@, field.q()),
            all_canonical(v@, field.q()),
        decreases n - i,
    {
        let t = field.mul(s[i], chall);
        v.push(t);
        z.push(field.add(y[i], t));
        i = i + 1;
    }
    (z, v)
}

} // verus!
