//! Changes of basis for multilinear polynomials on the hypercube `{0,1}^n`.
//!
//! A vector of length `2^n` holds one value per point (or monomial) of the
//! hypercube, index `k` standing for the point whose coordinate `i` is bit `i`
//! of `k`. The transforms below go through the `n` coordinates one at a time,
//! lowest first; each pass is a layer that combines the entries whose indices
//! differ in one bit alone.
use crate::field::{all_canonical, PrimeField};
use crate::util::{bit_at, bit_of, lemma_bit_clear, lemma_bit_of_bound, lemma_bit_set_bound};
use vstd::arithmetic::div_mod::*;
use vstd::arithmetic::power2::*;
use vstd::prelude::*;

verus! {

/// The entries of `s` as integers.
pub open spec fn ints(s: Seq<u64>) -> Seq<int> {
    Seq::new(s.len(), |k: int| s[k] as int)
}

/// The entries of `s` reduced modulo `q`.
pub open spec fn reduce(s: Seq<int>, q: int) -> Seq<int> {
    Seq::new(s.len(), |k: int| s[k] % q)
}

/// Layer `h` of the coefficients-to-evaluations transform: every entry whose
/// index has bit `h` set gains the entry whose index has that bit cleared.
pub open spec fn add_up_layer(s: Seq<int>, h: nat) -> Seq<int> {
    Seq::new(
        s.len(),
        |k: int|
            if bit_of(k as nat, h) == 1 {
                s[k] + s[k - pow2(h)]
            } else {
                s[k]
            },
    )
}

/// Layer `h` of the evaluations-to-coefficients transform: every entry whose
/// index has bit `h` set loses the entry whose index has that bit cleared.
pub open spec fn sub_up_layer(s: Seq<int>, h: nat) -> Seq<int> {
    Seq::new(
        s.len(),
        |k: int|
            if bit_of(k as nat, h) == 1 {
                s[k] - s[k - pow2(h)]
            } else {
                s[k]
            },
    )
}

/// Layer `h` of the transposed transform: every entry whose index has bit `h`
/// clear gains the entry whose index has that bit set.
pub open spec fn add_down_layer(s: Seq<int>, h: nat) -> Seq<int> {
    Seq::new(
        s.len(),
        |k: int|
            if bit_of(k as nat, h) == 0 {
                s[k] + s[k + pow2(h)]
            } else {
                s[k]
            },
    )
}

/// Layers `lo, .., hi - 1` of the coefficients-to-evaluations transform, in that order.
pub open spec fn zeta_layers(s: Seq<int>, lo: nat, hi: nat) -> Seq<int>
    decreases hi,
{
    if hi <= lo {
        s
    } else {
        add_up_layer(zeta_layers(s, lo, (hi - 1) as nat), (hi - 1) as nat)
    }
}

/// Layers `lo, .., hi - 1` of the evaluations-to-coefficients transform, in that order.
pub open spec fn mobius_layers(s: Seq<int>, lo: nat, hi: nat) -> Seq<int>
    decreases hi,
{
    if hi <= lo {
        s
    } else {
        sub_up_layer(mobius_layers(s, lo, (hi - 1) as nat), (hi - 1) as nat)
    }
}

/// Layers `0, .., n - 1` of the transposed transform, in that order.
pub open spec fn transposed_layers(s: Seq<int>, n: nat) -> Seq<int>
    decreases n,
{
    if n == 0 {
        s
    } else {
        add_down_layer(transposed_layers(s, (n - 1) as nat), (n - 1) as nat)
    }
}

/// The hypercube evaluations of the multilinear polynomial with coefficients `c`
/// (over the integers): entry `k` is the sum of `c[j]` over the `j` whose bits
/// are a subset of the bits of `k`.
pub open spec fn coeffs_to_evals(c: Seq<int>, n: nat) -> Seq<int> {
    zeta_layers(c, 0, n)
}

/// The coefficients of the multilinear polynomial with hypercube evaluations `e`
/// (over the integers).
pub open spec fn evals_to_coeffs(e: Seq<int>, n: nat) -> Seq<int> {
    mobius_layers(e, 0, n)
}

/// Layers keep the length.
pub proof fn lemma_layers_len(s: Seq<int>, lo: nat, hi: nat)
    ensures
        zeta_layers(s, lo, hi).len() == s.len(),
        mobius_layers(s, lo, hi).len() == s.len(),
        transposed_layers(s, hi).len() == s.len(),
    decreases hi,
{
    if hi > 0 {
        lemma_layers_len(s, lo, (hi - 1) as nat);
    }
}

/// An evaluations-to-coefficients layer undoes the coefficients-to-evaluations
/// layer of the same bit, and conversely.
proof fn lemma_layer_inverse(s: Seq<int>, h: nat)
    ensures
        sub_up_layer(add_up_layer(s, h), h) == s,
        add_up_layer(sub_up_layer(s, h), h) == s,
{
    let z = add_up_layer(s, h);
    let m = sub_up_layer(s, h);
    assert forall|k: int| 0 <= k < s.len() implies #[trigger] sub_up_layer(z, h)[k] == s[k]
        && add_up_layer(m, h)[k] == s[k] by {
        if bit_of(k as nat, h) == 1 {
            lemma_bit_clear(k as nat, h, h);
        }
    }
    assert(sub_up_layer(z, h) =~= s);
    assert(add_up_layer(m, h) =~= s);
}

/// Layers of different bits commute.
proof fn lemma_layers_commute(s: Seq<int>, a: nat, b: nat)
    requires
        a != b,
    ensures
        sub_up_layer(add_up_layer(s, b), a) == add_up_layer(sub_up_layer(s, a), b),
{
    let l = sub_up_layer(add_up_layer(s, b), a);
    let r = add_up_layer(sub_up_layer(s, a), b);
    assert forall|k: int| 0 <= k < s.len() implies #[trigger] l[k] == r[k] by {
        let kn = k as nat;
        if bit_of(kn, a) == 1 {
            lemma_bit_clear(kn, a, b);
            let ka = (kn - pow2(a)) as nat;
            if bit_of(kn, b) == 1 {
                lemma_bit_clear(kn, b, a);
                lemma_bit_clear(ka, b, a);
                let kb = (kn - pow2(b)) as nat;
                lemma_bit_clear(kb, a, b);
                assert((ka - pow2(b)) as nat == (kb - pow2(a)) as nat);
            }
        } else if bit_of(kn, b) == 1 {
            lemma_bit_clear(kn, b, a);
        }
    }
    assert(l =~= r);
}

/// An evaluations-to-coefficients layer below `lo` passes through the
/// coefficients-to-evaluations layers `lo, .., hi - 1`.
proof fn lemma_layer_through(s: Seq<int>, a: nat, lo: nat, hi: nat)
    requires
        a < lo,
    ensures
        sub_up_layer(zeta_layers(s, lo, hi), a) == zeta_layers(sub_up_layer(s, a), lo, hi),
    decreases hi,
{
    if hi > lo {
        lemma_layer_through(s, a, lo, (hi - 1) as nat);
        lemma_layers_commute(zeta_layers(s, lo, (hi - 1) as nat), a, (hi - 1) as nat);
    }
}

/// The first of a run of coefficients-to-evaluations layers can be applied first.
proof fn lemma_zeta_first(s: Seq<int>, lo: nat, hi: nat)
    requires
        lo < hi,
    ensures
        zeta_layers(s, lo, hi) == zeta_layers(add_up_layer(s, lo), lo + 1, hi),
    decreases hi,
{
    if hi > lo + 1 {
        lemma_zeta_first(s, lo, (hi - 1) as nat);
        assert(zeta_layers(s, lo, hi) == add_up_layer(zeta_layers(s, lo, (hi - 1) as nat), (hi - 1) as nat));
        assert(zeta_layers(add_up_layer(s, lo), lo + 1, hi) == add_up_layer(
            zeta_layers(add_up_layer(s, lo), lo + 1, (hi - 1) as nat),
            (hi - 1) as nat,
        ));
    } else {
        assert(zeta_layers(s, lo, lo) == s);
        assert(zeta_layers(add_up_layer(s, lo), lo + 1, hi) == add_up_layer(s, lo));
    }
}

/// The first of a run of evaluations-to-coefficients layers can be applied first.
proof fn lemma_mobius_first(s: Seq<int>, lo: nat, hi: nat)
    requires
        lo < hi,
    ensures
        mobius_layers(s, lo, hi) == mobius_layers(sub_up_layer(s, lo), lo + 1, hi),
    decreases hi,
{
    if hi > lo + 1 {
        lemma_mobius_first(s, lo, (hi - 1) as nat);
        assert(mobius_layers(s, lo, hi) == sub_up_layer(mobius_layers(s, lo, (hi - 1) as nat), (hi - 1) as nat));
        assert(mobius_layers(sub_up_layer(s, lo), lo + 1, hi) == sub_up_layer(
            mobius_layers(sub_up_layer(s, lo), lo + 1, (hi - 1) as nat),
            (hi - 1) as nat,
        ));
    } else {
        assert(mobius_layers(s, lo, lo) == s);
        assert(mobius_layers(sub_up_layer(s, lo), lo + 1, hi) == sub_up_layer(s, lo));
    }
}

/// The evaluations-to-coefficients layers `lo..hi` undo the coefficients-to-evaluations
/// layers `lo..hi`.
proof fn lemma_mobius_zeta_layers(s: Seq<int>, lo: nat, hi: nat)
    ensures
        mobius_layers(zeta_layers(s, lo, hi), lo, hi) == s,
    decreases hi - lo,
{
    if lo < hi {
        let z1 = add_up_layer(s, lo);
        lemma_zeta_first(s, lo, hi);
        lemma_mobius_first(zeta_layers(s, lo, hi), lo, hi);
        lemma_layer_through(z1, lo, lo + 1, hi);
        lemma_layer_inverse(s, lo);
        lemma_mobius_zeta_layers(s, lo + 1, hi);
    }
}

/// A coefficients-to-evaluations layer below `lo` passes through the
/// evaluations-to-coefficients layers `lo, .., hi - 1`.
proof fn lemma_add_layer_through(s: Seq<int>, a: nat, lo: nat, hi: nat)
    requires
        a < lo,
    ensures
        add_up_layer(mobius_layers(s, lo, hi), a) == mobius_layers(add_up_layer(s, a), lo, hi),
    decreases hi,
{
    if hi > lo {
        lemma_add_layer_through(s, a, lo, (hi - 1) as nat);
        lemma_layers_commute(mobius_layers(s, lo, (hi - 1) as nat), (hi - 1) as nat, a);
    }
}

/// The coefficients-to-evaluations layers `lo..hi` undo the
/// evaluations-to-coefficients layers `lo..hi`.
proof fn lemma_zeta_mobius_layers(s: Seq<int>, lo: nat, hi: nat)
    ensures
        zeta_layers(mobius_layers(s, lo, hi), lo, hi) == s,
    decreases hi - lo,
{
    if lo < hi {
        let m1 = sub_up_layer(s, lo);
        lemma_mobius_first(s, lo, hi);
        lemma_zeta_first(mobius_layers(s, lo, hi), lo, hi);
        lemma_add_layer_through(m1, lo, lo + 1, hi);
        lemma_layer_inverse(s, lo);
        lemma_zeta_mobius_layers(s, lo + 1, hi);
    }
}

/// Over the integers, the hypercube evaluations of the polynomial with the
/// coefficients computed from `e` are `e` itself.
pub proof fn lemma_coeffs_to_evals_inverts(e: Seq<int>, n: nat)
    ensures
        coeffs_to_evals(evals_to_coeffs(e, n), n) == e,
{
    lemma_zeta_mobius_layers(e, 0, n);
}

/// Over the integers, the coefficients of the polynomial with the hypercube
/// evaluations computed from `c` are `c` itself.
pub proof fn lemma_evals_to_coeffs_inverts(c: Seq<int>, n: nat)
    ensures
        evals_to_coeffs(coeffs_to_evals(c, n), n) == c,
{
    lemma_mobius_zeta_layers(c, 0, n);
}

/// Reducing modulo `q` before or after a layer gives the same residues.
proof fn lemma_layer_mod(s: Seq<int>, h: nat, q: int)
    requires
        q > 0,
    ensures
        reduce(add_up_layer(reduce(s, q), h), q) == reduce(add_up_layer(s, h), q),
        reduce(sub_up_layer(reduce(s, q), h), q) == reduce(sub_up_layer(s, h), q),
{
    let a1 = reduce(add_up_layer(reduce(s, q), h), q);
    let a2 = reduce(add_up_layer(s, h), q);
    let s1 = reduce(sub_up_layer(reduce(s, q), h), q);
    let s2 = reduce(sub_up_layer(s, h), q);
    assert forall|k: int| #![trigger a1[k]] #![trigger s1[k]] 0 <= k < s.len() implies a1[k] == a2[k] && s1[k] == s2[k] by {
        if bit_of(k as nat, h) == 1 {
            lemma_bit_clear(k as nat, h, h);
            let j = k - pow2(h);
            lemma_add_mod_noop(s[k], s[j], q);
            lemma_sub_mod_noop(s[k], s[j], q);
            lemma_mod_twice(s[k], q);
            lemma_mod_twice(s[j], q);
            lemma_add_mod_noop(s[k] % q, s[j] % q, q);
            lemma_sub_mod_noop(s[k] % q, s[j] % q, q);
        } else {
            lemma_mod_twice(s[k], q);
        }
    }
    assert(a1 =~= a2);
    assert(s1 =~= s2);
}

/// Reducing the input modulo `q` does not change the residues of the layers.
proof fn lemma_layers_mod(s: Seq<int>, n: nat, q: int)
    requires
        q > 0,
    ensures
        reduce(zeta_layers(reduce(s, q), 0, n), q) == reduce(zeta_layers(s, 0, n), q),
        reduce(mobius_layers(reduce(s, q), 0, n), q) == reduce(mobius_layers(s, 0, n), q),
    decreases n,
{
    if n > 0 {
        let m = (n - 1) as nat;
        lemma_layers_mod(s, m, q);
        let zr = zeta_layers(reduce(s, q), 0, m);
        let zs = zeta_layers(s, 0, m);
        lemma_layer_mod(zr, m, q);
        lemma_layer_mod(zs, m, q);
        assert(reduce(zr, q) == reduce(zs, q));
        assert(reduce(add_up_layer(reduce(zr, q), m), q) == reduce(add_up_layer(reduce(zs, q), m), q));
        let mr = mobius_layers(reduce(s, q), 0, m);
        let ms = mobius_layers(s, 0, m);
        lemma_layer_mod(mr, m, q);
        lemma_layer_mod(ms, m, q);
        assert(reduce(mr, q) == reduce(ms, q));
        assert(reduce(sub_up_layer(reduce(mr, q), m), q) == reduce(sub_up_layer(reduce(ms, q), m), q));
    } else {
        assert forall|k: int| 0 <= k < s.len() implies #[trigger] reduce(reduce(s, q), q)[k] == reduce(s, q)[k] by {
            lemma_mod_twice(s[k], q);
        }
        assert(reduce(reduce(s, q), q) =~= reduce(s, q));
    }
}

/// In `Z/qZ`, turning coefficients into hypercube evaluations and back gives the
/// coefficients again.
pub proof fn lemma_coeffs_evals_roundtrip(c: Seq<u64>, n: nat, q: int)
    requires
        q > 0,
        all_canonical(c, q as nat),
    ensures
        reduce(evals_to_coeffs(reduce(coeffs_to_evals(ints(c), n), q), n), q) == ints(c),
{
    let ci = ints(c);
    lemma_layers_mod(coeffs_to_evals(ci, n), n, q);
    lemma_evals_to_coeffs_inverts(ci, n);
    lemma_reduce_canonical(ci, q);
    lemma_layers_len(ci, 0, n);
}

/// In `Z/qZ`, turning hypercube evaluations into coefficients and back gives
/// the evaluations again.
pub proof fn lemma_evals_coeffs_roundtrip(e: Seq<u64>, n: nat, q: int)
    requires
        q > 0,
        all_canonical(e, q as nat),
    ensures
        reduce(coeffs_to_evals(reduce(evals_to_coeffs(ints(e), n), q), n), q) == ints(e),
{
    let ei = ints(e);
    lemma_layers_mod(evals_to_coeffs(ei, n), n, q);
    lemma_coeffs_to_evals_inverts(ei, n);
    lemma_reduce_canonical(ei, q);
    lemma_layers_len(ei, 0, n);
}

/// Canonical residues are their own reductions.
proof fn lemma_reduce_canonical(s: Seq<int>, q: int)
    requires
        q > 0,
        forall|k: int| 0 <= k < s.len() ==> 0 <= #[trigger] s[k] < q,
    ensures
        reduce(s, q) == s,
{
    assert forall|k: int| 0 <= k < s.len() implies #[trigger] reduce(s, q)[k] == s[k] by {
        lemma_small_mod(s[k] as nat, q as nat);
    }
    assert(reduce(s, q) =~= s);
}

/// One layer, in place: every entry whose index has bit `h` set gains (or, with
/// `subtract`, loses) the entry whose index has that bit cleared.
fn up_layer_inplace(field: &PrimeField, h: usize, v: &mut [u64], subtract: bool)
    requires
        h < usize::BITS,
        all_canonical(old(v)@, field.q()),
    ensures
        final(v)@.len() == old(v)@.len(),
        all_canonical(final(v)@, field.q()),
        ints(final(v)@) == reduce(
            if subtract {
                sub_up_layer(ints(old(v)@), h as nat)
            } else {
                add_up_layer(ints(old(v)@), h as nat)
            },
            field.q() as int,
        ),
{
    let ghost prev = ints(v@);
    let ghost q = field.q() as int;
    let ghost target = if subtract {
        sub_up_layer(prev, h as nat)
    } else {
        add_up_layer(prev, h as nat)
    };
    let n = v.len();
    let mut k: usize = 0;
    while k < n
        invariant
            n == v@.len(),
            prev.len() == n,
            h < usize::BITS,
            q == field.q(),
            all_canonical(v@, field.q()),
            target == (if subtract {
                sub_up_layer(prev, h as nat)
            } else {
                add_up_layer(prev, h as nat)
            }),
            k <= n,
            forall|j: int| 0 <= j < k ==> #[trigger] v@[j] as int == target[j] % q,
            forall|j: int| k <= j < n ==> #[trigger] v@[j] as int == prev[j],
            forall|j: int| 0 <= j < n && bit_of(j as nat, h as nat) == 0 ==> #[trigger] v@[j] as int == prev[j],
        decreases n - k,
    {
        if bit_at(k, h) {
            proof {
                lemma_bit_clear(k as nat, h as nat, h as nat);
                lemma_pow2_pos(h as nat);
            }
            let p = 1usize << h;
            proof {
                vstd::bits::lemma_usize_pow2_no_overflow(h as nat);
                assert(1 * pow2(h as nat) == pow2(h as nat));
                vstd::bits::lemma_usize_shl_is_mul(1, h);
            }
            let lo = v[k - p];
            let hi = v[k];
            let r = if subtract {
                field.sub(hi, lo)
            } else {
                field.add(hi, lo)
            };
            v[k] = r;
        } else {
            proof {
                lemma_small_mod(v@[k as int] as nat, q as nat);
            }
        }
        k = k + 1;
    }
    proof {
        assert(ints(v@) =~= reduce(target, q));
    }
}

/// Turns the `2^logsize` coefficients of a multilinear polynomial into its
/// evaluations on the hypercube, in place.
pub fn coeffs_to_evals_inplace(field: &PrimeField, logsize: usize, coeffs: &mut [u64])
    requires
        logsize < usize::BITS,
        old(coeffs)@.len() == pow2(logsize as nat),
        all_canonical(old(coeffs)@, field.q()),
    ensures
        final(coeffs)@.len() == old(coeffs)@.len(),
        all_canonical(final(coeffs)@, field.q()),
        ints(final(coeffs)@) == reduce(coeffs_to_evals(ints(old(coeffs)@), logsize as nat), field.q() as int),
{
    let ghost orig = ints(coeffs@);
    let ghost q = field.q() as int;
    proof {
        use_type_invariant(field);
        lemma_reduce_canonical(orig, q);
    }
    let mut i: usize = 0;
    while i < logsize
        invariant
            logsize < usize::BITS,
            i <= logsize,
            q == field.q(),
            q > 1,
            orig.len() == coeffs@.len(),
            all_canonical(coeffs@, field.q()),
            ints(coeffs@) == reduce(zeta_layers(orig, 0, i as nat), q),
        decreases logsize - i,
    {
        up_layer_inplace(field, i, coeffs, false);
        proof {
            lemma_layer_mod(zeta_layers(orig, 0, i as nat), i as nat, q);
        }
        i = i + 1;
    }
}

/// Turns the `2^logsize` hypercube evaluations of a multilinear polynomial into
/// its coefficients, in place.
pub fn evals_to_coeffs_inplace(field: &PrimeField, logsize: usize, evals: &mut [u64])
    requires
        logsize < usize::BITS,
        old(evals)@.len() == pow2(logsize as nat),
        all_canonical(old(evals)@, field.q()),
    ensures
        final(evals)@.len() == old(evals)@.len(),
        all_canonical(final(evals)@, field.q()),
        ints(final(evals)@) == reduce(evals_to_coeffs(ints(old(evals)@), logsize as nat), field.q() as int),
{
    let ghost orig = ints(evals@);
    let ghost q = field.q() as int;
    proof {
        use_type_invariant(field);
        lemma_reduce_canonical(orig, q);
    }
    let mut i: usize = 0;
    while i < logsize
        invariant
            logsize < usize::BITS,
            i <= logsize,
            q == field.q(),
            q > 1,
            orig.len() == evals@.len(),
            all_canonical(evals@, field.q()),
            ints(evals@) == reduce(mobius_layers(orig, 0, i as nat), q),
        decreases logsize - i,
    {
        up_layer_inplace(field, i, evals, true);
        proof {
            lemma_layer_mod(mobius_layers(orig, 0, i as nat), i as nat, q);
        }
        i = i + 1;
    }
}

/// Reducing modulo `q` before or after a transposed layer gives the same residues.
proof fn lemma_down_layer_mod(s: Seq<int>, h: nat, n: nat, q: int)
    requires
        q > 0,
        h < n,
        s.len() == pow2(n),
    ensures
        reduce(add_down_layer(reduce(s, q), h), q) == reduce(add_down_layer(s, h), q),
{
    let a1 = reduce(add_down_layer(reduce(s, q), h), q);
    let a2 = reduce(add_down_layer(s, h), q);
    assert forall|k: int| 0 <= k < s.len() implies #[trigger] a1[k] == a2[k] by {
        if bit_of(k as nat, h) == 0 {
            let j = k + pow2(h);
            lemma_bit_set_bound(k as nat, h, n);
            lemma_add_mod_noop(s[k], s[j], q);
            lemma_mod_twice(s[k], q);
            lemma_mod_twice(s[j], q);
            lemma_add_mod_noop(s[k] % q, s[j] % q, q);
        } else {
            lemma_mod_twice(s[k], q);
        }
    }
    assert(a1 =~= a2);
}

/// The transposed layers keep the length.
pub proof fn lemma_transposed_len(s: Seq<int>, n: nat)
    ensures
        transposed_layers(s, n).len() == s.len(),
    decreases n,
{
    if n > 0 {
        lemma_transposed_len(s, (n - 1) as nat);
    }
}

/// Reducing the input modulo `q` does not change the residues of the
/// transposed layers.
pub proof fn lemma_transposed_mod(s: Seq<int>, n: nat, len: nat, q: int)
    requires
        q > 0,
        n <= len,
        s.len() == pow2(len),
    ensures
        reduce(transposed_layers(reduce(s, q), n), q) == reduce(transposed_layers(s, n), q),
    decreases n,
{
    if n > 0 {
        let m = (n - 1) as nat;
        lemma_transposed_mod(s, m, len, q);
        let tr = transposed_layers(reduce(s, q), m);
        let ts = transposed_layers(s, m);
        lemma_transposed_len(reduce(s, q), m);
        lemma_transposed_len(s, m);
        lemma_down_layer_mod(tr, m, len, q);
        lemma_down_layer_mod(ts, m, len, q);
        assert(reduce(tr, q) == reduce(ts, q));
    } else {
        assert forall|k: int| 0 <= k < s.len() implies #[trigger] reduce(reduce(s, q), q)[k] == reduce(s, q)[k] by {
            lemma_mod_twice(s[k], q);
        }
        assert(reduce(reduce(s, q), q) =~= reduce(s, q));
    }
}

/// Turns weights on the hypercube evaluations of a multilinear polynomial into
/// weights on its coefficients, in place: entry `j` becomes the sum of the
/// weights of the points `k` whose bits contain those of `j`.
pub fn evalscalars_to_coeffscalars(field: &PrimeField, logsize: usize, scalars: &mut [u64])
    requires
        logsize < usize::BITS,
        old(scalars)@.len() == pow2(logsize as nat),
        all_canonical(old(scalars)@, field.q()),
    ensures
        final(scalars)@.len() == old(scalars)@.len(),
        all_canonical(final(scalars)@, field.q()),
        ints(final(scalars)@) == reduce(transposed_layers(ints(old(scalars)@), logsize as nat), field.q() as int),
{
    let ghost orig = ints(scalars@);
    let ghost q = field.q() as int;
    let ghost len = pow2(logsize as nat);
    proof {
        use_type_invariant(field);
        lemma_reduce_canonical(orig, q);
    }
    let n = scalars.len();
    let mut i: usize = 0;
    while i < logsize
        invariant
            logsize < usize::BITS,
            i <= logsize,
            q == field.q(),
            q > 1,
            n == scalars@.len(),
            n == len,
            len == pow2(logsize as nat),
            orig.len() == n,
            all_canonical(scalars@, field.q()),
            ints(scalars@) == reduce(transposed_layers(orig, i as nat), q),
        decreases logsize - i,
    {
        let ghost prev = ints(scalars@);
        let ghost target = add_down_layer(prev, i as nat);
        proof {
            vstd::bits::lemma_usize_pow2_no_overflow(i as nat);
            assert(1 * pow2(i as nat) == pow2(i as nat));
            vstd::bits::lemma_usize_shl_is_mul(1, i);
        }
        let p = 1usize << i;
        let mut k: usize = 0;
        while k < n
            invariant
                n == scalars@.len(),
                n == len,
                len == pow2(logsize as nat),
                i < logsize < usize::BITS,
                p == pow2(i as nat),
                prev.len() == n,
                q == field.q(),
                all_canonical(scalars@, field.q()),
                target == add_down_layer(prev, i as nat),
                k <= n,
                forall|j: int| 0 <= j < k ==> #[trigger] scalars@[j] as int == target[j] % q,
                forall|j: int| k <= j < n ==> #[trigger] scalars@[j] as int == prev[j],
            decreases n - k,
        {
            if !bit_at(k, i) {
                proof {
                    lemma_bit_of_bound(k as nat, i as nat);
                    lemma_bit_set_bound(k as nat, i as nat, logsize as nat);
                    lemma_pow2_pos(i as nat);
                }
                let up = scalars[k + p];
                let here = scalars[k];
                scalars[k] = field.add(here, up);
            } else {
                proof {
                    lemma_small_mod(scalars@[k as int] as nat, q as nat);
                }
            }
            k = k + 1;
        }
        proof {
            assert(ints(scalars@) =~= reduce(target, q));
            lemma_down_layer_mod(transposed_layers(orig, i as nat), i as nat, logsize as nat, q);
            lemma_layers_len(orig, 0, i as nat);
        }
        i = i + 1;
    }
}

} // verus!
