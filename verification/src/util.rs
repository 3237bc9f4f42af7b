//! Small helpers: binary expansions of integers, vector generation, ranges.
use vstd::arithmetic::div_mod::*;
use vstd::arithmetic::mul::*;
use vstd::arithmetic::power2::*;
use vstd::prelude::*;

verus! {

/// Bit `n` of `x`, counted from the least significant bit.
pub open spec fn bit_of(x: nat, n: nat) -> nat {
    (x / pow2(n)) % 2
}

/// The `len` lowest bits of `x`, least significant first.
pub open spec fn bits_of(x: nat, len: nat) -> Seq<usize> {
    Seq::new(len, |i: int| bit_of(x, i as nat) as usize)
}

/// The integer whose bits, least significant first, are the entries of `s`
/// (an entry counts as one when it is nonzero).
pub open spec fn bits_to_int(s: Seq<usize>) -> nat
    decreases s.len(),
{
    if s.len() == 0 {
        0
    } else {
        bits_to_int(s.drop_last()) + if s.last() != 0 {
            pow2((s.len() - 1) as nat)
        } else {
            0
        }
    }
}

/// Calls `f` `len` times and collects the results in order.
pub fn gen_vector<EL, F: FnMut() -> EL>(mut f: F, len: usize) -> (v: Vec<EL>)
    requires
        call_requires(f, ()),
    ensures
        v.len() == len,
        forall|k: int| 0 <= k < len ==> call_ensures(f, (), #[trigger] v@[k]),
{
    let ghost f0 = f;
    let mut v: Vec<EL> = Vec::new();
    let mut i: usize = 0;
    while i < len
        invariant
            i <= len,
            v.len() == i,
            f == f0,
            call_requires(f, ()),
            forall|k: int| 0 <= k < i ==> call_ensures(f, (), #[trigger] v@[k]),
        decreases len - i,
    {
        v.push(f());
        i = i + 1;
    }
    v
}

/// A bit of any integer is zero or one.
pub proof fn lemma_bit_of_bound(x: nat, n: nat)
    ensures
        bit_of(x, n) < 2,
{
    lemma_pow2_pos(n);
}

/// The bits of `x` from least to most significant: entry `n` is `(inp >> n) & 1`.
pub fn bits_from_int(inp: usize, bitlen: usize) -> (v: Vec<usize>)
    requires
        bitlen <= usize::BITS,
    ensures
        v@ == bits_of(inp as nat, bitlen as nat),
{
    let mut v: Vec<usize> = Vec::new();
    let mut n: usize = 0;
    while n < bitlen
        invariant
            n <= bitlen <= usize::BITS,
            v@ == bits_of(inp as nat, n as nat),
        decreases bitlen - n,
    {
        let b = (inp >> n) & 1;
        proof {
            vstd::bits::lemma_usize_shr_is_div(inp, n);
            let y = inp >> n;
            assert(y & 1 == y % 2) by (bit_vector);
        }
        v.push(b);
        n = n + 1;
        assert(v@ =~= bits_of(inp as nat, n as nat));
    }
    v
}

/// `bits_to_int` of a sequence of length `n` is below `2^n`.
pub proof fn lemma_bits_to_int_bound(s: Seq<usize>)
    ensures
        bits_to_int(s) < pow2(s.len()),
    decreases s.len(),
{
    if s.len() == 0 {
        lemma2_to64();
    } else {
        lemma_bits_to_int_bound(s.drop_last());
        lemma_pow2_unfold(s.len());
    }
}

/// The integer with the given bits, least significant first; a nonzero item
/// counts as a one, and items past the width of `usize` must be zero.
pub fn int_from_bits(bits: &[usize]) -> (r: usize)
    requires
        forall|k: int| usize::BITS <= k < bits.len() ==> #[trigger] bits@[k] == 0,
    ensures
        r == bits_to_int(bits@),
{
    let mut acc: usize = 0;
    let mut i: usize = 0;
    proof {
        lemma2_to64();
    }
    while i < bits.len()
        invariant
            i <= bits.len(),
            forall|k: int| usize::BITS <= k < bits.len() ==> #[trigger] bits@[k] == 0,
            acc == bits_to_int(bits@.subrange(0, i as int)),
            i <= usize::BITS ==> acc < pow2(i as nat),
        decreases bits.len() - i,
    {
        proof {
            assert(bits@.subrange(0, i + 1).drop_last() =~= bits@.subrange(0, i as int));
            lemma_pow2_unfold((i + 1) as nat);
        }
        if bits[i] != 0 {
            proof {
                assert(i < usize::BITS);
                vstd::bits::lemma_usize_pow2_no_overflow(i as nat);
                lemma_usize_bits_pow2();
                if i + 1 < usize::BITS {
                    lemma_pow2_strictly_increases((i + 1) as nat, usize::BITS as nat);
                }
                assert(1 * pow2(i as nat) == pow2(i as nat));
                vstd::bits::lemma_usize_shl_is_mul(1, i);
            }
            acc = acc + (1usize << i);
        } else {
            proof {
                if i + 1 <= usize::BITS {
                    lemma_pow2_strictly_increases(i as nat, (i + 1) as nat);
                }
            }
        }
        i = i + 1;
    }
    proof {
        assert(bits@.subrange(0, i as int) =~= bits@);
    }
    acc
}

/// Bit `j < n` of `x % 2^n` is bit `j` of `x`.
pub proof fn lemma_bit_of_mod(x: nat, n: nat, j: nat)
    requires
        j < n,
    ensures
        bit_of(x % pow2(n), j) == bit_of(x, j),
{
    lemma_pow2_pos(j);
    lemma_pow2_pos((n - j) as nat);
    lemma_pow2_adds(j, (n - j) as nat);
    lemma_mod_breakdown(x as int, pow2(j) as int, pow2((n - j) as nat) as int);
    let a = pow2(j) as int;
    let b = pow2((n - j) as nat) as int;
    let m = (x as int / a) % b;
    lemma_mod_bound(x as int, a);
    lemma_div_multiples_vanish_fancy(m, x as int % a, a);
    lemma_pow2_unfold((n - j) as nat);
    lemma_mod_mod(x as int / a, 2, pow2((n - j - 1) as nat) as int);
    lemma_mul_is_commutative(2, pow2((n - j - 1) as nat) as int);
}

/// The bits of `bits_to_int(s)` are the entries of `s`, when those are zeros and ones.
pub proof fn lemma_bits_of_bits_to_int(s: Seq<usize>)
    requires
        forall|i: int| 0 <= i < s.len() ==> #[trigger] s[i] < 2,
    ensures
        bits_of(bits_to_int(s), s.len()) == s,
    decreases s.len(),
{
    if s.len() > 0 {
        let t = s.drop_last();
        let n = (s.len() - 1) as nat;
        lemma_bits_of_bits_to_int(t);
        lemma_bits_to_int_bound(t);
        let lo = bits_to_int(t);
        let b = s.last() as nat;
        let v = bits_to_int(s);
        assert(v == lo + b * pow2(n)) by {
            if b == 0 {
                lemma_mul_basics(pow2(n) as int);
            } else {
                assert(b == 1);
                lemma_mul_basics(pow2(n) as int);
            }
        }
        lemma_pow2_pos(n);
        assert forall|j: int| 0 <= j < s.len() implies #[trigger] bits_of(v, s.len())[j] == s[j] by {
            if j < n {
                // v % 2^n == lo
                lemma_mod_multiples_vanish(b as int, lo as int, pow2(n) as int);
                lemma_small_mod(lo, pow2(n));
                lemma_mul_is_commutative(b as int, pow2(n) as int);
                lemma_bit_of_mod(v, n, j as nat);
                assert(bits_of(lo, n)[j] == t[j]);
            } else {
                lemma_div_multiples_vanish_fancy(b as int, lo as int, pow2(n) as int);
                lemma_mul_is_commutative(b as int, pow2(n) as int);
                lemma_small_mod(b, 2);
            }
        }
        assert(bits_of(v, s.len()) =~= s);
    }
}

/// `2^BITS` is one more than the largest `usize`.
pub proof fn lemma_usize_bits_pow2()
    ensures
        pow2(usize::BITS as nat) == usize::MAX + 1,
{
    lemma2_to64();
    lemma2_to64_rest();
}

/// The carry into bit `i` when adding one to `v`.
pub open spec fn carry_in(v: nat, i: nat) -> nat {
    ((v % pow2(i)) + 1) / pow2(i)
}

/// One step of ripple-carry increment: bit `i` of `v + 1` and the next carry.
pub proof fn lemma_increment_step(v: nat, i: nat)
    ensures
        carry_in(v, i) < 2,
        bit_of(v + 1, i) == (bit_of(v, i) + carry_in(v, i)) % 2,
        carry_in(v, i + 1) == bit_of(v, i) * carry_in(v, i),
{
    let p = pow2(i) as int;
    lemma_pow2_pos(i);
    lemma_pow2_unfold(i + 1);
    let lo = v as int % p;
    let hi = v as int / p;
    lemma_fundamental_div_mod(v as int, p);
    lemma_mod_bound(v as int, p);
    let c = (lo + 1) / p;
    assert(0 <= c < 2) by {
        lemma_div_pos_is_pos(lo + 1, p);
        lemma_div_is_ordered(lo + 1, p, p);
        lemma_div_by_self(p);
        if lo + 1 < p {
            lemma_basic_div(lo + 1, p);
        }
    }
    // (v + 1) / p == hi + c
    assert((v as int + 1) / p == hi + c) by {
        lemma_fundamental_div_mod(lo + 1, p);
        lemma_mod_bound(lo + 1, p);
        assert(v as int + 1 == p * (hi + c) + (lo + 1) % p) by {
            lemma_mul_is_distributive_add(p, hi, c);
        }
        lemma_mul_is_commutative(p, hi + c);
        lemma_fundamental_div_mod_converse(v as int + 1, p, hi + c, (lo + 1) % p);
    }
    lemma_add_mod_noop(hi, c, 2);
    lemma_small_mod(c as nat, 2);
    // carry into bit i + 1
    let b = hi % 2;
    lemma_mod_breakdown(v as int, p, 2);
    lemma_mul_is_commutative(p, 2);
    assert(v as int % (p * 2) == p * b + lo);
    if c == 1 {
        assert(lo + 1 == p) by {
            lemma_fundamental_div_mod(lo + 1, p);
        }
        assert(p * b + lo + 1 == p * (b + 1)) by {
            lemma_mul_is_distributive_add(p, b, 1);
        }
        lemma_div_multiples_vanish(b + 1, p);
        lemma_mul_is_commutative(p, b + 1);
        lemma_div_denominator(p * (b + 1), p, 2);
        assert((p * (b + 1)) / (p * 2) == b);
        assert(bit_of(v, i) * carry_in(v, i) == b) by {
            lemma_mul_basics(b);
        }
    } else {
        assert(c == 0);
        lemma_fundamental_div_mod(lo + 1, p);
        assert(lo + 1 < p);
        assert(p * b + lo + 1 < p * 2) by {
            lemma_mul_inequality(b, 1, p);
            lemma_mul_is_commutative(b, p);
        }
        lemma_mul_strictly_positive(p, 2);
        lemma_basic_div(p * b + lo + 1, p * 2);
        assert(bit_of(v, i) * carry_in(v, i) == 0) by {
            lemma_mul_basics(b);
        }
    }
}

/// All binary vectors of length `bitlen`, in increasing order of the integer
/// they encode (least significant bit first).
pub fn bits(bitlen: usize) -> (res: Vec<Vec<usize>>)
    requires
        bitlen < usize::BITS,
    ensures
        res.len() == pow2(bitlen as nat),
        forall|i: int| 0 <= i < res.len() ==> (#[trigger] res[i])@ == bits_of(i as nat, bitlen as nat),
{
    let mut cur: Vec<usize> = vec![1; bitlen];
    let mut res: Vec<Vec<usize>> = Vec::new();
    let total: usize = 1usize << bitlen;
    proof {
        vstd::bits::lemma_usize_pow2_no_overflow(bitlen as nat);
        assert(1 * pow2(bitlen as nat) == pow2(bitlen as nat));
        vstd::bits::lemma_usize_shl_is_mul(1, bitlen);
        lemma_small_mod((pow2(bitlen as nat) - 1) as nat, pow2(bitlen as nat));
        lemma_pow2_pos(bitlen as nat);
        // all ones encodes 2^bitlen - 1
        assert forall|j: int| 0 <= j < bitlen implies #[trigger] cur@[j] == bits_of(
            (pow2(bitlen as nat) - 1) as nat,
            bitlen as nat,
        )[j] by {
            lemma_all_ones_bit((bitlen) as nat, j as nat);
        }
        assert(cur@ =~= bits_of((pow2(bitlen as nat) - 1) as nat, bitlen as nat));
    }
    let mut cnt: usize = 0;
    while cnt < total
        invariant
            bitlen < usize::BITS,
            total == pow2(bitlen as nat),
            cnt <= total,
            res.len() == cnt,
            cur@ == bits_of(((cnt + total - 1) % (total as int)) as nat, bitlen as nat),
            forall|i: int| 0 <= i < cnt ==> (#[trigger] res[i])@ == bits_of(i as nat, bitlen as nat),
        decreases total - cnt,
    {
        let ghost v: nat = ((cnt + total - 1) % (total as int)) as nat;
        let mut carry: usize = 1;
        let mut i: usize = 0;
        proof {
            lemma2_to64();
            lemma_small_mod(0, 1);
            assert(carry_in(v, 0) == 1);
        }
        while i < bitlen
            invariant
                i <= bitlen < usize::BITS,
                cur.len() == bitlen,
                carry == carry_in(v, i as nat),
                forall|j: int| 0 <= j < i ==> #[trigger] cur@[j] == bit_of(v + 1, j as nat),
                forall|j: int| i <= j < bitlen ==> #[trigger] cur@[j] == bit_of(v, j as nat),
            decreases bitlen - i,
        {
            proof {
                lemma_increment_step(v, i as nat);
                lemma_bit_of_bound(v, i as nat);
            }
            let c = cur[i];
            let tmp = c ^ carry;
            proof {
                assert(c < 2 && carry < 2 ==> c ^ carry == (c + carry) % 2 && (carry & c) == c * carry)
                    by (bit_vector);
            }
            carry = carry & c;
            proof {
                assert(c < 2 && carry_in(v, i as nat) < 2);
                lemma_mul_is_commutative(c as int, carry_in(v, i as nat) as int);
            }
            cur.set(i, tmp);
            i = i + 1;
        }
        proof {
            let w = ((cnt + 1 + total - 1) % (total as int)) as nat;
            assert(w == (v + 1) % pow2(bitlen as nat)) by {
                lemma_add_mod_noop(cnt + total - 1, 1, total as int);
                lemma_add_mod_noop_right(v as int, 1, total as int);
            }
            assert forall|j: int| 0 <= j < bitlen implies #[trigger] cur@[j] == bits_of(
                w,
                bitlen as nat,
            )[j] by {
                lemma_bit_of_mod(v + 1, bitlen as nat, j as nat);
            }
            assert(cur@ =~= bits_of(w, bitlen as nat));
            assert(cnt < total);
            lemma_small_mod(cnt as nat, total as nat);
            lemma_mod_add_multiples_vanish(cnt as int, total as int);
            assert((cnt + total) % (total as int) == cnt);
        }
        res.push(cur.clone());
        cnt = cnt + 1;
    }
    res
}

/// Every bit below `n` of `2^n - 1` is one.
proof fn lemma_all_ones_bit(n: nat, j: nat)
    requires
        j < n,
    ensures
        bit_of((pow2(n) - 1) as nat, j) == 1,
{
    lemma_pow2_pos(n);
    lemma_pow2_pos(j);
    let p = pow2(j) as int;
    lemma_pow2_adds(j + 1, (n - j - 1) as nat);
    lemma_pow2_unfold(j + 1);
    let r = pow2((n - j - 1) as nat) as int;
    lemma_pow2_pos((n - j - 1) as nat);
    // 2^n - 1 == p * (2 * r - 1) + (p - 1)
    assert(pow2(n) - 1 == p * (2 * r - 1) + (p - 1)) by {
        lemma_mul_is_associative(2, p, r);
        lemma_mul_is_commutative(2, p);
        lemma_mul_is_associative(p, 2, r);
        lemma_mul_is_distributive_sub(p, 2 * r, 1);
    }
    lemma_fundamental_div_mod_converse(pow2(n) - 1, p, 2 * r - 1, p - 1);
    lemma_mod_multiples_vanish(r - 1, 1, 2);
    lemma_small_mod(1, 2);
}

/// A bound of a range of indices.
#[derive(Clone, Copy, PartialEq, Eq, Structural)]
pub enum IndexBound {
    Included(usize),
    Excluded(usize),
    Unbounded,
}

/// The range type with no bounds, declared for Verus.
#[verifier::external_type_specification]
#[verifier::external_body]
pub struct ExRangeFull(core::ops::RangeFull);

/// The ranges with one bound, declared for Verus.
#[verifier::external_type_specification]
#[verifier::external_body]
#[verifier::reject_recursive_types(Idx)]
pub struct ExRangeFrom<Idx>(core::ops::RangeFrom<Idx>);

#[verifier::external_type_specification]
#[verifier::external_body]
#[verifier::reject_recursive_types(Idx)]
pub struct ExRangeTo<Idx>(core::ops::RangeTo<Idx>);

#[verifier::external_type_specification]
#[verifier::external_body]
#[verifier::reject_recursive_types(Idx)]
pub struct ExRangeToInclusive<Idx>(core::ops::RangeToInclusive<Idx>);

/// The field `start` of a `RangeFrom`, its lower bound (inclusive).
pub uninterp spec fn range_from_start(r: core::ops::RangeFrom<usize>) -> usize;

/// The field `end` of a `RangeTo`, its upper bound (exclusive).
pub uninterp spec fn range_to_end(r: core::ops::RangeTo<usize>) -> usize;

/// The field `end` of a `RangeToInclusive`, its upper bound (inclusive).
pub uninterp spec fn range_to_inclusive_end(r: core::ops::RangeToInclusive<usize>) -> usize;

/// The bound type of std, declared for Verus.
#[verifier::external_type_specification]
#[verifier::external_body]
#[verifier::reject_recursive_types(T)]
pub struct ExBound<T>(core::ops::Bound<T>);

/// The bound `b` of std as an `IndexBound`: the same variant, with the same
/// index.
pub uninterp spec fn bound_kind(b: core::ops::Bound<usize>) -> IndexBound;

/// Tells the variants of a std `Bound` apart, one arm each.
#[verifier::external_body]
fn index_bound(b: &core::ops::Bound<usize>) -> (r: IndexBound)
    ensures
        r == bound_kind(*b),
{
    match b {
        core::ops::Bound::Included(v) => IndexBound::Included(*v),
        core::ops::Bound::Excluded(v) => IndexBound::Excluded(*v),
        core::ops::Bound::Unbounded => IndexBound::Unbounded,
    }
}

/// Reads the public field `start` of a `RangeFrom`.
#[verifier::external_body]
fn from_start(r: &core::ops::RangeFrom<usize>) -> (v: usize)
    ensures
        v == range_from_start(*r),
{
    r.start
}

/// Reads the public field `end` of a `RangeTo`.
#[verifier::external_body]
fn to_end(r: &core::ops::RangeTo<usize>) -> (v: usize)
    ensures
        v == range_to_end(*r),
{
    r.end
}

/// Reads the public field `end` of a `RangeToInclusive`.
#[verifier::external_body]
fn to_inclusive_end(r: &core::ops::RangeToInclusive<usize>) -> (v: usize)
    ensures
        v == range_to_inclusive_end(*r),
{
    r.end
}

/// The two bounds that `RangeBounds` gives for an inclusive range.
pub uninterp spec fn inclusive_bounds(r: core::ops::RangeInclusive<usize>) -> (IndexBound, IndexBound);

/// The two bounds of an inclusive range: its start and end, both included,
/// while it has not been iterated to its end; else those `RangeBounds` gives.
pub open spec fn inclusive_range_bounds(r: core::ops::RangeInclusive<usize>) -> (IndexBound, IndexBound) {
    if r@.exhausted {
        inclusive_bounds(r)
    } else {
        (IndexBound::Included(r@.start), IndexBound::Included(r@.end))
    }
}

/// Calls `RangeBounds::start_bound` and `RangeBounds::end_bound` on an
/// inclusive range and tells their variants apart: the bounds named by
/// `inclusive_bounds`, which for a range that has not been iterated to its end
/// are its start and end, both included. For an exhausted range the
/// documentation leaves start and end unspecified, and nothing more is stated.
#[verifier::external_body]
fn inclusive_bounds_of(r: &core::ops::RangeInclusive<usize>) -> (b: (IndexBound, IndexBound))
    ensures
        b == inclusive_bounds(*r),
        b == inclusive_range_bounds(*r),
{
    let lo = match core::ops::RangeBounds::start_bound(r) {
        core::ops::Bound::Included(v) => IndexBound::Included(*v),
        core::ops::Bound::Excluded(v) => IndexBound::Excluded(*v),
        core::ops::Bound::Unbounded => IndexBound::Unbounded,
    };
    let hi = match core::ops::RangeBounds::end_bound(r) {
        core::ops::Bound::Included(v) => IndexBound::Included(*v),
        core::ops::Bound::Excluded(v) => IndexBound::Excluded(*v),
        core::ops::Bound::Unbounded => IndexBound::Unbounded,
    };
    (lo, hi)
}

/// Ranges of indices given by their two bounds.
pub trait IndexBounds {
    /// The lower bound.
    spec fn lower(&self) -> IndexBound;

    /// The upper bound.
    spec fn upper(&self) -> IndexBound;

    /// The lower bound.
    fn start_bound_of(&self) -> (b: IndexBound)
        ensures
            b == self.lower(),
    ;

    /// The upper bound.
    fn end_bound_of(&self) -> (b: IndexBound)
        ensures
            b == self.upper(),
    ;
}

impl IndexBounds for core::ops::Range<usize> {
    open spec fn lower(&self) -> IndexBound {
        IndexBound::Included(self.start)
    }

    open spec fn upper(&self) -> IndexBound {
        IndexBound::Excluded(self.end)
    }

    fn start_bound_of(&self) -> (b: IndexBound) {
        IndexBound::Included(self.start)
    }

    fn end_bound_of(&self) -> (b: IndexBound) {
        IndexBound::Excluded(self.end)
    }
}

impl IndexBounds for core::ops::RangeInclusive<usize> {
    open spec fn lower(&self) -> IndexBound {
        inclusive_range_bounds(*self).0
    }

    open spec fn upper(&self) -> IndexBound {
        inclusive_range_bounds(*self).1
    }

    fn start_bound_of(&self) -> (b: IndexBound) {
        inclusive_bounds_of(self).0
    }

    fn end_bound_of(&self) -> (b: IndexBound) {
        inclusive_bounds_of(self).1
    }
}

impl IndexBounds for core::ops::RangeFull {
    open spec fn lower(&self) -> IndexBound {
        IndexBound::Unbounded
    }

    open spec fn upper(&self) -> IndexBound {
        IndexBound::Unbounded
    }

    fn start_bound_of(&self) -> (b: IndexBound) {
        IndexBound::Unbounded
    }

    fn end_bound_of(&self) -> (b: IndexBound) {
        IndexBound::Unbounded
    }
}

impl IndexBounds for core::ops::RangeFrom<usize> {
    open spec fn lower(&self) -> IndexBound {
        IndexBound::Included(range_from_start(*self))
    }

    open spec fn upper(&self) -> IndexBound {
        IndexBound::Unbounded
    }

    fn start_bound_of(&self) -> (b: IndexBound) {
        IndexBound::Included(from_start(self))
    }

    fn end_bound_of(&self) -> (b: IndexBound) {
        IndexBound::Unbounded
    }
}

impl IndexBounds for core::ops::RangeTo<usize> {
    open spec fn lower(&self) -> IndexBound {
        IndexBound::Unbounded
    }

    open spec fn upper(&self) -> IndexBound {
        IndexBound::Excluded(range_to_end(*self))
    }

    fn start_bound_of(&self) -> (b: IndexBound) {
        IndexBound::Unbounded
    }

    fn end_bound_of(&self) -> (b: IndexBound) {
        IndexBound::Excluded(to_end(self))
    }
}

impl IndexBounds for core::ops::RangeToInclusive<usize> {
    open spec fn lower(&self) -> IndexBound {
        IndexBound::Unbounded
    }

    open spec fn upper(&self) -> IndexBound {
        IndexBound::Included(range_to_inclusive_end(*self))
    }

    fn start_bound_of(&self) -> (b: IndexBound) {
        IndexBound::Unbounded
    }

    fn end_bound_of(&self) -> (b: IndexBound) {
        IndexBound::Included(to_inclusive_end(self))
    }
}

impl IndexBounds for (core::ops::Bound<usize>, core::ops::Bound<usize>) {
    open spec fn lower(&self) -> IndexBound {
        bound_kind(self.0)
    }

    open spec fn upper(&self) -> IndexBound {
        bound_kind(self.1)
    }

    fn start_bound_of(&self) -> (b: IndexBound) {
        index_bound(&self.0)
    }

    fn end_bound_of(&self) -> (b: IndexBound) {
        index_bound(&self.1)
    }
}

/// The index a bound points at lies in `this`: an included bound itself, an
/// excluded one the index before it (there is none before zero); an
/// unbounded side never does.
pub open spec fn bound_in(this: core::ops::Range<usize>, b: IndexBound) -> bool {
    match b {
        IndexBound::Included(v) => this.start <= v < this.end,
        IndexBound::Excluded(v) => v >= 1 && this.start <= v - 1 < this.end,
        IndexBound::Unbounded => false,
    }
}

/// Whether the index a bound points at lies in `this`.
fn bound_in_range(this: &core::ops::Range<usize>, b: IndexBound) -> (r: bool)
    ensures
        r == bound_in(*this, b),
{
    match b {
        IndexBound::Included(v) => this.start <= v && v < this.end,
        IndexBound::Excluded(v) => v >= 1 && this.start <= v - 1 && v - 1 < this.end,
        IndexBound::Unbounded => false,
    }
}

/// Whether `this` contains both ends of `other`: the first index and the last
/// index that its bounds point at. The upper bound is looked at only when the
/// lower one passes.
pub fn contains_range<A: IndexBounds>(this: core::ops::Range<usize>, other: &A) -> (r: bool)
    ensures
        r == (bound_in(this, other.lower()) && bound_in(this, other.upper())),
{
    bound_in_range(&this, other.start_bound_of()) && bound_in_range(&this, other.end_bound_of())
}

/// Adding `2^i` to `k < 2^i` sets bit `i` and keeps the bits below.
pub proof fn lemma_bit_of_add_pow2(k: nat, i: nat, t: nat)
    requires
        k < pow2(i),
    ensures
        bit_of(k, i) == 0,
        bit_of(k + pow2(i), i) == 1,
        t < i ==> bit_of(k + pow2(i), t) == bit_of(k, t),
{
    lemma_pow2_pos(i);
    lemma_basic_div(k as int, pow2(i) as int);
    lemma_small_mod(0, 2);
    lemma_fundamental_div_mod_converse((k + pow2(i)) as int, pow2(i) as int, 1, k as int);
    lemma_small_mod(1, 2);
    if t < i {
        lemma_pow2_pos(t);
        lemma_pow2_adds(t, (i - t) as nat);
        let a = pow2(t) as int;
        let b = pow2((i - t) as nat) as int;
        lemma_pow2_unfold((i - t) as nat);
        lemma_mul_is_commutative(a, b);
        lemma_fundamental_div_mod(k as int, a);
        // (k + a * b) / a == k / a + b
        assert((k + pow2(i)) as int / a == k as int / a + b) by {
            lemma_mod_bound(k as int, a);
            lemma_mul_is_distributive_add_other_way(a, k as int / a, b);
            lemma_mul_is_commutative(a, k as int / a + b);
            lemma_mul_is_commutative(a, k as int / a);
            assert(k + a * b == (k as int / a + b) * a + k as int % a);
            lemma_fundamental_div_mod_converse(k + a * b, a, k as int / a + b, k as int % a);
        }
        let c = pow2((i - t - 1) as nat) as int;
        lemma_mod_multiples_vanish(c, k as int / a, 2);
        lemma_mul_is_commutative(2, c);
    }
}

/// Setting a clear bit `a` of `k` (adding `2^a`) keeps every other bit.
pub proof fn lemma_bit_set(k: nat, a: nat, b: nat)
    requires
        bit_of(k, a) == 0,
    ensures
        bit_of(k + pow2(a), a) == 1,
        b != a ==> bit_of(k + pow2(a), b) == bit_of(k, b),
{
    let p = pow2(a) as int;
    let p2 = pow2(a + 1) as int;
    lemma_pow2_pos(a);
    lemma_pow2_unfold(a + 1);
    assert(p2 == 2 * p);
    let ki = k as int;
    let x = ki + p;
    // k == (k / 2^a) * 2^a + k % 2^a, hence (k + 2^a) / 2^a == k / 2^a + 1
    lemma_fundamental_div_mod(ki, p);
    lemma_mod_bound(ki, p);
    assert(x == (ki / p + 1) * p + ki % p) by {
        lemma_mul_is_distributive_add_other_way(p, ki / p, 1);
    }
    lemma_fundamental_div_mod_converse(x, p, ki / p + 1, ki % p);
    assert((ki / p) % 2 == 0);
    lemma_add_mod_noop(ki / p, 1, 2);
    lemma_small_mod(1, 2);
    // k % 2^(a+1) == 2^a * bit_a(k) + k % 2^a, which is below 2^a
    lemma_mod_breakdown(ki, p, 2);
    assert(p * 2 == p2) by {
        lemma_mul_is_commutative(p, 2);
    }
    lemma_fundamental_div_mod(ki, p2);
    lemma_mod_bound(ki, p2);
    assert(ki % p2 == ki % p) by {
        lemma_mul_basics(p);
    }
    // so (k + 2^a) / 2^(a+1) == k / 2^(a+1)
    assert(ki % p2 == p * ((ki / p) % 2) + ki % p);
    assert(ki % p2 == ki % p);
    lemma_mul_is_commutative(p2, ki / p2);
    assert(x == (ki / p2) * p2 + (ki % p + p));
    lemma_fundamental_div_mod_converse(x, p2, ki / p2, ki % p + p);
    if b < a {
        lemma_bit_of_mod(k, a, b);
        lemma_bit_of_mod(x as nat, a, b);
        lemma_mod_add_multiples_vanish(ki, p);
    } else if b > a {
        let c = pow2((b - a - 1) as nat) as int;
        lemma_pow2_adds(a + 1, (b - a - 1) as nat);
        lemma_pow2_pos((b - a - 1) as nat);
        lemma_div_denominator(ki, p2, c);
        lemma_div_denominator(x, p2, c);
    }
}

/// Clearing a set bit `a` of `k` (subtracting `2^a`) keeps every other bit.
pub proof fn lemma_bit_clear(k: nat, a: nat, b: nat)
    requires
        bit_of(k, a) == 1,
    ensures
        k >= pow2(a),
        bit_of((k - pow2(a)) as nat, a) == 0,
        b != a ==> bit_of((k - pow2(a)) as nat, b) == bit_of(k, b),
{
    let p = pow2(a) as int;
    lemma_pow2_pos(a);
    let ki = k as int;
    if ki < p {
        lemma_basic_div(ki, p);
        lemma_small_mod(0, 2);
    }
    let y = ki - p;
    lemma_fundamental_div_mod(ki, p);
    lemma_mod_bound(ki, p);
    assert(y == (ki / p - 1) * p + ki % p) by {
        lemma_mul_is_distributive_sub_other_way(p, ki / p, 1);
    }
    lemma_fundamental_div_mod_converse(y, p, ki / p - 1, ki % p);
    lemma_sub_mod_noop(ki / p, 1, 2);
    lemma_small_mod(1, 2);
    lemma_bit_set(y as nat, a, b);
}

/// Bit `a` of `k + 2^a`, for `k` below `2^n` with bit `a` clear, stays below `2^n`.
pub proof fn lemma_bit_set_bound(k: nat, a: nat, n: nat)
    requires
        bit_of(k, a) == 0,
        a < n,
        k < pow2(n),
    ensures
        k + pow2(a) < pow2(n),
{
    let p = pow2(a) as int;
    let p2 = pow2(a + 1) as int;
    lemma_pow2_pos(a);
    lemma_pow2_unfold(a + 1);
    let ki = k as int;
    lemma_mod_breakdown(ki, p, 2);
    lemma_mul_is_commutative(p, 2);
    lemma_mod_bound(ki, p);
    lemma_fundamental_div_mod(ki, p2);
    lemma_mul_basics(p);
    // k == H * 2^(a+1) + r with r < 2^a, and H < 2^(n-a-1)
    let h = ki / p2;
    let c = pow2((n - a - 1) as nat) as int;
    lemma_pow2_adds(a + 1, (n - a - 1) as nat);
    lemma_pow2_pos((n - a - 1) as nat);
    lemma_div_denominator(ki, p2, c);
    lemma_div_by_multiple_is_strongly_ordered(ki, pow2(n) as int, 1, pow2(n) as int);
    assert(ki / (p2 * c) < 1) by {
        lemma_basic_div(ki, p2 * c);
    }
    lemma_mod_bound(h, c);
    lemma_fundamental_div_mod(h, c);
    assert(h < c) by {
        lemma_basic_div(ki, p2 * c);
        lemma_mul_basics(c);
    }
    assert((h + 1) * p2 <= c * p2) by {
        lemma_mul_inequality(h + 1, c, p2);
    }
    lemma_mul_is_distributive_add_other_way(p2, h, 1);
    lemma_mul_is_commutative(h, p2);
    lemma_mul_is_commutative(c, p2);
}

/// Bit `a` of `k`, computed with a shift.
pub fn bit_at(k: usize, a: usize) -> (r: bool)
    requires
        a < usize::BITS,
    ensures
        r == (bit_of(k as nat, a as nat) == 1),
{
    proof {
        vstd::bits::lemma_usize_shr_is_div(k, a);
        let y = k >> a;
        assert(y & 1 == y % 2) by (bit_vector);
    }
    (k >> a) & 1 == 1
}

/// Whether `out` is `inp` rotated by `by` positions: `inp[i] == out[(i + by) % len]`.
pub fn test_rot(inp: &Vec<u64>, out: &Vec<u64>, by: usize) -> (r: bool)
    ensures
        r == (inp.len() == out.len() && forall|i: int|
            0 <= i < inp.len() ==> #[trigger] inp@[i] == out@[(i + by) % (out.len() as int)]),
{
    if inp.len() != out.len() {
        return false;
    }
    let n = inp.len();
    let mut i: usize = 0;
    while i < n
        invariant
            n == inp.len(),
            n == out.len(),
            i <= n,
            forall|k: int| 0 <= k < i ==> #[trigger] inp@[k] == out@[(k + by) % (n as int)],
        decreases n - i,
    {
        let j = ((i as u128 + by as u128) % (n as u128)) as usize;
        proof {
            lemma_mod_bound(i + by, n as int);
        }
        if inp[i] != out[j] {
            return false;
        }
        i = i + 1;
    }
    true
}

/// A copy of a slice of field elements.
pub fn copy_slice(v: &[u64]) -> (r: Vec<u64>)
    ensures
        r@ == v@,
{
    let mut r: Vec<u64> = Vec::new();
    let mut k: usize = 0;
    while k < v.len()
        invariant
            k <= v.len(),
            r@ == v@.subrange(0, k as int),
        decreases v.len() - k,
    {
        r.push(v[k]);
        k = k + 1;
    }
    assert(v@.subrange(0, v.len() as int) =~= v@);
    r
}

/// The bits of `x` encode `x` modulo `2^n`.
pub proof fn lemma_bits_to_int_bits_of(x: nat, n: nat)
    ensures
        bits_to_int(bits_of(x, n)) == x % pow2(n),
    decreases n,
{
    if n == 0 {
        lemma2_to64();
        lemma_small_mod(0, 1);
        lemma_mod_self_0(1);
        assert(x % 1 == 0) by {
            lemma_fundamental_div_mod(x as int, 1);
        }
    } else {
        let m = (n - 1) as nat;
        lemma_bits_to_int_bits_of(x, m);
        assert(bits_of(x, n).drop_last() =~= bits_of(x, m));
        lemma_pow2_pos(m);
        lemma_pow2_unfold(n);
        lemma_mod_breakdown(x as int, pow2(m) as int, 2);
        lemma_mul_is_commutative(pow2(m) as int, 2);
        let b = bit_of(x, m);
        lemma_bit_of_bound(x, m);
        assert(bits_of(x, n).last() == b as usize);
        if b == 0 {
            lemma_mul_basics(pow2(m) as int);
        } else {
            lemma_mul_basics(pow2(m) as int);
        }
    }
}

/// The lowest set bit of `v + 1` is the lowest clear bit of `v`; below it the
/// bits of `v` are set and those of `v + 1` clear, above it the bits agree.
pub proof fn lemma_increment_bits(v: nat, j: nat, t: nat)
    requires
        bit_of(v + 1, j) == 1,
        forall|s: nat| s < j ==> #[trigger] bit_of(v + 1, s) == 0,
    ensures
        bit_of(v, j) == 0,
        t < j ==> bit_of(v, t) == 1,
        t > j ==> bit_of(v, t) == bit_of(v + 1, t),
    decreases t,
{
    lemma_carry_below(v, j, j);
    lemma_increment_step(v, j);
    lemma_bit_of_bound(v, j);
    if t < j {
        lemma_carry_below(v, j, t);
        lemma_increment_step(v, t);
        lemma_bit_of_bound(v, t);
    } else if t > j {
        lemma_carry_above(v, j, t);
        lemma_increment_step(v, t);
        lemma_bit_of_bound(v, t);
        lemma_small_mod(bit_of(v, t), 2);
    }
}

/// Below the lowest set bit of `v + 1`, adding one carries.
proof fn lemma_carry_below(v: nat, j: nat, t: nat)
    requires
        t <= j,
        forall|s: nat| s < j ==> #[trigger] bit_of(v + 1, s) == 0,
    ensures
        carry_in(v, t) == 1,
    decreases t,
{
    if t == 0 {
        lemma2_to64();
        lemma_small_mod(0, 1);
    } else {
        let s = (t - 1) as nat;
        lemma_carry_below(v, j, s);
        lemma_increment_step(v, s);
        lemma_bit_of_bound(v, s);
        assert(bit_of(v + 1, s) == 0);
    }
}

/// Above the lowest set bit of `v + 1`, adding one no longer carries.
proof fn lemma_carry_above(v: nat, j: nat, t: nat)
    requires
        t > j,
        bit_of(v + 1, j) == 1,
        forall|s: nat| s < j ==> #[trigger] bit_of(v + 1, s) == 0,
    ensures
        carry_in(v, t) == 0,
    decreases t,
{
    let s = (t - 1) as nat;
    lemma_increment_step(v, s);
    lemma_bit_of_bound(v, s);
    if s == j {
        lemma_carry_below(v, j, j);
    } else {
        lemma_carry_above(v, j, s);
    }
}

/// A number `0 < x < 2^n` has a set bit below `n`.
pub proof fn lemma_has_set_bit(x: nat, n: nat)
    requires
        0 < x < pow2(n),
    ensures
        exists|t: nat| t < n && #[trigger] bit_of(x, t) == 1,
{
    lemma_bits_to_int_bits_of(x, n);
    lemma_small_mod(x, pow2(n));
    if forall|t: nat| t < n ==> #[trigger] bit_of(x, t) != 1 {
        let s = bits_of(x, n);
        assert forall|i: int| 0 <= i < s.len() implies #[trigger] s[i] == 0 by {
            lemma_bit_of_bound(x, i as nat);
        }
        lemma_bits_to_int_zero(s);
    }
}

/// A sequence of zeros encodes zero.
proof fn lemma_bits_to_int_zero(s: Seq<usize>)
    requires
        forall|i: int| 0 <= i < s.len() ==> #[trigger] s[i] == 0,
    ensures
        bits_to_int(s) == 0,
    decreases s.len(),
{
    if s.len() > 0 {
        lemma_bits_to_int_zero(s.drop_last());
    }
}

/// The integer part of the base-2 logarithm of `n` (zero for `n <= 1`).
pub open spec fn log2_floor(n: nat) -> nat
    decreases n,
{
    if n <= 1 {
        0
    } else {
        1 + log2_floor(n / 2)
    }
}

/// The least `k` with `2^k >= n` (zero for `n <= 1`).
pub open spec fn log2_ceil(n: nat) -> nat {
    if n <= 1 {
        0
    } else {
        log2_floor((n - 1) as nat) + 1
    }
}

/// `log2_floor(n)`, computed by halving.
pub fn floor_log2(n: u64) -> (r: u64)
    ensures
        r == log2_floor(n as nat),
        r <= n,
{
    let mut m = n;
    let mut r: u64 = 0;
    while m > 1
        invariant
            r + log2_floor(m as nat) == log2_floor(n as nat),
            r + m <= n,
        decreases m,
    {
        m = m / 2;
        r = r + 1;
    }
    r
}

/// `log2_ceil(n)`.
pub fn ceil_log2(n: u64) -> (r: u64)
    ensures
        r == log2_ceil(n as nat),
        r <= n,
{
    if n <= 1 {
        0
    } else {
        floor_log2(n - 1) + 1
    }
}

} // verus!
