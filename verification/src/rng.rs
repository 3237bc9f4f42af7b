//! Sources of randomness and the Fiat-Shamir challenge simulator.
//!
//! The generators themselves come from `rand` and `rand_seeder`; nothing is
//! claimed of the values they produce, only that the library maps them into
//! the field correctly.
use crate::field::{all_canonical, PrimeField};
use rand_seeder::SipRng;
use vstd::arithmetic::div_mod::*;
use vstd::arithmetic::power2::*;
use vstd::prelude::*;

verus! {

/// The seedable generator of `rand_seeder`, whose state Verus does not see.
#[verifier::external_type_specification]
#[verifier::external_body]
pub struct ExSipRng(rand_seeder::SipRng);

/// The generator that `rand_seeder::Seeder::from(seed).into_rng()` gives for
/// the string `seed`: the seed is hashed with SipHash under fixed keys, so the
/// generator depends on the string alone.
pub uninterp spec fn seeded_state(seed: Seq<char>) -> SipRng;

/// What `next_u64` does to a `SipRng` in state `s`: the output and the next
/// state. The output is a function of the state alone.
pub uninterp spec fn sip_next(s: SipRng) -> (u64, SipRng);

/// Calls `rand_seeder::Seeder::from(seed).into_rng()`: the generator for the
/// string `seed` (named `seeded_state`).
#[verifier::external_body]
fn seeded_rng(seed: &str) -> (r: SipRng)
    ensures
        r == seeded_state(seed@),
{
    rand_seeder::Seeder::from(seed).into_rng()
}

/// Calls `rand_core::Rng::next_u64` on a `SipRng`: the output and the new
/// state are those of `sip_next` on the old state.
#[verifier::external_body]
fn sip_next_u64(rng: &mut SipRng) -> (r: u64)
    ensures
        (r, *final(rng)) == sip_next(*old(rng)),
{
    rand_seeder::rand_core::Rng::next_u64(rng)
}

/// Two outputs of the generator in state `s`, read as the 128-bit integer
/// `hi * 2^64 + lo`, and the state after them.
pub open spec fn draw128(s: SipRng) -> (int, SipRng) {
    let hi = sip_next(s).0;
    let s1 = sip_next(s).1;
    let lo = sip_next(s1).0;
    (hi * 0x1_0000_0000_0000_0000int + lo, sip_next(s1).1)
}

/// A draw below `m` from the generator in state `s`: the 128-bit draw reduced
/// mod `m`, and the state after it.
pub open spec fn below_draw(s: SipRng, m: nat) -> (u64, SipRng) {
    ((draw128(s).0 % (m as int)) as u64, draw128(s).1)
}

/// The number of binary digits of `q`: the least `b` with `q < 2^b`.
pub open spec fn bit_len(q: nat) -> nat
    decreases q,
{
    if q == 0 {
        0
    } else {
        1 + bit_len(q / 2)
    }
}

/// The most attempts a rejection sampler makes before it gives up.
pub open spec fn max_attempts() -> nat {
    u64::MAX as nat
}

/// Uniform sampling below `q` by rejection, with at most `fuel` further
/// attempts: a 128-bit draw is cut to the `bit_len(q)` low bits and kept if
/// it is below `q`, else drawn again (see `accepted`). When no attempt is
/// left, zero is taken.
pub open spec fn uniform_attempts(s: SipRng, q: nat, fuel: nat) -> (u64, SipRng)
    decreases fuel,
{
    let hi = sip_next(s).0;
    let lo = sip_next(sip_next(s).1).0;
    let s2 = sip_next(sip_next(s).1).1;
    match accepted(hi, lo, q) {
        Some(x) => (x, s2),
        None => if fuel == 0 {
            (0, s2)
        } else {
            uniform_attempts(s2, q, (fuel - 1) as nat)
        },
    }
}

/// A uniform element of `Z/qZ` drawn from the generator in state `s`, and the
/// state after it.
pub open spec fn element_draw(s: SipRng, q: nat) -> (u64, SipRng) {
    uniform_attempts(s, q, max_attempts())
}

/// Uniform sampling of a nonzero element of `Z/qZ`: elements are drawn until
/// one is nonzero, with at most `fuel` further attempts, after which one is
/// taken.
pub open spec fn nonzero_attempts(s: SipRng, q: nat, fuel: nat) -> (u64, SipRng)
    decreases fuel,
{
    let e = element_draw(s, q);
    if e.0 != 0 {
        e
    } else if fuel == 0 {
        (1, e.1)
    } else {
        nonzero_attempts(e.1, q, (fuel - 1) as nat)
    }
}

/// A uniform nonzero element of `Z/qZ` drawn from the generator in state `s`,
/// and the state after it.
pub open spec fn nonzero_draw(s: SipRng, q: nat) -> (u64, SipRng) {
    nonzero_attempts(s, q, max_attempts())
}

/// Rejection sampling gives elements below `q`.
pub proof fn lemma_uniform_attempts_range(s: SipRng, q: nat, fuel: nat)
    requires
        q > 0,
        q <= u64::MAX,
    ensures
        uniform_attempts(s, q, fuel).0 < q,
    decreases fuel,
{
    let s2 = sip_next(sip_next(s).1).1;
    lemma_pow2_pos(bit_len(q));
    if accepted(sip_next(s).0, sip_next(sip_next(s).1).0, q) is None && fuel > 0 {
        lemma_uniform_attempts_range(s2, q, (fuel - 1) as nat);
    }
}

/// Nonzero sampling gives nonzero elements below `q`, for `q > 1`.
pub proof fn lemma_nonzero_attempts_range(s: SipRng, q: nat, fuel: nat)
    requires
        1 < q <= u64::MAX,
    ensures
        0 < nonzero_attempts(s, q, fuel).0 < q,
    decreases fuel,
{
    lemma_uniform_attempts_range(s, q, max_attempts());
    let e = element_draw(s, q);
    if e.0 == 0 && fuel > 0 {
        lemma_nonzero_attempts_range(e.1, q, (fuel - 1) as nat);
    }
}

/// The first `n` challenges drawn from the generator in state `s` for the
/// field of `q` elements, in the order they are drawn.
pub open spec fn fs_challenges(s: SipRng, q: nat, n: nat) -> Seq<u64>
    decreases n,
{
    if n == 0 {
        Seq::empty()
    } else {
        fs_challenges(s, q, (n - 1) as nat).push(nonzero_draw(fs_after(s, q, (n - 1) as nat), q).0)
    }
}

/// The state of the generator after `n` challenges drawn from state `s`.
pub open spec fn fs_after(s: SipRng, q: nat, n: nat) -> SipRng
    decreases n,
{
    if n == 0 {
        s
    } else {
        nonzero_draw(fs_after(s, q, (n - 1) as nat), q).1
    }
}

/// The state of the challenge generator when it is made or reset.
pub open spec fn fs_seed() -> SipRng {
    seeded_state("FiatShamirSim"@)
}

/// The challenges drawn from a state are the first ones of any longer run of
/// draws from that state.
pub proof fn lemma_fs_challenges_prefix(s: SipRng, q: nat, m: nat, n: nat)
    requires
        m <= n,
    ensures
        fs_challenges(s, q, n).len() == n,
        fs_challenges(s, q, n).subrange(0, m as int) == fs_challenges(s, q, m),
    decreases n,
{
    if n > 0 {
        lemma_fs_challenges_prefix(s, q, if m == n { (n - 1) as nat } else { m }, (n - 1) as nat);
        if m < n {
            assert(fs_challenges(s, q, n).subrange(0, m as int) =~= fs_challenges(s, q, (n - 1) as nat).subrange(0, m as int));
        } else {
            assert(fs_challenges(s, q, n).subrange(0, m as int) =~= fs_challenges(s, q, n));
        }
    }
}

/// Every challenge is a nonzero element of the field, where `1 < q < 2^64`.
pub proof fn lemma_fs_challenges_valid(s: SipRng, q: nat, n: nat)
    requires
        1 < q <= u64::MAX,
    ensures
        fs_challenges(s, q, n).len() == n,
        forall|k: int| 0 <= k < n ==> 0 < #[trigger] fs_challenges(s, q, n)[k] < q,
    decreases n,
{
    if n > 0 {
        lemma_fs_challenges_valid(s, q, (n - 1) as nat);
        lemma_nonzero_attempts_range(fs_after(s, q, (n - 1) as nat), q, max_attempts());
        let c = nonzero_draw(fs_after(s, q, (n - 1) as nat), q).0;
        assert(fs_challenges(s, q, n)[n - 1] == c);
    }
}

/// Determinism: two challenge generators in the same state over the same field
/// draw the same challenges, however many are drawn; in particular two fresh
/// ones do, and so does a copy, from the state it was copied in.
pub proof fn lemma_fs_deterministic(a: FiatShamirSim, b: FiatShamirSim, n: nat)
    requires
        a.state() == b.state(),
        a.q() == b.q(),
    ensures
        fs_challenges(a.state(), a.q(), n) == fs_challenges(b.state(), b.q(), n),
        fs_after(a.state(), a.q(), n) == fs_after(b.state(), b.q(), n),
{
}

/// Calls the derived `Clone::clone` of `SipRng`, which copies the generator's state.
#[verifier::external_body]
fn sip_clone(rng: &SipRng) -> (r: SipRng)
    ensures
        r == *rng,
{
    rng.clone()
}

/// A draw from `rng` reduced below `bound` (uniform up to a bias below `bound / 2^128`).
pub fn sip_random_below(rng: &mut SipRng, bound: u64) -> (r: u64)
    requires
        bound > 0,
    ensures
        (r, *final(rng)) == below_draw(*old(rng), bound as nat),
        r < bound,
{
    let hi = sip_next_u64(rng);
    let lo = sip_next_u64(rng);
    let x: u128 = ((hi as u128) << 64u128) | (lo as u128);
    proof {
        assert(((hi as u128) << 64u128) | (lo as u128) == (hi as u128) * 0x1_0000_0000_0000_0000u128 + (lo as u128))
            by (bit_vector);
    }
    (x % (bound as u128)) as u64
}

/// Calls `rand::random::<u64>()`, a value from the thread-local generator.
/// Nothing is stated of it.
#[verifier::external_body]
fn thread_random_u64() -> u64 {
    rand::random::<u64>()
}

/// Calls `rand::random_range(0..bound)`: an index drawn from the thread-local
/// generator, below `bound`. Its value depends on chance; only the range is
/// stated.
#[verifier::external_body]
pub(crate) fn thread_index_below(bound: usize) -> (r: usize)
    requires
        bound > 0,
    ensures
        r < bound,
{
    rand::random_range(0..bound)
}

/// The outcome of one attempt of rejection sampling below `q` on the two
/// outputs `hi`, `lo`: the integer `hi * 2^64 + lo` cut to its `bit_len(q)`
/// low bits, kept if it is below `q`.
pub open spec fn accepted(hi: u64, lo: u64, q: nat) -> Option<u64> {
    let x = (hi * 0x1_0000_0000_0000_0000int + lo) % (pow2(bit_len(q)) as int);
    if x < q {
        Some(x as u64)
    } else {
        None
    }
}

impl PrimeField {
    /// Maps the 128-bit integer `hi * 2^64 + lo` to the field.
    pub fn element_from_u128_parts(&self, hi: u64, lo: u64) -> (r: u64)
        ensures
            r == (hi * 0x1_0000_0000_0000_0000int + lo) % (self.q() as int),
            r < self.q(),
    {
        let q = self.modulus();
        let x: u128 = ((hi as u128) << 64u128) | (lo as u128);
        proof {
            assert(((hi as u128) << 64u128) | (lo as u128) == (hi as u128) * 0x1_0000_0000_0000_0000u128 + (lo as u128))
                by (bit_vector);
        }
        (x % (q as u128)) as u64
    }

    /// `2^bit_len(q)`, the bound that draws are cut to before rejection.
    fn draw_mask(&self) -> (m: u128)
        ensures
            m == pow2(bit_len(self.q())),
            m > 0,
    {
        let q = self.modulus();
        let mut t: u64 = q;
        let mut m: u128 = 1;
        let ghost mut b: nat = 0;
        proof {
            lemma2_to64();
        }
        while t > 0
            invariant
                q == self.q(),
                m == pow2(b),
                m >= 1,
                t as int == (q as int) / (m as int),
                t > 0 ==> m <= q,
                bit_len(q as nat) == b + bit_len(t as nat),
            decreases t,
        {
            proof {
                lemma_div_denominator(q as int, m as int, 2);
                lemma_pow2_unfold(b + 1);
                lemma_div_pos_is_pos(q as int, m as int);
            }
            t = t / 2;
            m = m * 2;
            proof {
                b = b + 1;
                if t > 0 && m > q {
                    lemma_basic_div(q as int, m as int);
                }
            }
        }
        m
    }

    /// One attempt of rejection sampling on the two outputs `hi`, `lo` (see
    /// `accepted`).
    pub fn accept_draw(&self, hi: u64, lo: u64) -> (r: Option<u64>)
        ensures
            r == accepted(hi, lo, self.q()),
            r matches Some(v) ==> v < self.q(),
    {
        let q = self.modulus();
        let m = self.draw_mask();
        let x: u128 = ((hi as u128) << 64u128) | (lo as u128);
        proof {
            assert(((hi as u128) << 64u128) | (lo as u128) == (hi as u128) * 0x1_0000_0000_0000_0000u128 + (lo as u128))
                by (bit_vector);
        }
        let v = x % m;
        if v < q as u128 {
            Some(v as u64)
        } else {
            None
        }
    }

    /// A uniform element of the field drawn from `rng` by rejection sampling
    /// (see `element_draw`).
    pub fn random_element(&self, rng: &mut SipRng) -> (r: u64)
        ensures
            (r, *final(rng)) == element_draw(*old(rng), self.q()),
            r < self.q(),
    {
        proof {
            use_type_invariant(self);
        }
        let ghost q = self.q();
        let ghost s0 = *rng;
        let mut tries: u64 = 0;
        proof {
            self.lemma_q_fits();
            lemma_uniform_attempts_range(s0, q, max_attempts());
        }
        loop
            invariant
                q == self.q(),
                uniform_attempts(*rng, q, (u64::MAX - tries) as nat) == element_draw(s0, q),
                s0 == *old(rng),
                element_draw(s0, q).0 < q,
            decreases u64::MAX - tries,
        {
            let ghost sc = *rng;
            let hi = sip_next_u64(rng);
            let lo = sip_next_u64(rng);
            let ghost fuel = (u64::MAX - tries) as nat;
            match self.accept_draw(hi, lo) {
                Some(v) => {
                    proof {
                        assert(uniform_attempts(sc, q, fuel) == (v, *rng));
                    }
                    return v;
                },
                None => {
                    if tries == u64::MAX {
                        proof {
                            assert(uniform_attempts(sc, q, fuel) == (0u64, *rng));
                        }
                        return 0;
                    }
                    proof {
                        assert(uniform_attempts(sc, q, fuel) == uniform_attempts(*rng, q, (fuel - 1) as nat));
                    }
                },
            }
            tries = tries + 1;
        }
    }

    /// A uniform element of the field drawn from the thread-local generator by
    /// rejection sampling: two outputs per attempt, kept when `accept_draw`
    /// accepts them.
    pub fn random_element_thread(&self) -> (r: u64)
        ensures
            r < self.q(),
    {
        proof {
            use_type_invariant(self);
        }
        let mut tries: u64 = 0;
        loop
            invariant
                self.q() > 1,
            decreases u64::MAX - tries,
        {
            let hi = thread_random_u64();
            let lo = thread_random_u64();
            match self.accept_draw(hi, lo) {
                Some(v) => {
                    return v;
                },
                None => {
                    if tries == u64::MAX {
                        return 0;
                    }
                },
            }
            tries = tries + 1;
        }
    }

    /// A uniform nonzero element of the field drawn from `rng`: elements are
    /// drawn until one is nonzero (see `nonzero_draw`).
    pub fn random_nonzero_element(&self, rng: &mut SipRng) -> (r: u64)
        ensures
            (r, *final(rng)) == nonzero_draw(*old(rng), self.q()),
            0 < r < self.q(),
    {
        proof {
            use_type_invariant(self);
        }
        let ghost s0 = *rng;
        let mut tries: u64 = 0;
        proof {
            self.lemma_q_fits();
            lemma_nonzero_attempts_range(s0, self.q(), max_attempts());
        }
        loop
            invariant
                self.q() > 1,
                nonzero_attempts(*rng, self.q(), (u64::MAX - tries) as nat) == nonzero_draw(s0, self.q()),
                s0 == *old(rng),
                0 < nonzero_draw(s0, self.q()).0 < self.q(),
            decreases u64::MAX - tries,
        {
            let ghost sc = *rng;
            let e = self.random_element(rng);
            let ghost fuel = (u64::MAX - tries) as nat;
            proof {
                assert((e, *rng) == element_draw(sc, self.q()));
            }
            if e != 0 {
                proof {
                    assert(nonzero_attempts(sc, self.q(), fuel) == (e, *rng));
                }
                return e;
            }
            if tries == u64::MAX {
                proof {
                    assert(nonzero_attempts(sc, self.q(), fuel) == (1u64, *rng));
                }
                return 1;
            }
            proof {
                assert(nonzero_attempts(sc, self.q(), fuel) == nonzero_attempts(*rng, self.q(), (fuel - 1) as nat));
            }
            tries = tries + 1;
        }
    }

    /// A uniform nonzero element of the field drawn from the thread-local
    /// generator: elements are drawn until one is nonzero.
    pub fn random_nonzero_element_thread(&self) -> (r: u64)
        ensures
            0 < r < self.q(),
    {
        proof {
            use_type_invariant(self);
        }
        let mut tries: u64 = 0;
        loop
            invariant
                self.q() > 1,
            decreases u64::MAX - tries,
        {
            let e = self.random_element_thread();
            if e != 0 {
                return e;
            }
            if tries == u64::MAX {
                return 1;
            }
            tries = tries + 1;
        }
    }
}

/// The first `n` elements of `Z/qZ` drawn one after the other from the
/// generator in state `s` (see `element_draw`), and the state after them.
pub open spec fn element_draws(s: SipRng, q: nat, n: nat) -> (Seq<u64>, SipRng)
    decreases n,
{
    if n == 0 {
        (Seq::empty(), s)
    } else {
        let p = element_draws(s, q, (n - 1) as nat);
        let e = element_draw(p.1, q);
        (p.0.push(e.0), e.1)
    }
}

/// `len` random elements of `field`, drawn from `rng` one after the other.
pub fn gen_random(field: &PrimeField, rng: &mut SipRng, len: usize) -> (v: Vec<u64>)
    ensures
        (v@, *final(rng)) == element_draws(*old(rng), field.q(), len as nat),
        v.len() == len,
        all_canonical(v@, field.q()),
{
    let ghost s0 = *rng;
    let mut v: Vec<u64> = Vec::new();
    let mut i: usize = 0;
    while i < len
        invariant
            i <= len,
            v.len() == i,
            all_canonical(v@, field.q()),
            (v@, *rng) == element_draws(s0, field.q(), i as nat),
        decreases len - i,
    {
        let ghost sc = *rng;
        let x = field.random_element(rng);
        v.push(x);
        i = i + 1;
        proof {
            assert(element_draws(s0, field.q(), i as nat).0 =~= v@);
        }
    }
    v
}

/// `len` random elements of `field`, drawn from the thread-local generator.
pub fn gen_random_thread(field: &PrimeField, len: usize) -> (v: Vec<u64>)
    ensures
        v.len() == len,
        all_canonical(v@, field.q()),
{
    let mut v: Vec<u64> = Vec::new();
    let mut i: usize = 0;
    while i < len
        invariant
            i <= len,
            v.len() == i,
            all_canonical(v@, field.q()),
        decreases len - i,
    {
        let x = field.random_element_thread();
        v.push(x);
        i = i + 1;
    }
    v
}

/// Simulates the verifier's challenges of an interactive protocol by a
/// deterministic generator seeded with a fixed string.
pub struct FiatShamirSim {
    field: PrimeField,
    rng: SipRng,
}

/// The challenge generator seeded with the fixed string `"FiatShamirSim"`.
pub fn fiat_shamir_rng() -> (r: SipRng)
    ensures
        r == fs_seed(),
{
    seeded_rng("FiatShamirSim")
}

impl FiatShamirSim {
    /// The field the challenges are drawn from.
    pub closed spec fn q(&self) -> nat {
        self.field.q()
    }

    /// The current state of the generator.
    pub closed spec fn state(&self) -> SipRng {
        self.rng
    }

    /// The generator is at the start of its sequence.
    pub open spec fn is_fresh(&self) -> bool {
        self.state() == fs_seed()
    }

    /// A simulator for challenges in `field`, in its initial state.
    pub fn new(field: &PrimeField) -> (r: FiatShamirSim)
        ensures
            r.q() == field.q(),
            r.is_fresh(),
    {
        FiatShamirSim { field: field.clone(), rng: fiat_shamir_rng() }
    }

    /// The next challenge: a nonzero field element, drawn from the current
    /// state of the generator (see `nonzero_draw`).
    pub fn challenge(&mut self) -> (c: u64)
        ensures
            final(self).q() == old(self).q(),
            (c, final(self).state()) == nonzero_draw(old(self).state(), old(self).q()),
            0 < c < old(self).q(),
    {
        self.field.random_nonzero_element(&mut self.rng)
    }

    /// Puts the simulator back in its initial state.
    pub fn reset(&mut self)
        ensures
            final(self).q() == old(self).q(),
            final(self).is_fresh(),
    {
        self.rng = fiat_shamir_rng();
    }

    /// The simulator's generator, for draws of other shapes than field
    /// elements: what is drawn through it advances the simulator; the field
    /// stays the same.
    pub fn get_rng(&mut self) -> (r: &mut SipRng)
        ensures
            *r == old(self).state(),
            final(self).state() == *final(r),
            final(self).q() == old(self).q(),
    {
        &mut self.rng
    }

    /// A copy of the simulator, in the same state.
    pub fn clone(&self) -> (r: FiatShamirSim)
        ensures
            r == *self,
    {
        FiatShamirSim { field: self.field.clone(), rng: sip_clone(&self.rng) }
    }
}

} // verus!
