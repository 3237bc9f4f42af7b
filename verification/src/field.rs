//! Arithmetic in a prime field `Z/qZ`.
//!
//! Elements are represented canonically by the integers `0..q`, stored as `u64`.
//! Every operation is stated over the integers: the result is the exact integer
//! expression reduced modulo `q` (Euclidean remainder, always in `0..q`).
use vstd::arithmetic::div_mod::*;
use vstd::arithmetic::mul::*;
use vstd::prelude::*;

verus! {

/// `n` is a prime number.
pub open spec fn is_prime(n: nat) -> bool {
    &&& n > 1
    &&& forall|d: nat| 1 < d < n ==> #[trigger] (n % d) != 0
}

/// Every entry of `s` is the canonical representative of a residue modulo `q`.
pub open spec fn all_canonical(s: Seq<u64>, q: nat) -> bool {
    forall|i: int| 0 <= i < s.len() ==> #[trigger] s[i] < q
}

/// The representative of the residue `a` (with `0 <= a < q`) in `(-q/2, q/2]`.
pub open spec fn centered(a: int, q: int) -> int {
    if a <= q / 2 {
        a
    } else {
        a - q
    }
}

/// The prime field `Z/qZ`.
#[derive(Clone, Copy)]
pub struct PrimeField {
    modulus: u64,
}

impl PrimeField {
    /// The characteristic `q` of the field.
    pub closed spec fn q(self) -> nat {
        self.modulus as nat
    }

    /// The modulus of a field is prime.
    #[verifier::type_invariant]
    pub open spec fn inv(self) -> bool {
        is_prime(self.q())
    }

    /// Builds the field `Z/qZ`; `None` when `q` is not prime.
    pub fn new(q: u64) -> (res: Option<PrimeField>)
        ensures
            res is Some <==> is_prime(q as nat),
            res matches Some(f) ==> f.q() == q,
    {
        if is_prime_u64(q) {
            Some(PrimeField { modulus: q })
        } else {
            None
        }
    }

    /// The modulus `q`.
    pub fn modulus(&self) -> (q: u64)
        ensures
            q == self.q(),
            is_prime(q as nat),
    {
        proof {
            use_type_invariant(self);
        }
        self.modulus
    }

    /// The additive identity.
    pub fn zero(&self) -> (r: u64)
        ensures
            r == 0,
            r < self.q(),
    {
        proof {
            use_type_invariant(self);
        }
        0
    }

    /// The characteristic fits in a `u64`.
    pub proof fn lemma_q_fits(self)
        ensures
            self.q() <= u64::MAX,
    {
    }

    /// The multiplicative identity.
    pub fn one(&self) -> (r: u64)
        ensures
            r == 1,
            r < self.q(),
    {
        proof {
            use_type_invariant(self);
        }
        1
    }

    /// The element `-1`, that is `q - 1`.
    pub fn neg_one(&self) -> (r: u64)
        ensures
            r == (-1int) % (self.q() as int),
            r < self.q(),
    {
        proof {
            use_type_invariant(self);
            lemma_fundamental_div_mod_converse(-1int, self.q() as int, -1int, self.q() - 1);
        }
        self.modulus - 1
    }

    /// `a + b` in the field.
    pub fn add(&self, a: u64, b: u64) -> (r: u64)
        requires
            a < self.q(),
            b < self.q(),
        ensures
            r == (a + b) % (self.q() as int),
            r < self.q(),
    {
        proof {
            use_type_invariant(self);
        }
        let s: u128 = (a as u128) + (b as u128);
        (s % (self.modulus as u128)) as u64
    }

    /// `a - b` in the field.
    pub fn sub(&self, a: u64, b: u64) -> (r: u64)
        requires
            a < self.q(),
            b < self.q(),
        ensures
            r == (a - b) % (self.q() as int),
            r < self.q(),
    {
        proof {
            use_type_invariant(self);
            let q = self.q() as int;
            lemma_mod_add_multiples_vanish(a - b, q);
        }
        let s: u128 = (a as u128) + (self.modulus as u128) - (b as u128);
        (s % (self.modulus as u128)) as u64
    }

    /// `-a` in the field.
    pub fn negate(&self, a: u64) -> (r: u64)
        requires
            a < self.q(),
        ensures
            r == (-a) % (self.q() as int),
            r < self.q(),
    {
        let z = self.zero();
        self.sub(z, a)
    }

    /// `a * b` in the field.
    pub fn mul(&self, a: u64, b: u64) -> (r: u64)
        requires
            a < self.q(),
            b < self.q(),
        ensures
            r == (a * b) % (self.q() as int),
            r < self.q(),
    {
        proof {
            use_type_invariant(self);
            lemma_mul_upper_bound(a as int, u64::MAX as int, b as int, u64::MAX as int);
        }
        let p: u128 = (a as u128) * (b as u128);
        (p % (self.modulus as u128)) as u64
    }

    /// The image of the integer `n` in the field.
    pub fn from_int(&self, n: i64) -> (r: u64)
        ensures
            r == (n as int) % (self.q() as int),
            r < self.q(),
    {
        proof {
            use_type_invariant(self);
        }
        let q = self.modulus;
        if n >= 0 {
            (n as u64) % q
        } else {
            let a: u128 = (0i128 - (n as i128)) as u128;
            let m: u64 = (a % (q as u128)) as u64;
            proof {
                let qi = q as int;
                lemma_sub_mod_noop(0, a as int, qi);
                lemma_small_mod(0, q as nat);
                assert((n as int) % qi == (0 - (m as int)) % qi);
            }
            if m == 0 {
                0
            } else {
                proof {
                    lemma_fundamental_div_mod_converse(0 - (m as int), q as int, -1, q - m);
                }
                q - m
            }
        }
    }

    /// `n * a` for an integer `n`.
    pub fn mul_int(&self, a: u64, n: i64) -> (r: u64)
        requires
            a < self.q(),
        ensures
            r == (a * n) % (self.q() as int),
            r < self.q(),
    {
        proof {
            use_type_invariant(self);
        }
        let c = self.from_int(n);
        let r = self.mul(a, c);
        proof {
            lemma_mul_mod_noop_right(a as int, n as int, self.q() as int);
        }
        r
    }

    /// Whether two elements are equal.
    pub fn eq_el(&self, a: u64, b: u64) -> (r: bool)
        requires
            a < self.q(),
            b < self.q(),
        ensures
            r == (a == b),
    {
        a == b
    }

    /// Whether `a` is zero.
    pub fn is_zero(&self, a: u64) -> (r: bool)
        ensures
            r == (a == 0),
    {
        a == 0
    }

    /// Whether `a` is one.
    pub fn is_one(&self, a: u64) -> (r: bool)
        ensures
            r == (a == 1),
    {
        a == 1
    }

    /// The multiplicative inverse of a nonzero element.
    pub fn invert(&self, a: u64) -> (r: u64)
        requires
            0 < a < self.q(),
        ensures
            (a * r) % (self.q() as int) == 1,
            r < self.q(),
    {
        proof {
            use_type_invariant(self);
        }
        mod_inverse(a, self.modulus)
    }

    /// `a / b` for a nonzero `b`.
    pub fn div(&self, a: u64, b: u64) -> (r: u64)
        requires
            a < self.q(),
            0 < b < self.q(),
        ensures
            (r * b) % (self.q() as int) == a as int,
            r == fdiv(a as int, b as int, self.q() as int),
            forall|x: int| #[trigger] is_quotient(x, a as int, b as int, self.q() as int) ==> x == r,
            r < self.q(),
    {
        proof {
            use_type_invariant(self);
        }
        let binv = self.invert(b);
        let r = self.mul(a, binv);
        proof {
            let q = self.q() as int;
            lemma_mul_mod_noop_left(a * binv, b as int, q);
            lemma_mul_is_associative(a as int, binv as int, b as int);
            lemma_mul_is_commutative(binv as int, b as int);
            lemma_mul_mod_noop_right(a as int, b * binv, q);
            lemma_small_mod(a as nat, q as nat);
            lemma_fdiv_unique(a as int, b as int, q, binv as int, r as int);
            assert forall|x: int| #[trigger] is_quotient(x, a as int, b as int, q) implies x == r by {
                lemma_fdiv_unique(a as int, b as int, q, binv as int, x);
            }
        }
        r
    }

    /// `a` raised to the power `e`.
    pub fn pow(&self, a: u64, e: u64) -> (r: u64)
        requires
            a < self.q(),
        ensures
            r == vstd::arithmetic::power::pow(a as int, e as nat) % (self.q() as int),
            r < self.q(),
    {
        proof {
            use_type_invariant(self);
        }
        let mut r = self.one();
        let mut i: u64 = 0;
        proof {
            vstd::arithmetic::power::lemma_pow0(a as int);
            lemma_small_mod(1, self.q());
        }
        while i < e
            invariant
                i <= e,
                a < self.q(),
                r < self.q(),
                r == vstd::arithmetic::power::pow(a as int, i as nat) % (self.q() as int),
            decreases e - i,
        {
            proof {
                let q = self.q() as int;
                vstd::arithmetic::power::lemma_pow_adds(a as int, i as nat, 1);
                vstd::arithmetic::power::lemma_pow1(a as int);
                lemma_mul_mod_noop_left(vstd::arithmetic::power::pow(a as int, i as nat), a as int, q);
            }
            r = self.mul(r, a);
            i = i + 1;
        }
        r
    }

    /// The representative of `a` of smallest absolute value, in `(-q/2, q/2]`.
    pub fn smallest_lift(&self, a: u64) -> (r: i64)
        requires
            a < self.q(),
        ensures
            r == centered(a as int, self.q() as int),
            (r as int) % (self.q() as int) == a as int,
            -(self.q() as int) < 2 * r <= self.q(),
    {
        proof {
            use_type_invariant(self);
        }
        if a <= self.modulus / 2 {
            proof {
                lemma_small_mod(a as nat, self.q());
            }
            a as i64
        } else {
            let r: i128 = (a as i128) - (self.modulus as i128);
            proof {
                lemma_fundamental_div_mod_converse(r as int, self.q() as int, -1, a as int);
            }
            r as i64
        }
    }
}

/// `r` is a residue modulo `q` with `r * b == a` (mod `q`).
pub open spec fn is_quotient(r: int, a: int, b: int, q: int) -> bool {
    0 <= r < q && (r * b) % q == a % q
}

/// The quotient `a / b` in `Z/qZ`: the residue `r` with `r * b == a` (mod `q`).
pub open spec fn fdiv(a: int, b: int, q: int) -> int {
    choose|r: int| #[trigger] is_quotient(r, a, b, q)
}

/// Where `b` has an inverse modulo `q`, the residue `r` with `r * b == a` is unique,
/// so it is `fdiv(a, b, q)`.
pub proof fn lemma_fdiv_unique(a: int, b: int, q: int, binv: int, r: int)
    requires
        q > 0,
        (b * binv) % q == 1,
        0 <= r < q,
        (r * b) % q == a % q,
    ensures
        fdiv(a, b, q) == r,
{
    assert(is_quotient(r, a, b, q));
    let c = fdiv(a, b, q);
    assert(is_quotient(c, a, b, q));
    // x == x * (b * binv) == (x * b) * binv  (mod q) for x in {r, c}
    assert forall|x: int| #[trigger] is_quotient(x, a, b, q) implies x == (a * binv) % q by {
        lemma_mul_mod_noop_right(x, b * binv, q);
        lemma_mul_is_associative(x, b, binv);
        lemma_mul_mod_noop_left(x * b, binv, q);
        lemma_mul_mod_noop_left(a, binv, q);
        lemma_small_mod(x as nat, q as nat);
    }
}

/// Whether `n` is prime, by trial division.
pub fn is_prime_u64(n: u64) -> (r: bool)
    ensures
        r == is_prime(n as nat),
{
    if n < 2 {
        return false;
    }
    let mut d: u64 = 2;
    while d <= n / d
        invariant
            2 <= d,
            n >= 2,
            forall|e: nat| 1 < e < d ==> #[trigger] ((n as nat) % e) != 0,
        decreases n - d,
    {
        if n % d == 0 {
            proof {
                lemma_fundamental_div_mod(n as int, d as int);
                let k = (n / d) as int;
                assert(d < n) by (nonlinear_arith)
                    requires
                        n == d * k + n % d,
                        n % d >= 0,
                        k >= d,
                        d >= 2,
                ;
            }
            return false;
        }
        proof {
            lemma_fundamental_div_mod(n as int, d as int);
            let k = (n / d) as int;
            assert(d < n) by (nonlinear_arith)
                requires
                    n == d * k + n % d,
                    n % d >= 0,
                    k >= d,
                    d >= 2,
            ;
        }
        d = d + 1;
    }
    proof {
        assert forall|e: nat| 1 < e < n implies #[trigger] ((n as nat) % e) != 0 by {
            if e >= d {
                lemma_no_small_divisor_no_large(n as nat, d as nat, e);
            }
        }
    }
    true
}

/// If `n` has no divisor in `2..d` and `d * d > n`, then `e` with `d <= e < n` does not divide `n`.
proof fn lemma_no_small_divisor_no_large(n: nat, d: nat, e: nat)
    requires
        2 <= d <= e < n,
        d > n / d,
        forall|k: nat| 1 < k < d ==> #[trigger] (n % k) != 0,
    ensures
        n % e != 0,
{
    if n % e != 0 {
        return;
    }
    let c = n / e;
    lemma_fundamental_div_mod(n as int, e as int);
    assert(n == e * c);
    lemma_fundamental_div_mod(n as int, d as int);
    // d > n / d gives d * d > n
    assert(d * d > n) by {
        lemma_mul_is_commutative(d as int, (n / d) as int);
        assert(n < d * (n / d) + d);
        lemma_mul_is_distributive_add(d as int, (n / d) as int, 1);
        lemma_mul_inequality((n / d) as int + 1, d as int, d as int);
    }
    if c == 0 {
        assert(e * 0 == 0) by { lemma_mul_basics(e as int); }
    } else if c == 1 {
        assert(e * 1 == e) by { lemma_mul_basics(e as int); }
    } else if c < d {
        // c is a divisor of n in (1, d)
        lemma_mul_is_commutative(e as int, c as int);
        lemma_mod_multiples_basic(e as int, c as int);
        assert(n % c == 0);
    } else {
        // c >= d and e >= d give n = e * c >= d * d > n
        lemma_mul_inequality(d as int, e as int, c as int);
        lemma_mul_inequality(d as int, c as int, d as int);
        lemma_mul_is_commutative(d as int, c as int);
    }
}

/// The greatest common divisor, by the Euclidean recursion.
pub open spec fn gcd(a: nat, b: nat) -> nat
    decreases b,
{
    if b == 0 {
        a
    } else {
        gcd(b, a % b)
    }
}

/// `gcd(a, b)` divides both `a` and `b`.
pub proof fn lemma_gcd_divides(a: nat, b: nat)
    requires
        a > 0 || b > 0,
    ensures
        gcd(a, b) > 0,
        a % gcd(a, b) == 0,
        b % gcd(a, b) == 0,
    decreases b,
{
    if b == 0 {
        lemma_mod_self_0(a as int);
        lemma_small_mod(0, a);
    } else {
        let r = a % b;
        lemma_gcd_divides(b, r);
        let g = gcd(b, r);
        lemma_fundamental_div_mod(a as int, b as int);
        // a = b * (a / b) + r, and g divides b and r
        let k = (b / g) as int;
        let m = (r / g) as int;
        lemma_fundamental_div_mod(b as int, g as int);
        lemma_fundamental_div_mod(r as int, g as int);
        assert(a == g * (k * (a / b) + m)) by {
            lemma_mul_is_associative(g as int, k, (a / b) as int);
            lemma_mul_is_distributive_add(g as int, k * (a / b), m);
        }
        lemma_mod_multiples_basic(k * (a / b) + m, g as int);
        lemma_mul_is_commutative(g as int, k * (a / b) + m);
    }
}

/// The gcd of a prime `q` and a number `a` with `0 < a < q` is one.
pub proof fn lemma_gcd_prime(q: nat, a: nat)
    requires
        is_prime(q),
        0 < a < q,
    ensures
        gcd(q, a) == 1,
{
    lemma_gcd_divides(q, a);
    let g = gcd(q, a);
    if g != 1 {
        if g < q {
            assert(q % g != 0);
        } else {
            lemma_small_mod(a, g);
        }
    }
}

/// Bezout coefficients: integers `x`, `y` with `a x + b y == gcd(a, b)`.
pub proof fn lemma_bezout(a: nat, b: nat) -> (r: (int, int))
    ensures
        a * r.0 + b * r.1 == gcd(a, b),
    decreases b,
{
    if b == 0 {
        (1, 0)
    } else {
        let (x, y) = lemma_bezout(b, a % b);
        let k = (a / b) as int;
        let m = (a % b) as int;
        lemma_fundamental_div_mod(a as int, b as int);
        assert(a * y + b * (x - k * y) == b * x + m * y) by (nonlinear_arith)
            requires
                a == b * k + m,
        ;
        (y, x - k * y)
    }
}

/// Every nonzero residue modulo a prime has an inverse.
pub proof fn lemma_inverse_exists(a: int, q: int) -> (binv: int)
    requires
        q > 1,
        is_prime(q as nat),
        a % q != 0,
    ensures
        (a * binv) % q == 1,
        0 <= binv < q,
{
    let ar = a % q;
    lemma_gcd_prime(q as nat, ar as nat);
    let (x, y) = lemma_bezout(q as nat, ar as nat);
    // ar * y == 1 - q * x
    let binv = y % q;
    lemma_mul_mod_noop_right(ar, y, q);
    lemma_mul_mod_noop_left(a, binv, q);
    assert(ar * y == 1 + q * (-x)) by (nonlinear_arith)
        requires
            q * x + ar * y == 1,
    ;
    lemma_mod_multiples_vanish(-x, 1, q);
    lemma_small_mod(1, q as nat);
    binv
}

/// Division by a nonzero residue modulo a prime: the residue `r` with
/// `r * b == a` is `fdiv(a, b, q)`.
pub proof fn lemma_fdiv_prime(a: int, b: int, q: int, r: int)
    requires
        q > 1,
        is_prime(q as nat),
        b % q != 0,
        0 <= r < q,
        (r * b) % q == a % q,
    ensures
        fdiv(a, b, q) == r,
{
    let binv = lemma_inverse_exists(b, q);
    lemma_fdiv_unique(a, b, q, binv, r);
}

/// Euclid's step: `gcd(a, b) == gcd(b, a - k * b)` for `k` the quotient.
proof fn lemma_gcd_step(a: nat, b: nat)
    requires
        b > 0,
    ensures
        gcd(a, b) == gcd(b, a % b),
{
}

/// The inverse of `a` modulo the prime `q`, by the extended Euclidean algorithm.
pub fn mod_inverse(a: u64, q: u64) -> (r: u64)
    requires
        is_prime(q as nat),
        0 < a < q,
    ensures
        (a * r) % (q as int) == 1,
        r < q,
{
    // invariants: r0 == s0 * a (mod q), r1 == s1 * a (mod q), gcd(r0, r1) == gcd(q, a)
    let mut r0: u64 = q;
    let mut r1: u64 = a;
    let mut s0: u64 = 0;
    let mut s1: u64 = 1;
    proof {
        lemma_gcd_prime(q as nat, a as nat);
        lemma_small_mod(a as nat, q as nat);
        lemma_mod_self_0(q as int);
        lemma_small_mod(0, q as nat);
    }
    while r1 != 0
        invariant
            is_prime(q as nat),
            s0 < q,
            s1 < q,
            r0 <= q,
            r1 < q,
            r0 > 0,
            gcd(r0 as nat, r1 as nat) == 1,
            (s0 * a) % (q as int) == (r0 as int) % (q as int),
            (s1 * a) % (q as int) == (r1 as int) % (q as int),
        decreases r1,
    {
        let k = r0 / r1;
        let r2 = r0 % r1;
        proof {
            lemma_fundamental_div_mod(r0 as int, r1 as int);
            let km = (k % q) as int;
            assert(km * s1 <= u128::MAX) by (nonlinear_arith)
                requires
                    0 <= km < q,
                    0 <= s1 < q,
                    q <= u64::MAX,
            ;
        }
        // s2 = s0 - k * s1 (mod q)
        let ks1: u64 = ((((k as u128) % (q as u128)) * (s1 as u128)) % (q as u128)) as u64;
        let s2: u64 = (((s0 as u128) + (q as u128) - (ks1 as u128)) % (q as u128)) as u64;
        proof {
            let qi = q as int;
            lemma_mul_mod_noop_left(k as int, s1 as int, qi);
            assert(ks1 == (k * s1) % qi);
            lemma_mod_add_multiples_vanish(s0 - ks1, qi);
            assert(s2 == (s0 - ks1) % qi);
            lemma_sub_mod_noop_right(s0 as int, k * s1, qi);
            assert(s2 == (s0 - k * s1) % qi);
            // (s2 * a) % q == (s0 * a - k * (s1 * a)) % q == (r0 - k * r1) % q
            lemma_mul_mod_noop_left(s0 - k * s1, a as int, qi);
            lemma_mul_is_distributive_sub_other_way(a as int, s0 as int, k * s1);
            lemma_mul_is_associative(k as int, s1 as int, a as int);
            lemma_sub_mod_noop(s0 * a, k * (s1 * a), qi);
            lemma_mul_mod_noop_right(k as int, s1 * a, qi);
            lemma_mul_mod_noop_right(k as int, r1 as int, qi);
            lemma_sub_mod_noop(r0 as int, k * r1, qi);
            assert(((s0 * a) % qi - (k * (s1 * a)) % qi) % qi == ((r0 as int) % qi - (k * r1) % qi) % qi);
            assert(r2 == r0 - k * r1);
            lemma_gcd_step(r0 as nat, r1 as nat);
        }
        r0 = r1;
        r1 = r2;
        s0 = s1;
        s1 = s2;
    }
    proof {
        // gcd(r0, 0) == r0 == 1
        assert(r0 == 1);
        lemma_small_mod(1, q as nat);
    }
    s0
}

} // verus!
