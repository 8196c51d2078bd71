//! RSA key pairs, hash-then-sign signatures and the modular inverse they need.

use crate::bignum::{
    be_bytes, be_value, int_add, int_div, int_eq, int_from_nat, int_lt, int_mul, int_rem, int_sub,
    int_to_nat, lemma_be_bytes_monotone, lemma_be_value_bound, lemma_be_value_digits,
    lemma_be_value_injective, nat_add, nat_bit, nat_eq, nat_lt,
    nat_modpow, nat_mul, nat_random_bits, nat_rem, nat_set_bit, nat_sub, trunc_div, trunc_rem,
    Natural,
};
use crate::numtheory::{
    coprime, gcd, is_inverse_mod, is_prime, lemma_bezout_gives_inverse, lemma_coprime_is_gcd_one,
    lemma_mod_inverse_is, mod_inverse,
};
use crate::primality::{passes_for, test_accepts};
use crate::primes::lemma_rsa_exponent;
use crate::primitives::{sha256, sha256_digest};
use vstd::arithmetic::div_mod::*;
use vstd::arithmetic::power::{lemma_pow_mod_noop, lemma_pow_multiplies, pow};
use vstd::arithmetic::power2::{
    lemma2_to64, lemma_pow2_strictly_increases, lemma_pow2_unfold, pow2,
};
use vstd::prelude::*;

verus! {

/// How many candidates the search for a prime draws before it gives up.
pub const PRIME_SEARCH_LIMIT: u64 = 0xffff_ffff_ffff_ffff;

/// The public half of an RSA key pair: the modulus and the public exponent.
pub struct RsaPublicKey {
    pub n: Natural,
    pub e: Natural,
}

/// The secret half of an RSA key pair: the modulus and the secret exponent.
pub struct RsaSecretKey {
    pub n: Natural,
    pub d: Natural,
}

/// An RSA key pair.
pub struct Rsa {
    pub pk: RsaPublicKey,
    pub sk: RsaSecretKey,
}

impl Clone for RsaPublicKey {
    fn clone(&self) -> (r: Self)
        ensures
            r.n@ == self.n@,
            r.e@ == self.e@,
            r.n.bytes@ == self.n.bytes@,
            r.e.bytes@ == self.e.bytes@,
    {
        RsaPublicKey { n: self.n.clone(), e: self.e.clone() }
    }
}

impl Clone for RsaSecretKey {
    fn clone(&self) -> (r: Self)
        ensures
            r.n@ == self.n@,
            r.d@ == self.d@,
    {
        RsaSecretKey { n: self.n.clone(), d: self.d.clone() }
    }
}

impl Clone for Rsa {
    fn clone(&self) -> (r: Self)
        ensures
            r.pk.n@ == self.pk.n@,
            r.pk.e@ == self.pk.e@,
            r.sk.n@ == self.sk.n@,
            r.sk.d@ == self.sk.d@,
    {
        Rsa { pk: self.pk.clone(), sk: self.sk.clone() }
    }
}

/// The public exponent that goes with a totient: 65537, and 3 where the
/// totient is not above 65537.
pub open spec fn public_exponent(phi: nat) -> nat {
    if 65537 >= phi {
        3
    } else {
        65537
    }
}

/// What the search for a prime of `bits` binary digits hands out: an odd number
/// of exactly `bits` binary digits, at least `2^(bits - 1)` and below `2^bits`
/// (3 itself where `bits` is below 2), which passed the primality test.
pub open spec fn plausible_prime(p: nat, bits: nat) -> bool {
    &&& p >= 3
    &&& p % 2 == 1
    &&& p == 3 || p < pow2(bits)
    &&& bits >= 2 ==> pow2((bits - 1) as nat) <= p
    &&& p > 3 ==> exists|a: nat| 2 <= a < p - 1 && #[trigger] passes_for(p, a)
}

/// A number with its binary digit at position `bits - 1` set, which gives a
/// number below `2^bits` exactly `bits` binary digits; the number itself for
/// `bits == 0`.
pub open spec fn with_highest_bit(raw: nat, bits: nat) -> nat {
    if bits >= 1 && (raw / pow2((bits - 1) as nat)) % 2 == 0 {
        raw + pow2((bits - 1) as nat)
    } else {
        raw
    }
}

/// The candidate for a prime of `bits` binary digits that is made from a
/// number drawn at random: the number with its highest digit set; the next
/// number where that is even, and 3 where it is below 3.
pub open spec fn odd_candidate(raw: nat, bits: nat) -> nat {
    let sized = with_highest_bit(raw, bits);
    if sized < 3 {
        3
    } else if sized % 2 == 0 {
        sized + 1
    } else {
        sized
    }
}

/// A number below `2^bits` with its highest digit set has exactly `bits`
/// binary digits.
pub proof fn lemma_with_highest_bit(raw: nat, bits: nat)
    requires
        raw < pow2(bits),
        bits >= 1,
    ensures
        pow2((bits - 1) as nat) <= with_highest_bit(raw, bits) < pow2(bits),
        pow2(bits) == 2 * pow2((bits - 1) as nat),
{
    let h = pow2((bits - 1) as nat);
    lemma_pow2_unfold(bits);
    vstd::arithmetic::power2::lemma_pow2_pos((bits - 1) as nat);
    lemma_fundamental_div_mod(raw as int, h as int);
    lemma_mod_bound(raw as int, h as int);
    let q = raw / h;
    assert(q < 2 && (q == 0 ==> raw < h) && (q == 1 ==> raw >= h)) by (nonlinear_arith)
        requires
            raw == h * q + raw % h,
            0 <= raw % h < h,
            raw < 2 * h,
            q >= 0,
    ;
}

/// The number that signs the digest value `y`: `y^d mod n`.
pub open spec fn signature_value(y: nat, d: nat, n: nat) -> nat {
    (pow(y as int, d) % (n as int)) as nat
}

/// Whether the signature bytes `sigma` fit the digest value `y` under the
/// public key `(n, e)`: `sigma^e mod n == y`. Nothing fits a modulus of 0.
pub open spec fn signature_fits(sigma: Seq<u8>, y: nat, e: nat, n: nat) -> bool {
    n != 0 && pow(be_value(sigma) as int, e) % (n as int) == y
}

/// Absolute value.
spec fn abs(x: int) -> int {
    if x < 0 {
        -x
    } else {
        x
    }
}

/// One step of the extended Euclidean algorithm keeps what the loop of
/// `modinv` relies on.
proof fn lemma_euclid_step(t: int, nt: int, r: int, nr: int, q: int, rem: int, m: int)
    requires
        r >= 0,
        nr > 0,
        q >= 0,
        r == q * nr + rem,
        0 <= rem < nr,
        (t >= 0 && nt <= 0) || (t <= 0 && nt >= 0),
        abs(nt) * r + abs(t) * nr == m,
        m > 0 ==> nr < r && nt != 0,
    ensures
        r - q * nr == rem,
        (nt >= 0 && t - q * nt <= 0) || (nt <= 0 && t - q * nt >= 0),
        abs(t - q * nt) * nr + abs(nt) * rem == m,
        m > 0 ==> t - q * nt != 0 && abs(nt) * nr < m,
{
    if t >= 0 && nt <= 0 {
        assert(q * nt <= 0) by (nonlinear_arith)
            requires
                q >= 0,
                nt <= 0,
        ;
        assert((t - q * nt) * nr + (-nt) * rem == (-nt) * r + t * nr) by (nonlinear_arith)
            requires
                r == q * nr + rem,
        ;
        if m > 0 {
            assert(q >= 1) by (nonlinear_arith)
                requires
                    r == q * nr + rem,
                    rem < nr,
                    nr < r,
                    q >= 0,
            ;
            assert(q * nt < 0) by (nonlinear_arith)
                requires
                    q >= 1,
                    nt < 0,
            ;
            assert((-nt) * nr < (-nt) * r) by (nonlinear_arith)
                requires
                    nt < 0,
                    nr < r,
            ;
            assert(t * nr >= 0) by (nonlinear_arith)
                requires
                    t >= 0,
                    nr > 0,
            ;
        }
    } else {
        assert(q * nt >= 0) by (nonlinear_arith)
            requires
                q >= 0,
                nt >= 0,
        ;
        assert((q * nt - t) * nr + nt * rem == nt * r + (-t) * nr) by (nonlinear_arith)
            requires
                r == q * nr + rem,
        ;
        if m > 0 {
            assert(q >= 1) by (nonlinear_arith)
                requires
                    r == q * nr + rem,
                    rem < nr,
                    nr < r,
                    q >= 0,
            ;
            assert(q * nt > 0) by (nonlinear_arith)
                requires
                    q >= 1,
                    nt > 0,
            ;
            assert(nt * nr < nt * r) by (nonlinear_arith)
                requires
                    nt > 0,
                    nr < r,
            ;
            assert((-t) * nr >= 0) by (nonlinear_arith)
                requires
                    t <= 0,
                    nr > 0,
            ;
        }
    }
}

/// The same step keeps the two Bezout equations.
proof fn lemma_bezout_step(t: int, s: int, nt: int, ns: int, r: int, nr: int, q: int, a: int, m: int)
    requires
        t * a + s * m == r,
        nt * a + ns * m == nr,
    ensures
        (t - q * nt) * a + (s - q * ns) * m == r - q * nr,
{
    assert((t - q * nt) * a + (s - q * ns) * m == (t * a + s * m) - q * (nt * a + ns * m))
        by (nonlinear_arith);
}

/// The inverse of `a` modulo `m` by the extended Euclidean algorithm on
/// `a % m` and `m`. There is one exactly where `a` and `m` have no common
/// divisor but 1, and it is reduced: at least 0 and less than `m`. Modulo 0
/// only 1 has an inverse, itself.
pub fn modinv(a: &Natural, m: &Natural) -> (res: Option<Natural>)
    ensures
        res is Some <==> coprime(a@, m@),
        res matches Some(x) ==> is_inverse_mod(x@, a@, m@) && x@ == mod_inverse(a@, m@),
{
    let zero = int_from_nat(&Natural::from_u32(0));
    let one = int_from_nat(&Natural::from_u32(1));
    let mut t = zero.clone();
    let mut new_t = one.clone();
    let mut r = int_from_nat(m);
    let mut new_r = if m.is_zero() {
        int_from_nat(a)
    } else {
        int_from_nat(&nat_rem(a, m))
    };
    let ghost mut s: int = 1;
    let ghost mut new_s: int = if m@ == 0 {
        0
    } else {
        -((a@ / m@) as int)
    };
    proof {
        if m@ != 0 {
            lemma_fundamental_div_mod(a@ as int, m@ as int);
            assert(1 * (a@ as int) + (-((a@ / m@) as int)) * (m@ as int) == (a@ % m@) as int)
                by (nonlinear_arith)
                requires
                    a@ as int == (m@ as int) * ((a@ / m@) as int) + (a@ % m@) as int,
            ;
            lemma_mod_bound(a@ as int, m@ as int);
        } else {
            if a@ != 0 {
                lemma_small_mod(0, a@);
                assert(gcd(0, a@) == gcd(a@, 0nat % a@));
            }
        }
        assert(abs(1) * (m@ as int) + abs(0) * new_r@ == m@) by (nonlinear_arith);
        assert(0 * (a@ as int) + 1 * (m@ as int) == m@) by (nonlinear_arith);
    }
    while !int_eq(&new_r, &zero)
        invariant
            zero@ == 0,
            r@ >= 0,
            new_r@ >= 0,
            gcd(r@ as nat, new_r@ as nat) == gcd(a@, m@),
            t@ * a@ + s * m@ == r@,
            new_t@ * a@ + new_s * m@ == new_r@,
            (t@ >= 0 && new_t@ <= 0) || (t@ <= 0 && new_t@ >= 0),
            abs(new_t@) * r@ + abs(t@) * new_r@ == m@,
            m@ > 0 ==> new_r@ < r@ && new_t@ != 0 && (abs(t@) * r@ < m@ || t@ == 0),
        decreases new_r@,
    {
        let quotient = int_div(&r, &new_r);
        proof {
            lemma_fundamental_div_mod(r@, new_r@);
            lemma_mod_bound(r@, new_r@);
            lemma_div_pos_is_pos(r@, new_r@);
            let q = r@ / new_r@;
            let rem = r@ % new_r@;
            assert(r@ == q * new_r@ + rem) by (nonlinear_arith)
                requires
                    r@ == new_r@ * q + rem,
            ;
            lemma_euclid_step(t@, new_t@, r@, new_r@, q, rem, m@ as int);
            lemma_bezout_step(t@, s, new_t@, new_s, r@, new_r@, q, a@ as int, m@ as int);
            assert(gcd(r@ as nat, new_r@ as nat) == gcd(new_r@ as nat, (r@ as nat) % (new_r@ as nat)));
        }
        let temp_t = new_t.clone();
        new_t = int_sub(&t, &int_mul(&quotient, &new_t));
        t = temp_t;

        let temp_r = new_r.clone();
        new_r = int_sub(&r, &int_mul(&quotient, &new_r));
        r = temp_r;
        proof {
            let old_s = s;
            s = new_s;
            new_s = old_s - quotient@ * new_s;
        }
    }

    proof {
        lemma_coprime_is_gcd_one(a@, m@);
        assert(gcd(a@, m@) == r@);
    }
    if !int_eq(&r, &one) {
        return None;
    }
    if int_lt(&t, &zero) {
        let mi = int_from_nat(m);
        proof {
            if m@ == 0 {
                assert(false) by (nonlinear_arith)
                    requires
                        t@ * a@ + s * 0 == 1,
                        t@ < 0,
                        a@ >= 0,
                ;
            }
            lemma_small_div_converse(-t@, m@ as int);
            lemma_basic_div(-t@, m@ as int);
            assert(trunc_div(t@, mi@) == 0);
            assert(trunc_rem(t@, mi@) == t@) by (nonlinear_arith)
                requires
                    trunc_rem(t@, mi@) == t@ - mi@ * trunc_div(t@, mi@),
                    trunc_div(t@, mi@) == 0,
            ;
            assert((t@ + m@) * a@ + (s - a@) * m@ == 1) by (nonlinear_arith)
                requires
                    t@ * a@ + s * m@ == 1,
            ;
            lemma_bezout_gives_inverse(t@ + m@, s - a@, a@, m@);
        }
        t = int_add(&int_rem(&t, &mi), &mi);
    } else {
        proof {
            if m@ == 0 {
                assert(t@ == 1 && a@ == 1) by (nonlinear_arith)
                    requires
                        t@ * a@ + s * 0 == 1,
                        t@ >= 0,
                        a@ >= 0,
                ;
            } else {
                lemma_bezout_gives_inverse(t@, s, a@, m@);
                if t@ != 0 {
                    assert(abs(t@) * 1 == abs(t@)) by (nonlinear_arith);
                }
            }
        }
    }
    let res = int_to_nat(&t);
    proof {
        lemma_mod_inverse_is(res.unwrap()@, a@, m@);
    }
    res
}

impl Rsa {
    /// The key pair is the one that the primes `p` and `q` give: both moduli
    /// are `p * q`, the public exponent is the one that goes with
    /// `(p - 1) * (q - 1)`, and the secret exponent is its inverse modulo that.
    pub open spec fn made_from(&self, p: nat, q: nat) -> bool {
        let phi = ((p - 1) * (q - 1)) as nat;
        &&& p >= 1
        &&& q >= 1
        &&& self.pk.n@ == p * q
        &&& self.sk.n@ == p * q
        &&& self.pk.e@ == public_exponent(phi)
        &&& is_inverse_mod(self.sk.d@, self.pk.e@, phi)
    }

    /// A key pair from two primes of exactly `l` binary digits each, drawn at
    /// random, so that the modulus has `2 * l - 1` or `2 * l` binary digits.
    ///
    /// `None` where the search for one of the primes gave up, or where the
    /// public exponent has no inverse modulo `(p - 1) * (q - 1)`. For at most 2
    /// binary digits both primes are 3, whatever is drawn, and the key pair is
    /// `n = 9`, `e = 3`, `d = 3`.
    #[allow(non_snake_case)]
    pub fn KGen(l: usize) -> (r: Option<Self>)
        ensures
            r matches Some(k) ==> exists|p: nat, q: nat|
                #![trigger k.made_from(p, q)]
                k.made_from(p, q) && plausible_prime(p, l as nat) && plausible_prime(q, l as nat) && (
                k.pk.e@ * k.sk.d@) % (((p - 1) * (q - 1)) as nat) == 1,
            l <= 2 ==> (r matches Some(k) && k.made_from(3, 3) && k.pk.n@ == 9 && k.sk.n@ == 9
                && k.pk.e@ == 3 && k.sk.d@ == 3),
            l >= 2 ==> (r matches Some(k) ==> pow2((2 * (l - 1)) as nat) <= k.pk.n@ < pow2(
                (2 * l) as nat,
            )),
    {
        let p = match Self::generate_prime(l) {
            Some(p) => p,
            None => {
                return None;
            },
        };
        let q = match Self::generate_prime(l) {
            Some(q) => q,
            None => {
                return None;
            },
        };
        proof {
            if l <= 2 {
                // Both primes are 3: the exponent 3 has the inverse 3 modulo 4.
                assert((3 - 1) * (3 - 1) == 4);
                lemma_bezout_gives_inverse(3, -2, 3, 4);
            }
        }
        let r = Self::from_primes(&p, &q);
        proof {
            if r is Some {
                lemma_exponents_inverse(r.unwrap(), p@, q@);
                if l >= 2 {
                    lemma2_to64();
                    if l > 3 {
                        lemma_pow2_strictly_increases(2, (l - 1) as nat);
                    }
                    lemma_product_of_sized(p@, q@, l as nat);
                }
            }
        }
        r
    }

    /// The key pair that the primes `p` and `q` give, where there is one: `p`
    /// and `q` are at least 1 and the public exponent has an inverse modulo
    /// `(p - 1) * (q - 1)`.
    pub fn from_primes(p: &Natural, q: &Natural) -> (r: Option<Self>)
        ensures
            r is Some <==> p@ >= 1 && q@ >= 1 && coprime(
                public_exponent(((p@ - 1) * (q@ - 1)) as nat),
                ((p@ - 1) * (q@ - 1)) as nat,
            ),
            r matches Some(k) ==> k.made_from(p@, q@),
    {
        if p.is_zero() || q.is_zero() {
            return None;
        }
        let one = Natural::from_u32(1);
        let n = nat_mul(p, q);
        let phi = nat_mul(&nat_sub(p, &one), &nat_sub(q, &one));
        let mut e = Natural::from_u32(65537);
        if !nat_lt(&e, &phi) {
            e = Natural::from_u32(3);
        }
        match modinv(&e, &phi) {
            Some(d) => {
                let pk = RsaPublicKey { n: n.clone(), e };
                let sk = RsaSecretKey { n, d };
                Some(Rsa { pk, sk })
            },
            None => None,
        }
    }

    /// Signs the SHA-256 digest of `message`, read as a big-endian number `y`:
    /// the signature is `y^d mod n` in its shortest big-endian form. `None`
    /// where `y` is not below the modulus, which a modulus of at least `2^256`
    /// rules out.
    pub fn sign(&self, message: &[u8]) -> (r: Option<Vec<u8>>)
        ensures
            r is Some <==> be_value(sha256(message@)) < self.sk.n@,
            r matches Some(sigma) ==> sigma@ == be_bytes(
                signature_value(be_value(sha256(message@)), self.sk.d@, self.sk.n@),
            ) && sigma@.len() <= be_bytes(self.sk.n@).len(),
            self.sk.n@ >= pow2(256) ==> r is Some,
    {
        let hash = sha256_digest(message);
        proof {
            // A digest of 32 bytes stands for a number below 2^256.
            lemma_be_value_bound(hash@);
        }
        self.sign_digest(hash.as_slice())
    }

    /// Signs a digest, read as a big-endian number `y`: the signature is
    /// `y^d mod n` in its shortest big-endian form. `None` where `y` is not
    /// below the modulus.
    pub fn sign_digest(&self, digest: &[u8]) -> (r: Option<Vec<u8>>)
        ensures
            r is Some <==> be_value(digest@) < self.sk.n@,
            r matches Some(sigma) ==> sigma@ == be_bytes(
                signature_value(be_value(digest@), self.sk.d@, self.sk.n@),
            ) && sigma@.len() <= be_bytes(self.sk.n@).len(),
    {
        let y = Natural::from_bytes_be(digest);
        if !nat_lt(&y, &self.sk.n) {
            return None;
        }
        let sigma = nat_modpow(&y, &self.sk.d, &self.sk.n);
        proof {
            lemma_mod_bound(pow(y@ as int, self.sk.d@), self.sk.n@ as int);
            lemma_be_bytes_monotone(sigma@, self.sk.n@);
        }
        Some(sigma.to_bytes_be())
    }

    /// Whether `sigma_bytes` is a signature of `message` under the public key:
    /// `sigma^e mod n` is the SHA-256 digest of `message` read as a number.
    pub fn verify(&self, message: &[u8], sigma_bytes: &[u8]) -> (r: bool)
        ensures
            r == signature_fits(sigma_bytes@, be_value(sha256(message@)), self.pk.e@, self.pk.n@),
    {
        let hash = sha256_digest(message);
        self.verify_digest(hash.as_slice(), sigma_bytes)
    }

    /// Whether `sigma_bytes` is a signature of a digest under the public key:
    /// `sigma^e mod n` is the digest read as a number.
    pub fn verify_digest(&self, digest: &[u8], sigma_bytes: &[u8]) -> (r: bool)
        ensures
            r == signature_fits(sigma_bytes@, be_value(digest@), self.pk.e@, self.pk.n@),
    {
        if self.pk.n.is_zero() {
            return false;
        }
        let sigma = Natural::from_bytes_be(sigma_bytes);
        let y_prime = nat_modpow(&sigma, &self.pk.e, &self.pk.n);
        let y = Natural::from_bytes_be(digest);
        nat_eq(&y_prime, &y)
    }

    /// Draws odd candidates of exactly `bits` binary digits, none below 3,
    /// until one passes the primality test. `None` after `PRIME_SEARCH_LIMIT` candidates.
    /// For at most 2 binary digits every candidate is 3, so the search ends
    /// with 3 at once.
    fn generate_prime(bits: usize) -> (r: Option<Natural>)
        ensures
            r matches Some(p) ==> plausible_prime(p@, bits as nat),
            bits <= 2 ==> (r matches Some(p) && p@ == 3),
    {
        let mut attempts: u64 = 0;
        while attempts < PRIME_SEARCH_LIMIT
            invariant
                bits <= 2 ==> attempts == 0,
            decreases PRIME_SEARCH_LIMIT - attempts,
        {
            let raw = nat_random_bits(bits as u64);
            let ghost drawn = raw@;
            let candidate = Self::candidate_from(raw, bits);
            proof {
                lemma2_to64();
                if bits > 0 {
                    lemma_with_highest_bit(drawn, bits as nat);
                }
                // Below 4 every number drawn gives the candidate 3, which the test accepts.
                assert(bits <= 2 ==> candidate@ == 3);
            }
            if Self::is_probably_prime(&candidate) {
                return Some(candidate);
            }
            attempts += 1;
        }
        None
    }

    /// The candidate for a prime of `bits` binary digits that is made from a
    /// number drawn at random: its highest digit set, at least 3, and odd.
    pub fn candidate_from(raw: Natural, bits: usize) -> (candidate: Natural)
        ensures
            candidate@ == odd_candidate(raw@, bits as nat),
    {
        let mut candidate = raw;
        if bits >= 1 {
            candidate = nat_set_bit(&candidate, (bits - 1) as u64, true);
        }
        let three = Natural::from_u32(3);
        if nat_lt(&candidate, &three) {
            candidate = three;
        }
        proof {
            lemma2_to64();
        }
        if !nat_bit(&candidate, 0) {
            candidate = nat_add(&candidate, &Natural::from_u32(1));
        }
        candidate
    }

    /// The Miller-Rabin test of ten rounds.
    fn is_probably_prime(n: &Natural) -> (r: bool)
        ensures
            n@ <= 1 ==> !r,
            2 <= n@ <= 3 ==> r,
            n@ > 3 && n@ % 2 == 0 ==> !r,
            n@ > 3 && n@ % 2 == 1 ==> exists|drawn: Seq<nat>|
                #![trigger test_accepts(n@, drawn)]
                drawn.len() == 10 && (forall|i: int|
                    0 <= i < 10 ==> 2 <= #[trigger] drawn[i] < n@ - 1) && r == test_accepts(
                    n@,
                    drawn,
                ),
            n@ > 3 && n@ % 2 == 1 && r ==> exists|a: nat|
                2 <= a < n@ - 1 && #[trigger] passes_for(n@, a),
            n@ > 3 && n@ % 2 == 1 && !r ==> exists|a: nat|
                2 <= a < n@ - 1 && !#[trigger] passes_for(n@, a),
            is_prime(n@) ==> r,
    {
        crate::primality::is_probably_prime(n)
    }
}

/// The product of two numbers of exactly `bits` binary digits has `2 * bits - 1`
/// or `2 * bits` binary digits.
pub proof fn lemma_product_of_sized(p: nat, q: nat, bits: nat)
    requires
        bits >= 1,
        pow2((bits - 1) as nat) <= p < pow2(bits),
        pow2((bits - 1) as nat) <= q < pow2(bits),
    ensures
        pow2((2 * (bits - 1)) as nat) <= p * q < pow2(2 * bits),
{
    let low = pow2((bits - 1) as nat);
    let high = pow2(bits);
    vstd::arithmetic::power2::lemma_pow2_adds((bits - 1) as nat, (bits - 1) as nat);
    vstd::arithmetic::power2::lemma_pow2_adds(bits, bits);
    assert(low * low <= p * q < high * high) by (nonlinear_arith)
        requires
            low <= p < high,
            low <= q < high,
            low >= 0,
    ;
}

/// In a key pair made from two numbers of at least 3, the product of the two
/// exponents leaves the remainder 1 modulo `(p - 1) * (q - 1)`.
pub proof fn lemma_exponents_inverse(k: Rsa, p: nat, q: nat)
    requires
        k.made_from(p, q),
        p >= 3,
        q >= 3,
    ensures
        (k.pk.e@ * k.sk.d@) % (((p - 1) * (q - 1)) as nat) == 1,
{
    let phi = ((p - 1) * (q - 1)) as nat;
    assert((p - 1) * (q - 1) >= 4) by (nonlinear_arith)
        requires
            p >= 3,
            q >= 3,
    ;
    lemma_small_mod(1, phi);
    assert(k.pk.e@ * k.sk.d@ == k.sk.d@ * k.pk.e@) by (nonlinear_arith);
}

/// Under a key pair made from two different primes, the number that signs a
/// digest value below the modulus is taken back to that value by the public
/// exponent.
pub proof fn lemma_signature_opens(k: Rsa, p: nat, q: nat, y: nat)
    requires
        is_prime(p),
        is_prime(q),
        p != q,
        k.made_from(p, q),
        y < k.sk.n@,
    ensures
        k.pk.n@ != 0,
        pow(signature_value(y, k.sk.d@, k.sk.n@) as int, k.pk.e@) % (k.pk.n@ as int) == y,
{
    let n = k.sk.n@ as int;
    let d = k.sk.d@;
    let e = k.pk.e@;
    let phi = ((p - 1) * (q - 1)) as nat;
    assert((p - 1) * (q - 1) >= 2 && p * q > 0) by (nonlinear_arith)
        requires
            p >= 2,
            q >= 2,
            p != q,
    ;
    lemma_small_mod(1, phi);
    lemma_mod_bound(pow(y as int, d), n);
    lemma_pow_mod_noop(pow(y as int, d), e, n);
    lemma_pow_multiplies(y as int, d, e);
    lemma_rsa_exponent(p, q, d * e, y);
}

/// Every signature that `sign` returns is accepted by `verify`: under a key
/// pair made from two different primes, for every message whose digest value
/// is below the modulus, the signature of the message fits the message.
pub proof fn lemma_sign_then_verify(k: Rsa, p: nat, q: nat, message: Seq<u8>)
    requires
        is_prime(p),
        is_prime(q),
        p != q,
        k.made_from(p, q),
        be_value(sha256(message)) < k.sk.n@,
    ensures
        signature_fits(
            be_bytes(signature_value(be_value(sha256(message)), k.sk.d@, k.sk.n@)),
            be_value(sha256(message)),
            k.pk.e@,
            k.pk.n@,
        ),
{
    let y = be_value(sha256(message));
    lemma_signature_opens(k, p, q, y);
    lemma_be_value_digits(signature_value(y, k.sk.d@, k.sk.n@));
}

/// A signature is rejected for every message with another digest: under a key
/// pair made from two different primes, the signature of a message whose
/// digest value is below the modulus does not fit a message whose digest
/// differs.
pub proof fn lemma_other_message_rejected(
    k: Rsa,
    p: nat,
    q: nat,
    message: Seq<u8>,
    other: Seq<u8>,
)
    requires
        is_prime(p),
        is_prime(q),
        p != q,
        k.made_from(p, q),
        be_value(sha256(message)) < k.sk.n@,
        sha256(other) != sha256(message),
        sha256(other).len() == sha256(message).len(),
    ensures
        !signature_fits(
            be_bytes(signature_value(be_value(sha256(message)), k.sk.d@, k.sk.n@)),
            be_value(sha256(other)),
            k.pk.e@,
            k.pk.n@,
        ),
{
    let y = be_value(sha256(message));
    lemma_signature_opens(k, p, q, y);
    lemma_be_value_digits(signature_value(y, k.sk.d@, k.sk.n@));
    if be_value(sha256(other)) == y {
        lemma_be_value_injective(sha256(other), sha256(message));
    }
}

} // verus!
