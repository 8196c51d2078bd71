//! The Rabin cryptosystem: encryption is squaring modulo `n = p * q`, and
//! decryption hands out the four square roots without choosing among them.

use crate::bignum::{
    be_bytes, be_value, nat_add, nat_lt, nat_modpow, nat_mul, nat_random_bits, nat_rem, nat_shr,
    nat_set_bit, nat_sub, Natural,
};
use crate::numtheory::{
    coprime, divides, is_inverse_mod, is_prime, lemma_coprime_symmetric, mod_inverse,
};
use crate::primality::{passes_for, test_accepts};
use crate::primes::{
    lemma_crt_unique, lemma_distinct_primes_coprime, lemma_fermat, lemma_inverse_exists,
    lemma_pow_step, lemma_square_roots,
};
use vstd::arithmetic::div_mod::{
    lemma_mod_bound, lemma_mod_mod, lemma_mod_multiples_vanish, lemma_mul_mod_noop,
    lemma_mul_mod_noop_left, lemma_mul_mod_noop_right, lemma_small_mod,
};
use vstd::arithmetic::power::{
    lemma_pow_adds, lemma_pow_mod_noop, lemma_pow_multiplies, lemma_square_is_pow2, pow,
};
use vstd::arithmetic::power2::{lemma2_to64, lemma_pow2_unfold, pow2};
use vstd::prelude::*;

verus! {

/// How many candidates the search for a prime draws before it gives up.
pub const PRIME_SEARCH_LIMIT: u64 = 0xffff_ffff_ffff_ffff;

/// The public half of a Rabin key pair: the modulus.
pub struct RabinPublicKey {
    pub n: Natural,
}

/// The secret half of a Rabin key pair: the two primes.
pub struct RabinSecretKey {
    pub p: Natural,
    pub q: Natural,
}

/// A Rabin key pair.
pub struct Rabin {
    pub vk: RabinPublicKey,
    pub sk: RabinSecretKey,
}

/// What the search for a prime of `bits` binary digits hands out: a number
/// that leaves 3 modulo 4, below `2^bits` (3 itself for small `bits`), which
/// passed the primality test.
pub open spec fn plausible_prime_3mod4(p: nat, bits: nat) -> bool {
    &&& p % 4 == 3
    &&& p == 3 || p < pow2(bits)
    &&& p > 3 ==> exists|a: nat| 2 <= a < p - 1 && #[trigger] passes_for(p, a)
}

/// The candidate for a prime that is made from a number drawn at random: the
/// number, or 3 where it is below 3, with its two lowest binary digits set.
pub open spec fn candidate_3mod4(raw: nat) -> nat {
    let least = if raw < 3 {
        3
    } else {
        raw
    };
    (least - least % 4 + 3) as nat
}

/// For a prime `p` that leaves 3 modulo 4, a square root of `c` modulo `p`
/// where `c` has one: `c^((p + 1) / 4) mod p`.
pub open spec fn sqrt_candidate(c: nat, p: nat) -> nat {
    (pow(c as int, (p + 1) / 4) % (p as int)) as nat
}

/// `-a mod p` for `a` not above `p`.
pub open spec fn negate_mod(a: nat, p: nat) -> nat {
    ((p - a) % (p as int)) as nat
}

/// The number below `n` put together from `a` modulo `p` and `b` modulo `q`:
/// `(a * q * q^-1 + b * p * p^-1) mod n`, with `q^-1` taken modulo `p` and
/// `p^-1` modulo `q`.
pub open spec fn crt_value(a: nat, p: nat, b: nat, q: nat, n: nat) -> nat {
    (a * q * mod_inverse(q, p) + b * p * mod_inverse(p, q)) % n
}

/// The four candidates for the plaintext of `c`, in the order in which
/// decryption returns them: from the roots `(a, b)`, `(a, -b)`, `(-a, b)` and
/// `(-a, -b)` modulo `p` and `q`.
pub open spec fn rabin_roots(p: nat, q: nat, n: nat, c: nat) -> Seq<nat> {
    let a = sqrt_candidate(c, p);
    let b = sqrt_candidate(c, q);
    seq![
        crt_value(a, p, b, q, n),
        crt_value(a, p, negate_mod(b, q), q, n),
        crt_value(negate_mod(a, p), p, b, q, n),
        crt_value(negate_mod(a, p), p, negate_mod(b, q), q, n),
    ]
}

impl Rabin {
    /// Decryption needs the inverses of `p` and `q` modulo each other, and
    /// non-zero moduli.
    pub open spec fn can_decrypt(&self) -> bool {
        &&& self.sk.p@ > 0
        &&& self.sk.q@ > 0
        &&& self.vk.n@ > 0
        &&& coprime(self.sk.p@, self.sk.q@)
    }

    /// A key pair from two primes of `l` binary digits each, drawn at random
    /// among the numbers that leave 3 modulo 4. `None` where the search for
    /// one of them gave up. For at most 2 binary digits both primes are 3,
    /// whatever is drawn, and the modulus is 9.
    #[allow(non_snake_case)]
    pub fn KGen(l: usize) -> (r: Option<Self>)
        ensures
            r matches Some(k) ==> {
                &&& k.vk.n@ == k.sk.p@ * k.sk.q@
                &&& plausible_prime_3mod4(k.sk.p@, l as nat)
                &&& plausible_prime_3mod4(k.sk.q@, l as nat)
            },
            l <= 2 ==> (r matches Some(k) && k.sk.p@ == 3 && k.sk.q@ == 3 && k.vk.n@ == 9),
    {
        let p = match Self::generate_prime_3mod4(l) {
            Some(p) => p,
            None => {
                return None;
            },
        };
        let q = match Self::generate_prime_3mod4(l) {
            Some(q) => q,
            None => {
                return None;
            },
        };
        let n = nat_mul(&p, &q);
        let vk = RabinPublicKey { n };
        let sk = RabinSecretKey { p, q };
        Some(Rabin { vk, sk })
    }

    /// Encrypts `message`, read as a big-endian number `m`: the ciphertext is
    /// `m * m mod n` in its shortest big-endian form. `None` where `m` is not
    /// below the modulus.
    #[allow(non_snake_case)]
    pub fn Enc(&self, message: &[u8]) -> (r: Option<Vec<u8>>)
        ensures
            r is Some <==> be_value(message@) < self.vk.n@,
            r matches Some(c) ==> c@ == be_bytes(
                (be_value(message@) * be_value(message@)) % self.vk.n@,
            ),
    {
        let m = Natural::from_bytes_be(message);
        if !nat_lt(&m, &self.vk.n) {
            return None;
        }
        let c = nat_modpow(&m, &Natural::from_u32(2), &self.vk.n);
        proof {
            lemma_square_is_pow2(m@ as int);
        }
        Some(c.to_bytes_be())
    }

    /// Decrypts the ciphertext `message`, read as a big-endian number `c`: the
    /// four candidates of `rabin_roots`, each in its shortest big-endian form.
    #[allow(non_snake_case)]
    pub fn Dec(&self, message: &[u8]) -> (r: [Vec<u8>; 4])
        requires
            self.can_decrypt(),
        ensures
            forall|i: int|
                0 <= i < 4 ==> (#[trigger] r@[i])@ == be_bytes(
                    rabin_roots(self.sk.p@, self.sk.q@, self.vk.n@, be_value(message@))[i],
                ),
    {
        let p = &self.sk.p;
        let q = &self.sk.q;
        let c = Natural::from_bytes_be(message);
        let one = Natural::from_u32(1);
        proof {
            lemma2_to64();
        }
        let exp_p = nat_shr(&nat_add(p, &one), 2);
        let a = nat_modpow(&c, &exp_p, p);
        let a1 = a.clone();
        let a2 = nat_rem(&nat_sub(p, &a), p);

        let exp_q = nat_shr(&nat_add(q, &one), 2);
        let b = nat_modpow(&c, &exp_q, q);
        let b1 = b.clone();
        let b2 = nat_rem(&nat_sub(q, &b), q);

        let m11 = crt(&a1, p, &b1, q, &self.vk.n);
        let m12 = crt(&a1, p, &b2, q, &self.vk.n);
        let m21 = crt(&a2, p, &b1, q, &self.vk.n);
        let m22 = crt(&a2, p, &b2, q, &self.vk.n);

        [m11.to_bytes_be(), m12.to_bytes_be(), m21.to_bytes_be(), m22.to_bytes_be()]
    }

    /// Draws candidates of `bits` binary digits, none below 3, sets their two
    /// lowest binary digits, and returns the first that passes the primality
    /// test. `None` after `PRIME_SEARCH_LIMIT` candidates. For at most 2 binary
    /// digits every candidate is 3, so the search ends with 3 at once.
    fn generate_prime_3mod4(bits: usize) -> (r: Option<Natural>)
        ensures
            r matches Some(p) ==> plausible_prime_3mod4(p@, bits as nat),
            bits <= 2 ==> (r matches Some(p) && p@ == 3),
    {
        let mut attempts: u64 = 0;
        while attempts < PRIME_SEARCH_LIMIT
            invariant
                bits <= 2 ==> attempts == 0,
            decreases PRIME_SEARCH_LIMIT - attempts,
        {
            let candidate = Self::candidate_from(nat_random_bits(bits as u64));
            proof {
                lemma2_to64();
                if bits > 1 {
                    lemma_pow2_unfold(bits as nat);
                    lemma_pow2_unfold((bits - 1) as nat);
                }
                // Below 4 every number drawn gives the candidate 3, which the test accepts.
                assert(bits <= 2 ==> candidate@ == 3);
            }
            if Self::is_probably_prime(&candidate) {
                return Some(candidate);
            }
            attempts += 1;
        }
        None
    }

    /// The candidate for a prime that is made from a number drawn at random:
    /// at least 3, with its two lowest binary digits set.
    pub fn candidate_from(raw: Natural) -> (candidate: Natural)
        ensures
            candidate@ == candidate_3mod4(raw@),
    {
        let mut candidate = raw;
        let three = Natural::from_u32(3);
        if nat_lt(&candidate, &three) {
            candidate = three;
        }
        proof {
            lemma2_to64();
        }
        candidate = nat_set_bit(&candidate, 0, true);
        candidate = nat_set_bit(&candidate, 1, true);
        candidate
    }

    /// The Miller-Rabin test of ten rounds.
    fn is_probably_prime(n: &Natural) -> (r: bool)
        ensures
            n@ <= 1 ==> !r,
            2 <= n@ <= 3 ==> r,
            n@ > 3 && n@ % 2 == 0 ==> !r,
            n@ > 3 && n@ % 2 == 1 ==> exists|drawn: Seq<nat>|
                #![trigger test_accepts(n@, drawn)]
                drawn.len() == 10 && (forall|i: int|
                    0 <= i < 10 ==> 2 <= #[trigger] drawn[i] < n@ - 1) && r == test_accepts(
                    n@,
                    drawn,
                ),
            n@ > 3 && n@ % 2 == 1 && r ==> exists|a: nat|
                2 <= a < n@ - 1 && #[trigger] passes_for(n@, a),
            n@ > 3 && n@ % 2 == 1 && !r ==> exists|a: nat|
                2 <= a < n@ - 1 && !#[trigger] passes_for(n@, a),
            is_prime(n@) ==> r,
    {
        crate::primality::is_probably_prime(n)
    }
}

/// The inverse of `a` modulo `m`, as `rsa::modinv` computes it.
pub fn modinv(a: &Natural, m: &Natural) -> (res: Option<Natural>)
    ensures
        res is Some <==> coprime(a@, m@),
        res matches Some(x) ==> is_inverse_mod(x@, a@, m@) && x@ == mod_inverse(a@, m@),
{
    crate::rsa::modinv(a, m)
}

/// The number below `n` that the Chinese remainder theorem puts together from
/// `a` modulo `p` and `b` modulo `q`.
fn crt(a: &Natural, p: &Natural, b: &Natural, q: &Natural, n: &Natural) -> (r: Natural)
    requires
        n@ > 0,
        coprime(p@, q@),
    ensures
        r@ == crt_value(a@, p@, b@, q@, n@),
{
    proof {
        lemma_coprime_symmetric(p@, q@);
    }
    let q_inv = modinv(q, p).unwrap();
    let p_inv = modinv(p, q).unwrap();

    let term1 = nat_mul(&nat_mul(a, q), &q_inv);
    let term2 = nat_mul(&nat_mul(b, p), &p_inv);
    nat_rem(&nat_add(&term1, &term2), n)
}

/// For a prime `p` that leaves 3 modulo 4 and a number `c` that is the square
/// of `m` modulo `p`, the square-root candidate or its negative is `m` modulo `p`.
pub proof fn lemma_sqrt_candidate(p: nat, c: nat, m: nat)
    requires
        is_prime(p),
        p % 4 == 3,
        c % p == (m * m) % p,
    ensures
        sqrt_candidate(c, p) < p,
        negate_mod(sqrt_candidate(c, p), p) < p,
        sqrt_candidate(c, p) == m % p || negate_mod(sqrt_candidate(c, p), p) == m % p,
{
    let pi = p as int;
    let ci = c as int;
    let mi = m as int;
    let e4 = (p + 1) / 4;
    let h = ((p - 1) / 2) as nat;
    let full = pow(ci, e4);
    lemma_mod_bound(full, pi);
    let a = sqrt_candidate(c, p);
    lemma_mod_bound(p - a, pi);
    let mp = m % p;
    lemma_mod_bound(mi, pi);
    lemma_mul_mod_noop(mi, mi, pi);
    if divides(p, m) {
        assert(0int * 0int == 0);
        lemma_small_mod(0, p);
        assert(ci % pi == 0);
        lemma_pow_step(ci, e4);
        let rest = pow(ci, (e4 - 1) as nat);
        lemma_mul_mod_noop_left(ci, rest, pi);
        assert(0 * rest == 0) by (nonlinear_arith);
        assert(a == 0);
    } else {
        lemma_mul_mod_noop(full, full, pi);
        lemma_pow_adds(ci, e4, e4);
        assert(e4 + e4 == h + 1);
        lemma_pow_step(ci, h + 1);
        let half = pow(ci, h);
        assert(full * full == ci * half);
        lemma_pow_mod_noop(ci, h, pi);
        lemma_pow_mod_noop(mi * mi, h, pi);
        lemma_square_is_pow2(mi);
        lemma_pow_multiplies(mi, 2, h);
        assert(2 * h == p - 1);
        lemma_fermat(p, m);
        assert(half % pi == 1);
        lemma_mul_mod_noop_right(ci, half, pi);
        assert(ci * 1 == ci) by (nonlinear_arith);
        assert((a * a) % p == (mp * mp) % p);
        lemma_square_roots(p, a, mp);
        if a + mp == p {
            lemma_small_mod(mp, p);
        }
    }
}

/// The number put together from `a` modulo `p` and `b` modulo `q` is below
/// `p * q` and leaves `a` modulo `p` and `b` modulo `q`.
pub proof fn lemma_crt_value(a: nat, p: nat, b: nat, q: nat)
    requires
        p > 0,
        q > 0,
        coprime(p, q),
        a < p,
        b < q,
    ensures
        crt_value(a, p, b, q, p * q) < p * q,
        crt_value(a, p, b, q, p * q) % p == a,
        crt_value(a, p, b, q, p * q) % q == b,
{
    lemma_coprime_symmetric(p, q);
    lemma_inverse_exists(q, p);
    lemma_inverse_exists(p, q);
    let q_inv = mod_inverse(q, p);
    let p_inv = mod_inverse(p, q);
    let t = a * q * q_inv + b * p * p_inv;
    assert(p * q > 0 && q * p == p * q) by (nonlinear_arith)
        requires
            p > 0,
            q > 0,
    ;
    lemma_mod_bound(t as int, (p * q) as int);
    lemma_mod_mod(t as int, p as int, q as int);
    lemma_mod_mod(t as int, q as int, p as int);
    lemma_crt_term(a, p, q, q_inv, b * p_inv);
    lemma_crt_term(b, q, p, p_inv, a * q_inv);
    assert(t == a * (q_inv * q) + p * (b * p_inv) && t == b * (p_inv * p) + q * (a * q_inv))
        by (nonlinear_arith)
        requires
            t == a * q * q_inv + b * p * p_inv,
    ;
}

/// `a * (inv * q) + p * k` leaves `a` modulo `p`, where `inv` is the inverse
/// of `q` modulo `p` and `a` is below `p`.
proof fn lemma_crt_term(a: nat, p: nat, q: nat, inv: nat, k: nat)
    requires
        p > 0,
        a < p,
        is_inverse_mod(inv, q, p),
    ensures
        (a * (inv * q) + p * k) % p == a,
{
    let pi = p as int;
    let x = (a * (inv * q)) as int;
    lemma_mod_multiples_vanish(k as int, x, pi);
    lemma_mul_mod_noop_right(a as int, (inv * q) as int, pi);
    lemma_small_mod(a, p);
    if p == 1 {
    } else {
        lemma_small_mod(1, p);
        assert(a * 1 == a) by (nonlinear_arith);
    }
}

/// Decryption finds the plaintext: for two different primes `p` and `q` that
/// leave 3 modulo 4 and every plaintext `m` below `p * q`, one of the four
/// candidates for the ciphertext `m * m mod p * q` is `m`.
pub proof fn lemma_decrypt_finds_plaintext(p: nat, q: nat, m: nat)
    requires
        is_prime(p),
        is_prime(q),
        p % 4 == 3,
        q % 4 == 3,
        p != q,
        m < p * q,
    ensures
        exists|i: int| 0 <= i < 4 && #[trigger] rabin_roots(p, q, p * q, (m * m) % (p * q))[i] == m,
{
    let n = p * q;
    let c = (m * m) % n;
    assert(q * p == p * q) by (nonlinear_arith);
    lemma_mod_mod((m * m) as int, p as int, q as int);
    lemma_mod_mod((m * m) as int, q as int, p as int);
    lemma_sqrt_candidate(p, c, m);
    lemma_sqrt_candidate(q, c, m);
    lemma_distinct_primes_coprime(p, q);
    let a = sqrt_candidate(c, p);
    let b = sqrt_candidate(c, q);
    let a_fit = if a == m % p {
        a
    } else {
        negate_mod(a, p)
    };
    let b_fit = if b == m % q {
        b
    } else {
        negate_mod(b, q)
    };
    lemma_crt_value(a_fit, p, b_fit, q);
    lemma_crt_unique(crt_value(a_fit, p, b_fit, q, n), m, p, q);
    let roots = rabin_roots(p, q, n, c);
    let i: int = if a == m % p {
        if b == m % q {
            0
        } else {
            1
        }
    } else {
        if b == m % q {
            2
        } else {
            3
        }
    };
    assert(roots[i] == m);
}

/// A number below `p` and its negative have the same square modulo `p`.
proof fn lemma_negate_square(a: nat, p: nat)
    requires
        p > 0,
        a < p,
    ensures
        negate_mod(a, p) < p,
        (negate_mod(a, p) * negate_mod(a, p)) % p == (a * a) % p,
{
    let pi = p as int;
    lemma_mod_bound(p - a, pi);
    if a == 0 {
        vstd::arithmetic::div_mod::lemma_mod_self_0(pi);
    } else {
        lemma_small_mod((p - a) as nat, p);
        let k = p - 2 * a;
        lemma_mod_multiples_vanish(k, (a * a) as int, pi);
        assert((p - a) * (p - a) == pi * k + a * a) by (nonlinear_arith)
            requires
                k == p - 2 * a,
                pi == p,
        ;
    }
}

/// The number put together from square roots of `c` modulo `p` and modulo `q`
/// is a square root of `c` modulo `p * q`.
proof fn lemma_root_squares(a: nat, p: nat, b: nat, q: nat, c: nat)
    requires
        p > 0,
        q > 0,
        coprime(p, q),
        a < p,
        b < q,
        c < p * q,
        (a * a) % p == c % p,
        (b * b) % q == c % q,
    ensures
        (crt_value(a, p, b, q, p * q) * crt_value(a, p, b, q, p * q)) % (p * q) == c,
{
    let n = p * q;
    let root = crt_value(a, p, b, q, n);
    lemma_crt_value(a, p, b, q);
    let square = (root * root) as int;
    lemma_mul_mod_noop(root as int, root as int, p as int);
    lemma_mul_mod_noop(root as int, root as int, q as int);
    assert(q * p == p * q) by (nonlinear_arith);
    lemma_mod_mod(square, p as int, q as int);
    lemma_mod_mod(square, q as int, p as int);
    lemma_mod_bound(square, n as int);
    lemma_crt_unique((square % (n as int)) as nat, c, p, q);
}

/// Every candidate is a square root of the ciphertext: for two different
/// primes `p` and `q` that leave 3 modulo 4 and every plaintext `m` below
/// `p * q`, each of the four candidates for the ciphertext `m * m mod p * q`
/// squares to that ciphertext modulo `p * q`.
pub proof fn lemma_candidates_are_roots(p: nat, q: nat, m: nat)
    requires
        is_prime(p),
        is_prime(q),
        p % 4 == 3,
        q % 4 == 3,
        p != q,
        m < p * q,
    ensures
        forall|i: int|
            0 <= i < 4 ==> {
                let root = #[trigger] rabin_roots(p, q, p * q, (m * m) % (p * q))[i];
                (root * root) % (p * q) == (m * m) % (p * q)
            },
{
    let n = p * q;
    let c = (m * m) % n;
    assert(q * p == p * q && n > 0) by (nonlinear_arith)
        requires
            p >= 2,
            q >= 2,
            n == p * q,
    ;
    lemma_mod_bound((m * m) as int, n as int);
    lemma_mod_mod((m * m) as int, p as int, q as int);
    lemma_mod_mod((m * m) as int, q as int, p as int);
    lemma_sqrt_candidate(p, c, m);
    lemma_sqrt_candidate(q, c, m);
    lemma_distinct_primes_coprime(p, q);
    let a = sqrt_candidate(c, p);
    let b = sqrt_candidate(c, q);
    lemma_negate_square(a, p);
    lemma_negate_square(b, q);
    lemma_mul_mod_noop(m as int, m as int, p as int);
    lemma_mul_mod_noop(m as int, m as int, q as int);
    assert((a * a) % p == c % p);
    assert((b * b) % q == c % q);
    lemma_root_squares(a, p, b, q, c);
    lemma_root_squares(a, p, negate_mod(b, q), q, c);
    lemma_root_squares(negate_mod(a, p), p, b, q, c);
    lemma_root_squares(negate_mod(a, p), p, negate_mod(b, q), q, c);
}

/// Decryption is a function of the key and of the number that the ciphertext
/// stands for: the same key and ciphertexts of the same number give the same
/// four candidates in the same order.
pub proof fn lemma_decrypt_is_function(first: Rabin, second: Rabin, c1: Seq<u8>, c2: Seq<u8>)
    requires
        first.sk.p@ == second.sk.p@,
        first.sk.q@ == second.sk.q@,
        first.vk.n@ == second.vk.n@,
        be_value(c1) == be_value(c2),
    ensures
        rabin_roots(first.sk.p@, first.sk.q@, first.vk.n@, be_value(c1)) == rabin_roots(
            second.sk.p@,
            second.sk.q@,
            second.vk.n@,
            be_value(c2),
        ),
{
}

} // verus!
