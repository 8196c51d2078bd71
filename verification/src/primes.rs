//! What holds of prime numbers: Euclid's lemma, Fermat's little theorem and
//! the Chinese remainder theorem, as far as the key schemes need them.

use crate::numtheory::{
    coprime, divides, gcd, is_inverse_mod, is_prime, lemma_coprime_is_gcd_one,
    lemma_divides_quotient, mod_inverse,
};
use vstd::arithmetic::div_mod::{
    lemma_fundamental_div_mod, lemma_mod_bound, lemma_mod_mod, lemma_mod_multiples_basic,
    lemma_mod_multiples_vanish, lemma_mul_mod_noop_left, lemma_mul_mod_noop_right, lemma_small_mod,
};
use vstd::arithmetic::power::{
    lemma1_pow, lemma_pow_adds, lemma_pow_mod_noop, lemma_pow_multiplies, lemma_pow_positive, pow,
};
use vstd::prelude::*;
use vstd::set_lib::{lemma_int_range, lemma_len_subset, set_int_range};

verus! {

/// A number with a non-negative multiple `d * k` of `d` is divisible by `d`.
pub proof fn lemma_multiple_divides(d: nat, k: int, n: nat)
    requires
        d > 0,
        n == d * k,
    ensures
        divides(d, n),
{
    lemma_mod_multiples_basic(k, d as int);
    assert(d * k == k * d) by (nonlinear_arith);
}

/// Bezout's identity: the greatest common divisor is a combination of the two numbers.
pub proof fn lemma_bezout(a: nat, b: nat) -> (r: (int, int))
    ensures
        a * r.0 + b * r.1 == gcd(a, b),
    decreases b,
{
    if b == 0 {
        (1, 0)
    } else {
        let (x, y) = lemma_bezout(b, a % b);
        let q = (a / b) as int;
        lemma_fundamental_div_mod(a as int, b as int);
        assert(a * y + b * (x - q * y) == b * x + (a % b) * y) by (nonlinear_arith)
            requires
                a == b * q + (a % b),
        ;
        (y, x - q * y)
    }
}

/// A number that has no common divisor with `p` and divides `p * k` divides `k`.
pub proof fn lemma_coprime_divides_product(q: nat, p: nat, k: nat)
    requires
        coprime(p, q),
        divides(q, p * k),
    ensures
        divides(q, k),
{
    lemma_coprime_is_gcd_one(p, q);
    let (x, y) = lemma_bezout(p, q);
    lemma_divides_quotient(q, p * k);
    let j = ((p * k) / q) as int;
    assert(k == q * (j * x + k * y)) by (nonlinear_arith)
        requires
            p * x + q * y == 1,
            p * k == q * j,
    ;
    lemma_multiple_divides(q, j * x + k * y, k);
}

/// A prime has no common divisor with a number that it does not divide.
pub proof fn lemma_prime_coprime(p: nat, a: nat)
    requires
        is_prime(p),
        !divides(p, a),
    ensures
        coprime(a, p),
{
    assert forall|d: nat|
        #![trigger divides(d, a), divides(d, p)]
        divides(d, a) && divides(d, p) implies d == 1 by {
        if d != 1 {
            if d > p {
                lemma_small_mod(p, d);
            }
            assert(d == p);
        }
    }
}

/// Euclid's lemma: a prime that divides a product divides one of the factors.
pub proof fn lemma_euclid(p: nat, a: nat, b: nat)
    requires
        is_prime(p),
        divides(p, a * b),
    ensures
        divides(p, a) || divides(p, b),
{
    if !divides(p, a) {
        lemma_prime_coprime(p, a);
        lemma_coprime_divides_product(p, a, b);
    }
}

/// Two different primes have no common divisor but 1.
pub proof fn lemma_distinct_primes_coprime(p: nat, q: nat)
    requires
        is_prime(p),
        is_prime(q),
        p != q,
    ensures
        coprime(p, q),
{
    if divides(q, p) {
        if q > p {
            lemma_small_mod(p, q);
        }
        assert(false);
    }
    lemma_prime_coprime(q, p);
}

/// The Chinese remainder theorem, as far as it says that there is at most one
/// solution: two numbers below `p * q` with the same remainders modulo `p` and
/// modulo `q` are the same, where `p` and `q` have no common divisor.
pub proof fn lemma_crt_unique(x: nat, y: nat, p: nat, q: nat)
    requires
        p > 0,
        q > 0,
        coprime(p, q),
        x < p * q,
        y < p * q,
        x % p == y % p,
        x % q == y % q,
    ensures
        x == y,
{
    if x < y {
        lemma_crt_unique_ordered(y, x, p, q);
    } else {
        lemma_crt_unique_ordered(x, y, p, q);
    }
}

proof fn lemma_crt_unique_ordered(x: nat, y: nat, p: nat, q: nat)
    requires
        p > 0,
        q > 0,
        coprime(p, q),
        y <= x < p * q,
        x % p == y % p,
        x % q == y % q,
    ensures
        x == y,
{
    let d = (x - y) as nat;
    lemma_same_remainder_divides(x, y, p);
    lemma_same_remainder_divides(x, y, q);
    lemma_divides_quotient(p, d);
    let k = d / p;
    lemma_coprime_divides_product(q, p, k);
    lemma_divides_quotient(q, k);
    let j = k / q;
    assert(d == (p * q) * j) by (nonlinear_arith)
        requires
            d == p * k,
            k == q * j,
    ;
    if j >= 1 {
        assert((p * q) * j >= p * q) by (nonlinear_arith)
            requires
                j >= 1,
                p * q >= 0,
        ;
    } else {
        assert((p * q) * j == 0) by (nonlinear_arith)
            requires
                j == 0,
        ;
    }
}

/// The difference of two numbers with the same remainder is divisible.
pub proof fn lemma_same_remainder_divides(x: nat, y: nat, m: nat)
    requires
        m > 0,
        x >= y,
        x % m == y % m,
    ensures
        divides(m, (x - y) as nat),
{
    lemma_fundamental_div_mod(x as int, m as int);
    lemma_fundamental_div_mod(y as int, m as int);
    let qx = (x / m) as int;
    let qy = (y / m) as int;
    assert(x - y == m * (qx - qy)) by (nonlinear_arith)
        requires
            x == m * qx + x % m,
            y == m * qy + y % m,
            x % m == y % m,
    ;
    lemma_multiple_divides(m, qx - qy, (x - y) as nat);
}

/// The product of the numbers from 1 to `n`.
pub open spec fn factorial(n: nat) -> nat
    decreases n,
{
    if n == 0 {
        1
    } else {
        n * factorial((n - 1) as nat)
    }
}

/// The product of the numbers in a sequence.
pub open spec fn seq_product(s: Seq<int>) -> int
    decreases s.len(),
{
    if s.len() == 0 {
        1
    } else {
        seq_product(s.drop_last()) * s.last()
    }
}

/// The remainders modulo `p` of the first `n` multiples of `a`.
pub open spec fn multiples(a: nat, p: nat, n: nat) -> Seq<int> {
    Seq::new(n, |i: int| (a * (i + 1)) % (p as int))
}

/// A power is the base times the power one lower.
pub proof fn lemma_pow_step(a: int, n: nat)
    requires
        n > 0,
    ensures
        pow(a, n) == a * pow(a, (n - 1) as nat),
{
    reveal(pow);
}

/// The product of the remainders of the first `n` multiples of `a` is
/// `a^n * n!`, modulo `p`.
proof fn lemma_multiples_product(a: nat, p: nat, n: nat)
    requires
        p > 0,
    ensures
        seq_product(multiples(a, p, n)) % (p as int) == (pow(a as int, n) * factorial(n)) % (p as int),
    decreases n,
{
    let pi = p as int;
    if n == 0 {
        reveal(pow);
        assert(multiples(a, p, 0).len() == 0);
        assert(pow(a as int, 0) * factorial(0) == 1) by (nonlinear_arith)
            requires
                pow(a as int, 0) == 1,
                factorial(0) == 1,
        ;
    } else {
        let m = multiples(a, p, n);
        let prev = multiples(a, p, (n - 1) as nat);
        assert(m.drop_last() =~= prev);
        let x = seq_product(prev);
        let y = pow(a as int, (n - 1) as nat) * factorial((n - 1) as nat);
        lemma_multiples_product(a, p, (n - 1) as nat);
        let an = (a * n) as int;
        assert(m.last() == an % pi);
        assert(seq_product(m) == x * (an % pi));
        lemma_mul_mod_noop_right(x, an, pi);
        lemma_mul_mod_noop_left(x, an, pi);
        lemma_mul_mod_noop_left(y, an, pi);
        lemma_pow_step(a as int, n);
        assert(y * an == pow(a as int, n) * factorial(n)) by (nonlinear_arith)
            requires
                y == pow(a as int, (n - 1) as nat) * factorial((n - 1) as nat),
                pow(a as int, n) == a * pow(a as int, (n - 1) as nat),
                factorial(n) == n * factorial((n - 1) as nat),
                an == a * n,
        ;
    }
}

/// Taking one number out of a sequence divides the product by it.
proof fn lemma_product_remove(s: Seq<int>, k: int)
    requires
        0 <= k < s.len(),
    ensures
        seq_product(s) == s[k] * seq_product(s.remove(k)),
    decreases s.len(),
{
    if k == s.len() - 1 {
        assert(s.remove(k) =~= s.drop_last());
        assert(seq_product(s.drop_last()) * s.last() == s[k] * seq_product(s.drop_last()))
            by (nonlinear_arith)
            requires
                s.last() == s[k],
        ;
    } else {
        let init = s.drop_last();
        lemma_product_remove(init, k);
        let r = s.remove(k);
        assert(r.drop_last() =~= init.remove(k));
        assert(r.last() == s.last());
        assert(seq_product(r) == seq_product(init.remove(k)) * s.last());
        assert((init[k] * seq_product(init.remove(k))) * s.last() == s[k] * (seq_product(
            init.remove(k),
        ) * s.last())) by (nonlinear_arith)
            requires
                init[k] == s[k],
        ;
    }
}

/// A sequence that holds each number from 1 to `n` once has the product `n!`.
proof fn lemma_permutation_product(s: Seq<int>, n: nat)
    requires
        s.len() == n,
        s.no_duplicates(),
        forall|i: int| 0 <= i < n ==> 1 <= #[trigger] s[i] <= n,
    ensures
        seq_product(s) == factorial(n),
    decreases n,
{
    if n > 0 {
        if !(exists|k: int| 0 <= k < n && s[k] == n) {
            s.unique_seq_to_set();
            lemma_int_range(1, n as int);
            assert(s.to_set().subset_of(set_int_range(1, n as int))) by {
                assert forall|v: int| s.to_set().contains(v) implies set_int_range(
                    1,
                    n as int,
                ).contains(v) by {
                    let i = choose|i: int| 0 <= i < s.len() && s[i] == v;
                    assert(1 <= s[i] <= n);
                }
            }
            lemma_len_subset(s.to_set(), set_int_range(1, n as int));
            assert(false);
        }
        let k = choose|k: int| 0 <= k < n && s[k] == n;
        let r = s.remove(k);
        assert forall|i: int| 0 <= i < n - 1 implies 1 <= #[trigger] r[i] <= n - 1 by {
            if i < k {
                assert(r[i] == s[i]);
            } else {
                assert(r[i] == s[i + 1]);
            }
        }
        assert(r.no_duplicates()) by {
            assert forall|i: int, j: int| 0 <= i < r.len() && 0 <= j < r.len() && i != j implies r[i]
                != r[j] by {
                let si = if i < k {
                    i
                } else {
                    i + 1
                };
                let sj = if j < k {
                    j
                } else {
                    j + 1
                };
                assert(r[i] == s[si] && r[j] == s[sj] && si != sj);
            }
        }
        lemma_permutation_product(r, (n - 1) as nat);
        lemma_product_remove(s, k);
    } else {
        assert(s.len() == 0);
    }
}

/// A prime does not divide the product of two numbers below it.
proof fn lemma_prime_not_divides_small_product(p: nat, a: nat, i: nat)
    requires
        is_prime(p),
        !divides(p, a),
        1 <= i < p,
    ensures
        (a * i) % p != 0,
        1 <= (a * i) % p < p,
{
    lemma_mod_bound((a * i) as int, p as int);
    if (a * i) % p == 0 {
        assert(divides(p, a * i));
        lemma_euclid(p, a, i);
        lemma_small_mod(i, p);
    }
}

/// For a prime `p` that does not divide `a`, the remainders of the first
/// `p - 1` multiples of `a` are the numbers from 1 to `p - 1`, each once.
proof fn lemma_multiples_permute(a: nat, p: nat)
    requires
        is_prime(p),
        !divides(p, a),
    ensures
        multiples(a, p, (p - 1) as nat).no_duplicates(),
        forall|i: int| 0 <= i < p - 1 ==> 1 <= #[trigger] multiples(a, p, (p - 1) as nat)[i] <= p - 1,
{
    let m = multiples(a, p, (p - 1) as nat);
    assert forall|i: int| 0 <= i < p - 1 implies 1 <= #[trigger] m[i] <= p - 1 by {
        lemma_prime_not_divides_small_product(p, a, (i + 1) as nat);
    }
    assert forall|i: int, j: int| 0 <= i < m.len() && 0 <= j < m.len() && i != j implies m[i]
        != m[j] by {
        if m[i] == m[j] {
            let lo = if i < j {
                i
            } else {
                j
            };
            let hi = if i < j {
                j
            } else {
                i
            };
            let x = a * ((hi + 1) as nat);
            let y = a * ((lo + 1) as nat);
            assert(x >= y) by (nonlinear_arith)
                requires
                    x == a * ((hi + 1) as nat),
                    y == a * ((lo + 1) as nat),
                    hi > lo,
                    lo >= 0,
            ;
            assert(m[hi] == x % p && m[lo] == y % p);
            lemma_same_remainder_divides(x, y, p);
            assert(x - y == a * ((hi - lo) as nat)) by (nonlinear_arith)
                requires
                    x == a * ((hi + 1) as nat),
                    y == a * ((lo + 1) as nat),
                    hi > lo,
                    lo >= 0,
            ;
            lemma_prime_not_divides_small_product(p, a, (hi - lo) as nat);
            assert(false);
        }
    }
}

/// A prime does not divide the factorial of a smaller number.
proof fn lemma_prime_not_divides_factorial(p: nat, n: nat)
    requires
        is_prime(p),
        n < p,
    ensures
        !divides(p, factorial(n)),
    decreases n,
{
    if n == 0 {
        lemma_small_mod(1, p);
    } else {
        lemma_prime_not_divides_factorial(p, (n - 1) as nat);
        if divides(p, factorial(n)) {
            lemma_euclid(p, n, factorial((n - 1) as nat));
            lemma_small_mod(n, p);
        }
    }
}

/// Fermat's little theorem: for a prime `p` that does not divide `a`,
/// `a^(p - 1)` leaves the remainder 1 modulo `p`.
pub proof fn lemma_fermat(p: nat, a: nat)
    requires
        is_prime(p),
        !divides(p, a),
    ensures
        pow(a as int, (p - 1) as nat) % (p as int) == 1,
{
    let n = (p - 1) as nat;
    let m = multiples(a, p, n);
    lemma_multiples_permute(a, p);
    lemma_permutation_product(m, n);
    lemma_multiples_product(a, p, n);
    lemma_prime_not_divides_factorial(p, n);
    if a == 0 {
        lemma_small_mod(0, p);
    }
    lemma_pow_positive(a as int, n);
    let f = factorial(n);
    let pw = pow(a as int, n) as nat;
    assert(pw * f >= f) by (nonlinear_arith)
        requires
            pw >= 1,
    ;
    lemma_same_remainder_divides(pw * f, f, p);
    assert(pw * f - f == f * ((pw - 1) as nat)) by (nonlinear_arith)
        requires
            pw >= 1,
    ;
    lemma_euclid(p, f, (pw - 1) as nat);
    lemma_divides_quotient(p, (pw - 1) as nat);
    let k = ((pw - 1) as nat) / p;
    lemma_mod_multiples_vanish(k as int, 1, p as int);
    lemma_small_mod(1, p);
}

/// For a prime `p`, raising to a power that leaves 1 modulo `p - 1` changes
/// nothing modulo `p`: `y^(1 + t * (p - 1))` is `y`.
pub proof fn lemma_power_cycle(p: nat, y: nat, t: nat)
    requires
        is_prime(p),
    ensures
        pow(y as int, (1 + t * (p - 1)) as nat) % (p as int) == y % p,
{
    let pi = p as int;
    let yi = y as int;
    let rest = (t * (p - 1)) as nat;
    assert(t * (p - 1) >= 0) by (nonlinear_arith)
        requires
            p >= 1,
    ;
    lemma_pow_step(yi, 1 + rest);
    let x = pow(yi, rest);
    assert(pow(yi, (1 + t * (p - 1)) as nat) == yi * x);
    if divides(p, y) {
        lemma_mul_mod_noop_left(yi, x, pi);
        assert((0 * x) % pi == 0) by {
            assert(0 * x == 0) by (nonlinear_arith);
            lemma_small_mod(0, p);
        }
    } else {
        lemma_fermat(p, y);
        let base = pow(yi, (p - 1) as nat);
        lemma_pow_multiplies(yi, (p - 1) as nat, t);
        assert(((p - 1) as nat) * t == rest) by (nonlinear_arith)
            requires
                rest == t * (p - 1),
                p >= 1,
        ;
        assert(pow(base, t) == x);
        lemma_pow_mod_noop(base, t, pi);
        lemma1_pow(t);
        lemma_small_mod(1, p);
        assert(x % pi == 1);
        lemma_mul_mod_noop_right(yi, x, pi);
        assert(yi * 1 == yi) by (nonlinear_arith);
    }
}

/// The heart of RSA: for two different primes `p` and `q` and an exponent that
/// leaves 1 modulo `(p - 1) * (q - 1)`, raising a number below `p * q` to that
/// exponent modulo `p * q` gives the number back.
pub proof fn lemma_rsa_exponent(p: nat, q: nat, exponent: nat, y: nat)
    requires
        is_prime(p),
        is_prime(q),
        p != q,
        exponent % ((p - 1) * (q - 1)) as nat == 1,
        y < p * q,
    ensures
        pow(y as int, exponent) % ((p * q) as int) == y,
{
    let phi = ((p - 1) * (q - 1)) as nat;
    assert((p - 1) * (q - 1) >= 1) by (nonlinear_arith)
        requires
            p >= 2,
            q >= 2,
    ;
    lemma_fundamental_div_mod(exponent as int, phi as int);
    let k = exponent / phi;
    assert(exponent == 1 + (k * (q - 1)) * (p - 1) && exponent == 1 + (k * (p - 1)) * (q - 1)
        && k * (q - 1) >= 0 && k * (p - 1) >= 0) by (nonlinear_arith)
        requires
            exponent == phi * k + 1,
            phi == (p - 1) * (q - 1),
            p >= 2,
            q >= 2,
            k >= 0,
    ;
    lemma_power_cycle(p, y, (k * (q - 1)) as nat);
    lemma_power_cycle(q, y, (k * (p - 1)) as nat);
    let full = pow(y as int, exponent);
    let n = (p * q) as int;
    lemma_mod_mod(full, p as int, q as int);
    lemma_mod_mod(full, q as int, p as int);
    assert(q * p == p * q) by (nonlinear_arith);
    lemma_mod_bound(full, n);
    let z = (full % n) as nat;
    lemma_distinct_primes_coprime(p, q);
    assert(z % p == y % p);
    assert(z % q == y % q);
    lemma_crt_unique(z, y, p, q);
}

/// A number has an inverse modulo every positive modulus that it has no
/// common divisor with.
pub proof fn lemma_inverse_exists(a: nat, m: nat)
    requires
        m > 0,
        coprime(a, m),
    ensures
        is_inverse_mod(mod_inverse(a, m), a, m),
{
    lemma_coprime_is_gcd_one(a, m);
    let (x, y) = lemma_bezout(a, m);
    let mi = m as int;
    lemma_mod_bound(x, mi);
    let x0 = (x % mi) as nat;
    lemma_mul_mod_noop_left(x, a as int, mi);
    lemma_mod_multiples_vanish(-y, 1, mi);
    assert(mi * (-y) + 1 == x * a) by (nonlinear_arith)
        requires
            a * x + m * y == 1,
            mi == m,
    ;
    assert((x0 * a) % m == 1nat % m);
    assert(is_inverse_mod(x0, a, m));
}

/// Modulo a prime a square has at most two square roots, one the negative of
/// the other.
pub proof fn lemma_square_roots(p: nat, a: nat, b: nat)
    requires
        is_prime(p),
        a < p,
        b < p,
        (a * a) % p == (b * b) % p,
    ensures
        a == b || a + b == p,
{
    if a < b {
        lemma_square_roots_ordered(p, b, a);
    } else {
        lemma_square_roots_ordered(p, a, b);
    }
}

proof fn lemma_square_roots_ordered(p: nat, a: nat, b: nat)
    requires
        is_prime(p),
        b <= a < p,
        (a * a) % p == (b * b) % p,
    ensures
        a == b || a + b == p,
{
    assert(a * a >= b * b) by (nonlinear_arith)
        requires
            a >= b,
    ;
    lemma_same_remainder_divides(a * a, b * b, p);
    assert(a * a - b * b == ((a - b) as nat) * (a + b)) by (nonlinear_arith)
        requires
            a >= b,
    ;
    lemma_euclid(p, (a - b) as nat, a + b);
    if divides(p, (a - b) as nat) {
        if a > b {
            lemma_small_mod((a - b) as nat, p);
        }
    } else {
        if a + b < p {
            lemma_small_mod(a + b, p);
            assert(a + b == 0);
        } else if a + b > p {
            lemma_divides_quotient(p, a + b);
            let k = (a + b) / p;
            assert(k == 1) by (nonlinear_arith)
                requires
                    a + b == p * k,
                    p < a + b < 2 * p,
            ;
            assert(p * k == p) by (nonlinear_arith)
                requires
                    k == 1,
            ;
        }
    }
}

} // verus!
