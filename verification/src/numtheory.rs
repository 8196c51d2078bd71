//! Divisibility, greatest common divisors and modular inverses over the
//! mathematical integers, with the lemmas that the key algorithms rest on.

use vstd::arithmetic::div_mod::*;
use vstd::arithmetic::mul::*;
use vstd::prelude::*;

verus! {

/// `d` divides `n`.
pub open spec fn divides(d: nat, n: nat) -> bool {
    d > 0 && n % d == 0
}

/// `a` and `b` have no common divisor but 1.
pub open spec fn coprime(a: nat, b: nat) -> bool {
    forall|d: nat| #![trigger divides(d, a), divides(d, b)] divides(d, a) && divides(d, b) ==> d == 1
}

/// `p` is a prime number.
pub open spec fn is_prime(p: nat) -> bool {
    p >= 2 && forall|d: nat| 1 < d < p ==> !#[trigger] divides(d, p)
}

/// The greatest common divisor, by Euclid's recursion; `gcd(0, 0)` is 0.
pub open spec fn gcd(a: nat, b: nat) -> nat
    decreases b,
{
    if b == 0 {
        a
    } else {
        gcd(b, a % b)
    }
}

/// `x` is the inverse of `a` modulo `m`: the product leaves the remainder of
/// 1, and `x` is reduced. Modulo 0 the product itself is 1.
pub open spec fn is_inverse_mod(x: nat, a: nat, m: nat) -> bool {
    if m == 0 {
        x * a == 1
    } else {
        x < m && (x * a) % m == 1nat % m
    }
}

/// The inverse of `a` modulo `m`, where there is one.
pub open spec fn mod_inverse(a: nat, m: nat) -> nat {
    choose|x: nat| is_inverse_mod(x, a, m)
}

/// A positive number divides its multiples.
pub proof fn lemma_divides_multiple(d: nat, k: nat)
    requires
        d > 0,
    ensures
        divides(d, d * k),
        divides(d, k * d),
{
    lemma_mod_multiples_basic(k as int, d as int);
    assert(d * k == k * d) by (nonlinear_arith);
}

/// A number is its divisor times the quotient.
pub proof fn lemma_divides_quotient(d: nat, n: nat)
    requires
        divides(d, n),
    ensures
        n == d * (n / d),
{
    lemma_fundamental_div_mod(n as int, d as int);
}

/// A divisor of `x` and of `y` divides `x + k * y`.
pub proof fn lemma_divides_combination(d: nat, x: nat, y: nat, k: nat)
    requires
        divides(d, x),
        divides(d, y),
    ensures
        divides(d, x + k * y),
{
    lemma_divides_quotient(d, x);
    lemma_divides_quotient(d, y);
    let qx = x / d;
    let qy = y / d;
    assert(x + k * y == d * (qx + k * qy)) by (nonlinear_arith)
        requires
            x == d * qx,
            y == d * qy,
    ;
    lemma_divides_multiple(d, qx + k * qy);
}

/// A divisor of `x + k * y` and of `y` divides `x`.
pub proof fn lemma_divides_difference(d: nat, x: nat, y: nat, k: nat)
    requires
        divides(d, x + k * y),
        divides(d, y),
    ensures
        divides(d, x),
{
    lemma_divides_quotient(d, x + k * y);
    lemma_divides_quotient(d, y);
    let qs = (x + k * y) / d;
    let qy = y / d;
    assert(x == d * (qs - k * qy)) by (nonlinear_arith)
        requires
            x + k * y == d * qs,
            y == d * qy,
    ;
    lemma_mod_multiples_basic(qs - k * qy, d as int);
    assert(d * (qs - k * qy) == (qs - k * qy) * d) by (nonlinear_arith);
}

/// The common divisors of `a` and `b` are those of `b` and `a % b`.
pub proof fn lemma_divides_remainder(d: nat, a: nat, b: nat)
    requires
        b > 0,
        divides(d, b),
    ensures
        divides(d, a) <==> divides(d, a % b),
{
    lemma_fundamental_div_mod(a as int, b as int);
    let q = a / b;
    let r = a % b;
    assert(a == r + q * b) by (nonlinear_arith)
        requires
            a == b * q + r,
    ;
    if divides(d, r) {
        lemma_divides_combination(d, r, b, q);
    }
    if divides(d, a) {
        lemma_divides_difference(d, r, b, q);
    }
}

/// Every common divisor of `a` and `b` divides `gcd(a, b)`, and where the two
/// are not both zero, `gcd(a, b)` divides both.
pub proof fn lemma_gcd_is_greatest(a: nat, b: nat)
    ensures
        forall|d: nat|
            #![trigger divides(d, a), divides(d, b)]
            divides(d, a) && divides(d, b) && (a > 0 || b > 0) ==> divides(d, gcd(a, b)),
        a > 0 || b > 0 ==> divides(gcd(a, b), a) && divides(gcd(a, b), b),
        a == 0 && b == 0 ==> gcd(a, b) == 0,
    decreases b,
{
    if b == 0 {
        if a > 0 {
            lemma_mod_self_0(a as int);
            lemma_small_mod(0, a);
        }
    } else {
        lemma_gcd_is_greatest(b, a % b);
        let g = gcd(a, b);
        assert(g == gcd(b, a % b));
        lemma_divides_remainder(g, a, b);
        assert forall|d: nat|
            #![trigger divides(d, a), divides(d, b)]
            divides(d, a) && divides(d, b) implies divides(d, g) by {
            lemma_divides_remainder(d, a, b);
            assert(divides(d, b) && divides(d, a % b));
        }
    }
}

/// Having no common divisor but 1 is the same as a greatest common divisor of 1.
pub proof fn lemma_coprime_is_gcd_one(a: nat, b: nat)
    ensures
        coprime(a, b) <==> gcd(a, b) == 1,
{
    lemma_gcd_is_greatest(a, b);
    let g = gcd(a, b);
    if coprime(a, b) {
        if a == 0 && b == 0 {
            lemma_small_mod(0, 2);
            assert(divides(2, a) && divides(2, b));
        } else {
            assert(divides(g, a) && divides(g, b));
        }
    }
    if g == 1 {
        assert forall|d: nat|
            #![trigger divides(d, a), divides(d, b)]
            divides(d, a) && divides(d, b) implies d == 1 by {
            assert(divides(d, 1));
            if d > 1 {
                lemma_small_mod(1, d);
            }
        }
    }
}

/// Having no common divisor but 1 does not depend on the order of the two numbers.
pub proof fn lemma_coprime_symmetric(a: nat, b: nat)
    ensures
        coprime(a, b) <==> coprime(b, a),
{
    if coprime(a, b) {
        assert forall|d: nat|
            #![trigger divides(d, b), divides(d, a)]
            divides(d, b) && divides(d, a) implies d == 1 by {
            assert(divides(d, a) && divides(d, b));
        }
    }
    if coprime(b, a) {
        assert forall|d: nat|
            #![trigger divides(d, a), divides(d, b)]
            divides(d, a) && divides(d, b) implies d == 1 by {
            assert(divides(d, b) && divides(d, a));
        }
    }
}

/// `x * a + k * m == 1` makes `x % m` the inverse of `a` modulo `m`, up to reduction.
pub proof fn lemma_bezout_gives_inverse(x: int, k: int, a: nat, m: nat)
    requires
        m > 0,
        x * a + k * m == 1,
    ensures
        (x * a) % (m as int) == 1int % (m as int),
        coprime(a, m),
{
    lemma_mod_multiples_vanish(-k, 1, m as int);
    assert(m * (-k) + 1 == x * a) by (nonlinear_arith)
        requires
            x * a + k * m == 1,
    ;
    assert forall|d: nat|
        #![trigger divides(d, a), divides(d, m)]
        divides(d, a) && divides(d, m) implies d == 1 by {
        lemma_divides_quotient(d, a);
        lemma_divides_quotient(d, m);
        let qa = (a / d) as int;
        let qm = (m / d) as int;
        assert(d * (x * qa + k * qm) == 1) by (nonlinear_arith)
            requires
                x * a + k * m == 1,
                a == d * qa,
                m == d * qm,
        ;
        assert(d == 1) by (nonlinear_arith)
            requires
                d * (x * qa + k * qm) == 1,
                d > 0,
        ;
    }
}

/// There is at most one inverse.
pub proof fn lemma_inverse_unique(x: nat, y: nat, a: nat, m: nat)
    requires
        is_inverse_mod(x, a, m),
        is_inverse_mod(y, a, m),
    ensures
        x == y,
{
    if m == 0 {
        assert(x == 1 && a == 1) by (nonlinear_arith)
            requires
                x * a == 1,
        ;
        assert(y == 1) by (nonlinear_arith)
            requires
                y * a == 1,
        ;
    } else {
        let mi = m as int;
        // x == x * (a * y) == (x * a) * y == y  (mod m)
        lemma_mul_mod_noop_right(x as int, (a * y) as int, mi);
        lemma_mul_mod_noop_left((x * a) as int, y as int, mi);
        assert(a * y == y * a) by (nonlinear_arith);
        assert(x * (a * y) == (x * a) * y) by (nonlinear_arith);
        // (x * ((a*y) % m)) % m == (x * (a*y)) % m
        // (((x*a) % m) * y) % m == ((x*a) * y) % m
        assert((x * (1int % mi)) % mi == ((1int % mi) * y) % mi);
        if m == 1 {
        } else {
            lemma_small_mod(1, m);
            lemma_small_mod(x, m);
            lemma_small_mod(y, m);
            assert(x * 1 == x && 1 * y == y);
        }
    }
}

/// An inverse is the inverse.
pub proof fn lemma_mod_inverse_is(x: nat, a: nat, m: nat)
    requires
        is_inverse_mod(x, a, m),
    ensures
        mod_inverse(a, m) == x,
{
    lemma_inverse_unique(x, mod_inverse(a, m), a, m);
}

} // verus!
