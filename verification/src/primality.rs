//! The Miller-Rabin test, with witnesses drawn at random.

use crate::bignum::{
    lemma_be_value_bound, nat_bit, nat_eq, nat_lt, nat_modpow, nat_random_range, nat_shr, nat_sub,
    Natural,
};
use crate::numtheory::{divides, is_prime};
use crate::primes::{lemma_fermat, lemma_square_roots};
use vstd::arithmetic::div_mod::{lemma_mod_bound, lemma_small_mod};
use vstd::arithmetic::power::{
    lemma_pow_mod_noop, lemma_pow_multiplies, lemma_square_is_pow2, pow,
};
use vstd::arithmetic::power2::{lemma2_to64, lemma_pow2_strictly_increases, lemma_pow2_unfold, pow2};
use vstd::prelude::*;

verus! {

/// How many rounds the test runs.
pub const ROUNDS: u32 = 10;

/// How often 2 divides `x`; 0 for `x == 0`.
pub open spec fn two_exponent(x: nat) -> nat
    decreases x,
{
    if x == 0 || x % 2 == 1 {
        0
    } else {
        1 + two_exponent(x / 2)
    }
}

/// What is left of `x` when every factor 2 is taken out.
pub open spec fn odd_part(x: nat) -> nat
    decreases x,
{
    if x == 0 || x % 2 == 1 {
        x
    } else {
        odd_part(x / 2)
    }
}

/// `a^(d * 2^j) mod n`: the `j`-th number of the sequence that a round squares along.
pub open spec fn round_power(n: nat, d: nat, a: nat, j: nat) -> int {
    pow(a as int, d * pow2(j)) % (n as int)
}

/// The witness `a` does not show `n`, with `n - 1 == d * 2^s`, to be composite:
/// `a^d` is 1 or `n - 1` modulo `n`, or one of its first `s - 1` successive
/// squares is `n - 1`.
pub open spec fn round_passes(n: nat, d: nat, s: nat, a: nat) -> bool {
    ||| round_power(n, d, a, 0) == 1
    ||| round_power(n, d, a, 0) == n - 1
    ||| exists|j: nat| 1 <= j < s && #[trigger] round_power(n, d, a, j) == n - 1
}

/// The witness `a` does not show `n` to be composite.
pub open spec fn passes_for(n: nat, a: nat) -> bool {
    round_passes(n, odd_part((n - 1) as nat), two_exponent((n - 1) as nat), a)
}

proof fn lemma_round_power_next(n: nat, d: nat, a: nat, j: nat)
    requires
        n > 0,
    ensures
        pow(round_power(n, d, a, j), 2) % (n as int) == round_power(n, d, a, j + 1),
{
    let e = d * pow2(j);
    lemma_pow_mod_noop(pow(a as int, e), 2, n as int);
    lemma_pow_multiplies(a as int, e, 2);
    lemma_pow2_unfold(j + 1);
    assert(e * 2 == d * pow2(j + 1)) by (nonlinear_arith)
        requires
            e == d * pow2(j),
            pow2(j + 1) == 2 * pow2(j),
    ;
}

/// A positive number is its odd part times the power of two that divides it.
pub proof fn lemma_odd_part(x: nat)
    requires
        x > 0,
    ensures
        odd_part(x) * pow2(two_exponent(x)) == x,
        odd_part(x) % 2 == 1,
    decreases x,
{
    lemma2_to64();
    if x % 2 == 1 {
        assert(x * 1 == x) by (nonlinear_arith);
    } else {
        lemma_odd_part(x / 2);
        lemma_pow2_unfold(two_exponent(x));
        assert(odd_part(x / 2) * (2 * pow2(two_exponent(x / 2))) == 2 * (x / 2)) by (nonlinear_arith)
            requires
                odd_part(x / 2) * pow2(two_exponent(x / 2)) == x / 2,
        ;
    }
}

/// Where a number of the sequence that a round squares along is 1 modulo a
/// prime, the round passes: the number before the first 1 is `n - 1`.
proof fn lemma_one_in_sequence_passes(n: nat, d: nat, s: nat, a: nat, j: nat)
    requires
        is_prime(n),
        j <= s,
        round_power(n, d, a, j) == 1,
    ensures
        round_passes(n, d, s, a),
    decreases j,
{
    if j > 0 {
        let before = round_power(n, d, a, (j - 1) as nat);
        lemma_mod_bound(pow(a as int, d * pow2((j - 1) as nat)), n as int);
        lemma_round_power_next(n, d, a, (j - 1) as nat);
        lemma_square_is_pow2(before);
        lemma_small_mod(1, n);
        assert(1nat * 1nat == 1);
        lemma_square_roots(n, before as nat, 1);
        if before == 1 {
            lemma_one_in_sequence_passes(n, d, s, a, (j - 1) as nat);
        } else {
            assert(before == n - 1);
            if j - 1 > 0 {
                assert(round_power(n, d, a, (j - 1) as nat) == n - 1);
            }
        }
    }
}

/// No witness shows a prime to be composite: for an odd prime `n`, every
/// number from 1 to `n - 1` passes its round.
pub proof fn lemma_prime_passes(n: nat, a: nat)
    requires
        is_prime(n),
        n > 2,
        1 <= a < n,
    ensures
        passes_for(n, a),
{
    let d = odd_part((n - 1) as nat);
    let s = two_exponent((n - 1) as nat);
    lemma_odd_part((n - 1) as nat);
    lemma_small_mod(a, n);
    lemma_fermat(n, a);
    assert(round_power(n, d, a, s) == 1);
    lemma_one_in_sequence_passes(n, d, s, a, s);
}

/// One round of the test with the witness `a`, for `n - 1 == d * 2^s`.
pub fn miller_rabin_round(n: &Natural, d: &Natural, s: u128, a: &Natural) -> (r: bool)
    requires
        n@ > 0,
    ensures
        r == round_passes(n@, d@, s as nat, a@),
{
    let one = Natural::from_u32(1);
    let two = Natural::from_u32(2);
    let last = nat_sub(n, &one);
    let mut x = nat_modpow(a, d, n);
    proof {
        lemma2_to64();
        assert(d@ * pow2(0) == d@) by (nonlinear_arith)
            requires
                pow2(0) == 1,
        ;
    }
    if nat_eq(&x, &one) || nat_eq(&x, &last) {
        return true;
    }
    let mut i: u128 = 1;
    while i < s
        invariant
            n@ > 0,
            two@ == 2,
            last@ == n@ - 1,
            1 <= i,
            x@ == round_power(n@, d@, a@, (i - 1) as nat),
            round_power(n@, d@, a@, 0) != 1,
            round_power(n@, d@, a@, 0) != n@ - 1,
            forall|j: nat| 1 <= j < i ==> #[trigger] round_power(n@, d@, a@, j) != n@ - 1,
        decreases s - i,
    {
        proof {
            lemma_round_power_next(n@, d@, a@, (i - 1) as nat);
        }
        x = nat_modpow(&x, &two, n);
        if nat_eq(&x, &last) {
            assert(round_power(n@, d@, a@, i as nat) == n@ - 1);
            return true;
        }
        i += 1;
    }
    false
}

/// The numbers that a list of witnesses holds.
pub open spec fn values_of(witnesses: Seq<Natural>) -> Seq<nat> {
    Seq::new(witnesses.len(), |i: int| witnesses[i]@)
}

/// What the test answers for `n` with the given witnesses: no for numbers
/// below 2 and for even numbers above 2, yes for 2 and 3, and for an odd
/// number above 3 whether every witness passes its round.
pub open spec fn test_accepts(n: nat, witnesses: Seq<nat>) -> bool {
    if n <= 1 {
        false
    } else if n <= 3 {
        true
    } else if n % 2 == 0 {
        false
    } else {
        forall|i: int| 0 <= i < witnesses.len() ==> passes_for(n, #[trigger] witnesses[i])
    }
}

/// The Miller-Rabin test with the given witnesses, one round for each, ending
/// at the first that does not pass.
pub fn is_probably_prime_with(n: &Natural, witnesses: &[Natural]) -> (r: bool)
    ensures
        r == test_accepts(n@, values_of(witnesses@)),
{
    let one = Natural::from_u32(1);
    let three = Natural::from_u32(3);
    if !nat_lt(&one, n) {
        return false;
    }
    if !nat_lt(&three, n) {
        return true;
    }
    proof {
        lemma2_to64();
    }
    if !nat_bit(n, 0) {
        return false;
    }
    let mut d = nat_sub(n, &one);
    let mut s: u128 = 0;
    proof {
        lemma_be_value_bound(n.bytes@);
        assert(n.bytes@.len() == n.bytes.len());
        assert(d@ * pow2(0) == n@ - 1) by (nonlinear_arith)
            requires
                d@ == n@ - 1,
                pow2(0) == 1,
        ;
    }
    while !nat_bit(&d, 0)
        invariant
            pow2(0) == 1,
            pow2(1) == 2,
            d@ >= 1,
            d@ * pow2(s as nat) == n@ - 1,
            n@ < pow2(8 * n.bytes@.len()),
            n.bytes@.len() <= usize::MAX,
            odd_part(d@) == odd_part((n@ - 1) as nat),
            two_exponent(d@) + s == two_exponent((n@ - 1) as nat),
        decreases d@,
    {
        proof {
            if s >= 0x8_0000_0000_0000_0000u128 {
                lemma_pow2_strictly_increases(8 * n.bytes@.len(), s as nat);
                assert(d@ * pow2(s as nat) >= pow2(s as nat)) by (nonlinear_arith)
                    requires
                        d@ >= 1,
                ;
            }
            lemma_pow2_unfold((s + 1) as nat);
            assert((d@ / 2) * pow2((s + 1) as nat) == d@ * pow2(s as nat)) by (nonlinear_arith)
                requires
                    d@ % 2 == 0,
                    pow2((s + 1) as nat) == 2 * pow2(s as nat),
            ;
        }
        d = nat_shr(&d, 1);
        s += 1;
    }

    let ghost values = values_of(witnesses@);
    let mut i: usize = 0;
    while i < witnesses.len()
        invariant
            i <= witnesses@.len(),
            n@ > 3,
            n@ % 2 == 1,
            values == values_of(witnesses@),
            d@ == odd_part((n@ - 1) as nat),
            s == two_exponent((n@ - 1) as nat),
            forall|j: int| 0 <= j < i ==> passes_for(n@, #[trigger] values[j]),
        decreases witnesses@.len() - i,
    {
        if !miller_rabin_round(n, &d, s, &witnesses[i]) {
            assert(!passes_for(n@, values[i as int]));
            return false;
        }
        i += 1;
    }
    true
}

/// The Miller-Rabin test with ten witnesses drawn at random from 2 to `n - 2`.
///
/// Numbers below 2 and even numbers above 2 are rejected, 2 and 3 are
/// accepted. An odd number above 3 is accepted exactly when each of the ten
/// witnesses drawn passes its round; which witnesses are drawn is left open.
/// Every prime is accepted, whatever is drawn.
pub fn is_probably_prime(n: &Natural) -> (r: bool)
    ensures
        n@ <= 1 ==> !r,
        2 <= n@ <= 3 ==> r,
        n@ > 3 && n@ % 2 == 0 ==> !r,
        n@ > 3 && n@ % 2 == 1 ==> exists|drawn: Seq<nat>|
            #![trigger test_accepts(n@, drawn)]
            drawn.len() == 10 && (forall|i: int| 0 <= i < 10 ==> 2 <= #[trigger] drawn[i] < n@ - 1)
                && r == test_accepts(n@, drawn),
        n@ > 3 && n@ % 2 == 1 && r ==> exists|a: nat| 2 <= a < n@ - 1 && #[trigger] passes_for(n@, a),
        n@ > 3 && n@ % 2 == 1 && !r ==> exists|a: nat|
            2 <= a < n@ - 1 && !#[trigger] passes_for(n@, a),
        is_prime(n@) ==> r,
{
    let three = Natural::from_u32(3);
    let mut witnesses: Vec<Natural> = Vec::new();
    proof {
        lemma2_to64();
    }
    if nat_lt(&three, n) && nat_bit(n, 0) {
        let two = Natural::from_u32(2);
        let last = nat_sub(n, &Natural::from_u32(1));
        let mut round: u32 = 0;
        while round < ROUNDS
            invariant
                n@ > 3,
                two@ == 2,
                last@ == n@ - 1,
                round <= ROUNDS,
                witnesses@.len() == round,
                forall|i: int| 0 <= i < round ==> 2 <= (#[trigger] witnesses@[i])@ < n@ - 1,
            decreases ROUNDS - round,
        {
            witnesses.push(nat_random_range(&two, &last));
            round += 1;
        }
    }
    let r = is_probably_prime_with(n, witnesses.as_slice());
    proof {
        let drawn = values_of(witnesses@);
        if n@ > 3 && n@ % 2 == 1 {
            assert(drawn.len() == 10);
            assert(test_accepts(n@, drawn) == r);
            if r {
                assert(passes_for(n@, drawn[0]));
            } else {
                let i = choose|i: int| 0 <= i < drawn.len() && !passes_for(n@, #[trigger] drawn[i]);
                assert(2 <= drawn[i] < n@ - 1);
            }
            if is_prime(n@) {
                assert forall|i: int| 0 <= i < drawn.len() implies passes_for(
                    n@,
                    #[trigger] drawn[i],
                ) by {
                    lemma_prime_passes(n@, drawn[i]);
                }
            }
        } else if n@ > 3 {
            assert(divides(2, n@));
        }
    }
    r
}

} // verus!
