//! Arbitrary-precision numbers as big-endian byte strings.
//!
//! A [`Natural`] holds the bytes of a non-negative integer, most significant
//! byte first; an [`Integer`] holds a signed integer in two's complement. The
//! arithmetic itself is done by `num-bigint`: every operation below that is
//! marked `external_body` converts its operands, makes one call and converts
//! the result back. Their contracts are not proved here.

use num_bigint::{BigInt, BigUint, RandBigInt};
use vstd::arithmetic::power::pow;
use vstd::arithmetic::power2::pow2;
use vstd::prelude::*;

verus! {

/// The number that a big-endian byte string stands for. Leading zero bytes do
/// not change it, and the empty string stands for zero.
pub open spec fn be_value(bytes: Seq<u8>) -> nat
    decreases bytes.len(),
{
    if bytes.len() == 0 {
        0
    } else {
        256 * be_value(bytes.drop_last()) + bytes.last() as nat
    }
}

/// The big-endian digits of `v` in base 256 without leading zeros; empty for zero.
pub open spec fn be_digits(v: nat) -> Seq<u8>
    decreases v,
{
    if v == 0 {
        Seq::empty()
    } else {
        be_digits(v / 256).push((v % 256) as u8)
    }
}

/// The shortest big-endian byte string of `v`, where zero is the single byte `0`.
pub open spec fn be_bytes(v: nat) -> Seq<u8> {
    if v == 0 {
        seq![0u8]
    } else {
        be_digits(v)
    }
}

/// The integer that a big-endian two's complement byte string stands for.
pub open spec fn signed_be_value(bytes: Seq<u8>) -> int {
    if bytes.len() > 0 && bytes[0] >= 0x80 {
        be_value(bytes) - pow(256, bytes.len())
    } else {
        be_value(bytes) as int
    }
}

/// Quotient of the division that rounds toward zero.
pub open spec fn trunc_div(a: int, b: int) -> int {
    if a >= 0 && b > 0 {
        a / b
    } else if a >= 0 {
        -(a / (-b))
    } else if b > 0 {
        -((-a) / b)
    } else {
        (-a) / (-b)
    }
}

/// Remainder of the division that rounds toward zero; it has the sign of `a`.
pub open spec fn trunc_rem(a: int, b: int) -> int {
    a - b * trunc_div(a, b)
}

/// A byte behind a string multiplies its number by 256 and adds the byte.
pub proof fn lemma_be_value_push(s: Seq<u8>, b: u8)
    ensures
        be_value(s.push(b)) == 256 * be_value(s) + b as nat,
{
    assert(s.push(b).drop_last() =~= s);
}

/// The shortest byte string of a number stands for that number.
pub proof fn lemma_be_value_digits(v: nat)
    ensures
        be_value(be_digits(v)) == v,
        be_value(be_bytes(v)) == v,
    decreases v,
{
    if v == 0 {
        assert(be_value(seq![0u8]) == 0) by {
            lemma_be_value_push(Seq::empty(), 0u8);
            assert(seq![0u8] =~= Seq::<u8>::empty().push(0u8));
        }
    } else {
        lemma_be_value_digits(v / 256);
        lemma_be_value_push(be_digits(v / 256), (v % 256) as u8);
    }
}

/// A string of `n` bytes stands for a number below `2^(8n)`.
pub proof fn lemma_be_value_bound(s: Seq<u8>)
    ensures
        be_value(s) < pow2(8 * s.len()),
    decreases s.len(),
{
    vstd::arithmetic::power2::lemma2_to64();
    if s.len() > 0 {
        lemma_be_value_bound(s.drop_last());
        let k = (8 * (s.len() - 1)) as nat;
        vstd::arithmetic::power2::lemma_pow2_adds(8, k);
        assert(256 * be_value(s.drop_last()) + 255 < 256 * pow2(k)) by (nonlinear_arith)
            requires
                be_value(s.drop_last()) < pow2(k),
        ;
    }
}

/// A smaller number has no longer a byte string.
pub proof fn lemma_be_bytes_monotone(a: nat, b: nat)
    requires
        a <= b,
    ensures
        be_digits(a).len() <= be_digits(b).len(),
        be_bytes(a).len() <= be_bytes(b).len(),
        be_bytes(a).len() >= 1,
    decreases b,
{
    if a > 0 {
        lemma_be_bytes_monotone(a / 256, b / 256);
    } else if b > 0 {
        lemma_be_bytes_monotone(0, b / 256);
    }
}

/// Two byte strings of the same length that stand for the same number are the same.
pub proof fn lemma_be_value_injective(a: Seq<u8>, b: Seq<u8>)
    requires
        a.len() == b.len(),
        be_value(a) == be_value(b),
    ensures
        a == b,
    decreases a.len(),
{
    if a.len() > 0 {
        lemma_be_value_injective(a.drop_last(), b.drop_last());
        assert(a =~= a.drop_last().push(a.last()));
        assert(b =~= b.drop_last().push(b.last()));
    } else {
        assert(a =~= b);
    }
}

/// A non-negative integer of any size.
pub struct Natural {
    /// Big-endian bytes; leading zeros are allowed.
    pub bytes: Vec<u8>,
}

impl View for Natural {
    type V = nat;

    open spec fn view(&self) -> nat {
        be_value(self.bytes@)
    }
}

impl Clone for Natural {
    fn clone(&self) -> (r: Self)
        ensures
            r.bytes@ == self.bytes@,
    {
        Natural { bytes: self.bytes.clone() }
    }
}

impl Natural {
    /// Reads a big-endian byte string.
    pub fn from_bytes_be(bytes: &[u8]) -> (r: Natural)
        ensures
            r@ == be_value(bytes@),
            r.bytes@ == bytes@,
    {
        Natural { bytes: vstd::slice::slice_to_vec(bytes) }
    }

    /// The shortest big-endian byte string of the number.
    pub fn to_bytes_be(&self) -> (r: Vec<u8>)
        ensures
            r@ == be_bytes(self@),
    {
        nat_to_bytes_be(self)
    }

    /// The number `x`.
    pub fn from_u32(x: u32) -> (r: Natural)
        ensures
            r@ == x,
    {
        let b0: u8 = (x >> 24) as u8;
        let b1: u8 = ((x >> 16) & 0xff) as u8;
        let b2: u8 = ((x >> 8) & 0xff) as u8;
        let b3: u8 = (x & 0xff) as u8;
        let mut bytes: Vec<u8> = Vec::new();
        bytes.push(b0);
        bytes.push(b1);
        bytes.push(b2);
        bytes.push(b3);
        proof {
            let e = Seq::<u8>::empty();
            lemma_be_value_push(e, b0);
            lemma_be_value_push(e.push(b0), b1);
            lemma_be_value_push(e.push(b0).push(b1), b2);
            lemma_be_value_push(e.push(b0).push(b1).push(b2), b3);
            assert(bytes@ =~= e.push(b0).push(b1).push(b2).push(b3));
            assert(x == 0x1000000 * (x >> 24) + 0x10000 * ((x >> 16) & 0xff) + 0x100 * ((x >> 8)
                & 0xff) + (x & 0xff)) by (bit_vector);
            assert((x >> 24) < 0x100 && ((x >> 16) & 0xff) < 0x100 && ((x >> 8) & 0xff) < 0x100
                && (x & 0xff) < 0x100) by (bit_vector);
        }
        Natural { bytes }
    }

    /// Whether the number is zero.
    pub fn is_zero(&self) -> (r: bool)
        ensures
            r == (self@ == 0),
    {
        let zero = Natural::from_u32(0);
        nat_eq(self, &zero)
    }
}

/// `BigUint::to_bytes_be`: the bytes it returns are the base-256 digits of the
/// number without leading zeros, and the single byte `0` for zero.
#[verifier::external_body]
pub(crate) fn nat_to_bytes_be(x: &Natural) -> (r: Vec<u8>)
    ensures
        r@ == be_bytes(x@),
{
    BigUint::from_bytes_be(&x.bytes).to_bytes_be()
}

/// `==` of `BigUint`: equality of the two numbers.
#[verifier::external_body]
pub(crate) fn nat_eq(a: &Natural, b: &Natural) -> (r: bool)
    ensures
        r == (a@ == b@),
{
    BigUint::from_bytes_be(&a.bytes) == BigUint::from_bytes_be(&b.bytes)
}

/// `<` of `BigUint`: the order of the two numbers.
#[verifier::external_body]
pub(crate) fn nat_lt(a: &Natural, b: &Natural) -> (r: bool)
    ensures
        r == (a@ < b@),
{
    BigUint::from_bytes_be(&a.bytes) < BigUint::from_bytes_be(&b.bytes)
}

/// `+` of `BigUint`: the sum.
#[verifier::external_body]
pub(crate) fn nat_add(a: &Natural, b: &Natural) -> (r: Natural)
    ensures
        r@ == a@ + b@,
{
    Natural { bytes: (BigUint::from_bytes_be(&a.bytes) + BigUint::from_bytes_be(&b.bytes)).to_bytes_be() }
}

/// `-` of `BigUint`: the difference. It panics where the result would be
/// negative, which `requires` leaves out.
#[verifier::external_body]
pub(crate) fn nat_sub(a: &Natural, b: &Natural) -> (r: Natural)
    requires
        a@ >= b@,
    ensures
        r@ == a@ - b@,
{
    Natural { bytes: (BigUint::from_bytes_be(&a.bytes) - BigUint::from_bytes_be(&b.bytes)).to_bytes_be() }
}

/// `*` of `BigUint`: the product.
#[verifier::external_body]
pub(crate) fn nat_mul(a: &Natural, b: &Natural) -> (r: Natural)
    ensures
        r@ == a@ * b@,
{
    Natural { bytes: (BigUint::from_bytes_be(&a.bytes) * BigUint::from_bytes_be(&b.bytes)).to_bytes_be() }
}

/// `%` of `BigUint`: the remainder. It panics on a zero divisor, which
/// `requires` leaves out.
#[verifier::external_body]
pub(crate) fn nat_rem(a: &Natural, b: &Natural) -> (r: Natural)
    requires
        b@ != 0,
    ensures
        r@ == a@ % b@,
{
    Natural { bytes: (BigUint::from_bytes_be(&a.bytes) % BigUint::from_bytes_be(&b.bytes)).to_bytes_be() }
}

/// `>>` of `BigUint` by a number of bits: the quotient by that power of two.
#[verifier::external_body]
pub(crate) fn nat_shr(a: &Natural, bits: u32) -> (r: Natural)
    ensures
        r@ == a@ / pow2(bits as nat),
{
    Natural { bytes: (BigUint::from_bytes_be(&a.bytes) >> bits).to_bytes_be() }
}

/// `BigUint::bit`: whether the binary digit at the given position is one.
#[verifier::external_body]
pub(crate) fn nat_bit(a: &Natural, bit: u64) -> (r: bool)
    ensures
        r == ((a@ / pow2(bit as nat)) % 2 == 1),
{
    BigUint::from_bytes_be(&a.bytes).bit(bit)
}

/// `BigUint::set_bit`: the binary digit at the given position becomes one for
/// `true` and zero for `false`, and no other digit changes.
#[verifier::external_body]
pub(crate) fn nat_set_bit(a: &Natural, bit: u64, value: bool) -> (r: Natural)
    ensures
        r@ as int == if ((a@ / pow2(bit as nat)) % 2 == 1) == value {
            a@ as int
        } else if value {
            a@ + pow2(bit as nat) as int
        } else {
            a@ - pow2(bit as nat) as int
        },
{
    let mut x = BigUint::from_bytes_be(&a.bytes);
    x.set_bit(bit, value);
    Natural { bytes: x.to_bytes_be() }
}

/// `BigUint::modpow`: the power reduced by the modulus. It panics on a zero
/// modulus, which `requires` leaves out.
#[verifier::external_body]
pub(crate) fn nat_modpow(base: &Natural, exponent: &Natural, modulus: &Natural) -> (r: Natural)
    requires
        modulus@ != 0,
    ensures
        r@ == pow(base@ as int, exponent@) % (modulus@ as int),
{
    let b = BigUint::from_bytes_be(&base.bytes);
    let e = BigUint::from_bytes_be(&exponent.bytes);
    let m = BigUint::from_bytes_be(&modulus.bytes);
    Natural { bytes: b.modpow(&e, &m).to_bytes_be() }
}

/// `RandBigInt::gen_biguint` on the thread's generator: a number of at most
/// `bits` binary digits. Which one is left open.
#[verifier::external_body]
pub(crate) fn nat_random_bits(bits: u64) -> (r: Natural)
    ensures
        r@ < pow2(bits as nat),
{
    Natural { bytes: rand::thread_rng().gen_biguint(bits).to_bytes_be() }
}

/// `RandBigInt::gen_biguint_range` on the thread's generator: a number from
/// `low` up to, but not including, `high`. Which one is left open. It panics
/// on an empty range, which `requires` leaves out.
#[verifier::external_body]
pub(crate) fn nat_random_range(low: &Natural, high: &Natural) -> (r: Natural)
    requires
        low@ < high@,
    ensures
        low@ <= r@ < high@,
{
    let lo = BigUint::from_bytes_be(&low.bytes);
    let hi = BigUint::from_bytes_be(&high.bytes);
    Natural { bytes: rand::thread_rng().gen_biguint_range(&lo, &hi).to_bytes_be() }
}

/// A signed integer of any size.
pub struct Integer {
    /// Big-endian two's complement bytes.
    pub bytes: Vec<u8>,
}

impl View for Integer {
    type V = int;

    open spec fn view(&self) -> int {
        signed_be_value(self.bytes@)
    }
}

impl Clone for Integer {
    fn clone(&self) -> (r: Self)
        ensures
            r.bytes@ == self.bytes@,
    {
        Integer { bytes: self.bytes.clone() }
    }
}

/// `BigInt::from` of a `BigUint`: the same number as a signed one.
#[verifier::external_body]
pub(crate) fn int_from_nat(a: &Natural) -> (r: Integer)
    ensures
        r@ == a@,
{
    Integer { bytes: BigInt::from(BigUint::from_bytes_be(&a.bytes)).to_signed_bytes_be() }
}

/// `BigInt::to_biguint`: the same number as an unsigned one, and `None` for a
/// negative number.
#[verifier::external_body]
pub(crate) fn int_to_nat(a: &Integer) -> (r: Option<Natural>)
    ensures
        r is Some <==> a@ >= 0,
        r is Some ==> r.unwrap()@ == a@,
{
    match BigInt::from_signed_bytes_be(&a.bytes).to_biguint() {
        Some(n) => Some(Natural { bytes: n.to_bytes_be() }),
        None => None,
    }
}

/// `==` of `BigInt`: equality of the two numbers.
#[verifier::external_body]
pub(crate) fn int_eq(a: &Integer, b: &Integer) -> (r: bool)
    ensures
        r == (a@ == b@),
{
    BigInt::from_signed_bytes_be(&a.bytes) == BigInt::from_signed_bytes_be(&b.bytes)
}

/// `<` of `BigInt`: the order of the two numbers.
#[verifier::external_body]
pub(crate) fn int_lt(a: &Integer, b: &Integer) -> (r: bool)
    ensures
        r == (a@ < b@),
{
    BigInt::from_signed_bytes_be(&a.bytes) < BigInt::from_signed_bytes_be(&b.bytes)
}

/// `+` of `BigInt`: the sum.
#[verifier::external_body]
pub(crate) fn int_add(a: &Integer, b: &Integer) -> (r: Integer)
    ensures
        r@ == a@ + b@,
{
    let x = BigInt::from_signed_bytes_be(&a.bytes) + BigInt::from_signed_bytes_be(&b.bytes);
    Integer { bytes: x.to_signed_bytes_be() }
}

/// `-` of `BigInt`: the difference.
#[verifier::external_body]
pub(crate) fn int_sub(a: &Integer, b: &Integer) -> (r: Integer)
    ensures
        r@ == a@ - b@,
{
    let x = BigInt::from_signed_bytes_be(&a.bytes) - BigInt::from_signed_bytes_be(&b.bytes);
    Integer { bytes: x.to_signed_bytes_be() }
}

/// `*` of `BigInt`: the product.
#[verifier::external_body]
pub(crate) fn int_mul(a: &Integer, b: &Integer) -> (r: Integer)
    ensures
        r@ == a@ * b@,
{
    let x = BigInt::from_signed_bytes_be(&a.bytes) * BigInt::from_signed_bytes_be(&b.bytes);
    Integer { bytes: x.to_signed_bytes_be() }
}

/// `/` of `BigInt`: the quotient rounded toward zero. It panics on a zero
/// divisor, which `requires` leaves out.
#[verifier::external_body]
pub(crate) fn int_div(a: &Integer, b: &Integer) -> (r: Integer)
    requires
        b@ != 0,
    ensures
        r@ == trunc_div(a@, b@),
{
    let x = BigInt::from_signed_bytes_be(&a.bytes) / BigInt::from_signed_bytes_be(&b.bytes);
    Integer { bytes: x.to_signed_bytes_be() }
}

/// `%` of `BigInt`: the remainder of the division rounded toward zero. It
/// panics on a zero divisor, which `requires` leaves out.
#[verifier::external_body]
pub(crate) fn int_rem(a: &Integer, b: &Integer) -> (r: Integer)
    requires
        b@ != 0,
    ensures
        r@ == trunc_rem(a@, b@),
{
    let x = BigInt::from_signed_bytes_be(&a.bytes) % BigInt::from_signed_bytes_be(&b.bytes);
    Integer { bytes: x.to_signed_bytes_be() }
}

} // verus!
