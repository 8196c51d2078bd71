//! One round of a Feistel block cipher on blocks of 64 bits, with the round
//! function of DES: expansion to 48 bits, mixing with the round key, eight
//! substitution boxes and a final permutation.

use crate::struct_u48::{picked, U48};
use vstd::prelude::*;

verus! {

/// The expansion: for each of the 48 bits that come out, the bit of the
/// half-block that goes in, counted from 1 at the highest bit.
pub const E_PATTERN: [usize; 48] = [
    32, 1, 2, 3, 4, 5,
    4, 5, 6, 7, 8, 9,
    8, 9, 10, 11, 12, 13,
    12, 13, 14, 15, 16, 17,
    16, 17, 18, 19, 20, 21,
    20, 21, 22, 23, 24, 25,
    24, 25, 26, 27, 28, 29,
    28, 29, 30, 31, 32, 1,
];

/// The final permutation: for each of the 32 bits that come out, from the
/// lowest up, the bit that goes in, counted from 1 at the lowest bit.
pub const P_PATTERN: [usize; 32] = [
    16, 7, 20, 21, 29, 12, 28, 17, 1, 15, 23, 26, 5, 18, 31, 10,
    2, 8, 24, 14, 32, 27, 3, 9, 19, 13, 30, 6, 22, 11, 4, 25,
];

/// The eight substitution boxes, each of four rows and sixteen columns.
pub const TABLES: [[[u8; 16]; 4]; 8] = [
    [
        [14, 4, 13, 1, 2, 15, 11, 8, 3, 10, 6, 12, 5, 9, 0, 7],
        [0, 15, 7, 4, 14, 2, 13, 1, 10, 6, 12, 11, 9, 5, 3, 8],
        [4, 1, 14, 8, 13, 6, 2, 11, 15, 12, 9, 7, 3, 10, 5, 0],
        [15, 12, 8, 2, 4, 9, 1, 7, 5, 11, 3, 14, 10, 0, 6, 13],
    ],
    [
        [15, 1, 8, 14, 6, 11, 3, 4, 9, 7, 2, 13, 12, 0, 5, 10],
        [3, 13, 4, 7, 15, 2, 8, 14, 12, 0, 1, 10, 6, 9, 11, 5],
        [0, 14, 7, 11, 10, 4, 13, 1, 5, 8, 12, 6, 9, 3, 2, 15],
        [13, 8, 10, 1, 3, 15, 4, 2, 11, 6, 7, 12, 0, 5, 14, 9],
    ],
    [
        [10, 0, 9, 14, 6, 3, 15, 5, 1, 13, 12, 7, 11, 4, 2, 8],
        [13, 7, 0, 9, 3, 4, 6, 10, 2, 8, 5, 14, 12, 11, 15, 1],
        [13, 6, 4, 9, 8, 15, 3, 0, 11, 1, 2, 12, 5, 10, 14, 7],
        [1, 10, 13, 0, 6, 9, 8, 7, 4, 15, 14, 3, 11, 5, 2, 12],
    ],
    [
        [7, 13, 14, 3, 0, 6, 9, 10, 1, 2, 8, 5, 11, 12, 4, 15],
        [13, 8, 11, 5, 6, 15, 0, 3, 4, 7, 2, 12, 1, 10, 14, 9],
        [10, 6, 9, 0, 12, 11, 7, 13, 15, 1, 3, 14, 5, 2, 8, 4],
        [3, 15, 0, 6, 10, 1, 13, 8, 9, 4, 5, 11, 12, 7, 2, 14],
    ],
    [
        [2, 12, 4, 1, 7, 10, 11, 6, 8, 5, 3, 15, 13, 0, 14, 9],
        [14, 11, 2, 12, 4, 7, 13, 1, 5, 0, 15, 10, 3, 9, 8, 6],
        [4, 2, 1, 11, 10, 13, 7, 8, 15, 9, 12, 5, 6, 3, 0, 14],
        [11, 8, 12, 7, 1, 14, 2, 13, 6, 15, 0, 9, 10, 4, 5, 3],
    ],
    [
        [12, 1, 10, 15, 9, 2, 6, 8, 0, 13, 3, 4, 14, 7, 5, 11],
        [10, 15, 4, 2, 7, 12, 9, 5, 6, 1, 13, 14, 0, 11, 3, 8],
        [9, 14, 15, 5, 2, 8, 12, 3, 7, 0, 4, 10, 1, 13, 11, 6],
        [4, 3, 2, 12, 9, 5, 15, 10, 11, 14, 1, 7, 6, 0, 8, 13],
    ],
    [
        [4, 11, 2, 14, 15, 0, 8, 13, 3, 12, 9, 7, 5, 10, 6, 1],
        [13, 0, 11, 7, 4, 9, 1, 10, 14, 3, 5, 12, 2, 15, 8, 6],
        [1, 4, 11, 13, 12, 3, 7, 14, 10, 15, 6, 8, 0, 5, 9, 2],
        [6, 11, 13, 8, 1, 4, 10, 7, 9, 5, 0, 15, 14, 2, 3, 12],
    ],
    [
        [13, 2, 8, 4, 6, 15, 11, 1, 10, 9, 3, 14, 5, 0, 12, 7],
        [1, 15, 13, 8, 10, 3, 7, 4, 12, 5, 6, 11, 0, 14, 9, 2],
        [7, 11, 4, 1, 9, 12, 14, 2, 0, 6, 10, 13, 15, 3, 5, 8],
        [2, 1, 14, 7, 4, 10, 8, 13, 15, 12, 9, 0, 3, 5, 6, 11],
    ],
];

/// 1 for a set bit, 0 for a cleared one.
pub open spec fn bit_value(b: bool) -> int {
    if b {
        1
    } else {
        0
    }
}

/// The row that the six bits of group `i` pick in their box: the first and
/// the last of them.
pub open spec fn sbox_row(bits: Seq<bool>, i: int) -> int {
    2 * bit_value(bits[6 * i]) + bit_value(bits[6 * i + 5])
}

/// The column that the six bits of group `i` pick in their box: the four in
/// the middle.
pub open spec fn sbox_column(bits: Seq<bool>, i: int) -> int {
    8 * bit_value(bits[6 * i + 1]) + 4 * bit_value(bits[6 * i + 2]) + 2 * bit_value(
        bits[6 * i + 3],
    ) + bit_value(bits[6 * i + 4])
}

/// What box `i` gives for the six bits of group `i`.
pub open spec fn sbox_output(bits: Seq<bool>, i: int) -> u8 {
    TABLES[i][sbox_row(bits, i)][sbox_column(bits, i)]
}

/// The outputs of the first `k` boxes, each in its place: box 0 in the highest
/// four bits.
pub open spec fn substituted_upto(bits: Seq<bool>, k: int) -> u32
    decreases k,
{
    if k <= 0 {
        0
    } else {
        substituted_upto(bits, k - 1) ^ ((sbox_output(bits, k - 1) as u32) << ((4 * (8 - k)) as usize))
    }
}

/// The 32 bits that the eight boxes give for 48 bits.
pub open spec fn substituted(bits: Seq<bool>) -> u32 {
    substituted_upto(bits, 8)
}

/// The lowest `k` bits of the permuted word, the others cleared.
pub open spec fn permuted_upto(x: u32, k: int) -> u32
    decreases k,
{
    if k <= 0 {
        0
    } else {
        permuted_upto(x, k - 1) | (((x >> ((P_PATTERN[k - 1] - 1) as usize)) & 1) << ((k - 1) as usize))
    }
}

/// The word whose bit `i`, from the lowest up, is bit `P_PATTERN[i] - 1` of `x`.
pub open spec fn permuted(x: u32) -> u32 {
    permuted_upto(x, 32)
}

/// Bit by bit, whether two strings of 48 bits differ.
pub open spec fn mixed(a: Seq<bool>, b: Seq<bool>) -> Seq<bool> {
    Seq::new(48, |i: int| a[i] != b[i])
}

/// The round function: expand the half-block, mix in the key, substitute, permute.
pub open spec fn round_function(key: Seq<bool>, block: u32) -> u32 {
    permuted(substituted(mixed(picked(block, E_PATTERN@), key)))
}

/// The high half of a block.
pub open spec fn high_half(x: u64) -> u32 {
    (x >> 32) as u32
}

/// The low half of a block.
pub open spec fn low_half(x: u64) -> u32 {
    (x & 0xffff_ffff) as u32
}

/// The block made of two halves.
pub open spec fn joined(high: u32, low: u32) -> u64 {
    ((high as u64) << 32) | (low as u64)
}

/// One round forward: the low half moves up, and the high half, mixed with
/// the round function of the low half, moves down.
pub open spec fn forward_round(input: u64, key: Seq<bool>) -> u64 {
    joined(low_half(input), high_half(input) ^ round_function(key, low_half(input)))
}

/// One round backward: the high half moves down, and the low half, mixed with
/// the round function of the high half, moves up.
pub open spec fn backward_round(input: u64, key: Seq<bool>) -> u64 {
    joined(low_half(input) ^ round_function(key, high_half(input)), high_half(input))
}

proof fn lemma_or_bit(r: u32, b: u32, i: usize, j: usize)
    by (bit_vector)
    requires
        b <= 1,
        i < 32,
        j < 32,
    ensures
        ((r | (b << i)) >> j) & 1 == if j == i {
            ((r >> j) & 1) | b
        } else {
            (r >> j) & 1
        },
        0u32 | b == b,
        (0u32 >> j) & 1 == 0,
{
}

proof fn lemma_source_bit(x: u32, k: usize)
    by (bit_vector)
    requires
        k < 32,
    ensures
        (x >> k) & 1 <= 1,
{
}

/// Bit `j` of the permuted word is bit `P_PATTERN[j] - 1` of the word that
/// went in.
pub proof fn lemma_permuted_bits(x: u32, k: int)
    requires
        0 <= k <= 32,
    ensures
        forall|j: int|
            0 <= j < 32 ==> #[trigger] ((permuted_upto(x, k) >> (j as usize)) & 1) == if j < k {
                (x >> ((P_PATTERN[j] - 1) as usize)) & 1
            } else {
                0
            },
    decreases k,
{
    if k == 0 {
        assert forall|j: int| 0 <= j < 32 implies #[trigger] ((permuted_upto(x, k) >> (j as usize))
            & 1) == 0 by {
            lemma_or_bit(0, 0, 0, j as usize);
        }
    } else {
        lemma_permuted_bits(x, k - 1);
        let before = permuted_upto(x, k - 1);
        let source = (P_PATTERN[k - 1] - 1) as usize;
        let bit = (x >> source) & 1;
        lemma_source_bit(x, source);
        assert forall|j: int| 0 <= j < 32 implies #[trigger] ((permuted_upto(x, k) >> (j as usize))
            & 1) == if j < k {
            (x >> ((P_PATTERN[j] - 1) as usize)) & 1
        } else {
            0
        } by {
            lemma_or_bit(before, bit, (k - 1) as usize, j as usize);
            assert((before >> (j as usize)) & 1 == if j < k - 1 {
                (x >> ((P_PATTERN[j] - 1) as usize)) & 1
            } else {
                0
            });
        }
    }
}

proof fn lemma_xor_nibble(r: u32, part: u32, shift: usize, at: usize)
    by (bit_vector)
    requires
        part < 16,
        shift <= 28,
        shift % 4 == 0,
        at <= 28,
        at % 4 == 0,
    ensures
        ((r ^ (part << shift)) >> at) & 0xf == if at == shift {
            ((r >> at) & 0xf) ^ part
        } else {
            (r >> at) & 0xf
        },
        0u32 ^ part == part,
        (0u32 >> at) & 0xf == 0,
{
}

/// Every entry of the substitution boxes is below 16.
pub proof fn lemma_table_entries(i: int, row: int, column: int)
    requires
        0 <= i < 8,
        0 <= row < 4,
        0 <= column < 16,
    ensures
        TABLES[i][row][column] < 16,
{
}

/// The four bits of group `i` in the substituted word are what box `i` gives.
pub proof fn lemma_substituted_nibbles(bits: Seq<bool>, k: int)
    requires
        0 <= k <= 8,
        bits.len() == 48,
    ensures
        forall|i: int|
            0 <= i < 8 ==> #[trigger] ((substituted_upto(bits, k) >> ((4 * (7 - i)) as usize)) & 0xf)
                == if i < k {
                sbox_output(bits, i) as u32
            } else {
                0
            },
    decreases k,
{
    if k == 0 {
        assert forall|i: int| 0 <= i < 8 implies #[trigger] ((substituted_upto(bits, k) >> ((4 * (7
            - i)) as usize)) & 0xf) == 0 by {
            lemma_xor_nibble(0, 0, 0, (4 * (7 - i)) as usize);
        }
    } else {
        lemma_substituted_nibbles(bits, k - 1);
        let before = substituted_upto(bits, k - 1);
        let part = sbox_output(bits, k - 1) as u32;
        lemma_table_entries(k - 1, sbox_row(bits, k - 1), sbox_column(bits, k - 1));
        assert forall|i: int| 0 <= i < 8 implies #[trigger] ((substituted_upto(bits, k) >> ((4 * (7
            - i)) as usize)) & 0xf) == if i < k {
            sbox_output(bits, i) as u32
        } else {
            0
        } by {
            lemma_xor_nibble(before, part, (4 * (8 - k)) as usize, (4 * (7 - i)) as usize);
            assert((before >> ((4 * (7 - i)) as usize)) & 0xf == if i < k - 1 {
                sbox_output(bits, i) as u32
            } else {
                0
            });
        }
    }
}

proof fn lemma_index_bits(a1: u32, a2: u32, b1: u32, b2: u32, b3: u32, b4: u32)
    by (bit_vector)
    requires
        a1 <= 1,
        a2 <= 1,
        b1 <= 1,
        b2 <= 1,
        b3 <= 1,
        b4 <= 1,
    ensures
        ((b1 << 3) | (b2 << 2) | (b3 << 1) | b4) == 8 * b1 + 4 * b2 + 2 * b3 + b4,
        ((a1 << 1) | a2) == 2 * a1 + a2,
{
}

proof fn lemma_halves(x: u64)
    by (bit_vector)
    ensures
        (x >> 32) <= 0xffff_ffff,
        (x & 0xffff_ffff) <= 0xffff_ffff,
{
}

proof fn lemma_joined_halves(high: u32, low: u32)
    by (bit_vector)
    ensures
        ((((high as u64) << 32) | (low as u64)) >> 32) as u32 == high,
        ((((high as u64) << 32) | (low as u64)) & 0xffff_ffff) as u32 == low,
{
}

proof fn lemma_halves_joined(x: u64)
    by (bit_vector)
    ensures
        ((((x >> 32) as u32) as u64) << 32) | (((x & 0xffff_ffff) as u32) as u64) == x,
{
}

proof fn lemma_xor_twice(a: u32, b: u32)
    by (bit_vector)
    ensures
        (a ^ b) ^ b == a,
{
}

/// A round backward undoes a round forward under the same key.
pub proof fn lemma_backward_undoes_forward(input: u64, key: Seq<bool>)
    ensures
        backward_round(forward_round(input, key), key) == input,
{
    let left = high_half(input);
    let right = low_half(input);
    let f = round_function(key, right);
    lemma_joined_halves(right, left ^ f);
    lemma_xor_twice(left, f);
    lemma_halves_joined(input);
}

/// A round forward undoes a round backward under the same key.
pub proof fn lemma_forward_undoes_backward(input: u64, key: Seq<bool>)
    ensures
        forward_round(backward_round(input, key), key) == input,
{
    let left = high_half(input);
    let right = low_half(input);
    let f = round_function(key, left);
    lemma_joined_halves(right ^ f, left);
    lemma_xor_twice(right, f);
    lemma_halves_joined(input);
}

/// The expansion of a half-block to 48 bits.
pub fn e(value: u32) -> (r: U48)
    ensures
        r@ == picked(value, E_PATTERN@),
{
    let pattern: [usize; 48] = E_PATTERN;
    let result = U48::from_pattern(value, &pattern);
    result
}

/// The substitution: each group of six bits picks four bits from its box.
pub fn s(input: U48) -> (r: u32)
    ensures
        r == substituted(input@),
        forall|i: int|
            0 <= i < 8 ==> #[trigger] ((r >> ((4 * (7 - i)) as usize)) & 0xf) == sbox_output(
                input@,
                i,
            ),
{
    proof {
        input.lemma_len();
        lemma_substituted_nibbles(input@, 8);
    }
    let mut bi: u32 = 0;
    let mut i: usize = 0;
    while i < 8
        invariant
            i <= 8,
            input@.len() == 48,
            bi == substituted_upto(input@, i as int),
        decreases 8 - i,
    {
        let a1: u32 = input.get_bit(0 + i * 6);
        let a2: u32 = input.get_bit(5 + i * 6);
        let b1: u32 = input.get_bit(1 + i * 6);
        let b2: u32 = input.get_bit(2 + i * 6);
        let b3: u32 = input.get_bit(3 + i * 6);
        let b4: u32 = input.get_bit(4 + i * 6);
        proof {
            lemma_index_bits(a1, a2, b1, b2, b3, b4);
        }
        let index1: usize = ((b1 << 3) | (b2 << 2) | (b3 << 1) | b4) as usize;
        let index2: usize = ((a1 << 1) | a2) as usize;
        let part: u32 = TABLES[i][index2][index1] as u32;
        bi = bi ^ (part << 4 * (7 - i));
        i += 1;
    }
    bi
}

/// The final permutation of 32 bits.
pub fn p(string: u32) -> (r: u32)
    ensures
        r == permuted(string),
        forall|j: int|
            0 <= j < 32 ==> #[trigger] ((r >> (j as usize)) & 1) == (string >> ((P_PATTERN[j]
                - 1) as usize)) & 1,
{
    proof {
        lemma_permuted_bits(string, 32);
    }
    let mut result: u32 = 0u32;
    let pattern: [usize; 32] = P_PATTERN;
    let mut i: usize = 0;
    while i < 32
        invariant
            i <= 32,
            pattern == P_PATTERN,
            result == permuted_upto(string, i as int),
        decreases 32 - i,
    {
        let bit_pos: usize = pattern[i];
        assert(1 <= bit_pos <= 32);
        let bit: u32 = (string >> (bit_pos - 1)) & 1;
        result |= bit << i;
        i += 1;
    }
    result
}

/// The round function of the half-block `block` under the round key `input`.
pub fn f(input: U48, block: u32) -> (r: u32)
    ensures
        r == round_function(input@, block),
{
    let first: U48 = e(block);
    let second: U48 = first.xor(&input);
    let third: u32 = s(second);
    let result: u32 = p(third);
    result
}

/// One round of encryption.
pub fn forward(input: u64, key: U48) -> (r: u64)
    ensures
        r == forward_round(input, key@),
{
    proof {
        lemma_halves(input);
    }
    let left: u32 = (input >> 32) as u32;
    let right: u32 = (input & 0xffff_ffff) as u32;
    let newleft: u32 = right;
    let newright: u32 = left ^ f(key, right);
    let res: u64 = ((newleft as u64) << 32) | (newright as u64);
    res
}

/// One round of decryption.
pub fn backward(input: u64, key: U48) -> (r: u64)
    ensures
        r == backward_round(input, key@),
{
    proof {
        lemma_halves(input);
    }
    let left: u32 = (input >> 32) as u32;
    let right: u32 = (input & 0xffff_ffff) as u32;
    let newright: u32 = left;
    let newleft: u32 = right ^ f(key, left);
    let res: u64 = ((newleft as u64) << 32) | (newright as u64);
    res
}

} // verus!
