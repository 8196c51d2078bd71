//! A string of 48 bits, the width of a round key.

use crate::primitives::random_array;
use vstd::prelude::*;
use vstd::string::StringExecFns;

verus! {

/// 48 bits in six bytes. Bit 0 is the highest bit of the first byte.
#[derive(Debug, Clone, Copy, PartialEq, Eq)]
pub struct U48 {
    bytes: [u8; 6],
}

/// The bits of a byte string, the highest bit of each byte first.
pub open spec fn bits_of(bytes: Seq<u8>) -> Seq<bool> {
    Seq::new(8 * bytes.len(), |i: int| (bytes[i / 8] >> ((7 - i % 8) as usize)) & 1 == 1)
}

/// Bit `k` of a word of 32 bits, counted from 1 at the highest bit.
pub open spec fn input_bit(input: u32, k: usize) -> bool {
    (input >> ((32 - k) as usize)) & 1 == 1
}

/// The 48 bits that a pattern picks from a word: bit `t` is the word's bit
/// `pattern[t]`, and is not set where `pattern[t]` is 0.
pub open spec fn picked(input: u32, pattern: Seq<usize>) -> Seq<bool> {
    Seq::new(48, |t: int| pattern[t] > 0 && input_bit(input, pattern[t]))
}

/// The bits as text: each group of eight as binary digits with a space behind it.
pub open spec fn bits_text(bits: Seq<bool>) -> Seq<char> {
    Seq::new(
        54,
        |i: int|
            if i % 9 == 8 {
                ' '
            } else if bits[(i / 9) * 8 + i % 9] {
                '1'
            } else {
                '0'
            },
    )
}

proof fn lemma_bit_is_0_or_1(b: u8, k: usize)
    by (bit_vector)
    requires
        k < 8,
    ensures
        (b >> k) & 1 == 0 || (b >> k) & 1 == 1,
{
}

proof fn lemma_xor_bit(a: u8, b: u8, k: usize)
    by (bit_vector)
    requires
        k < 8,
    ensures
        (((a ^ b) >> k) & 1 == 1) == (((a >> k) & 1 == 1) != ((b >> k) & 1 == 1)),
{
}

proof fn lemma_set_bit(b: u8, k: usize, j: usize)
    by (bit_vector)
    requires
        k < 8,
        j < 8,
    ensures
        (((b | (1u8 << k)) >> j) & 1 == 1) == (j == k || (b >> j) & 1 == 1),
        (((b & !(1u8 << k)) >> j) & 1 == 1) == (j != k && (b >> j) & 1 == 1),
{
}

proof fn lemma_zero_bit(k: usize)
    by (bit_vector)
    requires
        k < 8,
    ensures
        (0u8 >> k) & 1 == 0,
{
}

proof fn lemma_word_bit_is_0_or_1(x: u32, k: usize)
    by (bit_vector)
    requires
        k < 32,
    ensures
        (x >> k) & 1 == 0 || (x >> k) & 1 == 1,
{
}

impl View for U48 {
    type V = Seq<bool>;

    closed spec fn view(&self) -> Seq<bool> {
        bits_of(self.bytes@)
    }
}

impl Default for U48 {
    fn default() -> (r: Self)
        ensures
            r@ == Seq::new(48, |i: int| false),
    {
        let r = U48 { bytes: [0u8; 6] };
        proof {
            assert forall|i: int| 0 <= i < 48 implies r@[i] == false by {
                lemma_zero_bit((7 - i % 8) as usize);
            }
            assert(r@ =~= Seq::new(48, |i: int| false));
        }
        r
    }
}

impl U48 {
    /// The 48 bits of six bytes.
    pub fn from_bytes(bytes: [u8; 6]) -> (r: Self)
        ensures
            r@ == bits_of(bytes@),
    {
        Self { bytes }
    }

    /// 48 bits drawn at random.
    pub fn random_pseudo() -> Self {
        let bytes: [u8; 6] = random_array::<6>();
        Self { bytes }
    }

    /// The bits as text, for printing: each group of eight as binary digits
    /// with a space behind it.
    pub fn bits_string(&self) -> (r: String)
        ensures
            r@ == bits_text(self@),
    {
        let mut r = String::new();
        let mut position: usize = 0;
        proof {
            reveal_strlit("0");
            reveal_strlit("1");
            reveal_strlit(" ");
        }
        while position < 48
            invariant
                position <= 48,
                "0"@ == seq!['0'],
                "1"@ == seq!['1'],
                " "@ == seq![' '],
                r@.len() == position + position / 8,
                forall|i: int| 0 <= i < r@.len() ==> r@[i] == bits_text(self@)[i],
            decreases 48 - position,
        {
            if self.get_bit(position) == 1 {
                r.append("1");
            } else {
                r.append("0");
            }
            if position % 8 == 7 {
                r.append(" ");
            }
            position += 1;
        }
        assert(r@ =~= bits_text(self@));
        r
    }

    /// There are always 48 bits.
    pub proof fn lemma_len(&self)
        ensures
            self@.len() == 48,
    {
    }

    /// Bit by bit, whether the two differ.
    pub fn xor(&self, other: &U48) -> (r: U48)
        ensures
            r@ == Seq::new(48, |i: int| self@[i] != other@[i]),
    {
        let mut result = [0u8; 6];
        let mut i: usize = 0;
        while i < 6
            invariant
                i <= 6,
                forall|j: int| 0 <= j < i ==> result[j] == self.bytes[j] ^ other.bytes[j],
            decreases 6 - i,
        {
            result[i] = self.bytes[i] ^ other.bytes[i];
            i += 1;
        }
        let r = U48::from_bytes(result);
        proof {
            assert forall|i: int| 0 <= i < 48 implies r@[i] == (self@[i] != other@[i]) by {
                lemma_xor_bit(self.bytes[i / 8], other.bytes[i / 8], (7 - i % 8) as usize);
            }
            assert(r@ =~= Seq::new(48, |i: int| self@[i] != other@[i]));
        }
        r
    }

    /// The bit at `position`, as 0 or 1.
    pub fn get_bit(&self, position: usize) -> (r: u32)
        requires
            position < 48,
        ensures
            r == if self@[position as int] {
                1u32
            } else {
                0u32
            },
    {
        let byte_index: usize = position / 8;
        let bit_index: usize = 7 - (position % 8);
        proof {
            lemma_bit_is_0_or_1(self.bytes[byte_index as int], bit_index);
        }
        ((self.bytes[byte_index] >> bit_index) & 1) as u32
    }

    /// Sets the bit at `position` to `value`, which is 0 or 1, and leaves the
    /// other bits as they are.
    pub fn set_bit(&mut self, position: usize, value: u32)
        requires
            position < 48,
            value <= 1,
        ensures
            final(self)@ == old(self)@.update(position as int, value == 1),
    {
        let byte_index: usize = position / 8;
        let bit_index: usize = 7 - (position % 8);
        let ghost before = self.bytes;
        let byte: u8 = self.bytes[byte_index];
        if value != 0 {
            self.bytes[byte_index] = byte | (1u8 << bit_index);
        } else {
            self.bytes[byte_index] = byte & !(1u8 << bit_index);
        }
        proof {
            assert forall|i: int| 0 <= i < 48 implies self@[i] == old(self)@.update(
                position as int,
                value == 1,
            )[i] by {
                if i / 8 == byte_index {
                    lemma_set_bit(byte, bit_index, (7 - i % 8) as usize);
                }
            }
            assert(self@ =~= old(self)@.update(position as int, value == 1));
        }
    }

    /// The 48 bits that `pattern` picks from `input`: bit `t` of the result is
    /// bit `pattern[t]` of `input`, counted from 1 at the highest bit, and is
    /// not set where `pattern[t]` is 0.
    pub fn from_pattern(input: u32, pattern: &[usize; 48]) -> (r: Self)
        requires
            forall|t: int| 0 <= t < 48 ==> pattern[t] <= 32,
        ensures
            r@ == picked(input, pattern@),
    {
        let mut result = U48::default();
        let mut target_bit: usize = 0;
        while target_bit < 48
            invariant
                target_bit <= 48,
                forall|t: int| 0 <= t < 48 ==> pattern[t] <= 32,
                result@.len() == 48,
                forall|t: int| 0 <= t < target_bit ==> result@[t] == picked(input, pattern@)[t],
                forall|t: int| target_bit <= t < 48 ==> result@[t] == false,
            decreases 48 - target_bit,
        {
            let source_bit: usize = pattern[target_bit];
            if source_bit > 0 {
                let shift: usize = 32 - source_bit;
                proof {
                    lemma_word_bit_is_0_or_1(input, shift);
                }
                let source_value: u32 = (input >> shift) & 1;
                result.set_bit(target_bit, source_value);
            }
            target_bit += 1;
        }
        assert(result@ =~= picked(input, pattern@));
        result
    }
}

} // verus!
