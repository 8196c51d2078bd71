//! Message authentication codes on AES-192 and SHA-256: CBC-MAC, OMAC and an
//! HMAC written out by hand, with the extension forgery that CBC-MAC allows.

use crate::encmodes::{block_at, block_count, block_of, count_blocks, pad_length};
use crate::primitives::{
    aes192_decrypt, aes192_decrypt_one, aes192_encrypt, aes192_encrypt_one, hex_chars, hex_encode,
    hmac_of_block, hmac_sha256_tag, key_block, repeated, sha256, sha256_digest, xored,
};
use vstd::prelude::*;
use vstd::utf8::encode_utf8;

verus! {

/// A block of 16 bytes, read as a polynomial over two elements, multiplied by
/// `x` modulo `x^128 + x^7 + x^2 + x + 1`: shifted left by one bit, and mixed
/// with `0x87` in the last byte where the highest bit fell out.
pub open spec fn doubled(block: Seq<u8>) -> Seq<u8> {
    Seq::new(
        16,
        |i: int|
            {
                let low: u8 = if i < 15 {
                    block[i + 1] >> 7
                } else {
                    0
                };
                let shifted: u8 = (block[i] << 1) | low;
                if i == 15 && block[0] >= 0x80 {
                    shifted ^ 0x87
                } else {
                    shifted
                }
            },
    )
}

/// The data, the byte `0x80`, and zeros to the end of the block; a whole block
/// where the data ends on a block's end.
pub open spec fn one_zeros_padded(data: Seq<u8>, block_size: nat) -> Seq<u8> {
    data + seq![0x80u8] + repeated(0, (pad_length(data.len(), block_size) - 1) as nat)
}

/// The same padding, but none where the data ends on a block's end.
pub open spec fn one_zeros_padded_zero(data: Seq<u8>, block_size: nat) -> Seq<u8> {
    if data.len() % block_size == 0 {
        data
    } else {
        one_zeros_padded(data, block_size)
    }
}

/// The state of the CBC chain after the first `i` blocks of `data`: 16 zero
/// bytes at the start, and after each block the encryption of the state mixed
/// with the block.
pub open spec fn cbc_mac_state(key: Seq<u8>, data: Seq<u8>, i: int) -> Seq<u8>
    decreases i,
{
    if i <= 0 {
        repeated(0, 16)
    } else {
        aes192_encrypt(key, xored(cbc_mac_state(key, data, i - 1), block_at(data, i - 1)))
    }
}

/// The CBC-MAC of `data`: the state of the chain after all blocks of the
/// padded data.
pub open spec fn cbc_mac(key: Seq<u8>, data: Seq<u8>) -> Seq<u8> {
    let padded = one_zeros_padded_zero(data, 16);
    cbc_mac_state(key, padded, block_count(padded.len()) as int)
}

/// The first of the two keys that OMAC derives from the cipher key.
pub open spec fn omac_k1(key: Seq<u8>) -> Seq<u8> {
    doubled(aes192_encrypt(key, repeated(0, 16)))
}

/// The second of the two keys that OMAC derives from the cipher key.
pub open spec fn omac_k2(key: Seq<u8>) -> Seq<u8> {
    doubled(omac_k1(key))
}

/// The last block that OMAC feeds into the chain: a full block mixed with the
/// first derived key, a short one padded and mixed with the second.
pub open spec fn omac_last_block(key: Seq<u8>, last: Seq<u8>) -> Seq<u8> {
    if last.len() == 16 {
        xored(last, omac_k1(key))
    } else {
        xored(one_zeros_padded(last, 16), omac_k2(key))
    }
}

/// The OMAC of `data`. Of empty data it is the encryption of the padding
/// block alone.
pub open spec fn omac(key: Seq<u8>, data: Seq<u8>) -> Seq<u8> {
    let n = block_count(data.len()) as int;
    if n == 0 {
        aes192_encrypt(key, xored(repeated(0, 16), one_zeros_padded(Seq::empty(), 16)))
    } else {
        aes192_encrypt(
            key,
            xored(
                cbc_mac_state(key, data, n - 1),
                omac_last_block(key, data.subrange(16 * (n - 1), data.len() as int)),
            ),
        )
    }
}

/// The HMAC of `data` under a cipher key: HMAC-SHA-256 keyed by the key's
/// hexadecimal text.
pub open spec fn hmac(key: Seq<u8>, data: Seq<u8>) -> Seq<u8> {
    hmac_sha256_tag(encode_utf8(hex_chars(key)), data)
}

proof fn lemma_double_byte(b: u8)
    by (bit_vector)
    ensures
        (b & 0x80) >> 7 == b >> 7,
        ((b & 0x80) >> 7 != 0) == (b >= 0x80),
{
}

proof fn lemma_xor_cancels(t: u8, s: u8)
    by (bit_vector)
    ensures
        t ^ (s ^ t) == 0u8 ^ s,
{
}

/// The state of the chain after `i` blocks depends on those blocks alone.
proof fn lemma_state_of_prefix(key: Seq<u8>, data: Seq<u8>, longer: Seq<u8>, i: int)
    requires
        0 <= i,
        16 * i <= data.len() <= longer.len(),
        forall|k: int| 0 <= k < data.len() ==> data[k] == longer[k],
    ensures
        cbc_mac_state(key, data, i) == cbc_mac_state(key, longer, i),
    decreases i,
{
    if i > 0 {
        lemma_state_of_prefix(key, data, longer, i - 1);
        assert(block_at(data, i - 1) =~= block_at(longer, i - 1));
    }
}

/// Why the extension forgery works: for a message `m` of whole blocks with a
/// tag of 16 bytes, the CBC-MAC of `m || (s_block ^ tag)` is the CBC-MAC of
/// `s_block` alone.
pub proof fn lemma_cbc_mac_extension(key: Seq<u8>, m: Seq<u8>, s_block: Seq<u8>)
    requires
        m.len() % 16 == 0,
        s_block.len() == 16,
        cbc_mac(key, m).len() == 16,
    ensures
        cbc_mac(key, m + xored(s_block, cbc_mac(key, m))) == cbc_mac(key, s_block),
{
    let n = (m.len() / 16) as int;
    let tag = cbc_mac(key, m);
    let mid = xored(s_block, tag);
    let forged = m + mid;
    assert(one_zeros_padded_zero(m, 16) == m);
    assert(one_zeros_padded_zero(forged, 16) == forged);
    assert(one_zeros_padded_zero(s_block, 16) == s_block);
    lemma_state_of_prefix(key, m, forged, n);
    assert(block_at(forged, n) =~= mid);
    assert(block_at(s_block, 0) =~= s_block);
    assert(xored(tag, mid) =~= xored(repeated(0, 16), s_block)) by {
        assert forall|j: int| 0 <= j < 16 implies tag[j] ^ mid[j] == 0u8 ^ s_block[j] by {
            lemma_xor_cancels(tag[j], s_block[j]);
        }
    }
    assert(cbc_mac_state(key, s_block, 1) == aes192_encrypt(
        key,
        xored(cbc_mac_state(key, s_block, 0), block_at(s_block, 0)),
    ));
    assert(cbc_mac_state(key, forged, n + 1) == aes192_encrypt(
        key,
        xored(cbc_mac_state(key, forged, n), block_at(forged, n)),
    ));
}

/// Byte by byte, the exclusive or of `a` and `b` into the start of `out`.
pub fn xor_arrays(a: &[u8], b: &[u8], out: &mut [u8])
    requires
        a@.len() == b@.len(),
        old(out)@.len() >= a@.len(),
    ensures
        final(out)@.len() == old(out)@.len(),
        forall|i: int| 0 <= i < a@.len() ==> final(out)@[i] == a@[i] ^ b@[i],
        forall|i: int| a@.len() <= i < old(out)@.len() ==> final(out)@[i] == old(out)@[i],
{
    let mut i: usize = 0;
    while i < a.len()
        invariant
            i <= a@.len(),
            a@.len() == b@.len(),
            out@.len() == old(out)@.len(),
            out@.len() >= a@.len(),
            forall|j: int| 0 <= j < i ==> out@[j] == a@[j] ^ b@[j],
            forall|j: int| i <= j < out@.len() ==> out@[j] == old(out)@[j],
        decreases a@.len() - i,
    {
        out[i] = a[i] ^ b[i];
        i += 1;
    }
}

/// The two byte strings one after the other.
pub fn concat_bytes(a: &[u8], b: &[u8]) -> (v: Vec<u8>)
    ensures
        v@ == a@ + b@,
{
    let mut v: Vec<u8> = Vec::new();
    v.extend_from_slice(a);
    v.extend_from_slice(b);
    assert(v@ =~= a@ + b@);
    v
}

/// The two keys that OMAC derives from the cipher key.
pub fn gen_keys(key: &[u8; 24]) -> (r: ([u8; 16], [u8; 16]))
    ensures
        r.0@ == omac_k1(key@),
        r.1@ == omac_k2(key@),
{
    let zero_block = [0u8; 16];
    assert(zero_block@ =~= repeated(0, 16));
    let l = aes192_encrypt_block(key, &zero_block);
    let k1 = temp(&l);
    let k2 = temp(&k1);
    (k1, k2)
}

/// The block multiplied by `x`.
pub fn temp(block: &[u8; 16]) -> (out: [u8; 16])
    ensures
        out@ == doubled(block@),
{
    let mut out = [0u8; 16];
    let mut carry: u8 = 0u8;
    let mut i: usize = 16;
    while i > 0
        invariant
            i <= 16,
            carry == if i < 16 {
                block[i as int] >> 7
            } else {
                0
            },
            forall|k: int|
                i <= k < 16 ==> out[k] == (block[k] << 1) | (if k < 15 {
                    block[k + 1] >> 7
                } else {
                    0
                }),
        decreases i,
    {
        i -= 1;
        let b: u8 = block[i];
        out[i] = (b << 1) | carry;
        proof {
            lemma_double_byte(b);
        }
        carry = (b & 0x80) >> 7;
    }
    proof {
        lemma_double_byte(block[0]);
    }
    if carry != 0 {
        out[15] = out[15] ^ 0x87;
    }
    assert(out@ =~= doubled(block@));
    out
}

/// One block encrypted with AES-192.
pub fn aes192_encrypt_block(key: &[u8; 24], block: &[u8; 16]) -> (r: [u8; 16])
    ensures
        r@ == aes192_encrypt(key@, block@),
{
    aes192_encrypt_one(key, block)
}

/// One block decrypted with AES-192.
pub fn aes192_decrypt_block(key: &[u8; 24], block: &[u8; 16]) -> (r: [u8; 16])
    ensures
        r@ == aes192_decrypt(key@, block@),
{
    aes192_decrypt_one(key, block)
}

/// The SHA-256 digest of `data`.
pub fn hasher_sha256(data: &[u8]) -> (out: [u8; 32])
    ensures
        out@ == sha256(data@),
{
    sha256_digest(data)
}

/// The key block of 64 bytes for the HMAC of a key given as text.
pub fn key_gen(data: &String) -> (result: [u8; 64])
    ensures
        result@ == key_block(encode_utf8(data@)),
{
    let bytes = data.as_str().as_bytes();
    let mut result = [0u8; 64];
    if bytes.len() <= 64 {
        let mut i: usize = 0;
        while i < bytes.len()
            invariant
                i <= bytes@.len() <= 64,
                forall|k: int| 0 <= k < i ==> result[k] == bytes@[k],
                forall|k: int| i <= k < 64 ==> result[k] == 0,
            decreases bytes@.len() - i,
        {
            result[i] = bytes[i];
            i += 1;
        }
    } else {
        let r = hasher_sha256(bytes);
        let mut i: usize = 0;
        while i < 32
            invariant
                i <= 32,
                forall|k: int| 0 <= k < i ==> result[k] == r[k],
                forall|k: int| i <= k < 64 ==> result[k] == 0,
            decreases 32 - i,
        {
            result[i] = r[i];
            i += 1;
        }
    }
    assert(result@ =~= key_block(bytes@));
    result
}

/// Appends `0x80` and `pad_len - 1` zeros.
fn push_padding(out: &mut Vec<u8>, pad_len: usize)
    requires
        pad_len >= 1,
    ensures
        final(out)@ == old(out)@ + seq![0x80u8] + repeated(0, (pad_len - 1) as nat),
{
    out.push(0x80);
    let mut i: usize = 1;
    while i < pad_len
        invariant
            1 <= i <= pad_len,
            out@.len() == old(out)@.len() + i,
            forall|k: int| 0 <= k < old(out)@.len() ==> out@[k] == old(out)@[k],
            out@[old(out)@.len() as int] == 0x80,
            forall|k: int| old(out)@.len() < k < out@.len() ==> out@[k] == 0,
        decreases pad_len - i,
    {
        out.push(0u8);
        i += 1;
    }
    assert(out@ =~= old(out)@ + seq![0x80u8] + repeated(0, (pad_len - 1) as nat));
}

/// The padding of `0x80` and zeros, with nothing added where the data ends on
/// a block's end.
pub fn one_zeros_pad_zero(data: &[u8], block_size: usize) -> (out: Vec<u8>)
    requires
        0 < block_size <= 255,
    ensures
        out@ == one_zeros_padded_zero(data@, block_size as nat),
{
    let rem: usize = data.len() % block_size;
    if rem == 0 {
        return vstd::slice::slice_to_vec(data);
    }
    let pad_len: usize = block_size - rem;
    let mut out = vstd::slice::slice_to_vec(data);
    push_padding(&mut out, pad_len);
    out
}

/// The padding of `0x80` and zeros to the end of the block.
pub fn one_zeros_pad(data: &[u8], block_size: usize) -> (padded: Vec<u8>)
    requires
        0 < block_size <= 255,
    ensures
        padded@ == one_zeros_padded(data@, block_size as nat),
{
    let pad_len: usize = block_size - (data.len() % block_size);
    let mut padded = vstd::slice::slice_to_vec(data);
    push_padding(&mut padded, pad_len);
    padded
}

/// The CBC-MAC of `data` with AES-192.
pub fn imito_cbc_mac(key: &[u8; 24], data: &[u8]) -> (r: Vec<u8>)
    ensures
        r@ == cbc_mac(key@, data@),
        r@.len() == 16,
{
    let padded_data = one_zeros_pad_zero(data, 16);
    let mut result = [0u8; 16];
    assert(result@ =~= repeated(0, 16));
    let n = count_blocks(padded_data.len());
    let mut i: usize = 0;
    while i < n
        invariant
            i <= n,
            n == block_count(padded_data@.len()),
            16 * n < padded_data@.len() + 16,
            result@ == cbc_mac_state(key@, padded_data@, i as int),
        decreases n - i,
    {
        let mut res = [0u8; 16];
        let block16 = block_of(padded_data.as_slice(), i);
        xor_arrays(&result, &block16, &mut res);
        assert(res@ =~= xored(result@, block16@));
        result = aes192_encrypt_block(key, &res);
        i += 1;
    }
    vstd::slice::slice_to_vec(result.as_slice())
}

/// Whether two byte strings are the same.
fn same_bytes(a: &[u8], b: &[u8]) -> (r: bool)
    ensures
        r == (a@ == b@),
{
    if a.len() != b.len() {
        return false;
    }
    let mut i: usize = 0;
    while i < a.len()
        invariant
            i <= a@.len(),
            a@.len() == b@.len(),
            forall|k: int| 0 <= k < i ==> a@[k] == b@[k],
        decreases a@.len() - i,
    {
        if a[i] != b[i] {
            return false;
        }
        i += 1;
    }
    assert(a@ =~= b@);
    true
}

/// Whether `imito` is the CBC-MAC of `data`.
pub fn imito_cbc_mac_verify(imito: &[u8], data: &[u8], key: &[u8; 24]) -> (r: bool)
    ensures
        r == (imito@ == cbc_mac(key@, data@)),
{
    let new_imito = imito_cbc_mac(key, data);
    if same_bytes(new_imito.as_slice(), imito) {
        return true;
    }
    false
}

/// The OMAC of `data` with AES-192.
pub fn imito_omac(key: &[u8; 24], data: &[u8]) -> (r: Vec<u8>)
    ensures
        r@ == omac(key@, data@),
        r@.len() == 16,
{
    let (k1, k2) = gen_keys(key);

    let mut result = [0u8; 16];
    assert(result@ =~= repeated(0, 16));
    let n = count_blocks(data.len());
    if n == 0 {
        let empty: [u8; 0] = [];
        assert(empty@ =~= Seq::<u8>::empty());
        let block = one_zeros_pad(empty.as_slice(), 16);
        let mut res = [0u8; 16];
        let block16 = block_of(block.as_slice(), 0);
        assert(block16@ =~= block@);
        xor_arrays(&result, &block16, &mut res);
        assert(res@ =~= xored(result@, block16@));
        result = aes192_encrypt_block(key, &res);
    } else {
        let mut i: usize = 0;
        while i < n - 1
            invariant
                i <= n - 1,
                n >= 1,
                n == block_count(data@.len()),
                16 * n < data@.len() + 16,
                result@ == cbc_mac_state(key@, data@, i as int),
            decreases n - 1 - i,
        {
            let mut res = [0u8; 16];
            let block16 = block_of(data, i);
            xor_arrays(&result, &block16, &mut res);
            assert(res@ =~= xored(result@, block16@));
            result = aes192_encrypt_block(key, &res);
            i += 1;
        }

        let last = vstd::slice::slice_subrange(data, 16 * (n - 1), data.len());
        let mut last_block = [0u8; 16];

        if last.len() == 16 {
            xor_arrays(last, &k1, &mut last_block);
            assert(last_block@ =~= xored(last@, k1@));
        } else {
            let padded = one_zeros_pad(last, 16);
            let padded16 = block_of(padded.as_slice(), 0);
            assert(padded16@ =~= padded@);
            xor_arrays(&padded16, &k2, &mut last_block);
            assert(last_block@ =~= xored(padded16@, k2@));
        }

        let mut res = [0u8; 16];
        xor_arrays(&result, &last_block, &mut res);
        assert(res@ =~= xored(result@, last_block@));
        result = aes192_encrypt_block(key, &res);
    }
    vstd::slice::slice_to_vec(result.as_slice())
}

/// Whether `imito` is the OMAC of `data`.
pub fn imito_omac_verify(imito: &[u8], data: &[u8], key: &[u8; 24]) -> (r: bool)
    ensures
        r == (imito@ == omac(key@, data@)),
{
    let new_imito = imito_omac(key, data);
    if same_bytes(new_imito.as_slice(), imito) {
        return true;
    }
    false
}

/// The HMAC of `data` with SHA-256, keyed by the hexadecimal text of `key`.
pub fn imito_hmac(key: &[u8; 24], data: &[u8]) -> (r: Vec<u8>)
    ensures
        r@ == hmac(key@, data@),
        r@.len() == 32,
{
    let s = hex_encode(key.as_slice());
    let mut xor_ipad = [0u8; 64];
    let mut xor_opad = [0u8; 64];
    let key_plus = key_gen(&s);
    let ipad: [u8; 64] = [0x36; 64];
    let opad: [u8; 64] = [0x5C; 64];
    assert(ipad@ =~= repeated(0x36, 64));
    assert(opad@ =~= repeated(0x5c, 64));
    xor_arrays(&ipad, &key_plus, &mut xor_ipad);
    xor_arrays(&opad, &key_plus, &mut xor_opad);
    assert(xor_ipad@ =~= xored(ipad@, key_plus@));
    assert(xor_opad@ =~= xored(opad@, key_plus@));
    let inner = concat_bytes(&xor_ipad, data);
    let h1 = hasher_sha256(inner.as_slice());
    let outer = concat_bytes(&xor_opad, &h1);
    let h2 = hasher_sha256(outer.as_slice());
    vstd::slice::slice_to_vec(h2.as_slice())
}

/// Whether `imito` is the HMAC of `data`.
pub fn imito_hmac_verify(imito: &[u8], data: &[u8], key: &[u8; 24]) -> (r: bool)
    ensures
        r == (imito@ == hmac(key@, data@)),
{
    let new_imito = imito_hmac(key, data);
    if same_bytes(new_imito.as_slice(), imito) {
        return true;
    }
    false
}

/// The oracle may give `tag` for a message of the bytes `message`.
pub open spec fn oracle_gives<F: Fn(&[u8]) -> Vec<u8>>(
    tag_oracle: F,
    message: Seq<u8>,
    tag: Vec<u8>,
) -> bool {
    exists|x: &[u8]| x@ == message && #[trigger] call_ensures(tag_oracle, (x,), tag)
}

/// The extension forgery on a MAC that chains blocks without a final key:
/// from the tag of `m`, which has to have 16 bytes, the message
/// `m || (s_block ^ tag)` and the tag that the oracle gives for it.
pub fn forge_cbc_mac_with_oracle<F>(tag_oracle: F, m: &[u8], s_block: &[u8; 16]) -> (r: (
    Vec<u8>,
    Vec<u8>,
)) where F: Fn(&[u8]) -> Vec<u8>
    requires
        forall|x: &[u8]| call_requires(tag_oracle, (x,)),
        forall|t: Vec<u8>| call_ensures(tag_oracle, (m,), t) ==> t@.len() == 16,
    ensures
        exists|tag_m: Vec<u8>|
            #![trigger oracle_gives(tag_oracle, m@, tag_m)]
            oracle_gives(tag_oracle, m@, tag_m) && r.0@ == m@ + xored(s_block@, tag_m@),
        oracle_gives(tag_oracle, r.0@, r.1),
{
    let tag_m = tag_oracle(m);
    assert(oracle_gives(tag_oracle, m@, tag_m)) by {
        assert(call_ensures(tag_oracle, (m,), tag_m));
    }

    let mut mid = [0u8; 16];
    let mut i: usize = 0;
    while i < 16
        invariant
            i <= 16,
            tag_m@.len() == 16,
            forall|k: int| 0 <= k < i ==> mid[k] == s_block[k] ^ tag_m@[k],
        decreases 16 - i,
    {
        mid[i] = s_block[i] ^ tag_m[i];
        i += 1;
    }
    assert(mid@ =~= xored(s_block@, tag_m@));

    let mut forged: Vec<u8> = Vec::new();
    forged.extend_from_slice(m);
    forged.extend_from_slice(mid.as_slice());
    assert(forged@ =~= m@ + mid@);

    let forged_slice = forged.as_slice();
    let tag_forged = tag_oracle(forged_slice);
    assert(oracle_gives(tag_oracle, forged@, tag_forged)) by {
        assert(forged_slice@ == forged@ && call_ensures(tag_oracle, (forged_slice,), tag_forged));
    }

    (forged, tag_forged)
}

} // verus!
