//! AES-192 in five modes of operation: ECB, CBC, CFB, OFB and CTR.
//!
//! Encryption pads the data to whole blocks of 16 bytes. Decryption takes
//! data of any length, fills a short last block with zeros, and leaves the
//! padding in what it returns.

use crate::primitives::{
    aes192_decrypt, aes192_decrypt_one, aes192_encrypt, aes192_encrypt_one, random_array, xored,
};
use vstd::prelude::*;

verus! {

/// Block `i` of `data`: its 16 bytes from `16 * i` on, with zeros where `data` has ended.
pub open spec fn block_at(data: Seq<u8>, i: int) -> Seq<u8> {
    Seq::new(
        16,
        |j: int|
            if 16 * i + j < data.len() {
                data[16 * i + j]
            } else {
                0u8
            },
    )
}

/// How many blocks of 16 bytes hold `len` bytes.
pub open spec fn block_count(len: nat) -> nat {
    (len + 15) / 16
}

/// How many bytes the padding adds: as many as fill the last block, and a
/// whole block where the data ends on a block's end.
pub open spec fn pad_length(len: nat, block_size: nat) -> nat {
    (block_size - len % block_size) as nat
}

/// The data with its padding: each byte of the padding holds the padding's length.
pub open spec fn padded(data: Seq<u8>, block_size: nat) -> Seq<u8> {
    data + Seq::new(pad_length(data.len(), block_size), |j: int| pad_length(data.len(), block_size) as u8)
}

/// The 16 bytes that counter mode encrypts for block `counter`: the 8 bytes
/// of `iv`, then the counter, highest byte first.
pub open spec fn nonce_counter(iv: Seq<u8>, counter: u64) -> Seq<u8> {
    Seq::new(
        16,
        |j: int|
            if j < 8 {
                iv[j]
            } else {
                ((counter >> ((8 * (15 - j)) as u64)) & 0xff) as u8
            },
    )
}

/// `n` blocks in a row, block `i` being `f(i)`.
pub open spec fn blocks(n: nat, f: spec_fn(int) -> Seq<u8>) -> Seq<u8> {
    Seq::new(16 * n, |k: int| f(k / 16)[k % 16])
}

/// ECB: each block of the padded data is encrypted by itself.
pub open spec fn ecb_encrypted(data: Seq<u8>, key: Seq<u8>) -> Seq<u8> {
    blocks(
        block_count(padded(data, 16).len()),
        |i: int| aes192_encrypt(key, block_at(padded(data, 16), i)),
    )
}

/// ECB: each block is decrypted by itself.
pub open spec fn ecb_decrypted(data: Seq<u8>, key: Seq<u8>) -> Seq<u8> {
    blocks(block_count(data.len()), |i: int| aes192_decrypt(key, block_at(data, i)))
}

/// CBC: block `i` of the ciphertext. Each block of the plaintext is mixed with
/// the ciphertext block before it, the first with `iv`, and then encrypted.
pub open spec fn cbc_cipher_block(plain: Seq<u8>, key: Seq<u8>, iv: Seq<u8>, i: int) -> Seq<u8>
    decreases i,
{
    if i <= 0 {
        aes192_encrypt(key, xored(block_at(plain, 0), iv))
    } else {
        aes192_encrypt(key, xored(block_at(plain, i), cbc_cipher_block(plain, key, iv, i - 1)))
    }
}

/// CBC: the ciphertext blocks of the padded data in a row.
pub open spec fn cbc_encrypted(data: Seq<u8>, key: Seq<u8>, iv: Seq<u8>) -> Seq<u8> {
    blocks(
        block_count(padded(data, 16).len()),
        |i: int| cbc_cipher_block(padded(data, 16), key, iv, i),
    )
}

/// What stands before block `i` in a chain that starts at `iv`.
pub open spec fn block_before(data: Seq<u8>, iv: Seq<u8>, i: int) -> Seq<u8> {
    if i <= 0 {
        iv
    } else {
        block_at(data, i - 1)
    }
}

/// CBC: each block is decrypted and mixed with the ciphertext block before it.
pub open spec fn cbc_decrypted(data: Seq<u8>, key: Seq<u8>, iv: Seq<u8>) -> Seq<u8> {
    blocks(
        block_count(data.len()),
        |i: int| xored(aes192_decrypt(key, block_at(data, i)), block_before(data, iv, i)),
    )
}

/// CFB: block `i` of the ciphertext. Each block of the plaintext is mixed with
/// the encryption of the ciphertext block before it, the first with that of `iv`.
pub open spec fn cfb_cipher_block(plain: Seq<u8>, key: Seq<u8>, iv: Seq<u8>, i: int) -> Seq<u8>
    decreases i,
{
    if i <= 0 {
        xored(block_at(plain, 0), aes192_encrypt(key, iv))
    } else {
        xored(block_at(plain, i), aes192_encrypt(key, cfb_cipher_block(plain, key, iv, i - 1)))
    }
}

/// CFB: the ciphertext blocks of the padded data in a row.
pub open spec fn cfb_encrypted(data: Seq<u8>, key: Seq<u8>, iv: Seq<u8>) -> Seq<u8> {
    blocks(
        block_count(padded(data, 16).len()),
        |i: int| cfb_cipher_block(padded(data, 16), key, iv, i),
    )
}

/// CFB: each block is mixed with the encryption of the ciphertext block before it.
pub open spec fn cfb_decrypted(data: Seq<u8>, key: Seq<u8>, iv: Seq<u8>) -> Seq<u8> {
    blocks(
        block_count(data.len()),
        |i: int| xored(block_at(data, i), aes192_encrypt(key, block_before(data, iv, i))),
    )
}

/// OFB: block `i` of the key stream, `iv` encrypted `i + 1` times.
pub open spec fn ofb_stream_block(key: Seq<u8>, iv: Seq<u8>, i: int) -> Seq<u8>
    decreases i,
{
    if i <= 0 {
        aes192_encrypt(key, iv)
    } else {
        aes192_encrypt(key, ofb_stream_block(key, iv, i - 1))
    }
}

/// OFB: each block is mixed with its block of the key stream.
pub open spec fn ofb_applied(data: Seq<u8>, key: Seq<u8>, iv: Seq<u8>) -> Seq<u8> {
    blocks(
        block_count(data.len()),
        |i: int| xored(block_at(data, i), ofb_stream_block(key, iv, i)),
    )
}

/// CTR: each block is mixed with the encryption of the nonce and the block's number.
pub open spec fn ctr_applied(data: Seq<u8>, key: Seq<u8>, iv: Seq<u8>) -> Seq<u8> {
    blocks(
        block_count(data.len()),
        |i: int| xored(block_at(data, i), aes192_encrypt(key, nonce_counter(iv, i as u64))),
    )
}

proof fn lemma_blocks_extend(before: Seq<u8>, block: Seq<u8>, i: nat, f: spec_fn(int) -> Seq<u8>)
    requires
        before == blocks(i, f),
        block == f(i as int),
        block.len() == 16,
    ensures
        before + block == blocks(i + 1, f),
{
    assert(before + block =~= blocks(i + 1, f));
}

proof fn lemma_xor_twice(x: u8, y: u8)
    by (bit_vector)
    ensures
        (x ^ y) ^ y == x,
{
}

/// The padded data fills whole blocks.
pub proof fn lemma_padded_fills_blocks(data: Seq<u8>)
    ensures
        padded(data, 16).len() % 16 == 0,
        padded(data, 16).len() == 16 * block_count(padded(data, 16).len()),
{
}

/// Block `i` of `n` blocks in a row is `f(i)`.
proof fn lemma_block_of_blocks(n: nat, f: spec_fn(int) -> Seq<u8>, i: int)
    requires
        0 <= i < n,
        f(i).len() == 16,
    ensures
        block_at(blocks(n, f), i) == f(i),
{
    assert(block_at(blocks(n, f), i) =~= f(i));
}

/// OFB undoes itself: applied to what it gave for data of whole blocks, under
/// the same key and vector, it gives the data back. So decryption of an
/// encryption gives the padded data.
pub proof fn lemma_ofb_round_trip(data: Seq<u8>, key: Seq<u8>, iv: Seq<u8>)
    requires
        data.len() % 16 == 0,
    ensures
        ofb_applied(ofb_applied(data, key, iv), key, iv) == data,
{
    let n = block_count(data.len());
    let once = ofb_applied(data, key, iv);
    let twice = ofb_applied(once, key, iv);
    assert(once.len() == data.len());
    assert forall|k: int| 0 <= k < data.len() implies twice[k] == data[k] by {
        let i = k / 16;
        let stream = ofb_stream_block(key, iv, i);
        assert(block_at(once, i)[k % 16] == once[k]);
        assert(block_at(data, i)[k % 16] == data[k]);
        lemma_xor_twice(data[k], stream[k % 16]);
    }
    assert(twice =~= data);
}

/// CTR undoes itself: applied to what it gave for data of whole blocks, under
/// the same key and nonce, it gives the data back. So decryption of an
/// encryption gives the padded data.
pub proof fn lemma_ctr_round_trip(data: Seq<u8>, key: Seq<u8>, iv: Seq<u8>)
    requires
        data.len() % 16 == 0,
    ensures
        ctr_applied(ctr_applied(data, key, iv), key, iv) == data,
{
    let once = ctr_applied(data, key, iv);
    let twice = ctr_applied(once, key, iv);
    assert(once.len() == data.len());
    assert forall|k: int| 0 <= k < data.len() implies twice[k] == data[k] by {
        let i = k / 16;
        let stream = aes192_encrypt(key, nonce_counter(iv, i as u64));
        assert(block_at(once, i)[k % 16] == once[k]);
        assert(block_at(data, i)[k % 16] == data[k]);
        lemma_xor_twice(data[k], stream[k % 16]);
    }
    assert(twice =~= data);
}

/// CFB decryption undoes CFB encryption: it gives the padded data back.
pub proof fn lemma_cfb_round_trip(data: Seq<u8>, key: Seq<u8>, iv: Seq<u8>)
    ensures
        cfb_decrypted(cfb_encrypted(data, key, iv), key, iv) == padded(data, 16),
{
    let plain = padded(data, 16);
    let n = block_count(plain.len());
    let f = |i: int| cfb_cipher_block(plain, key, iv, i);
    let cipher = cfb_encrypted(data, key, iv);
    let back = cfb_decrypted(cipher, key, iv);
    assert(cipher.len() == plain.len());
    assert forall|k: int| 0 <= k < plain.len() implies back[k] == plain[k] by {
        let i = k / 16;
        lemma_block_of_blocks(n, f, i);
        if i > 0 {
            lemma_block_of_blocks(n, f, i - 1);
        }
        let before = if i <= 0 {
            iv
        } else {
            cfb_cipher_block(plain, key, iv, i - 1)
        };
        assert(block_before(cipher, iv, i) == before);
        let stream = aes192_encrypt(key, before);
        assert(block_at(plain, i)[k % 16] == plain[k]);
        assert(cfb_cipher_block(plain, key, iv, i) == xored(block_at(plain, i), stream));
        lemma_xor_twice(plain[k], stream[k % 16]);
    }
    assert(back =~= plain);
}

/// A fresh initialisation vector of 16 bytes.
pub fn generate_iv() -> [u8; 16] {
    let iv: [u8; 16] = random_array::<16>();
    iv
}

/// A fresh nonce of 8 bytes for counter mode.
pub fn generate_iv_ctr() -> [u8; 8] {
    let iv: [u8; 8] = random_array::<8>();
    iv
}

/// A fresh key of 24 bytes.
pub fn generate_key() -> [u8; 24] {
    let key: [u8; 24] = random_array::<24>();
    key
}

/// The 16 bytes that counter mode encrypts for block `counter`.
pub fn generate_nc(iv: [u8; 8], counter: u64) -> (result: [u8; 16])
    ensures
        result@ == nonce_counter(iv@, counter),
{
    let mut result = [0u8; 16];
    let mut j: usize = 0;
    while j < 8
        invariant
            j <= 8,
            forall|k: int| 0 <= k < j ==> result[k] == iv[k],
        decreases 8 - j,
    {
        result[j] = iv[j];
        j += 1;
    }
    while j < 16
        invariant
            8 <= j <= 16,
            forall|k: int| 0 <= k < 8 ==> result[k] == iv[k],
            forall|k: int| 8 <= k < j ==> result[k] == nonce_counter(iv@, counter)[k],
        decreases 16 - j,
    {
        let shift: u64 = 8 * (15 - j as u64);
        let byte: u64 = (counter >> shift) & 0xff;
        assert(byte <= 0xff) by (bit_vector)
            requires
                byte == (counter >> shift) & 0xff,
        ;
        result[j] = byte as u8;
        j += 1;
    }
    assert(result@ =~= nonce_counter(iv@, counter));
    result
}

/// Byte by byte, the exclusive or of two blocks.
pub fn xor_arrays(a: [u8; 16], b: [u8; 16]) -> (result: [u8; 16])
    ensures
        result@ == xored(a@, b@),
{
    let mut result = [0u8; 16];
    let mut i: usize = 0;
    while i < 16
        invariant
            i <= 16,
            forall|k: int| 0 <= k < i ==> result[k] == a[k] ^ b[k],
        decreases 16 - i,
    {
        result[i] = a[i] ^ b[i];
        i += 1;
    }
    assert(result@ =~= xored(a@, b@));
    result
}

/// One block encrypted with AES-192.
pub fn aes192_encrypt_block(key: &[u8; 24], block: &[u8; 16]) -> (r: [u8; 16])
    ensures
        r@ == aes192_encrypt(key@, block@),
{
    aes192_encrypt_one(key, block)
}

/// One block decrypted with AES-192.
pub fn aes192_decrypt_block(key: &[u8; 24], block: &[u8; 16]) -> (r: [u8; 16])
    ensures
        r@ == aes192_decrypt(key@, block@),
{
    aes192_decrypt_one(key, block)
}

/// PKCS#7 padding to a multiple of `block_size`.
pub fn pkcs7_pad(data: &[u8], block_size: usize) -> (r: Vec<u8>)
    requires
        0 < block_size <= 255,
    ensures
        r@ == padded(data@, block_size as nat),
{
    let pad_len: usize = block_size - (data.len() % block_size);
    let mut out = vstd::slice::slice_to_vec(data);
    let mut i: usize = 0;
    while i < pad_len
        invariant
            i <= pad_len,
            pad_len <= 255,
            out@.len() == data@.len() + i,
            forall|k: int| 0 <= k < data@.len() ==> out@[k] == data@[k],
            forall|k: int| data@.len() <= k < out@.len() ==> out@[k] == pad_len as u8,
        decreases pad_len - i,
    {
        out.push(pad_len as u8);
        i += 1;
    }
    assert(out@ =~= padded(data@, block_size as nat));
    out
}

/// Block `i` of `data`, with zeros where `data` has ended.
pub(crate) fn block_of(data: &[u8], i: usize) -> (r: [u8; 16])
    requires
        16 * i < data@.len(),
    ensures
        r@ == block_at(data@, i as int),
{
    let mut block_array = [0u8; 16];
    let len: usize = data.len();
    let start: usize = 16 * i;
    let left: usize = len - start;
    let mut j: usize = 0;
    while j < 16
        invariant
            j <= 16,
            start == 16 * i,
            left == data@.len() - start,
            start < data@.len(),
            forall|k: int| 0 <= k < j ==> block_array[k] == block_at(data@, i as int)[k],
            forall|k: int| j <= k < 16 ==> block_array[k] == 0,
        decreases 16 - j,
    {
        if j < left {
            block_array[j] = data[start + j];
        }
        j += 1;
    }
    assert(block_array@ =~= block_at(data@, i as int));
    block_array
}

/// How many blocks hold `len` bytes.
pub(crate) fn count_blocks(len: usize) -> (n: usize)
    ensures
        n == block_count(len as nat),
        16 * n < len + 16,
{
    if len % 16 == 0 {
        len / 16
    } else {
        len / 16 + 1
    }
}

/// ECB encryption of the padded data.
pub fn encrypt_aes192_ecb(data: &[u8], key: &[u8; 24]) -> (res: Vec<u8>)
    ensures
        res@ == ecb_encrypted(data@, key@),
{
    let mut res: Vec<u8> = Vec::new();
    let padded_data = pkcs7_pad(data, 16);
    let n = count_blocks(padded_data.len());
    let ghost f = |i: int| aes192_encrypt(key@, block_at(padded(data@, 16), i));
    let mut i: usize = 0;
    assert(res@ =~= blocks(0, f));
    while i < n
        invariant
            i <= n,
            n == block_count(padded_data@.len()),
            16 * n < padded_data@.len() + 16,
            padded_data@ == padded(data@, 16),
            f == |i: int| aes192_encrypt(key@, block_at(padded(data@, 16), i)),
            res@ == blocks(i as nat, f),
        decreases n - i,
    {
        let block_array = block_of(padded_data.as_slice(), i);
        let new_block = aes192_encrypt_block(key, &block_array);
        proof {
            lemma_blocks_extend(res@, new_block@, i as nat, f);
        }
        let ghost before = res@;
        res.extend_from_slice(new_block.as_slice());
        assert(res@ =~= before + new_block@);
        i += 1;
    }
    res
}

/// ECB decryption; the padding stays in the result.
pub fn decrypt_aes192_ecb(data: &[u8], key: &[u8; 24]) -> (res: Vec<u8>)
    ensures
        res@ == ecb_decrypted(data@, key@),
{
    let mut res: Vec<u8> = Vec::new();
    let n = count_blocks(data.len());
    let ghost f = |i: int| aes192_decrypt(key@, block_at(data@, i));
    let mut i: usize = 0;
    assert(res@ =~= blocks(0, f));
    while i < n
        invariant
            i <= n,
            n == block_count(data@.len()),
            16 * n < data@.len() + 16,
            f == |i: int| aes192_decrypt(key@, block_at(data@, i)),
            res@ == blocks(i as nat, f),
        decreases n - i,
    {
        let block_array = block_of(data, i);
        let new_block = aes192_decrypt_block(key, &block_array);
        proof {
            lemma_blocks_extend(res@, new_block@, i as nat, f);
        }
        let ghost before = res@;
        res.extend_from_slice(new_block.as_slice());
        assert(res@ =~= before + new_block@);
        i += 1;
    }
    res
}

/// CBC encryption of the padded data.
pub fn encrypt_aes192_cbc(data: &[u8], key: &[u8; 24], iv: &[u8; 16]) -> (res: Vec<u8>)
    ensures
        res@ == cbc_encrypted(data@, key@, iv@),
{
    let mut res: Vec<u8> = Vec::new();
    let mut r: [u8; 16] = *iv;
    let padded_data = pkcs7_pad(data, 16);
    let n = count_blocks(padded_data.len());
    let ghost f = |i: int| cbc_cipher_block(padded(data@, 16), key@, iv@, i);
    let mut i: usize = 0;
    assert(res@ =~= blocks(0, f));
    while i < n
        invariant
            i <= n,
            n == block_count(padded_data@.len()),
            16 * n < padded_data@.len() + 16,
            padded_data@ == padded(data@, 16),
            f == |i: int| cbc_cipher_block(padded(data@, 16), key@, iv@, i),
            res@ == blocks(i as nat, f),
            r@ == if i == 0 {
                iv@
            } else {
                cbc_cipher_block(padded(data@, 16), key@, iv@, i - 1)
            },
        decreases n - i,
    {
        let block_array = block_of(padded_data.as_slice(), i);
        let new_block = xor_arrays(block_array, r);
        let res_block = aes192_encrypt_block(key, &new_block);
        proof {
            lemma_blocks_extend(res@, res_block@, i as nat, f);
        }
        let ghost before = res@;
        res.extend_from_slice(res_block.as_slice());
        assert(res@ =~= before + res_block@);
        r = res_block;
        i += 1;
    }
    res
}

/// CBC decryption; the padding stays in the result.
pub fn decrypt_aes192_cbc(data: &[u8], key: &[u8; 24], iv: &[u8; 16]) -> (res: Vec<u8>)
    ensures
        res@ == cbc_decrypted(data@, key@, iv@),
{
    let mut res: Vec<u8> = Vec::new();
    let mut r: [u8; 16] = *iv;
    let n = count_blocks(data.len());
    let ghost f = |i: int| xored(aes192_decrypt(key@, block_at(data@, i)), block_before(data@, iv@, i));
    let mut i: usize = 0;
    assert(res@ =~= blocks(0, f));
    while i < n
        invariant
            i <= n,
            n == block_count(data@.len()),
            16 * n < data@.len() + 16,
            f == |i: int| xored(aes192_decrypt(key@, block_at(data@, i)), block_before(data@, iv@, i)),
            res@ == blocks(i as nat, f),
            r@ == block_before(data@, iv@, i as int),
        decreases n - i,
    {
        let block_array = block_of(data, i);
        let decrypt_block = aes192_decrypt_block(key, &block_array);
        let res_block = xor_arrays(decrypt_block, r);
        proof {
            lemma_blocks_extend(res@, res_block@, i as nat, f);
        }
        let ghost before = res@;
        res.extend_from_slice(res_block.as_slice());
        assert(res@ =~= before + res_block@);
        r = block_array;
        i += 1;
    }
    res
}

/// CFB encryption of the padded data.
pub fn encrypt_aes192_cfb(data: &[u8], key: &[u8; 24], iv: &[u8; 16]) -> (res: Vec<u8>)
    ensures
        res@ == cfb_encrypted(data@, key@, iv@),
{
    let mut res: Vec<u8> = Vec::new();
    let mut r: [u8; 16] = *iv;
    let padded_data = pkcs7_pad(data, 16);
    let n = count_blocks(padded_data.len());
    let ghost f = |i: int| cfb_cipher_block(padded(data@, 16), key@, iv@, i);
    let mut i: usize = 0;
    assert(res@ =~= blocks(0, f));
    while i < n
        invariant
            i <= n,
            n == block_count(padded_data@.len()),
            16 * n < padded_data@.len() + 16,
            padded_data@ == padded(data@, 16),
            f == |i: int| cfb_cipher_block(padded(data@, 16), key@, iv@, i),
            res@ == blocks(i as nat, f),
            r@ == if i == 0 {
                iv@
            } else {
                cfb_cipher_block(padded(data@, 16), key@, iv@, i - 1)
            },
        decreases n - i,
    {
        let block_array = block_of(padded_data.as_slice(), i);
        let encrypt_block = aes192_encrypt_block(key, &r);
        let res_block = xor_arrays(block_array, encrypt_block);
        proof {
            lemma_blocks_extend(res@, res_block@, i as nat, f);
        }
        let ghost before = res@;
        res.extend_from_slice(res_block.as_slice());
        assert(res@ =~= before + res_block@);
        r = res_block;
        i += 1;
    }
    res
}

/// CFB decryption; the padding stays in the result.
pub fn decrypt_aes192_cfb(data: &[u8], key: &[u8; 24], iv: &[u8; 16]) -> (res: Vec<u8>)
    ensures
        res@ == cfb_decrypted(data@, key@, iv@),
{
    let mut res: Vec<u8> = Vec::new();
    let mut r: [u8; 16] = *iv;
    let n = count_blocks(data.len());
    let ghost f = |i: int| xored(block_at(data@, i), aes192_encrypt(key@, block_before(data@, iv@, i)));
    let mut i: usize = 0;
    assert(res@ =~= blocks(0, f));
    while i < n
        invariant
            i <= n,
            n == block_count(data@.len()),
            16 * n < data@.len() + 16,
            f == |i: int| xored(block_at(data@, i), aes192_encrypt(key@, block_before(data@, iv@, i))),
            res@ == blocks(i as nat, f),
            r@ == block_before(data@, iv@, i as int),
        decreases n - i,
    {
        let block_array = block_of(data, i);
        let decrypt_block = aes192_encrypt_block(key, &r);
        let res_block = xor_arrays(block_array, decrypt_block);
        proof {
            lemma_blocks_extend(res@, res_block@, i as nat, f);
        }
        let ghost before = res@;
        res.extend_from_slice(res_block.as_slice());
        assert(res@ =~= before + res_block@);
        r = block_array;
        i += 1;
    }
    res
}

/// OFB encryption of the padded data.
pub fn encrypt_aes192_ofb(data: &[u8], key: &[u8; 24], iv: &[u8; 16]) -> (res: Vec<u8>)
    ensures
        res@ == ofb_applied(padded(data@, 16), key@, iv@),
{
    let mut res: Vec<u8> = Vec::new();
    let mut r: [u8; 16] = *iv;
    let padded_data = pkcs7_pad(data, 16);
    let n = count_blocks(padded_data.len());
    let ghost f = |i: int| xored(block_at(padded(data@, 16), i), ofb_stream_block(key@, iv@, i));
    let mut i: usize = 0;
    assert(res@ =~= blocks(0, f));
    while i < n
        invariant
            i <= n,
            n == block_count(padded_data@.len()),
            16 * n < padded_data@.len() + 16,
            padded_data@ == padded(data@, 16),
            f == |i: int| xored(block_at(padded(data@, 16), i), ofb_stream_block(key@, iv@, i)),
            res@ == blocks(i as nat, f),
            r@ == if i == 0 {
                iv@
            } else {
                ofb_stream_block(key@, iv@, i - 1)
            },
        decreases n - i,
    {
        let block_array = block_of(padded_data.as_slice(), i);
        let encrypt_block = aes192_encrypt_block(key, &r);
        let res_block = xor_arrays(block_array, encrypt_block);
        proof {
            lemma_blocks_extend(res@, res_block@, i as nat, f);
        }
        let ghost before = res@;
        res.extend_from_slice(res_block.as_slice());
        assert(res@ =~= before + res_block@);
        r = encrypt_block;
        i += 1;
    }
    res
}

/// OFB decryption; the padding stays in the result.
pub fn decrypt_aes192_ofb(data: &[u8], key: &[u8; 24], iv: &[u8; 16]) -> (res: Vec<u8>)
    ensures
        res@ == ofb_applied(data@, key@, iv@),
{
    let mut res: Vec<u8> = Vec::new();
    let mut r: [u8; 16] = *iv;
    let n = count_blocks(data.len());
    let ghost f = |i: int| xored(block_at(data@, i), ofb_stream_block(key@, iv@, i));
    let mut i: usize = 0;
    assert(res@ =~= blocks(0, f));
    while i < n
        invariant
            i <= n,
            n == block_count(data@.len()),
            16 * n < data@.len() + 16,
            f == |i: int| xored(block_at(data@, i), ofb_stream_block(key@, iv@, i)),
            res@ == blocks(i as nat, f),
            r@ == if i == 0 {
                iv@
            } else {
                ofb_stream_block(key@, iv@, i - 1)
            },
        decreases n - i,
    {
        let block_array = block_of(data, i);
        let encrypt_block = aes192_encrypt_block(key, &r);
        let res_block = xor_arrays(block_array, encrypt_block);
        proof {
            lemma_blocks_extend(res@, res_block@, i as nat, f);
        }
        let ghost before = res@;
        res.extend_from_slice(res_block.as_slice());
        assert(res@ =~= before + res_block@);
        r = encrypt_block;
        i += 1;
    }
    res
}

/// CTR encryption of the padded data.
pub fn encrypt_aes192_ctr(data: &[u8], key: &[u8; 24], iv: &[u8; 8]) -> (res: Vec<u8>)
    ensures
        res@ == ctr_applied(padded(data@, 16), key@, iv@),
{
    let mut res: Vec<u8> = Vec::new();
    let mut counter: u64 = 0;
    let mut r: [u8; 16] = generate_nc(*iv, counter);
    let padded_data = pkcs7_pad(data, 16);
    let n = count_blocks(padded_data.len());
    let ghost f = |i: int| xored(block_at(padded(data@, 16), i), aes192_encrypt(key@, nonce_counter(iv@, i as u64)));
    let mut i: usize = 0;
    assert(res@ =~= blocks(0, f));
    while i < n
        invariant
            i <= n,
            n == block_count(padded_data@.len()),
            16 * n < padded_data@.len() + 16,
            padded_data@ == padded(data@, 16),
            f == |i: int| xored(block_at(padded(data@, 16), i), aes192_encrypt(key@, nonce_counter(iv@, i as u64))),
            res@ == blocks(i as nat, f),
            counter == i,
            r@ == nonce_counter(iv@, counter),
        decreases n - i,
    {
        let block_array = block_of(padded_data.as_slice(), i);
        let encrypt_block = aes192_encrypt_block(key, &r);
        let res_block = xor_arrays(block_array, encrypt_block);
        proof {
            lemma_blocks_extend(res@, res_block@, i as nat, f);
        }
        let ghost before = res@;
        res.extend_from_slice(res_block.as_slice());
        assert(res@ =~= before + res_block@);
        counter += 1;
        r = generate_nc(*iv, counter);
        i += 1;
    }
    res
}

/// CTR decryption; the padding stays in the result.
pub fn decrypt_aes192_ctr(data: &[u8], key: &[u8; 24], iv: &[u8; 8]) -> (res: Vec<u8>)
    ensures
        res@ == ctr_applied(data@, key@, iv@),
{
    let mut res: Vec<u8> = Vec::new();
    let mut counter: u64 = 0;
    let mut r: [u8; 16] = generate_nc(*iv, counter);
    let n = count_blocks(data.len());
    let ghost f = |i: int| xored(block_at(data@, i), aes192_encrypt(key@, nonce_counter(iv@, i as u64)));
    let mut i: usize = 0;
    assert(res@ =~= blocks(0, f));
    while i < n
        invariant
            i <= n,
            n == block_count(data@.len()),
            16 * n < data@.len() + 16,
            f == |i: int| xored(block_at(data@, i), aes192_encrypt(key@, nonce_counter(iv@, i as u64))),
            res@ == blocks(i as nat, f),
            counter == i,
            r@ == nonce_counter(iv@, counter),
        decreases n - i,
    {
        let block_array = block_of(data, i);
        let encrypt_block = aes192_encrypt_block(key, &r);
        let res_block = xor_arrays(block_array, encrypt_block);
        proof {
            lemma_blocks_extend(res@, res_block@, i as nat, f);
        }
        let ghost before = res@;
        res.extend_from_slice(res_block.as_slice());
        assert(res@ =~= before + res_block@);
        counter += 1;
        r = generate_nc(*iv, counter);
        i += 1;
    }
    res
}

} // verus!
