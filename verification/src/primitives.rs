//! The primitives that other crates supply: SHA-256, HMAC-SHA-256, the AES-192
//! block cipher, random bytes and hexadecimal text.
//!
//! What SHA-256 and AES compute is not written out here. Each has a name, a
//! function of its arguments without a body, and the contracts in the rest of
//! the library speak of these names. HMAC is stated over the name of SHA-256.

use aes::Aes192;
use cipher::{BlockCipherDecrypt, BlockCipherEncrypt, KeyInit};
use hmac::{Hmac, Mac};
use rand::RngCore;
use sha2::{Digest, Sha256};
use vstd::prelude::*;

verus! {

/// The SHA-256 digest of `data`.
pub uninterp spec fn sha256(data: Seq<u8>) -> Seq<u8>;

/// Byte by byte, the exclusive or of two strings of the same length.
pub open spec fn xored(a: Seq<u8>, b: Seq<u8>) -> Seq<u8> {
    Seq::new(a.len(), |j: int| a[j] ^ b[j])
}

/// `n` bytes of the same value.
pub open spec fn repeated(b: u8, n: nat) -> Seq<u8> {
    Seq::new(n, |j: int| b)
}

/// The 64 bytes that HMAC keys its two hashes with: the key filled up with
/// zeros, or its SHA-256 digest filled up with zeros where it is longer.
pub open spec fn key_block(bytes: Seq<u8>) -> Seq<u8> {
    if bytes.len() <= 64 {
        bytes + repeated(0, (64 - bytes.len()) as nat)
    } else {
        sha256(bytes) + repeated(0, 32)
    }
}

/// HMAC with SHA-256 over a key block of 64 bytes: the digest of the block
/// mixed with `0x5c` and the digest of the block mixed with `0x36` and the data.
pub open spec fn hmac_of_block(block: Seq<u8>, data: Seq<u8>) -> Seq<u8> {
    sha256(xored(repeated(0x5c, 64), block) + sha256(xored(repeated(0x36, 64), block) + data))
}

/// The HMAC-SHA-256 tag of `data` under `key`.
pub open spec fn hmac_sha256_tag(key: Seq<u8>, data: Seq<u8>) -> Seq<u8> {
    hmac_of_block(key_block(key), data)
}

/// The AES-192 encryption of one block of 16 bytes under a key of 24 bytes.
pub uninterp spec fn aes192_encrypt(key: Seq<u8>, block: Seq<u8>) -> Seq<u8>;

/// The AES-192 decryption of one block of 16 bytes under a key of 24 bytes.
pub uninterp spec fn aes192_decrypt(key: Seq<u8>, block: Seq<u8>) -> Seq<u8>;

/// The lower-case hexadecimal digit of a number below 16.
pub open spec fn hex_digit(n: int) -> char {
    if n < 10 {
        (0x30 + n) as char
    } else {
        (0x61 + n - 10) as char
    }
}

/// Two lower-case hexadecimal digits for each byte, the high one first.
pub open spec fn hex_chars(bytes: Seq<u8>) -> Seq<char> {
    Seq::new(
        2 * bytes.len(),
        |i: int|
            if i % 2 == 0 {
                hex_digit(bytes[i / 2] as int / 16)
            } else {
                hex_digit(bytes[i / 2] as int % 16)
            },
    )
}

/// `Sha256::digest`: the digest is named, and has 32 bytes.
#[verifier::external_body]
pub(crate) fn sha256_digest(data: &[u8]) -> (r: [u8; 32])
    ensures
        r@ == sha256(data@),
{
    Sha256::digest(data).into()
}

/// `Hmac<Sha256>`, keyed by `new_from_slice`, fed by `update` and closed by
/// `finalize`: the tag is the HMAC of RFC 2104 over SHA-256, with the key
/// filled up to 64 bytes or hashed where it is longer, and has 32 bytes. A
/// key of any length is accepted.
#[verifier::external_body]
pub(crate) fn hmac_sha256_compute(key: &[u8], data: &[u8]) -> (r: Vec<u8>)
    ensures
        r@ == hmac_sha256_tag(key@, data@),
        r@.len() == 32,
{
    let mut mac = Hmac::<Sha256>::new_from_slice(key).expect("a key of any length");
    mac.update(data);
    mac.finalize().into_bytes().to_vec()
}

/// `Aes192::encrypt_block` under a cipher made from `key`: the block that
/// comes out is named.
#[verifier::external_body]
pub(crate) fn aes192_encrypt_one(key: &[u8; 24], block: &[u8; 16]) -> (r: [u8; 16])
    ensures
        r@ == aes192_encrypt(key@, block@),
{
    let cipher = Aes192::new(key.into());
    let mut buf = *block;
    cipher.encrypt_block((&mut buf).into());
    buf
}

/// `Aes192::decrypt_block` under a cipher made from `key`: the block that
/// comes out is named.
#[verifier::external_body]
pub(crate) fn aes192_decrypt_one(key: &[u8; 24], block: &[u8; 16]) -> (r: [u8; 16])
    ensures
        r@ == aes192_decrypt(key@, block@),
{
    let cipher = Aes192::new(key.into());
    let mut buf = *block;
    cipher.decrypt_block((&mut buf).into());
    buf
}

/// `RngCore::fill_bytes` on the thread's generator: `N` bytes, of which
/// nothing is known.
#[verifier::external_body]
pub(crate) fn random_array<const N: usize>() -> (r: [u8; N])
{
    let mut buf = [0u8; N];
    rand::thread_rng().fill_bytes(&mut buf);
    buf
}

/// `hex::encode`: two lower-case hexadecimal digits for each byte.
#[verifier::external_body]
pub(crate) fn hex_encode(data: &[u8]) -> (r: String)
    ensures
        r@ == hex_chars(data@),
{
    hex::encode(data)
}

} // verus!
