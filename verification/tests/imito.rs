use cryptokit::imito::{
    aes192_decrypt_block, aes192_encrypt_block, concat_bytes, forge_cbc_mac_with_oracle, gen_keys,
    hasher_sha256, imito_cbc_mac, imito_cbc_mac_verify, imito_hmac, imito_hmac_verify, imito_omac,
    imito_omac_verify, key_gen, one_zeros_pad, one_zeros_pad_zero, temp, xor_arrays,
};
use cryptokit::kdf::hmac_sha256;

const MESSAGE: &[u8] = b"Hello, this is a test message for MAC!";

fn from_hex(s: &str) -> Vec<u8> {
    hex::decode(s).expect("hexadecimal digits")
}

fn nist_key() -> [u8; 24] {
    from_hex("8e73b0f7da0e6452c810f32b809079e562f8ead2522c6b7b").try_into().unwrap()
}

#[test]
fn xor_into_the_start_of_a_buffer() {
    let mut out = [9u8; 5];
    xor_arrays(&[1, 2, 3], &[3, 2, 1], &mut out);
    assert_eq!(out, [2, 0, 2, 9, 9]);
    let mut none = [7u8; 2];
    xor_arrays(&[], &[], &mut none);
    assert_eq!(none, [7, 7]);
}

#[test]
fn concatenation() {
    assert_eq!(concat_bytes(b"ab", b"cd"), b"abcd".to_vec());
    assert_eq!(concat_bytes(b"", b"cd"), b"cd".to_vec());
    assert_eq!(concat_bytes(b"ab", b""), b"ab".to_vec());
}

#[test]
fn sha256_known_answer() {
    assert_eq!(
        hasher_sha256(b"abc").to_vec(),
        from_hex("ba7816bf8f01cfea414140de5dae2223b00361a396177a9cb410ff61f20015ad")
    );
}

#[test]
fn block_cipher_inverts() {
    let key = [0x55u8; 24];
    let block = *b"sixteen byte blk";
    let c = aes192_encrypt_block(&key, &block);
    assert_ne!(c, block);
    assert_eq!(aes192_decrypt_block(&key, &c), block);
}

#[test]
fn doubling_in_the_field() {
    let l: [u8; 16] = from_hex("22452d8e49a8a5939f7321ceea6d514b").try_into().unwrap();
    let k1 = temp(&l);
    assert_eq!(k1.to_vec(), from_hex("448a5b1c93514b273ee6439dd4daa296"));
    assert_eq!(temp(&k1).to_vec(), from_hex("8914b63926a2964e7dcc873ba9b5452c"));
    let mut high = [0u8; 16];
    high[0] = 0x80;
    let mut reduced = [0u8; 16];
    reduced[15] = 0x87;
    assert_eq!(temp(&high), reduced);
    let mut carry = [0u8; 16];
    carry[15] = 0x80;
    let mut carried = [0u8; 16];
    carried[14] = 0x01;
    assert_eq!(temp(&carry), carried);
    assert_eq!(temp(&[0xff; 16])[15], 0xfe ^ 0x87);
}

#[test]
fn omac_keys() {
    let (k1, k2) = gen_keys(&nist_key());
    assert_eq!(k1.to_vec(), from_hex("448a5b1c93514b273ee6439dd4daa296"));
    assert_eq!(k2.to_vec(), from_hex("8914b63926a2964e7dcc873ba9b5452c"));
}

#[test]
fn hmac_key_block() {
    let short = key_gen(&"abc".to_string());
    assert_eq!(&short[..3], b"abc");
    assert!(short[3..].iter().all(|b| *b == 0));
    let exact = key_gen(&"x".repeat(64));
    assert_eq!(exact, [b'x'; 64]);
    let long = key_gen(&"k".repeat(70));
    assert_eq!(
        long.to_vec(),
        from_hex("5c6ced41eb6f5564254b35c889a38b89d1d16008bdf351fd216967010e442daf0000000000000000000000000000000000000000000000000000000000000000")
    );
    assert_eq!(key_gen(&String::new()), [0u8; 64]);
}

#[test]
fn one_and_zeros_padding() {
    assert_eq!(one_zeros_pad(b"abc", 8), b"abc\x80\0\0\0\0".to_vec());
    assert_eq!(one_zeros_pad(b"", 4), vec![0x80, 0, 0, 0]);
    assert_eq!(one_zeros_pad(b"abcd", 4), b"abcd\x80\0\0\0".to_vec());
    assert_eq!(one_zeros_pad(b"abc", 4), b"abc\x80".to_vec());
    assert_eq!(one_zeros_pad(b"ab", 1), b"ab\x80".to_vec());

    assert_eq!(one_zeros_pad_zero(b"abc", 8), b"abc\x80\0\0\0\0".to_vec());
    assert_eq!(one_zeros_pad_zero(b"", 4), Vec::<u8>::new());
    assert_eq!(one_zeros_pad_zero(b"abcd", 4), b"abcd".to_vec());
    assert_eq!(one_zeros_pad_zero(b"abc", 4), b"abc\x80".to_vec());
}

#[test]
fn cbc_mac_known_answer() {
    let key = [0x55u8; 24];
    let tag = imito_cbc_mac(&key, MESSAGE);
    assert_eq!(tag, from_hex("18a476e154ced22da3a75864435dc64e"));
    assert!(imito_cbc_mac_verify(&tag, MESSAGE, &key));
    assert!(!imito_cbc_mac_verify(&tag, b"Hello, this is a test message for MAC?", &key));
    assert!(!imito_cbc_mac_verify(&tag[..15], MESSAGE, &key));
    let empty = imito_cbc_mac(&key, b"");
    assert_eq!(empty, vec![0u8; 16]);
    assert!(imito_cbc_mac_verify(&empty, b"", &key));
}

#[test]
fn omac_known_answers() {
    let key = nist_key();
    let one_block = from_hex("6bc1bee22e409f96e93d7e117393172a");
    assert_eq!(imito_omac(&key, &one_block), from_hex("9e99a7bf31e710900662f65e617c5184"));
    let forty = from_hex(
        "6bc1bee22e409f96e93d7e117393172aae2d8a571e03ac9c9eb76fac45af8e5130c81c46a35ce411",
    );
    assert_eq!(imito_omac(&key, &forty), from_hex("8a1de5be2eb31aad089a82e6ee908b0e"));
    assert_eq!(imito_omac(&key, MESSAGE), from_hex("21c02f555fb4a299161dd09516d474af"));

    let key = [0x55u8; 24];
    let tag = imito_omac(&key, MESSAGE);
    assert_eq!(tag, from_hex("355c956d5c85ba81753f00e9c24374d1"));
    assert!(imito_omac_verify(&tag, MESSAGE, &key));
    assert!(!imito_omac_verify(&tag, b"other", &key));
}

#[test]
fn omac_of_the_empty_message() {
    let key = [0x55u8; 24];
    let tag = imito_omac(&key, b"");
    assert_eq!(tag, from_hex("cf15f902d132550c295bfe981fce04c6"));
    assert!(imito_omac_verify(&tag, b"", &key));
}

#[test]
fn hmac_is_keyed_by_the_hexadecimal_text_of_the_key() {
    let key = [0x55u8; 24];
    let tag = imito_hmac(&key, MESSAGE);
    assert_eq!(
        tag,
        from_hex("6d7e6a3b8bf73ba07cf83eddffe4aec6a628d494e96510547cc28612911aceab")
    );
    assert_eq!(tag, hmac_sha256(hex::encode(key).as_bytes(), MESSAGE));
    assert!(imito_hmac_verify(&tag, MESSAGE, &key));
    assert!(!imito_hmac_verify(&tag, b"", &key));
    let empty = imito_hmac(&key, b"");
    assert_eq!(empty, hmac_sha256(hex::encode(key).as_bytes(), b""));
    assert!(imito_hmac_verify(&empty, b"", &key));
    let mixed: [u8; 24] =
        from_hex("000102030405060708090a0b0c0d0e0ff0f1f2f3f4f5f6ff").try_into().unwrap();
    assert_eq!(
        imito_hmac(&mixed, b"x"),
        hmac_sha256(b"000102030405060708090a0b0c0d0e0ff0f1f2f3f4f5f6ff", b"x")
    );
}

#[test]
fn cbc_mac_is_forged_by_extension_and_omac_is_not() {
    let key = [0x55u8; 24];
    let m = b"Pay Alice 100$ for candy and tea";
    let s_block: [u8; 16] = *b"and to Bob 100$!";
    let tag_m = imito_cbc_mac(&key, m);

    let (forged_message, forged_tag) =
        forge_cbc_mac_with_oracle(|data: &[u8]| imito_cbc_mac(&key, data), m, &s_block);

    assert_eq!(forged_message.len(), m.len() + 16);
    assert_eq!(&forged_message[..m.len()], m);
    for i in 0..16 {
        assert_eq!(forged_message[m.len() + i], s_block[i] ^ tag_m[i]);
    }
    assert!(imito_cbc_mac_verify(&forged_tag, &forged_message, &key));
    // the tag of the forged message is the tag of the added block alone
    assert_eq!(forged_tag, imito_cbc_mac(&key, &s_block));
    assert_ne!(imito_omac(&key, &forged_message), forged_tag);
}
