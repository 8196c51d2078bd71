use cryptokit::encmodes::{
    aes192_decrypt_block, aes192_encrypt_block, decrypt_aes192_cbc, decrypt_aes192_cfb,
    decrypt_aes192_ctr, decrypt_aes192_ecb, decrypt_aes192_ofb, encrypt_aes192_cbc,
    encrypt_aes192_cfb, encrypt_aes192_ctr, encrypt_aes192_ecb, encrypt_aes192_ofb, generate_iv,
    generate_iv_ctr, generate_key, generate_nc, pkcs7_pad, xor_arrays,
};

const DATA: &[u8] = b"The quick brown fox jumps over the lazy dog";

fn key() -> [u8; 24] {
    let mut k = [0u8; 24];
    for i in 0..24 {
        k[i] = i as u8;
    }
    k
}

fn iv() -> [u8; 16] {
    let mut v = [0u8; 16];
    for i in 0..16 {
        v[i] = 16 + i as u8;
    }
    v
}

fn iv8() -> [u8; 8] {
    let mut v = [0u8; 8];
    for i in 0..8 {
        v[i] = 100 + i as u8;
    }
    v
}

fn unhex(s: &str) -> Vec<u8> {
    hex::decode(s).expect("hexadecimal digits")
}

#[test]
fn aes192_block_known_answer() {
    let plain: [u8; 16] = unhex("00112233445566778899aabbccddeeff").try_into().unwrap();
    let cipher = aes192_encrypt_block(&key(), &plain);
    assert_eq!(cipher.to_vec(), unhex("dda97ca4864cdfe06eaf70a0ec0d7191"));
    assert_eq!(aes192_decrypt_block(&key(), &cipher), plain);
}

#[test]
fn pkcs7_padding() {
    assert_eq!(pkcs7_pad(b"abc", 8), b"abc\x05\x05\x05\x05\x05".to_vec());
    assert_eq!(pkcs7_pad(b"", 4), vec![4, 4, 4, 4]);
    assert_eq!(pkcs7_pad(b"abcd", 4), b"abcd\x04\x04\x04\x04".to_vec());
    assert_eq!(pkcs7_pad(b"ab", 1), b"ab\x01".to_vec());
    let long = pkcs7_pad(&[7u8; 3], 255);
    assert_eq!(long.len(), 255);
    assert!(long[3..].iter().all(|b| *b == 252));
    assert_eq!(pkcs7_pad(DATA, 16).len(), 48);
}

#[test]
fn nonce_and_counter_block() {
    assert_eq!(
        generate_nc([1, 2, 3, 4, 5, 6, 7, 8], 0x0102030405060708),
        [1, 2, 3, 4, 5, 6, 7, 8, 1, 2, 3, 4, 5, 6, 7, 8]
    );
    assert_eq!(generate_nc([0; 8], 1), [0, 0, 0, 0, 0, 0, 0, 0, 0, 0, 0, 0, 0, 0, 0, 1]);
    assert_eq!(generate_nc([9; 8], u64::MAX)[8..], [0xff; 8]);
}

#[test]
fn xor_of_blocks() {
    let a = [0xf0u8; 16];
    let mut b = [0u8; 16];
    for i in 0..16 {
        b[i] = i as u8;
    }
    let x = xor_arrays(a, b);
    for i in 0..16 {
        assert_eq!(x[i], 0xf0 ^ i as u8);
    }
    assert_eq!(xor_arrays(a, a), [0u8; 16]);
}

#[test]
fn random_keys_and_vectors_have_their_lengths() {
    assert_eq!(generate_iv().len(), 16);
    assert_eq!(generate_iv_ctr().len(), 8);
    assert_eq!(generate_key().len(), 24);
    assert!(generate_key() != generate_key() || generate_iv() != generate_iv());
}

#[test]
fn ecb_known_answer_and_round_trip() {
    let c = encrypt_aes192_ecb(DATA, &key());
    assert_eq!(
        c,
        unhex("1b552b0889c43585651a0457afa907f021c3a4a95e85042d230671311c748b2f60904bdca5abbf95935f6d2d285587cb")
    );
    assert_eq!(decrypt_aes192_ecb(&c, &key()), pkcs7_pad(DATA, 16));
}

#[test]
fn cbc_known_answer_and_round_trip() {
    let c = encrypt_aes192_cbc(DATA, &key(), &iv());
    assert_eq!(
        c,
        unhex("01b742cb0cb83034d18bbba2db4864db10a2646fa546049591e85857c816b782d7acb89e696c2e99ab80f6c7cd114608")
    );
    assert_eq!(decrypt_aes192_cbc(&c, &key(), &iv()), pkcs7_pad(DATA, 16));
}

#[test]
fn cfb_known_answer_and_round_trip() {
    let c = encrypt_aes192_cfb(DATA, &key(), &iv());
    assert_eq!(
        c,
        unhex("c7c65e5feeb78176f625c4db9a95210d3beff6d14fa6fb10183a31e79e3e4ca665325d6263541d20be0490b2050e526a")
    );
    assert_eq!(decrypt_aes192_cfb(&c, &key(), &iv()), pkcs7_pad(DATA, 16));
}

#[test]
fn ofb_known_answer_and_round_trip() {
    let c = encrypt_aes192_ofb(DATA, &key(), &iv());
    assert_eq!(
        c,
        unhex("c7c65e5feeb78176f625c4db9a95210d874014f83118f9db74454aa12c6fd2f90ffe0329e8f319e75e8ba97652843aef")
    );
    assert_eq!(decrypt_aes192_ofb(&c, &key(), &iv()), pkcs7_pad(DATA, 16));
}

#[test]
fn ctr_known_answer_and_round_trip() {
    let c = encrypt_aes192_ctr(DATA, &key(), &iv8());
    assert_eq!(
        c,
        unhex("0d94fa00a24f5543531a260547da6724ae01ed3f8b7ca8a8d96e24aa2bbeb794eede88846cc3a9c4af065d7a0e9672f3")
    );
    assert_eq!(decrypt_aes192_ctr(&c, &key(), &iv8()), pkcs7_pad(DATA, 16));
}

#[test]
fn modes_on_empty_and_whole_blocks() {
    let k = generate_key();
    let v = generate_iv();
    let v8 = generate_iv_ctr();
    for data in [&b""[..], &[0u8; 16][..], &[1u8; 32][..], &[2u8; 17][..]] {
        let padded = pkcs7_pad(data, 16);
        assert_eq!(padded.len(), (data.len() / 16 + 1) * 16);
        assert_eq!(decrypt_aes192_ecb(&encrypt_aes192_ecb(data, &k), &k), padded);
        assert_eq!(decrypt_aes192_cbc(&encrypt_aes192_cbc(data, &k, &v), &k, &v), padded);
        assert_eq!(decrypt_aes192_cfb(&encrypt_aes192_cfb(data, &k, &v), &k, &v), padded);
        assert_eq!(decrypt_aes192_ofb(&encrypt_aes192_ofb(data, &k, &v), &k, &v), padded);
        assert_eq!(decrypt_aes192_ctr(&encrypt_aes192_ctr(data, &k, &v8), &k, &v8), padded);
    }
}

#[test]
fn decryption_fills_a_short_last_block_with_zeros() {
    let k = key();
    assert!(decrypt_aes192_ecb(&[], &k).is_empty());
    let short = [5u8; 20];
    let mut filled = [0u8; 32];
    filled[..20].copy_from_slice(&short);
    assert_eq!(decrypt_aes192_ecb(&short, &k), decrypt_aes192_ecb(&filled, &k));
    assert_eq!(decrypt_aes192_cbc(&short, &k, &iv()), decrypt_aes192_cbc(&filled, &k, &iv()));
    assert_eq!(decrypt_aes192_cfb(&short, &k, &iv()), decrypt_aes192_cfb(&filled, &k, &iv()));
    assert_eq!(decrypt_aes192_ofb(&short, &k, &iv()), decrypt_aes192_ofb(&filled, &k, &iv()));
    assert_eq!(decrypt_aes192_ctr(&short, &k, &iv8()), decrypt_aes192_ctr(&filled, &k, &iv8()));
    assert_eq!(decrypt_aes192_ctr(&short, &k, &iv8()).len(), 32);
}
