use cryptokit::kdf::{hkdf_hmac_sha256, hmac_sha256, kdf_j, pbkdf2_hmac_sha256, str8, tlstree, tlstree_debug};
use hmac::Hmac;
use pbkdf2::pbkdf2;
use sha2::Sha256;

#[test]
fn test_hkdf_different_lengths() {
    let skm = b"my-secret-key-material";
    let xts = b"random-salt-123";
    let ctx = b"context-info";

    let len1 = 32;
    let len2 = 64;
    let len3 = 96;

    let k1 = hkdf_hmac_sha256(skm, xts, ctx, len1);
    let k2 = hkdf_hmac_sha256(skm, xts, ctx, len2);
    let k3 = hkdf_hmac_sha256(skm, xts, ctx, len3);

    assert_eq!(k1.len(), len1);
    assert_eq!(k2.len(), len2);
    assert_eq!(k3.len(), len3);

    assert_eq!(&k2[..len1], &k1[..]);
    assert_eq!(&k3[..len1], &k1[..]);
}

#[test]
fn test_hkdf_different_inputs() {
    let skm1 = b"secret1";
    let skm2 = b"secret2";
    let xts1 = b"saltA";
    let xts2 = b"saltB";
    let ctx1 = b"ctx1";
    let ctx2 = b"ctx2";

    let k1 = hkdf_hmac_sha256(skm1, xts1, ctx1, 32);
    let k2 = hkdf_hmac_sha256(skm2, xts1, ctx1, 32);
    let k3 = hkdf_hmac_sha256(skm1, xts2, ctx1, 32);
    let k4 = hkdf_hmac_sha256(skm1, xts1, ctx2, 32);

    assert_ne!(k1, k2);
    assert_ne!(k1, k3);
    assert_ne!(k1, k4);
    assert_ne!(k2, k3);
    assert_ne!(k2, k4);
    assert_ne!(k3, k4);
}

#[test]
fn test_pbkdf2_different_iterations() {
    let password = b"password123";
    let salt = b"salt456";
    let len = 32usize;

    let k100 = pbkdf2_hmac_sha256(password, salt, 100, len);
    let k1000 = pbkdf2_hmac_sha256(password, salt, 1000, len);
    let k5000 = pbkdf2_hmac_sha256(password, salt, 5000, len);

    assert_ne!(k100, k1000);
    assert_ne!(k1000, k5000);
    assert_ne!(k100, k5000);
}

#[test]
fn test_pbkdf2_different_lengths() {
    let password = b"password123";
    let salt = b"salt456";
    let iterations = 1000;

    let k16 = pbkdf2_hmac_sha256(password, salt, iterations, 32);
    let k32 = pbkdf2_hmac_sha256(password, salt, iterations, 64);
    let k48 = pbkdf2_hmac_sha256(password, salt, iterations, 96);

    assert_eq!(k16.len(), 32);
    assert_eq!(k32.len(), 64);
    assert_eq!(k48.len(), 96);
}

#[test]
fn test_pbkdf2_same_input_same_output() {
    let password = b"test-pass";
    let salt = b"test-salt";
    let iterations = 2048;
    let len = 48usize;

    let k1 = pbkdf2_hmac_sha256(password, salt, iterations, len);
    let k2 = pbkdf2_hmac_sha256(password, salt, iterations, len);

    assert_eq!(k1, k2);
}

#[test]
fn test_pbkdf2_known_answer() {
    let password = b"cactus_polivaetsya_po_credam";
    let salt = b"salt";
    let iterations = 1;
    let r = 32;
    let mut output = [0u8; 32];

    let derived = pbkdf2_hmac_sha256(password, salt, iterations, r);

    pbkdf2::<Hmac<Sha256>>(password, salt, iterations, &mut output).expect("invalid_len");

    assert_eq!(derived, output);
}

#[test]
fn test_tlstree_conditions() {
    let root = b"rootrootrootroot";

    let i_a = 0x0000u64;
    let i_b = 0x0001u64;
    let i_c = 0x8000u64;
    let i_d = 0xC000u64;

    let (k_a, dbg_a) = tlstree_debug(root, i_a);
    let (k_b, _dbg_b) = tlstree_debug(root, i_b);
    let (k_c, dbg_c) = tlstree_debug(root, i_c);
    let (k_d, dbg_d) = tlstree_debug(root, i_d);

    assert_ne!(k_a, k_b);

    assert_eq!(dbg_a.d1, dbg_c.d1, "C1 должны совпадать");
    assert_ne!(dbg_a.d2, dbg_c.d2, "C2 должны различаться");
    assert_ne!(k_a, k_c);

    assert_eq!(dbg_c.d2, dbg_d.d2, "C2 должны совпадать");
    assert_ne!(dbg_c.d3, dbg_d.d3, "C3 должны различаться");
    assert_ne!(k_c, k_d);

    let (k_a2, dbg_a2) = tlstree_debug(root, i_a);
    assert_eq!(k_a, k_a2);
    assert_eq!(dbg_a.k3, dbg_a2.k3);
}

#[test]
fn hmac_known_answer() {
    // The second test vector of RFC 4231.
    let tag = hmac_sha256(b"Jefe", b"what do ya want for nothing?");
    let expected: [u8; 32] = [
        0x5b, 0xdc, 0xc1, 0x46, 0xbf, 0x60, 0x75, 0x4e, 0x6a, 0x04, 0x24, 0x26, 0x08, 0x95, 0x75,
        0xc7, 0x5a, 0x00, 0x3f, 0x08, 0x9d, 0x27, 0x39, 0x83, 0x9d, 0xec, 0x58, 0xb9, 0x64, 0xec,
        0x38, 0x43,
    ];
    assert_eq!(tag, expected.to_vec());
}

#[test]
fn hkdf_known_answer() {
    // The first test vector of RFC 5869.
    let ikm = [0x0bu8; 22];
    let salt: Vec<u8> = (0u8..=0x0c).collect();
    let info: Vec<u8> = (0xf0u8..=0xf9).collect();
    let okm = hkdf_hmac_sha256(&ikm, &salt, &info, 42);
    let expected: [u8; 42] = [
        0x3c, 0xb2, 0x5f, 0x25, 0xfa, 0xac, 0xd5, 0x7a, 0x90, 0x43, 0x4f, 0x64, 0xd0, 0x36, 0x2f,
        0x2a, 0x2d, 0x2d, 0x0a, 0x90, 0xcf, 0x1a, 0x5a, 0x4c, 0x5d, 0xb0, 0x2d, 0x56, 0xec, 0xc4,
        0xc5, 0xbf, 0x34, 0x00, 0x72, 0x08, 0xd5, 0xb8, 0x87, 0x18, 0x58, 0x65,
    ];
    assert_eq!(okm, expected.to_vec());
}

#[test]
fn hkdf_of_no_bytes_is_empty() {
    assert!(hkdf_hmac_sha256(b"k", b"s", b"c", 0).is_empty());
}

#[test]
fn pbkdf2_of_no_bytes_is_empty_and_blocks_are_whole() {
    assert!(pbkdf2_hmac_sha256(b"p", b"s", 10, 0).is_empty());
    assert_eq!(pbkdf2_hmac_sha256(b"p", b"s", 2, 33).len(), 64);
    assert_eq!(pbkdf2_hmac_sha256(b"p", b"s", 0, 32), pbkdf2_hmac_sha256(b"p", b"s", 1, 32));
}

#[test]
fn pbkdf2_matches_reference_over_iterations() {
    let mut output = [0u8; 64];
    pbkdf2::<Hmac<Sha256>>(b"password", b"salt", 7, &mut output).expect("length");
    assert_eq!(pbkdf2_hmac_sha256(b"password", b"salt", 7, 64), output.to_vec());
}

#[test]
fn str8_is_big_endian() {
    assert_eq!(str8(0x0102030405060708), [1, 2, 3, 4, 5, 6, 7, 8]);
    assert_eq!(str8(0), [0u8; 8]);
}

#[test]
fn tree_key_is_three_levels_of_kdf() {
    let root = b"rootrootrootroot";
    let i = 0xC001u64;
    let k1 = kdf_j(1, root, &str8(i & 0x69B1));
    let k2 = kdf_j(2, &k1, &str8(i & 0x8040));
    let k3 = kdf_j(3, &k2, &str8(i & 0x4D20));
    assert_eq!(tlstree(root, i), k3);
    let (k, dbg) = tlstree_debug(root, i);
    assert_eq!(k, k3);
    assert_eq!(dbg.k1, k1);
    assert_eq!(dbg.k2, k2);
    let mut input = vec![0x01u8];
    input.extend_from_slice(b"level1");
    input.push(0);
    input.extend_from_slice(&str8(i & 0x69B1));
    input.extend_from_slice(&[1, 0]);
    assert_eq!(k1, hmac_sha256(root, &input));
}
