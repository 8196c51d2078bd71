use cryptokit::bignum::Natural;
use cryptokit::cert::{
    ca_issue_certificate, issue_with_random, serialize_pk, user_generate_request,
    user_verify_certificate, CertRequest,
};
use cryptokit::primality::{is_probably_prime, is_probably_prime_with, miller_rabin_round};
use cryptokit::rabin::{Rabin, RabinPublicKey, RabinSecretKey};
use cryptokit::rsa::{modinv, Rsa, RsaPublicKey, RsaSecretKey};
use sha2::{Digest, Sha256};

fn num(x: u64) -> Natural {
    Natural::from_bytes_be(&x.to_be_bytes())
}

fn value(n: &Natural) -> u128 {
    let bytes = n.to_bytes_be();
    assert!(bytes.len() <= 16);
    let mut v: u128 = 0;
    for b in bytes {
        v = (v << 8) | b as u128;
    }
    v
}

fn bytes_value(bytes: &[u8]) -> u128 {
    value(&Natural::from_bytes_be(bytes))
}

fn inverse(a: u64, m: u64) -> Option<u128> {
    modinv(&num(a), &num(m)).map(|x| value(&x))
}

fn rsa_from(p: u64, q: u64) -> Rsa {
    Rsa::from_primes(&num(p), &num(q)).expect("a key pair")
}

fn rabin_from(p: u64, q: u64) -> Rabin {
    Rabin {
        vk: RabinPublicKey { n: num(p * q) },
        sk: RabinSecretKey { p: num(p), q: num(q) },
    }
}

#[test]
fn natural_reads_and_writes_big_endian() {
    assert_eq!(Natural::from_bytes_be(&[0, 0, 1, 2]).to_bytes_be(), vec![1, 2]);
    assert_eq!(Natural::from_bytes_be(&[]).to_bytes_be(), vec![0]);
    assert_eq!(Natural::from_bytes_be(&[0, 0]).to_bytes_be(), vec![0]);
    assert_eq!(Natural::from_u32(65537).to_bytes_be(), vec![1, 0, 1]);
    assert_eq!(Natural::from_u32(0xdeadbeef).to_bytes_be(), vec![0xde, 0xad, 0xbe, 0xef]);
    assert!(Natural::from_bytes_be(&[0, 0]).is_zero());
    assert!(!Natural::from_u32(1).is_zero());
    assert_eq!(value(&Natural::from_u32(3).clone()), 3);
}

#[test]
fn inverse_times_number_is_one() {
    assert_eq!(inverse(3, 7), Some(5));
    assert_eq!(inverse(65537, 1000002 * 1000032), Some(983264276609));
    for m in 2u64..40 {
        for a in 0u64..80 {
            let coprime = (1..=m).filter(|d| a % d == 0 && m % d == 0).count() == 1;
            match inverse(a, m) {
                Some(x) => {
                    assert!(coprime);
                    assert!(x < m as u128);
                    assert_eq!((x * a as u128) % m as u128, 1);
                }
                None => assert!(!coprime),
            }
        }
    }
}

#[test]
fn inverse_of_four_modulo_eight_is_none() {
    assert_eq!(inverse(4, 8), None);
    assert_eq!(inverse(0, 5), None);
    assert_eq!(inverse(6, 9), None);
}

#[test]
fn inverse_at_the_edges() {
    assert_eq!(inverse(0, 1), Some(0));
    assert_eq!(inverse(1, 1), Some(0));
    assert_eq!(inverse(7, 1), Some(0));
    assert_eq!(inverse(1, 0), Some(1));
    assert_eq!(inverse(0, 0), None);
    assert_eq!(inverse(2, 0), None);
    assert_eq!(inverse(10, 3), Some(1));
    assert_eq!(rabin_inverse_agrees(17, 3120), Some(2753));
}

fn rabin_inverse_agrees(a: u64, m: u64) -> Option<u128> {
    let x = cryptokit::rabin::modinv(&num(a), &num(m)).map(|x| value(&x));
    assert_eq!(x, inverse(a, m));
    x
}

#[test]
fn primality_oracle() {
    for p in [7u64, 11, 104729] {
        assert!(is_probably_prime(&num(p)), "{} is prime", p);
    }
    for c in [9u64, 15, 561] {
        assert!(!is_probably_prime(&num(c)), "{} is composite", c);
    }
}

#[test]
fn primality_of_small_and_even_numbers() {
    assert!(!is_probably_prime(&num(0)));
    assert!(!is_probably_prime(&num(1)));
    assert!(is_probably_prime(&num(2)));
    assert!(is_probably_prime(&num(3)));
    assert!(!is_probably_prime(&num(4)));
    assert!(is_probably_prime(&num(5)));
    assert!(!is_probably_prime(&num(1 << 40)));
    assert!(is_probably_prime(&num(2305843009213693951)));
}

#[test]
fn one_round_of_miller_rabin() {
    // 560 == 35 * 2^4
    let n = num(561);
    let d = num(35);
    assert!(!miller_rabin_round(&n, &d, 4, &num(2)));
    for liar in [50u64, 101, 103, 256, 305, 458, 460, 511] {
        assert!(miller_rabin_round(&n, &d, 4, &num(liar)));
    }
    let mut passing = 0;
    for a in 2u64..560 {
        if miller_rabin_round(&n, &d, 4, &num(a)) {
            passing += 1;
        }
    }
    assert_eq!(passing, 8);
    // 12 == 3 * 2^2: every witness passes for the prime 13
    for a in 2u64..12 {
        assert!(miller_rabin_round(&num(13), &num(3), 2, &num(a)));
    }
}

#[test]
fn test_with_given_witnesses() {
    let liars: Vec<Natural> =
        [50u64, 101, 103, 256, 305, 458, 460, 511, 50, 101].iter().map(|a| num(*a)).collect();
    // every witness is a strong liar for 561, so the test accepts it
    assert!(is_probably_prime_with(&num(561), &liars));
    let mut one_honest = liars.clone();
    one_honest[9] = num(2);
    assert!(!is_probably_prime_with(&num(561), &one_honest));
    one_honest.swap(0, 9);
    assert!(!is_probably_prime_with(&num(561), &one_honest));
    assert!(is_probably_prime_with(&num(561), &[]));

    let small: Vec<Natural> = (2u64..12).map(num).collect();
    assert!(is_probably_prime_with(&num(13), &small));
    assert!(!is_probably_prime_with(&num(15), &small));
    assert!(!is_probably_prime_with(&num(9), &[num(2)]));

    // below 4 and for even numbers the witnesses do not matter
    assert!(!is_probably_prime_with(&num(0), &small));
    assert!(!is_probably_prime_with(&num(1), &small));
    assert!(is_probably_prime_with(&num(2), &small));
    assert!(is_probably_prime_with(&num(3), &[]));
    assert!(!is_probably_prime_with(&num(4), &[]));
    assert!(!is_probably_prime_with(&num(104730), &small));
}

#[test]
fn key_pair_from_primes() {
    let k = rsa_from(5, 11);
    assert_eq!(value(&k.pk.n), 55);
    assert_eq!(value(&k.sk.n), 55);
    assert_eq!(value(&k.pk.e), 3);
    assert_eq!(value(&k.sk.d), 27);

    let k = rsa_from(1000003, 1000033);
    assert_eq!(value(&k.pk.n), 1000036000099);
    assert_eq!(value(&k.pk.e), 65537);
    assert_eq!(value(&k.sk.d), 983264276609);
    assert_eq!((value(&k.pk.e) * value(&k.sk.d)) % (1000002 * 1000032), 1);
}

#[test]
fn key_pair_threshold_of_the_public_exponent() {
    // (p - 1) * (q - 1) == 65537 falls back to 3.
    let k = rsa_from(2, 65538);
    assert_eq!(value(&k.pk.e), 3);
    assert_eq!((3 * value(&k.sk.d)) % 65537, 1);
    // one above keeps 65537
    let k = rsa_from(2, 65539);
    assert_eq!(value(&k.pk.e), 65537);
    assert_eq!((65537 * value(&k.sk.d)) % 65538, 1);
}

#[test]
fn key_pair_without_inverse_or_with_zero() {
    // (61 - 1) * (53 - 1) == 3120 is divisible by 3
    assert!(Rsa::from_primes(&num(61), &num(53)).is_none());
    assert!(Rsa::from_primes(&num(0), &num(53)).is_none());
    assert!(Rsa::from_primes(&num(53), &num(0)).is_none());
}

#[test]
fn generated_key_pair_signs_and_verifies() {
    let rsa = Rsa::KGen(512).expect("a key pair");
    assert_eq!(rsa.pk.n.to_bytes_be(), rsa.sk.n.to_bytes_be());
    assert_eq!(rsa.pk.e.to_bytes_be(), vec![1, 0, 1]);
    let msg = b"This is so secret!";
    let sig = rsa.sign(msg).expect("a signature");
    assert!(rsa.verify(msg, &sig));
    assert!(sig.len() <= rsa.pk.n.to_bytes_be().len());
    let again = rsa.sign(msg).expect("a signature");
    assert_eq!(sig, again);
    let copy = rsa.clone();
    assert!(copy.verify(msg, &sig));
}

#[test]
fn forged_message_is_rejected() {
    let rsa = Rsa::KGen(512).expect("a key pair");
    let sig = rsa.sign(b"This is so secret!").expect("a signature");
    assert!(rsa.verify(b"This is so secret!", &sig));
    assert!(!rsa.verify(b"I change it AHAHA!", &sig));
}

#[test]
fn sign_fails_where_the_digest_does_not_fit() {
    let rsa = rsa_from(1000003, 1000033);
    assert!(rsa.sign(b"anything").is_none());
    let small = Rsa::KGen(64).expect("a key pair");
    assert!(small.sign(b"anything").is_none());
    assert!(user_generate_request(&small).is_none());
}

#[test]
fn sign_digest_is_a_power_modulo_n() {
    let k = rsa_from(5, 11);
    // 7^27 mod 55 == 28
    assert_eq!(k.sign_digest(&[7]), Some(vec![28]));
    assert_eq!(k.sign_digest(&[0, 0, 7]), Some(vec![28]));
    assert!(k.verify_digest(&[7], &[28]));
    assert!(k.verify_digest(&[0, 7], &[0, 28]));
    assert!(!k.verify_digest(&[8], &[28]));
    assert!(!k.verify_digest(&[7], &[29]));
    assert_eq!(k.sign_digest(&[54]), Some(vec![54]));
    assert_eq!(k.sign_digest(&[55]), None);
    assert_eq!(k.sign_digest(&[1, 0]), None);
    assert_eq!(k.sign_digest(&[0]), Some(vec![0]));
    for y in 0u8..55 {
        let sig = k.sign_digest(&[y]).expect("below the modulus");
        assert!(k.verify_digest(&[y], &sig));
        for other in 0u8..55 {
            assert_eq!(k.verify_digest(&[other], &sig), other == y);
        }
    }
}

#[test]
fn sign_agrees_with_sign_digest() {
    let rsa = Rsa::KGen(256).expect("a key pair");
    let digest = Sha256::digest(b"message");
    let by_message = rsa.sign(b"message");
    assert_eq!(by_message, rsa.sign_digest(&digest));
    if let Some(sig) = by_message {
        assert!(rsa.verify_digest(&digest, &sig));
        assert!(rsa.verify(b"message", &sig));
    }
}

#[test]
fn verify_with_a_zero_modulus_is_false() {
    let k = Rsa {
        pk: RsaPublicKey { n: num(0), e: num(3) },
        sk: RsaSecretKey { n: num(1), d: num(1) },
    };
    assert!(!k.verify(b"m", &[1]));
    assert!(!k.verify_digest(&[0], &[0]));
}

#[test]
fn prime_candidates_are_adjusted() {
    for bits in [0usize, 1, 2] {
        for raw in 0u64..4 {
            assert_eq!(value(&Rsa::candidate_from(num(raw), bits)), 3);
        }
    }
    for (raw, bits, wanted) in [
        (0u64, 3usize, 5u128),
        (1, 3, 5),
        (2, 3, 7),
        (4, 3, 5),
        (7, 3, 7),
        (0, 8, 129),
        (5, 8, 133),
        (127, 8, 255),
        (128, 8, 129),
        (200, 8, 201),
        (255, 8, 255),
        (0, 16, 32769),
    ] {
        let candidate = value(&Rsa::candidate_from(num(raw), bits));
        assert_eq!(candidate, wanted);
        assert!(candidate >= 1 << (bits - 1) && candidate < 1 << bits);
    }
    for (raw, wanted) in [(0u64, 3u128), (2, 3), (3, 3), (4, 7), (5, 7), (7, 7), (8, 11), (100, 103), (103, 103)] {
        assert_eq!(value(&Rabin::candidate_from(num(raw))), wanted);
    }
}

#[test]
fn generated_primes_have_the_requested_length() {
    for l in [3usize, 8, 16, 24] {
        let k = Rsa::KGen(l);
        if let Some(k) = k {
            let n = value(&k.pk.n);
            assert!(n >= 1 << (2 * (l - 1)), "modulus {} for {} digits", n, l);
            assert!(n < 1 << (2 * l));
        }
    }
    let big = Rsa::KGen(256).expect("a key pair");
    let bytes = big.pk.n.to_bytes_be();
    assert_eq!(bytes.len(), 64);
    assert!(bytes[0] >= 0x40);
}

#[test]
fn key_generation_at_small_sizes() {
    for l in [0usize, 1, 2] {
        let k = Rsa::KGen(l).expect("both primes are 3");
        assert_eq!(value(&k.pk.n), 9);
        assert_eq!(value(&k.sk.n), 9);
        assert_eq!(value(&k.pk.e), 3);
        assert_eq!(value(&k.sk.d), 3);
        let r = Rabin::KGen(l).expect("both primes are 3");
        assert_eq!(value(&r.sk.p), 3);
        assert_eq!(value(&r.sk.q), 3);
        assert_eq!(value(&r.vk.n), 9);
    }
    if let Some(k) = Rsa::KGen(16) {
        assert!(value(&k.pk.n) < 1 << 32);
        assert!(value(&k.pk.n) >= 1 << 30);
        assert!(value(&k.pk.n) % 2 == 1);
    }
}

#[test]
fn rabin_encrypts_by_squaring() {
    let rabin = rabin_from(7, 11);
    assert_eq!(rabin.Enc(&[20]), Some(vec![15]));
    assert_eq!(rabin.Enc(&[0, 20]), Some(vec![15]));
    assert_eq!(rabin.Enc(&[0]), Some(vec![0]));
    assert_eq!(rabin.Enc(&[76]), Some(vec![1]));
    assert_eq!(rabin.Enc(&[77]), None);
    assert_eq!(rabin.Enc(&[1, 0]), None);
}

#[test]
fn rabin_decrypts_to_four_roots() {
    let rabin = rabin_from(7, 11);
    let roots = rabin.Dec(&[15]);
    assert_eq!(roots, [vec![64], vec![57], vec![20], vec![13]]);
    for r in &roots {
        let v = bytes_value(r);
        assert_eq!((v * v) % 77, 15);
    }
}

#[test]
fn rabin_plaintext_is_among_the_roots() {
    let rabin = rabin_from(7, 11);
    for m in 0u8..77 {
        let c = rabin.Enc(&[m]).expect("below the modulus");
        let roots = rabin.Dec(&c);
        assert!(roots.iter().any(|r| bytes_value(r) == m as u128), "plaintext {}", m);
    }
}

#[test]
fn rabin_generated_key_round_trip() {
    let rabin = Rabin::KGen(512).expect("a key pair");
    let p = &rabin.sk.p;
    let q = &rabin.sk.q;
    assert_eq!(*p.to_bytes_be().last().unwrap() & 3, 3);
    assert_eq!(*q.to_bytes_be().last().unwrap() & 3, 3);
    if modinv(p, q).is_none() {
        return;
    }
    let msg = b"Rabin message with secret!";
    let c = rabin.Enc(msg).expect("below the modulus");
    let roots = rabin.Dec(&c);
    let wanted = Natural::from_bytes_be(msg).to_bytes_be();
    assert!(roots.iter().any(|r| *r == wanted));
    let other = Natural::from_bytes_be(b"Ooops, I changed it again!").to_bytes_be();
    assert!(!roots.iter().any(|r| *r == other));
}

#[test]
fn rabin_decryption_is_repeatable() {
    let rabin = rabin_from(7, 11);
    for c in 0u8..77 {
        assert_eq!(rabin.Dec(&[c]), rabin.Dec(&[c]));
        assert_eq!(rabin.Dec(&[c]), rabin.Dec(&[0, 0, c]));
    }
    let big = Rabin::KGen(128).expect("a key pair");
    if modinv(&big.sk.p, &big.sk.q).is_some() {
        let c = big.Enc(b"abc").expect("below the modulus");
        assert_eq!(big.Dec(&c), big.Dec(&c));
    }
}

#[test]
fn public_key_bytes_are_modulus_then_exponent() {
    let k = rsa_from(1000003, 1000033);
    let mut expected = k.pk.n.to_bytes_be();
    assert_eq!(expected, vec![0xe8, 0xd6, 0xca, 0x61, 0x63]);
    expected.extend_from_slice(&[1, 0, 1]);
    assert_eq!(serialize_pk(&k.pk), expected);
    let zero = RsaPublicKey { n: num(0), e: num(0) };
    assert_eq!(serialize_pk(&zero), vec![0, 0]);
}

#[test]
fn certificate_protocol() {
    let user_rsa = Rsa::KGen(512).expect("user keys");
    let ca_rsa = Rsa::KGen(512).expect("authority keys");

    let request = user_generate_request(&user_rsa).expect("a request");
    let cert = ca_issue_certificate(&request, &ca_rsa).expect("a certificate");
    assert!(user_verify_certificate(&cert, &ca_rsa.pk));

    assert!(cert.id.starts_with("ID-"));
    assert_eq!(cert.id.len(), 11);
    assert!(cert.id[3..].chars().all(|c| c.is_ascii_digit() || ('a'..='f').contains(&c)));
    assert_eq!(serialize_pk(&cert.pk), serialize_pk(&user_rsa.pk));

    let mut fake_cert = cert.clone();
    fake_cert.id = "ID-0000FFFF".to_string();
    assert!(!user_verify_certificate(&fake_cert, &ca_rsa.pk));

    // another authority's key does not accept it
    assert!(!user_verify_certificate(&cert, &user_rsa.pk));
}

#[test]
fn certificate_with_given_random_bytes() {
    let user_rsa = Rsa::KGen(320).expect("user keys");
    let ca_rsa = Rsa::KGen(320).expect("authority keys");
    let request = user_generate_request(&user_rsa).expect("a request");
    let random = [0x00, 0xab, 0x10, 0xff, 1, 2, 3, 4];
    let cert = issue_with_random(&request, &ca_rsa, &random).expect("a certificate");
    assert_eq!(cert.id, "ID-00ab10ff");
    assert!(user_verify_certificate(&cert, &ca_rsa.pk));
    let mut message = b"ID-00ab10ff".to_vec();
    message.extend_from_slice(&serialize_pk(&user_rsa.pk));
    assert_eq!(Some(cert.sigma_ca.clone()), ca_rsa.sign(&message));
    let again = issue_with_random(&request, &ca_rsa, &random).expect("a certificate");
    assert_eq!(again.sigma_ca, cert.sigma_ca);
}

#[test]
fn request_with_a_wrong_signature_is_refused() {
    let user_rsa = Rsa::KGen(320).expect("user keys");
    let other = Rsa::KGen(320).expect("other keys");
    let ca_rsa = Rsa::KGen(320).expect("authority keys");
    let good = user_generate_request(&user_rsa).expect("a request");
    let stolen = CertRequest { pk_user: other.pk.clone(), sigma_user: good.sigma_user.clone() };
    assert!(ca_issue_certificate(&stolen, &ca_rsa).is_none());
    let zero = CertRequest {
        pk_user: RsaPublicKey { n: num(0), e: num(3) },
        sigma_user: vec![1],
    };
    assert!(ca_issue_certificate(&zero, &ca_rsa).is_none());
}

#[test]
fn authority_with_a_small_key_issues_nothing() {
    let user_rsa = Rsa::KGen(320).expect("user keys");
    let ca_rsa = rsa_from(1000003, 1000033);
    let request = user_generate_request(&user_rsa).expect("a request");
    assert!(issue_with_random(&request, &ca_rsa, &[0; 8]).is_none());
}
