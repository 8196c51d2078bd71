use cryptokit::block_cipher_round::{backward, e, f, forward, p, s, E_PATTERN, P_PATTERN};
use cryptokit::struct_u48::U48;

fn bits_of_u48(x: &U48) -> Vec<u32> {
    (0..48).map(|i| x.get_bit(i)).collect()
}

fn bytes_of_u48(x: &U48) -> [u8; 6] {
    let mut out = [0u8; 6];
    for i in 0..48 {
        out[i / 8] |= (x.get_bit(i) as u8) << (7 - i % 8);
    }
    out
}

#[test]
fn u48_bits_are_counted_from_the_highest() {
    let x = U48::from_bytes([0x80, 0x01, 0, 0, 0, 0x03]);
    assert_eq!(x.get_bit(0), 1);
    assert_eq!(x.get_bit(1), 0);
    assert_eq!(x.get_bit(15), 1);
    assert_eq!(x.get_bit(14), 0);
    assert_eq!(x.get_bit(46), 1);
    assert_eq!(x.get_bit(47), 1);
    assert_eq!(bits_of_u48(&x).iter().sum::<u32>(), 4);
    assert_eq!(bytes_of_u48(&x), [0x80, 0x01, 0, 0, 0, 0x03]);
}

#[test]
fn u48_bits_as_text() {
    let x = U48::from_bytes([0x80, 0x01, 0xff, 0x00, 0xa5, 0x03]);
    assert_eq!(x.bits_string(), "10000000 00000001 11111111 00000000 10100101 00000011 ");
    assert_eq!(
        U48::default().bits_string(),
        "00000000 00000000 00000000 00000000 00000000 00000000 "
    );
}

#[test]
fn u48_default_is_all_zero() {
    let x = U48::default();
    assert_eq!(x, U48::from_bytes([0; 6]));
    assert!(bits_of_u48(&x).iter().all(|b| *b == 0));
}

#[test]
fn u48_set_bit_changes_one_bit() {
    let mut x = U48::from_bytes([0x0f, 0xf0, 0xaa, 0x55, 0x00, 0xff]);
    for position in 0..48 {
        for value in [0u32, 1] {
            let before = bits_of_u48(&x);
            x.set_bit(position, value);
            let after = bits_of_u48(&x);
            for i in 0..48 {
                if i == position {
                    assert_eq!(after[i], value);
                } else {
                    assert_eq!(after[i], before[i]);
                }
            }
        }
    }
    let mut y = U48::default();
    y.set_bit(0, 1);
    y.set_bit(47, 1);
    y.set_bit(8, 1);
    y.set_bit(8, 0);
    assert_eq!(y, U48::from_bytes([0x80, 0, 0, 0, 0, 0x01]));
}

#[test]
fn u48_xor_is_bitwise() {
    let a = U48::from_bytes([0xff, 0x00, 0xaa, 0x12, 0x34, 0x56]);
    let b = U48::from_bytes([0x0f, 0xf0, 0xaa, 0x21, 0x43, 0x65]);
    assert_eq!(a.xor(&b), U48::from_bytes([0xf0, 0xf0, 0x00, 0x33, 0x77, 0x33]));
    assert_eq!(a.xor(&a), U48::default());
    assert_eq!(a.xor(&U48::default()), a);
}

#[test]
fn u48_from_pattern_picks_bits() {
    let mut pattern = [0usize; 48];
    pattern[0] = 1;
    pattern[47] = 32;
    pattern[5] = 17;
    let x = U48::from_pattern(0x80008001, &pattern);
    assert_eq!(x, U48::from_bytes([0x84, 0, 0, 0, 0, 1]));
    assert_eq!(U48::from_pattern(0xffffffff, &[0usize; 48]), U48::default());
    assert_eq!(U48::from_pattern(0, &[7usize; 48]), U48::default());
    assert_eq!(U48::from_pattern(1 << 25, &[7usize; 48]), U48::from_bytes([0xff; 6]));
}

#[test]
fn u48_random_values_differ() {
    let a = U48::random_pseudo();
    let b = U48::random_pseudo();
    let c = U48::random_pseudo();
    assert!(a != b || b != c);
}

#[test]
fn expansion_known_values() {
    assert_eq!(e(0x12345678), U48::from_bytes([10, 65, 168, 42, 195, 240]));
    assert_eq!(e(0xffffffff), U48::from_bytes([255; 6]));
    assert_eq!(e(0), U48::default());
    assert_eq!(e(0x80000001), U48::from_bytes([192, 0, 0, 0, 0, 3]));
    assert_eq!(e(0x12345678), U48::from_pattern(0x12345678, &E_PATTERN));
}

#[test]
fn substitution_known_values() {
    assert_eq!(s(U48::default()), 0xefa72c4d);
    assert_eq!(s(U48::from_bytes([0xff; 6])), 0xd9ce3dcb);
    assert_eq!(s(U48::from_bytes([0x13, 0x34, 0x57, 0x79, 0x9b, 0xbc])), 0xd62c90e5);
}

#[test]
fn permutation_known_values() {
    assert_eq!(p(0), 0);
    assert_eq!(p(0xffffffff), 0xffffffff);
    assert_eq!(p(1), 0x100);
    assert_eq!(p(0x80000000), 0x100000);
    assert_eq!(p(0x12345678), 0x7b009a1a);
    for i in 0..32 {
        let x = 0x9e3779b9u32;
        assert_eq!((p(x) >> i) & 1, (x >> (P_PATTERN[i] - 1)) & 1);
    }
}

#[test]
fn round_function_known_value() {
    let key = U48::from_bytes([0x13, 0x34, 0x57, 0x79, 0x9b, 0xbc]);
    assert_eq!(f(key, 0x12345678), 0x5b8d2d56);
    assert_eq!(f(key, 0x12345678), p(s(e(0x12345678).xor(&key))));
}

#[test]
fn forward_and_backward_rounds() {
    let key = U48::from_bytes([0x13, 0x34, 0x57, 0x79, 0x9b, 0xbc]);
    let block: u64 = 0b1001010100100100000010111100101001010010101010101010010101000111;
    assert_eq!(forward(block, key), 0x52aaa54718db0b15);
    assert_eq!(backward(block, key), 0x42d4ebe195240bca);
    assert_eq!(backward(forward(block, key), key), block);
    assert_eq!(forward(backward(block, key), key), block);
    for x in [0u64, 1, u64::MAX, 0x0123456789abcdef] {
        let k = U48::random_pseudo();
        assert_eq!(backward(forward(x, k), k), x);
        assert_eq!(forward(backward(x, k), k), x);
    }
}
