//! Key derivation on HMAC-SHA-256: HKDF, PBKDF2 and a key tree of three levels.

use crate::primitives::{hmac_sha256_compute, hmac_sha256_tag, xored};
use vstd::prelude::*;

verus! {

/// The length of an HMAC-SHA-256 tag.
pub const HASH_LEN: usize = 32;

/// The masks that pick, from a sequence number, what each level of the key
/// tree depends on.
pub const C1: u64 = 0x69B1;

pub const C2: u64 = 0x8040;

pub const C3: u64 = 0x4D20;

/// The four bytes of a number, highest first.
pub open spec fn be32(x: u32) -> Seq<u8> {
    Seq::new(4, |j: int| ((x >> ((8 * (3 - j)) as u32)) & 0xff) as u8)
}

/// The eight bytes of a number, highest first.
pub open spec fn be64(x: u64) -> Seq<u8> {
    Seq::new(8, |j: int| ((x >> ((8 * (7 - j)) as u64)) & 0xff) as u8)
}

/// HKDF: block `i` of the output, counted from 1. Each block is the tag of the
/// block before it, the context and the block's number in one byte.
pub open spec fn hkdf_block(prk: Seq<u8>, info: Seq<u8>, i: nat) -> Seq<u8>
    decreases i,
{
    if i == 0 {
        Seq::empty()
    } else {
        hmac_sha256_tag(prk, hkdf_block(prk, info, (i - 1) as nat) + info + seq![(i % 256) as u8])
    }
}

/// HKDF: the first `t` blocks in a row.
pub open spec fn hkdf_stream(prk: Seq<u8>, info: Seq<u8>, t: nat) -> Seq<u8>
    decreases t,
{
    if t == 0 {
        Seq::empty()
    } else {
        hkdf_stream(prk, info, (t - 1) as nat) + hkdf_block(prk, info, t)
    }
}

/// HKDF: `l` bytes from the key material `skm`, the salt `xts` and the context.
pub open spec fn hkdf(skm: Seq<u8>, xts: Seq<u8>, info: Seq<u8>, l: nat) -> Seq<u8> {
    hkdf_stream(hmac_sha256_tag(xts, skm), info, (l + 31) / 32).subrange(0, l as int)
}

/// PBKDF2: the `j`-th tag of a chain that starts at the tag of `salt_i`.
pub open spec fn pbkdf2_u(password: Seq<u8>, salt_i: Seq<u8>, j: nat) -> Seq<u8>
    decreases j,
{
    if j <= 1 {
        hmac_sha256_tag(password, salt_i)
    } else {
        hmac_sha256_tag(password, pbkdf2_u(password, salt_i, (j - 1) as nat))
    }
}

/// PBKDF2: the exclusive or of the first `c` tags of the chain; the first
/// alone for `c` below 2.
pub open spec fn pbkdf2_t(password: Seq<u8>, salt_i: Seq<u8>, c: nat) -> Seq<u8>
    decreases c,
{
    if c <= 1 {
        pbkdf2_u(password, salt_i, 1)
    } else {
        xored(pbkdf2_t(password, salt_i, (c - 1) as nat), pbkdf2_u(password, salt_i, c))
    }
}

/// PBKDF2: block `i` of the output, counted from 1.
pub open spec fn pbkdf2_block(password: Seq<u8>, salt: Seq<u8>, c: nat, i: nat) -> Seq<u8> {
    pbkdf2_t(password, salt + be32((i % 0x1_0000_0000) as u32), c)
}

/// PBKDF2: the first `l` blocks in a row.
pub open spec fn pbkdf2_stream(password: Seq<u8>, salt: Seq<u8>, c: nat, l: nat) -> Seq<u8>
    decreases l,
{
    if l == 0 {
        Seq::empty()
    } else {
        pbkdf2_stream(password, salt, c, (l - 1) as nat) + pbkdf2_block(password, salt, c, l)
    }
}

/// What a level of the key tree signs: `01 "level" <digit of j> 00 d 01 00`.
pub open spec fn level_input(j: u8, d: Seq<u8>) -> Seq<u8> {
    seq![0x01u8, 0x6c, 0x65, 0x76, 0x65, 0x6c, (0x30 + j) as u8, 0x00] + d + seq![0x01u8, 0x00]
}

/// The key of level `j` under the key of the level above and the data `d`.
pub open spec fn level_key(j: u8, key: Seq<u8>, d: Seq<u8>) -> Seq<u8> {
    hmac_sha256_tag(key, level_input(j, d))
}

/// The key of the tree's third level for the sequence number `i`.
pub open spec fn tree_key(root: Seq<u8>, i: u64) -> Seq<u8> {
    level_key(3, level_key(2, level_key(1, root, be64(i & C1)), be64(i & C2)), be64(i & C3))
}

/// What the key tree computes on the way to a key.
pub struct TlsTreeDebug {
    pub d1: [u8; 8],
    pub d2: [u8; 8],
    pub d3: [u8; 8],
    pub k1: Vec<u8>,
    pub k2: Vec<u8>,
    pub k3: Vec<u8>,
}

/// The HMAC-SHA-256 tag of `data` under `key`.
pub fn hmac_sha256(key: &[u8], data: &[u8]) -> (r: Vec<u8>)
    ensures
        r@ == hmac_sha256_tag(key@, data@),
        r@.len() == 32,
{
    hmac_sha256_compute(key, data)
}

/// HKDF with HMAC-SHA-256: `l` bytes from the key material `skm`, the salt
/// `xts` and the context `ctx_info`.
pub fn hkdf_hmac_sha256(skm: &[u8], xts: &[u8], ctx_info: &[u8], l: usize) -> (result: Vec<u8>)
    requires
        l <= usize::MAX - 32,
    ensures
        result@ == hkdf(skm@, xts@, ctx_info@, l as nat),
        result@.len() == l,
{
    let prk = hmac_sha256(xts, skm);
    assert(HASH_LEN == 32);
    let t: usize = (l + HASH_LEN - 1) / HASH_LEN;
    let mut result: Vec<u8> = Vec::new();
    let mut k_prev: Vec<u8> = Vec::new();
    let mut i: usize = 1;
    while i <= t
        invariant
            1 <= i <= t + 1,
            t == (l + 31) / 32,
            l <= usize::MAX - 32,
            prk@ == hmac_sha256_tag(xts@, skm@),
            k_prev@ == hkdf_block(prk@, ctx_info@, (i - 1) as nat),
            result@ == hkdf_stream(prk@, ctx_info@, (i - 1) as nat),
            result@.len() == 32 * (i - 1),
        decreases t + 1 - i,
    {
        let mut input: Vec<u8> = Vec::new();
        input.extend_from_slice(k_prev.as_slice());
        input.extend_from_slice(ctx_info);
        input.push((i % 256) as u8);
        assert(input@ =~= k_prev@ + ctx_info@ + seq![(i % 256) as u8]);
        k_prev = hmac_sha256(prk.as_slice(), input.as_slice());
        let ghost before = result@;
        result.extend_from_slice(k_prev.as_slice());
        assert(result@ =~= before + k_prev@);
        i += 1;
    }
    result.truncate(l);
    result
}

/// PBKDF2 with HMAC-SHA-256: whole blocks of 32 bytes, as many as hold
/// `vec_len` bytes, and nothing for `vec_len == 0`. Fewer than 2 iterations
/// count as one.
pub fn pbkdf2_hmac_sha256(password: &[u8], salt: &[u8], iterations: u32, vec_len: usize) -> (result:
    Vec<u8>)
    requires
        vec_len <= usize::MAX - 32,
    ensures
        result@ == pbkdf2_stream(password@, salt@, iterations as nat, ((vec_len + 31) / 32) as nat),
        result@.len() == 32 * ((vec_len + 31) / 32),
{
    let dk_len = vec_len;
    if dk_len == 0 {
        return Vec::new();
    }
    assert(HASH_LEN == 32);
    let l: usize = (dk_len + HASH_LEN - 1) / HASH_LEN;
    let mut result: Vec<u8> = Vec::new();
    let mut i: usize = 1;
    while i <= l
        invariant
            1 <= i <= l + 1,
            l == (vec_len + 31) / 32,
            vec_len <= usize::MAX - 32,
            result@ == pbkdf2_stream(password@, salt@, iterations as nat, (i - 1) as nat),
            result@.len() == 32 * (i - 1),
        decreases l + 1 - i,
    {
        let mut salt_i: Vec<u8> = Vec::new();
        salt_i.extend_from_slice(salt);
        let i_bytes = be_bytes_u32((i as u64 % 0x1_0000_0000) as u32);
        salt_i.extend_from_slice(i_bytes.as_slice());
        assert(salt_i@ =~= salt@ + be32(((i as nat) % 0x1_0000_0000) as u32));
        let mut u = hmac_sha256(password, salt_i.as_slice());
        let mut t = u.clone();
        assert(t@ =~= u@);
        let mut round: u32 = 1;
        while round < iterations
            invariant
                1 <= round,
                round <= iterations || round == 1,
                u@ == pbkdf2_u(password@, salt_i@, round as nat),
                t@ == pbkdf2_t(password@, salt_i@, round as nat),
                u@.len() == 32,
                t@.len() == 32,
            decreases iterations - round,
        {
            u = hmac_sha256(password, u.as_slice());
            let ghost t_before = t@;
            let mut k: usize = 0;
            while k < 32
                invariant
                    k <= 32,
                    u@.len() == 32,
                    t@.len() == 32,
                    t_before.len() == 32,
                    forall|j: int| 0 <= j < k ==> t@[j] == t_before[j] ^ u@[j],
                    forall|j: int| k <= j < 32 ==> t@[j] == t_before[j],
                decreases 32 - k,
            {
                let mixed: u8 = t[k] ^ u[k];
                t.set(k, mixed);
                k += 1;
            }
            assert(t@ =~= xored(t_before, u@));
            round += 1;
        }
        assert(t@ == pbkdf2_block(password@, salt@, iterations as nat, i as nat)) by {
            assert(round == iterations || (iterations == 0 && round == 1));
            assert(salt_i@ == salt@ + be32(((i as nat) % 0x1_0000_0000) as u32));
        }
        let ghost before = result@;
        result.extend_from_slice(t.as_slice());
        assert(result@ =~= before + t@);
        i += 1;
    }
    result
}

/// The four bytes of a number, highest first.
fn be_bytes_u32(x: u32) -> (r: [u8; 4])
    ensures
        r@ == be32(x),
{
    let mut r = [0u8; 4];
    let mut j: usize = 0;
    while j < 4
        invariant
            j <= 4,
            forall|k: int| 0 <= k < j ==> r[k] == be32(x)[k],
        decreases 4 - j,
    {
        let shift: u32 = 8 * (3 - j as u32);
        let byte: u32 = (x >> shift) & 0xff;
        assert(byte <= 0xff) by (bit_vector)
            requires
                byte == (x >> shift) & 0xff,
        ;
        r[j] = byte as u8;
        j += 1;
    }
    assert(r@ =~= be32(x));
    r
}

/// The key of level `j` of the key tree, for `j` from 1 to 3.
pub fn kdf_j(j: u8, key: &[u8], d: &[u8]) -> (r: Vec<u8>)
    requires
        j <= 207,
    ensures
        r@ == level_key(j, key@, d@),
        r@.len() == 32,
{
    let mut input: Vec<u8> = Vec::new();
    input.push(0x01);
    input.push(0x6c);
    input.push(0x65);
    input.push(0x76);
    input.push(0x65);
    input.push(0x6c);
    input.push(0x30 + j);
    input.push(0x00);
    input.extend_from_slice(d);
    input.push(0x01);
    input.push(0x00);
    assert(input@ =~= level_input(j, d@));
    hmac_sha256(key, input.as_slice())
}

/// The eight bytes of a number, highest first.
pub fn str8(x: u64) -> (r: [u8; 8])
    ensures
        r@ == be64(x),
{
    let mut r = [0u8; 8];
    let mut j: usize = 0;
    while j < 8
        invariant
            j <= 8,
            forall|k: int| 0 <= k < j ==> r[k] == be64(x)[k],
        decreases 8 - j,
    {
        let shift: u64 = 8 * (7 - j as u64);
        let byte: u64 = (x >> shift) & 0xff;
        assert(byte <= 0xff) by (bit_vector)
            requires
                byte == (x >> shift) & 0xff,
        ;
        r[j] = byte as u8;
        j += 1;
    }
    assert(r@ =~= be64(x));
    r
}

/// The key of the tree's third level for the sequence number `i`, with what
/// was computed on the way.
pub fn tlstree_debug(root: &[u8], i: u64) -> (r: (Vec<u8>, TlsTreeDebug))
    ensures
        r.0@ == tree_key(root@, i),
        r.1.d1@ == be64(i & C1),
        r.1.d2@ == be64(i & C2),
        r.1.d3@ == be64(i & C3),
        r.1.k1@ == level_key(1, root@, be64(i & C1)),
        r.1.k2@ == level_key(2, r.1.k1@, be64(i & C2)),
        r.1.k3@ == tree_key(root@, i),
{
    let d1 = str8(i & C1);
    let k1 = kdf_j(1, root, d1.as_slice());

    let d2 = str8(i & C2);
    let k2 = kdf_j(2, k1.as_slice(), d2.as_slice());

    let d3 = str8(i & C3);
    let k3 = kdf_j(3, k2.as_slice(), d3.as_slice());

    let out = k3.clone();
    assert(out@ =~= k3@);
    (out, TlsTreeDebug { d1, d2, d3, k1, k2, k3 })
}

/// The key of the tree's third level for the sequence number `i`.
pub fn tlstree(root: &[u8], i: u64) -> (k3: Vec<u8>)
    ensures
        k3@ == tree_key(root@, i),
{
    let d1 = str8(i & C1);
    let k1 = kdf_j(1, root, d1.as_slice());

    let d2 = str8(i & C2);
    let k2 = kdf_j(2, k1.as_slice(), d2.as_slice());

    let d3 = str8(i & C3);
    let k3 = kdf_j(3, k2.as_slice(), d3.as_slice());
    k3
}

} // verus!
