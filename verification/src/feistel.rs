//! The block cipher: a Feistel network over 8-byte blocks with a simple
//! key derivation, operating buffer to buffer.  Structurally independent of
//! the compression format.

use vstd::prelude::*;
use vstd::bytes::{spec_u32_to_le_bytes, spec_u32_from_le_bytes, u32_from_le_bytes, u32_to_le_bytes};
use vstd::arithmetic::mul::lemma_mul_inequality;
use vstd::arithmetic::div_mod::{lemma_fundamental_div_mod, lemma_mod_bound};

verus! {

/// The round function: wrapping key addition, then rotate-left by 5 XORed
/// with a right shift by 3.
pub open spec fn spec_round(input: u32, key: u32) -> u32 {
    let x = input.wrapping_add(key);
    ((x << 5u32) | (x >> 27u32)) ^ (x >> 3u32)
}

pub fn round_function(input: u32, key: u32) -> (r: u32)
    ensures
        r == spec_round(input, key),
{
    let x = input.wrapping_add(key);
    ((x << 5u32) | (x >> 27u32)) ^ (x >> 3u32)
}

/// One encryption round: the halves swap and the right half is masked.
pub open spec fn step_enc(l: u32, r: u32, k: u32) -> (u32, u32) {
    (r, l ^ spec_round(r, k))
}

/// One decryption round: the inverse of `step_enc` with the same key.
pub open spec fn step_dec(l: u32, r: u32, k: u32) -> (u32, u32) {
    (r ^ spec_round(l, k), l)
}

/// All encryption rounds, first key first.
pub open spec fn enc_rounds(l: u32, r: u32, keys: Seq<u32>) -> (u32, u32)
    decreases keys.len(),
{
    if keys.len() == 0 {
        (l, r)
    } else {
        let s = step_enc(l, r, keys[0]);
        enc_rounds(s.0, s.1, keys.skip(1))
    }
}

/// All decryption rounds, last key first.
pub open spec fn dec_rounds(l: u32, r: u32, keys: Seq<u32>) -> (u32, u32)
    decreases keys.len(),
{
    if keys.len() == 0 {
        (l, r)
    } else {
        let s = step_dec(l, r, keys.last());
        dec_rounds(s.0, s.1, keys.drop_last())
    }
}

/// Decryption peels the first key last.
proof fn lemma_dec_front(l: u32, r: u32, keys: Seq<u32>)
    requires
        keys.len() >= 1,
    ensures
        dec_rounds(l, r, keys) == ({
            let d = dec_rounds(l, r, keys.skip(1));
            step_dec(d.0, d.1, keys[0])
        }),
    decreases keys.len(),
{
    reveal_with_fuel(dec_rounds, 3);
    if keys.len() == 1 {
        assert(keys.skip(1).len() == 0);
        assert(keys.last() == keys[0]);
        assert(keys.drop_last().len() == 0);
    } else {
        let s = step_dec(l, r, keys.last());
        lemma_dec_front(s.0, s.1, keys.drop_last());
        assert(keys.skip(1).last() == keys.last());
        assert(keys.skip(1).drop_last() =~= keys.drop_last().skip(1));
        assert(keys.drop_last()[0] == keys[0]);
    }
}

/// A Feistel block round trip: decrypting an encrypted block with the same
/// keys restores the original halves, whatever the keys.
pub proof fn lemma_feistel_block_round_trip(l: u32, r: u32, keys: Seq<u32>)
    ensures
        ({
            let e = enc_rounds(l, r, keys);
            dec_rounds(e.0, e.1, keys) == (l, r)
        }),
    decreases keys.len(),
{
    if keys.len() > 0 {
        let k = keys[0];
        let s = step_enc(l, r, k);
        lemma_feistel_block_round_trip(s.0, s.1, keys.skip(1));
        let e = enc_rounds(l, r, keys);
        assert(e == enc_rounds(s.0, s.1, keys.skip(1)));
        lemma_dec_front(e.0, e.1, keys);
        assert(dec_rounds(e.0, e.1, keys.skip(1)) == (s.0, s.1));
        let f = spec_round(r, k);
        assert(((l ^ f) ^ f) == l) by (bit_vector);
    }
}

/// Runs the encryption rounds over one block.
pub fn feistel_encrypt_block(left: u32, right: u32, keys: &Vec<u32>) -> (res: (u32, u32))
    ensures
        res == enc_rounds(left, right, keys@),
{
    let mut l = left;
    let mut r = right;
    let mut i: usize = 0;
    proof {
        assert(keys@.skip(0) =~= keys@);
    }
    while i < keys.len()
        invariant
            i <= keys@.len(),
            enc_rounds(left, right, keys@) == enc_rounds(l, r, keys@.skip(i as int)),
        decreases keys@.len() - i,
    {
        let k = keys[i];
        proof {
            assert(keys@.skip(i as int)[0] == keys@[i as int]);
            assert(keys@.skip(i as int).skip(1) =~= keys@.skip(i + 1));
        }
        let f = round_function(r, k);
        let new_left = r;
        let new_right = l ^ f;
        l = new_left;
        r = new_right;
        i = i + 1;
    }
    proof {
        assert(keys@.skip(keys@.len() as int).len() == 0);
    }
    (l, r)
}

/// Runs the decryption rounds over one block, last key first.
pub fn feistel_decrypt_block(left: u32, right: u32, keys: &Vec<u32>) -> (res: (u32, u32))
    ensures
        res == dec_rounds(left, right, keys@),
{
    let mut l = left;
    let mut r = right;
    let mut i: usize = keys.len();
    proof {
        assert(keys@.take(keys@.len() as int) =~= keys@);
    }
    while i > 0
        invariant
            i <= keys@.len(),
            dec_rounds(left, right, keys@) == dec_rounds(l, r, keys@.take(i as int)),
        decreases i,
    {
        i = i - 1;
        let k = keys[i];
        proof {
            assert(keys@.take(i + 1).last() == keys@[i as int]);
            assert(keys@.take(i + 1).drop_last() =~= keys@.take(i as int));
        }
        let f = round_function(l, k);
        let new_right = l;
        let new_left = r ^ f;
        l = new_left;
        r = new_right;
    }
    (l, r)
}

/// Four bytes of `s` starting at `4k`, zero-padded past the end.
pub open spec fn padded4(s: Seq<u8>, off: int) -> Seq<u8> {
    Seq::new(
        4,
        |j: int|
            if off + j < s.len() {
                s[off + j]
            } else {
                0u8
            },
    )
}

/// The derived keys: successive 4-byte chunks of the material, zero-padded,
/// read little-endian.
pub open spec fn spec_derive_keys(s: Seq<u8>) -> Seq<u32> {
    Seq::new(((s.len() + 3) / 4) as nat, |i: int| spec_u32_from_le_bytes(padded4(s, 4 * i)))
}

/// Byte `stride * k + j` of `s`, or 0 past the end.  The index is taken in
/// parts so it is never computed where it could exceed `usize`.
fn chunk_byte(s: &Vec<u8>, stride: usize, k: usize, j: usize) -> (r: u8)
    requires
        1 <= stride <= 8,
        j < stride,
    ensures
        r == (if stride * k + j < s@.len() {
            s@[stride * (k as int) + (j as int)]
        } else {
            0u8
        }),
{
    let n = s.len();
    if j < n && k <= (n - 1 - j) / stride {
        proof {
            let d = (n - 1 - j) as int;
            let st = stride as int;
            lemma_fundamental_div_mod(d, st);
            lemma_mod_bound(d, st);
            lemma_mul_inequality(k as int, d / st, st);
            assert((k as int) * st <= (d / st) * st);
            assert(stride * (k as int) <= n - 1 - j);
        }
        let idx = stride * k + j;
        s[idx]
    } else {
        proof {
            if j < n {
                let d = (n - 1 - j) as int;
                let st = stride as int;
                assert(k as int > d / st);
                lemma_fundamental_div_mod(d, st);
                lemma_mod_bound(d, st);
                lemma_mul_inequality(d / st + 1, k as int, st);
                assert((d / st + 1) * st <= (k as int) * st);
                assert((d / st + 1) * st == (d / st) * st + st) by (nonlinear_arith);
                assert(stride * (k as int) > n - 1 - j);
            }
        }
        0
    }
}

/// Reads the zero-padded 4-byte little-endian word at `4k + off` of `s`;
/// `off` is 0 or 4 to pick a block half.
fn read_padded_le32(s: &Vec<u8>, k: usize, off: usize) -> (r: u32)
    requires
        off == 0 || off == 4,
    ensures
        r == spec_u32_from_le_bytes(padded4(s@, 8 * (k as int) + (off as int))),
{
    let mut kb: Vec<u8> = Vec::new();
    kb.push(chunk_byte(s, 8, k, off));
    kb.push(chunk_byte(s, 8, k, off + 1));
    kb.push(chunk_byte(s, 8, k, off + 2));
    kb.push(chunk_byte(s, 8, k, off + 3));
    proof {
        assert(kb@ =~= padded4(s@, 8 * (k as int) + (off as int)));
    }
    u32_from_le_bytes(kb.as_slice())
}

/// Splits the key material into 4-byte chunks, zero-padding the last, and
/// reads each as a little-endian round key.
pub fn derive_keys(key_material: &Vec<u8>) -> (r: Vec<u32>)
    ensures
        r@ == spec_derive_keys(key_material@),
{
    let n = key_material.len();
    let nkeys = n / 4 + (if n % 4 != 0 {
        1usize
    } else {
        0usize
    });
    assert(nkeys == (key_material@.len() + 3) / 4);
    let mut out: Vec<u32> = Vec::new();
    let mut i: usize = 0;
    while i < nkeys
        invariant
            i <= nkeys,
            out@.len() == i,
            forall|m: int|
                0 <= m < i ==> out@[m] == spec_u32_from_le_bytes(padded4(key_material@, 4 * m)),
        decreases nkeys - i,
    {
        let mut kb: Vec<u8> = Vec::new();
        kb.push(chunk_byte(key_material, 4, i, 0));
        kb.push(chunk_byte(key_material, 4, i, 1));
        kb.push(chunk_byte(key_material, 4, i, 2));
        kb.push(chunk_byte(key_material, 4, i, 3));
        proof {
            assert(kb@ =~= padded4(key_material@, 4 * (i as int)));
        }
        out.push(u32_from_le_bytes(kb.as_slice()));
        i = i + 1;
    }
    proof {
        assert(out@ =~= spec_derive_keys(key_material@));
    }
    out
}

/// The 8 output bytes of block `bi` under encryption.
pub open spec fn enc_block_bytes(data: Seq<u8>, keys: Seq<u32>, bi: int) -> Seq<u8> {
    let l = spec_u32_from_le_bytes(padded4(data, 8 * bi));
    let r = spec_u32_from_le_bytes(padded4(data, 8 * bi + 4));
    let e = enc_rounds(l, r, keys);
    spec_u32_to_le_bytes(e.0) + spec_u32_to_le_bytes(e.1)
}

/// The 8 output bytes of block `bi` under decryption.
pub open spec fn dec_block_bytes(data: Seq<u8>, keys: Seq<u32>, bi: int) -> Seq<u8> {
    let l = spec_u32_from_le_bytes(padded4(data, 8 * bi));
    let r = spec_u32_from_le_bytes(padded4(data, 8 * bi + 4));
    let d = dec_rounds(l, r, keys);
    spec_u32_to_le_bytes(d.0) + spec_u32_to_le_bytes(d.1)
}

/// The whole ciphertext: every 8-byte block of `data`, zero-padded,
/// encrypted in place; 8 output bytes per (possibly partial) input block.
pub open spec fn spec_feistel_encrypt(data: Seq<u8>, keys: Seq<u32>) -> Seq<u8> {
    Seq::new((8 * ((data.len() + 7) / 8)) as nat, |i: int| enc_block_bytes(data, keys, i / 8)[i % 8])
}

/// The whole deciphered buffer, blockwise.
pub open spec fn spec_feistel_decrypt(data: Seq<u8>, keys: Seq<u32>) -> Seq<u8> {
    Seq::new((8 * ((data.len() + 7) / 8)) as nat, |i: int| dec_block_bytes(data, keys, i / 8)[i % 8])
}

/// Encrypts `data` under keys derived from `key_material`: 8-byte blocks,
/// zero-padded, halves read little-endian, run through the rounds and
/// written back little-endian.
pub fn feistel_encrypt(data: &Vec<u8>, key_material: &Vec<u8>) -> (r: Vec<u8>)
    ensures
        r@ == spec_feistel_encrypt(data@, spec_derive_keys(key_material@)),
{
    let keys = derive_keys(key_material);
    let n = data.len();
    let nblocks = n / 8 + (if n % 8 != 0 {
        1usize
    } else {
        0usize
    });
    assert(nblocks == (data@.len() + 7) / 8);
    let mut out: Vec<u8> = Vec::new();
    let mut bi: usize = 0;
    while bi < nblocks
        invariant
            bi <= nblocks,
            keys@ == spec_derive_keys(key_material@),
            out@.len() == 8 * bi,
            forall|i: int| 0 <= i < 8 * bi ==> out@[i] == enc_block_bytes(data@, keys@, i / 8)[i % 8],
        decreases nblocks - bi,
    {
        let l = read_padded_le32(data, bi, 0);
        let r = read_padded_le32(data, bi, 4);
        let (el, er) = feistel_encrypt_block(l, r, &keys);
        let mut lb = u32_to_le_bytes(el);
        let mut rb = u32_to_le_bytes(er);
        out.append(&mut lb);
        out.append(&mut rb);
        proof {
            assert forall|i: int| 0 <= i < 8 * (bi + 1) implies out@[i] == enc_block_bytes(
                data@,
                keys@,
                i / 8,
            )[i % 8] by {
                if i >= 8 * bi {
                    assert(i / 8 == bi);
                    assert(enc_block_bytes(data@, keys@, bi as int)[i % 8] == out@[i]);
                }
            }
        }
        bi = bi + 1;
    }
    proof {
        assert(out@ =~= spec_feistel_encrypt(data@, spec_derive_keys(key_material@)));
    }
    out
}

/// Decrypts `data` under keys derived from `key_material`, blockwise, the
/// inverse of `feistel_encrypt` on whole blocks.
pub fn feistel_decrypt(data: &Vec<u8>, key_material: &Vec<u8>) -> (r: Vec<u8>)
    ensures
        r@ == spec_feistel_decrypt(data@, spec_derive_keys(key_material@)),
{
    let keys = derive_keys(key_material);
    let n = data.len();
    let nblocks = n / 8 + (if n % 8 != 0 {
        1usize
    } else {
        0usize
    });
    assert(nblocks == (data@.len() + 7) / 8);
    let mut out: Vec<u8> = Vec::new();
    let mut bi: usize = 0;
    while bi < nblocks
        invariant
            bi <= nblocks,
            keys@ == spec_derive_keys(key_material@),
            out@.len() == 8 * bi,
            forall|i: int| 0 <= i < 8 * bi ==> out@[i] == dec_block_bytes(data@, keys@, i / 8)[i % 8],
        decreases nblocks - bi,
    {
        let l = read_padded_le32(data, bi, 0);
        let r = read_padded_le32(data, bi, 4);
        let (dl, dr) = feistel_decrypt_block(l, r, &keys);
        let mut lb = u32_to_le_bytes(dl);
        let mut rb = u32_to_le_bytes(dr);
        out.append(&mut lb);
        out.append(&mut rb);
        proof {
            assert forall|i: int| 0 <= i < 8 * (bi + 1) implies out@[i] == dec_block_bytes(
                data@,
                keys@,
                i / 8,
            )[i % 8] by {
                if i >= 8 * bi {
                    assert(i / 8 == bi);
                    assert(dec_block_bytes(data@, keys@, bi as int)[i % 8] == out@[i]);
                }
            }
        }
        bi = bi + 1;
    }
    proof {
        assert(out@ =~= spec_feistel_decrypt(data@, spec_derive_keys(key_material@)));
    }
    out
}

} // verus!
