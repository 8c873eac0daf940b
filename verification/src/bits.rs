//! Bit-level packing: converts a sequence of code bits to and from a
//! byte-aligned buffer, MSB-first, zero-padding the final partial byte.

use vstd::prelude::*;

verus! {

pub open spec fn bit_val(b: bool) -> u8 {
    if b {
        1
    } else {
        0
    }
}

/// The bit at position `i`, reading past the end as the zero padding does.
pub open spec fn padded_bit(bits: Seq<bool>, i: int) -> bool {
    if 0 <= i < bits.len() {
        bits[i]
    } else {
        false
    }
}

/// Byte `k` of the packed stream: bits `8k .. 8k+8`, MSB first.
pub open spec fn byte_of_bits(bits: Seq<bool>, k: int) -> u8 {
    (bit_val(padded_bit(bits, 8 * k)) * 128 + bit_val(padded_bit(bits, 8 * k + 1)) * 64 + bit_val(
        padded_bit(bits, 8 * k + 2),
    ) * 32 + bit_val(padded_bit(bits, 8 * k + 3)) * 16 + bit_val(padded_bit(bits, 8 * k + 4)) * 8
        + bit_val(padded_bit(bits, 8 * k + 5)) * 4 + bit_val(padded_bit(bits, 8 * k + 6)) * 2
        + bit_val(padded_bit(bits, 8 * k + 7))) as u8
}

/// MSB-first packing of a bit sequence into bytes.
pub open spec fn pack_bits(bits: Seq<bool>) -> Seq<u8> {
    Seq::new(((bits.len() + 7) / 8) as nat, |k: int| byte_of_bits(bits, k))
}

/// Bit `i` (0 = most significant) of a byte.
pub open spec fn nth_bit(x: u8, i: int) -> bool {
    (x >> ((7 - i) as u8)) & 1 == 1
}

/// MSB-first unpacking of bytes into individual bits.
pub open spec fn unpack_bits(bytes: Seq<u8>) -> Seq<bool> {
    Seq::new(bytes.len() * 8, |i: int| nth_bit(bytes[i / 8], i % 8))
}

proof fn lemma_byte_round_trip(v0: u8, v1: u8, v2: u8, v3: u8, v4: u8, v5: u8, v6: u8, v7: u8)
    by (bit_vector)
    requires
        v0 <= 1,
        v1 <= 1,
        v2 <= 1,
        v3 <= 1,
        v4 <= 1,
        v5 <= 1,
        v6 <= 1,
        v7 <= 1,
    ensures
        ({
            let x = (v0 * 128 + v1 * 64 + v2 * 32 + v3 * 16 + v4 * 8 + v5 * 4 + v6 * 2
                + v7) as u8;
            &&& (x >> 7u8) & 1 == v0
            &&& (x >> 6u8) & 1 == v1
            &&& (x >> 5u8) & 1 == v2
            &&& (x >> 4u8) & 1 == v3
            &&& (x >> 3u8) & 1 == v4
            &&& (x >> 2u8) & 1 == v5
            &&& (x >> 1u8) & 1 == v6
            &&& (x >> 0u8) & 1 == v7
        }),
{
}

/// Unpacking inverts packing: the first `bits.len()` recovered bits are the
/// original bits, and the rest of the final byte is zero padding.
pub proof fn lemma_unpack_pack(bits: Seq<bool>)
    ensures
        unpack_bits(pack_bits(bits)).len() == 8 * ((bits.len() + 7) / 8),
        forall|i: int|
            0 <= i < 8 * ((bits.len() + 7) / 8) ==> unpack_bits(pack_bits(bits))[i] == padded_bit(
                bits,
                i,
            ),
        bits.len() <= unpack_bits(pack_bits(bits)).len(),
{
    let packed = pack_bits(bits);
    assert(packed.len() == (bits.len() + 7) / 8);
    assert forall|i: int| 0 <= i < 8 * ((bits.len() + 7) / 8) implies unpack_bits(packed)[i]
        == padded_bit(bits, i) by {
        let k = i / 8;
        let j = i % 8;
        assert(0 <= k < packed.len());
        assert(packed[k] == byte_of_bits(bits, k));
        let v0 = bit_val(padded_bit(bits, 8 * k));
        let v1 = bit_val(padded_bit(bits, 8 * k + 1));
        let v2 = bit_val(padded_bit(bits, 8 * k + 2));
        let v3 = bit_val(padded_bit(bits, 8 * k + 3));
        let v4 = bit_val(padded_bit(bits, 8 * k + 4));
        let v5 = bit_val(padded_bit(bits, 8 * k + 5));
        let v6 = bit_val(padded_bit(bits, 8 * k + 6));
        let v7 = bit_val(padded_bit(bits, 8 * k + 7));
        lemma_byte_round_trip(v0, v1, v2, v3, v4, v5, v6, v7);
        assert(unpack_bits(packed)[i] == nth_bit(packed[k], j));
        if j == 0 {
        } else if j == 1 {
        } else if j == 2 {
        } else if j == 3 {
        } else if j == 4 {
        } else if j == 5 {
        } else if j == 6 {
        } else {
            assert(j == 7);
        }
    }
}

#[verifier::spinoff_prover]
proof fn lemma_pack_prefix_elem(bits: Seq<bool>, p: int, i: int)
    requires
        0 <= p < pack_bits(bits).len(),
        0 <= i < 8 * p,
        8 * p < bits.len(),
    ensures
        unpack_bits(pack_bits(bits).take(p))[i] == bits[i],
{
    let packed = pack_bits(bits);
    let cut = packed.take(p);
    lemma_unpack_pack(bits);
    assert(unpack_bits(cut)[i] == nth_bit(cut[i / 8], i % 8));
    assert(cut[i / 8] == packed[i / 8]);
    assert(unpack_bits(packed)[i] == nth_bit(packed[i / 8], i % 8));
    assert(unpack_bits(packed)[i] == padded_bit(bits, i));
}

/// Cutting the packed bytes at byte `p` cuts the bit stream at bit `8p`,
/// strictly before the end of the original bits.
#[verifier::spinoff_prover]
pub proof fn lemma_pack_prefix(bits: Seq<bool>, p: int)
    requires
        0 <= p < pack_bits(bits).len(),
    ensures
        8 * p < bits.len(),
        unpack_bits(pack_bits(bits).take(p)) == bits.take(8 * p),
{
    let packed = pack_bits(bits);
    assert(packed.len() == (bits.len() + 7) / 8);
    assert(8 * p < bits.len()) by {
        assert(p <= (bits.len() + 7) / 8 - 1);
        assert(8 * ((bits.len() + 7) / 8 - 1) <= bits.len() - 1);
    }
    let cut = packed.take(p);
    assert(unpack_bits(cut).len() == 8 * p);
    assert forall|i: int| 0 <= i < 8 * p implies unpack_bits(cut)[i] == bits.take(8 * p)[i] by {
        lemma_pack_prefix_elem(bits, p, i);
    }
    assert(unpack_bits(cut) =~= bits.take(8 * p));
}

/// Bit `8k + j` of `bits`, or 0 past the end, as a byte value.  The index is
/// taken in two parts so that it never has to be computed where it could
/// exceed `usize`.
fn bit_at(bits: &Vec<bool>, k: usize, j: usize) -> (r: u8)
    requires
        j < 8,
    ensures
        r == bit_val(padded_bit(bits@, 8 * (k as int) + (j as int))),
{
    let n = bits.len();
    if j < n && k <= (n - 1 - j) / 8 {
        assert(8 * (k as int) <= n - 1 - j) by {
            assert(8 * ((n - 1 - j) as int / 8) <= n - 1 - j);
        }
        let idx = 8 * k + j;
        if bits[idx] {
            1
        } else {
            0
        }
    } else {
        proof {
            if j < n {
                assert(k > (n - 1 - j) / 8);
                assert(8 * (k as int) > n - 1 - j) by {
                    assert((n - 1 - j) as int / 8 * 8 + 7 >= n - 1 - j);
                }
            }
            assert(!(0 <= 8 * (k as int) + (j as int) < bits@.len()));
        }
        0
    }
}

/// Packs a bit sequence into bytes, MSB-first, zero-padding the final byte.
pub fn pack(bits: &Vec<bool>) -> (r: Vec<u8>)
    ensures
        r@ == pack_bits(bits@),
{
    let n = bits.len();
    let nbytes = n / 8 + (if n % 8 != 0 {
        1usize
    } else {
        0usize
    });
    assert(nbytes == (bits@.len() + 7) / 8);
    let mut out: Vec<u8> = Vec::new();
    let mut k: usize = 0;
    while k < nbytes
        invariant
            k <= nbytes,
            nbytes == (bits@.len() + 7) / 8,
            out@.len() == k,
            forall|j: int| 0 <= j < k ==> out@[j] == byte_of_bits(bits@, j),
        decreases nbytes - k,
    {
        let x: u16 = (bit_at(bits, k, 0) as u16) * 128 + (bit_at(bits, k, 1) as u16) * 64 + (
        bit_at(bits, k, 2) as u16) * 32 + (bit_at(bits, k, 3) as u16) * 16 + (bit_at(
            bits,
            k,
            4,
        ) as u16) * 8 + (bit_at(bits, k, 5) as u16) * 4 + (bit_at(bits, k, 6) as u16) * 2 + (bit_at(
            bits,
            k,
            7,
        ) as u16);
        assert(x <= 255);
        out.push(x as u8);
        assert(out@[k as int] == byte_of_bits(bits@, k as int));
        k = k + 1;
    }
    assert(out@ =~= pack_bits(bits@));
    out
}

/// Unpacks bytes into individual bits, MSB-first.
pub fn unpack(bytes: &Vec<u8>) -> (r: Vec<bool>)
    ensures
        r@ == unpack_bits(bytes@),
{
    let mut out: Vec<bool> = Vec::new();
    let mut k: usize = 0;
    while k < bytes.len()
        invariant
            k <= bytes@.len(),
            out@.len() == 8 * k,
            forall|i: int| 0 <= i < 8 * k ==> out@[i] == nth_bit(bytes@[i / 8], i % 8),
        decreases bytes@.len() - k,
    {
        let b = bytes[k];
        out.push((b >> 7u8) & 1 == 1);
        out.push((b >> 6u8) & 1 == 1);
        out.push((b >> 5u8) & 1 == 1);
        out.push((b >> 4u8) & 1 == 1);
        out.push((b >> 3u8) & 1 == 1);
        out.push((b >> 2u8) & 1 == 1);
        out.push((b >> 1u8) & 1 == 1);
        out.push((b >> 0u8) & 1 == 1);
        proof {
            assert forall|i: int| 0 <= i < 8 * (k + 1) implies out@[i] == nth_bit(
                bytes@[i / 8],
                i % 8,
            ) by {
                if i >= 8 * k {
                    assert(i / 8 == k);
                }
            }
        }
        k = k + 1;
    }
    assert(out@ =~= unpack_bits(bytes@));
    out
}

} // verus!
