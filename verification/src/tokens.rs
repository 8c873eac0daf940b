//! Fixed-width binary serialization of the LZ77 token stream: a 4-byte
//! little-endian token count, then 4-byte distance, 4-byte length and 1-byte
//! literal per token.

use vstd::prelude::*;
use vstd::assert_seqs_equal;
use vstd::bytes::{
    spec_u32_to_le_bytes,
    spec_u32_from_le_bytes,
    lemma_auto_spec_u32_to_from_le_bytes,
    u32_to_le_bytes,
    u32_from_le_bytes,
};
use vstd::slice::slice_subrange;
use crate::lz77::Token;
use crate::CodecError;

verus! {

/// The 9 serialized bytes of one token.
pub open spec fn token_bytes(t: Token) -> Seq<u8> {
    spec_u32_to_le_bytes(t.dist) + spec_u32_to_le_bytes(t.len) + seq![t.lit]
}

/// The serialized bodies of all tokens, in order.
pub open spec fn body_bytes(ts: Seq<Token>) -> Seq<u8>
    decreases ts.len(),
{
    if ts.len() == 0 {
        Seq::empty()
    } else {
        body_bytes(ts.drop_last()) + token_bytes(ts.last())
    }
}

/// The whole token buffer: count, then the bodies.
pub open spec fn tokens_bytes(ts: Seq<Token>) -> Seq<u8> {
    spec_u32_to_le_bytes(ts.len() as u32) + body_bytes(ts)
}

/// Parses a token buffer.  `None` unless the buffer is exactly a count and
/// that many 9-byte records.
pub open spec fn parse_tokens(data: Seq<u8>) -> Option<Seq<Token>> {
    if data.len() < 4 {
        None
    } else {
        let count = spec_u32_from_le_bytes(data.subrange(0, 4)) as int;
        if data.len() != 4 + 9 * count {
            None
        } else {
            Some(
                Seq::new(
                    count as nat,
                    |k: int|
                        Token {
                            dist: spec_u32_from_le_bytes(data.subrange(4 + 9 * k, 8 + 9 * k)),
                            len: spec_u32_from_le_bytes(data.subrange(8 + 9 * k, 12 + 9 * k)),
                            lit: data[12 + 9 * k],
                        },
                ),
            )
        }
    }
}

/// Appends the 4 little-endian bytes of `x`.
pub(crate) fn write_le32(out: &mut Vec<u8>, x: u32)
    ensures
        final(out)@ == old(out)@ + spec_u32_to_le_bytes(x),
{
    let b = u32_to_le_bytes(x);
    out.push(b[0]);
    out.push(b[1]);
    out.push(b[2]);
    out.push(b[3]);
    proof {
        assert(out@ =~= old(out)@ + spec_u32_to_le_bytes(x));
    }
}

/// Reads 4 little-endian bytes at `off`.
pub(crate) fn read_le32(data: &Vec<u8>, off: usize) -> (r: u32)
    requires
        off + 4 <= data@.len(),
    ensures
        r == spec_u32_from_le_bytes(data@.subrange(off as int, off + 4)),
{
    let n = data.len();
    assert(off + 4 <= n);
    u32_from_le_bytes(slice_subrange(data.as_slice(), off, off + 4))
}

/// Serializes the token stream: 4-byte count, then per token 4-byte
/// distance, 4-byte length, 1-byte literal, all little-endian.
pub fn serialize_lz(tokens: &Vec<Token>) -> (r: Vec<u8>)
    requires
        tokens@.len() <= 0xFFFF_FFFF,
    ensures
        r@ == tokens_bytes(tokens@),
{
    let mut out: Vec<u8> = Vec::new();
    write_le32(&mut out, tokens.len() as u32);
    let mut i: usize = 0;
    while i < tokens.len()
        invariant
            i <= tokens@.len() <= 0xFFFF_FFFF,
            out@ == spec_u32_to_le_bytes(tokens@.len() as u32) + body_bytes(tokens@.take(i as int)),
        decreases tokens@.len() - i,
    {
        let t = tokens[i];
        let ghost pre = out@;
        write_le32(&mut out, t.dist);
        write_le32(&mut out, t.len);
        out.push(t.lit);
        proof {
            assert(tokens@.take(i + 1).drop_last() =~= tokens@.take(i as int));
            assert(tokens@.take(i + 1).last() == tokens@[i as int]);
            assert(out@ =~= pre + token_bytes(tokens@[i as int]));
            assert(out@ =~= spec_u32_to_le_bytes(tokens@.len() as u32) + body_bytes(
                tokens@.take(i + 1),
            ));
        }
        i = i + 1;
    }
    proof {
        assert(tokens@.take(tokens@.len() as int) =~= tokens@);
        assert(out@ =~= tokens_bytes(tokens@));
    }
    out
}

/// Parses a token buffer; fails with `MalformedContainer` exactly when the
/// buffer is not a count followed by exactly that many records.
pub fn deserialize_lz(data: &Vec<u8>) -> (r: Result<Vec<Token>, CodecError>)
    ensures
        match r {
            Ok(v) => parse_tokens(data@) == Some(v@),
            Err(e) => {
                &&& e == CodecError::MalformedContainer
                &&& parse_tokens(data@) is None
            },
        },
{
    let n = data.len();
    if n < 4 {
        return Err(CodecError::MalformedContainer);
    }
    let count32 = read_le32(data, 0);
    let count = count32 as usize;
    if (n - 4) % 9 != 0 || (n - 4) / 9 != count {
        proof {
            assert(data@.len() != 4 + 9 * (count32 as int));
        }
        return Err(CodecError::MalformedContainer);
    }
    proof {
        assert(data@.len() == 4 + 9 * (count32 as int));
    }
    let ghost parsed = parse_tokens(data@)->Some_0;
    let mut out: Vec<Token> = Vec::new();
    let mut k: usize = 0;
    while k < count
        invariant
            k <= count,
            count == spec_u32_from_le_bytes(data@.subrange(0, 4)),
            n == data@.len(),
            data@.len() == 4 + 9 * count,
            parsed == parse_tokens(data@)->Some_0,
            parse_tokens(data@) is Some,
            parsed.len() == count,
            out@.len() == k,
            forall|j: int| 0 <= j < k ==> out@[j] == parsed[j],
        decreases count - k,
    {
        let off = 4 + 9 * k;
        let d = read_le32(data, off);
        let l = read_le32(data, off + 4);
        let lit = data[off + 8];
        out.push(Token { dist: d, len: l, lit });
        proof {
            assert(out@[k as int] == parsed[k as int]);
        }
        k = k + 1;
    }
    proof {
        assert(out@ =~= parsed);
    }
    Ok(out)
}

pub proof fn lemma_body_bytes_len(ts: Seq<Token>)
    ensures
        body_bytes(ts).len() == 9 * ts.len(),
    decreases ts.len(),
{
    lemma_auto_spec_u32_to_from_le_bytes();
    if ts.len() > 0 {
        lemma_body_bytes_len(ts.drop_last());
    }
}

proof fn lemma_body_bytes_index(ts: Seq<Token>, k: int)
    requires
        0 <= k < ts.len(),
    ensures
        body_bytes(ts).subrange(9 * k, 9 * k + 9) == token_bytes(ts[k]),
    decreases ts.len(),
{
    lemma_auto_spec_u32_to_from_le_bytes();
    lemma_body_bytes_len(ts);
    lemma_body_bytes_len(ts.drop_last());
    if k == ts.len() - 1 {
        assert_seqs_equal!(
            body_bytes(ts).subrange(9 * k, 9 * k + 9) == token_bytes(ts[k]),
            m => {
                assert(body_bytes(ts)[9 * k + m] == token_bytes(ts.last())[m]);
            }
        );
    } else {
        lemma_body_bytes_index(ts.drop_last(), k);
        assert_seqs_equal!(
            body_bytes(ts).subrange(9 * k, 9 * k + 9) == token_bytes(ts[k]),
            m => {
                assert(body_bytes(ts)[9 * k + m] == body_bytes(ts.drop_last())[9 * k + m]);
                assert(body_bytes(ts.drop_last()).subrange(9 * k, 9 * k + 9)[m] == body_bytes(
                    ts.drop_last(),
                )[9 * k + m]);
                assert(ts.drop_last()[k] == ts[k]);
            }
        );
    }
}

/// Token serialization round trip: parsing the serialized stream yields the
/// original tokens.
pub proof fn lemma_tokens_round_trip(ts: Seq<Token>)
    requires
        ts.len() <= 0xFFFF_FFFF,
    ensures
        parse_tokens(tokens_bytes(ts)) == Some(ts),
{
    lemma_auto_spec_u32_to_from_le_bytes();
    lemma_body_bytes_len(ts);
    let data = tokens_bytes(ts);
    assert(data.subrange(0, 4) =~= spec_u32_to_le_bytes(ts.len() as u32));
    assert(spec_u32_from_le_bytes(data.subrange(0, 4)) == ts.len());
    assert(data.len() == 4 + 9 * ts.len());
    let parsed = parse_tokens(data)->Some_0;
    assert forall|k: int| 0 <= k < ts.len() implies parsed[k] == ts[k] by {
        lemma_body_bytes_index(ts, k);
        let tb = token_bytes(ts[k]);
        assert_seqs_equal!(data.subrange(4 + 9 * k, 8 + 9 * k) == spec_u32_to_le_bytes(ts[k].dist), m => {
            assert(data[4 + 9 * k + m] == body_bytes(ts)[9 * k + m]);
            assert(body_bytes(ts).subrange(9 * k, 9 * k + 9)[m] == body_bytes(ts)[9 * k + m]);
            assert(tb[m] == spec_u32_to_le_bytes(ts[k].dist)[m]);
        });
        assert_seqs_equal!(data.subrange(8 + 9 * k, 12 + 9 * k) == spec_u32_to_le_bytes(ts[k].len), m => {
            assert(data[8 + 9 * k + m] == body_bytes(ts)[9 * k + 4 + m]);
            assert(body_bytes(ts).subrange(9 * k, 9 * k + 9)[4 + m] == body_bytes(ts)[9 * k + 4
                + m]);
            assert(tb[4 + m] == spec_u32_to_le_bytes(ts[k].len)[m]);
        });
        assert(data[12 + 9 * k] == body_bytes(ts)[9 * k + 8]);
        assert(body_bytes(ts).subrange(9 * k, 9 * k + 9)[8] == body_bytes(ts)[9 * k + 8]);
        assert(tb[8] == ts[k].lit);
    }
    assert(parsed =~= ts);
}

} // verus!
