//! The pipeline and container: raw bytes pass through the match finder, the
//! token codec and the entropy coder into one self-contained compressed
//! record, and back.
//!
//! Container layout, all integers little-endian: a 4-byte length of the
//! intermediate token buffer (the entropy coder's input, not the raw file
//! length), a 4-byte length of the serialized tree, the tree bytes, then the
//! Huffman payload to the end of the buffer.

use vstd::prelude::*;
use vstd::slice::{slice_subrange, slice_to_vec};
use vstd::bytes::{
    spec_u32_to_le_bytes,
    spec_u32_from_le_bytes,
    lemma_auto_spec_u32_to_from_le_bytes,
};
use crate::node::{
    Node,
    tree_bytes,
    tree_prefix_of,
    spec_code,
    serialize_tree,
    deserialize_tree,
    lemma_tree_bytes_size,
    lemma_tree_bytes_unambiguous,
};
use crate::huffman::{
    spec_build_tree,
    spec_huffman_tree,
    spec_huffman_payload,
    huff_payload,
    huff_decode,
    huffman_compress,
    huffman_decompress,
    concat_codes,
    lemma_build_tree_symbols,
    lemma_huffman_round_trip,
    lemma_count_pos,
    lemma_decode_short,
};
use crate::bits::{pack_bits, lemma_pack_prefix};
use crate::lz77::{
    spec_tokens,
    lz_decode,
    lz77_compress,
    lz77_decompress,
    lemma_spec_tokens_len,
    lemma_lz77_round_trip,
};
use crate::tokens::{
    tokens_bytes,
    parse_tokens,
    serialize_lz,
    deserialize_lz,
    write_le32,
    read_le32,
    lemma_body_bytes_len,
    lemma_tokens_round_trip,
};
use crate::CodecError;

verus! {

/// The container bytes for `data`: a pure function of the input, so
/// compression is deterministic byte for byte.
pub open spec fn spec_compress(data: Seq<u8>) -> Seq<u8> {
    let tb = tokens_bytes(spec_tokens(data, 0));
    let tree = spec_build_tree(tb);
    let treeb = tree_bytes(tree);
    spec_u32_to_le_bytes(tb.len() as u32) + spec_u32_to_le_bytes(treeb.len() as u32) + treeb
        + huff_payload(tree, tb)
}

/// The result of decoding a container: each failure is the error of the
/// stage that detects it.
pub open spec fn spec_decompress(data: Seq<u8>) -> Result<Seq<u8>, CodecError> {
    if data.len() < 8 {
        Err(CodecError::MalformedContainer)
    } else {
        let orig_len = spec_u32_from_le_bytes(data.subrange(0, 4)) as int;
        let tree_size = spec_u32_from_le_bytes(data.subrange(4, 8)) as int;
        if data.len() < 8 + tree_size {
            Err(CodecError::MalformedContainer)
        } else {
            let region = data.subrange(8, 8 + tree_size);
            if !(exists|t: Node| tree_prefix_of(t, region)) {
                Err(CodecError::TruncatedTree)
            } else {
                let tree = choose|t: Node| tree_prefix_of(t, region);
                let payload = data.subrange(8 + tree_size, data.len() as int);
                match huff_decode(Some(tree), payload, orig_len as nat) {
                    None => Err(CodecError::TruncatedBitstream),
                    Some(tb) => match parse_tokens(tb) {
                        None => Err(CodecError::MalformedContainer),
                        Some(ts) => match lz_decode(ts, Seq::empty()) {
                            None => Err(CodecError::InvalidBackReference),
                            Some(out) => Ok(out),
                        },
                    },
                }
            }
        }
    }
}

/// Compresses `data` into a container: LZ77 tokens, serialized flat, then
/// Huffman-compressed, with the token-buffer length and the serialized tree
/// in the header.  The bound on the input keeps the token buffer's length
/// within its 4-byte field.  The output is a function of `data` alone:
/// compressing the same input twice yields byte-identical containers.
pub fn compress(data: &Vec<u8>) -> (r: Vec<u8>)
    requires
        9 * data@.len() + 4 <= 0xFFFF_FFFF,
    ensures
        r@ == spec_compress(data@),
{
    let tokens = lz77_compress(data);
    proof {
        lemma_spec_tokens_len(data@, 0);
        lemma_body_bytes_len(tokens@);
    }
    let lz_serial = serialize_lz(&tokens);
    proof {
        lemma_auto_spec_u32_to_from_le_bytes();
        assert(lz_serial@.len() == 4 + 9 * tokens@.len());
        assert(tokens@.len() <= data@.len());
        assert(lz_serial@.len() <= 0xFFFF_FFFF);
    }
    let (mut huff, tree_opt, orig_len) = huffman_compress(&lz_serial);
    proof {
        lemma_auto_spec_u32_to_from_le_bytes();
        assert(lz_serial@.len() >= 4);
    }
    let tree = match tree_opt {
        Some(t) => t,
        None => {
            proof {
                assert(false);
            }
            Node::Leaf(0)
        }
    };
    proof {
        lemma_build_tree_symbols(lz_serial@);
        lemma_tree_bytes_size(spec_build_tree(lz_serial@));
    }
    let mut treev: Vec<u8> = Vec::new();
    serialize_tree(&tree, &mut treev);
    let mut out: Vec<u8> = Vec::new();
    write_le32(&mut out, orig_len as u32);
    write_le32(&mut out, treev.len() as u32);
    out.append(&mut treev);
    out.append(&mut huff);
    proof {
        assert(out@ =~= spec_compress(data@));
    }
    out
}

/// Decompresses a container: parses the header, rebuilds the tree,
/// Huffman-decompresses the payload into the token buffer, parses the
/// tokens and replays them.  Fails with the error of whichever stage finds
/// the container malformed, and never reads out of bounds.
pub fn decompress(data: &Vec<u8>) -> (r: Result<Vec<u8>, CodecError>)
    ensures
        match r {
            Ok(v) => spec_decompress(data@) == Ok::<Seq<u8>, CodecError>(v@),
            Err(e) => spec_decompress(data@) == Err::<Seq<u8>, CodecError>(e),
        },
{
    let n = data.len();
    if n < 8 {
        return Err(CodecError::MalformedContainer);
    }
    let orig_len32 = read_le32(data, 0);
    let tree_size32 = read_le32(data, 4);
    let orig_len = orig_len32 as usize;
    let tree_size = tree_size32 as usize;
    if n - 8 < tree_size {
        proof {
            assert(data@.len() < 8 + (tree_size32 as int));
        }
        return Err(CodecError::MalformedContainer);
    }
    let region: Vec<u8> = slice_to_vec(slice_subrange(data.as_slice(), 8, 8 + tree_size));
    let ghost gregion = data@.subrange(8, 8 + tree_size as int);
    proof {
        assert(region@ == gregion);
    }
    let mut idx: usize = 0;
    let tree = match deserialize_tree(&region, &mut idx) {
        Err(_) => {
            proof {
                assert(region@.skip(0) =~= gregion);
                assert(!(exists|t: Node| tree_prefix_of(t, gregion)));
            }
            return Err(CodecError::TruncatedTree);
        }
        Ok(t) => t,
    };
    proof {
        assert(tree_prefix_of(tree, gregion)) by {
            assert(gregion.subrange(0, tree_bytes(tree).len() as int) =~= region@.subrange(
                0,
                tree_bytes(tree).len() as int,
            ));
        }
        let tc = choose|t: Node| tree_prefix_of(t, gregion);
        assert(tree_prefix_of(tc, gregion));
        assert(tree_bytes(tree) + gregion.skip(tree_bytes(tree).len() as int) =~= gregion);
        assert(tree_bytes(tc) + gregion.skip(tree_bytes(tc).len() as int) =~= gregion);
        lemma_tree_bytes_unambiguous(
            tree,
            tc,
            gregion.skip(tree_bytes(tree).len() as int),
            gregion.skip(tree_bytes(tc).len() as int),
        );
        assert(tc == tree);
    }
    let payload: Vec<u8> = slice_to_vec(slice_subrange(data.as_slice(), 8 + tree_size, n));
    let lz_serial = match huffman_decompress(&payload, Some(&tree), orig_len) {
        Err(e) => {
            return Err(e);
        }
        Ok(v) => v,
    };
    let tokens = match deserialize_lz(&lz_serial) {
        Err(e) => {
            return Err(e);
        }
        Ok(v) => v,
    };
    match lz77_decompress(&tokens) {
        Err(e) => Err(e),
        Ok(v) => Ok(v),
    }
}

/// Full-pipeline round trip: decompressing the compressed container yields
/// the original buffer, for every input the container format admits.
pub proof fn lemma_compress_decompress(data: Seq<u8>)
    requires
        9 * data.len() + 4 <= 0xFFFF_FFFF,
    ensures
        spec_decompress(spec_compress(data)) == Ok::<Seq<u8>, CodecError>(data),
{
    lemma_auto_spec_u32_to_from_le_bytes();
    let ts = spec_tokens(data, 0);
    lemma_spec_tokens_len(data, 0);
    let tb = tokens_bytes(ts);
    lemma_body_bytes_len(ts);
    assert(4 <= tb.len() <= 0xFFFF_FFFF);
    let tree = spec_build_tree(tb);
    lemma_build_tree_symbols(tb);
    lemma_tree_bytes_size(tree);
    let treeb = tree_bytes(tree);
    let payload = huff_payload(tree, tb);
    let c = spec_compress(data);
    assert(c.len() == 8 + treeb.len() + payload.len());
    assert(c.subrange(0, 4) =~= spec_u32_to_le_bytes(tb.len() as u32));
    assert(c.subrange(4, 8) =~= spec_u32_to_le_bytes(treeb.len() as u32));
    let tree_size = treeb.len() as int;
    assert(c.subrange(8, 8 + tree_size) =~= treeb);
    let region = c.subrange(8, 8 + tree_size);
    assert(tree_prefix_of(tree, region)) by {
        assert(region.subrange(0, tree_size) =~= region);
    }
    let tc = choose|t: Node| tree_prefix_of(t, region);
    assert(tree_prefix_of(tc, region));
    assert(tree_bytes(tree) + region.skip(tree_size) =~= region);
    assert(tree_bytes(tc) + region.skip(tree_bytes(tc).len() as int) =~= region);
    lemma_tree_bytes_unambiguous(
        tree,
        tc,
        region.skip(tree_size),
        region.skip(tree_bytes(tc).len() as int),
    );
    assert(tc == tree);
    assert(c.subrange(8 + tree_size, c.len() as int) =~= payload);
    lemma_huffman_round_trip(tb);
    assert(spec_huffman_tree(tb) == Some(tree));
    assert(spec_huffman_payload(tb) == payload);
    assert(huff_decode(Some(tree), payload, tb.len() as nat) == Some(tb));
    lemma_tokens_round_trip(ts);
    lemma_lz77_round_trip(data);
}

/// Corruption rejection: a valid container truncated at any byte boundary
/// before its end fails to decode with an explicit error — never silently
/// wrong output.
/// A strict prefix of the packed payload no longer decodes: the bit stream
/// runs short of the declared symbol count.
#[verifier::rlimit(100)]
#[verifier::spinoff_prover]
proof fn lemma_payload_prefix_fails(tree: Node, tb: Seq<u8>, pl: int)
    requires
        tree is Internal,
        forall|i: int| 0 <= i < tb.len() ==> spec_code(tree, #[trigger] tb[i]) is Some,
        0 <= pl < pack_bits(concat_codes(tree, tb)).len(),
    ensures
        huff_decode(
            Some(tree),
            pack_bits(concat_codes(tree, tb)).take(pl),
            tb.len() as nat,
        ) is None,
{
    let cbits = concat_codes(tree, tb);
    let payload = pack_bits(cbits);
    lemma_pack_prefix(cbits, pl);
    lemma_decode_short(tree, tb, 8 * pl);
}

#[verifier::rlimit(60)]
#[verifier::spinoff_prover]
pub proof fn lemma_truncation_rejected(data: Seq<u8>, cut: int)
    requires
        9 * data.len() + 4 <= 0xFFFF_FFFF,
        0 <= cut < spec_compress(data).len(),
    ensures
        spec_decompress(spec_compress(data).take(cut)) is Err,
{
    lemma_auto_spec_u32_to_from_le_bytes();
    let ts = spec_tokens(data, 0);
    lemma_spec_tokens_len(data, 0);
    lemma_body_bytes_len(ts);
    let tb = tokens_bytes(ts);
    assert(4 <= tb.len() <= 0xFFFF_FFFF);
    let tree = spec_build_tree(tb);
    lemma_build_tree_symbols(tb);
    lemma_tree_bytes_size(tree);
    let treeb = tree_bytes(tree);
    let payload = huff_payload(tree, tb);
    let c = spec_compress(data);
    assert(c.len() == 8 + treeb.len() + payload.len());
    let cc = c.take(cut);
    if cut < 8 {
    } else {
        assert(cc.subrange(0, 4) =~= c.subrange(0, 4));
        assert(cc.subrange(4, 8) =~= c.subrange(4, 8));
        assert(c.subrange(0, 4) =~= spec_u32_to_le_bytes(tb.len() as u32));
        assert(c.subrange(4, 8) =~= spec_u32_to_le_bytes(treeb.len() as u32));
        let tree_size = treeb.len() as int;
        if cut < 8 + tree_size {
        } else {
            assert(cc.subrange(8, 8 + tree_size) =~= treeb) by {
                assert(c.subrange(8, 8 + tree_size) =~= treeb);
            }
            let region = cc.subrange(8, 8 + tree_size);
            assert(tree_prefix_of(tree, region)) by {
                assert(region.subrange(0, tree_size) =~= region);
            }
            let tc = choose|t: Node| tree_prefix_of(t, region);
            assert(tree_prefix_of(tc, region));
            assert(tree_bytes(tree) + region.skip(tree_size) =~= region);
            assert(tree_bytes(tc) + region.skip(tree_bytes(tc).len() as int) =~= region);
            lemma_tree_bytes_unambiguous(
                tree,
                tc,
                region.skip(tree_size),
                region.skip(tree_bytes(tc).len() as int),
            );
            assert(tc == tree);
            match tree {
                Node::Leaf(_) => {
                    assert(payload.len() == 0);
                    assert(cut < c.len());
                }
                Node::Internal(_, _) => {
                    assert(payload == pack_bits(concat_codes(tree, tb)));
                    let pl = cut - 8 - tree_size;
                    assert(0 <= pl < payload.len());
                    let payload2 = cc.subrange(8 + tree_size, cut as int);
                    assert(payload2 =~= payload.take(pl));
                    assert forall|i: int|
                        0 <= i < tb.len() implies spec_code(tree, #[trigger] tb[i]) is Some by {
                        lemma_count_pos(tb, i);
                    }
                    lemma_payload_prefix_fails(tree, tb, pl);
                    assert(huff_decode(Some(tree), payload2, tb.len() as nat) is None);
                }
            }
        }
    }
}

} // verus!
