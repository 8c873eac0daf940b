use rszip::feistel::{
    derive_keys, feistel_decrypt, feistel_decrypt_block, feistel_encrypt, feistel_encrypt_block,
    round_function,
};
use rszip::huffman::{build_codes, build_huffman_tree, huffman_compress, huffman_decompress};
use rszip::lz77::{lz77_compress, lz77_decompress, Token};
use rszip::node::{deserialize_tree, serialize_tree, Node};
use rszip::pipeline::{compress, decompress};
use rszip::tokens::{deserialize_lz, serialize_lz};
use rszip::CodecError;

fn pipeline_round_trip(data: &[u8]) {
    let v = data.to_vec();
    let c = compress(&v);
    let d = decompress(&c).expect("valid container must decode");
    assert_eq!(d, v);
}

#[test]
fn round_trip_empty() {
    pipeline_round_trip(b"");
}

#[test]
fn round_trip_single_byte() {
    pipeline_round_trip(b"x");
}

#[test]
fn round_trip_single_distinct_symbol() {
    pipeline_round_trip(&[0x41u8; 1000]);
}

#[test]
fn round_trip_long_runs() {
    let mut data = Vec::new();
    for i in 0..50u8 {
        for _ in 0..(i as usize * 7 + 1) {
            data.push(i);
        }
    }
    pipeline_round_trip(&data);
}

#[test]
fn round_trip_mixed() {
    let mut data = Vec::new();
    let mut x: u32 = 7;
    for _ in 0..4096 {
        x = x.wrapping_mul(1103515245).wrapping_add(12345);
        data.push((x >> 16) as u8);
    }
    pipeline_round_trip(&data);
}

#[test]
fn huffman_round_trip() {
    for data in [
        b"".to_vec(),
        b"a".to_vec(),
        b"ab".to_vec(),
        b"the quick brown fox jumps over the lazy dog".to_vec(),
        vec![0u8; 257],
    ] {
        let (payload, tree, orig_len) = huffman_compress(&data);
        let out = huffman_decompress(&payload, tree.as_ref(), orig_len)
            .expect("own output must decode");
        assert_eq!(out, data);
    }
}

#[test]
fn huffman_degenerate_alphabet() {
    let data = vec![0x41u8; 1000];
    let (payload, tree, orig_len) = huffman_compress(&data);
    assert_eq!(payload.len(), 0);
    assert_eq!(tree, Some(Node::Leaf(0x41)));
    assert_eq!(orig_len, 1000);
    let out = huffman_decompress(&payload, tree.as_ref(), orig_len).unwrap();
    assert_eq!(out, data);
}

#[test]
fn huffman_two_symbols_exact() {
    let data = b"ab".to_vec();
    let (payload, tree, orig_len) = huffman_compress(&data);
    assert_eq!(
        tree,
        Some(Node::Internal(
            Box::new(Node::Leaf(b'a')),
            Box::new(Node::Leaf(b'b'))
        ))
    );
    // 'a' gets code 0, 'b' gets code 1: bits 01, packed MSB-first as 0x40.
    assert_eq!(payload, vec![0x40u8]);
    assert_eq!(orig_len, 2);
}

#[test]
fn huffman_truncated_bitstream() {
    let data = b"abacabadabacaba".to_vec();
    let (payload, tree, orig_len) = huffman_compress(&data);
    let short = payload[..payload.len() - 1].to_vec();
    assert_eq!(
        huffman_decompress(&short, tree.as_ref(), orig_len),
        Err(CodecError::TruncatedBitstream)
    );
}

#[test]
fn lz77_round_trip_overlapping_copies() {
    for data in [
        b"aaaaaaaaaa".to_vec(),
        b"abcabcabcabcabc".to_vec(),
        b"".to_vec(),
        b"xy".to_vec(),
    ] {
        let tokens = lz77_compress(&data);
        let out = lz77_decompress(&tokens).expect("own tokens must replay");
        assert_eq!(out, data);
    }
}

#[test]
fn lz77_emits_copy_tokens() {
    let tokens = lz77_compress(&b"aaaaaaaaaa".to_vec());
    // One literal, then a copy at distance 1 over the rest of the run.
    assert_eq!(tokens[0], Token { dist: 0, len: 0, lit: b'a' });
    assert!(tokens.len() < 10);
    assert!(tokens.iter().any(|t| t.dist == 1 && t.len >= 3));
}

#[test]
fn lz77_rejects_bad_back_reference() {
    let tokens = vec![Token { dist: 5, len: 2, lit: 0 }];
    assert_eq!(
        lz77_decompress(&tokens),
        Err(CodecError::InvalidBackReference)
    );
    let tokens = vec![Token { dist: 0, len: 3, lit: 0 }];
    assert_eq!(
        lz77_decompress(&tokens),
        Err(CodecError::InvalidBackReference)
    );
}

#[test]
fn token_codec_round_trip() {
    let tokens = vec![
        Token { dist: 0, len: 0, lit: 7 },
        Token { dist: 2, len: 5, lit: b'B' },
        Token { dist: 1024, len: 70000, lit: 255 },
    ];
    let bytes = serialize_lz(&tokens);
    assert_eq!(deserialize_lz(&bytes), Ok(tokens));
}

#[test]
fn token_codec_exact_bytes() {
    let tokens = vec![Token { dist: 2, len: 5, lit: b'B' }];
    let bytes = serialize_lz(&tokens);
    assert_eq!(
        bytes,
        vec![1, 0, 0, 0, 2, 0, 0, 0, 5, 0, 0, 0, b'B']
    );
}

#[test]
fn token_codec_rejects_malformed() {
    // Count says one token but the record is truncated.
    let bytes = vec![1u8, 0, 0, 0, 2, 0, 0];
    assert_eq!(deserialize_lz(&bytes), Err(CodecError::MalformedContainer));
    assert_eq!(
        deserialize_lz(&vec![1u8, 0]),
        Err(CodecError::MalformedContainer)
    );
}

#[test]
fn tree_serialization_round_trip() {
    let data = b"abracadabra".to_vec();
    let tree = build_huffman_tree(&data).expect("non-empty input builds a tree");
    let mut bytes = Vec::new();
    serialize_tree(&tree, &mut bytes);
    let mut idx = 0usize;
    let back = deserialize_tree(&bytes, &mut idx).expect("own serialization must parse");
    assert_eq!(back, tree);
    assert_eq!(idx, bytes.len());
}

#[test]
fn tree_serialization_exact_bytes() {
    let tree = Node::Internal(Box::new(Node::Leaf(97)), Box::new(Node::Leaf(98)));
    let mut bytes = Vec::new();
    serialize_tree(&tree, &mut bytes);
    assert_eq!(bytes, vec![0, 1, 97, 1, 98]);
}

#[test]
fn tree_deserialization_rejects_garbage() {
    let mut idx = 0usize;
    assert_eq!(
        deserialize_tree(&vec![5u8, 0], &mut idx),
        Err(CodecError::TruncatedTree)
    );
    let mut idx = 0usize;
    assert_eq!(
        deserialize_tree(&vec![1u8], &mut idx),
        Err(CodecError::TruncatedTree)
    );
    let mut idx = 0usize;
    // An internal node whose right subtree is missing.
    assert_eq!(
        deserialize_tree(&vec![0u8, 1, 97], &mut idx),
        Err(CodecError::TruncatedTree)
    );
}

#[test]
fn codes_are_prefix_free() {
    let data = b"this is a sample with a spread of symbol frequencies aaa eee t".to_vec();
    let tree = build_huffman_tree(&data).unwrap();
    let mut table: Vec<Option<Vec<bool>>> = vec![None; 256];
    build_codes(&tree, Vec::new(), &mut table);
    let codes: Vec<&Vec<bool>> = table.iter().flatten().collect();
    assert!(codes.len() > 2);
    for (i, a) in codes.iter().enumerate() {
        for (j, b) in codes.iter().enumerate() {
            if i != j {
                assert!(
                    a.len() > b.len() || a[..] != b[..a.len()],
                    "one code is a prefix of another"
                );
            }
        }
    }
}

#[test]
fn corruption_rejection_every_truncation() {
    let data = b"ABABABABracadabra, a dog and 1000 drummers drumming".to_vec();
    let container = compress(&data);
    for cut in 0..container.len() {
        let broken = container[..cut].to_vec();
        assert!(
            decompress(&broken).is_err(),
            "truncation at {cut} must be rejected"
        );
    }
}

#[test]
fn decompress_rejects_bad_headers() {
    assert_eq!(
        decompress(&vec![1u8, 2, 3]),
        Err(CodecError::MalformedContainer)
    );
    // tree_size larger than the remaining buffer
    let mut c = vec![0u8, 0, 0, 0];
    c.extend_from_slice(&[200u8, 0, 0, 0]);
    c.push(1);
    assert_eq!(decompress(&c), Err(CodecError::MalformedContainer));
    // a tag byte that is neither 0 nor 1
    let mut c = vec![0u8, 0, 0, 0];
    c.extend_from_slice(&[1u8, 0, 0, 0]);
    c.push(7);
    assert_eq!(decompress(&c), Err(CodecError::TruncatedTree));
}

#[test]
fn decompress_rejects_bad_back_reference_in_tokens() {
    // A syntactically valid container whose token stream asks for more
    // history than exists.
    let bad_tokens = vec![Token { dist: 9, len: 3, lit: 0 }];
    let token_buf = serialize_lz(&bad_tokens);
    let (payload, tree, orig_len) = huffman_compress(&token_buf);
    let tree = tree.unwrap();
    let mut tree_bytes = Vec::new();
    serialize_tree(&tree, &mut tree_bytes);
    let mut container = Vec::new();
    container.extend_from_slice(&(orig_len as u32).to_le_bytes());
    container.extend_from_slice(&(tree_bytes.len() as u32).to_le_bytes());
    container.extend_from_slice(&tree_bytes);
    container.extend_from_slice(&payload);
    assert_eq!(
        decompress(&container),
        Err(CodecError::InvalidBackReference)
    );
}

#[test]
fn determinism() {
    let data = b"the same input twice yields byte-identical output".to_vec();
    let c1 = compress(&data);
    let c2 = compress(&data);
    assert_eq!(c1, c2);
}

#[test]
fn scenario_abababab() {
    let data = b"ABABABAB".to_vec();
    let tokens = lz77_compress(&data);
    // Leading literals, then a copy token referencing distance 2.
    assert_eq!(tokens[0], Token { dist: 0, len: 0, lit: b'A' });
    assert_eq!(tokens[1], Token { dist: 0, len: 0, lit: b'B' });
    assert_eq!(tokens[2], Token { dist: 2, len: 5, lit: b'B' });
    assert_eq!(tokens.len(), 3);
    let container = compress(&data);
    assert_eq!(decompress(&container), Ok(data));
}

#[test]
fn round_function_exact() {
    assert_eq!(round_function(0, 0), 0);
    // x = 3: rotate-left-5 gives 96, x >> 3 gives 0.
    assert_eq!(round_function(1, 2), 96);
}

#[test]
fn derive_keys_exact() {
    let keys = derive_keys(&vec![1u8, 2, 3, 4, 5]);
    assert_eq!(keys, vec![0x04030201, 5]);
}

#[test]
fn feistel_block_round_trip() {
    let keys = derive_keys(&b"some key material".to_vec());
    let (el, er) = feistel_encrypt_block(0xDEADBEEF, 0x12345678, &keys);
    assert_ne!((el, er), (0xDEADBEEF, 0x12345678));
    let (dl, dr) = feistel_decrypt_block(el, er, &keys);
    assert_eq!((dl, dr), (0xDEADBEEF, 0x12345678));
}

#[test]
fn feistel_buffer_round_trip() {
    let key = b"hunter".to_vec();
    // Whole blocks round-trip exactly.
    let data = b"exactly sixteen!".to_vec();
    let enc = feistel_encrypt(&data, &key);
    assert_eq!(enc.len(), 16);
    assert_ne!(enc, data);
    assert_eq!(feistel_decrypt(&enc, &key), data);
    // A partial final block comes back zero-padded to 8 bytes.
    let data = b"short".to_vec();
    let enc = feistel_encrypt(&data, &key);
    assert_eq!(enc.len(), 8);
    let dec = feistel_decrypt(&enc, &key);
    assert_eq!(&dec[..5], b"short");
    assert_eq!(&dec[5..], &[0u8, 0, 0]);
}
