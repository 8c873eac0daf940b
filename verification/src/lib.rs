//! A lossless file codec: an LZ77-style dictionary pass composed with a
//! Huffman entropy coder, packaged in a self-describing binary container,
//! plus a small Feistel block cipher over byte buffers.

use vstd::prelude::*;

pub mod node;
pub mod bits;
pub mod huffman;
pub mod lz77;
pub mod tokens;
pub mod pipeline;
pub mod feistel;

verus! {

/// The ways a decoder rejects malformed input.  Every failure is detected at
/// the point of violation; no decoder reads out of bounds or returns silently
/// truncated output.
#[derive(Clone, Copy, Debug, PartialEq, Eq, Structural)]
pub enum CodecError {
    /// A container header declares a size that disagrees with the actual
    /// buffer length.
    MalformedContainer,
    /// Tree deserialization ran past the end of the buffer or met a tag byte
    /// that is neither 0 nor 1.
    TruncatedTree,
    /// The Huffman bit stream holds fewer decodable bits than the declared
    /// original length requires.
    TruncatedBitstream,
    /// An LZ77 token's distance exceeds the length of the output decoded so
    /// far.
    InvalidBackReference,
}

} // verus!
