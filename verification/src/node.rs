//! The Huffman tree: a binary tree whose leaves carry the byte values of the
//! alphabet, together with its self-delimiting pre-order serialization.

use vstd::prelude::*;
use crate::CodecError;

verus! {

/// A Huffman tree node: either a leaf holding one original byte value, or an
/// internal node with exactly two children.  Frequencies are auxiliary
/// weights of tree construction only and are not stored here.
#[derive(Debug, PartialEq, Eq)]
pub enum Node {
    Leaf(u8),
    Internal(Box<Node>, Box<Node>),
}

/// Number of leaves of a tree.
pub open spec fn leaf_count(t: Node) -> nat
    decreases t,
{
    match t {
        Node::Leaf(_) => 1,
        Node::Internal(l, r) => leaf_count(*l) + leaf_count(*r),
    }
}

/// The pre-order serialization of a tree: `1, <byte>` for a leaf,
/// `0, <left>, <right>` for an internal node.  It is self-delimiting: no
/// explicit length is stored.
pub open spec fn tree_bytes(t: Node) -> Seq<u8>
    decreases t,
{
    match t {
        Node::Leaf(b) => seq![1u8, b],
        Node::Internal(l, r) => seq![0u8] + tree_bytes(*l) + tree_bytes(*r),
    }
}

/// The code of byte `b` in tree `t`: the root-to-leaf path, a left edge
/// appending bit 0 and a right edge bit 1.  `None` when no leaf holds `b`.
/// Should a tree hold `b` in both subtrees the right occurrence wins,
/// matching the table builder's walk order; trees from the frequency builder
/// never do.
pub open spec fn spec_code(t: Node, b: u8) -> Option<Seq<bool>>
    decreases t,
{
    match t {
        Node::Leaf(s) => if s == b {
            Some(Seq::<bool>::empty())
        } else {
            None
        },
        Node::Internal(l, r) => match spec_code(*r, b) {
            Some(c) => Some(seq![true] + c),
            None => match spec_code(*l, b) {
                Some(c) => Some(seq![false] + c),
                None => None,
            },
        },
    }
}

/// `p` is a prefix of `s`, over bit sequences.
pub open spec fn is_bit_prefix(p: Seq<bool>, s: Seq<bool>) -> bool {
    p.len() <= s.len() && p == s.subrange(0, p.len() as int)
}

/// Prefix-free code property: the code of one byte is never a prefix of the
/// code of another, so the bit stream can be decoded without delimiters.
pub proof fn lemma_prefix_free(t: Node, b1: u8, b2: u8)
    requires
        b1 != b2,
        spec_code(t, b1) is Some,
        spec_code(t, b2) is Some,
    ensures
        !is_bit_prefix(spec_code(t, b1)->Some_0, spec_code(t, b2)->Some_0),
    decreases t,
{
    match t {
        Node::Leaf(_) => {}
        Node::Internal(l, r) => {
            let c1 = spec_code(t, b1)->Some_0;
            let c2 = spec_code(t, b2)->Some_0;
            if is_bit_prefix(c1, c2) {
                assert(c1[0] == c2[0]);
                let d1 = c1.subrange(1, c1.len() as int);
                let d2 = c2.subrange(1, c2.len() as int);
                assert(is_bit_prefix(d1, d2)) by {
                    assert(forall|i: int| 0 <= i < c1.len() ==> c1[i] == c2[i]);
                    assert(d1 =~= d2.subrange(0, d1.len() as int));
                }
                if c1[0] {
                    assert(spec_code(*r, b1) is Some && spec_code(*r, b2) is Some);
                    assert(d1 =~= spec_code(*r, b1)->Some_0);
                    assert(d2 =~= spec_code(*r, b2)->Some_0);
                    lemma_prefix_free(*r, b1, b2);
                } else {
                    assert(spec_code(*l, b1) is Some && spec_code(*l, b2) is Some);
                    assert(d1 =~= spec_code(*l, b1)->Some_0);
                    assert(d2 =~= spec_code(*l, b2)->Some_0);
                    lemma_prefix_free(*l, b1, b2);
                }
            }
        }
    }
}

/// `p` is a prefix of `s`.
pub open spec fn is_prefix(p: Seq<u8>, s: Seq<u8>) -> bool {
    p.len() <= s.len() && p == s.subrange(0, p.len() as int)
}

/// Some tree's serialization is a prefix of `s`.
pub open spec fn tree_prefix_of(t: Node, s: Seq<u8>) -> bool {
    is_prefix(tree_bytes(t), s)
}

/// A serialized tree occupies at least two bytes.
pub proof fn lemma_tree_bytes_len(t: Node)
    ensures
        tree_bytes(t).len() >= 2,
    decreases t,
{
    match t {
        Node::Leaf(_) => {}
        Node::Internal(l, r) => {
            lemma_tree_bytes_len(*l);
            lemma_tree_bytes_len(*r);
        }
    }
}

/// A serialized tree's size: two bytes per leaf and one per internal node,
/// and a tree of `n` leaves has `n - 1` internal nodes.
pub proof fn lemma_tree_bytes_size(t: Node)
    ensures
        tree_bytes(t).len() == 3 * leaf_count(t) - 1,
    decreases t,
{
    match t {
        Node::Leaf(_) => {}
        Node::Internal(l, r) => {
            lemma_tree_bytes_size(*l);
            lemma_tree_bytes_size(*r);
        }
    }
}

/// The serialization is unambiguous: if two serialized trees agree on a
/// common byte stream, the trees and the trailing bytes agree too.  In
/// particular the encoding is injective and prefix-free, so a decoder that
/// consumes exactly one tree from a buffer has only one possible answer.
pub proof fn lemma_tree_bytes_unambiguous(t1: Node, t2: Node, rest1: Seq<u8>, rest2: Seq<u8>)
    requires
        tree_bytes(t1) + rest1 == tree_bytes(t2) + rest2,
    ensures
        t1 == t2,
        rest1 == rest2,
    decreases t1,
{
    let s = tree_bytes(t1) + rest1;
    match t1 {
        Node::Leaf(b1) => {
            match t2 {
                Node::Leaf(b2) => {
                    assert(b1 == b2) by {
                        assert(s[1] == b1);
                        assert((tree_bytes(t2) + rest2)[1] == b2);
                    }
                    assert(tree_bytes(t1).len() == 2);
                    assert(tree_bytes(t2).len() == 2);
                    assert(s.len() == tree_bytes(t1).len() + rest1.len());
                    assert(s.len() == tree_bytes(t2).len() + rest2.len());
                    assert(rest1.len() == rest2.len());
                    assert forall|i: int| 0 <= i < rest1.len() implies rest1[i] == rest2[i] by {
                        assert(rest1[i] == s[i + 2]);
                        assert(rest2[i] == (tree_bytes(t2) + rest2)[i + 2]);
                    }
                    assert(rest1 =~= rest2);
                }
                Node::Internal(_, _) => {
                    assert(s[0] == 1u8);
                    assert((tree_bytes(t2) + rest2)[0] == 0u8);
                }
            }
        }
        Node::Internal(l1, r1) => {
            match t2 {
                Node::Leaf(_) => {
                    assert(s[0] == 0u8);
                    assert((tree_bytes(t2) + rest2)[0] == 1u8);
                }
                Node::Internal(l2, r2) => {
                    let tail1 = tree_bytes(*r1) + rest1;
                    let tail2 = tree_bytes(*r2) + rest2;
                    assert(tree_bytes(*l1) + tail1 =~= tree_bytes(*l2) + tail2) by {
                        assert(tree_bytes(t1) + rest1 =~= seq![0u8] + (tree_bytes(*l1) + tail1));
                        assert(tree_bytes(t2) + rest2 =~= seq![0u8] + (tree_bytes(*l2) + tail2));
                        assert(forall|i: int|
                            0 <= i < (tree_bytes(*l1) + tail1).len() ==> (tree_bytes(*l1)
                                + tail1)[i] == (seq![0u8] + (tree_bytes(*l1) + tail1))[i + 1]);
                        assert(forall|i: int|
                            0 <= i < (tree_bytes(*l2) + tail2).len() ==> (tree_bytes(*l2)
                                + tail2)[i] == (seq![0u8] + (tree_bytes(*l2) + tail2))[i + 1]);
                    }
                    lemma_tree_bytes_unambiguous(*l1, *l2, tail1, tail2);
                    lemma_tree_bytes_unambiguous(*r1, *r2, rest1, rest2);
                }
            }
        }
    }
}

/// Tree serialization round trip: a tree's serialization, with any trailing
/// bytes after it, parses back to exactly that tree — it is a prefix of the
/// stream, and the only tree that is.  Together with the deserializer's
/// contract this says `deserialize_tree(serialize_tree(t)) == t`.
pub proof fn lemma_tree_serialization_round_trip(t: Node, rest: Seq<u8>)
    ensures
        tree_prefix_of(t, tree_bytes(t) + rest),
        forall|t2: Node| #[trigger] tree_prefix_of(t2, tree_bytes(t) + rest) ==> t2 == t,
{
    let s = tree_bytes(t) + rest;
    assert(tree_bytes(t) =~= s.subrange(0, tree_bytes(t).len() as int));
    assert forall|t2: Node| #[trigger] tree_prefix_of(t2, s) implies t2 == t by {
        assert(tree_bytes(t2) + s.skip(tree_bytes(t2).len() as int) =~= s);
        lemma_tree_bytes_unambiguous(t, t2, rest, s.skip(tree_bytes(t2).len() as int));
    }
}

/// Serializes `node` in pre-order, appending to `out`.
pub fn serialize_tree(node: &Node, out: &mut Vec<u8>)
    ensures
        final(out)@ == old(out)@ + tree_bytes(*node),
    decreases node,
{
    match node {
        Node::Leaf(b) => {
            out.push(1u8);
            out.push(*b);
            assert(out@ =~= old(out)@ + tree_bytes(*node));
        }
        Node::Internal(l, r) => {
            out.push(0u8);
            serialize_tree(l, out);
            serialize_tree(r, out);
            assert(out@ =~= old(out)@ + tree_bytes(*node));
        }
    }
}

/// Parses one serialized tree from `data` starting at `idx`; on success
/// returns the tree and the position just past its serialization.  Fails with
/// `TruncatedTree` exactly when no serialized tree starts at `idx`.
fn parse_tree_at(data: &Vec<u8>, idx: usize) -> (r: Result<(Node, usize), CodecError>)
    requires
        idx <= data@.len(),
    ensures
        match r {
            Ok(p) => {
                &&& idx + tree_bytes(p.0).len() == p.1
                &&& p.1 <= data@.len()
                &&& data@.subrange(idx as int, p.1 as int) == tree_bytes(p.0)
            },
            Err(e) => {
                &&& e == CodecError::TruncatedTree
                &&& forall|t: Node| !(#[trigger] tree_prefix_of(t, data@.skip(idx as int)))
            },
        },
    decreases data@.len() - idx,
{
    let ghost suffix = data@.skip(idx as int);
    if idx >= data.len() {
        proof {
            assert forall|t: Node| !(#[trigger] tree_prefix_of(t, suffix)) by {
                lemma_tree_bytes_len(t);
            }
        }
        return Err(CodecError::TruncatedTree);
    }
    let tag = data[idx];
    if tag == 1 {
        if idx + 1 >= data.len() {
            proof {
                assert forall|t: Node| !(#[trigger] tree_prefix_of(t, suffix)) by {
                    if tree_prefix_of(t, suffix) {
                        lemma_tree_bytes_len(t);
                        assert(tree_bytes(t)[0] == suffix[0]);
                        match t {
                            Node::Leaf(_) => {
                                assert(tree_bytes(t).len() == 2);
                                assert(suffix.len() == 1);
                            }
                            Node::Internal(_, _) => {
                                assert(tree_bytes(t)[0] == 0u8);
                            }
                        }
                    }
                }
            }
            return Err(CodecError::TruncatedTree);
        }
        let b = data[idx + 1];
        let t = Node::Leaf(b);
        assert(data@.subrange(idx as int, idx + 2) =~= tree_bytes(t));
        Ok((t, idx + 2))
    } else if tag == 0 {
        let left = parse_tree_at(data, idx + 1);
        match left {
            Err(e) => {
                proof {
                    assert forall|t: Node| !(#[trigger] tree_prefix_of(t, suffix)) by {
                        if tree_prefix_of(t, suffix) {
                            match t {
                                Node::Leaf(_) => {
                                    assert(tree_bytes(t)[0] == 1u8);
                                    assert(tree_bytes(t)[0] == suffix[0]);
                                }
                                Node::Internal(l, r) => {
                                    lemma_left_child_prefix(t, *l, *r, suffix);
                                    assert(suffix.skip(1) =~= data@.skip(idx + 1));
                                    assert(tree_prefix_of(*l, data@.skip(idx + 1)));
                                }
                            }
                        }
                    }
                }
                Err(e)
            }
            Ok((lt, lend)) => {
                proof {
                    lemma_tree_bytes_len(lt);
                }
                let right = parse_tree_at(data, lend);
                match right {
                    Err(e) => {
                        proof {
                            assert forall|t: Node| !(#[trigger] tree_prefix_of(t, suffix)) by {
                                if tree_prefix_of(t, suffix) {
                                    match t {
                                        Node::Leaf(_) => {
                                            assert(tree_bytes(t)[0] == 1u8);
                                            assert(tree_bytes(t)[0] == suffix[0]);
                                        }
                                        Node::Internal(l, r) => {
                                            lemma_left_child_prefix(t, *l, *r, suffix);
                                            lemma_right_child_prefix(
                                                t, *l, *r, lt, data@, idx as int, lend as int);
                                            assert(tree_prefix_of(*r, data@.skip(lend as int)));
                                        }
                                    }
                                }
                            }
                        }
                        Err(e)
                    }
                    Ok((rt, rend)) => {
                        let ghost gl = lt;
                        let ghost gr = rt;
                        let t = Node::Internal(Box::new(lt), Box::new(rt));
                        proof {
                            assert(tree_bytes(t) =~= seq![0u8] + tree_bytes(gl) + tree_bytes(gr));
                            assert(data@.subrange(idx as int, rend as int) =~= tree_bytes(t)) by {
                                assert(data@.subrange(idx + 1, lend as int) == tree_bytes(gl));
                                assert(data@.subrange(lend as int, rend as int) == tree_bytes(gr));
                            }
                        }
                        Ok((t, rend))
                    }
                }
            }
        }
    } else {
        proof {
            assert forall|t: Node| !(#[trigger] tree_prefix_of(t, suffix)) by {
                if tree_prefix_of(t, suffix) {
                    assert(tree_bytes(t)[0] == suffix[0]);
                    match t {
                        Node::Leaf(_) => {}
                        Node::Internal(_, _) => {}
                    }
                }
            }
        }
        Err(CodecError::TruncatedTree)
    }
}

/// If an internal node's serialization is a prefix of `s`, the left child's
/// serialization is a prefix of `s` with the tag byte dropped.
proof fn lemma_left_child_prefix(t: Node, l: Node, r: Node, s: Seq<u8>)
    requires
        t == Node::Internal(Box::new(l), Box::new(r)),
        tree_prefix_of(t, s),
    ensures
        tree_prefix_of(l, s.skip(1)),
{
    let tb = tree_bytes(t);
    assert(tb =~= seq![0u8] + tree_bytes(l) + tree_bytes(r));
    assert(tree_bytes(l).len() <= s.skip(1).len());
    assert(tree_bytes(l) =~= s.skip(1).subrange(0, tree_bytes(l).len() as int)) by {
        assert(forall|i: int| 0 <= i < tree_bytes(l).len() ==> tree_bytes(l)[i] == tb[i + 1]);
        assert(forall|i: int| 0 <= i < tb.len() ==> tb[i] == s[i]);
    }
}

/// If an internal node's serialization is a prefix of `data` from `idx`, and
/// the left child's serialization is known to fill `data[idx+1 .. lend]`,
/// then the right child's serialization is a prefix of `data` from `lend`.
proof fn lemma_right_child_prefix(
    t: Node,
    l: Node,
    r: Node,
    lt: Node,
    data: Seq<u8>,
    idx: int,
    lend: int,
)
    requires
        t == Node::Internal(Box::new(l), Box::new(r)),
        tree_prefix_of(t, data.skip(idx)),
        0 <= idx,
        idx + 1 <= lend <= data.len(),
        idx + 1 + tree_bytes(lt).len() == lend,
        data.subrange(idx + 1, lend) == tree_bytes(lt),
    ensures
        tree_prefix_of(r, data.skip(lend)),
{
    let s = data.skip(idx);
    let tb = tree_bytes(t);
    assert(tb =~= seq![0u8] + tree_bytes(l) + tree_bytes(r));
    lemma_left_child_prefix(t, l, r, s);
    // The two left parses read the same bytes, so l == lt.
    assert(tree_bytes(l) + (s.skip(1).skip(tree_bytes(l).len() as int)) =~= tree_bytes(lt) + (
    s.skip(1).skip(tree_bytes(lt).len() as int))) by {
        assert(tree_bytes(l) =~= s.skip(1).subrange(0, tree_bytes(l).len() as int));
        assert(tree_bytes(lt) =~= s.skip(1).subrange(0, tree_bytes(lt).len() as int)) by {
            assert(forall|i: int|
                0 <= i < tree_bytes(lt).len() ==> tree_bytes(lt)[i] == data[idx + 1 + i]);
        }
        assert(tree_bytes(l) + s.skip(1).skip(tree_bytes(l).len() as int) =~= s.skip(1));
        assert(tree_bytes(lt) + s.skip(1).skip(tree_bytes(lt).len() as int) =~= s.skip(1));
    }
    lemma_tree_bytes_unambiguous(
        l,
        lt,
        s.skip(1).skip(tree_bytes(l).len() as int),
        s.skip(1).skip(tree_bytes(lt).len() as int),
    );
    assert(tree_bytes(r).len() <= data.skip(lend).len()) by {
        assert(tb.len() <= s.len());
    }
    assert(tree_bytes(r) =~= data.skip(lend).subrange(0, tree_bytes(r).len() as int)) by {
        assert(forall|i: int| 0 <= i < tb.len() ==> tb[i] == data[idx + i]);
        assert(forall|i: int|
            0 <= i < tree_bytes(r).len() ==> tree_bytes(r)[i] == tb[1 + tree_bytes(l).len() + i]);
    }
}

/// Parses one serialized tree from `data`, advancing `idx` past it.  Fails
/// with `TruncatedTree` exactly when no serialized tree starts at `idx`:
/// the buffer is truncated or a tag byte is neither 0 nor 1.
pub fn deserialize_tree(data: &Vec<u8>, idx: &mut usize) -> (r: Result<Node, CodecError>)
    requires
        *old(idx) <= data@.len(),
    ensures
        match r {
            Ok(t) => {
                &&& *old(idx) + tree_bytes(t).len() == *final(idx)
                &&& *final(idx) <= data@.len()
                &&& data@.subrange(*old(idx) as int, *final(idx) as int) == tree_bytes(t)
            },
            Err(e) => {
                &&& e == CodecError::TruncatedTree
                &&& *final(idx) == *old(idx)
                &&& forall|t: Node| !(#[trigger] tree_prefix_of(t, data@.skip(*old(idx) as int)))
            },
        },
{
    match parse_tree_at(data, *idx) {
        Ok((t, end)) => {
            *idx = end;
            Ok(t)
        }
        Err(e) => Err(e),
    }
}

} // verus!
