//! The entropy coder: frequency counting, minimum-redundancy tree
//! construction, the per-byte code table, and the Huffman compress and
//! decompress transforms.

use vstd::prelude::*;
use vstd::pervasive::VecAdditionalExecFns;
use crate::node::{Node, spec_code, leaf_count};
use crate::bits::{pack_bits, unpack_bits, pack, unpack, lemma_unpack_pack};
use crate::CodecError;

verus! {

/// Number of occurrences of `b` in `s`.
pub open spec fn count_freq(s: Seq<u8>, b: u8) -> nat
    decreases s.len(),
{
    if s.len() == 0 {
        0
    } else {
        count_freq(s.drop_last(), b) + if s.last() == b {
            1nat
        } else {
            0nat
        }
    }
}

proof fn lemma_count_le_len(s: Seq<u8>, b: u8)
    ensures
        count_freq(s, b) <= s.len(),
    decreases s.len(),
{
    if s.len() > 0 {
        lemma_count_le_len(s.drop_last(), b);
    }
}

/// A byte that occurs in `s` has a positive count.
pub proof fn lemma_count_pos(s: Seq<u8>, i: int)
    requires
        0 <= i < s.len(),
    ensures
        count_freq(s, s[i]) > 0,
    decreases s.len(),
{
    if i == s.len() - 1 {
    } else {
        lemma_count_pos(s.drop_last(), i);
    }
}

/// The initial work list of tree construction: one weighted leaf per byte
/// value below `b_end` that occurs in `data`, in ascending byte order.  The
/// ascending order is the documented tie-break: among equal frequencies the
/// entry inserted first (the smaller byte value, or the earlier-built
/// internal node) is extracted first.
pub open spec fn init_work(data: Seq<u8>, b_end: int) -> Seq<(u64, Node)>
    decreases b_end,
{
    if b_end <= 0 {
        Seq::empty()
    } else {
        let pre = init_work(data, b_end - 1);
        let c = count_freq(data, (b_end - 1) as u8);
        if c > 0 {
            pre.push((c as u64, Node::Leaf((b_end - 1) as u8)))
        } else {
            pre
        }
    }
}

/// Some tree of the work list has a leaf holding `b`.
pub open spec fn work_has(w: Seq<(u64, Node)>, b: u8) -> bool {
    exists|i: int| 0 <= i < w.len() && spec_code(#[trigger] w[i].1, b) is Some
}

/// Total number of leaves over the work list.
pub open spec fn sum_leaves(w: Seq<(u64, Node)>) -> nat
    decreases w.len(),
{
    if w.len() == 0 {
        0
    } else {
        sum_leaves(w.drop_last()) + leaf_count(w.last().1)
    }
}

/// The index of the first entry with minimal weight.
pub open spec fn argmin(w: Seq<(u64, Node)>) -> int
    decreases w.len(),
{
    if w.len() <= 1 {
        0
    } else {
        let m = argmin(w.drop_last());
        if w.last().0 < w[m].0 {
            w.len() - 1
        } else {
            m
        }
    }
}

proof fn lemma_argmin_bounds(w: Seq<(u64, Node)>)
    requires
        w.len() >= 1,
    ensures
        0 <= argmin(w) < w.len(),
    decreases w.len(),
{
    if w.len() > 1 {
        lemma_argmin_bounds(w.drop_last());
    }
}

/// One reduction step: extract the two minimal-weight entries (the
/// first-extracted becomes the left child) and append an internal node whose
/// weight is their sum.
pub open spec fn merge_step(w: Seq<(u64, Node)>) -> Seq<(u64, Node)>
    recommends
        w.len() >= 2,
{
    let i = argmin(w);
    let a = w[i];
    let w1 = w.remove(i);
    let j = argmin(w1);
    let b = w1[j];
    let w2 = w1.remove(j);
    w2.push((a.0.saturating_add(b.0), Node::Internal(Box::new(a.1), Box::new(b.1))))
}

proof fn lemma_merge_step_len(w: Seq<(u64, Node)>)
    requires
        w.len() >= 2,
    ensures
        merge_step(w).len() == w.len() - 1,
{
    lemma_argmin_bounds(w);
    let w1 = w.remove(argmin(w));
    assert(w1.len() == w.len() - 1);
    lemma_argmin_bounds(w1);
}

/// Repeated reduction of the work list to a single tree: the classical
/// Huffman construction, deterministic by the first-minimum rule.
pub open spec fn spec_merge(w: Seq<(u64, Node)>) -> Node
    decreases w.len(),
        via spec_merge_decreases
{
    if w.len() <= 1 {
        if w.len() == 1 {
            w[0].1
        } else {
            Node::Leaf(0)
        }
    } else {
        spec_merge(merge_step(w))
    }
}

#[via_fn]
proof fn spec_merge_decreases(w: Seq<(u64, Node)>) {
    if w.len() >= 2 {
        lemma_merge_step_len(w);
    }
}

/// The tree the builder returns for non-empty `data`.
pub open spec fn spec_build_tree(data: Seq<u8>) -> Node {
    spec_merge(init_work(data, 256))
}

/// Removing entry `i` removes exactly that entry's symbols from the list.
proof fn lemma_remove_has(w: Seq<(u64, Node)>, i: int, b: u8)
    requires
        0 <= i < w.len(),
    ensures
        work_has(w, b) <==> (work_has(w.remove(i), b) || spec_code(w[i].1, b) is Some),
{
    let w1 = w.remove(i);
    assert(w1.len() == w.len() - 1);
    assert(forall|m: int| 0 <= m < i ==> w1[m] == w[m]);
    assert(forall|m: int| i <= m < w1.len() ==> w1[m] == w[m + 1]);
    if work_has(w, b) {
        let k = choose|k: int| 0 <= k < w.len() && spec_code(#[trigger] w[k].1, b) is Some;
        if k < i {
            assert(w1[k] == w[k]);
        } else if k > i {
            assert(w1[k - 1] == w[k]);
        }
    }
    if work_has(w1, b) {
        let k = choose|k: int| 0 <= k < w1.len() && spec_code(#[trigger] w1[k].1, b) is Some;
        if k < i {
            assert(w[k] == w1[k]);
        } else {
            assert(w[k + 1] == w1[k]);
        }
    }
}

/// Removing entry `i` removes exactly that entry's leaves from the total.
proof fn lemma_sum_leaves_remove(w: Seq<(u64, Node)>, i: int)
    requires
        0 <= i < w.len(),
    ensures
        sum_leaves(w) == sum_leaves(w.remove(i)) + leaf_count(w[i].1),
    decreases w.len(),
{
    if i == w.len() - 1 {
        assert(w.remove(i) =~= w.drop_last());
    } else {
        assert(w.remove(i).drop_last() =~= w.drop_last().remove(i));
        assert(w.remove(i).last() == w.last());
        lemma_sum_leaves_remove(w.drop_last(), i);
    }
}

/// The merged tree holds exactly the symbols of the work list.
proof fn lemma_merge_symbols(w: Seq<(u64, Node)>, b: u8)
    requires
        w.len() >= 1,
    ensures
        spec_code(spec_merge(w), b) is Some <==> work_has(w, b),
    decreases w.len(),
{
    if w.len() == 1 {
        assert(spec_merge(w) == w[0].1);
    } else {
        lemma_merge_step_len(w);
        lemma_merge_symbols(merge_step(w), b);
        lemma_argmin_bounds(w);
        let i = argmin(w);
        let a = w[i];
        let w1 = w.remove(i);
        lemma_argmin_bounds(w1);
        let j = argmin(w1);
        let bb = w1[j];
        let w2 = w1.remove(j);
        let merged = (
            a.0.saturating_add(bb.0),
            Node::Internal(Box::new(a.1), Box::new(bb.1)),
        );
        assert(merge_step(w) == w2.push(merged));
        lemma_remove_has(w, i, b);
        lemma_remove_has(w1, j, b);
        // Symbols of w2.push(merged) are those of w2 plus those of a.1 and bb.1.
        let ws = w2.push(merged);
        assert(spec_code(merged.1, b) is Some <==> (spec_code(a.1, b) is Some || spec_code(
            bb.1,
            b,
        ) is Some));
        assert(work_has(ws, b) <==> (work_has(w2, b) || spec_code(merged.1, b) is Some)) by {
            if work_has(ws, b) {
                let k = choose|k: int|
                    0 <= k < ws.len() && spec_code(#[trigger] ws[k].1, b) is Some;
                if k < w2.len() {
                    assert(ws[k] == w2[k]);
                }
            }
            if work_has(w2, b) {
                let k = choose|k: int|
                    0 <= k < w2.len() && spec_code(#[trigger] w2[k].1, b) is Some;
                assert(ws[k] == w2[k]);
            }
            assert(ws[ws.len() - 1] == merged);
        }
    }
}

/// Merging never creates leaves: the merged tree has at most the total.
proof fn lemma_merge_leaf_count(w: Seq<(u64, Node)>)
    requires
        w.len() >= 1,
    ensures
        leaf_count(spec_merge(w)) <= sum_leaves(w),
    decreases w.len(),
{
    if w.len() == 1 {
        assert(sum_leaves(w) == sum_leaves(w.drop_last()) + leaf_count(w.last().1));
        assert(w.drop_last() =~= w.subrange(0, 0));
        assert(w.last() == w[0]);
    } else {
        lemma_merge_step_len(w);
        lemma_merge_leaf_count(merge_step(w));
        lemma_argmin_bounds(w);
        let i = argmin(w);
        let w1 = w.remove(i);
        lemma_argmin_bounds(w1);
        let j = argmin(w1);
        let w2 = w1.remove(j);
        lemma_sum_leaves_remove(w, i);
        lemma_sum_leaves_remove(w1, j);
        let ws = merge_step(w);
        assert(sum_leaves(ws) == sum_leaves(ws.drop_last()) + leaf_count(ws.last().1));
        assert(ws.drop_last() =~= w2);
    }
}

/// The work list holds exactly the bytes with positive counts.
proof fn lemma_init_work_has(data: Seq<u8>, b_end: int, b: u8)
    requires
        0 <= b_end <= 256,
    ensures
        work_has(init_work(data, b_end), b) <==> (b < b_end && count_freq(data, b) > 0),
    decreases b_end,
{
    if b_end > 0 {
        lemma_init_work_has(data, b_end - 1, b);
        let pre = init_work(data, b_end - 1);
        let w = init_work(data, b_end);
        let c = count_freq(data, (b_end - 1) as u8);
        if c > 0 {
            assert(w == pre.push(((c as u64), Node::Leaf((b_end - 1) as u8))));
            assert(w[w.len() - 1].1 == Node::Leaf((b_end - 1) as u8));
            if work_has(w, b) {
                let k = choose|k: int|
                    0 <= k < w.len() && spec_code(#[trigger] w[k].1, b) is Some;
                if k < pre.len() {
                    assert(w[k] == pre[k]);
                }
            }
            if work_has(pre, b) {
                let k = choose|k: int|
                    0 <= k < pre.len() && spec_code(#[trigger] pre[k].1, b) is Some;
                assert(w[k] == pre[k]);
            }
            if b == (b_end - 1) as u8 {
                assert(spec_code(w[w.len() - 1].1, b) is Some);
            }
        } else {
            assert(w == pre);
        }
    }
}

/// At most one leaf per byte value enters the work list.
proof fn lemma_init_work_leaves(data: Seq<u8>, b_end: int)
    requires
        0 <= b_end <= 256,
    ensures
        sum_leaves(init_work(data, b_end)) <= b_end,
        init_work(data, b_end).len() <= b_end,
    decreases b_end,
{
    if b_end > 0 {
        lemma_init_work_leaves(data, b_end - 1);
        let pre = init_work(data, b_end - 1);
        let w = init_work(data, b_end);
        if count_freq(data, (b_end - 1) as u8) > 0 {
            assert(w.drop_last() =~= pre);
        }
    }
}

/// Symbol and size facts about the built tree, used by the coder's proofs:
/// the tree's leaf alphabet is exactly the set of bytes occurring in `data`,
/// and there are at most 256 leaves.
pub proof fn lemma_build_tree_symbols(data: Seq<u8>)
    requires
        1 <= data.len(),
    ensures
        forall|b: u8| (spec_code(spec_build_tree(data), b) is Some) <==> count_freq(data, b) > 0,
        leaf_count(spec_build_tree(data)) <= 256,
        init_work(data, 256).len() >= 1,
{
    let w = init_work(data, 256);
    lemma_count_pos(data, 0);
    lemma_init_work_has(data, 256, data[0]);
    assert(w.len() >= 1) by {
        if w.len() == 0 {
            assert(!work_has(w, data[0]));
        }
    }
    assert forall|b: u8| (spec_code(spec_build_tree(data), b) is Some) <==> count_freq(data, b)
        > 0 by {
        lemma_merge_symbols(w, b);
        lemma_init_work_has(data, 256, b);
    }
    lemma_merge_leaf_count(w);
    lemma_init_work_leaves(data, 256);
}

/// Index of the first minimal-weight entry of the work list.
fn find_min(work: &Vec<(u64, Node)>) -> (r: usize)
    requires
        work@.len() >= 1,
    ensures
        r == argmin(work@),
        r < work@.len(),
{
    let mut best: usize = 0;
    let mut j: usize = 1;
    while j < work.len()
        invariant
            1 <= j <= work@.len(),
            best < j,
            best == argmin(work@.take(j as int)),
        decreases work@.len() - j,
    {
        proof {
            assert(work@.take(j + 1).drop_last() =~= work@.take(j as int));
            assert(work@.take(j + 1).last() == work@[j as int]);
        }
        if work[j].0 < work[best].0 {
            best = j;
        }
        j = j + 1;
    }
    proof {
        assert(work@.take(work@.len() as int) =~= work@);
    }
    best
}

/// Counts symbol frequencies and builds the minimum-redundancy tree over the
/// byte alphabet present in `data`: repeatedly merge the two lowest-weight
/// entries (first extracted becomes the left child) until one tree remains.
/// Input with exactly one distinct byte yields a single leaf; empty input
/// yields no tree.
pub fn build_huffman_tree(data: &Vec<u8>) -> (r: Option<Node>)
    requires
        data@.len() <= 0xFFFF_FFFF,
    ensures
        (data@.len() == 0) <==> (r is None),
        r is Some ==> r->Some_0 == spec_build_tree(data@),
{
    let mut counts: Vec<u64> = Vec::new();
    let mut z: usize = 0;
    while z < 256
        invariant
            counts@.len() == z <= 256,
            forall|b: int| 0 <= b < z ==> counts@[b] == 0,
        decreases 256 - z,
    {
        counts.push(0);
        z = z + 1;
    }
    let mut i: usize = 0;
    while i < data.len()
        invariant
            counts@.len() == 256,
            i <= data@.len() <= 0xFFFF_FFFF,
            forall|b: u8| counts@[b as int] == count_freq(data@.take(i as int), b),
        decreases data@.len() - i,
    {
        let b = data[i];
        proof {
            assert(data@.take(i + 1).drop_last() =~= data@.take(i as int));
            assert(data@.take(i + 1).last() == data@[i as int]);
            lemma_count_le_len(data@.take(i as int), b);
        }
        let c = counts[b as usize];
        counts.set(b as usize, c + 1);
        proof {
            assert forall|b2: u8| counts@[b2 as int] == count_freq(data@.take(i + 1), b2) by {
                if b2 != b {
                    assert(counts@[b2 as int] == count_freq(data@.take(i as int), b2));
                }
            }
        }
        i = i + 1;
    }
    proof {
        assert(data@.take(data@.len() as int) =~= data@);
    }
    let mut work: Vec<(u64, Node)> = Vec::new();
    let mut bi: usize = 0;
    while bi < 256
        invariant
            counts@.len() == 256,
            bi <= 256,
            forall|b: u8| counts@[b as int] == count_freq(data@, b),
            data@.len() <= 0xFFFF_FFFF,
            work@ == init_work(data@, bi as int),
        decreases 256 - bi,
    {
        let c = counts[bi];
        if c > 0 {
            proof {
                lemma_count_le_len(data@, bi as u8);
            }
            work.push((c, Node::Leaf(bi as u8)));
        }
        bi = bi + 1;
    }
    let ghost w0 = work@;
    if work.len() == 0 {
        proof {
            if data@.len() > 0 {
                lemma_count_pos(data@, 0);
                lemma_init_work_has(data@, 256, data@[0]);
                assert(!work_has(w0, data@[0]));
            }
        }
        return None;
    }
    proof {
        if data@.len() == 0 {
            lemma_init_work_empty(data@, 256);
        }
    }
    while work.len() > 1
        invariant
            work@.len() >= 1,
            spec_merge(work@) == spec_merge(w0),
        decreases work@.len(),
    {
        let ghost prev = work@;
        let i = find_min(&work);
        let a = work.remove(i);
        let j = find_min(&work);
        let b = work.remove(j);
        work.push((a.0.saturating_add(b.0), Node::Internal(Box::new(a.1), Box::new(b.1))));
        proof {
            assert(work@ =~= merge_step(prev));
            lemma_merge_step_len(prev);
        }
    }
    let (_f, t) = work.remove(0);
    proof {
        assert(t == spec_merge(w0));
    }
    Some(t)
}

/// Empty input yields an empty work list.
proof fn lemma_init_work_empty(data: Seq<u8>, b_end: int)
    requires
        data.len() == 0,
        0 <= b_end,
    ensures
        init_work(data, b_end).len() == 0,
    decreases b_end,
{
    if b_end > 0 {
        lemma_init_work_empty(data, b_end - 1);
    }
}

/// A copy of `prefix` with one more bit.
fn extend_one(prefix: &Vec<bool>, bit: bool) -> (r: Vec<bool>)
    ensures
        r@ == prefix@.push(bit),
{
    let mut r: Vec<bool> = Vec::new();
    let mut i: usize = 0;
    while i < prefix.len()
        invariant
            i <= prefix@.len(),
            r@ == prefix@.take(i as int),
        decreases prefix@.len() - i,
    {
        r.push(prefix[i]);
        proof {
            assert(r@ =~= prefix@.take(i + 1));
        }
        i = i + 1;
    }
    proof {
        assert(prefix@.take(prefix@.len() as int) =~= prefix@);
    }
    r.push(bit);
    r
}

/// Walks the tree recording, for each leaf byte, the accumulated path bits
/// (left 0, right 1) after `prefix` in the 256-entry table.  A leaf met on a
/// later (more rightward) path overwrites an earlier entry.
pub fn build_codes(node: &Node, prefix: Vec<bool>, table: &mut Vec<Option<Vec<bool>>>)
    requires
        old(table)@.len() == 256,
    ensures
        final(table)@.len() == 256,
        forall|b: u8|
            match spec_code(*node, b) {
                Some(c) => final(table)@[b as int] is Some && (#[trigger] final(table)@[b as int])->Some_0@ == prefix@ + c,
                None => final(table)@[b as int] == old(table)@[b as int],
            },
    decreases node,
{
    match node {
        Node::Leaf(s) => {
            table.set(*s as usize, Some(prefix));
            proof {
                assert forall|b: u8|
                    match spec_code(*node, b) {
                        Some(c) => table@[b as int] is Some && (#[trigger] table@[b as int])->Some_0@ == prefix@ + c,
                        None => table@[b as int] == old(table)@[b as int],
                    } by {
                    if b == *s {
                        assert(prefix@ + Seq::<bool>::empty() =~= prefix@);
                    }
                }
            }
        }
        Node::Internal(l, r) => {
            let pl = extend_one(&prefix, false);
            let ghost mid0 = table@;
            build_codes(&**l, pl, table);
            let ghost mid = table@;
            let pr = extend_one(&prefix, true);
            build_codes(&**r, pr, table);
            proof {
                assert forall|b: u8|
                    match spec_code(*node, b) {
                        Some(c) => table@[b as int] is Some && (#[trigger] table@[b as int])->Some_0@ == prefix@ + c,
                        None => table@[b as int] == old(table)@[b as int],
                    } by {
                    match spec_code(**r, b) {
                        Some(cr) => {
                            assert(spec_code(*node, b) == Some(seq![true] + cr));
                            assert(table@[b as int]->Some_0@ == prefix@.push(true) + cr);
                            assert(prefix@.push(true) + cr =~= prefix@ + (seq![true] + cr));
                        }
                        None => {
                            match spec_code(**l, b) {
                                Some(cl) => {
                                    assert(spec_code(*node, b) == Some(seq![false] + cl));
                                    assert(table@[b as int] == mid[b as int]);
                                    assert(mid[b as int]->Some_0@ == prefix@.push(false) + cl);
                                    assert(prefix@.push(false) + cl =~= prefix@ + (seq![false]
                                        + cl));
                                }
                                None => {
                                    assert(table@[b as int] == mid[b as int]);
                                    assert(mid[b as int] == mid0[b as int]);
                                }
                            }
                        }
                    }
                }
            }
        }
    }
}

/// Concatenation of the codes of all bytes of `data` under tree `t`.
pub open spec fn concat_codes(t: Node, data: Seq<u8>) -> Seq<bool>
    decreases data.len(),
{
    if data.len() == 0 {
        Seq::empty()
    } else {
        concat_codes(t, data.drop_last()) + spec_code(t, data.last())->Some_0
    }
}

/// The Huffman payload for `data` under tree `t`: the packed code bits.  For
/// the degenerate one-leaf tree the codes are empty and nothing is packed:
/// the run length is carried by the original-length field alone.
pub open spec fn huff_payload(t: Node, data: Seq<u8>) -> Seq<u8> {
    match t {
        Node::Leaf(_) => Seq::empty(),
        Node::Internal(_, _) => pack_bits(concat_codes(t, data)),
    }
}

/// The tree the compressor pairs with `data`: none for empty input.
pub open spec fn spec_huffman_tree(data: Seq<u8>) -> Option<Node> {
    if data.len() == 0 {
        None
    } else {
        Some(spec_build_tree(data))
    }
}

/// The payload bytes the compressor produces for `data`.
pub open spec fn spec_huffman_payload(data: Seq<u8>) -> Seq<u8> {
    if data.len() == 0 {
        Seq::empty()
    } else {
        huff_payload(spec_build_tree(data), data)
    }
}

/// Huffman-compresses `data`: builds the tree and code table, concatenates
/// the code bits of every input byte, and packs them MSB-first.  Returns the
/// packed payload, the tree (for serialization), and the original byte count,
/// which the decoder needs to tell padding bits from data.  The output is a
/// function of `data` alone: compressing twice yields identical bytes.
pub fn huffman_compress(data: &Vec<u8>) -> (r: (Vec<u8>, Option<Node>, usize))
    requires
        data@.len() <= 0xFFFF_FFFF,
    ensures
        r.2 == data@.len(),
        r.1 == spec_huffman_tree(data@),
        r.0@ == spec_huffman_payload(data@),
{
    let n = data.len();
    let tree_opt = build_huffman_tree(data);
    match tree_opt {
        None => (Vec::new(), None, n),
        Some(t) => {
            proof {
                lemma_build_tree_symbols(data@);
            }
            let is_leaf = match &t {
                Node::Leaf(_) => true,
                Node::Internal(_, _) => false,
            };
            if is_leaf {
                (Vec::new(), Some(t), n)
            } else {
                let mut table: Vec<Option<Vec<bool>>> = Vec::new();
                let mut z: usize = 0;
                while z < 256
                    invariant
                        table@.len() == z <= 256,
                    decreases 256 - z,
                {
                    table.push(None);
                    z = z + 1;
                }
                build_codes(&t, Vec::new(), &mut table);
                let mut bitsv: Vec<bool> = Vec::new();
                let mut i: usize = 0;
                while i < n
                    invariant
                        n == data@.len() <= 0xFFFF_FFFF,
                        i <= n,
                        t == spec_build_tree(data@),
                        table@.len() == 256,
                        forall|b: u8|
                            (spec_code(t, b) is Some) <==> count_freq(data@, b) > 0,
                        forall|b: u8|
                            spec_code(t, b) is Some ==> (#[trigger] table@[b as int]) is Some
                                && table@[b as int]->Some_0@ == spec_code(t, b)->Some_0,
                        bitsv@ == concat_codes(t, data@.take(i as int)),
                    decreases n - i,
                {
                    let b = data[i];
                    proof {
                        lemma_count_pos(data@, i as int);
                    }
                    match &table[b as usize] {
                        Some(code) => {
                            let clen = code.len();
                            let mut j: usize = 0;
                            while j < clen
                                invariant
                                    j <= clen == code@.len(),
                                    bitsv@ == concat_codes(t, data@.take(i as int)) + code@.take(
                                        j as int,
                                    ),
                                decreases clen - j,
                            {
                                bitsv.push(code[j]);
                                proof {
                                    assert(concat_codes(t, data@.take(i as int)) + code@.take(
                                        j as int,
                                    ).push(code@[j as int]) =~= concat_codes(
                                        t,
                                        data@.take(i as int),
                                    ) + code@.take(j + 1));
                                }
                                j = j + 1;
                            }
                            proof {
                                assert(code@.take(code@.len() as int) =~= code@);
                                assert(data@.take(i + 1).drop_last() =~= data@.take(i as int));
                                assert(data@.take(i + 1).last() == data@[i as int]);
                                assert(bitsv@ =~= concat_codes(t, data@.take(i + 1)));
                            }
                        }
                        None => {
                            proof {
                                assert(false);
                            }
                        }
                    }
                    i = i + 1;
                }
                proof {
                    assert(data@.take(data@.len() as int) =~= data@);
                }
                let payload = pack(&bitsv);
                (payload, Some(t), n)
            }
        }
    }
}

/// Walks the tree from the root along `bs` (0 left, 1 right) until a leaf:
/// the decoded byte and the number of bits consumed, or `None` when the bits
/// run out first.
pub open spec fn decode_sym(t: Node, bs: Seq<bool>) -> Option<(u8, int)>
    decreases t,
{
    match t {
        Node::Leaf(s) => Some((s, 0)),
        Node::Internal(l, r) => if bs.len() == 0 {
            None
        } else if bs[0] {
            match decode_sym(*r, bs.skip(1)) {
                None => None,
                Some(p) => Some((p.0, p.1 + 1)),
            }
        } else {
            match decode_sym(*l, bs.skip(1)) {
                None => None,
                Some(p) => Some((p.0, p.1 + 1)),
            }
        },
    }
}

/// Decodes exactly `n` symbols from `bs`, or `None` when the bits run out.
/// Bits past the `n`th symbol are ignored: that is how zero padding is kept
/// out of the output.
pub open spec fn decode_bits(t: Node, bs: Seq<bool>, n: nat) -> Option<Seq<u8>>
    decreases n,
{
    if n == 0 {
        Some(Seq::empty())
    } else {
        match decode_sym(t, bs) {
            None => None,
            Some(p) => match decode_bits(t, bs.skip(p.1), (n - 1) as nat) {
                None => None,
                Some(rest) => Some(seq![p.0] + rest),
            },
        }
    }
}

/// The result of Huffman decoding `bytes` with `tree` to `n` original
/// bytes.  Without a tree only an empty output is decodable; a one-leaf tree
/// repeats its symbol `n` times without consuming bits.
pub open spec fn huff_decode(tree: Option<Node>, bytes: Seq<u8>, n: nat) -> Option<Seq<u8>> {
    match tree {
        None => if n == 0 {
            Some(Seq::empty())
        } else {
            None
        },
        Some(t) => decode_bits(t, unpack_bits(bytes), n),
    }
}

pub open spec fn tree_of(t: Option<&Node>) -> Option<Node> {
    match t {
        Some(n) => Some(*n),
        None => None,
    }
}

/// Prepends an already-decoded prefix to a decoder outcome.
pub open spec fn opt_prepend(pre: Seq<u8>, rest: Option<Seq<u8>>) -> Option<Seq<u8>> {
    match rest {
        None => None,
        Some(s) => Some(pre + s),
    }
}

/// Decodes one symbol starting at bit `pos`; returns the byte and the
/// position just past its code.
fn decode_one(cur: &Node, bits: &Vec<bool>, pos: usize) -> (r: Result<(u8, usize), CodecError>)
    requires
        pos <= bits@.len(),
    ensures
        match r {
            Ok(p) => {
                &&& pos <= p.1 <= bits@.len()
                &&& decode_sym(*cur, bits@.skip(pos as int)) == Some((p.0, p.1 - pos))
            },
            Err(e) => {
                &&& e == CodecError::TruncatedBitstream
                &&& decode_sym(*cur, bits@.skip(pos as int)) is None
            },
        },
    decreases cur,
{
    match cur {
        Node::Leaf(s) => Ok((*s, pos)),
        Node::Internal(l, r) => {
            if pos >= bits.len() {
                assert(bits@.skip(pos as int).len() == 0);
                Err(CodecError::TruncatedBitstream)
            } else {
                let bit = bits[pos];
                proof {
                    assert(bits@.skip(pos as int)[0] == bit);
                    assert(bits@.skip(pos as int).skip(1) =~= bits@.skip(pos + 1));
                }
                if bit {
                    decode_one(&**r, bits, pos + 1)
                } else {
                    decode_one(&**l, bits, pos + 1)
                }
            }
        }
    }
}

/// Huffman-decompresses `data` with `tree` back to `orig_len` bytes:
/// unpacks the bits MSB-first and walks the tree, emitting a byte at each
/// leaf, stopping once `orig_len` bytes are out so that trailing pad bits
/// are never read as data.  Fails with `TruncatedBitstream` exactly when the
/// bit stream ends before `orig_len` bytes are decoded.
pub fn huffman_decompress(data: &Vec<u8>, tree: Option<&Node>, orig_len: usize) -> (r: Result<
    Vec<u8>,
    CodecError,
>)
    ensures
        match r {
            Ok(v) => huff_decode(tree_of(tree), data@, orig_len as nat) == Some(v@),
            Err(e) => {
                &&& e == CodecError::TruncatedBitstream
                &&& huff_decode(tree_of(tree), data@, orig_len as nat) is None
            },
        },
{
    match tree {
        None => {
            if orig_len == 0 {
                Ok(Vec::new())
            } else {
                Err(CodecError::TruncatedBitstream)
            }
        }
        Some(t) => {
            proof {
                assert(tree_of(tree) == Some(*t));
            }
            let bits = unpack(data);
            let mut out: Vec<u8> = Vec::new();
            let mut pos: usize = 0;
            proof {
                assert(bits@.skip(0) =~= bits@);
                match decode_bits(*t, bits@, orig_len as nat) {
                    None => {}
                    Some(s) => {
                        assert(Seq::<u8>::empty() + s =~= s);
                    }
                }
            }
            while out.len() < orig_len
                invariant
                    tree_of(tree) == Some(*t),
                    pos <= bits@.len(),
                    out@.len() <= orig_len,
                    bits@ == unpack_bits(data@),
                    decode_bits(*t, bits@, orig_len as nat) == opt_prepend(
                        out@,
                        decode_bits(*t, bits@.skip(pos as int), (orig_len - out@.len()) as nat),
                    ),
                decreases orig_len - out@.len(),
            {
                let ghost m = (orig_len - out@.len()) as nat;
                match decode_one(t, &bits, pos) {
                    Err(e) => {
                        proof {
                            assert(decode_bits(*t, bits@.skip(pos as int), m) is None);
                        }
                        return Err(e);
                    }
                    Ok((s, newpos)) => {
                        proof {
                            let bs = bits@.skip(pos as int);
                            assert(decode_sym(*t, bs) == Some((s, newpos - pos)));
                            assert(bs.skip(newpos - pos) =~= bits@.skip(newpos as int));
                            match decode_bits(*t, bits@.skip(newpos as int), (m - 1) as nat) {
                                None => {}
                                Some(rest) => {
                                    assert(out@ + (seq![s] + rest) =~= out@.push(s) + rest);
                                }
                            }
                        }
                        out.push(s);
                        pos = newpos;
                    }
                }
            }
            proof {
                assert(decode_bits(*t, bits@.skip(pos as int), 0) == Some(Seq::<u8>::empty()));
                assert(out@ + Seq::<u8>::empty() =~= out@);
            }
            Ok(out)
        }
    }
}

/// A one-leaf tree decodes to its symbol repeated, whatever the bits.
proof fn lemma_decode_leaf(s: u8, bs: Seq<bool>, n: nat)
    ensures
        decode_bits(Node::Leaf(s), bs, n) == Some(Seq::new(n, |i: int| s)),
    decreases n,
{
    if n > 0 {
        lemma_decode_leaf(s, bs.skip(0), (n - 1) as nat);
        assert(bs.skip(0) =~= bs);
        assert(seq![s] + Seq::new((n - 1) as nat, |i: int| s) =~= Seq::new(n, |i: int| s));
    }
}

/// Walking a code reaches its leaf: decoding bits that start with the code
/// of `b` yields `b` and consumes exactly the code.
proof fn lemma_decode_sym_code(t: Node, b: u8, rest: Seq<bool>)
    requires
        spec_code(t, b) is Some,
    ensures
        decode_sym(t, spec_code(t, b)->Some_0 + rest) == Some((
            b,
            spec_code(t, b)->Some_0.len() as int,
        )),
    decreases t,
{
    let c = spec_code(t, b)->Some_0;
    match t {
        Node::Leaf(_) => {
            assert(c + rest =~= rest);
        }
        Node::Internal(l, r) => {
            match spec_code(*r, b) {
                Some(cr) => {
                    assert(c == seq![true] + cr);
                    assert((c + rest)[0] == true);
                    assert((c + rest).skip(1) =~= cr + rest);
                    lemma_decode_sym_code(*r, b, rest);
                }
                None => {
                    let cl = spec_code(*l, b)->Some_0;
                    assert(c == seq![false] + cl);
                    assert((c + rest)[0] == false);
                    assert((c + rest).skip(1) =~= cl + rest);
                    lemma_decode_sym_code(*l, b, rest);
                }
            }
        }
    }
}

/// The concatenated codes decompose at the front.
proof fn lemma_concat_front(t: Node, data: Seq<u8>)
    requires
        data.len() >= 1,
        forall|i: int| 0 <= i < data.len() ==> spec_code(t, #[trigger] data[i]) is Some,
    ensures
        concat_codes(t, data) == spec_code(t, data[0])->Some_0 + concat_codes(t, data.skip(1)),
    decreases data.len(),
{
    reveal_with_fuel(concat_codes, 3);
    if data.len() == 1 {
        assert(data.drop_last().len() == 0);
        assert(data.skip(1).len() == 0);
        let c = spec_code(t, data[0])->Some_0;
        assert(data.last() == data[0]);
        assert(Seq::<bool>::empty() + c =~= c);
        assert(c + Seq::<bool>::empty() =~= c);
    } else {
        let head = data[0];
        let dl = data.drop_last();
        assert forall|i: int| 0 <= i < dl.len() implies spec_code(t, #[trigger] dl[i]) is Some by {
            assert(dl[i] == data[i]);
        }
        lemma_concat_front(t, dl);
        assert(dl[0] == head);
        assert(data.skip(1).drop_last() =~= dl.skip(1));
        assert(data.skip(1).last() == data.last());
        let ctail = spec_code(t, data.last())->Some_0;
        assert(concat_codes(t, data.skip(1)) == concat_codes(t, dl.skip(1)) + ctail);
        assert(concat_codes(t, data) == (spec_code(t, head)->Some_0 + concat_codes(
            t,
            dl.skip(1),
        )) + ctail);
        assert((spec_code(t, head)->Some_0 + concat_codes(t, dl.skip(1))) + ctail =~= spec_code(
            t,
            head,
        )->Some_0 + (concat_codes(t, dl.skip(1)) + ctail));
    }
}

/// Decoding the concatenated codes of `data`, with anything after them,
/// recovers `data`.
proof fn lemma_decode_concat(t: Node, data: Seq<u8>, pad: Seq<bool>)
    requires
        forall|i: int| 0 <= i < data.len() ==> spec_code(t, #[trigger] data[i]) is Some,
    ensures
        decode_bits(t, concat_codes(t, data) + pad, data.len() as nat) == Some(data),
    decreases data.len(),
{
    if data.len() == 0 {
        assert(data =~= Seq::<u8>::empty());
    } else {
        let c0 = spec_code(t, data[0])->Some_0;
        lemma_concat_front(t, data);
        let bs = concat_codes(t, data) + pad;
        assert(bs =~= c0 + (concat_codes(t, data.skip(1)) + pad));
        lemma_decode_sym_code(t, data[0], concat_codes(t, data.skip(1)) + pad);
        assert(decode_sym(t, bs) == Some((data[0], c0.len() as int)));
        assert(bs.skip(c0.len() as int) =~= concat_codes(t, data.skip(1)) + pad);
        lemma_decode_concat(t, data.skip(1), pad);
        assert(seq![data[0]] + data.skip(1) =~= data);
    }
}

/// Decoding stops short on a proper prefix of a code: the walk runs out of
/// bits before reaching a leaf.
proof fn lemma_decode_sym_short(t: Node, b: u8, m: int)
    requires
        spec_code(t, b) is Some,
        0 <= m < spec_code(t, b)->Some_0.len(),
    ensures
        decode_sym(t, spec_code(t, b)->Some_0.take(m)) is None,
    decreases t,
{
    let c = spec_code(t, b)->Some_0;
    match t {
        Node::Leaf(_) => {}
        Node::Internal(l, r) => {
            if m == 0 {
                assert(c.take(0).len() == 0);
            } else {
                match spec_code(*r, b) {
                    Some(cr) => {
                        assert(c == seq![true] + cr);
                        assert(c.take(m)[0] == true);
                        assert(c.take(m).skip(1) =~= cr.take(m - 1));
                        lemma_decode_sym_short(*r, b, m - 1);
                    }
                    None => {
                        let cl = spec_code(*l, b)->Some_0;
                        assert(c == seq![false] + cl);
                        assert(c.take(m)[0] == false);
                        assert(c.take(m).skip(1) =~= cl.take(m - 1));
                        lemma_decode_sym_short(*l, b, m - 1);
                    }
                }
            }
        }
    }
}

/// A bit stream strictly shorter than the concatenated codes cannot decode
/// all the symbols: decoding fails rather than inventing output.
pub proof fn lemma_decode_short(t: Node, data: Seq<u8>, m: int)
    requires
        forall|i: int| 0 <= i < data.len() ==> spec_code(t, #[trigger] data[i]) is Some,
        0 <= m < concat_codes(t, data).len(),
    ensures
        decode_bits(t, concat_codes(t, data).take(m), data.len() as nat) is None,
    decreases data.len(),
{
    let cc = concat_codes(t, data);
    if data.len() == 0 {
    } else {
        let c0 = spec_code(t, data[0])->Some_0;
        lemma_concat_front(t, data);
        let tailcc = concat_codes(t, data.skip(1));
        if m < c0.len() {
            assert(cc.take(m) =~= c0.take(m));
            lemma_decode_sym_short(t, data[0], m);
        } else {
            assert(cc.take(m) =~= c0 + tailcc.take(m - c0.len()));
            lemma_decode_sym_code(t, data[0], tailcc.take(m - c0.len()));
            assert(decode_sym(t, cc.take(m)) == Some((data[0], c0.len() as int)));
            assert(cc.take(m).skip(c0.len() as int) =~= tailcc.take(m - c0.len()));
            assert(m - c0.len() < tailcc.len());
            lemma_decode_short(t, data.skip(1), m - c0.len());
        }
    }
}

/// Huffman round trip: for every byte buffer, decoding the compressed
/// payload with the built tree and the original length recovers the buffer
/// exactly — including the empty buffer and the one-symbol alphabet.
pub proof fn lemma_huffman_round_trip(data: Seq<u8>)
    ensures
        huff_decode(spec_huffman_tree(data), spec_huffman_payload(data), data.len() as nat)
            == Some(data),
{
    if data.len() == 0 {
        assert(data =~= Seq::<u8>::empty());
    } else {
        let t = spec_build_tree(data);
        lemma_build_tree_symbols(data);
        assert forall|i: int| 0 <= i < data.len() implies spec_code(
            t,
            #[trigger] data[i],
        ) is Some by {
            lemma_count_pos(data, i);
        }
        match t {
            Node::Leaf(s) => {
                assert(unpack_bits(Seq::<u8>::empty()) =~= Seq::<bool>::empty());
                lemma_decode_leaf(s, Seq::empty(), data.len() as nat);
                assert(Seq::new(data.len() as nat, |i: int| s) =~= data) by {
                    assert(forall|i: int|
                        0 <= i < data.len() ==> spec_code(t, #[trigger] data[i]) is Some);
                }
            }
            Node::Internal(_, _) => {
                let cc = concat_codes(t, data);
                let full = unpack_bits(pack_bits(cc));
                lemma_unpack_pack(cc);
                assert(full =~= cc + full.skip(cc.len() as int)) by {
                    assert(forall|i: int|
                        0 <= i < cc.len() ==> full[i] == crate::bits::padded_bit(cc, i));
                }
                lemma_decode_concat(t, data, full.skip(cc.len() as int));
            }
        }
    }
}

} // verus!
