//! The match finder: greedy longest-match search over a bounded sliding
//! window, emitting (distance, length, literal) tokens, and the replay that
//! reconstructs the exact original bytes.

use vstd::prelude::*;
use vstd::assert_seqs_equal;
use crate::CodecError;

verus! {

/// How far back a match may reference.
pub const WINDOW_SIZE: usize = 1024;

/// Matches shorter than this cost more serialized than the literals they
/// replace, so they are not emitted.
pub const MIN_MATCH: usize = 3;

/// An LZ77 token.  `dist == 0 && len == 0` is a literal-only token carrying
/// one unmatched byte; otherwise `dist >= 1` is the backward offset to the
/// start of a run of `len` bytes to copy, followed by the one literal byte
/// emitted after the copy.
#[derive(Clone, Copy, Debug, PartialEq, Eq, Structural)]
pub struct Token {
    pub dist: u32,
    pub len: u32,
    pub lit: u8,
}

/// One back-reference copy: append `len` bytes, each read `dist` back from
/// the current end, so an overlapping copy re-reads bytes it just wrote.
pub open spec fn copy_back(out: Seq<u8>, dist: int, len: nat) -> Seq<u8>
    decreases len,
{
    if len == 0 {
        out
    } else {
        copy_back(out.push(out[out.len() - dist]), dist, (len - 1) as nat)
    }
}

/// Replays `tokens` in order onto `acc`: `None` exactly when some token's
/// distance is zero with a nonzero length, or exceeds the output produced so
/// far — a corrupt stream.
pub open spec fn lz_decode(tokens: Seq<Token>, acc: Seq<u8>) -> Option<Seq<u8>>
    decreases tokens.len(),
{
    if tokens.len() == 0 {
        Some(acc)
    } else {
        let t = tokens[0];
        if t.dist == 0 && t.len == 0 {
            lz_decode(tokens.skip(1), acc.push(t.lit))
        } else if 1 <= t.dist && t.dist <= acc.len() {
            lz_decode(tokens.skip(1), copy_back(acc, t.dist as int, t.len as nat).push(t.lit))
        } else {
            None
        }
    }
}

/// Length of the common run of `data` read at `j` and at `i`, capped so
/// that at least one byte after the run remains to become the token's
/// trailing literal.
pub open spec fn run_len(data: Seq<u8>, j: int, i: int) -> nat
    decreases data.len() - i,
{
    if !(0 <= j < i < data.len()) {
        0
    } else if i + 1 >= data.len() {
        0
    } else if data[j] != data[i] {
        0
    } else {
        1 + run_len(data, j + 1, i + 1)
    }
}

/// The best match for position `i`: scans candidate start positions from
/// `j` upward, keeping the first strictly longest run; `(bd, bl)` is the
/// best found so far, returned as (distance, length).
pub open spec fn best_from(data: Seq<u8>, i: int, j: int, bd: nat, bl: nat) -> (nat, nat)
    decreases i - j,
{
    if !(0 <= j < i) {
        (bd, bl)
    } else {
        let k = run_len(data, j, i);
        if k > bl {
            best_from(data, i, j + 1, (i - j) as nat, k)
        } else {
            best_from(data, i, j + 1, bd, bl)
        }
    }
}

/// The first window position the search may reference from position `i`.
pub open spec fn window_start(i: int) -> int {
    if i >= WINDOW_SIZE {
        i - WINDOW_SIZE
    } else {
        0
    }
}

/// The greedy token sequence for `data` from position `i` on: the longest
/// window match is emitted as a copy token when it reaches `MIN_MATCH`,
/// else one literal token.
pub open spec fn spec_tokens(data: Seq<u8>, i: int) -> Seq<Token>
    decreases data.len() - i,
{
    if !(0 <= i < data.len()) {
        Seq::empty()
    } else {
        let b = best_from(data, i, window_start(i), 0, 0);
        if b.1 >= MIN_MATCH {
            let lit = if i + b.1 < data.len() {
                data[i + b.1]
            } else {
                0
            };
            let next = if i + b.1 + 1 <= data.len() {
                i + b.1 + 1
            } else {
                data.len() as int
            };
            seq![Token { dist: b.0 as u32, len: b.1 as u32, lit }] + spec_tokens(data, next)
        } else {
            seq![Token { dist: 0, len: 0, lit: data[i] }] + spec_tokens(data, i + 1)
        }
    }
}

/// A run never reaches the last byte, and its two reads agree byte for byte.
proof fn lemma_run_props(data: Seq<u8>, j: int, i: int)
    requires
        0 <= j < i < data.len(),
    ensures
        run_len(data, j, i) <= data.len() - 1 - i,
        ({
            let r = run_len(data, j, i) as int;
            data.subrange(j, j + r) == data.subrange(i, i + r)
        }),
    decreases data.len() - i,
{
    let r = run_len(data, j, i) as int;
    if i + 1 < data.len() && data[j] == data[i] {
        lemma_run_props(data, j + 1, i + 1);
        let r1 = run_len(data, j + 1, i + 1) as int;
        assert_seqs_equal!(data.subrange(j, j + r) == data.subrange(i, i + r), k => {
            if k > 0 {
                assert(data.subrange(j + 1, j + 1 + r1)[k - 1] == data.subrange(
                    i + 1,
                    i + 1 + r1,
                )[k - 1]);
            }
        });
    } else {
        assert(data.subrange(j, j) =~= data.subrange(i, i));
    }
}

/// The search keeps its result valid: a positive length names a real run at
/// distance `bd`, no farther back than the window bound `w`.
proof fn lemma_best_valid(data: Seq<u8>, i: int, j: int, w: int, bd: nat, bl: nat)
    requires
        0 <= w <= j <= i < data.len(),
        bl > 0 ==> 1 <= bd <= i - w && run_len(data, i - bd, i) == bl,
    ensures
        ({
            let b = best_from(data, i, j, bd, bl);
            b.1 > 0 ==> 1 <= b.0 <= i - w && run_len(data, i - b.0, i) == b.1
        }),
    decreases i - j,
{
    if j < i {
        let k = run_len(data, j, i);
        if k > bl {
            lemma_best_valid(data, i, j + 1, w, (i - j) as nat, k);
        } else {
            lemma_best_valid(data, i, j + 1, w, bd, bl);
        }
    }
}

/// Copying a run that matches the upcoming bytes extends the decoded prefix
/// exactly over the run, overlap included.
proof fn lemma_copy_back_match(data: Seq<u8>, i: int, dist: int, len: nat)
    requires
        1 <= dist <= i,
        i + len <= data.len(),
        data.subrange(i - dist, i - dist + len) == data.subrange(i, i + len),
    ensures
        copy_back(data.take(i), dist, len) == data.take(i + len),
    decreases len,
{
    if len == 0 {
        assert(data.take(i) =~= data.take(i + 0));
    } else {
        let acc = data.take(i);
        assert(data.subrange(i - dist, i - dist + len)[0] == data.subrange(i, i + len)[0]);
        assert(data.subrange(i - dist, i - dist + len)[0] == data[i - dist]);
        assert(data.subrange(i, i + len)[0] == data[i]);
        assert(acc[acc.len() - dist] == data[i - dist]);
        assert(acc.push(data[i]) =~= data.take(i + 1));
        assert_seqs_equal!(
            data.subrange((i + 1) - dist, (i + 1) - dist + (len - 1))
                == data.subrange(i + 1, i + 1 + (len - 1)),
            k => {
                assert(data.subrange(i - dist, i - dist + len)[k + 1] == data.subrange(
                    i,
                    i + len,
                )[k + 1]);
                assert(data.subrange(i - dist, i - dist + len)[k + 1] == data[i - dist + k + 1]);
                assert(data.subrange(i, i + len)[k + 1] == data[i + k + 1]);
                assert(data.subrange((i + 1) - dist, (i + 1) - dist + (len - 1))[k] == data[(i
                    + 1) - dist + k]);
                assert(data.subrange(i + 1, i + 1 + (len - 1))[k] == data[i + 1 + k]);
            }
        );
        lemma_copy_back_match(data, i + 1, dist, (len - 1) as nat);
    }
}

/// Replaying the greedy tokens from position `i` onto the already-decoded
/// prefix reconstructs all of `data`.
proof fn lemma_lz_round_trip_from(data: Seq<u8>, i: int)
    requires
        data.len() <= 0xFFFF_FFFF,
        0 <= i <= data.len(),
    ensures
        lz_decode(spec_tokens(data, i), data.take(i)) == Some(data),
    decreases data.len() - i,
{
    if i == data.len() {
        assert(data.take(i) =~= data);
    } else {
        let ws = window_start(i);
        let b = best_from(data, i, ws, 0, 0);
        if b.1 >= MIN_MATCH {
            lemma_best_valid(data, i, ws, ws, 0, 0);
            lemma_run_props(data, (i - b.0) as int, i);
            assert(b.1 <= data.len() - 1 - i);
            let tok = Token { dist: b.0 as u32, len: b.1 as u32, lit: data[i + b.1] };
            let rest = spec_tokens(data, i + b.1 + 1);
            assert(spec_tokens(data, i) == seq![tok] + rest);
            assert((seq![tok] + rest)[0] == tok);
            assert((seq![tok] + rest).skip(1) =~= rest);
            assert(b.0 <= i - ws);
            assert(tok.dist as int == b.0 && tok.len as nat == b.1);
            lemma_copy_back_match(data, i, b.0 as int, b.1);
            assert(copy_back(data.take(i), tok.dist as int, tok.len as nat).push(tok.lit)
                =~= data.take(i + b.1 + 1));
            lemma_lz_round_trip_from(data, i + b.1 + 1);
        } else {
            let tok = Token { dist: 0, len: 0, lit: data[i] };
            let rest = spec_tokens(data, i + 1);
            assert(spec_tokens(data, i) == seq![tok] + rest);
            assert((seq![tok] + rest)[0] == tok);
            assert((seq![tok] + rest).skip(1) =~= rest);
            assert(data.take(i).push(data[i]) =~= data.take(i + 1));
            lemma_lz_round_trip_from(data, i + 1);
        }
    }
}

/// LZ77 round trip: replaying the greedy token stream reconstructs the
/// input exactly, including inputs that force overlapping self-referential
/// copies.
pub proof fn lemma_lz77_round_trip(data: Seq<u8>)
    requires
        data.len() <= 0xFFFF_FFFF,
    ensures
        lz_decode(spec_tokens(data, 0), Seq::empty()) == Some(data),
{
    lemma_lz_round_trip_from(data, 0);
    assert(data.take(0) =~= Seq::<u8>::empty());
}

/// Every token advances at least one position, so there are never more
/// tokens than input bytes.
pub proof fn lemma_spec_tokens_len(data: Seq<u8>, i: int)
    requires
        0 <= i <= data.len(),
    ensures
        spec_tokens(data, i).len() <= data.len() - i,
    decreases data.len() - i,
{
    if i < data.len() {
        let b = best_from(data, i, window_start(i), 0, 0);
        if b.1 >= MIN_MATCH {
            let next = if i + b.1 + 1 <= data.len() {
                i + b.1 + 1
            } else {
                data.len() as int
            };
            lemma_spec_tokens_len(data, next);
        } else {
            lemma_spec_tokens_len(data, i + 1);
        }
    }
}

/// Scans left to right; at each position searches the window for the
/// longest run matching the upcoming bytes (first-found wins ties), emitting
/// a copy token when it reaches `MIN_MATCH` and a literal token otherwise.
/// The token stream is a function of `data` alone.
pub fn lz77_compress(data: &Vec<u8>) -> (r: Vec<Token>)
    requires
        data@.len() <= 0xFFFF_FFFF,
    ensures
        r@ == spec_tokens(data@, 0),
{
    let n = data.len();
    let mut out: Vec<Token> = Vec::new();
    let mut i: usize = 0;
    while i < n
        invariant
            n == data@.len() <= 0xFFFF_FFFF,
            i <= n,
            out@ + spec_tokens(data@, i as int) == spec_tokens(data@, 0),
        decreases n - i,
    {
        let search_start = if i >= WINDOW_SIZE {
            i - WINDOW_SIZE
        } else {
            0
        };
        assert(search_start == window_start(i as int));
        let mut match_len: usize = 0;
        let mut match_dist: usize = 0;
        let mut j: usize = search_start;
        while j < i
            invariant
                n == data@.len() <= 0xFFFF_FFFF,
                search_start <= j <= i < n,
                best_from(data@, i as int, j as int, match_dist as nat, match_len as nat)
                    == best_from(data@, i as int, search_start as int, 0, 0),
                match_len > 0 ==> 1 <= match_dist <= i - search_start && run_len(
                    data@,
                    i - match_dist,
                    i as int,
                ) == match_len,
                match_len == 0 ==> match_dist == 0,
            decreases i - j,
        {
            let mut k: usize = 0;
            while i + k + 1 < n && data[j + k] == data[i + k]
                invariant
                    n == data@.len(),
                    0 <= j < i < n,
                    i + k < n,
                    run_len(data@, j as int, i as int) == k + run_len(
                        data@,
                        j + k,
                        i + k,
                    ),
                decreases n - i - k,
            {
                k = k + 1;
            }
            proof {
                assert(run_len(data@, j + k, i + k) == 0);
            }
            if k > match_len {
                match_len = k;
                match_dist = i - j;
                proof {
                    lemma_run_props(data@, j as int, i as int);
                }
            }
            j = j + 1;
        }
        proof {
            assert(best_from(data@, i as int, i as int, match_dist as nat, match_len as nat) == (
            match_dist as nat,
            match_len as nat,
            ));
        }
        let ghost toks_before = out@;
        if match_len >= MIN_MATCH {
            proof {
                lemma_run_props(data@, i - match_dist, i as int);
                assert(match_len <= n - 1 - i);
            }
            let lit = data[i + match_len];
            let tok = Token { dist: match_dist as u32, len: match_len as u32, lit };
            out.push(tok);
            proof {
                let rest = spec_tokens(data@, i + match_len + 1);
                assert(spec_tokens(data@, i as int) == seq![tok] + rest);
                assert(out@ =~= toks_before + seq![tok]);
                assert((toks_before + seq![tok]) + rest =~= toks_before + (seq![tok] + rest));
            }
            i = i + match_len + 1;
        } else {
            let tok = Token { dist: 0, len: 0, lit: data[i] };
            out.push(tok);
            proof {
                let rest = spec_tokens(data@, i + 1);
                assert(spec_tokens(data@, i as int) == seq![tok] + rest);
                assert(out@ =~= toks_before + seq![tok]);
                assert((toks_before + seq![tok]) + rest =~= toks_before + (seq![tok] + rest));
            }
            i = i + 1;
        }
    }
    proof {
        assert(out@ + spec_tokens(data@, n as int) =~= out@);
    }
    out
}

/// Appending one byte to a partial back-reference copy.
proof fn lemma_copy_back_snoc(out: Seq<u8>, dist: int, m: nat)
    requires
        1 <= dist <= out.len(),
    ensures
        copy_back(out, dist, m + 1) == copy_back(out, dist, m).push(
            copy_back(out, dist, m)[copy_back(out, dist, m).len() - dist],
        ),
        copy_back(out, dist, m).len() == out.len() + m,
    decreases m,
{
    reveal_with_fuel(copy_back, 3);
    if m == 0 {
    } else {
        lemma_copy_back_snoc(out.push(out[out.len() - dist]), dist, (m - 1) as nat);
    }
}

/// Replays tokens in order into a growing buffer: copies proceed byte by
/// byte so that overlapping self-references read freshly written bytes.
/// Fails with `InvalidBackReference` exactly when a token's distance is
/// zero with a nonzero length or exceeds the output decoded so far.
pub fn lz77_decompress(tokens: &Vec<Token>) -> (r: Result<Vec<u8>, CodecError>)
    ensures
        match r {
            Ok(v) => lz_decode(tokens@, Seq::empty()) == Some(v@),
            Err(e) => {
                &&& e == CodecError::InvalidBackReference
                &&& lz_decode(tokens@, Seq::empty()) is None
            },
        },
{
    let mut out: Vec<u8> = Vec::new();
    let mut ti: usize = 0;
    proof {
        assert(tokens@.skip(0) =~= tokens@);
    }
    while ti < tokens.len()
        invariant
            ti <= tokens@.len(),
            lz_decode(tokens@, Seq::empty()) == lz_decode(tokens@.skip(ti as int), out@),
        decreases tokens@.len() - ti,
    {
        let t = tokens[ti];
        proof {
            assert(tokens@.skip(ti as int)[0] == tokens@[ti as int]);
            assert(tokens@.skip(ti as int).skip(1) =~= tokens@.skip(ti + 1));
        }
        if t.dist == 0 && t.len == 0 {
            out.push(t.lit);
        } else if 1 <= t.dist && (t.dist as usize) <= out.len() {
            let dist = t.dist as usize;
            let ghost out0 = out@;
            let len = t.len as usize;
            let mut m: usize = 0;
            while m < len
                invariant
                    m <= len,
                    1 <= dist <= out0.len(),
                    out@ == copy_back(out0, dist as int, m as nat),
                    out@.len() == out0.len() + m,
                decreases len - m,
            {
                proof {
                    lemma_copy_back_snoc(out0, dist as int, m as nat);
                }
                let cur = out.len();
                let b = out[cur - dist];
                out.push(b);
                m = m + 1;
            }
            out.push(t.lit);
        } else {
            return Err(CodecError::InvalidBackReference);
        }
        ti = ti + 1;
    }
    proof {
        assert(tokens@.skip(tokens@.len() as int).len() == 0);
    }
    Ok(out)
}

} // verus!
