use vstd::prelude::*;

use crate::window::{copy_match, copied, reference_out_of_reach};
use crate::ZERR;

verus! {

/// Shortest back-reference worth sending.
pub const MIN_MATCH: usize = 3;

/// Longest back-reference deflate can send.
pub const MAX_MATCH: usize = 258;

/// One step of LZ77 output: a byte as it is, or a back-reference of a length
/// and a distance.
#[derive(Clone, Copy, Debug, PartialEq, Eq, Structural)]
pub enum Token {
    Literal(u8),
    Match(usize, usize),
}

/// The output after one more token, with a window of `wsize` bytes: a
/// back-reference outside the bytes produced or the window, or with a length
/// outside 3..=258, is a data error.
pub open spec fn apply_token(out: Seq<u8>, t: Token, wsize: nat) -> Result<Seq<u8>, ZERR> {
    match t {
        Token::Literal(b) => Ok(out.push(b)),
        Token::Match(len, dist) => {
            if len < 3 || len > 258 || reference_out_of_reach(out.len(), dist as nat, wsize) {
                Err(ZERR::DataError)
            } else {
                Ok(copied(out, dist as nat, len as nat))
            }
        },
    }
}

/// The output after a run of tokens, or the first error.
pub open spec fn apply_tokens(out: Seq<u8>, ts: Seq<Token>, wsize: nat) -> Result<Seq<u8>, ZERR>
    decreases ts.len(),
{
    if ts.len() == 0 {
        Ok(out)
    } else {
        match apply_tokens(out, ts.drop_last(), wsize) {
            Ok(o) => apply_token(o, ts.last(), wsize),
            Err(e) => Err(e),
        }
    }
}

proof fn lemma_error_persists(out: Seq<u8>, ts: Seq<Token>, k: int, wsize: nat)
    requires
        0 <= k <= ts.len(),
        apply_tokens(out, ts.take(k), wsize) is Err,
    ensures
        apply_tokens(out, ts, wsize) == apply_tokens(out, ts.take(k), wsize),
    decreases ts.len(),
{
    if k == ts.len() {
        assert(ts.take(k) =~= ts);
    } else {
        assert(ts.drop_last().take(k) =~= ts.take(k));
        lemma_error_persists(out, ts.drop_last(), k, wsize);
    }
}

/// Expands tokens into bytes, resolving each back-reference against the
/// bytes already produced within a window of `wsize` bytes.
pub fn expand_tokens(tokens: &Vec<Token>, wsize: usize) -> (r: Result<Vec<u8>, ZERR>)
    requires
        tokens@.len() * 258 <= usize::MAX,
    ensures
        r matches Ok(v) ==> apply_tokens(Seq::empty(), tokens@, wsize as nat) == Ok::<
            Seq<u8>,
            ZERR,
        >(v@),
        r matches Err(e) ==> apply_tokens(Seq::empty(), tokens@, wsize as nat) == Err::<
            Seq<u8>,
            ZERR,
        >(e),
{
    let mut out: Vec<u8> = Vec::new();
    let mut i: usize = 0;
    assert(tokens@.take(0) =~= Seq::<Token>::empty());
    while i < tokens.len()
        invariant
            i <= tokens@.len(),
            tokens@.len() * 258 <= usize::MAX,
            out@.len() <= i * 258,
            apply_tokens(Seq::empty(), tokens@.take(i as int), wsize as nat) == Ok::<
                Seq<u8>,
                ZERR,
            >(out@),
        decreases tokens@.len() - i,
    {
        assert(tokens@.take(i + 1).drop_last() =~= tokens@.take(i as int));
        match tokens[i] {
            Token::Literal(b) => {
                out.push(b);
            },
            Token::Match(len, dist) => {
                if len < MIN_MATCH || len > MAX_MATCH {
                    proof {
                        lemma_error_persists(Seq::empty(), tokens@, i + 1, wsize as nat);
                    }
                    return Err(ZERR::DataError);
                }
                assert(out@.len() + len <= (i + 1) * 258) by (nonlinear_arith)
                    requires
                        out@.len() <= i * 258,
                        len <= 258,
                ;
                assert((i + 1) * 258 <= tokens@.len() * 258) by (nonlinear_arith)
                    requires
                        i < tokens@.len(),
                ;
                let res = copy_match(&mut out, dist, len, wsize);
                if res != ZERR::Success {
                    proof {
                        lemma_error_persists(Seq::empty(), tokens@, i + 1, wsize as nat);
                    }
                    return Err(res);
                }
            },
        }
        i = i + 1;
    }
    assert(tokens@.take(i as int) =~= tokens@);
    Ok(out)
}

/// The `len` bytes at `pos` repeat the bytes `dist` places before them.
pub open spec fn matches_at(data: Seq<u8>, pos: int, dist: int, len: int) -> bool {
    forall|k: int| 0 <= k < len ==> #[trigger] data[pos + k] == data[pos + k - dist]
}

/// No distance from 1 to `limit` gives a match at `pos` longer than `best`
/// (counting anything under 3 as 2), within the data and within 258 bytes.
pub open spec fn none_longer(data: Seq<u8>, pos: int, limit: int, best: int) -> bool {
    forall|d: int|
        1 <= d <= limit ==> !(best < 258 && pos + best + 1 <= data.len() && #[trigger] matches_at(
            data,
            pos,
            d,
            best + 1,
        ))
}

/// Finds the longest back-reference for the bytes at `pos`, trying the
/// distances 1 to `limit` (the nearest first) where `limit` is the smallest of
/// `pos`, the window size and the search depth. Returns `(length, distance)`
/// with the smallest distance among the longest matches, or `(0, 0)` when no
/// match reaches 3 bytes.
pub fn longest_match(data: &[u8], pos: usize, wsize: usize, depth: usize) -> (r: (usize, usize))
    requires
        pos <= data@.len(),
    ensures
        r.0 == 0 ==> r.1 == 0 && none_longer(
            data@,
            pos as int,
            min3(pos as int, wsize as int, depth as int),
            2,
        ),
        r.0 != 0 ==> 3 <= r.0 <= 258 && 1 <= r.1 <= min3(pos as int, wsize as int, depth as int)
            && pos + r.0 <= data@.len() && matches_at(data@, pos as int, r.1 as int, r.0 as int)
            && none_longer(data@, pos as int, min3(pos as int, wsize as int, depth as int), r.0 as int)
            && forall|d: int|
            1 <= d < r.1 ==> !matches_at(data@, pos as int, d, r.0 as int),
{
    let limit: usize = if pos <= wsize && pos <= depth {
        pos
    } else if wsize <= depth {
        wsize
    } else {
        depth
    };
    let n = data.len();
    let mut best_len: usize = 2;
    let mut best_dist: usize = 0;
    let mut tried: usize = 0;
    while tried < limit
        invariant
            tried <= limit,
            n == data@.len(),
            limit == min3(pos as int, wsize as int, depth as int),
            limit <= pos <= n,
            2 <= best_len <= 258,
            best_len > 2 ==> 1 <= best_dist <= tried && pos + best_len <= n && matches_at(
                data@,
                pos as int,
                best_dist as int,
                best_len as int,
            ) && forall|e: int| 1 <= e < best_dist ==> !matches_at(data@, pos as int, e, best_len as int),
            best_len == 2 ==> best_dist == 0,
            none_longer(data@, pos as int, tried as int, best_len as int),
        decreases limit - tried,
    {
        let d: usize = tried + 1;
        let mut l: usize = 0;
        while l < MAX_MATCH && pos + l < n && data[pos + l] == data[pos + l - d]
            invariant
                n == data@.len(),
                1 <= d <= pos <= n,
                l <= 258,
                pos + l <= n,
                matches_at(data@, pos as int, d as int, l as int),
            decreases 258 - l,
        {
            l = l + 1;
        }
        let ghost old_best = best_len;
        if l > best_len {
            best_len = l;
            best_dist = d;
            assert forall|e: int| 1 <= e < best_dist implies !#[trigger] matches_at(
                data@,
                pos as int,
                e,
                best_len as int,
            ) by {
                if matches_at(data@, pos as int, e, best_len as int) {
                    assert(matches_at(data@, pos as int, e, old_best + 1));
                }
            }
        }
        assert forall|e: int|
            1 <= e <= d implies !(best_len < 258 && pos + best_len + 1 <= data@.len()
            && #[trigger] matches_at(data@, pos as int, e, best_len + 1)) by {
            if e < d {
                if best_len < 258 && pos + best_len + 1 <= data@.len() && matches_at(
                    data@,
                    pos as int,
                    e,
                    best_len + 1,
                ) {
                    assert(matches_at(data@, pos as int, e, old_best + 1));
                }
            } else {
                if best_len < 258 && pos + best_len + 1 <= data@.len() && matches_at(
                    data@,
                    pos as int,
                    e,
                    best_len + 1,
                ) {
                    assert(data@[pos + l] == data@[pos + l - d]);
                }
            }
        }
        tried = d;
    }
    if best_len < MIN_MATCH {
        (0, 0)
    } else {
        (best_len, best_dist)
    }
}

proof fn lemma_copied_repeats(data: Seq<u8>, pos: int, dist: int, len: int)
    requires
        1 <= dist <= pos,
        0 <= len,
        pos + len <= data.len(),
        matches_at(data, pos, dist, len),
    ensures
        copied(data.take(pos), dist as nat, len as nat) == data.take(pos + len),
    decreases len,
{
    if len > 0 {
        assert(matches_at(data, pos, dist, len - 1));
        lemma_copied_repeats(data, pos, dist, len - 1);
        assert(data[pos + (len - 1)] == data[pos + (len - 1) - dist]);
        assert(data.take(pos + len - 1).push(data[pos + len - 1 - dist]) =~= data.take(pos + len));
    }
}

/// Turns data into LZ77 tokens: at each position the longest match within
/// the window of `wsize` bytes and the search depth `depth` is sent as a
/// back-reference, and a position without a match of 3 bytes as a literal.
/// With `lazy`, a match is put off by one literal when the match at the next
/// position is strictly longer. Expanding the tokens gives back the data.
pub fn lz77_tokens(data: &[u8], wsize: usize, depth: usize, lazy: bool) -> (r: Vec<Token>)
    ensures
        apply_tokens(Seq::empty(), r@, wsize as nat) == Ok::<Seq<u8>, ZERR>(data@),
        r@.len() <= data@.len(),
        forall|k: int|
            0 <= k < r@.len() ==> (#[trigger] r@[k] matches Token::Match(l, d) ==> 3 <= l <= 258
                && 1 <= d <= wsize),
        depth == 0 ==> forall|k: int| 0 <= k < r@.len() ==> #[trigger] r@[k] is Literal,
{
    let n = data.len();
    let mut tokens: Vec<Token> = Vec::new();
    let mut pos: usize = 0;
    assert(data@.take(0) =~= Seq::<u8>::empty());
    while pos < n
        invariant
            n == data@.len(),
            pos <= n,
            tokens@.len() <= pos,
            apply_tokens(Seq::empty(), tokens@, wsize as nat) == Ok::<Seq<u8>, ZERR>(
                data@.take(pos as int),
            ),
            depth == 0 ==> forall|k: int| 0 <= k < tokens@.len() ==> #[trigger] tokens@[k] is Literal,
            forall|k: int|
                0 <= k < tokens@.len() ==> (#[trigger] tokens@[k] matches Token::Match(l, d) ==> 3
                    <= l <= 258 && 1 <= d <= wsize),
        decreases n - pos,
    {
        let (len, dist) = longest_match(data, pos, wsize, depth);
        let mut take_match = len >= MIN_MATCH;
        if take_match && lazy && pos + 1 < n {
            let (next_len, _next_dist) = longest_match(data, pos + 1, wsize, depth);
            if next_len > len {
                take_match = false;
            }
        }
        let ghost before = tokens@;
        if take_match {
            proof {
                lemma_copied_repeats(data@, pos as int, dist as int, len as int);
            }
            tokens.push(Token::Match(len, dist));
            assert(tokens@.drop_last() =~= before);
            pos = pos + len;
        } else {
            tokens.push(Token::Literal(data[pos]));
            assert(tokens@.drop_last() =~= before);
            assert(data@.take(pos as int).push(data@[pos as int]) =~= data@.take(pos + 1));
            pos = pos + 1;
        }
    }
    assert(data@.take(n as int) =~= data@);
    tokens
}

/// The smallest of three numbers.
pub open spec fn min3(a: int, b: int, c: int) -> int {
    if a <= b && a <= c {
        a
    } else if b <= c {
        b
    } else {
        c
    }
}

} // verus!
