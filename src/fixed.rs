use vstd::prelude::*;

use crate::bits::{bytes_bits, lsb_value, msb_value, read_bit, read_bits, read_msb, value_bits, zero_bits, BitWriter};
use crate::codes::{
    distance_base,
    distance_extra,
    distance_symbol,
    distance_code_info,
    distance_symbol_from,
    length_base,
    length_code_info,
    length_extra,
    length_symbol,
    length_symbol_of,
    pow2_u32,
};
use crate::huffman::{lemma_two_pow_15, lemma_two_pow_le, two_pow};
use crate::lz77::{apply_token, apply_tokens, lz77_tokens, Token};
use crate::window::copy_match;
use crate::ZERR;

verus! {

/// The fixed literal/length code of RFC 1951 for symbol `sym` (0 to 287):
/// the code and its length in bits. It is the canonical code for the
/// lengths 8 (0-143), 9 (144-255), 7 (256-279) and 8 (280-287).
pub open spec fn fixed_code(sym: int) -> (nat, nat) {
    if sym < 144 {
        ((0x30 + sym) as nat, 8)
    } else if sym < 256 {
        ((0x190 + sym - 144) as nat, 9)
    } else if sym < 280 {
        ((sym - 256) as nat, 7)
    } else {
        ((0xc0 + sym - 280) as nat, 8)
    }
}

/// The `n` bits of `code`, most significant first: how Huffman codes go out.
pub open spec fn msb_bits(code: nat, n: nat) -> Seq<bool> {
    Seq::new(n, |k: int| (code / two_pow((n - 1 - k) as nat)) % 2 == 1)
}

/// The bits of one symbol of the fixed literal/length code.
pub open spec fn symbol_bits(sym: int) -> Seq<bool> {
    msb_bits(fixed_code(sym).0, fixed_code(sym).1)
}

/// The bits of one token in a fixed-code block: a literal's code; or the
/// length symbol's code, the length's extra bits, the 5-bit distance code and
/// the distance's extra bits.
pub open spec fn token_bits(t: Token) -> Seq<bool> {
    match t {
        Token::Literal(b) => symbol_bits(b as int),
        Token::Match(len, dist) => {
            let ls = length_symbol_of(len as int);
            let ds = distance_symbol_from(dist as int, 0);
            symbol_bits(ls) + value_bits((len - length_base(ls)) as u32, length_extra(ls))
                + msb_bits(ds as nat, 5) + value_bits(
                (dist - distance_base(ds)) as u32,
                distance_extra(ds),
            )
        },
    }
}

/// The bits of a run of tokens, one after another.
pub open spec fn tokens_bits(ts: Seq<Token>) -> Seq<bool>
    decreases ts.len(),
{
    if ts.len() == 0 {
        Seq::empty()
    } else {
        tokens_bits(ts.drop_last()) + token_bits(ts.last())
    }
}

/// A whole fixed-code block: the last-block bit, the block type 1 in two
/// bits, the tokens, and the end-of-block symbol 256.
pub open spec fn fixed_block_bits(ts: Seq<Token>, last: bool) -> Seq<bool> {
    value_bits(if last {
        1
    } else {
        0
    }, 1) + value_bits(1, 2) + tokens_bits(ts) + symbol_bits(256)
}

/// Tokens that a fixed-code block can carry: lengths 3 to 258, distances 1
/// to 32768.
pub open spec fn tokens_encodable(ts: Seq<Token>) -> bool {
    forall|k: int|
        0 <= k < ts.len() ==> (#[trigger] ts[k] matches Token::Match(l, d) ==> 3 <= l <= 258 && 1
            <= d <= 32768)
}

/// Writes the `n` bits of `code`, most significant first.
fn write_code(w: &mut BitWriter, code: u32, n: u32)
    requires
        old(w).wf(),
        n <= 16,
    ensures
        final(w).wf(),
        final(w).written() == old(w).written() + msb_bits(code as nat, n as nat),
{
    let ghost start = w.written();
    let mut k: u32 = 0;
    while k < n
        invariant
            k <= n <= 16,
            w.wf(),
            w.written() == start + msb_bits(code as nat, n as nat).take(k as int),
        decreases n - k,
    {
        proof {
            lemma_two_pow_le((n - 1 - k) as nat, 15);
            lemma_two_pow_15();
        }
        let p = pow2_u32(n - 1 - k);
        let bit = (code / p) % 2 == 1;
        w.write_bit(bit);
        assert(start + msb_bits(code as nat, n as nat).take(k + 1) =~= (start + msb_bits(
            code as nat,
            n as nat,
        ).take(k as int)).push(bit));
        k = k + 1;
    }
    assert(msb_bits(code as nat, n as nat).take(n as int) =~= msb_bits(code as nat, n as nat));
}

/// Writes the fixed code of literal/length symbol `sym`.
fn write_symbol(w: &mut BitWriter, sym: u32)
    requires
        old(w).wf(),
        sym <= 287,
    ensures
        final(w).wf(),
        final(w).written() == old(w).written() + symbol_bits(sym as int),
{
    if sym < 144 {
        write_code(w, 0x30 + sym, 8);
    } else if sym < 256 {
        write_code(w, 0x190 + sym - 144, 9);
    } else if sym < 280 {
        write_code(w, sym - 256, 7);
    } else {
        write_code(w, 0xc0 + sym - 280, 8);
    }
}

/// Writes one block coded with the fixed Huffman codes of RFC 1951: its
/// header, each token, and the end-of-block symbol.
pub fn encode_fixed_block(w: &mut BitWriter, tokens: &Vec<Token>, last: bool)
    requires
        old(w).wf(),
        tokens_encodable(tokens@),
    ensures
        final(w).wf(),
        final(w).written() == old(w).written() + fixed_block_bits(tokens@, last),
{
    let ghost start = w.written();
    w.write_bits(if last {
        1
    } else {
        0
    }, 1);
    w.write_bits(1, 2);
    let ghost head = w.written();
    let mut i: usize = 0;
    assert(tokens@.take(0) =~= Seq::<Token>::empty());
    assert(head + tokens_bits(Seq::<Token>::empty()) =~= head);
    while i < tokens.len()
        invariant
            i <= tokens@.len(),
            tokens_encodable(tokens@),
            w.wf(),
            w.written() == head + tokens_bits(tokens@.take(i as int)),
        decreases tokens@.len() - i,
    {
        let ghost before = w.written();
        let t = tokens[i];
        assert(tokens@[i as int] == t);
        match t {
            Token::Literal(b) => {
                write_symbol(w, b as u32);
            },
            Token::Match(len, dist) => {
                let (ls, le, lv) = length_symbol(len as u32);
                let (ds, de, dv) = distance_symbol(dist as u32);
                proof {
                    lemma_two_pow_15();
                    assert(le <= 5);
                    assert(de <= 13);
                }
                write_symbol(w, ls as u32);
                w.write_bits(lv, le as usize);
                write_code(w, ds as u32, 5);
                w.write_bits(dv, de as usize);
                assert(w.written() =~= before + token_bits(t));
            },
        }
        assert(tokens@.take(i + 1).drop_last() =~= tokens@.take(i as int));
        assert(w.written() =~= head + tokens_bits(tokens@.take(i + 1)));
        i = i + 1;
    }
    assert(tokens@.take(i as int) =~= tokens@);
    write_symbol(w, 256);
    assert(w.written() =~= start + fixed_block_bits(tokens@, last));
}

/// Compresses `data` into a deflate stream of one last block coded with the
/// fixed Huffman codes. The block carries LZ77 tokens found within a 32 KiB
/// window with the given search depth and matching policy; tokens that expand
/// to exactly `data`. The stream ends with zero bits up to a byte boundary.
pub fn compress_fixed(data: &[u8], depth: usize, lazy: bool) -> (r: Vec<u8>)
    ensures
        exists|ts: Seq<Token>, pad: nat|
            pad < 8 && tokens_encodable(ts) && apply_tokens(Seq::empty(), ts, 32768) == Ok::<
                Seq<u8>,
                ZERR,
            >(data@) && #[trigger] bytes_bits(r@) == fixed_block_bits(ts, true) + zero_bits(pad),
{
    let tokens = lz77_tokens(data, 32768, depth, lazy);
    let mut w = BitWriter::new();
    encode_fixed_block(&mut w, &tokens, true);
    let ghost before = w.written();
    let ghost nb = w.nbits;
    w.align_to_byte();
    let ghost pad: nat = if nb == 0 {
        0
    } else {
        (8 - nb) as nat
    };
    assert(w.written() =~= bytes_bits(w.bytes@));
    assert(Seq::<bool>::empty() + fixed_block_bits(tokens@, true) =~= fixed_block_bits(
        tokens@,
        true,
    ));
    assert(pad < 8 && tokens_encodable(tokens@) && apply_tokens(Seq::empty(), tokens@, 32768) == Ok::<Seq<u8>, ZERR>(data@)
        && bytes_bits(w.bytes@) == fixed_block_bits(tokens@, true) + zero_bits(pad));
    w.bytes
}

/// The fixed-code symbol whose code the bits at `pos` begin with, and the
/// length of that code; `None` when the input ends first. Codes of 7 bits
/// up to 0010111 stand for 256-279, codes of 8 bits from 00110000 to
/// 10111111 for 0-143 and from 11000000 to 11000111 for 280-287, and codes
/// of 9 bits from 110010000 on for 144-255.
pub open spec fn fixed_symbol_at(src: Seq<u8>, pos: int) -> Option<(int, nat)> {
    let bits = src.len() * 8;
    let c7 = msb_value(src, pos, 7) as int;
    let c8 = msb_value(src, pos, 8) as int;
    let c9 = msb_value(src, pos, 9) as int;
    if pos + 7 > bits {
        None
    } else if c7 <= 23 {
        Some((256 + c7, 7))
    } else if pos + 8 > bits {
        None
    } else if 0x30 <= c8 <= 0xbf {
        Some((c8 - 0x30, 8))
    } else if 0xc0 <= c8 <= 0xc7 {
        Some((280 + c8 - 0xc0, 8))
    } else if pos + 9 > bits {
        None
    } else {
        Some((144 + c9 - 0x190, 9))
    }
}

/// The symbol read by `fixed_symbol_at` is the one whose fixed code the bits
/// spell.
pub proof fn lemma_fixed_symbol_code(src: Seq<u8>, pos: int)
    ensures
        fixed_symbol_at(src, pos) matches Some((sym, n)) ==> 0 <= sym <= 287 && fixed_code(sym)
            == (msb_value(src, pos, n), n) && pos + n <= src.len() * 8,
{
    let c7 = msb_value(src, pos, 7);
    let c8 = msb_value(src, pos, 8);
    let c9 = msb_value(src, pos, 9);
    lemma_msb_bound(src, pos, 7);
    lemma_two_pow_15();
    assert(c8 == c7 * 2 + if crate::bits::bit_at(src, pos + 7) {
        1nat
    } else {
        0nat
    });
    assert(c9 == c8 * 2 + if crate::bits::bit_at(src, pos + 8) {
        1nat
    } else {
        0nat
    });
}

proof fn lemma_msb_bound(src: Seq<u8>, pos: int, n: nat)
    ensures
        msb_value(src, pos, n) < two_pow(n),
    decreases n,
{
    if n > 0 {
        lemma_msb_bound(src, pos, (n - 1) as nat);
    }
}

/// Bits that spell `c` in `n` bits, most significant first, read back as `c`.
pub proof fn lemma_msb_read_back(src: Seq<u8>, pos: int, c: nat, n: nat)
    requires
        c < two_pow(n),
        forall|k: int| 0 <= k < n ==> #[trigger] crate::bits::bit_at(src, pos + k) == msb_bits(c, n)[k],
    ensures
        msb_value(src, pos, n) == c,
    decreases n,
{
    if n == 0 {
        assert(two_pow(0) == 1);
    } else {
        let h = c / 2;
        assert(two_pow(n) == 2 * two_pow((n - 1) as nat));
        assert forall|k: int| 0 <= k < n - 1 implies #[trigger] crate::bits::bit_at(src, pos + k)
            == msb_bits(h, (n - 1) as nat)[k] by {
            let q = two_pow((n - 2 - k) as nat);
            crate::huffman::lemma_two_pow_pos((n - 2 - k) as nat);
            assert(two_pow((n - 1 - k) as nat) == 2 * q);
            vstd::arithmetic::div_mod::lemma_div_denominator(c as int, 2, q as int);
            assert(msb_bits(c, n)[k] == ((c / two_pow((n - 1 - k) as nat)) % 2 == 1));
        }
        lemma_msb_read_back(src, pos, h, (n - 1) as nat);
        assert(crate::bits::bit_at(src, pos + (n - 1)) == msb_bits(c, n)[n - 1]);
        assert(two_pow(0) == 1);
        assert(msb_bits(c, n)[n - 1] == ((c / 1) % 2 == 1));
        assert(c / 1 == c) by (nonlinear_arith);
    }
}

/// Reading the fixed code of a symbol gives back that symbol and the
/// length of its code: the fixed code decodes each code it assigns.
pub proof fn law_fixed_symbol_round_trip(src: Seq<u8>, pos: int, sym: int)
    requires
        0 <= sym <= 287,
        0 <= pos,
        pos + fixed_code(sym).1 <= src.len() * 8,
        forall|k: int|
            0 <= k < fixed_code(sym).1 ==> #[trigger] crate::bits::bit_at(src, pos + k)
                == symbol_bits(sym)[k],
    ensures
        fixed_symbol_at(src, pos) == Some::<(int, nat)>((sym, fixed_code(sym).1)),
{
    let code = fixed_code(sym).0;
    let n = fixed_code(sym).1;
    lemma_two_pow_15();
    lemma_msb_read_back(src, pos, code, n);
    crate::huffman::lemma_msb_prefix(src, pos, 7, n);
    if n >= 8 {
        crate::huffman::lemma_msb_prefix(src, pos, 8, n);
    }
    if n == 9 {
        crate::huffman::lemma_msb_prefix(src, pos, 9, n);
    }
}

/// The bits at `pos` are the sequence `b`.
pub open spec fn bits_match(src: Seq<u8>, pos: int, b: Seq<bool>) -> bool {
    forall|k: int| 0 <= k < b.len() ==> #[trigger] crate::bits::bit_at(src, pos + k) == b[k]
}

proof fn lemma_bits_match_split(src: Seq<u8>, pos: int, a: Seq<bool>, b: Seq<bool>)
    requires
        bits_match(src, pos, a + b),
    ensures
        bits_match(src, pos, a),
        bits_match(src, pos + a.len(), b),
{
    assert forall|k: int| 0 <= k < a.len() implies #[trigger] crate::bits::bit_at(src, pos + k)
        == a[k] by {
        assert((a + b)[k] == a[k]);
    }
    assert forall|k: int| 0 <= k < b.len() implies #[trigger] crate::bits::bit_at(
        src,
        pos + a.len() + k,
    ) == b[k] by {
        assert((a + b)[a.len() + k] == b[k]);
        assert(pos + (a.len() + k) == pos + a.len() + k);
    }
}

/// Reading the bits of an encodable token gives back that token and the
/// position right after its bits.
pub proof fn lemma_token_read_back(src: Seq<u8>, pos: int, t: Token)
    requires
        0 <= pos,
        pos + token_bits(t).len() <= src.len() * 8,
        bits_match(src, pos, token_bits(t)),
        t matches Token::Match(l, d) ==> 3 <= l <= 258 && 1 <= d <= 32768,
    ensures
        fixed_token_at(src, pos) == Ok::<(Option<Token>, int), ZERR>(
            (Some(t), pos + token_bits(t).len()),
        ),
{
    reveal(fixed_token_at);
    lemma_two_pow_15();
    match t {
        Token::Literal(b) => {
            law_fixed_symbol_round_trip(src, pos, b as int);
        },
        Token::Match(len, dist) => {
            let ls = length_symbol_of(len as int);
            let ds = distance_symbol_from(dist as int, 0);
            crate::codes::lemma_length_symbol_covers(len as int);
            crate::codes::lemma_distance_symbol_covers(dist as int);
            let le = length_extra(ls);
            let de = distance_extra(ds);
            let lv = (len - length_base(ls)) as u32;
            let dv = (dist - distance_base(ds)) as u32;
            let a = symbol_bits(ls);
            let b = value_bits(lv, le);
            let c = msb_bits(ds as nat, 5);
            let e = value_bits(dv, de);
            assert(token_bits(t) == a + b + c + e);
            lemma_bits_match_split(src, pos, a + b + c, e);
            lemma_bits_match_split(src, pos, a + b, c);
            lemma_bits_match_split(src, pos, a, b);
            law_fixed_symbol_round_trip(src, pos, ls);
            lemma_length_range(ls);
            lemma_distance_range(ds);
            lemma_two_pow_le(le, 15);
            lemma_two_pow_le(de, 15);
            crate::bits::law_lsb_read_back(src, pos + a.len(), lv, le);
            vstd::arithmetic::div_mod::lemma_small_mod(lv as nat, two_pow(le));
            lemma_msb_read_back(src, pos + a.len() + b.len(), ds as nat, 5);
            crate::bits::law_lsb_read_back(src, pos + a.len() + b.len() + 5, dv, de);
            vstd::arithmetic::div_mod::lemma_small_mod(dv as nat, two_pow(de));
        },
    }
}

proof fn lemma_tokens_bits_front(ts: Seq<Token>)
    requires
        ts.len() > 0,
    ensures
        tokens_bits(ts) == token_bits(ts[0]) + tokens_bits(ts.skip(1)),
    decreases ts.len(),
{
    if ts.len() == 1 {
        assert(ts.drop_last() =~= Seq::<Token>::empty());
        assert(ts.skip(1) =~= Seq::<Token>::empty());
        assert(Seq::<bool>::empty() + token_bits(ts[0]) =~= token_bits(ts[0]));
        assert(token_bits(ts[0]) + Seq::<bool>::empty() =~= token_bits(ts[0]));
    } else {
        lemma_tokens_bits_front(ts.drop_last());
        assert(ts.skip(1).drop_last() =~= ts.drop_last().skip(1));
        assert(ts.skip(1).last() == ts.last());
        assert(ts.drop_last()[0] == ts[0]);
        assert(tokens_bits(ts) =~= token_bits(ts[0]) + tokens_bits(ts.skip(1)));
    }
}

proof fn lemma_apply_front(out: Seq<u8>, ts: Seq<Token>, w: nat)
    requires
        ts.len() > 0,
    ensures
        apply_tokens(out, ts, w) == match apply_token(out, ts[0], w) {
            Ok(o) => apply_tokens(o, ts.skip(1), w),
            Err(e) => Err(e),
        },
    decreases ts.len(),
{
    if ts.len() == 1 {
        assert(ts.drop_last() =~= Seq::<Token>::empty());
        assert(ts.skip(1) =~= Seq::<Token>::empty());
    } else {
        lemma_apply_front(out, ts.drop_last(), w);
        assert(ts.skip(1).drop_last() =~= ts.drop_last().skip(1));
        assert(ts.skip(1).last() == ts.last());
        assert(ts.drop_last()[0] == ts[0]);
    }
}

proof fn lemma_token_bits_len(t: Token)
    ensures
        token_bits(t).len() >= 7,
{
}

/// Decoding the bits of a token sequence and the end-of-block code applies
/// the tokens in order and stops right after the end-of-block code.
#[verifier::rlimit(40)]
pub(crate) proof fn lemma_block_read_back(src: Seq<u8>, pos: int, ts: Seq<Token>, out: Seq<u8>, w: nat)
    requires
        tokens_encodable(ts),
        0 <= pos,
        pos + tokens_bits(ts).len() + 7 <= src.len() * 8,
        bits_match(src, pos, tokens_bits(ts) + symbol_bits(256)),
    ensures
        fixed_block_decode(src, pos, out, w) == match apply_tokens(out, ts, w) {
            Ok(o) => Ok((o, pos + tokens_bits(ts).len() + 7)),
            Err(e) => Err(e),
        },
    decreases ts.len(),
{
    reveal(fixed_token_at);
    if ts.len() == 0 {
        assert(tokens_bits(ts) + symbol_bits(256) =~= symbol_bits(256));
        law_fixed_symbol_round_trip(src, pos, 256);
    } else {
        let t0 = ts[0];
        let rest = ts.skip(1);
        lemma_tokens_bits_front(ts);
        lemma_apply_front(out, ts, w);
        lemma_token_bits_len(t0);
        assert(tokens_bits(ts) + symbol_bits(256) =~= token_bits(t0) + (tokens_bits(rest)
            + symbol_bits(256)));
        lemma_bits_match_split(src, pos, token_bits(t0), tokens_bits(rest) + symbol_bits(256));
        assert(tokens_encodable(rest)) by {
            assert forall|k: int| 0 <= k < rest.len() implies (#[trigger] rest[k] matches Token::Match(
                l,
                d,
            ) ==> 3 <= l <= 258 && 1 <= d <= 32768) by {
                assert(rest[k] == ts[k + 1]);
            }
        }
        assert(t0 matches Token::Match(l, d) ==> 3 <= l <= 258 && 1 <= d <= 32768) by {
            assert(ts[0] == t0);
        }
        lemma_token_read_back(src, pos, t0);
        let p = pos + token_bits(t0).len();
        match apply_token(out, t0, w) {
            Ok(o) => {
                lemma_block_read_back(src, p, rest, o, w);
            },
            Err(e) => {},
        }
    }
}

/// Decoding undoes fixed-code encoding: the bytes of a last fixed-code block
/// that carries tokens expanding to `data` (padded with zero bits to a byte
/// boundary, as `compress_fixed` makes them) decode, from just after the
/// block header, to exactly `data`.
pub proof fn law_fixed_round_trip(body: Seq<u8>, ts: Seq<Token>, pad: nat, data: Seq<u8>)
    requires
        tokens_encodable(ts),
        apply_tokens(Seq::empty(), ts, 32768) == Ok::<Seq<u8>, ZERR>(data),
        bytes_bits(body) == fixed_block_bits(ts, true) + zero_bits(pad),
    ensures
        fixed_block_decode(body, 3, Seq::empty(), 32768) == Ok::<(Seq<u8>, int), ZERR>(
            (data, 3 + tokens_bits(ts).len() as int + 7),
        ),
{
    let hdr = value_bits(1, 1) + value_bits(1, 2);
    let tail = tokens_bits(ts) + symbol_bits(256);
    assert(fixed_block_bits(ts, true) + zero_bits(pad) =~= hdr + tail + zero_bits(pad));
    assert(hdr.len() == 3);
    assert forall|k: int| 0 <= k < tail.len() implies #[trigger] crate::bits::bit_at(body, 3 + k)
        == tail[k] by {
        assert(bytes_bits(body)[3 + k] == tail[k]);
    }
    lemma_block_read_back(body, 3, ts, Seq::empty(), 32768);
}

/// Reads one symbol of the fixed literal/length code at bit `pos`.
pub fn decode_fixed_symbol(src: &[u8], pos: usize) -> (r: Option<(u32, usize)>)
    requires
        pos <= src@.len() * 8,
        src@.len() * 8 <= usize::MAX,
    ensures
        r matches Some((sym, n)) ==> fixed_symbol_at(src@, pos as int) == Some::<(int, nat)>(
            (sym as int, n as nat),
        ),
        r is None ==> fixed_symbol_at(src@, pos as int) is None,
{
    let bits = src.len() * 8;
    if bits - pos < 7 {
        return None;
    }
    let mut c: u32 = 0;
    let mut k: usize = 0;
    while k < 7
        invariant
            k <= 7,
            pos + 7 <= src@.len() * 8,
            src@.len() * 8 <= usize::MAX,
            c == msb_value(src@, pos as int, k as nat),
            c < two_pow(k as nat),
        decreases 7 - k,
    {
        proof {
            lemma_two_pow_le(k as nat, 15);
            lemma_two_pow_15();
        }
        c = c * 2 + if read_bit(src, pos + k) {
            1u32
        } else {
            0u32
        };
        k = k + 1;
    }
    proof {
        lemma_two_pow_15();
    }
    if c <= 23 {
        return Some((256 + c, 7));
    }
    if bits - pos < 8 {
        return None;
    }
    c = c * 2 + if read_bit(src, pos + 7) {
        1u32
    } else {
        0u32
    };
    if 0x30 <= c && c <= 0xbf {
        return Some((c - 0x30, 8));
    }
    if 0xc0 <= c && c <= 0xc7 {
        return Some((280 + c - 0xc0, 8));
    }
    if bits - pos < 9 {
        return None;
    }
    c = c * 2 + if read_bit(src, pos + 8) {
        1u32
    } else {
        0u32
    };
    Some((144 + c - 0x190, 9))
}

/// The token at bit `pos` of a fixed-code block and the position after it;
/// `None` for the end-of-block symbol. A symbol 286 or 287, a distance
/// symbol 30 or 31, or input that ends inside the token is a data error.
#[verifier::opaque]
pub open spec fn fixed_token_at(src: Seq<u8>, pos: int) -> Result<(Option<Token>, int), ZERR> {
    let bits = src.len() * 8;
    match fixed_symbol_at(src, pos) {
        None => Err(ZERR::DataError),
        Some((sym, n)) => {
            let p1 = pos + n;
            if sym < 256 {
                Ok((Some(Token::Literal(sym as u8)), p1))
            } else if sym == 256 {
                Ok((None, p1))
            } else if sym > 285 {
                Err(ZERR::DataError)
            } else {
                let le = length_extra(sym);
                let p2 = p1 + le;
                let p3 = p2 + 5;
                let ds = msb_value(src, p2, 5) as int;
                let de = distance_extra(ds);
                if p2 > bits || p3 > bits {
                    Err(ZERR::DataError)
                } else if ds > 29 {
                    Err(ZERR::DataError)
                } else if p3 + de > bits {
                    Err(ZERR::DataError)
                } else {
                    let len = length_base(sym) + lsb_value(src, p1, le);
                    let dist = distance_base(ds) + lsb_value(src, p3, de);
                    Ok((Some(Token::Match(len as usize, dist as usize)), p3 + de))
                }
            }
        },
    }
}

/// Decoding of the rest of a fixed-code block from bit `pos`, each token
/// applied to `out` within a window of `wsize` bytes: the output and the bit
/// position after the end-of-block symbol, or the first error. A
/// back-reference beyond the bytes produced or the window is a data error.
pub open spec fn fixed_block_decode(src: Seq<u8>, pos: int, out: Seq<u8>, wsize: nat) -> Result<
    (Seq<u8>, int),
    ZERR,
>
    decreases src.len() * 8 - pos,
{
    if pos < 0 || pos > src.len() * 8 {
        Err(ZERR::DataError)
    } else {
        match fixed_token_at(src, pos) {
            Err(e) => Err(e),
            Ok((None, p)) => Ok((out, p)),
            Ok((Some(t), p)) => {
                if p <= pos || p > src.len() * 8 {
                    Err(ZERR::DataError)
                } else {
                    match apply_token(out, t, wsize) {
                        Err(e) => Err(e),
                        Ok(o) => fixed_block_decode(src, p, o, wsize),
                    }
                }
            },
        }
    }
}

/// Decodes the body of a fixed-code block that starts at bit `pos` (just
/// after the block header), appending the bytes to `out`, which holds the
/// bytes produced before. Returns the bit position after the block.
pub fn inflate_fixed_block(src: &[u8], pos: usize, out: &mut Vec<u8>, wsize: usize) -> (r: Result<
    usize,
    ZERR,
>)
    requires
        pos <= src@.len() * 8,
        src@.len() * 8 <= usize::MAX,
        old(out)@.len() + 258 * (src@.len() * 8) <= usize::MAX,
    ensures
        r matches Ok(p) ==> fixed_block_decode(src@, pos as int, old(out)@, wsize as nat)
            == Ok::<(Seq<u8>, int), ZERR>((final(out)@, p as int)),
        r matches Err(e) ==> fixed_block_decode(src@, pos as int, old(out)@, wsize as nat)
            == Err::<(Seq<u8>, int), ZERR>(e),
{
    let ghost start = out@;
    let mut cur: usize = pos;
    loop
        invariant
            pos <= cur <= src@.len() * 8,
            src@.len() * 8 <= usize::MAX,
            start == old(out)@,
            start.len() + 258 * (src@.len() * 8) <= usize::MAX,
            out@.len() <= start.len() + 258 * (cur - pos),
            fixed_block_decode(src@, pos as int, start, wsize as nat) == fixed_block_decode(
                src@,
                cur as int,
                out@,
                wsize as nat,
            ),
        decreases src@.len() * 8 - cur,
    {
        match read_fixed_token(src, cur) {
            Err(e) => {
                assert(fixed_block_decode(src@, cur as int, out@, wsize as nat) == Err::<
                    (Seq<u8>, int),
                    ZERR,
                >(e));
                return Err(e);
            },
            Ok((None, p)) => {
                assert(fixed_block_decode(src@, cur as int, out@, wsize as nat) == Ok::<
                    (Seq<u8>, int),
                    ZERR,
                >((out@, p as int)));
                return Ok(p);
            },
            Ok((Some(t), p)) => {
                assert(out@.len() + 258 <= start.len() + 258 * (p - pos)) by (nonlinear_arith)
                    requires
                        out@.len() <= start.len() + 258 * (cur - pos),
                        cur < p,
                ;
                assert(258 * (p - pos) <= 258 * (src@.len() * 8)) by (nonlinear_arith)
                    requires
                        p <= src@.len() * 8,
                        pos <= p,
                ;
                match t {
                    Token::Literal(b) => {
                        out.push(b);
                    },
                    Token::Match(l, d) => {
                        let ghost before = out@;
                        let res = copy_match(out, d, l, wsize);
                        if res != ZERR::Success {
                            assert(apply_token(before, t, wsize as nat) == Err::<Seq<u8>, ZERR>(
                                ZERR::DataError,
                            ));
                            return Err(ZERR::DataError);
                        }
                    },
                }
                cur = p;
            },
        }
    }
}

/// Reads one token of a fixed-code block at bit `pos`.
pub fn read_fixed_token(src: &[u8], pos: usize) -> (r: Result<(Option<Token>, usize), ZERR>)
    requires
        pos <= src@.len() * 8,
        src@.len() * 8 <= usize::MAX,
    ensures
        r matches Ok((t, p)) ==> fixed_token_at(src@, pos as int) == Ok::<
            (Option<Token>, int),
            ZERR,
        >((t, p as int)) && pos < p <= src@.len() * 8,
        r matches Err(e) ==> fixed_token_at(src@, pos as int) == Err::<(Option<Token>, int), ZERR>(
            e,
        ),
        r matches Ok((Some(Token::Match(l, d)), p)) ==> 3 <= l <= 258 && 1 <= d <= 32768,
{
    proof {
        lemma_fixed_symbol_code(src@, pos as int);
        reveal(fixed_token_at);
    }
    let (sym, n) = match decode_fixed_symbol(src, pos) {
        None => {
            return Err(ZERR::DataError);
        },
        Some(x) => x,
    };
    let p1 = pos + n;
    if sym < 256 {
        return Ok((Some(Token::Literal(sym as u8)), p1));
    }
    if sym == 256 {
        return Ok((None, p1));
    }
    if sym > 285 {
        return Err(ZERR::DataError);
    }
    let (le, lbase) = length_code_info(sym as u16);
    proof {
        lemma_two_pow_15();
        lemma_length_range(sym as int);
    }
    let lv = match read_bits(src, p1, le as usize) {
        None => {
            return Err(ZERR::DataError);
        },
        Some(v) => v,
    };
    let p2 = p1 + le as usize;
    let ds = match read_msb(src, p2, 5) {
        None => {
            return Err(ZERR::DataError);
        },
        Some(v) => v,
    };
    let p3 = p2 + 5;
    proof {
        lemma_msb_bound(src@, p2 as int, 5);
    }
    if ds > 29 {
        return Err(ZERR::DataError);
    }
    let (de, dbase) = distance_code_info(ds as u16);
    proof {
        lemma_distance_range(ds as int);
    }
    let dv = match read_bits(src, p3, de as usize) {
        None => {
            return Err(ZERR::DataError);
        },
        Some(v) => v,
    };
    proof {
        lemma_lsb_bound(src@, p1 as int, le as nat);
        lemma_lsb_bound(src@, p3 as int, de as nat);
    }
    let len = (lbase + lv) as usize;
    let dist = (dbase + dv) as usize;
    Ok((Some(Token::Match(len, dist)), p3 + de as usize))
}

proof fn lemma_lsb_bound(src: Seq<u8>, pos: int, n: nat)
    ensures
        lsb_value(src, pos, n) < two_pow(n),
    decreases n,
{
    if n > 0 {
        lemma_lsb_bound(src, pos, (n - 1) as nat);
    }
}

/// Each length symbol's range lies within 3..=258.
proof fn lemma_length_range(sym: int)
    requires
        257 <= sym <= 285,
    ensures
        length_extra(sym) <= 5,
        3 <= length_base(sym),
        length_base(sym) + two_pow(length_extra(sym)) <= 259,
{
    lemma_two_pow_15();
    if 265 <= sym < 285 {
        let e = length_extra(sym);
        let i = (sym - 265) % 4;
        let p = two_pow(e);
        assert(1 <= e <= 5);
        assert((4 + i) * p + 3 + p <= 259) by (nonlinear_arith)
            requires
                0 <= i <= 3,
                1 <= e <= 5,
                (e == 1 ==> p == 2),
                (e == 2 ==> p == 4),
                (e == 3 ==> p == 8),
                (e == 4 ==> p == 16),
                (e == 5 ==> p == 32),
                sym - 265 == 4 * (e - 1) + i,
                sym < 285,
        ;
    }
}

/// Each distance symbol's range lies within 1..=32768.
proof fn lemma_distance_range(sym: int)
    requires
        0 <= sym <= 29,
    ensures
        distance_extra(sym) <= 13,
        1 <= distance_base(sym),
        distance_base(sym) + two_pow(distance_extra(sym)) <= 32769,
{
    lemma_two_pow_15();
    if sym >= 4 {
        let e = distance_extra(sym);
        let p = two_pow(e);
        assert(1 <= e <= 13);
        lemma_two_pow_le(e, 13);
        assert((2 + sym % 2) * p + 1 + p <= 32769) by (nonlinear_arith)
            requires
                0 <= sym % 2 <= 1,
                p <= 8192,
        ;
    }
}

} // verus!
