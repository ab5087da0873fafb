use vstd::prelude::*;

use crate::adler32::{adler32_spec, adler32_update};
use crate::stored::{
    decode_stored,
    deflate_stored,
    inflate_stored_at,
    lemma_decode_stored_within,
    law_stored_round_trip,
    stored_stream,
};
use crate::bits::{bytes_bits, zero_bits};
use crate::codes::pow2_u32;
use crate::fixed::{compress_fixed, fixed_block_bits, fixed_block_decode, inflate_fixed_block};
use crate::huffman::{lemma_two_pow_15, lemma_two_pow_le, two_pow};
use crate::lz77::{apply_tokens, Token};
use crate::ZERR;

verus! {

/// The two-bit compression-level hint of the zlib header: 0 for the fastest
/// levels, 1 for fast, 2 for the default, 3 for the strongest.
pub open spec fn level_flags(level: int) -> int {
    if level == -1 || level == 6 {
        2
    } else if level < 2 {
        0
    } else if level < 6 {
        1
    } else {
        3
    }
}

/// The zlib header for a window of 2^`wbits` bytes and the given level: the
/// method and window byte, then the flag byte whose check bits (1 to 31) make
/// the two bytes, read big-endian, a multiple of 31.
pub open spec fn header_spec(wbits: int, level: int) -> (u8, u8) {
    let cmf = 8 + 16 * (wbits - 8);
    let h = cmf * 256 + level_flags(level) * 64;
    (cmf as u8, (level_flags(level) * 64 + 31 - h % 31) as u8)
}

/// Writes a zlib header. A window size outside 2^8..2^15, or a level
/// outside -1..9 (-1 being the default level), is a usage error.
pub fn zlib_header(wbits: u8, level: i32) -> (r: Result<(u8, u8), ZERR>)
    ensures
        (8 <= wbits <= 15 && -1 <= level <= 9) ==> r == Ok::<(u8, u8), ZERR>(
            header_spec(wbits as int, level as int),
        ),
        !(8 <= wbits <= 15 && -1 <= level <= 9) ==> r == Err::<(u8, u8), ZERR>(
            ZERR::StreamError,
        ),
        r matches Ok((cmf, flg)) ==> (cmf * 256 + flg) % 31 == 0 && (flg / 32) % 2 == 0,
{
    if wbits < 8 || wbits > 15 || level < -1 || level > 9 {
        return Err(ZERR::StreamError);
    }
    let lf: u32 = if level == -1 || level == 6 {
        2
    } else if level < 2 {
        0
    } else if level < 6 {
        1
    } else {
        3
    };
    let cmf: u32 = 8 + 16 * (wbits as u32 - 8);
    let h: u32 = cmf * 256 + lf * 64;
    let flg: u32 = lf * 64 + 31 - h % 31;
    Ok((cmf as u8, flg as u8))
}

/// What reading a zlib header gives: the window bits, or the reason to stop.
/// A header that is not a multiple of 31, names another method than deflate,
/// or asks for a window over 2^15 is a data error; one that asks for a preset
/// dictionary needs it first.
pub open spec fn header_check_spec(cmf: u8, flg: u8) -> Result<u8, ZERR> {
    if (cmf * 256 + flg) % 31 != 0 || cmf % 16 != 8 || cmf / 16 > 7 {
        Err(ZERR::DataError)
    } else if (flg / 32) % 2 == 1 {
        Err(ZERR::NeedDict)
    } else {
        Ok((cmf / 16 + 8) as u8)
    }
}

/// Reads a zlib header: the window bits it announces, or the error.
pub fn check_zlib_header(cmf: u8, flg: u8) -> (r: Result<u8, ZERR>)
    ensures
        r == header_check_spec(cmf, flg),
{
    if (cmf as u32 * 256 + flg as u32) % 31 != 0 || cmf % 16 != 8 || cmf / 16 > 7 {
        Err(ZERR::DataError)
    } else if (flg / 32) % 2 == 1 {
        Err(ZERR::NeedDict)
    } else {
        Ok(cmf / 16 + 8)
    }
}

/// A word as four bytes, most significant first.
pub open spec fn be32(n: u32) -> Seq<u8> {
    seq![
        (n / 16777216) as u8,
        (n / 65536 % 256) as u8,
        (n / 256 % 256) as u8,
        (n % 256) as u8,
    ]
}

/// The word held by four bytes at `i`, most significant first.
pub open spec fn be32_value(s: Seq<u8>, i: int) -> int {
    s[i] * 16777216 + s[i + 1] * 65536 + s[i + 2] * 256 + s[i + 3]
}

/// A zlib stream of stored blocks: the header for a 32 KiB window and level
/// 0, the stored blocks, and the Adler-32 checksum of the data, big-endian.
pub open spec fn zlib_stored(data: Seq<u8>) -> Seq<u8> {
    seq![0x78u8, 0x01u8] + stored_stream(data) + be32(adler32_spec(1, data))
}

/// Decoding of a zlib stream whose blocks are stored: the header is checked,
/// the blocks decoded, and the trailer must hold the checksum of the result.
pub open spec fn zlib_decode_stored(s: Seq<u8>) -> Result<Seq<u8>, ZERR> {
    if s.len() < 2 {
        Err(ZERR::DataError)
    } else {
        match header_check_spec(s[0], s[1]) {
            Err(e) => Err(e),
            Ok(_) => match decode_stored(s.skip(2)) {
                Err(e) => Err(e),
                Ok((d, c)) => {
                    if s.len() < 2 + c + 4 {
                        Err(ZERR::DataError)
                    } else if be32_value(s, 2 + c as int) != adler32_spec(1, d) {
                        Err(ZERR::DataError)
                    } else {
                        Ok(d)
                    }
                },
            },
        }
    }
}

/// Compresses at level 0: the data in a zlib container, as stored blocks.
pub fn compress_stored(data: &[u8]) -> (r: Vec<u8>)
    ensures
        r@ == zlib_stored(data@),
{
    let mut out: Vec<u8> = Vec::new();
    out.push(0x78u8);
    out.push(0x01u8);
    let mut body = deflate_stored(data);
    out.append(&mut body);
    let sum = adler32_update(1, data);
    out.push((sum / 16777216) as u8);
    out.push((sum / 65536 % 256) as u8);
    out.push((sum / 256 % 256) as u8);
    out.push((sum % 256) as u8);
    assert(out@ =~= zlib_stored(data@));
    out
}

/// Decompresses a zlib stream whose blocks are stored. Errors as
/// `zlib_decode_stored` describes.
pub fn decompress_stored(src: &[u8]) -> (r: Result<Vec<u8>, ZERR>)
    ensures
        r matches Ok(v) ==> zlib_decode_stored(src@) == Ok::<Seq<u8>, ZERR>(v@),
        r matches Err(e) ==> zlib_decode_stored(src@) == Err::<Seq<u8>, ZERR>(e),
{
    if src.len() < 2 {
        return Err(ZERR::DataError);
    }
    match check_zlib_header(src[0], src[1]) {
        Err(e) => {
            return Err(e);
        },
        Ok(_) => {},
    }
    proof {
        lemma_decode_stored_within(src@.skip(2));
    }
    match inflate_stored_at(src, 2) {
        Err(e) => Err(e),
        Ok((out, used)) => {
            if src.len() - 2 - used < 4 {
                return Err(ZERR::DataError);
            }
            let i: usize = 2 + used;
            let stored: u32 = src[i] as u32 * 16777216 + src[i + 1] as u32 * 65536 + src[i + 2]
                as u32 * 256 + src[i + 3] as u32;
            let sum = adler32_update(1, out.as_slice());
            if stored != sum {
                return Err(ZERR::DataError);
            }
            Ok(out)
        },
    }
}

/// The search depth and matching policy of a compression level from 1 to 9
/// (-1 meaning 6): deeper search and lazy matching as the level rises.
pub open spec fn level_search(level: int) -> (usize, bool) {
    let l = if level == -1 {
        6
    } else {
        level
    };
    if l == 1 {
        (4, false)
    } else if l == 2 {
        (8, false)
    } else if l == 3 {
        (32, false)
    } else if l == 4 {
        (16, true)
    } else if l == 5 {
        (32, true)
    } else if l == 6 {
        (128, true)
    } else if l == 7 {
        (256, true)
    } else if l == 8 {
        (1024, true)
    } else {
        (4096, true)
    }
}

fn search_for_level(level: i32) -> (r: (usize, bool))
    requires
        level == -1 || 1 <= level <= 9,
    ensures
        r == level_search(level as int),
{
    let l = if level == -1 {
        6
    } else {
        level
    };
    if l == 1 {
        (4, false)
    } else if l == 2 {
        (8, false)
    } else if l == 3 {
        (32, false)
    } else if l == 4 {
        (16, true)
    } else if l == 5 {
        (32, true)
    } else if l == 6 {
        (128, true)
    } else if l == 7 {
        (256, true)
    } else if l == 8 {
        (1024, true)
    } else {
        (4096, true)
    }
}

/// Compresses `data` into a zlib stream with a 32 KiB window and the
/// default strategy; see `compress_with_strategy`.
pub fn compress(data: &[u8], level: i32) -> (r: Result<Vec<u8>, ZERR>)
    ensures
        !(-1 <= level <= 9) ==> r == Err::<Vec<u8>, ZERR>(ZERR::StreamError),
        level == 0 ==> (r matches Ok(v) && v@ == zlib_stored(data@)),
        (level == -1 || 1 <= level <= 9) ==> (r matches Ok(v) && v@.len() >= 6 && v@[0]
            == header_spec(15, level as int).0 && v@[1] == header_spec(15, level as int).1
            && v@.subrange(v@.len() - 4, v@.len() as int) == be32(adler32_spec(1, data@))
            && exists|ts: Seq<Token>, pad: nat|
            pad < 8 && crate::fixed::tokens_encodable(ts) && apply_tokens(Seq::empty(), ts, 32768)
                == Ok::<Seq<u8>, ZERR>(data@) && #[trigger] bytes_bits(
                v@.subrange(2, v@.len() - 4),
            ) == fixed_block_bits(ts, true) + zero_bits(pad)),
{
    compress_with_strategy(data, level, crate::Z_DEFAULT_STRATEGY)
}

/// Compresses `data` into a zlib stream with a 32 KiB window. Level 0 stores
/// the data; levels 1 to 9 (and -1, the default) send one block coded with
/// the fixed Huffman codes, holding LZ77 tokens that expand to exactly
/// `data`. The level sets the search depth and whether matching is lazy
/// (`level_search`); the Huffman-only strategy sends no back-references and
/// the run-length strategy looks at distance 1 only. A level out of range,
/// or a strategy other than 0 to 4, is a usage error.
pub fn compress_with_strategy(data: &[u8], level: i32, strategy: usize) -> (r: Result<
    Vec<u8>,
    ZERR,
>)
    ensures
        (!(-1 <= level <= 9) || strategy > 4) ==> r == Err::<Vec<u8>, ZERR>(ZERR::StreamError),
        (level == 0 && strategy <= 4) ==> (r matches Ok(v) && v@ == zlib_stored(data@)),
        ((level == -1 || 1 <= level <= 9) && strategy <= 4) ==> (r matches Ok(v) && v@.len() >= 6 && v@[0]
            == header_spec(15, level as int).0 && v@[1] == header_spec(15, level as int).1
            && v@.subrange(v@.len() - 4, v@.len() as int) == be32(adler32_spec(1, data@))
            && exists|ts: Seq<Token>, pad: nat|
            pad < 8 && crate::fixed::tokens_encodable(ts) && apply_tokens(Seq::empty(), ts, 32768)
                == Ok::<Seq<u8>, ZERR>(data@) && #[trigger] bytes_bits(
                v@.subrange(2, v@.len() - 4),
            ) == fixed_block_bits(ts, true) + zero_bits(pad)),
{
    if level < -1 || level > 9 || strategy > 4 {
        return Err(ZERR::StreamError);
    }
    if level == 0 {
        return Ok(compress_stored(data));
    }
    let (cmf, flg) = match zlib_header(15, level) {
        Ok(h) => h,
        Err(e) => {
            return Err(e);
        },
    };
    let (depth, lazy) = if strategy == crate::Z_HUFFMAN_ONLY {
        (0, false)
    } else if strategy == crate::Z_RLE {
        (1, false)
    } else {
        search_for_level(level)
    };
    let mut body = compress_fixed(data, depth, lazy);
    let ghost body_view = body@;
    let mut out: Vec<u8> = Vec::new();
    out.push(cmf);
    out.push(flg);
    out.append(&mut body);
    let sum = adler32_update(1, data);
    out.push((sum / 16777216) as u8);
    out.push((sum / 65536 % 256) as u8);
    out.push((sum / 256 % 256) as u8);
    out.push((sum % 256) as u8);
    assert(out@.subrange(2, out@.len() - 4) =~= body_view);
    assert(out@.subrange(out@.len() - 4, out@.len() as int) =~= be32(adler32_spec(1, data@)));
    Ok(out)
}

/// Decoding of a zlib stream whose single deflate block is stored blocks or
/// one last fixed-code block. The window for back-references is the one the
/// header announces. A block of dynamic codes, or a fixed-code block that is
/// not the last, is refused as a usage error; a block of the reserved type,
/// input that ends early, or a checksum that does not match is a data error.
pub open spec fn zlib_decode(s: Seq<u8>) -> Result<Seq<u8>, ZERR> {
    if s.len() < 3 {
        Err(ZERR::DataError)
    } else {
        match header_check_spec(s[0], s[1]) {
            Err(e) => Err(e),
            Ok(w) => {
                let btype = (s[2] / 2) % 4;
                if btype == 0 {
                    zlib_decode_stored(s)
                } else if btype == 3 {
                    Err(ZERR::DataError)
                } else if btype == 2 || s[2] % 2 == 0 {
                    Err(ZERR::StreamError)
                } else {
                    match fixed_block_decode(s, 19, Seq::empty(), two_pow(w as nat)) {
                        Err(e) => Err(e),
                        Ok((d, p)) => {
                            let t = (p + 7) / 8;
                            if s.len() < t + 4 {
                                Err(ZERR::DataError)
                            } else if be32_value(s, t) != adler32_spec(1, d) {
                                Err(ZERR::DataError)
                            } else {
                                Ok(d)
                            }
                        },
                    }
                }
            },
        }
    }
}

/// Decompresses a zlib stream as `zlib_decode` describes.
pub fn decompress(src: &[u8]) -> (r: Result<Vec<u8>, ZERR>)
    requires
        src@.len() * 8 * 258 <= usize::MAX,
    ensures
        r matches Ok(v) ==> zlib_decode(src@) == Ok::<Seq<u8>, ZERR>(v@),
        r matches Err(e) ==> zlib_decode(src@) == Err::<Seq<u8>, ZERR>(e),
{
    if src.len() < 3 {
        return Err(ZERR::DataError);
    }
    let w = match check_zlib_header(src[0], src[1]) {
        Err(e) => {
            return Err(e);
        },
        Ok(w) => w,
    };
    let btype = (src[2] / 2) % 4;
    if btype == 0 {
        return decompress_stored(src);
    }
    if btype == 3 {
        return Err(ZERR::DataError);
    }
    if btype == 2 || src[2] % 2 == 0 {
        return Err(ZERR::StreamError);
    }
    proof {
        lemma_two_pow_le(w as nat, 15);
        lemma_two_pow_15();
    }
    let wsize = pow2_u32(w as u32) as usize;
    let mut out: Vec<u8> = Vec::new();
    let p = match inflate_fixed_block(src, 19, &mut out, wsize) {
        Err(e) => {
            return Err(e);
        },
        Ok(p) => p,
    };
    proof {
        lemma_fixed_end_within(src@, 19, Seq::empty(), wsize as nat);
    }
    let t = (p + 7) / 8;
    if src.len() < 4 || t > src.len() - 4 {
        return Err(ZERR::DataError);
    }
    let stored: u32 = src[t] as u32 * 16777216 + src[t + 1] as u32 * 65536 + src[t + 2] as u32
        * 256 + src[t + 3] as u32;
    let sum = adler32_update(1, out.as_slice());
    if stored != sum {
        return Err(ZERR::DataError);
    }
    Ok(out)
}

/// A fixed-code block ends within the input.
proof fn lemma_fixed_end_within(s: Seq<u8>, pos: int, out: Seq<u8>, wsize: nat)
    ensures
        fixed_block_decode(s, pos, out, wsize) matches Ok((d, p)) ==> p <= s.len() * 8,
    decreases s.len() * 8 - pos,
{
    reveal(crate::fixed::fixed_token_at);
    if 0 <= pos <= s.len() * 8 {
        match crate::fixed::fixed_token_at(s, pos) {
            Ok((Some(t), p)) => {
                if pos < p <= s.len() * 8 {
                    match crate::lz77::apply_token(out, t, wsize) {
                        Ok(o) => {
                            lemma_fixed_end_within(s, p, o, wsize);
                        },
                        Err(e) => {},
                    }
                }
            },
            _ => {},
        }
    }
}

/// Decompression undoes compression at every level from 1 to 9 (and the
/// default): a zlib stream of the shape `compress` returns for those levels
/// decodes to exactly the data.
#[verifier::rlimit(60)]
pub proof fn law_zlib_fixed_round_trip(
    v: Seq<u8>,
    data: Seq<u8>,
    ts: Seq<Token>,
    pad: nat,
    level: int,
)
    requires
        level == -1 || 1 <= level <= 9,
        v.len() >= 6,
        v[0] == header_spec(15, level).0,
        v[1] == header_spec(15, level).1,
        v.subrange(v.len() - 4, v.len() as int) == be32(adler32_spec(1, data)),
        pad < 8,
        crate::fixed::tokens_encodable(ts),
        apply_tokens(Seq::empty(), ts, 32768) == Ok::<Seq<u8>, ZERR>(data),
        bytes_bits(v.subrange(2, v.len() - 4)) == fixed_block_bits(ts, true) + zero_bits(pad),
    ensures
        zlib_decode(v) == Ok::<Seq<u8>, ZERR>(data),
{
    let body = v.subrange(2, v.len() - 4);
    let tail = crate::fixed::tokens_bits(ts) + crate::fixed::symbol_bits(256);
    let hdr = crate::bits::value_bits(1, 1) + crate::bits::value_bits(1, 2);
    lemma_two_pow_15();
    assert(fixed_block_bits(ts, true) + zero_bits(pad) =~= hdr + tail + zero_bits(pad));
    let lf = level_flags(level);
    assert(0 <= lf <= 3);
    assert(header_check_spec(v[0], v[1]) == Ok::<u8, ZERR>(15));
    assert(body.len() * 8 == 3 + tail.len() + pad);
    assert(body.len() >= 1);
    let b0 = body[0];
    assert(((1u32 >> 0u32) & 1u32) == 1u32) by (bit_vector);
    assert(((1u32 >> 1u32) & 1u32) == 0u32) by (bit_vector);
    assert(hdr[0] == crate::bits::value_bits(1, 1)[0]);
    assert(hdr[1] == crate::bits::value_bits(1, 2)[0]);
    assert(hdr[2] == crate::bits::value_bits(1, 2)[1]);
    assert(hdr[0] && hdr[1] && !hdr[2]);
    assert(bytes_bits(body)[0] == hdr[0] && bytes_bits(body)[1] == hdr[1] && bytes_bits(body)[2]
        == hdr[2]);
    assert(crate::bits::bit_at(body, 0) && crate::bits::bit_at(body, 1) && !crate::bits::bit_at(
        body,
        2,
    ));
    assert(b0 % 2 == 1 && (b0 / 2) % 4 == 1) by (bit_vector)
        requires
            ((b0 >> 0u8) & 1u8) == 1u8,
            ((b0 >> 1u8) & 1u8) == 1u8,
            ((b0 >> 2u8) & 1u8) != 1u8,
    ;
    assert(v[2] == b0);
    assert forall|k: int| 0 <= k < tail.len() implies #[trigger] crate::bits::bit_at(v, 19 + k)
        == tail[k] by {
        assert(bytes_bits(body)[3 + k] == tail[k]);
        assert((19 + k) / 8 == 2 + (3 + k) / 8);
        assert((19 + k) % 8 == (3 + k) % 8);
        assert(v[2 + (3 + k) / 8] == body[(3 + k) / 8]);
    }
    crate::fixed::lemma_block_read_back(v, 19, ts, Seq::empty(), 32768);
    let p = 19 + crate::fixed::tokens_bits(ts).len() + 7;
    assert((p + 7) / 8 == v.len() - 4);
    let t = v.len() - 4;
    lemma_be32(adler32_spec(1, data));
    assert(v[t] == be32(adler32_spec(1, data))[0]);
    assert(v[t + 1] == be32(adler32_spec(1, data))[1]);
    assert(v[t + 2] == be32(adler32_spec(1, data))[2]);
    assert(v[t + 3] == be32(adler32_spec(1, data))[3]);
}

proof fn lemma_be32(n: u32)
    ensures
        be32_value(be32(n), 0) == n,
{
}

/// Decompression undoes compression: every byte sequence survives a trip
/// through the zlib container unchanged.
#[verifier::rlimit(40)]
pub proof fn law_zlib_round_trip(data: Seq<u8>)
    ensures
        zlib_decode_stored(zlib_stored(data)) == Ok::<Seq<u8>, ZERR>(data),
{
    let sum = adler32_spec(1, data);
    let s = zlib_stored(data);
    let ss = stored_stream(data);
    law_stored_round_trip(data, be32(sum));
    assert(s.skip(2) =~= ss + be32(sum));
    lemma_be32(sum);
    assert(be32_value(s, 2 + ss.len() as int) == be32_value(be32(sum), 0));
}

/// The container's first two bytes, read big-endian, are a multiple of 31 and
/// announce deflate with a 32 KiB window, and the first block is stored.
pub proof fn law_zlib_header_valid(data: Seq<u8>)
    ensures
        (zlib_stored(data)[0] * 256 + zlib_stored(data)[1]) % 31 == 0,
        header_check_spec(zlib_stored(data)[0], zlib_stored(data)[1]) == Ok::<u8, ZERR>(15),
        (zlib_stored(data)[2] / 2) % 4 == 0,
{
    if data.len() <= 65535 {
        assert(stored_stream(data)[0] == 1);
    } else {
        assert(stored_stream(data)[0] == 0);
    }
}

} // verus!
