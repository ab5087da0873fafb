use zlib::adler32::adler32_update;
use zlib::bits::BitWriter;
use zlib::container::{
    check_zlib_header, compress, compress_stored, compress_with_strategy, decompress,
    decompress_stored, zlib_header,
};
use zlib::fixed::encode_fixed_block;
use zlib::lz77::Token;
use zlib::huffman::canonical_codes;
use zlib::stored::{deflate_stored, inflate_stored};
use zlib::window::copy_match;
use zlib::{swap32, Flush, GZipHeader, ZStream, ZERR};

#[test]
fn swap32_reverses_bytes() {
    assert_eq!(swap32(0x12345678), 0x78563412);
    assert_eq!(swap32(0), 0);
    assert_eq!(swap32(0xff), 0xff000000);
    assert_eq!(swap32(swap32(0xdeadbeef)), 0xdeadbeef);
}

#[test]
fn new_stream_is_empty() {
    let z = ZStream::new();
    assert_eq!(z.next_in, 0);
    assert_eq!(z.avail_in, 0);
    assert_eq!(z.total_in, 0);
    assert_eq!(z.next_out, 0);
    assert_eq!(z.avail_out, 0);
    assert_eq!(z.total_out, 0);
    assert!(z.msg.is_none());
    assert_eq!(z.data_type, 0);
    assert_eq!(z.adler, 0);
}

#[test]
fn new_gzip_header_is_empty() {
    let h = GZipHeader::new();
    assert!(!h.text);
    assert_eq!(h.time, 0);
    assert_eq!(h.xflags, 0);
    assert_eq!(h.os, 0);
    assert_eq!(h.extra_len, 0);
    assert!(h.extra.is_none());
    assert!(h.name.is_none());
    assert!(h.comment.is_none());
    assert!(!h.hcrc);
    assert!(!h.done);
}

#[test]
fn flush_and_result_codes() {
    assert_eq!(Flush::NoFlush.code(), 0);
    assert_eq!(Flush::SyncFlush.code(), 2);
    assert_eq!(Flush::Trees.code(), 6);
    assert_eq!(Flush::from_code(4), Ok(Flush::Finish));
    assert_eq!(Flush::from_code(7), Err(ZERR::StreamError));
    assert_eq!(ZERR::Success.code(), 0);
    assert_eq!(ZERR::StreamEnd.code(), 1);
    assert_eq!(ZERR::NeedDict.code(), 2);
    assert_eq!(ZERR::Errno.code(), -1);
    assert_eq!(ZERR::StreamError.code(), -2);
    assert_eq!(ZERR::DataError.code(), -3);
}

#[test]
fn copy_match_overlapping() {
    let mut out = b"ab".to_vec();
    assert_eq!(copy_match(&mut out, 2, 5, 32768), ZERR::Success);
    assert_eq!(out, b"abababa".to_vec());
    let mut run = vec![7u8];
    assert_eq!(copy_match(&mut run, 1, 4, 256), ZERR::Success);
    assert_eq!(run, vec![7u8; 5]);
}

#[test]
fn copy_match_beyond_output_is_data_error() {
    let mut out = b"abc".to_vec();
    assert_eq!(copy_match(&mut out, 4, 3, 32768), ZERR::DataError);
    assert_eq!(out, b"abc".to_vec());
    assert_eq!(copy_match(&mut out, 0, 3, 32768), ZERR::DataError);
    assert_eq!(out, b"abc".to_vec());
}

#[test]
fn copy_match_beyond_window_is_data_error() {
    let mut out = vec![1u8; 300];
    assert_eq!(copy_match(&mut out, 257, 3, 256), ZERR::DataError);
    assert_eq!(out.len(), 300);
    assert_eq!(copy_match(&mut out, 256, 3, 256), ZERR::Success);
    assert_eq!(out.len(), 303);
}

#[test]
fn stored_empty_input() {
    let z = deflate_stored(&[]);
    assert_eq!(z, vec![1, 0, 0, 0xff, 0xff]);
    assert_eq!(inflate_stored(&z), Ok((vec![], 5)));
}

#[test]
fn stored_single_byte() {
    let z = deflate_stored(&[0x41]);
    assert_eq!(z, vec![1, 1, 0, 0xfe, 0xff, 0x41]);
    assert_eq!(inflate_stored(&z), Ok((vec![0x41], 6)));
}

#[test]
fn stored_round_trip_large_and_varied() {
    let mut data: Vec<u8> = Vec::new();
    let mut x: u32 = 12345;
    for _ in 0..70000 {
        x = x.wrapping_mul(1103515245).wrapping_add(12345);
        data.push((x >> 16) as u8);
    }
    let z = deflate_stored(&data);
    assert_eq!(z.len(), data.len() + 10);
    assert_eq!(z[0], 0);
    assert_eq!(z[65540], 1);
    let (back, used) = inflate_stored(&z).unwrap();
    assert_eq!(back, data);
    assert_eq!(used, z.len());
    let repetitive = vec![b'a'; 65535];
    let z = deflate_stored(&repetitive);
    assert_eq!(z.len(), 65540);
    assert_eq!(inflate_stored(&z).unwrap().0, repetitive);
}

#[test]
fn stored_decoder_ignores_trailing_bytes() {
    let mut z = deflate_stored(b"hello");
    z.extend_from_slice(&[9, 9, 9]);
    assert_eq!(inflate_stored(&z), Ok((b"hello".to_vec(), 10)));
}

#[test]
fn stored_decoder_errors() {
    assert_eq!(inflate_stored(&[1, 0, 0, 0xff]), Err(ZERR::DataError));
    assert_eq!(inflate_stored(&[1, 1, 0, 0xff, 0xff, 0]), Err(ZERR::DataError));
    assert_eq!(inflate_stored(&[1, 2, 0, 0xfd, 0xff, 0]), Err(ZERR::DataError));
    assert_eq!(inflate_stored(&[3, 0, 0, 0xff, 0xff]), Err(ZERR::StreamError));
    assert_eq!(inflate_stored(&[7, 0, 0, 0xff, 0xff]), Err(ZERR::DataError));
    assert_eq!(inflate_stored(&[0, 0, 0, 0xff, 0xff]), Err(ZERR::DataError));
}

#[test]
fn adler32_known_values() {
    assert_eq!(adler32_update(1, &[]), 1);
    assert_eq!(adler32_update(1, b"Wikipedia"), 0x11e60398);
    assert_eq!(adler32_update(1, &[0u8; 13]), 0x000d0001);
    let whole = adler32_update(1, b"hello world");
    let part = adler32_update(adler32_update(1, b"hello"), b" world");
    assert_eq!(whole, part);
}

#[test]
fn zlib_header_values() {
    assert_eq!(zlib_header(15, 6), Ok((0x78, 0x9c)));
    assert_eq!(zlib_header(15, -1), Ok((0x78, 0x9c)));
    assert_eq!(zlib_header(15, 0), Ok((0x78, 0x01)));
    assert_eq!(zlib_header(15, 9), Ok((0x78, 0xda)));
    assert_eq!(zlib_header(15, 3), Ok((0x78, 0x5e)));
    assert_eq!(zlib_header(16, 6), Err(ZERR::StreamError));
    assert_eq!(zlib_header(7, 6), Err(ZERR::StreamError));
    assert_eq!(zlib_header(15, 10), Err(ZERR::StreamError));
    for w in 8..16u8 {
        for l in -1..10i32 {
            let (cmf, flg) = zlib_header(w, l).unwrap();
            assert_eq!((cmf as u32 * 256 + flg as u32) % 31, 0);
            assert_eq!(check_zlib_header(cmf, flg), Ok(w));
        }
    }
}

#[test]
fn zlib_header_check_errors() {
    assert_eq!(check_zlib_header(0x78, 0x9c), Ok(15));
    assert_eq!(check_zlib_header(0x78, 0x9d), Err(ZERR::DataError));
    assert_eq!(check_zlib_header(0x78, 0xbb), Err(ZERR::NeedDict));
    assert_eq!(check_zlib_header(0x87, 0x00), Err(ZERR::DataError));
}

#[test]
fn thirteen_zero_bytes_in_zlib() {
    let data = [0u8; 13];
    let z = compress_stored(&data);
    assert_eq!(z.len(), 2 + 5 + 13 + 4);
    assert_eq!((z[0] as u32 * 256 + z[1] as u32) % 31, 0);
    assert_eq!(z[2], 1);
    assert_eq!(&z[z.len() - 4..], &[0, 0x0d, 0, 1]);
    assert_eq!(decompress_stored(&z), Ok(data.to_vec()));
}

#[test]
fn zlib_round_trip_and_corruption() {
    let data = b"The quick brown fox jumps over the lazy dog".to_vec();
    let mut z = compress_stored(&data);
    assert_eq!(decompress_stored(&z), Ok(data.clone()));
    let last = z.len() - 1;
    z[last] ^= 1;
    assert_eq!(decompress_stored(&z), Err(ZERR::DataError));
    let z = compress_stored(&data);
    assert_eq!(decompress_stored(&z[..z.len() - 1]), Err(ZERR::DataError));
    assert_eq!(decompress_stored(&[0x78]), Err(ZERR::DataError));
    assert_eq!(decompress_stored(&[0x78, 0xbb, 1, 0, 0, 0xff, 0xff]), Err(ZERR::NeedDict));
    assert_eq!(decompress_stored(&compress_stored(&[])), Ok(vec![]));
}

#[test]
fn canonical_codes_rfc_example() {
    let codes = canonical_codes(&[3, 3, 3, 3, 3, 2, 4, 4]).unwrap();
    assert_eq!(codes, vec![2, 3, 4, 5, 6, 0, 14, 15]);
    let codes = canonical_codes(&[2, 1, 3, 3]).unwrap();
    assert_eq!(codes, vec![2, 0, 6, 7]);
    let codes = canonical_codes(&[0, 1, 0, 1]).unwrap();
    assert_eq!(codes, vec![0, 0, 0, 1]);
}

#[test]
fn canonical_codes_fixed_literal_table() {
    let mut lengths = vec![8u8; 144];
    lengths.extend(vec![9u8; 112]);
    lengths.extend(vec![7u8; 24]);
    lengths.extend(vec![8u8; 8]);
    let codes = canonical_codes(&lengths).unwrap();
    assert_eq!(codes[0], 0x30);
    assert_eq!(codes[143], 0xbf);
    assert_eq!(codes[144], 0x190);
    assert_eq!(codes[255], 0x1ff);
    assert_eq!(codes[256], 0);
    assert_eq!(codes[279], 0x17);
    assert_eq!(codes[280], 0xc0);
    assert_eq!(codes[287], 0xc7);
}

#[test]
fn canonical_codes_rejects_bad_lengths() {
    assert_eq!(canonical_codes(&[1, 1, 1]), None);
    assert_eq!(canonical_codes(&[2, 2, 2, 2, 2]), None);
    assert_eq!(canonical_codes(&[16, 1]), None);
    assert_eq!(canonical_codes(&[]), Some(vec![]));
    let codes = canonical_codes(&[15u8; 2]).unwrap();
    assert_eq!(codes, vec![0, 1]);
}

#[test]
fn canonical_codes_are_prefix_free() {
    let lengths = [2u8, 3, 3, 4, 4, 4, 5, 5, 0, 6, 6];
    let codes = canonical_codes(&lengths).unwrap();
    for i in 0..lengths.len() {
        for j in 0..lengths.len() {
            let (a, b) = (lengths[i], lengths[j]);
            if i == j || a == 0 || b == 0 || a > b {
                continue;
            }
            assert_ne!(codes[j] >> (b - a), codes[i]);
        }
    }
}

fn sample_inputs() -> Vec<Vec<u8>> {
    let mut random: Vec<u8> = Vec::new();
    let mut x: u32 = 2024;
    for _ in 0..4000 {
        x = x.wrapping_mul(1103515245).wrapping_add(12345);
        random.push((x >> 16) as u8);
    }
    let mut text: Vec<u8> = Vec::new();
    for i in 0..200 {
        text.extend_from_slice(b"the quick brown fox ");
        text.push(b'0' + (i % 10) as u8);
    }
    vec![vec![], vec![0x5a], random, vec![b'r'; 100000], text]
}

#[test]
fn zlib_round_trip_every_level() {
    for data in sample_inputs() {
        for level in -1..10 {
            let z = compress(&data, level).unwrap();
            assert_eq!((z[0] as u32 * 256 + z[1] as u32) % 31, 0);
            assert_eq!(decompress(&z), Ok(data.clone()));
        }
    }
}

#[test]
fn zlib_round_trip_every_strategy() {
    for data in sample_inputs() {
        for strategy in 0..5usize {
            for level in [0, 1, 6, 9] {
                let z = compress_with_strategy(&data, level, strategy).unwrap();
                assert_eq!(decompress(&z), Ok(data.clone()));
            }
        }
    }
    assert_eq!(compress_with_strategy(b"x", 6, 5), Err(ZERR::StreamError));
    let huff = compress_with_strategy(&[9u8; 1000], 6, 2).unwrap();
    let rle = compress_with_strategy(&[9u8; 1000], 6, 3).unwrap();
    assert!(rle.len() < huff.len());
}

#[test]
fn zlib_compress_levels() {
    assert_eq!(compress(b"abc", 10), Err(ZERR::StreamError));
    assert_eq!(compress(b"abc", -2), Err(ZERR::StreamError));
    let z = compress(b"a", 6).unwrap();
    assert_eq!(z, vec![0x78, 0x9c, 0x4b, 0x04, 0x00, 0x00, 0x62, 0x00, 0x62]);
    let z = compress(b"a", 1).unwrap();
    assert_eq!(&z[..2], &[0x78, 0x01]);
    let z = compress(b"a", 9).unwrap();
    assert_eq!(&z[..2], &[0x78, 0xda]);
    assert_eq!(compress(b"a", 0).unwrap(), compress_stored(b"a"));
    let zeros = compress(&[0u8; 13], -1).unwrap();
    assert_eq!(zeros[2] & 0x07, 0x03);
}

#[test]
fn zlib_decompress_refuses_other_blocks() {
    assert_eq!(decompress(&[0x78, 0x9c, 0x05, 0, 0, 0, 0]), Err(ZERR::StreamError));
    assert_eq!(decompress(&[0x78, 0x9c, 0x02, 0, 0, 0, 0]), Err(ZERR::StreamError));
    assert_eq!(decompress(&[0x78, 0x9c, 0x07, 0, 0, 0, 0]), Err(ZERR::DataError));
    assert_eq!(decompress(&[0x78, 0x9c]), Err(ZERR::DataError));
    assert_eq!(decompress(&[0x78, 0xbb, 0x03]), Err(ZERR::NeedDict));
    let mut z = compress(b"checksum", 6).unwrap();
    let n = z.len();
    z[n - 1] ^= 0x40;
    assert_eq!(decompress(&z), Err(ZERR::DataError));
    assert_eq!(decompress(&z[..n - 2]), Err(ZERR::DataError));
}

fn zlib_with_tokens(wbits: u8, tokens: &Vec<Token>, expanded: &[u8]) -> Vec<u8> {
    let (cmf, flg) = zlib_header(wbits, 6).unwrap();
    let mut w = BitWriter::new();
    encode_fixed_block(&mut w, tokens, true);
    w.align_to_byte();
    let mut z = vec![cmf, flg];
    z.extend_from_slice(&w.bytes);
    z.extend_from_slice(&adler32_update(1, expanded).to_be_bytes());
    z
}

#[test]
fn zlib_window_from_header_bounds_references() {
    let mut tokens = vec![Token::Literal(3); 300];
    tokens.push(Token::Match(3, 300));
    let expanded = vec![3u8; 303];
    let small = zlib_with_tokens(8, &tokens, &expanded);
    assert_eq!(decompress(&small), Err(ZERR::DataError));
    let large = zlib_with_tokens(9, &tokens, &expanded);
    assert_eq!(decompress(&large), Ok(expanded.clone()));
    let early = zlib_with_tokens(15, &vec![Token::Literal(3), Token::Match(3, 2)], &expanded);
    assert_eq!(decompress(&early), Err(ZERR::DataError));
}
