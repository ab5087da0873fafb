use zlib::bits::{read_bit, read_bits, BitWriter};
use zlib::codes::{distance_code_info, distance_symbol, length_code_info, length_symbol};
use zlib::fixed::{compress_fixed, decode_fixed_symbol, encode_fixed_block, inflate_fixed_block, read_fixed_token};
use zlib::huffman::{decode_symbol, Decoded};
use zlib::lz77::{expand_tokens, longest_match, lz77_tokens, Token};
use zlib::stored::StoredDeflater;
use zlib::stored::{deflate_stored, inflate_stored};
use zlib::resume::{Phase, StoredInflater};
use zlib::{Flush, ZERR};

#[test]
fn reads_bits_least_significant_first() {
    let src = [0b1011_0100u8, 0xff];
    assert!(!read_bit(&src, 0));
    assert!(read_bit(&src, 2));
    assert_eq!(read_bits(&src, 2, 3), Some(5));
    assert_eq!(read_bits(&src, 0, 16), Some(0xffb4));
    assert_eq!(read_bits(&src, 14, 2), Some(3));
    assert_eq!(read_bits(&src, 14, 4), None);
    assert_eq!(read_bits(&src, 16, 0), Some(0));
}

#[test]
fn bit_writer_packs_and_aligns() {
    let mut w = BitWriter::new();
    w.write_bits(5, 3);
    w.write_bits(0x1ff, 9);
    assert_eq!(w.bytes, vec![0xfd]);
    assert_eq!(w.nbits, 4);
    w.align_to_byte();
    assert_eq!(w.nbits, 0);
    assert_eq!(w.bytes, vec![0xfd, 0x0f]);
    w.align_to_byte();
    assert_eq!(w.bytes, vec![0xfd, 0x0f]);
    w.write_bit(true);
    w.align_to_byte();
    assert_eq!(w.bytes, vec![0xfd, 0x0f, 0x01]);
}

#[test]
fn read_back_what_was_written() {
    let mut w = BitWriter::new();
    w.write_bits(0x2a, 6);
    w.write_bits(0x1234, 13);
    w.align_to_byte();
    assert_eq!(read_bits(&w.bytes, 0, 6), Some(0x2a));
    assert_eq!(read_bits(&w.bytes, 6, 13), Some(0x1234));
}

#[test]
fn decode_symbol_walks_lengths() {
    let lengths = [2u8, 1, 3, 3];
    let codes = [2u16, 0, 6, 7];
    assert_eq!(decode_symbol(&[0b011], 0, &lengths, &codes), Decoded::Symbol(2, 3));
    assert_eq!(decode_symbol(&[0b111], 0, &lengths, &codes), Decoded::Symbol(3, 3));
    assert_eq!(decode_symbol(&[0b001], 0, &lengths, &codes), Decoded::Symbol(0, 2));
    assert_eq!(decode_symbol(&[0], 0, &lengths, &codes), Decoded::Symbol(1, 1));
    assert_eq!(decode_symbol(&[0b0110], 1, &lengths, &codes), Decoded::Symbol(2, 3));
    assert_eq!(decode_symbol(&[], 0, &lengths, &codes), Decoded::NeedInput);
    assert_eq!(decode_symbol(&[0xff, 0xff], 0, &[1], &[0]), Decoded::Invalid);
    assert_eq!(decode_symbol(&[0xff], 0, &[1], &[0]), Decoded::NeedInput);
}

#[test]
fn length_symbols_match_the_table() {
    assert_eq!(length_symbol(3), (257, 0, 0));
    assert_eq!(length_symbol(10), (264, 0, 0));
    assert_eq!(length_symbol(11), (265, 1, 0));
    assert_eq!(length_symbol(12), (265, 1, 1));
    assert_eq!(length_symbol(13), (266, 1, 0));
    assert_eq!(length_symbol(19), (269, 2, 0));
    assert_eq!(length_symbol(227), (284, 5, 0));
    assert_eq!(length_symbol(257), (284, 5, 30));
    assert_eq!(length_symbol(258), (285, 0, 0));
    assert_eq!(length_code_info(265), (1, 11));
    assert_eq!(length_code_info(284), (5, 227));
    assert_eq!(length_code_info(285), (0, 258));
}

#[test]
fn distance_symbols_match_the_table() {
    assert_eq!(distance_symbol(1), (0, 0, 0));
    assert_eq!(distance_symbol(4), (3, 0, 0));
    assert_eq!(distance_symbol(5), (4, 1, 0));
    assert_eq!(distance_symbol(6), (4, 1, 1));
    assert_eq!(distance_symbol(7), (5, 1, 0));
    assert_eq!(distance_symbol(24577), (29, 13, 0));
    assert_eq!(distance_symbol(32768), (29, 13, 8191));
    assert_eq!(distance_code_info(29), (13, 24577));
    assert_eq!(distance_code_info(4), (1, 5));
}

#[test]
fn longest_match_finds_nearest_longest() {
    assert_eq!(longest_match(b"aaaa", 1, 32768, 8), (3, 1));
    assert_eq!(longest_match(b"abcabcab", 3, 32768, 8), (5, 3));
    assert_eq!(longest_match(b"abcabcab", 3, 2, 8), (0, 0));
    assert_eq!(longest_match(b"abcabcab", 3, 32768, 2), (0, 0));
    assert_eq!(longest_match(b"abcd", 2, 32768, 8), (0, 0));
    let long = vec![b'z'; 400];
    assert_eq!(longest_match(&long, 1, 32768, 8), (258, 1));
}

#[test]
fn lz77_tokens_and_expand() {
    let t = lz77_tokens(b"abcabcabc", 32768, 16, false);
    assert_eq!(
        t,
        vec![Token::Literal(b'a'), Token::Literal(b'b'), Token::Literal(b'c'), Token::Match(6, 3)]
    );
    assert_eq!(expand_tokens(&t, 32768), Ok(b"abcabcabc".to_vec()));
    let t0 = lz77_tokens(b"aaaaaa", 32768, 0, false);
    assert_eq!(t0.len(), 6);
    assert!(t0.iter().all(|t| matches!(t, Token::Literal(_))));
    let mut data: Vec<u8> = Vec::new();
    let mut x: u32 = 7;
    for i in 0..3000u32 {
        x = x.wrapping_mul(1664525).wrapping_add(1013904223);
        data.push(if i % 7 < 3 { b'q' } else { (x >> 29) as u8 });
    }
    for lazy in [false, true] {
        for depth in [0usize, 1, 4, 64] {
            let t = lz77_tokens(&data, 32768, depth, lazy);
            assert_eq!(expand_tokens(&t, 32768), Ok(data.clone()));
        }
    }
    assert_eq!(lz77_tokens(&[], 32768, 8, true), vec![]);
}

#[test]
fn lazy_matching_defers_for_longer_match() {
    let data = b"abcdbcdeabcdeabcde";
    let greedy = lz77_tokens(data, 32768, 64, false);
    let lazy = lz77_tokens(data, 32768, 64, true);
    assert_eq!(expand_tokens(&greedy, 32768), Ok(data.to_vec()));
    assert_eq!(expand_tokens(&lazy, 32768), Ok(data.to_vec()));
    assert!(lazy.len() <= greedy.len());
}

#[test]
fn expand_tokens_rejects_bad_references() {
    assert_eq!(expand_tokens(&vec![Token::Match(3, 1)], 32768), Err(ZERR::DataError));
    let t = vec![Token::Literal(1), Token::Match(2, 1)];
    assert_eq!(expand_tokens(&t, 32768), Err(ZERR::DataError));
    let t = vec![Token::Literal(1), Token::Match(259, 1)];
    assert_eq!(expand_tokens(&t, 32768), Err(ZERR::DataError));
    let mut t = vec![Token::Literal(1); 300];
    t.push(Token::Match(3, 300));
    assert_eq!(expand_tokens(&t, 256), Err(ZERR::DataError));
    assert_eq!(expand_tokens(&t, 512).map(|v| v.len()), Ok(303));
}

#[test]
fn fixed_block_of_one_literal() {
    assert_eq!(compress_fixed(b"a", 8, true), vec![0x4b, 0x04, 0x00]);
    assert_eq!(compress_fixed(b"", 8, true), vec![0x03, 0x00]);
}

#[test]
fn fixed_block_of_a_match() {
    let mut w = BitWriter::new();
    encode_fixed_block(&mut w, &vec![Token::Literal(b'a'), Token::Match(3, 1)], true);
    w.align_to_byte();
    assert_eq!(w.bytes, vec![0x4b, 0x04, 0x02, 0x00]);
}

#[test]
fn thirteen_zero_bytes_fixed_block() {
    let z = compress_fixed(&[0u8; 13], 8, true);
    assert_eq!(z[0] & 0x07, 0x03);
    assert!(z.len() < 13);
}

#[test]
fn stored_deflater_flush_then_finish() {
    let mut d = StoredDeflater::new();
    let (a, ra) = d.deflate(b"hello ", Flush::SyncFlush);
    assert_eq!(ra, ZERR::Success);
    assert_eq!(&a[a.len() - 5..], &[0, 0, 0, 0xff, 0xff]);
    let (b, rb) = d.deflate(b"world", Flush::Finish);
    assert_eq!(rb, ZERR::StreamEnd);
    let (c, rc) = d.deflate(&[], Flush::Finish);
    assert_eq!(rc, ZERR::StreamEnd);
    assert!(c.is_empty());
    let (e, re) = d.deflate(b"x", Flush::NoFlush);
    assert_eq!(re, ZERR::StreamError);
    assert!(e.is_empty());
    let mut all = a.clone();
    all.extend_from_slice(&b);
    let (back, used) = inflate_stored(&all).unwrap();
    assert_eq!(back, b"hello world".to_vec());
    assert_eq!(used, all.len());
}

#[test]
fn stored_deflater_no_flush_holds_input() {
    let mut d = StoredDeflater::new();
    let (a, r) = d.deflate(b"abc", Flush::NoFlush);
    assert_eq!(r, ZERR::Success);
    assert!(a.is_empty());
    assert_eq!(d.pending, b"abc".to_vec());
    let (e, r) = d.deflate(&[], Flush::FullFlush);
    assert_eq!(r, ZERR::Success);
    assert_eq!(e, vec![0, 3, 0, 0xfc, 0xff, b'a', b'b', b'c', 0, 0, 0, 0xff, 0xff]);
    assert!(d.pending.is_empty());
    let (p, r) = d.deflate(b"z", Flush::PartialFlush);
    assert_eq!(r, ZERR::Success);
    assert_eq!(p, vec![0, 1, 0, 0xfe, 0xff, b'z']);
}

#[test]
fn stored_deflater_output_independent_of_chunking() {
    let data: Vec<u8> = (0..70000u32).map(|i| (i % 253) as u8).collect();
    let whole = deflate_stored(&data);
    for size in [1usize, 7, 1000, 65535, 70000] {
        let mut d = StoredDeflater::new();
        let mut out = Vec::new();
        let chunks: Vec<&[u8]> = data.chunks(size).collect();
        for c in &chunks[..chunks.len() - 1] {
            let (o, r) = d.deflate(c, Flush::NoFlush);
            assert_eq!(r, ZERR::Success);
            out.extend_from_slice(&o);
        }
        let (o, r) = d.deflate(chunks[chunks.len() - 1], Flush::Finish);
        assert_eq!(r, ZERR::StreamEnd);
        out.extend_from_slice(&o);
        assert_eq!(out, whole);
    }
}

fn fixed_round_trip(data: &[u8], depth: usize, lazy: bool) {
    let z = compress_fixed(data, depth, lazy);
    assert_eq!(read_bits(&z, 0, 3), Some(3));
    let mut out = Vec::new();
    let end = inflate_fixed_block(&z, 3, &mut out, 32768).unwrap();
    assert_eq!(out, data.to_vec());
    assert!(end <= z.len() * 8 && z.len() * 8 - end < 8);
}

#[test]
fn fixed_blocks_round_trip() {
    fixed_round_trip(b"", 8, true);
    fixed_round_trip(b"a", 8, true);
    fixed_round_trip(&[0u8; 13], 8, false);
    fixed_round_trip(b"abcabcabcabcabcabc hello hello hello", 32, true);
    let mut data: Vec<u8> = Vec::new();
    let mut x: u32 = 99;
    for i in 0..5000u32 {
        x = x.wrapping_mul(22695477).wrapping_add(1);
        data.push(if i % 11 < 6 { (i % 5) as u8 } else { (x >> 24) as u8 });
    }
    for depth in [0usize, 1, 8, 300] {
        fixed_round_trip(&data, depth, false);
        fixed_round_trip(&data, depth, true);
    }
    let long = vec![0xabu8; 70000];
    fixed_round_trip(&long, 4, true);
}

#[test]
fn fixed_symbols_decode() {
    assert_eq!(decode_fixed_symbol(&[0x00], 0), Some((256, 7)));
    assert_eq!(decode_fixed_symbol(&[0x89], 0), Some((b'a' as u32, 8)));
    assert_eq!(decode_fixed_symbol(&[0x03, 0x00], 0), Some((280, 8)));
    assert_eq!(decode_fixed_symbol(&[0x13, 0x00], 0), Some((144, 9)));
    assert_eq!(decode_fixed_symbol(&[0x13], 0), None);
    assert_eq!(decode_fixed_symbol(&[0xff], 2), None);
}

#[test]
fn fixed_decoder_rejects_reference_beyond_output() {
    let mut w = BitWriter::new();
    encode_fixed_block(&mut w, &vec![Token::Literal(b'a'), Token::Match(3, 2)], true);
    w.align_to_byte();
    let mut out = Vec::new();
    assert_eq!(inflate_fixed_block(&w.bytes, 3, &mut out, 32768), Err(ZERR::DataError));
    assert_eq!(out, b"a".to_vec());
}

#[test]
fn fixed_decoder_rejects_reference_beyond_window() {
    let mut tokens = vec![Token::Literal(7); 300];
    tokens.push(Token::Match(3, 300));
    let mut w = BitWriter::new();
    encode_fixed_block(&mut w, &tokens, true);
    w.align_to_byte();
    let mut out = Vec::new();
    assert_eq!(inflate_fixed_block(&w.bytes, 3, &mut out, 256), Err(ZERR::DataError));
    assert_eq!(out.len(), 300);
    let mut out = Vec::new();
    assert!(inflate_fixed_block(&w.bytes, 3, &mut out, 512).is_ok());
    assert_eq!(out, vec![7u8; 303]);
}

#[test]
fn fixed_decoder_errors() {
    let mut out = Vec::new();
    assert_eq!(inflate_fixed_block(&[0x4b, 0x04], 3, &mut out, 32768), Err(ZERR::DataError));
    assert_eq!(read_fixed_token(&[0xa3, 0x01], 0), Err(ZERR::DataError));
    assert_eq!(read_fixed_token(&[0x00], 0), Ok((None, 7)));
}

fn feed_in_chunks(z: &[u8], size: usize) -> (Vec<u8>, ZERR) {
    let mut d = StoredInflater::new();
    let mut out = Vec::new();
    let mut last = ZERR::Success;
    for chunk in z.chunks(size.max(1)) {
        last = d.feed(chunk, &mut out);
    }
    (out, last)
}

#[test]
fn stored_inflater_any_chunking() {
    let mut data: Vec<u8> = Vec::new();
    for i in 0..70000u32 {
        data.push((i * 7 % 251) as u8);
    }
    let z = deflate_stored(&data);
    for size in [1usize, 2, 3, 5, 4096, 65540, z.len()] {
        let (out, r) = feed_in_chunks(&z, size);
        assert_eq!(r, ZERR::StreamEnd);
        assert_eq!(out, data);
    }
    let (out, r) = feed_in_chunks(&deflate_stored(&[]), 1);
    assert_eq!(r, ZERR::StreamEnd);
    assert!(out.is_empty());
}

#[test]
fn stored_inflater_waits_and_fails() {
    let z = deflate_stored(b"abc");
    let mut d = StoredInflater::new();
    let mut out = Vec::new();
    assert_eq!(d.feed(&z[..6], &mut out), ZERR::Success);
    assert_eq!(out, b"a".to_vec());
    assert_eq!(d.phase, Phase::Copy(2, true));
    assert_eq!(d.feed(&z[6..], &mut out), ZERR::StreamEnd);
    assert_eq!(out, b"abc".to_vec());
    assert_eq!(d.feed(&[1, 2, 3], &mut out), ZERR::StreamEnd);
    assert_eq!(out, b"abc".to_vec());
    let mut bad = StoredInflater::new();
    let mut o = Vec::new();
    assert_eq!(bad.feed(&[1, 1, 0, 0xff, 0xff], &mut o), ZERR::DataError);
    assert_eq!(bad.feed(&[0], &mut o), ZERR::DataError);
    let mut typed = StoredInflater::new();
    assert_eq!(typed.feed(&[3, 0, 0, 0xff, 0xff], &mut o), ZERR::StreamError);
    let mut reserved = StoredInflater::new();
    assert_eq!(reserved.feed(&[6, 0, 0, 0xff, 0xff], &mut o), ZERR::DataError);
    assert!(o.is_empty());
}

#[test]
fn stored_inflater_reads_flushed_segments() {
    let mut enc = StoredDeflater::new();
    let (a, _) = enc.deflate(b"part one, ", Flush::SyncFlush);
    let (b, _) = enc.deflate(b"part two", Flush::Finish);
    let mut dec = StoredInflater::new();
    let mut out = Vec::new();
    assert_eq!(dec.feed(&a, &mut out), ZERR::Success);
    assert_eq!(out, b"part one, ".to_vec());
    assert_eq!(dec.feed(&b, &mut out), ZERR::StreamEnd);
    assert_eq!(out, b"part one, part two".to_vec());
}

#[test]
fn decoder_started_after_flush_point() {
    let mut enc = StoredDeflater::new();
    let (a, _) = enc.deflate(b"before", Flush::SyncFlush);
    let (b, _) = enc.deflate(b"after", Flush::Finish);
    let mut first = StoredInflater::new();
    let mut out = Vec::new();
    assert_eq!(first.feed(&a, &mut out), ZERR::Success);
    assert_eq!(out, b"before".to_vec());
    assert_eq!(first.phase, StoredInflater::new().phase);
    let mut late = StoredInflater::new();
    let mut out2 = Vec::new();
    assert_eq!(late.feed(&b, &mut out2), ZERR::StreamEnd);
    assert_eq!(out2, b"after".to_vec());
}
