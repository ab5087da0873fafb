use vstd::prelude::*;

use crate::{Flush, ZERR};

verus! {

/// Most bytes one stored block can carry.
pub const MAX_STORED: usize = 65535;

/// A number below 2^16 as two bytes, least significant first.
pub open spec fn le16(n: nat) -> Seq<u8> {
    seq![(n % 256) as u8, (n / 256) as u8]
}

/// The value of two bytes read least significant first.
pub open spec fn le16_value(lo: u8, hi: u8) -> nat {
    (lo + 256 * hi) as nat
}

/// One stored block: a header byte whose low bit marks the last block and
/// whose next two bits (the block type) are zero, then the length and its
/// one's complement, then the bytes themselves.
pub open spec fn stored_block(data: Seq<u8>, last: bool) -> Seq<u8> {
    seq![if last { 1u8 } else { 0u8 }] + le16(data.len()) + le16((65535 - data.len()) as nat)
        + data
}

/// A whole deflate stream of stored blocks: full blocks of `MAX_STORED` bytes,
/// then one last block with what remains (possibly nothing).
pub open spec fn stored_stream(data: Seq<u8>) -> Seq<u8>
    decreases data.len(),
{
    if data.len() <= 65535 {
        stored_block(data, true)
    } else {
        stored_block(data.take(65535), false) + stored_stream(data.skip(65535))
    }
}

/// Decoding of a stream of stored blocks: the bytes carried and how many
/// input bytes the blocks took up, up to and including the last block.
/// Bytes after the last block are left alone. A block of a compressed type is
/// refused as a usage error; the reserved block type, a length whose check
/// does not match, or input that ends inside a block is a data error.
pub open spec fn decode_stored(s: Seq<u8>) -> Result<(Seq<u8>, nat), ZERR>
    decreases s.len(),
{
    if s.len() < 5 {
        Err(ZERR::DataError)
    } else {
        let btype = (s[0] / 2) % 4;
        let len = le16_value(s[1], s[2]) as int;
        let nlen = le16_value(s[3], s[4]) as int;
        if btype == 3 {
            Err(ZERR::DataError)
        } else if btype != 0 {
            Err(ZERR::StreamError)
        } else if len + nlen != 65535 {
            Err(ZERR::DataError)
        } else if s.len() < 5 + len {
            Err(ZERR::DataError)
        } else if s[0] % 2 == 1 {
            Ok((s.subrange(5, 5 + len), (5 + len) as nat))
        } else {
            prepend(s.subrange(5, 5 + len), (5 + len) as nat, decode_stored(s.skip(5 + len)))
        }
    }
}

/// Puts decoded bytes, and the input they took, in front of a later result.
pub open spec fn prepend(out: Seq<u8>, used: nat, r: Result<(Seq<u8>, nat), ZERR>) -> Result<
    (Seq<u8>, nat),
    ZERR,
> {
    match r {
        Ok((d, c)) => Ok((out + d, used + c)),
        Err(e) => Err(e),
    }
}

/// Appends `data[start..end]` to `out`.
fn append_range(out: &mut Vec<u8>, data: &[u8], start: usize, end: usize)
    requires
        start <= end <= data@.len(),
    ensures
        final(out)@ == old(out)@ + data@.subrange(start as int, end as int),
{
    let ghost head = out@;
    let mut i: usize = start;
    while i < end
        invariant
            start <= i <= end <= data@.len(),
            out@ == head + data@.subrange(start as int, i as int),
        decreases end - i,
    {
        out.push(data[i]);
        i = i + 1;
        assert(out@ =~= head + data@.subrange(start as int, i as int));
    }
}

/// Appends one stored block holding `data[start..end]`.
fn emit_stored_block(out: &mut Vec<u8>, data: &[u8], start: usize, end: usize, last: bool)
    requires
        start <= end <= data@.len(),
        end - start <= MAX_STORED,
    ensures
        final(out)@ == old(out)@ + stored_block(data@.subrange(start as int, end as int), last),
{
    let len: usize = end - start;
    let nlen: usize = MAX_STORED - len;
    out.push(if last { 1u8 } else { 0u8 });
    out.push((len % 256) as u8);
    out.push((len / 256) as u8);
    out.push((nlen % 256) as u8);
    out.push((nlen / 256) as u8);
    let ghost head = out@;
    append_range(out, data, start, end);
    let ghost body = data@.subrange(start as int, end as int);
    assert(head =~= old(out)@ + (seq![if last { 1u8 } else { 0u8 }] + le16(body.len()) + le16(
        (65535 - body.len()) as nat,
    )));
    assert(out@ =~= old(out)@ + stored_block(body, last));
}

/// Compresses without searching for matches: the data as a deflate stream of
/// stored blocks, the form that compression level 0 produces.
pub fn deflate_stored(data: &[u8]) -> (r: Vec<u8>)
    ensures
        r@ == stored_stream(data@),
{
    let mut out: Vec<u8> = Vec::new();
    let mut pos: usize = 0;
    assert(data@.skip(0) =~= data@);
    assert(out@ + stored_stream(data@) =~= stored_stream(data@));
    loop
        invariant
            pos <= data@.len(),
            out@ + stored_stream(data@.skip(pos as int)) == stored_stream(data@),
        decreases data@.len() - pos,
    {
        let ghost rest = data@.skip(pos as int);
        if data.len() - pos <= MAX_STORED {
            emit_stored_block(&mut out, data, pos, data.len(), true);
            assert(data@.subrange(pos as int, data@.len() as int) =~= rest);
            return out;
        }
        let ghost before = out@;
        emit_stored_block(&mut out, data, pos, pos + MAX_STORED, false);
        assert(data@.subrange(pos as int, pos + MAX_STORED) =~= rest.take(65535));
        assert(data@.skip(pos + MAX_STORED) =~= rest.skip(65535));
        assert(out@ + stored_stream(data@.skip(pos + MAX_STORED)) =~= before + stored_stream(
            rest,
        ));
        pos = pos + MAX_STORED;
    }
}

proof fn lemma_prepend_assoc(
    a: Seq<u8>,
    i: nat,
    b: Seq<u8>,
    j: nat,
    r: Result<(Seq<u8>, nat), ZERR>,
)
    ensures
        prepend(a, i, prepend(b, j, r)) == prepend(a + b, i + j, r),
{
    match r {
        Ok((d, c)) => {
            assert(a + (b + d) =~= (a + b) + d);
        },
        Err(e) => {},
    }
}

/// Decodes a deflate stream made of stored blocks: the bytes carried, and how
/// many input bytes the blocks took up (what follows, such as a container
/// trailer, is not read). Errors as `decode_stored` describes.
pub fn inflate_stored(src: &[u8]) -> (r: Result<(Vec<u8>, usize), ZERR>)
    ensures
        r matches Ok((v, c)) ==> decode_stored(src@) == Ok::<(Seq<u8>, nat), ZERR>(
            (v@, c as nat),
        ),
        r matches Err(e) ==> decode_stored(src@) == Err::<(Seq<u8>, nat), ZERR>(e),
{
    assert(src@.skip(0) =~= src@);
    inflate_stored_at(src, 0)
}

/// As `inflate_stored`, on the input from index `start` on.
pub(crate) fn inflate_stored_at(src: &[u8], start: usize) -> (r: Result<(Vec<u8>, usize), ZERR>)
    requires
        start <= src@.len(),
    ensures
        r matches Ok((v, c)) ==> decode_stored(src@.skip(start as int)) == Ok::<
            (Seq<u8>, nat),
            ZERR,
        >((v@, c as nat)),
        r matches Err(e) ==> decode_stored(src@.skip(start as int)) == Err::<(Seq<u8>, nat), ZERR>(
            e,
        ),
{
    let mut out: Vec<u8> = Vec::new();
    let mut pos: usize = start;
    let ghost whole = src@.skip(start as int);
    assert(decode_stored(whole) == prepend(out@, 0, decode_stored(whole))) by {
        match decode_stored(whole) {
            Ok((d, c)) => {
                assert(out@ + d =~= d);
            },
            Err(e) => {},
        }
    }
    loop
        invariant
            start <= pos <= src@.len(),
            whole == src@.skip(start as int),
            decode_stored(whole) == prepend(
                out@,
                (pos - start) as nat,
                decode_stored(src@.skip(pos as int)),
            ),
        decreases src@.len() - pos,
    {
        let ghost s = src@.skip(pos as int);
        if src.len() - pos < 5 {
            return Err(ZERR::DataError);
        }
        let hdr = src[pos];
        let btype = (hdr / 2) % 4;
        let len: usize = src[pos + 1] as usize + 256 * src[pos + 2] as usize;
        let nlen: usize = src[pos + 3] as usize + 256 * src[pos + 4] as usize;
        assert(s[0] == hdr && s[1] == src@[pos + 1] && s[2] == src@[pos + 2] && s[3] == src@[pos
            + 3] && s[4] == src@[pos + 4]);
        if btype == 3 {
            return Err(ZERR::DataError);
        }
        if btype != 0 {
            return Err(ZERR::StreamError);
        }
        if len + nlen != 65535 {
            return Err(ZERR::DataError);
        }
        if src.len() - pos - 5 < len {
            return Err(ZERR::DataError);
        }
        let ghost before = out@;
        let next: usize = pos + 5 + len;
        append_range(&mut out, src, pos + 5, next);
        assert(s.subrange(5, 5 + len) =~= src@.subrange(pos + 5, next as int));
        if hdr % 2 == 1 {
            return Ok((out, next - start));
        }
        assert(s.skip(5 + len) =~= src@.skip(next as int));
        proof {
            lemma_prepend_assoc(
                before,
                (pos - start) as nat,
                s.subrange(5, 5 + len),
                (5 + len) as nat,
                decode_stored(src@.skip(next as int)),
            );
        }
        pos = next;
    }
}

/// What the blocks took up lies within the input.
pub proof fn lemma_decode_stored_within(s: Seq<u8>)
    ensures
        decode_stored(s) matches Ok((d, c)) ==> c <= s.len(),
    decreases s.len(),
{
    if s.len() >= 5 {
        let len = le16_value(s[1], s[2]) as int;
        if s.len() >= 5 + len {
            lemma_decode_stored_within(s.skip(5 + len));
        }
    }
}

proof fn lemma_le16(n: nat)
    requires
        n <= 65535,
    ensures
        le16(n).len() == 2,
        le16_value(le16(n)[0], le16(n)[1]) == n,
{
}

#[verifier::rlimit(40)]
proof fn lemma_decode_stored_stream(d: Seq<u8>, t: Seq<u8>)
    ensures
        decode_stored(stored_stream(d) + t) == Ok::<(Seq<u8>, nat), ZERR>(
            (d, stored_stream(d).len()),
        ),
    decreases d.len(),
{
    let last = d.len() <= 65535;
    let b = if last {
        d
    } else {
        d.take(65535)
    };
    let n = b.len() as int;
    let s = stored_stream(d) + t;
    lemma_le16(n as nat);
    lemma_le16((65535 - n) as nat);
    let blk = stored_block(b, last);
    if last {
        assert(s =~= blk + t);
    } else {
        assert(s =~= blk + (stored_stream(d.skip(65535)) + t));
    }
    assert(s[0] == blk[0] && s[1] == blk[1] && s[2] == blk[2] && s[3] == blk[3] && s[4]
        == blk[4]);
    assert(s.subrange(5, 5 + n) =~= b);
    if !last {
        assert(s.skip(5 + n) =~= stored_stream(d.skip(65535)) + t);
        lemma_decode_stored_stream(d.skip(65535), t);
        assert(b + d.skip(65535) =~= d);
    }
}

/// Decoding undoes stored-block encoding: for every byte sequence, whatever
/// bytes follow the stream, the decoder gives back exactly the bytes encoded
/// and stops at the end of the encoded stream.
pub proof fn law_stored_round_trip(data: Seq<u8>, trailer: Seq<u8>)
    ensures
        decode_stored(stored_stream(data) + trailer) == Ok::<(Seq<u8>, nat), ZERR>(
            (data, stored_stream(data).len()),
        ),
        decode_stored(stored_stream(data)) == Ok::<(Seq<u8>, nat), ZERR>(
            (data, stored_stream(data).len()),
        ),
{
    lemma_decode_stored_stream(data, trailer);
    lemma_decode_stored_stream(data, Seq::empty());
    assert(stored_stream(data) + Seq::<u8>::empty() =~= stored_stream(data));
}

/// The data as stored blocks none of which is the last (nothing at all for
/// empty data): what a flush that does not finish the stream sends.
pub open spec fn open_blocks(data: Seq<u8>) -> Seq<u8>
    decreases data.len(),
{
    if data.len() == 0 {
        Seq::empty()
    } else if data.len() <= 65535 {
        stored_block(data, false)
    } else {
        stored_block(data.take(65535), false) + open_blocks(data.skip(65535))
    }
}

/// What one call of the stored-block encoder sends for `data` under a flush
/// mode that does not finish: the open blocks, then, for a sync or full
/// flush, an empty stored block, which leaves the output byte-aligned and
/// marks the flush point.
pub open spec fn flushed_segment(data: Seq<u8>, flush: Flush) -> Seq<u8> {
    if flush == Flush::SyncFlush || flush == Flush::FullFlush {
        open_blocks(data) + stored_block(Seq::empty(), false)
    } else {
        open_blocks(data)
    }
}

/// A stored-block encoder fed piece by piece. Under `NoFlush` it holds its
/// input back; any other flush mode sends everything held, and `Finish` ends
/// the stream.
pub struct StoredDeflater {
    /// True once the last block has been sent.
    pub finished: bool,
    /// Input taken but not yet sent.
    pub pending: Vec<u8>,
}

impl StoredDeflater {
    /// An encoder at the start of a stream.
    pub fn new() -> (r: StoredDeflater)
        ensures
            !r.finished,
            r.pending@.len() == 0,
    {
        StoredDeflater { finished: false, pending: Vec::new() }
    }

    /// Encodes `input` under the flush mode `flush`. With `NoFlush` the
    /// input is held and nothing is sent. With `Finish` all held input and
    /// `input` go out as the stream's last blocks and the result is
    /// `StreamEnd`; with another mode they go out as blocks that are not the
    /// last (see `flushed_segment`). Once the stream has ended, a call with no
    /// input sends nothing and gives `StreamEnd` again; a call with input is a
    /// usage error and sends nothing.
    pub fn deflate(&mut self, input: &[u8], flush: Flush) -> (r: (Vec<u8>, ZERR))
        ensures
            old(self).finished ==> final(self).finished && final(self).pending@
                == old(self).pending@ && r.0@.len() == 0,
            old(self).finished && input@.len() == 0 ==> r.1 == ZERR::StreamEnd,
            old(self).finished && input@.len() > 0 ==> r.1 == ZERR::StreamError,
            !old(self).finished && flush == Flush::NoFlush ==> r.0@.len() == 0 && r.1
                == ZERR::Success && !final(self).finished && final(self).pending@
                == old(self).pending@ + input@,
            !old(self).finished && flush == Flush::Finish ==> r.0@ == stored_stream(
                old(self).pending@ + input@,
            ) && r.1 == ZERR::StreamEnd && final(self).finished && final(self).pending@.len()
                == 0,
            !old(self).finished && flush != Flush::Finish && flush != Flush::NoFlush ==> r.0@
                == flushed_segment(old(self).pending@ + input@, flush) && r.1 == ZERR::Success
                && !final(self).finished && final(self).pending@.len() == 0,
    {
        if self.finished {
            if input.len() == 0 {
                return (Vec::new(), ZERR::StreamEnd);
            }
            return (Vec::new(), ZERR::StreamError);
        }
        let ghost held = self.pending@;
        let mut i: usize = 0;
        while i < input.len()
            invariant
                i <= input@.len(),
                self.pending@ == held + input@.take(i as int),
                !self.finished,
            decreases input@.len() - i,
        {
            self.pending.push(input[i]);
            i = i + 1;
            assert(self.pending@ =~= held + input@.take(i as int));
        }
        assert(input@.take(i as int) =~= input@);
        if flush == Flush::NoFlush {
            return (Vec::new(), ZERR::Success);
        }
        if flush == Flush::Finish {
            let out = deflate_stored(self.pending.as_slice());
            self.pending = Vec::new();
            self.finished = true;
            return (out, ZERR::StreamEnd);
        }
        let out = flush_segment(self.pending.as_slice(), flush);
        self.pending = Vec::new();
        (out, ZERR::Success)
    }
}

/// The blocks a flush that does not finish sends for `input`.
fn flush_segment(input: &[u8], flush: Flush) -> (r: Vec<u8>)
    requires
        flush != Flush::Finish,
    ensures
        r@ == flushed_segment(input@, flush),
{
    let mut out: Vec<u8> = Vec::new();
    let mut pos: usize = 0;
    assert(input@.skip(0) =~= input@);
    while pos < input.len()
        invariant
            pos <= input@.len(),
            out@ + open_blocks(input@.skip(pos as int)) == open_blocks(input@),
        decreases input@.len() - pos,
    {
        let ghost rest = input@.skip(pos as int);
        let ghost before = out@;
        let end: usize = if input.len() - pos <= MAX_STORED {
            input.len()
        } else {
            pos + MAX_STORED
        };
        emit_stored_block(&mut out, input, pos, end, false);
        if end == input.len() {
            assert(input@.subrange(pos as int, end as int) =~= rest);
            assert(input@.skip(end as int) =~= Seq::<u8>::empty());
            assert(out@ + open_blocks(input@.skip(end as int)) =~= before + open_blocks(rest));
        } else {
            assert(input@.subrange(pos as int, end as int) =~= rest.take(65535));
            assert(input@.skip(end as int) =~= rest.skip(65535));
            assert(out@ + open_blocks(input@.skip(end as int)) =~= before + open_blocks(rest));
        }
        pos = end;
    }
    assert(input@.skip(pos as int) =~= Seq::<u8>::empty());
    assert(out@ =~= open_blocks(input@));
    if flush == Flush::SyncFlush || flush == Flush::FullFlush {
        emit_stored_block(&mut out, input, 0, 0, false);
        assert(input@.subrange(0, 0) =~= Seq::<u8>::empty());
    }
    out
}

proof fn lemma_decode_open_block(b: Seq<u8>, rest: Seq<u8>)
    requires
        b.len() <= 65535,
    ensures
        decode_stored(stored_block(b, false) + rest) == prepend(
            b,
            stored_block(b, false).len(),
            decode_stored(rest),
        ),
{
    let n = b.len() as int;
    let s = stored_block(b, false) + rest;
    lemma_le16(n as nat);
    lemma_le16((65535 - n) as nat);
    let blk = stored_block(b, false);
    assert(s[0] == blk[0] && s[1] == blk[1] && s[2] == blk[2] && s[3] == blk[3] && s[4]
        == blk[4]);
    assert(s.subrange(5, 5 + n) =~= b);
    assert(s.skip(5 + n) =~= rest);
}

proof fn lemma_decode_open_blocks(d: Seq<u8>, rest: Seq<u8>)
    ensures
        decode_stored(open_blocks(d) + rest) == prepend(
            d,
            open_blocks(d).len(),
            decode_stored(rest),
        ),
    decreases d.len(),
{
    if d.len() == 0 {
        assert(open_blocks(d) + rest =~= rest);
        match decode_stored(rest) {
            Ok((x, c)) => {
                assert(d + x =~= x);
            },
            Err(e) => {},
        }
    } else if d.len() <= 65535 {
        lemma_decode_open_block(d, rest);
    } else {
        let b = d.take(65535);
        let tail = d.skip(65535);
        assert(open_blocks(d) + rest =~= stored_block(b, false) + (open_blocks(tail) + rest));
        lemma_decode_open_block(b, open_blocks(tail) + rest);
        lemma_decode_open_blocks(tail, rest);
        lemma_prepend_assoc(
            b,
            stored_block(b, false).len(),
            tail,
            open_blocks(tail).len(),
            decode_stored(rest),
        );
        assert(b + tail =~= d);
    }
}

/// A flush point keeps the stream going: what one call sends under a flush
/// mode other than `Finish`, followed by what the finishing call sends for
/// further data, decodes to both pieces of data in order, whatever follows
/// the stream.
#[verifier::rlimit(40)]
pub proof fn law_flush_then_finish(first: Seq<u8>, flush: Flush, second: Seq<u8>, trailer: Seq<u8>)
    requires
        flush != Flush::Finish,
    ensures
        decode_stored(flushed_segment(first, flush) + stored_stream(second) + trailer) == Ok::<
            (Seq<u8>, nat),
            ZERR,
        >(
            (
                first + second,
                flushed_segment(first, flush).len() + stored_stream(second).len(),
            ),
        ),
{
    let tail = stored_stream(second) + trailer;
    law_stored_round_trip(second, trailer);
    if flush == Flush::SyncFlush || flush == Flush::FullFlush {
        let e = Seq::<u8>::empty();
        let marker = stored_block(e, false);
        assert(flushed_segment(first, flush) + stored_stream(second) + trailer =~= open_blocks(
            first,
        ) + (marker + tail));
        lemma_decode_open_block(e, tail);
        lemma_decode_open_blocks(first, marker + tail);
        assert(e + second =~= second);
    } else {
        assert(flushed_segment(first, flush) + stored_stream(second) + trailer =~= open_blocks(
            first,
        ) + tail);
        lemma_decode_open_blocks(first, tail);
    }
}

} // verus!
