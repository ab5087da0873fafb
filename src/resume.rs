use vstd::prelude::*;

use crate::stored::{flushed_segment, le16, open_blocks, stored_block, stored_stream};
use crate::{Flush, ZERR};

verus! {

/// Where a stored-block decoder fed piece by piece stands.
#[derive(Clone, Copy, Debug, PartialEq, Eq, Structural)]
pub enum Phase {
    /// Reading a block header: how many of its five bytes have come, and
    /// the first four of them.
    Header(u8, u8, u8, u8, u8),
    /// Copying a block: how many bytes are left, and whether it is the last.
    Copy(usize, bool),
    /// The last block is complete; later bytes are not read.
    Done,
    /// Decoding stopped with this error; later bytes are not read.
    Failed(ZERR),
}

/// A decoder at the start of a stream.
pub open spec fn start_phase() -> Phase {
    Phase::Header(0, 0, 0, 0, 0)
}

/// Where the decoder goes after the fifth header byte `b`: the block's bytes
/// to copy, the next header for an empty block, the end, or the error (the
/// same as for `decode_stored`).
pub open spec fn after_header(h0: u8, h1: u8, h2: u8, h3: u8, b: u8) -> Phase {
    let btype = (h0 / 2) % 4;
    let last = h0 % 2 == 1;
    let len = h1 + 256 * h2;
    let nlen = h3 + 256 * b;
    if btype == 3 {
        Phase::Failed(ZERR::DataError)
    } else if btype != 0 {
        Phase::Failed(ZERR::StreamError)
    } else if len + nlen != 65535 {
        Phase::Failed(ZERR::DataError)
    } else if len == 0 {
        if last {
            Phase::Done
        } else {
            start_phase()
        }
    } else {
        Phase::Copy(len as usize, last)
    }
}

/// One input byte: the next phase and the byte sent out, if any.
pub open spec fn step_spec(p: Phase, b: u8) -> (Phase, Option<u8>) {
    match p {
        Phase::Header(k, h0, h1, h2, h3) => {
            if k == 0 {
                (Phase::Header(1, b, 0, 0, 0), None)
            } else if k == 1 {
                (Phase::Header(2, h0, b, 0, 0), None)
            } else if k == 2 {
                (Phase::Header(3, h0, h1, b, 0), None)
            } else if k == 3 {
                (Phase::Header(4, h0, h1, h2, b), None)
            } else {
                (after_header(h0, h1, h2, h3, b), None)
            }
        },
        Phase::Copy(rem, last) => {
            if rem <= 1 {
                (if last {
                    Phase::Done
                } else {
                    start_phase()
                }, Some(b))
            } else {
                (Phase::Copy((rem - 1) as usize, last), Some(b))
            }
        },
        Phase::Done => (Phase::Done, None),
        Phase::Failed(e) => (Phase::Failed(e), None),
    }
}

/// Feeding a run of bytes: the phase reached and the bytes sent out.
pub open spec fn run_spec(p: Phase, input: Seq<u8>) -> (Phase, Seq<u8>)
    decreases input.len(),
{
    if input.len() == 0 {
        (p, Seq::empty())
    } else {
        let prev = run_spec(p, input.drop_last());
        let s = step_spec(prev.0, input.last());
        (s.0, match s.1 {
            Some(b) => prev.1.push(b),
            None => prev.1,
        })
    }
}

/// What a call reports for the phase it ends in.
pub open spec fn phase_result(p: Phase) -> ZERR {
    match p {
        Phase::Done => ZERR::StreamEnd,
        Phase::Failed(e) => e,
        _ => ZERR::Success,
    }
}

fn step(p: Phase, b: u8) -> (r: (Phase, Option<u8>))
    ensures
        r == step_spec(p, b),
{
    match p {
        Phase::Header(k, h0, h1, h2, h3) => {
            if k == 0 {
                (Phase::Header(1, b, 0, 0, 0), None)
            } else if k == 1 {
                (Phase::Header(2, h0, b, 0, 0), None)
            } else if k == 2 {
                (Phase::Header(3, h0, h1, b, 0), None)
            } else if k == 3 {
                (Phase::Header(4, h0, h1, h2, b), None)
            } else {
                let btype = (h0 / 2) % 4;
                let last = h0 % 2 == 1;
                let len: usize = h1 as usize + 256 * h2 as usize;
                let nlen: usize = h3 as usize + 256 * b as usize;
                let next = if btype == 3 {
                    Phase::Failed(ZERR::DataError)
                } else if btype != 0 {
                    Phase::Failed(ZERR::StreamError)
                } else if len + nlen != 65535 {
                    Phase::Failed(ZERR::DataError)
                } else if len == 0 {
                    if last {
                        Phase::Done
                    } else {
                        Phase::Header(0, 0, 0, 0, 0)
                    }
                } else {
                    Phase::Copy(len, last)
                };
                (next, None)
            }
        },
        Phase::Copy(rem, last) => {
            if rem <= 1 {
                (if last {
                    Phase::Done
                } else {
                    Phase::Header(0, 0, 0, 0, 0)
                }, Some(b))
            } else {
                (Phase::Copy(rem - 1, last), Some(b))
            }
        },
        Phase::Done => (Phase::Done, None),
        Phase::Failed(e) => (Phase::Failed(e), None),
    }
}

/// A decoder of stored blocks that takes its input in pieces of any size
/// and keeps, between calls, exactly where it stands inside a header or a
/// block.
pub struct StoredInflater {
    pub phase: Phase,
}

impl StoredInflater {
    /// A decoder at the start of a stream.
    pub fn new() -> (r: StoredInflater)
        ensures
            r.phase == start_phase(),
    {
        StoredInflater { phase: Phase::Header(0, 0, 0, 0, 0) }
    }

    /// Feeds `input`, appending the decoded bytes to `out`. Reports
    /// `StreamEnd` once the last block is complete, the error once one is
    /// found, and `Success` while more input is wanted.
    pub fn feed(&mut self, input: &[u8], out: &mut Vec<u8>) -> (r: ZERR)
        ensures
            final(self).phase == run_spec(old(self).phase, input@).0,
            final(out)@ == old(out)@ + run_spec(old(self).phase, input@).1,
            r == phase_result(final(self).phase),
    {
        let ghost p0 = self.phase;
        let ghost o0 = out@;
        let mut i: usize = 0;
        assert(input@.take(0) =~= Seq::<u8>::empty());
        assert(o0 + Seq::<u8>::empty() =~= o0);
        while i < input.len()
            invariant
                i <= input@.len(),
                self.phase == run_spec(p0, input@.take(i as int)).0,
                out@ == o0 + run_spec(p0, input@.take(i as int)).1,
            decreases input@.len() - i,
        {
            assert(input@.take(i + 1).drop_last() =~= input@.take(i as int));
            let (next, emitted) = step(self.phase, input[i]);
            self.phase = next;
            match emitted {
                Some(b) => {
                    out.push(b);
                    assert(out@ =~= o0 + run_spec(p0, input@.take(i + 1)).1);
                },
                None => {},
            }
            i = i + 1;
        }
        assert(input@.take(i as int) =~= input@);
        match self.phase {
            Phase::Done => ZERR::StreamEnd,
            Phase::Failed(e) => e,
            _ => ZERR::Success,
        }
    }
}

/// Feeding the decoder is resumable: feeding `a` and then `b` reaches the
/// same phase, and sends out the same bytes in the same order, as feeding
/// `a` followed by `b` in one piece. So any split of the input into pieces,
/// down to single bytes, decodes alike.
pub proof fn law_feed_split(p: Phase, a: Seq<u8>, b: Seq<u8>)
    ensures
        run_spec(p, a + b).0 == run_spec(run_spec(p, a).0, b).0,
        run_spec(p, a + b).1 == run_spec(p, a).1 + run_spec(run_spec(p, a).0, b).1,
    decreases b.len(),
{
    if b.len() == 0 {
        assert(a + b =~= a);
        assert(run_spec(p, a).1 + Seq::<u8>::empty() =~= run_spec(p, a).1);
    } else {
        assert((a + b).drop_last() =~= a + b.drop_last());
        assert((a + b).last() == b.last());
        law_feed_split(p, a, b.drop_last());
        let mid = run_spec(p, a);
        let s = step_spec(run_spec(mid.0, b.drop_last()).0, b.last());
        match s.1 {
            Some(x) => {
                assert(mid.1 + run_spec(mid.0, b.drop_last()).1.push(x) =~= (mid.1 + run_spec(
                    mid.0,
                    b.drop_last(),
                ).1).push(x));
            },
            None => {},
        }
    }
}

proof fn lemma_run_copy(n: nat, last: bool, b: Seq<u8>, k: nat)
    requires
        1 <= n <= 65535,
        b.len() == n,
        k <= n,
    ensures
        k < n ==> run_spec(Phase::Copy(n as usize, last), b.take(k as int)) == (
            Phase::Copy((n - k) as usize, last),
            b.take(k as int),
        ),
        k == n ==> run_spec(Phase::Copy(n as usize, last), b.take(k as int)) == (
            if last {
                Phase::Done
            } else {
                start_phase()
            },
            b.take(k as int),
        ),
    decreases k,
{
    if k == 0 {
        assert(b.take(0) =~= Seq::<u8>::empty());
    } else {
        lemma_run_copy(n, last, b, (k - 1) as nat);
        assert(b.take(k as int).drop_last() =~= b.take(k - 1));
        assert(b.take(k - 1).push(b[k - 1]) =~= b.take(k as int));
    }
}

#[verifier::rlimit(40)]
proof fn lemma_run_block(b: Seq<u8>, last: bool)
    requires
        b.len() <= 65535,
    ensures
        run_spec(start_phase(), stored_block(b, last)) == (
            if last {
                Phase::Done
            } else {
                start_phase()
            },
            b,
        ),
{
    let n = b.len();
    let blk = stored_block(b, last);
    let h = blk.take(5);
    assert(le16(n)[0] as int + 256 * le16(n)[1] == n);
    assert(le16((65535 - n) as nat)[0] as int + 256 * le16((65535 - n) as nat)[1] == 65535 - n);
    assert(h.take(0) =~= Seq::<u8>::empty());
    assert(h.take(1).drop_last() =~= h.take(0));
    assert(h.take(2).drop_last() =~= h.take(1));
    assert(h.take(3).drop_last() =~= h.take(2));
    assert(h.take(4).drop_last() =~= h.take(3));
    assert(h.drop_last() =~= h.take(4));
    assert(h.take(5) =~= h);
    assert(h.len() == 5);
    assert(run_spec(start_phase(), h.take(0)) == (start_phase(), Seq::<u8>::empty()));
    assert(h.take(1).len() == 1 && h.take(1).last() == h[0]);
    assert(h.take(2).len() == 2 && h.take(2).last() == h[1]);
    let r1 = run_spec(start_phase(), h.take(1));
    let r2 = run_spec(start_phase(), h.take(2));
    let r3 = run_spec(start_phase(), h.take(3));
    let r4 = run_spec(start_phase(), h.take(4));
    assert(r1.1 =~= Seq::<u8>::empty());
    assert(r2.1 =~= Seq::<u8>::empty());
    assert(r3.1 =~= Seq::<u8>::empty());
    assert(r4.1 =~= Seq::<u8>::empty());
    let r5 = run_spec(start_phase(), h);
    assert(r5.1 =~= Seq::<u8>::empty());
    assert(blk =~= h + b);
    law_feed_split(start_phase(), h, b);
    if n == 0 {
        assert(b =~= Seq::<u8>::empty());
        assert(r5.1 + Seq::<u8>::empty() =~= b);
    } else {
        lemma_run_copy(n, last, b, n);
        assert(b.take(n as int) =~= b);
        assert(r5.1 + b =~= b);
    }
}

/// The resumable decoder decodes what the stored-block encoder makes: fed a
/// whole stored stream, from the start and in pieces of any size (see
/// `law_feed_split`), it reaches the end and sends out exactly the data.
pub proof fn law_feed_stored_stream(data: Seq<u8>)
    ensures
        run_spec(start_phase(), stored_stream(data)) == (Phase::Done, data),
    decreases data.len(),
{
    if data.len() <= 65535 {
        lemma_run_block(data, true);
    } else {
        let b = data.take(65535);
        let rest = data.skip(65535);
        lemma_run_block(b, false);
        law_feed_split(start_phase(), stored_block(b, false), stored_stream(rest));
        law_feed_stored_stream(rest);
        assert(b + rest =~= data);
    }
}

proof fn lemma_run_open_blocks(data: Seq<u8>)
    ensures
        run_spec(start_phase(), open_blocks(data)) == (start_phase(), data),
    decreases data.len(),
{
    if data.len() == 0 {
        assert(open_blocks(data) =~= Seq::<u8>::empty());
        assert(data =~= Seq::<u8>::empty());
    } else if data.len() <= 65535 {
        lemma_run_block(data, false);
    } else {
        let b = data.take(65535);
        let rest = data.skip(65535);
        lemma_run_block(b, false);
        law_feed_split(start_phase(), stored_block(b, false), open_blocks(rest));
        lemma_run_open_blocks(rest);
        assert(b + rest =~= data);
    }
}

/// A flush that does not finish leaves the output decodable up to that
/// point: fed what such a call sends, a decoder from the start sends out all
/// of that call's data and stands at a block boundary, in the same phase as
/// a fresh decoder. So what follows decodes on its own, as from the start of
/// a stream (see `law_feed_split`).
pub proof fn law_flush_point(data: Seq<u8>, flush: Flush)
    requires
        flush != Flush::Finish,
    ensures
        run_spec(start_phase(), flushed_segment(data, flush)) == (start_phase(), data),
{
    lemma_run_open_blocks(data);
    if flush == Flush::SyncFlush || flush == Flush::FullFlush {
        let e = Seq::<u8>::empty();
        lemma_run_block(e, false);
        law_feed_split(start_phase(), open_blocks(data), stored_block(e, false));
        assert(data + e =~= data);
    }
}

} // verus!
