use vstd::prelude::*;

use crate::ZERR;

verus! {

/// The bytes a back-reference of `len` bytes at distance `dist` appends to
/// `out`: each new byte repeats the byte `dist` places before it, so the copy
/// may overlap what it writes.
pub open spec fn copied(out: Seq<u8>, dist: nat, len: nat) -> Seq<u8>
    decreases len,
{
    if len == 0 {
        out
    } else {
        let prev = copied(out, dist, (len - 1) as nat);
        prev.push(prev[prev.len() - dist])
    }
}

/// True when a back-reference at distance `dist` reaches outside what was
/// produced so far, or outside the window.
pub open spec fn reference_out_of_reach(produced: nat, dist: nat, wsize: nat) -> bool {
    dist == 0 || dist > produced || dist > wsize
}

proof fn lemma_copied_len(out: Seq<u8>, dist: nat, len: nat)
    requires
        1 <= dist <= out.len(),
    ensures
        copied(out, dist, len).len() == out.len() + len,
        copied(out, dist, len).take(out.len() as int) == out,
    decreases len,
{
    if len > 0 {
        lemma_copied_len(out, dist, (len - 1) as nat);
        let prev = copied(out, dist, (len - 1) as nat);
        assert(prev.push(prev[prev.len() - dist]).take(out.len() as int) =~= prev.take(
            out.len() as int,
        ));
    }
}

/// Resolves a back-reference: appends `len` bytes to `out`, each a copy of the
/// byte `dist` places before it. A distance of zero, or one beyond the bytes
/// produced so far or beyond the window of `wsize` bytes, is a data error and
/// leaves `out` as it was.
pub fn copy_match(out: &mut Vec<u8>, dist: usize, len: usize, wsize: usize) -> (r: ZERR)
    requires
        old(out).len() + len <= usize::MAX,
    ensures
        reference_out_of_reach(old(out).len() as nat, dist as nat, wsize as nat) ==> r
            == ZERR::DataError && final(out)@ == old(out)@,
        !reference_out_of_reach(old(out).len() as nat, dist as nat, wsize as nat) ==> r
            == ZERR::Success && final(out)@ == copied(old(out)@, dist as nat, len as nat)
            && final(out)@.len() == old(out)@.len() + len,
{
    if dist == 0 || dist > out.len() || dist > wsize {
        return ZERR::DataError;
    }
    let ghost start = out@;
    let mut i: usize = 0;
    while i < len
        invariant
            1 <= dist <= start.len(),
            i <= len,
            start.len() + len <= usize::MAX,
            out@ == copied(start, dist as nat, i as nat),
        decreases len - i,
    {
        proof {
            lemma_copied_len(start, dist as nat, i as nat);
        }
        let b = out[out.len() - dist];
        out.push(b);
        i = i + 1;
    }
    proof {
        lemma_copied_len(start, dist as nat, len as nat);
    }
    ZERR::Success
}

} // verus!
