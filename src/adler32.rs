use vstd::prelude::*;

verus! {

/// The modulus of both Adler-32 sums: the largest prime below 2^16.
pub const ADLER_BASE: u32 = 65521;

/// The two running sums after feeding `data`, starting from `a` and `b`:
/// `a` adds each byte, `b` adds each new `a`, both modulo `ADLER_BASE`.
pub open spec fn adler_sums(a: nat, b: nat, data: Seq<u8>) -> (nat, nat)
    decreases data.len(),
{
    if data.len() == 0 {
        (a, b)
    } else {
        let prev = adler_sums(a, b, data.drop_last());
        let a2 = ((prev.0 + data.last()) % 65521) as nat;
        (a2, ((prev.1 + a2) % 65521) as nat)
    }
}

/// Two sums packed as one checksum word: `b` in the high half, `a` in the low.
pub open spec fn adler_pack(s: (nat, nat)) -> u32 {
    (s.1 * 65536 + s.0) as u32
}

/// The running checksum `adler` updated with `data`.
pub open spec fn adler32_spec(adler: u32, data: Seq<u8>) -> u32 {
    adler_pack(adler_sums((adler % 65536) as nat, (adler / 65536) as nat, data))
}

/// Updates a running Adler-32 checksum with `data`. A new checksum starts
/// from 1.
pub fn adler32_update(adler: u32, data: &[u8]) -> (r: u32)
    ensures
        r == adler32_spec(adler, data@),
{
    let a0: u32 = adler % 65536;
    let b0: u32 = adler / 65536;
    let mut a: u32 = a0;
    let mut b: u32 = b0;
    let mut i: usize = 0;
    assert(data@.take(0) =~= Seq::<u8>::empty());
    while i < data.len()
        invariant
            i <= data@.len(),
            a < 65536,
            b < 65536,
            (a as nat, b as nat) == adler_sums(a0 as nat, b0 as nat, data@.take(i as int)),
        decreases data@.len() - i,
    {
        assert(data@.take(i + 1).drop_last() =~= data@.take(i as int));
        a = (a + data[i] as u32) % ADLER_BASE;
        b = (b + a) % ADLER_BASE;
        i = i + 1;
    }
    assert(data@.take(i as int) =~= data@);
    b * 65536 + a
}

proof fn lemma_sums_bounded(a: nat, b: nat, data: Seq<u8>)
    requires
        data.len() > 0 || (a < 65521 && b < 65521),
    ensures
        adler_sums(a, b, data).0 < 65521,
        adler_sums(a, b, data).1 < 65521,
    decreases data.len(),
{
}

proof fn lemma_sums_split(a: nat, b: nat, p: Seq<u8>, q: Seq<u8>)
    ensures
        adler_sums(a, b, p + q) == adler_sums(adler_sums(a, b, p).0, adler_sums(a, b, p).1, q),
    decreases q.len(),
{
    if q.len() == 0 {
        assert(p + q =~= p);
    } else {
        assert((p + q).drop_last() =~= p + q.drop_last());
        lemma_sums_split(a, b, p, q.drop_last());
    }
}

/// The checksum can be computed piecewise: updating with `p` and then with
/// `q` gives the checksum of `p` followed by `q`, however the data is split.
pub proof fn law_adler32_split(adler: u32, p: Seq<u8>, q: Seq<u8>)
    requires
        p.len() > 0 || (adler % 65536 < 65521 && adler / 65536 < 65521),
    ensures
        adler32_spec(adler32_spec(adler, p), q) == adler32_spec(adler, p + q),
{
    let a = (adler % 65536) as nat;
    let b = (adler / 65536) as nat;
    let s = adler_sums(a, b, p);
    lemma_sums_bounded(a, b, p);
    let m = adler_pack(s);
    assert(m == s.1 * 65536 + s.0);
    assert(m % 65536 == s.0 && m / 65536 == s.1);
    lemma_sums_split(a, b, p, q);
}

} // verus!
