use vstd::prelude::*;

use crate::bits::{msb_value, read_bit};

verus! {

/// Longest code length deflate allows.
pub const MAX_BITS: usize = 15;

/// 2 to the power `l`: how many codes of `l` bits there are.
pub open spec fn two_pow(l: nat) -> nat
    decreases l,
{
    if l == 0 {
        1
    } else {
        2 * two_pow((l - 1) as nat)
    }
}

/// How many symbols of `s` have code length `l`.
pub open spec fn count_len(s: Seq<u8>, l: int) -> nat
    decreases s.len(),
{
    if s.len() == 0 {
        0
    } else {
        count_len(s.drop_last(), l) + if s.last() == l {
            1nat
        } else {
            0nat
        }
    }
}

/// The first code of length `l`: the codes of each length follow on from the
/// codes of the length below, shifted left by one bit. Symbols of length 0
/// take no code.
pub open spec fn first_code(s: Seq<u8>, l: nat) -> nat
    decreases l,
{
    if l == 0 {
        0
    } else {
        let below = (l - 1) as nat;
        (first_code(s, below) + if below == 0 {
            0
        } else {
            count_len(s, below as int)
        }) * 2
    }
}

/// Every length is at most `MAX_BITS`.
pub open spec fn lengths_in_range(s: Seq<u8>) -> bool {
    forall|i: int| 0 <= i < s.len() ==> s[i] <= 15
}

/// The Kraft inequality in integer form: at each length the codes handed out
/// stay within the codes of that many bits.
pub open spec fn kraft_ok(s: Seq<u8>) -> bool {
    forall|l: nat| 1 <= l <= 15 ==> #[trigger] first_code(s, l) + count_len(s, l as int) <= two_pow(
        l,
    )
}

/// The canonical code of symbol `i`: the first code of its length plus the
/// number of earlier symbols of that length.
pub open spec fn code_of(s: Seq<u8>, i: int) -> nat {
    first_code(s, s[i] as nat) + count_len(s.take(i), s[i] as int)
}

proof fn lemma_count_step(s: Seq<u8>, i: int, l: int)
    requires
        0 <= i < s.len(),
    ensures
        count_len(s.take(i + 1), l) == count_len(s.take(i), l) + if s[i] == l {
            1nat
        } else {
            0nat
        },
{
    assert(s.take(i + 1).drop_last() =~= s.take(i));
}

proof fn lemma_count_mono(s: Seq<u8>, j: int, k: int, l: int)
    requires
        0 <= j <= k <= s.len(),
    ensures
        count_len(s.take(j), l) <= count_len(s.take(k), l),
    decreases k - j,
{
    if j < k {
        lemma_count_mono(s, j, k - 1, l);
        lemma_count_step(s, k - 1, l);
    }
}

proof fn lemma_rank_below_count(s: Seq<u8>, i: int)
    requires
        0 <= i < s.len(),
    ensures
        count_len(s.take(i), s[i] as int) < count_len(s, s[i] as int),
{
    lemma_count_step(s, i, s[i] as int);
    lemma_count_mono(s, i + 1, s.len() as int, s[i] as int);
    assert(s.take(s.len() as int) =~= s);
}

pub proof fn lemma_two_pow_pos(l: nat)
    ensures
        two_pow(l) >= 1,
    decreases l,
{
    if l > 0 {
        lemma_two_pow_pos((l - 1) as nat);
    }
}

/// The codes of a longer length start beyond every code of a shorter length,
/// once that shorter code is shifted up to the longer length.
proof fn lemma_first_code_grows(s: Seq<u8>, a: nat, b: nat)
    requires
        1 <= a < b,
    ensures
        first_code(s, b) >= (first_code(s, a) + count_len(s, a as int)) * two_pow((b - a) as nat),
    decreases b - a,
{
    let x = first_code(s, a) + count_len(s, a as int);
    if b == a + 1 {
        assert(two_pow(0) == 1);
        assert(two_pow(1) == 2);
    } else {
        lemma_first_code_grows(s, a, (b - 1) as nat);
        let p = two_pow((b - 1 - a) as nat);
        let f = first_code(s, (b - 1) as nat);
        assert(first_code(s, b) >= f * 2);
        assert(two_pow((b - a) as nat) == 2 * p);
        assert(f >= x * p);
        assert(f * 2 >= x * (2 * p)) by (nonlinear_arith)
            requires
                f >= x * p,
        ;
    }
}

/// Builds the canonical Huffman code for the given code lengths, one per
/// symbol: codes are handed out shortest length first and, within a length,
/// in symbol order. A symbol of length 0 gets no code (0 stands in its
/// place). Lengths over `MAX_BITS`, or lengths that break the Kraft
/// inequality (more codes than there is room for), give `None`.
pub fn canonical_codes(lengths: &[u8]) -> (r: Option<Vec<u16>>)
    ensures
        r is None <==> !(lengths_in_range(lengths@) && kraft_ok(lengths@)),
        r matches Some(codes) ==> codes@.len() == lengths@.len() && forall|i: int|
            0 <= i < lengths@.len() ==> #[trigger] codes@[i] == if lengths@[i] == 0 {
                0
            } else {
                code_of(lengths@, i)
            },
{
    let ghost s = lengths@;
    let n = lengths.len();
    let mut bl_count: Vec<usize> = vec![0usize; 16];
    let mut i: usize = 0;
    assert(s.take(0) =~= Seq::<u8>::empty());
    while i < n
        invariant
            n == s.len(),
            s == lengths@,
            i <= n,
            bl_count@.len() == 16,
            forall|l: int| 0 <= l < 16 ==> #[trigger] bl_count@[l] == count_len(s.take(i as int), l),
            forall|l: int| 0 <= l < 16 ==> bl_count@[l] <= i,
            forall|k: int| 0 <= k < i ==> s[k] <= 15,
        decreases n - i,
    {
        let len = lengths[i];
        if len > 15 {
            return None;
        }
        proof {
            assert forall|l: int| 0 <= l < 16 implies count_len(s.take(i + 1), l) == count_len(
                s.take(i as int),
                l,
            ) + if s[i as int] == l {
                1nat
            } else {
                0nat
            } by {
                lemma_count_step(s, i as int, l);
            }
        }
        let c = bl_count[len as usize];
        bl_count.set(len as usize, c + 1);
        i = i + 1;
    }
    assert(s.take(n as int) =~= s);
    let mut next_code: Vec<usize> = vec![0usize; 16];
    let mut code: usize = 0;
    let mut limit: usize = 1;
    let mut bits: usize = 1;
    while bits <= MAX_BITS
        invariant
            1 <= bits <= 16,
            s == lengths@,
            bl_count@.len() == 16,
            next_code@.len() == 16,
            forall|l: int| 0 <= l < 16 ==> #[trigger] bl_count@[l] == count_len(s, l),
            lengths_in_range(s),
            code == first_code(s, (bits - 1) as nat),
            limit == two_pow((bits - 1) as nat),
            code + (if bits == 1 {
                0
            } else {
                count_len(s, bits - 1)
            }) <= limit,
            forall|l: nat| 1 <= l < bits ==> #[trigger] first_code(s, l) + count_len(s, l as int)
                <= two_pow(l),
            forall|l: int| 1 <= l < bits ==> #[trigger] next_code@[l] == first_code(s, l as nat),
        decreases 16 - bits,
    {
        proof {
            lemma_two_pow_le((bits - 1) as nat, 14);
            lemma_two_pow_15();
        }
        let below: usize = if bits == 1 {
            0
        } else {
            bl_count[bits - 1]
        };
        code = (code + below) * 2;
        limit = limit * 2;
        next_code.set(bits, code);
        if bl_count[bits] > limit - code {
            assert(!kraft_ok(s)) by {
                assert(!(first_code(s, bits as nat) + count_len(s, bits as int) <= two_pow(
                    bits as nat,
                )));
            }
            return None;
        }
        bits = bits + 1;
    }
    assert(kraft_ok(s));
    let mut codes: Vec<u16> = Vec::new();
    let mut i: usize = 0;
    while i < n
        invariant
            n == s.len(),
            s == lengths@,
            i <= n,
            next_code@.len() == 16,
            lengths_in_range(s),
            kraft_ok(s),
            forall|l: int| 1 <= l < 16 ==> #[trigger] next_code@[l] == first_code(s, l as nat)
                + count_len(s.take(i as int), l),
            codes@.len() == i,
            forall|k: int| 0 <= k < i ==> #[trigger] codes@[k] == if s[k] == 0 {
                0
            } else {
                code_of(s, k)
            },
        decreases n - i,
    {
        let len = lengths[i];
        proof {
            assert forall|l: int| 1 <= l < 16 implies count_len(s.take(i + 1), l) == count_len(
                s.take(i as int),
                l,
            ) + if s[i as int] == l {
                1nat
            } else {
                0nat
            } by {
                lemma_count_step(s, i as int, l);
            }
        }
        if len == 0 {
            codes.push(0);
        } else {
            let c = next_code[len as usize];
            proof {
                lemma_rank_below_count(s, i as int);
                assert(first_code(s, len as nat) + count_len(s, len as int) <= two_pow(
                    len as nat,
                ));
                lemma_two_pow_le(len as nat, 15);
                lemma_two_pow_15();
            }
            codes.push(c as u16);
            next_code.set(len as usize, c + 1);
        }
        i = i + 1;
    }
    Some(codes)
}

/// A canonical code built from lengths that meet the Kraft inequality is a
/// prefix code: each code fits in its length, two symbols of one length get
/// different codes, and no shorter code is the leading bits of a longer one.
/// So reading a code's bits gives back its own symbol and no other.
pub proof fn law_canonical_prefix_free(s: Seq<u8>, i: int, j: int)
    requires
        lengths_in_range(s),
        kraft_ok(s),
        0 <= i < s.len(),
        0 <= j < s.len(),
        i != j,
        s[i] != 0,
        s[j] != 0,
    ensures
        code_of(s, i) < two_pow(s[i] as nat),
        s[i] == s[j] ==> code_of(s, i) != code_of(s, j),
        s[i] < s[j] ==> code_of(s, j) / two_pow((s[j] - s[i]) as nat) != code_of(s, i),
{
    let a = s[i] as nat;
    let b = s[j] as nat;
    lemma_rank_below_count(s, i);
    lemma_rank_below_count(s, j);
    assert(first_code(s, a) + count_len(s, a as int) <= two_pow(a));
    if a == b {
        let (lo, hi) = if i < j {
            (i, j)
        } else {
            (j, i)
        };
        lemma_count_step(s, lo, a as int);
        lemma_count_mono(s, lo + 1, hi, a as int);
    }
    if a < b {
        let x = first_code(s, a) + count_len(s, a as int);
        let p = two_pow((b - a) as nat);
        lemma_two_pow_pos((b - a) as nat);
        lemma_first_code_grows(s, a, b);
        assert(code_of(s, j) >= p * x) by (nonlinear_arith)
            requires
                code_of(s, j) >= first_code(s, b),
                first_code(s, b) >= x * p,
        ;
        vstd::arithmetic::div_mod::lemma_div_is_ordered((p * x) as int, code_of(s, j) as int, p as int);
        vstd::arithmetic::div_mod::lemma_div_multiples_vanish(x as int, p as int);
    }
}

pub proof fn lemma_two_pow_15()
    ensures
        two_pow(0) == 1,
        two_pow(1) == 2,
        two_pow(2) == 4,
        two_pow(3) == 8,
        two_pow(4) == 16,
        two_pow(5) == 32,
        two_pow(6) == 64,
        two_pow(7) == 128,
        two_pow(8) == 256,
        two_pow(9) == 512,
        two_pow(10) == 1024,
        two_pow(11) == 2048,
        two_pow(12) == 4096,
        two_pow(13) == 8192,
        two_pow(14) == 16384,
        two_pow(15) == 32768,
{
    assert(two_pow(0) == 1);
    assert(two_pow(1) == 2);
    assert(two_pow(2) == 4);
    assert(two_pow(3) == 8);
    assert(two_pow(4) == 16);
    assert(two_pow(5) == 32);
    assert(two_pow(6) == 64);
    assert(two_pow(7) == 128);
    assert(two_pow(8) == 256);
    assert(two_pow(9) == 512);
    assert(two_pow(10) == 1024);
    assert(two_pow(11) == 2048);
    assert(two_pow(12) == 4096);
    assert(two_pow(13) == 8192);
}

pub proof fn lemma_two_pow_le(a: nat, b: nat)
    requires
        a <= b,
    ensures
        two_pow(a) <= two_pow(b),
    decreases b - a,
{
    if a < b {
        lemma_two_pow_le(a, (b - 1) as nat);
    }
}

/// What reading one Huffman-coded symbol gave.
#[derive(Clone, Copy, Debug, PartialEq, Eq, Structural)]
pub enum Decoded {
    /// The symbol and the length of its code in bits.
    Symbol(usize, usize),
    /// The input ended before a code was complete.
    NeedInput,
    /// No symbol has a code that the next 15 bits begin with.
    Invalid,
}

/// Some symbol has code length `l` and code `c`.
pub open spec fn has_code(lengths: Seq<u8>, codes: Seq<u16>, l: int, c: nat) -> bool {
    exists|j: int| 0 <= j < lengths.len() && lengths[j] == l && codes[j] == c
}

/// No symbol has a code of `l` bits that equals the `l` bits at `pos`.
pub open spec fn no_code_at(
    src: Seq<u8>,
    pos: int,
    lengths: Seq<u8>,
    codes: Seq<u16>,
    l: int,
) -> bool {
    !has_code(lengths, codes, l, msb_value(src, pos, l as nat))
}

/// Decodes one symbol at bit position `pos`, reading its code one bit at a
/// time, most significant bit first, and trying each length from 1 to
/// `MAX_BITS` in turn against the table of `lengths` and `codes` (as
/// `canonical_codes` builds it). The first length at which some symbol's code
/// matches gives the symbol; for a prefix code that symbol is the only one.
pub fn decode_symbol(src: &[u8], pos: usize, lengths: &[u8], codes: &[u16]) -> (r: Decoded)
    requires
        lengths@.len() == codes@.len(),
        pos <= src@.len() * 8,
        src@.len() * 8 <= usize::MAX,
    ensures
        r matches Decoded::Symbol(i, l) ==> 1 <= l <= 15 && i < lengths@.len() && pos + l
            <= src@.len() * 8 && lengths@[i as int] == l && codes@[i as int] == msb_value(
            src@,
            pos as int,
            l as nat,
        ) && forall|k: int| 1 <= k < l ==> no_code_at(src@, pos as int, lengths@, codes@, k),
        r is NeedInput ==> pos + 15 > src@.len() * 8 && forall|k: int|
            1 <= k <= 15 && pos + k <= src@.len() * 8 ==> no_code_at(
                src@,
                pos as int,
                lengths@,
                codes@,
                k,
            ),
        r is Invalid ==> pos + 15 <= src@.len() * 8 && forall|k: int|
            1 <= k <= 15 ==> no_code_at(src@, pos as int, lengths@, codes@, k),
{
    let n = lengths.len();
    let mut code: u32 = 0;
    let mut len: usize = 1;
    while len <= MAX_BITS
        invariant
            1 <= len <= 16,
            n == lengths@.len(),
            n == codes@.len(),
            pos <= src@.len() * 8,
            src@.len() * 8 <= usize::MAX,
            code == msb_value(src@, pos as int, (len - 1) as nat),
            code < two_pow((len - 1) as nat),
            pos + len - 1 <= src@.len() * 8,
            forall|k: int| 1 <= k < len ==> no_code_at(src@, pos as int, lengths@, codes@, k),
        decreases 16 - len,
    {
        if len > src.len() * 8 - pos {
            return Decoded::NeedInput;
        }
        proof {
            lemma_two_pow_le((len - 1) as nat, 14);
            lemma_two_pow_15();
        }
        let b = read_bit(src, pos + len - 1);
        code = code * 2 + if b {
            1u32
        } else {
            0u32
        };
        let mut j: usize = 0;
        while j < n
            invariant
                j <= n,
                n == lengths@.len(),
                n == codes@.len(),
                1 <= len <= 15,
                pos + len <= src@.len() * 8,
                code == msb_value(src@, pos as int, len as nat),
                forall|k: int| 1 <= k < len ==> no_code_at(src@, pos as int, lengths@, codes@, k),
                forall|k: int| 0 <= k < j ==> !(lengths@[k] == len && codes@[k] == code),
            decreases n - j,
        {
            if lengths[j] as usize == len && codes[j] as u32 == code {
                return Decoded::Symbol(j, len);
            }
            j = j + 1;
        }
        assert(no_code_at(src@, pos as int, lengths@, codes@, len as int));
        len = len + 1;
    }
    Decoded::Invalid
}

/// The leading `k` bits of an `l`-bit code are the code shifted right by
/// `l - k`.
pub proof fn lemma_msb_prefix(src: Seq<u8>, pos: int, k: nat, l: nat)
    requires
        k <= l,
    ensures
        msb_value(src, pos, l) / two_pow((l - k) as nat) == msb_value(src, pos, k),
    decreases l - k,
{
    if k < l {
        lemma_msb_prefix(src, pos, k, (l - 1) as nat);
        let x = msb_value(src, pos, (l - 1) as nat);
        let p = two_pow((l - 1 - k) as nat);
        lemma_two_pow_pos((l - 1 - k) as nat);
        assert(msb_value(src, pos, l) / 2 == x);
        vstd::arithmetic::div_mod::lemma_div_denominator(msb_value(src, pos, l) as int, 2, p as int);
        assert(two_pow((l - k) as nat) == 2 * p);
        assert(msb_value(src, pos, l) / two_pow((l - k) as nat) == x / p);
    } else {
        let m = msb_value(src, pos, l) as int;
        assert(two_pow(0) == 1);
        assert(m / 1 == m) by (nonlinear_arith);
    }
}

/// A table holds the canonical code of each symbol that has a length.
pub open spec fn is_canonical_table(lengths: Seq<u8>, codes: Seq<u16>) -> bool {
    &&& codes.len() == lengths.len()
    &&& forall|j: int|
        0 <= j < lengths.len() && lengths[j] != 0 ==> #[trigger] codes[j] == code_of(lengths, j)
}

/// Where the bits at `pos` spell the canonical code of symbol `i`, no shorter
/// code matches their leading bits and no other symbol of that length has that
/// code: reading them with `decode_symbol` gives back `i` and its length.
pub proof fn law_decode_finds_symbol(
    src: Seq<u8>,
    pos: int,
    lengths: Seq<u8>,
    codes: Seq<u16>,
    i: int,
)
    requires
        lengths_in_range(lengths),
        kraft_ok(lengths),
        is_canonical_table(lengths, codes),
        0 <= i < lengths.len(),
        lengths[i] != 0,
        msb_value(src, pos, lengths[i] as nat) == code_of(lengths, i),
    ensures
        forall|k: int| 1 <= k < lengths[i] ==> no_code_at(src, pos, lengths, codes, k),
        forall|j: int|
            0 <= j < lengths.len() && lengths[j] == lengths[i] && codes[j] == code_of(lengths, i)
                ==> j == i,
        has_code(lengths, codes, lengths[i] as int, msb_value(src, pos, lengths[i] as nat)),
{
    let l = lengths[i] as nat;
    assert forall|k: int| 1 <= k < lengths[i] implies no_code_at(src, pos, lengths, codes, k) by {
        if has_code(lengths, codes, k, msb_value(src, pos, k as nat)) {
            let j = choose|j: int|
                0 <= j < lengths.len() && lengths[j] == k && codes[j] == msb_value(
                    src,
                    pos,
                    k as nat,
                );
            lemma_msb_prefix(src, pos, k as nat, l);
            law_canonical_prefix_free(lengths, j, i);
        }
    }
    assert forall|j: int|
        0 <= j < lengths.len() && lengths[j] == lengths[i] && codes[j] == code_of(
            lengths,
            i,
        ) implies j == i by {
        if j != i {
            law_canonical_prefix_free(lengths, i, j);
        }
    }
    assert(codes[i] == code_of(lengths, i));
}

} // verus!
