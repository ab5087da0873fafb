use vstd::prelude::*;

use crate::huffman::{lemma_two_pow_15, lemma_two_pow_le, two_pow};

verus! {

/// How many extra bits follow length symbol `sym` (257 to 285).
pub open spec fn length_extra(sym: int) -> nat {
    if sym < 265 || sym == 285 {
        0
    } else {
        ((sym - 261) / 4) as nat
    }
}

/// The shortest length that length symbol `sym` (257 to 285) stands for; the
/// extra bits add to it.
pub open spec fn length_base(sym: int) -> int {
    if sym < 265 {
        sym - 254
    } else if sym == 285 {
        258
    } else {
        (4 + (sym - 265) % 4) * two_pow(length_extra(sym)) + 3
    }
}

/// How many extra bits follow distance symbol `sym` (0 to 29).
pub open spec fn distance_extra(sym: int) -> nat {
    if sym < 4 {
        0
    } else {
        (sym / 2 - 1) as nat
    }
}

/// The shortest distance that distance symbol `sym` (0 to 29) stands for.
pub open spec fn distance_base(sym: int) -> int {
    if sym < 4 {
        sym + 1
    } else {
        (2 + sym % 2) * two_pow(distance_extra(sym)) + 1
    }
}

/// The length symbol at or after `sym` whose range holds `len`: the last
/// symbol (up to 284) whose base does not exceed `len`.
pub open spec fn length_symbol_from(len: int, sym: int) -> int
    decreases 284 - sym,
{
    if sym >= 284 || length_base(sym + 1) > len {
        sym
    } else {
        length_symbol_from(len, sym + 1)
    }
}

/// The length symbol that stands for a match length of 3 to 258.
pub open spec fn length_symbol_of(len: int) -> int {
    if len == 258 {
        285
    } else {
        length_symbol_from(len, 257)
    }
}

/// The distance symbol at or after `sym` whose range holds `dist`: the last
/// symbol (up to 29) whose base does not exceed `dist`.
pub open spec fn distance_symbol_from(dist: int, sym: int) -> int
    decreases 29 - sym,
{
    if sym >= 29 || distance_base(sym + 1) > dist {
        sym
    } else {
        distance_symbol_from(dist, sym + 1)
    }
}

/// 2 to the power `e`, for `e` up to 15.
pub(crate) fn pow2_u32(e: u32) -> (r: u32)
    requires
        e <= 15,
    ensures
        r == two_pow(e as nat),
{
    let mut r: u32 = 1;
    let mut k: u32 = 0;
    while k < e
        invariant
            k <= e <= 15,
            r == two_pow(k as nat),
        decreases e - k,
    {
        proof {
            lemma_two_pow_le(k as nat, 14);
            lemma_two_pow_15();
        }
        r = r * 2;
        k = k + 1;
    }
    r
}

/// The extra bits and base length of length symbol `sym`.
pub fn length_code_info(sym: u16) -> (r: (u32, u32))
    requires
        257 <= sym <= 285,
    ensures
        r.0 == length_extra(sym as int),
        r.1 == length_base(sym as int),
{
    if sym < 265 {
        (0, sym as u32 - 254)
    } else if sym == 285 {
        (0, 258)
    } else {
        let e = (sym as u32 - 261) / 4;
        let i = (sym as u32 - 265) % 4;
        let p = pow2_u32(e);
        proof {
            lemma_two_pow_le(e as nat, 5);
            lemma_two_pow_15();
            assert((4 + i) * p <= 7 * 32) by (nonlinear_arith)
                requires
                    i <= 3,
                    p <= 32,
            ;
        }
        (e, (4 + i) * p + 3)
    }
}

/// The extra bits and base distance of distance symbol `sym`.
pub fn distance_code_info(sym: u16) -> (r: (u32, u32))
    requires
        sym <= 29,
    ensures
        r.0 == distance_extra(sym as int),
        r.1 == distance_base(sym as int),
{
    if sym < 4 {
        (0, sym as u32 + 1)
    } else {
        let e = sym as u32 / 2 - 1;
        proof {
            lemma_two_pow_le(e as nat, 13);
            lemma_two_pow_15();
        }
        let i = sym as u32 % 2;
        let p = pow2_u32(e);
        proof {
            assert((2 + i) * p <= 3 * 8192) by (nonlinear_arith)
                requires
                    i <= 1,
                    p <= 8192,
            ;
        }
        (e, (2 + i) * p + 1)
    }
}

/// The length symbol for a match length of 3 to 258, with the number and
/// value of its extra bits: the symbol whose range holds the length (258
/// taking its own symbol, 285).
pub fn length_symbol(len: u32) -> (r: (u16, u32, u32))
    requires
        3 <= len <= 258,
    ensures
        257 <= r.0 <= 285,
        r.1 == length_extra(r.0 as int),
        r.2 < two_pow(r.1 as nat),
        len == length_base(r.0 as int) + r.2,
        len == 258 ==> r.0 == 285,
        r.0 == length_symbol_of(len as int),
{
    if len == 258 {
        proof {
            assert(two_pow(0) == 1);
        }
        return (285, 0, 0);
    }
    let mut sym: u16 = 257;
    loop
        invariant
            257 <= sym <= 284,
            3 <= len < 258,
            length_base(sym as int) <= len,
            length_symbol_from(len as int, sym as int) == length_symbol_of(len as int),
        decreases 285 - sym,
    {
        let (e, base) = length_code_info(sym);
        if sym == 284 {
            proof {
                lemma_two_pow_15();
            }
            return (sym, e, len - base);
        }
        let (_e2, next_base) = length_code_info(sym + 1);
        if next_base > len {
            proof {
                lemma_next_base(sym as int);
            }
            return (sym, e, len - base);
        }
        sym = sym + 1;
    }
}

/// The base of the next length symbol is the end of this symbol's range.
pub proof fn lemma_next_base(sym: int)
    requires
        257 <= sym < 284,
    ensures
        length_base(sym + 1) == length_base(sym) + two_pow(length_extra(sym)),
{
    lemma_two_pow_15();
    if sym < 264 {
        assert(length_extra(sym) == 0);
        assert(length_base(sym + 1) == sym + 1 - 254);
        assert(length_base(sym + 1) == length_base(sym) + two_pow(length_extra(sym)));
    } else if sym == 264 {
        assert(length_extra(265) == 1);
        assert(length_base(265) == 11);
        assert(length_base(sym + 1) == length_base(sym) + two_pow(length_extra(sym)));
    } else if sym >= 265 {
        let e = length_extra(sym);
        let i = (sym - 265) % 4;
        let p = two_pow(e);
        assert(1 <= e <= 5);
        assert(length_base(sym) == (4 + i) * p + 3);
        if i < 3 {
            assert(length_extra(sym + 1) == e);
            assert((sym + 1 - 265) % 4 == i + 1);
            assert(length_base(sym + 1) == (4 + i + 1) * p + 3);
            assert((4 + i + 1) * p == (4 + i) * p + p) by (nonlinear_arith);
            assert(length_base(sym + 1) == length_base(sym) + two_pow(length_extra(sym)));
        } else {
            assert(length_extra(sym + 1) == e + 1);
            assert((sym + 1 - 265) % 4 == 0);
            assert(two_pow(e + 1) == 2 * p);
            assert(length_base(sym + 1) == 4 * (2 * p) + 3);
            assert((4 + i) * p == 7 * p) by (nonlinear_arith)
                requires
                    i == 3,
            ;
            assert(length_base(sym + 1) == length_base(sym) + two_pow(length_extra(sym)));
        }
    }
}

/// The distance symbol for a distance of 1 to 32768, with the number and
/// value of its extra bits.
pub fn distance_symbol(dist: u32) -> (r: (u16, u32, u32))
    requires
        1 <= dist <= 32768,
    ensures
        r.0 <= 29,
        r.1 == distance_extra(r.0 as int),
        r.2 < two_pow(r.1 as nat),
        dist == distance_base(r.0 as int) + r.2,
        r.0 == distance_symbol_from(dist as int, 0),
{
    let mut sym: u16 = 0;
    loop
        invariant
            sym <= 29,
            1 <= dist <= 32768,
            distance_base(sym as int) <= dist,
            distance_symbol_from(dist as int, sym as int) == distance_symbol_from(dist as int, 0),
        decreases 30 - sym,
    {
        let (e, base) = distance_code_info(sym);
        if sym == 29 {
            proof {
                lemma_next_distance_base(sym as int);
            }
            return (sym, e, dist - base);
        }
        let (_e2, next_base) = distance_code_info(sym + 1);
        if next_base > dist {
            proof {
                lemma_next_distance_base(sym as int);
            }
            return (sym, e, dist - base);
        }
        sym = sym + 1;
    }
}

/// Each distance symbol's range ends where the next begins; the last ends
/// at 32768.
pub proof fn lemma_next_distance_base(sym: int)
    requires
        0 <= sym <= 29,
    ensures
        sym < 29 ==> distance_base(sym + 1) == distance_base(sym) + two_pow(distance_extra(sym)),
        sym == 29 ==> distance_base(sym) + two_pow(distance_extra(sym)) == 32769,
{
    lemma_two_pow_15();
    if sym == 3 {
        assert(distance_extra(4) == 1);
        assert(distance_base(4) == 5);
    } else if sym >= 4 {
        let e = distance_extra(sym);
        let p = two_pow(e);
        assert(1 <= e <= 13);
        if sym % 2 == 0 {
            assert(distance_base(sym) == 2 * p + 1);
            assert(distance_extra(sym + 1) == e);
            assert((sym + 1) % 2 == 1);
            assert(distance_base(sym + 1) == 3 * p + 1);
        } else {
            assert(distance_base(sym) == 3 * p + 1);
            if sym < 29 {
                assert(distance_extra(sym + 1) == e + 1);
                assert((sym + 1) % 2 == 0);
                assert(two_pow(e + 1) == 2 * p);
                assert(distance_base(sym + 1) == 2 * (2 * p) + 1);
            } else {
                assert(e == 13);
            }
        }
    }
}

proof fn lemma_length_scan(len: int, sym: int)
    requires
        257 <= sym <= 284,
        length_base(sym) <= len < 258,
    ensures
        257 <= length_symbol_from(len, sym) <= 284,
        length_base(length_symbol_from(len, sym)) <= len,
        len < length_base(length_symbol_from(len, sym)) + two_pow(
            length_extra(length_symbol_from(len, sym)),
        ),
    decreases 284 - sym,
{
    lemma_two_pow_15();
    if sym == 284 {
        assert(length_extra(284) == 5);
        assert(length_base(284) == 227);
    } else {
        lemma_next_base(sym);
        if length_base(sym + 1) <= len {
            lemma_length_scan(len, sym + 1);
        }
    }
}

/// The length symbol of a match length covers it: the length is its base
/// plus a value that fits in its extra bits.
pub proof fn lemma_length_symbol_covers(len: int)
    requires
        3 <= len <= 258,
    ensures
        257 <= length_symbol_of(len) <= 285,
        length_base(length_symbol_of(len)) <= len < length_base(length_symbol_of(len)) + two_pow(
            length_extra(length_symbol_of(len)),
        ),
{
    lemma_two_pow_15();
    if len < 258 {
        lemma_length_scan(len, 257);
    }
}

proof fn lemma_distance_scan(dist: int, sym: int)
    requires
        0 <= sym <= 29,
        distance_base(sym) <= dist <= 32768,
    ensures
        0 <= distance_symbol_from(dist, sym) <= 29,
        distance_base(distance_symbol_from(dist, sym)) <= dist,
        dist < distance_base(distance_symbol_from(dist, sym)) + two_pow(
            distance_extra(distance_symbol_from(dist, sym)),
        ),
    decreases 29 - sym,
{
    lemma_next_distance_base(sym);
    if sym < 29 && distance_base(sym + 1) <= dist {
        lemma_distance_scan(dist, sym + 1);
    }
}

/// The distance symbol of a distance covers it: the distance is its base
/// plus a value that fits in its extra bits.
pub proof fn lemma_distance_symbol_covers(dist: int)
    requires
        1 <= dist <= 32768,
    ensures
        0 <= distance_symbol_from(dist, 0) <= 29,
        distance_base(distance_symbol_from(dist, 0)) <= dist < distance_base(
            distance_symbol_from(dist, 0),
        ) + two_pow(distance_extra(distance_symbol_from(dist, 0))),
{
    lemma_distance_scan(dist, 0);
}

} // verus!
