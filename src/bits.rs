use vstd::prelude::*;

use crate::huffman::two_pow;

verus! {

/// Bit `k` of a byte stream, counting from the least significant bit of the
/// first byte: the order in which deflate packs bits.
pub open spec fn bit_at(s: Seq<u8>, k: int) -> bool {
    ((s[k / 8] >> ((k % 8) as u8)) & 1u8) == 1u8
}

/// The number held by `n` bits from bit `pos` on, the first bit read being
/// the least significant: how deflate packs header fields and extra bits.
pub open spec fn lsb_value(s: Seq<u8>, pos: int, n: nat) -> nat
    decreases n,
{
    if n == 0 {
        0
    } else {
        lsb_value(s, pos, (n - 1) as nat) + if bit_at(s, pos + n - 1) {
            two_pow((n - 1) as nat)
        } else {
            0
        }
    }
}

/// The number held by `n` bits from bit `pos` on, the first bit read being
/// the most significant: how deflate packs Huffman codes.
pub open spec fn msb_value(s: Seq<u8>, pos: int, n: nat) -> nat
    decreases n,
{
    if n == 0 {
        0
    } else {
        msb_value(s, pos, (n - 1) as nat) * 2 + if bit_at(s, pos + n - 1) {
            1nat
        } else {
            0nat
        }
    }
}

/// Reads one bit at bit position `pos`.
pub fn read_bit(src: &[u8], pos: usize) -> (r: bool)
    requires
        pos < src@.len() * 8,
    ensures
        r == bit_at(src@, pos as int),
{
    let byte = src[pos / 8];
    let shift = (pos % 8) as u8;
    ((byte >> shift) & 1u8) == 1u8
}

/// Reads `n` bits (at most 16) from bit position `pos`, least significant
/// first. When fewer than `n` bits are left, more input is needed and the
/// result is `None`.
pub fn read_bits(src: &[u8], pos: usize, n: usize) -> (r: Option<u32>)
    requires
        n <= 16,
        pos <= src@.len() * 8,
        src@.len() * 8 <= usize::MAX,
    ensures
        pos + n > src@.len() * 8 ==> r is None,
        pos + n <= src@.len() * 8 ==> r == Some(lsb_value(src@, pos as int, n as nat) as u32),
{
    if n > src.len() * 8 - pos {
        return None;
    }
    let mut v: u32 = 0;
    let mut weight: u32 = 1;
    let mut k: usize = 0;
    while k < n
        invariant
            k <= n <= 16,
            pos + n <= src@.len() * 8,
            src@.len() * 8 <= usize::MAX,
            v == lsb_value(src@, pos as int, k as nat),
            weight == two_pow(k as nat),
            v < weight,
            weight <= 65536,
        decreases n - k,
    {
        proof {
            crate::huffman::lemma_two_pow_le(k as nat, 15);
            crate::huffman::lemma_two_pow_15();
        }
        if read_bit(src, pos + k) {
            v = v + weight;
        }
        weight = weight * 2;
        k = k + 1;
    }
    Some(v)
}

/// Reads `n` bits (at most 15) from bit position `pos`, most significant
/// first, as Huffman codes are packed. `None` when fewer than `n` bits are
/// left.
pub fn read_msb(src: &[u8], pos: usize, n: usize) -> (r: Option<u32>)
    requires
        n <= 15,
        pos <= src@.len() * 8,
        src@.len() * 8 <= usize::MAX,
    ensures
        pos + n > src@.len() * 8 ==> r is None,
        pos + n <= src@.len() * 8 ==> r == Some(msb_value(src@, pos as int, n as nat) as u32),
{
    if n > src.len() * 8 - pos {
        return None;
    }
    let mut c: u32 = 0;
    let mut k: usize = 0;
    while k < n
        invariant
            k <= n <= 15,
            pos + n <= src@.len() * 8,
            src@.len() * 8 <= usize::MAX,
            c == msb_value(src@, pos as int, k as nat),
            c < two_pow(k as nat),
        decreases n - k,
    {
        proof {
            crate::huffman::lemma_two_pow_le(k as nat, 14);
            crate::huffman::lemma_two_pow_15();
        }
        c = c * 2 + if read_bit(src, pos + k) {
            1u32
        } else {
            0u32
        };
        k = k + 1;
    }
    Some(c)
}

/// The bits of a byte stream in the order deflate packs them.
pub open spec fn bytes_bits(s: Seq<u8>) -> Seq<bool> {
    Seq::new(s.len() * 8, |k: int| bit_at(s, k))
}

/// The low `n` bits of `acc`, least significant first.
pub open spec fn low_bits(acc: u8, n: nat) -> Seq<bool> {
    Seq::new(n, |k: int| ((acc >> (k as u8)) & 1u8) == 1u8)
}

/// The low `n` bits of `value`, least significant first.
pub open spec fn value_bits(value: u32, n: nat) -> Seq<bool> {
    Seq::new(n, |k: int| ((value >> (k as u32)) & 1u32) == 1u32)
}

/// `n` zero bits.
pub open spec fn zero_bits(n: nat) -> Seq<bool> {
    Seq::new(n, |k: int| false)
}

proof fn lemma_two_pow_is_pow2(n: nat)
    ensures
        two_pow(n) == vstd::arithmetic::power2::pow2(n),
    decreases n,
{
    if n == 0 {
        vstd::arithmetic::power2::lemma2_to64();
    } else {
        lemma_two_pow_is_pow2((n - 1) as nat);
        vstd::arithmetic::power2::lemma_pow2_unfold(n);
    }
}

/// Bits that hold the low `n` bits of `v`, least significant first, read back
/// as `v` modulo 2^`n`: reading what `BitWriter::write_bits` wrote gives the
/// value written.
pub proof fn law_lsb_read_back(src: Seq<u8>, pos: int, v: u32, n: nat)
    requires
        n <= 32,
        forall|k: int| 0 <= k < n ==> #[trigger] bit_at(src, pos + k) == value_bits(v, n)[k],
    ensures
        lsb_value(src, pos, n) == v as nat % two_pow(n),
    decreases n,
{
    if n == 0 {
        assert(two_pow(0) == 1);
        assert(v as nat % 1 == 0) by (nonlinear_arith);
    } else {
        let m = (n - 1) as nat;
        assert forall|k: int| 0 <= k < m implies #[trigger] bit_at(src, pos + k) == value_bits(
            v,
            m,
        )[k] by {
            assert(value_bits(v, n)[k] == value_bits(v, m)[k]);
        }
        law_lsb_read_back(src, pos, v, m);
        let p = two_pow(m);
        crate::huffman::lemma_two_pow_pos(m);
        lemma_two_pow_is_pow2(m);
        let sh = m as u32;
        vstd::bits::lemma_u32_shr_is_div(v, sh);
        let y = v >> sh;
        assert((y & 1u32) == y % 2) by (bit_vector);
        assert(bit_at(src, pos + m) == value_bits(v, n)[m as int]);
        vstd::arithmetic::div_mod::lemma_mod_breakdown(v as int, p as int, 2);
        assert(two_pow(n) == p * 2);
        let q = (v as int / p as int) % 2;
        assert(y as int == v as int / p as int);
        assert(bit_at(src, pos + m) == (q == 1));
        assert(q == 0 || q == 1);
        assert(p * q == if q == 1 {
            p as int
        } else {
            0
        }) by (nonlinear_arith)
            requires
                q == 0 || q == 1,
        ;
        assert(lsb_value(src, pos, n) == lsb_value(src, pos, m) + if bit_at(src, pos + m) {
            p
        } else {
            0
        });
    }
}

/// Collects bits, least significant first within each byte, into whole
/// bytes; a partial byte waits in `acc` until it fills.
pub struct BitWriter {
    /// The whole bytes written so far.
    pub bytes: Vec<u8>,
    /// The pending bits, in the low `nbits` bits.
    pub acc: u8,
    /// How many bits are pending: fewer than 8.
    pub nbits: u8,
}

proof fn lemma_set_bit(acc: u8, nb: u8, v: u8, k: u8)
    by (bit_vector)
    requires
        nb < 8,
        v <= 1,
        acc >> nb == 0,
        k <= nb,
    ensures
        k < nb ==> ((acc | (v << nb)) >> k) & 1u8 == (acc >> k) & 1u8,
        k == nb ==> ((acc | (v << nb)) >> k) & 1u8 == v,
        nb < 7 ==> (acc | (v << nb)) >> ((nb + 1) as u8) == 0,
{
}

impl BitWriter {
    /// The writer's invariant: fewer than 8 pending bits, nothing above them.
    pub open spec fn wf(&self) -> bool {
        self.nbits < 8 && self.acc >> self.nbits == 0
    }

    /// Every bit written so far, in order.
    pub open spec fn written(&self) -> Seq<bool> {
        bytes_bits(self.bytes@) + low_bits(self.acc, self.nbits as nat)
    }

    /// A writer with nothing written.
    pub fn new() -> (r: BitWriter)
        ensures
            r.wf(),
            r.written() == Seq::<bool>::empty(),
    {
        let r = BitWriter { bytes: Vec::new(), acc: 0, nbits: 0 };
        assert(0u8 >> 0u8 == 0) by (bit_vector);
        assert(r.written() =~= Seq::<bool>::empty());
        r
    }

    /// Appends one bit.
    pub fn write_bit(&mut self, b: bool)
        requires
            old(self).wf(),
        ensures
            final(self).wf(),
            final(self).written() == old(self).written().push(b),
    {
        let nb = self.nbits;
        let v: u8 = if b {
            1
        } else {
            0
        };
        let acc = self.acc;
        let acc2: u8 = acc | (v << nb);
        let ghost old_bits = self.written();
        assert forall|k: int| 0 <= k <= nb implies (#[trigger] (acc2 >> (k as u8)) & 1u8 == 1u8) == if k
            < nb {
            (acc >> (k as u8)) & 1u8 == 1u8
        } else {
            b
        } by {
            lemma_set_bit(acc, nb, v, k as u8);
        }
        if nb < 7 {
            proof {
                lemma_set_bit(acc, nb, v, nb);
            }
            self.acc = acc2;
            self.nbits = nb + 1;
            assert(self.written() =~= old_bits.push(b));
        } else {
            let ghost old_bytes = self.bytes@;
            self.bytes.push(acc2);
            self.acc = 0;
            self.nbits = 0;
            assert(0u8 >> 0u8 == 0) by (bit_vector);
            assert forall|j: int| 0 <= j < old_bytes.len() * 8 implies bit_at(self.bytes@, j)
                == bit_at(old_bytes, j) by {
                assert(j / 8 < old_bytes.len());
            }
            assert forall|k: int| 0 <= k < 8 implies #[trigger] bit_at(self.bytes@, old_bytes.len() * 8 + k)
                == ((acc2 >> (k as u8)) & 1u8 == 1u8) by {
                assert((old_bytes.len() * 8 + k) / 8 == old_bytes.len());
                assert((old_bytes.len() * 8 + k) % 8 == k);
            }
            assert(self.written() =~= old_bits.push(b));
        }
    }

    /// Appends the low `n` bits of `value`, least significant first.
    pub fn write_bits(&mut self, value: u32, n: usize)
        requires
            old(self).wf(),
            n <= 32,
        ensures
            final(self).wf(),
            final(self).written() == old(self).written() + value_bits(value, n as nat),
    {
        let ghost start = self.written();
        let mut k: usize = 0;
        while k < n
            invariant
                k <= n <= 32,
                self.wf(),
                self.written() == start + value_bits(value, k as nat),
            decreases n - k,
        {
            let bit = ((value >> (k as u32)) & 1u32) == 1u32;
            self.write_bit(bit);
            assert(start + value_bits(value, (k + 1) as nat) =~= (start + value_bits(
                value,
                k as nat,
            )).push(bit));
            k = k + 1;
        }
    }

    /// Pads the pending byte with zero bits, so that what is written ends on
    /// a byte boundary.
    pub fn align_to_byte(&mut self)
        requires
            old(self).wf(),
        ensures
            final(self).wf(),
            final(self).nbits == 0,
            final(self).written() == old(self).written() + zero_bits(
                if old(self).nbits == 0 {
                    0
                } else {
                    (8 - old(self).nbits) as nat
                },
            ),
            final(self).written().len() % 8 == 0,
    {
        let ghost start = self.written();
        let ghost first = self.nbits;
        let mut added: usize = 0;
        while self.nbits != 0
            invariant
                self.wf(),
                first < 8,
                self.written() == start + zero_bits(added as nat),
                added < 8,
                first == 0 ==> added == 0 && self.nbits == 0,
                first != 0 ==> (self.nbits == 0 && added == 8 - first) || (self.nbits != 0
                    && self.nbits == first + added),
            decreases 8 - added,
        {
            self.write_bit(false);
            assert(start + zero_bits((added + 1) as nat) =~= (start + zero_bits(
                added as nat,
            )).push(false));
            added = added + 1;
        }
        assert(self.written() =~= bytes_bits(self.bytes@));
    }
}

} // verus!
