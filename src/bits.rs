//! A bit-level view of a byte buffer, and a cursor that reads it in order.

use vstd::arithmetic::power2::{lemma_pow2_pos, lemma_pow2_unfold, pow2};
use vstd::prelude::*;

verus! {

/// The bit at position `i` of `buf`; bit 0 is the most significant bit of
/// the first byte.
pub open spec fn bit_at(buf: Seq<u8>, i: int) -> u8 {
    (buf[i / 8] >> ((7 - i % 8) as u8)) & 1u8
}

/// The unsigned integer held by the `n` bits of `buf` that start at bit
/// `pos`, most significant bit first.
pub open spec fn bits_value(buf: Seq<u8>, pos: int, n: nat) -> nat
    decreases n,
{
    if n == 0 {
        0
    } else {
        2 * bits_value(buf, pos, (n - 1) as nat) + bit_at(buf, pos + n - 1) as nat
    }
}

/// Whether `n` bits starting at bit `pos` lie inside `buf`.
pub open spec fn can_read(buf: Seq<u8>, pos: int, n: nat) -> bool {
    0 <= pos && pos + n <= 8 * buf.len()
}

/// A bit is 0 or 1.
pub proof fn lemma_bit_at_bound(buf: Seq<u8>, i: int)
    ensures
        bit_at(buf, i) <= 1,
{
    let x = buf[i / 8];
    let s = (7 - i % 8) as u8;
    assert((x >> s) & 1u8 <= 1) by (bit_vector);
}

/// An `n`-bit field is below `2^n`.
pub proof fn lemma_bits_value_bound(buf: Seq<u8>, pos: int, n: nat)
    ensures
        bits_value(buf, pos, n) < pow2(n),
    decreases n,
{
    if n > 0 {
        lemma_bits_value_bound(buf, pos, (n - 1) as nat);
        lemma_bit_at_bound(buf, pos + n - 1);
        lemma_pow2_unfold(n);
    } else {
        lemma_pow2_pos(n);
    }
}

/// Reads a byte buffer bit by bit, most significant bit of each byte first.
pub struct BitCursor {
    data: Vec<u8>,
    byte: usize,
    bit: u8,
}

impl BitCursor {
    /// The buffer being read.
    pub closed spec fn buffer(&self) -> Seq<u8> {
        self.data@
    }

    /// The number of bits read so far.
    pub closed spec fn pos(&self) -> int {
        8 * self.byte + self.bit
    }

    /// The cursor stands on a bit of the buffer, or just past its end.
    pub closed spec fn wf(&self) -> bool {
        &&& self.bit < 8
        &&& self.byte <= self.data@.len()
        &&& self.byte == self.data@.len() ==> self.bit == 0
    }

    /// A well-formed cursor stands inside its buffer.
    pub proof fn lemma_pos_bounds(&self)
        requires
            self.wf(),
        ensures
            0 <= self.pos() <= 8 * self.buffer().len(),
    {
    }

    /// A cursor at the first bit of `data`.
    pub fn new(data: Vec<u8>) -> (r: BitCursor)
        ensures
            r.wf(),
            r.buffer() == data@,
            r.pos() == 0,
    {
        BitCursor { data, byte: 0, bit: 0 }
    }

    /// The number of bits read so far.
    pub fn position(&self) -> (r: usize)
        requires
            self.wf(),
            8 * self.buffer().len() <= usize::MAX,
        ensures
            r == self.pos(),
    {
        8 * self.byte + self.bit as usize
    }

    /// Whether at least `n` bits are left.
    fn has_bits(&self, n: u8) -> (r: bool)
        requires
            self.wf(),
            n <= 16,
        ensures
            r == can_read(self.buffer(), self.pos(), n as nat),
    {
        let left_bytes = self.data.len() - self.byte;
        if left_bytes >= 3 {
            true
        } else {
            8 * left_bytes - self.bit as usize >= n as usize
        }
    }

    /// Reads the next `n` bits as an unsigned integer, most significant bit
    /// first, and moves past them; `None`, with the cursor unmoved, when
    /// fewer than `n` bits are left.
    pub fn read(&mut self, n: u8) -> (r: Option<u16>)
        requires
            old(self).wf(),
            1 <= n <= 16,
        ensures
            final(self).wf(),
            final(self).buffer() == old(self).buffer(),
            0 <= final(self).pos() <= 8 * final(self).buffer().len(),
            match r {
                Some(v) => {
                    &&& can_read(old(self).buffer(), old(self).pos(), n as nat)
                    &&& v as nat == bits_value(old(self).buffer(), old(self).pos(), n as nat)
                    &&& final(self).pos() == old(self).pos() + n
                },
                None => {
                    &&& !can_read(old(self).buffer(), old(self).pos(), n as nat)
                    &&& final(self).pos() == old(self).pos()
                },
            },
    {
        if !self.has_bits(n) {
            return None;
        }
        let ghost buf = self.data@;
        let ghost start = self.pos();
        let mut v: u32 = 0;
        let mut i: u8 = 0;
        while i < n
            invariant
                self.wf(),
                self.data@ == buf,
                i <= n <= 16,
                self.pos() == start + i,
                0 <= start,
                start + n <= 8 * buf.len(),
                v as nat == bits_value(buf, start, i as nat),
            decreases n - i,
        {
            proof {
                lemma_bits_value_bound(buf, start, i as nat);
                lemma_bit_at_bound(buf, start + i);
                vstd::arithmetic::power2::lemma_pow2_strictly_increases(i as nat, 16);
                vstd::arithmetic::power2::lemma2_to64();
                let p = 8 * self.byte + self.bit;
                assert(p / 8 == self.byte as int && p % 8 == self.bit as int) by (nonlinear_arith)
                    requires
                        p == 8 * self.byte + self.bit,
                        0 <= self.bit < 8,
                ;
            }
            assert(self.byte < self.data.len());
            let x = self.data[self.byte];
            let s = 7 - self.bit;
            let b = (x >> s) & 1u8;
            assert(b <= 1) by (bit_vector)
                requires
                    b == (x >> s) & 1u8,
            ;
            v = v * 2 + b as u32;
            if self.bit == 7 {
                self.bit = 0;
                self.byte = self.byte + 1;
            } else {
                self.bit = self.bit + 1;
            }
            i = i + 1;
        }
        proof {
            lemma_bits_value_bound(buf, start, n as nat);
            if n < 16 {
                vstd::arithmetic::power2::lemma_pow2_strictly_increases(n as nat, 16);
            }
            vstd::arithmetic::power2::lemma2_to64();
        }
        Some(v as u16)
    }
}

} // verus!
