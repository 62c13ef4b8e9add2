//! The bit buffer: a `bitvec` vector of bits, most significant bit first in
//! each byte, seen by the proofs as a sequence of booleans.

use bitvec::order::Msb0;
use bitvec::vec::BitVec;
use vstd::prelude::*;

verus! {

/// The largest number of bits that a `BitVec` can hold (`bitvec` keeps
/// three bits of the length word for the head offset: `!0 >> 3`).
pub const MAX_BITS: usize = usize::MAX / 8;

/// An ordered, length-tracked sequence of bits.
#[derive(Debug, PartialEq, Eq)]
#[verifier::external_body]
pub struct Bits {
    inner: BitVec<u8, Msb0>,
}

/// The bits a buffer holds, in order.
pub uninterp spec fn bits_of(b: Bits) -> Seq<bool>;

impl Clone for Bits {
    /// Relies on `BitVec::clone`: the copy holds the same bits.
    #[verifier::external_body]
    fn clone(&self) -> (r: Bits)
        ensures
            r@ == self@,
    {
        Bits { inner: self.inner.clone() }
    }
}

impl View for Bits {
    type V = Seq<bool>;

    open spec fn view(&self) -> Seq<bool> {
        bits_of(*self)
    }
}

/// Bit `k` (0 = most significant) of a byte.
pub open spec fn byte_bit(byte: u8, k: int) -> bool {
    (byte >> ((7 - k) as u8)) & 1u8 == 1u8
}

/// The eight bits of a byte, most significant first.
pub open spec fn byte_bits(byte: u8) -> Seq<bool> {
    Seq::new(8, |k: int| byte_bit(byte, k))
}

/// A byte string read as bits, most significant bit first in each byte.
pub open spec fn bits_of_bytes(b: Seq<u8>) -> Seq<bool>
    decreases b.len(),
{
    if b.len() == 0 {
        Seq::empty()
    } else {
        bits_of_bytes(b.drop_last()) + byte_bits(b.last())
    }
}

/// The bits of `s`, each complemented.
pub open spec fn complement(s: Seq<bool>) -> Seq<bool> {
    Seq::new(s.len(), |i: int| !s[i])
}

/// The bits of `s` in reverse order.
pub open spec fn reversed(s: Seq<bool>) -> Seq<bool> {
    Seq::new(s.len(), |i: int| s[s.len() - 1 - i])
}

impl Bits {
    /// Relies on `BitVec::new`: a new vector holds no bits.
    #[verifier::external_body]
    pub fn new() -> (r: Bits)
        ensures
            bits_of(r) == Seq::<bool>::empty(),
    {
        Bits { inner: BitVec::new() }
    }

    /// Relies on `BitVec::len`: the number of live bits, which the vector's
    /// encoding keeps at or below `MAX_BITS`.
    #[verifier::external_body]
    pub fn len(&self) -> (r: usize)
        ensures
            r == bits_of(*self).len(),
            r <= MAX_BITS,
    {
        self.inner.len()
    }

    /// Relies on indexing a `BitSlice` by one position.
    #[verifier::external_body]
    pub fn get(&self, i: usize) -> (r: bool)
        requires
            i < self@.len(),
        ensures
            r == self@[i as int],
    {
        self.inner[i]
    }

    /// Relies on `BitVec::push`: the bit is appended at the end; it panics
    /// only past `MAX_BITS`.
    #[verifier::external_body]
    pub fn push(&mut self, v: bool)
        requires
            old(self)@.len() < MAX_BITS,
        ensures
            bits_of(*final(self)) == bits_of(*old(self)).push(v),
    {
        self.inner.push(v)
    }

    /// Relies on `BitVec::extend_from_bitslice`, given the range
    /// `start..end` of `src`: those bits are appended in order.
    #[verifier::external_body]
    pub fn extend_range(&mut self, src: &Bits, start: usize, end: usize)
        requires
            start <= end <= src@.len(),
            old(self)@.len() + (end - start) <= MAX_BITS,
        ensures
            final(self)@ == old(self)@ + src@.subrange(start as int, end as int),
    {
        self.inner.extend_from_bitslice(&src.inner[start..end])
    }

    /// Relies on `BitSlice::to_bitvec` of the range `start..end`.
    #[verifier::external_body]
    pub fn slice(&self, start: usize, end: usize) -> (r: Bits)
        requires
            start <= end <= self@.len(),
        ensures
            r@ == self@.subrange(start as int, end as int),
    {
        Bits { inner: self.inner[start..end].to_bitvec() }
    }

    /// Relies on `BitSlice::reverse`: the live bits are put in reverse order.
    #[verifier::external_body]
    pub fn reverse(&mut self)
        ensures
            final(self)@ == reversed(old(self)@),
    {
        self.inner.reverse()
    }

    /// Relies on `Not` for `BitVec`: every live bit is complemented and the
    /// length is kept.
    #[verifier::external_body]
    pub fn inverted(self) -> (r: Bits)
        ensures
            r@ == complement(self@),
    {
        Bits { inner: !self.inner }
    }
}

/// `b` followed by zero bits up to a whole number of bytes.
pub open spec fn padded(b: Seq<bool>) -> Seq<bool> {
    let n = if b.len() % 8 == 0 { b.len() as int } else { b.len() + 8 - b.len() % 8 };
    Seq::new(n as nat, |i: int| i < b.len() && b[i])
}

impl Bits {
    /// The bits of `bytes`, most significant first in each byte.
    pub fn from_bytes(bytes: &[u8]) -> (r: Bits)
        requires
            bytes@.len() <= MAX_BITS / 8,
        ensures
            r@ == bits_of_bytes(bytes@),
            r@.len() == 8 * bytes@.len(),
    {
        let mut bits = Bits::new();
        let mut k: usize = 0;
        while k < bytes.len()
            invariant
                k <= bytes@.len(),
                bytes@.len() <= MAX_BITS / 8,
                bits@ == bits_of_bytes(bytes@.subrange(0, k as int)),
                bits@.len() == 8 * k,
            decreases bytes@.len() - k,
        {
            let byte = bytes[k];
            let ghost before = bits@;
            let mut q: usize = 0;
            while q < 8
                invariant
                    q <= 8,
                    bits@ == before + byte_bits(byte).subrange(0, q as int),
                    before.len() <= MAX_BITS - 8,
                decreases 8 - q,
            {
                let bit = (byte >> ((7 - q) as u8)) & 1u8 == 1u8;
                bits.push(bit);
                assert(byte_bits(byte).subrange(0, q + 1) =~= byte_bits(byte).subrange(0, q as int).push(bit));
                q = q + 1;
            }
            assert(byte_bits(byte).subrange(0, 8) =~= byte_bits(byte));
            assert(bytes@.subrange(0, k + 1).drop_last() =~= bytes@.subrange(0, k as int));
            k = k + 1;
        }
        assert(bytes@.subrange(0, bytes@.len() as int) =~= bytes@);
        bits
    }

    /// The bits packed into bytes, most significant first, the last byte
    /// completed with zero bits.
    pub fn to_bytes(&self) -> (r: Vec<u8>)
        ensures
            bits_of_bytes(r@) == padded(self@),
    {
        let n = self.len();
        let ghost want = padded(self@);
        let mut out: Vec<u8> = Vec::new();
        let mut i: usize = 0;
        while i < n
            invariant
                n == self@.len(),
                n <= MAX_BITS,
                i % 8 == 0,
                i <= want.len(),
                want.len() % 8 == 0,
                n <= want.len() < n + 8,
                i == out@.len() * 8,
                want == padded(self@),
                bits_of_bytes(out@) == want.subrange(0, i as int),
            decreases n + 8 - i,
        {
            let mut byte: u8 = 0;
            let mut q: u8 = 0;
            assert forall|k: u8| 0 <= k < 8 implies !#[trigger] byte_bit(0u8, k as int) by {
                let sk = (7 - k) as u8;
                assert((0u8 >> sk) & 1u8 == 0u8) by (bit_vector);
            }
            assert(i + 8 <= want.len());
            while q < 8
                invariant
                    q <= 8,
                    i + 8 <= want.len(),
                    want.len() < n + 8,
                    n <= MAX_BITS,
                    n == self@.len(),
                    want == padded(self@),
                    i % 8 == 0,
                    forall|k: u8| k < q ==> #[trigger] byte_bit(byte, k as int) == want[i + k],
                    forall|k: u8| q <= k < 8 ==> !#[trigger] byte_bit(byte, k as int),
                decreases 8 - q,
            {
                let bit = i + (q as usize) < n && self.get(i + q as usize);
                let ghost old_byte = byte;
                if bit {
                    byte = byte | (1u8 << ((7 - q) as u8));
                }
                proof {
                    assert forall|k: u8| k < 8 implies #[trigger] byte_bit(byte, k as int) == (if k == q {
                        bit
                    } else {
                        byte_bit(old_byte, k as int)
                    }) by {
                        let b = byte;
                        let ob = old_byte;
                        let sq = (7 - q) as u8;
                        let sk = (7 - k) as u8;
                        if bit {
                            assert(b == ob | (1u8 << sq));
                            assert(((ob | (1u8 << sq)) >> sk) & 1u8 == 1u8 <==> (sk == sq || (ob >> sk) & 1u8 == 1u8)) by (bit_vector)
                                requires
                                    sk < 8,
                                    sq < 8,
                            ;
                        } else {
                            assert(k == q ==> !byte_bit(ob, k as int));
                        }
                    }
                    assert(want[i + q as int] == bit);
                }
                q = q + 1;
            }
            let ghost before = out@;
            out.push(byte);
            proof {
                assert(out@.drop_last() =~= before);
                assert forall|j: int| 0 <= j < 8 implies #[trigger] byte_bits(byte)[j] == want[i + j] by {
                    let k = j as u8;
                    assert(byte_bit(byte, k as int) == want[i + k]);
                }
                assert(byte_bits(byte) =~= want.subrange(i as int, i + 8));
                assert(bits_of_bytes(out@) =~= want.subrange(0, i + 8));
            }
            i = i + 8;
        }
        assert(want.subrange(0, i as int) =~= want);
        out
    }
}

} // verus!
