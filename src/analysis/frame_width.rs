//! Column statistics for frame-width detection: for a candidate width the
//! buffer is cut into whole frames, and each bit position (column) is
//! tallied across them. Entropy and scoring are computed from these counts
//! by the caller.

use crate::bits::Bits;
use vstd::arithmetic::div_mod::lemma_fundamental_div_mod;
use vstd::prelude::*;

verus! {

/// Number of the first `k` frames whose bit at column `p` is set.
pub open spec fn ones_count(bits: Seq<bool>, width: int, p: int, k: int) -> nat
    decreases k,
{
    if k <= 0 {
        0
    } else {
        ones_count(bits, width, p, k - 1) + if bits[(k - 1) * width + p] {
            1nat
        } else {
            0nat
        }
    }
}

/// Number of the first `k` frames whose bit at column `p` equals the bit at
/// the same column `delta` frames later.
pub open spec fn agree_count(bits: Seq<bool>, width: int, delta: int, p: int, k: int) -> nat
    decreases k,
{
    if k <= 0 {
        0
    } else {
        agree_count(bits, width, delta, p, k - 1) + if bits[(k - 1) * width + p] == bits[(k - 1 + delta)
            * width + p] {
            1nat
        } else {
            0nat
        }
    }
}

/// A bit of a whole frame lies inside the buffer.
proof fn lemma_frame_bit_in_range(len: int, width: int, f: int, p: int)
    requires
        width > 0,
        0 <= f < len / width,
        0 <= p < width,
    ensures
        0 <= f * width + p < len,
{
    lemma_fundamental_div_mod(len, width);
    assert(0 <= f * width + p < len) by (nonlinear_arith)
        requires
            len == width * (len / width) + len % width,
            len % width >= 0,
            0 <= f < len / width,
            0 <= p < width,
    ;
}

/// Number of whole frames of `width` bits in the buffer.
pub fn frame_count(bits: &Bits, width: usize) -> (r: usize)
    requires
        width > 0,
    ensures
        r == bits@.len() as int / (width as int),
{
    bits.len() / width
}

/// For each column of frames `width` bits wide, the number of whole frames
/// whose bit there is set.
pub fn column_ones(bits: &Bits, width: usize) -> (r: Vec<usize>)
    requires
        width > 0,
    ensures
        r@.len() == width,
        forall|p: int|
            0 <= p < width ==> #[trigger] r@[p] == ones_count(bits@, width as int, p, bits@.len() as int / (width as int)),
{
    let n = bits.len();
    let frames = frame_count(bits, width);
    let mut out: Vec<usize> = Vec::new();
    let mut p: usize = 0;
    while p < width
        invariant
            frames == bits@.len() as int / (width as int),
            n == bits@.len(),
            width > 0,
            p <= width,
            out@.len() == p,
            forall|q: int| 0 <= q < p ==> #[trigger] out@[q] == ones_count(bits@, width as int, q, frames as int),
        decreases width - p,
    {
        let mut count: usize = 0;
        let mut f: usize = 0;
        while f < frames
            invariant
                frames == bits@.len() as int / (width as int),
                n == bits@.len(),
            n == bits@.len(),
                width > 0,
                p < width,
                f <= frames,
                count == ones_count(bits@, width as int, p as int, f as int),
                count <= f,
            decreases frames - f,
        {
            proof {
                lemma_frame_bit_in_range(bits@.len() as int, width as int, f as int, p as int);
            }
            if bits.get(f * width + p) {
                count = count + 1;
            }
            f = f + 1;
        }
        out.push(count);
        p = p + 1;
    }
    out
}

/// For each column of frames `width` bits wide, the number of whole frames
/// whose bit there equals the bit `delta` frames later (frames that have no
/// such partner are not counted).
pub fn column_agreements(bits: &Bits, width: usize, delta: usize) -> (r: Vec<usize>)
    requires
        width > 0,
    ensures
        r@.len() == width,
        forall|p: int|
            0 <= p < width ==> #[trigger] r@[p] == agree_count(
                bits@,
                width as int,
                delta as int,
                p,
                if bits@.len() as int / (width as int) > delta { bits@.len() as int / (width as int) - delta } else { 0 },
            ),
{
    let n = bits.len();
    let frames = frame_count(bits, width);
    let samples = if frames > delta { frames - delta } else { 0 };
    let mut out: Vec<usize> = Vec::new();
    let mut p: usize = 0;
    while p < width
        invariant
            frames == bits@.len() as int / (width as int),
            n == bits@.len(),
            samples == if frames > delta { frames - delta } else { 0 },
            width > 0,
            p <= width,
            out@.len() == p,
            forall|q: int|
                0 <= q < p ==> #[trigger] out@[q] == agree_count(bits@, width as int, delta as int, q, samples as int),
        decreases width - p,
    {
        let mut count: usize = 0;
        let mut f: usize = 0;
        while f < samples
            invariant
                frames == bits@.len() as int / (width as int),
                n == bits@.len(),
            n == bits@.len(),
                samples == if frames > delta { frames - delta } else { 0 },
                width > 0,
                p < width,
                f <= samples,
                count == agree_count(bits@, width as int, delta as int, p as int, f as int),
                count <= f,
            decreases samples - f,
        {
            proof {
                lemma_frame_bit_in_range(bits@.len() as int, width as int, f as int, p as int);
                lemma_frame_bit_in_range(bits@.len() as int, width as int, (f + delta) as int, p as int);
            }
            if bits.get(f * width + p) == bits.get((f + delta) * width + p) {
                count = count + 1;
            }
            f = f + 1;
        }
        out.push(count);
        p = p + 1;
    }
    out
}

} // verus!
