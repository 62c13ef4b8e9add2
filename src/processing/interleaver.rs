//! Block, convolutional and symbol interleavers, each with its inverse
//! direction.
//!
//! A block or symbol interleaver cuts the input into chunks of
//! `block_size × depth` cells (a cell is one bit, or one `symbol_size`-bit
//! symbol). Interleaving writes a chunk into a `depth`-row, `block_size`-column
//! matrix row by row and reads it column by column; deinterleaving writes
//! column by column and reads row by row. A trailing partial chunk goes
//! through the same matrix: cells that the chunk does not fill are skipped
//! when reading (the block deinterleaver reads a zero for an unfilled cell
//! whose row-major position lies inside the chunk).

use crate::bits::{Bits, MAX_BITS};
use vstd::arithmetic::div_mod::{lemma_fundamental_div_mod, lemma_fundamental_div_mod_converse};
use vstd::prelude::*;
use vstd::set_lib::{lemma_int_range, lemma_len_subset, set_int_range};

verus! {

/// Which interleaver a pipeline stage uses.
#[derive(Debug, Clone, Copy, PartialEq, Eq, Structural)]
pub enum InterleaverType {
    Block,
    Convolutional,
    Symbol,
}

/// Whether a stage interleaves or undoes an interleaving.
#[derive(Debug, Clone, Copy, PartialEq, Eq, Structural)]
pub enum InterleaverDirection {
    Interleave,
    Deinterleave,
}

/// Position in the chunk of the `k`-th cell read column by column from a
/// matrix that was written row by row.
pub open spec fn il_index(bs: int, d: int) -> spec_fn(int) -> int {
    |k: int| (k % d) * bs + k / d
}

/// Position in the chunk of the `k`-th cell read row by row from a matrix
/// that was written column by column.
pub open spec fn dl_index(bs: int, d: int) -> spec_fn(int) -> int {
    |k: int| (k % bs) * d + k / bs
}

/// Both reading orders stay inside the matrix and undo each other.
pub proof fn lemma_index_maps(bs: int, d: int, k: int)
    requires
        bs > 0,
        d > 0,
        0 <= k < bs * d,
    ensures
        0 <= il_index(bs, d)(k) < bs * d,
        0 <= dl_index(bs, d)(k) < bs * d,
        dl_index(bs, d)(il_index(bs, d)(k)) == k,
        il_index(bs, d)(dl_index(bs, d)(k)) == k,
{
    let r = k % d;
    let c = k / d;
    lemma_fundamental_div_mod(k, d);
    assert(k == c * d + r) by (nonlinear_arith)
        requires
            k == d * c + r,
    ;
    assert(0 <= c < bs) by (nonlinear_arith)
        requires
            k == c * d + r,
            0 <= r < d,
            0 <= k < bs * d,
    ;
    assert(0 <= r * bs + c < bs * d) by (nonlinear_arith)
        requires
            0 <= c < bs,
            0 <= r < d,
    ;
    lemma_fundamental_div_mod_converse(r * bs + c, bs, r, c);
    let r2 = k / bs;
    let c2 = k % bs;
    lemma_fundamental_div_mod(k, bs);
    assert(k == r2 * bs + c2) by (nonlinear_arith)
        requires
            k == bs * r2 + c2,
    ;
    assert(0 <= r2 < d) by (nonlinear_arith)
        requires
            k == r2 * bs + c2,
            0 <= c2 < bs,
            0 <= k < bs * d,
    ;
    assert(0 <= c2 * d + r2 < bs * d) by (nonlinear_arith)
        requires
            0 <= c2 < bs,
            0 <= r2 < d,
    ;
    lemma_fundamental_div_mod_converse(c2 * d + r2, d, c2, r2);
}

/// Concatenation of the cells `idx(0), ..., idx(k - 1)` of `chunk` that
/// exist, a cell being `s` bits and `chunk` holding `n` whole cells.
pub open spec fn gather(chunk: Seq<bool>, s: int, n: int, idx: spec_fn(int) -> int, k: int) -> Seq<bool>
    decreases k,
{
    if k <= 0 {
        Seq::empty()
    } else {
        let prev = gather(chunk, s, n, idx, k - 1);
        let j = idx(k - 1);
        if 0 <= j < n {
            prev + chunk.subrange(j * s, j * s + s)
        } else {
            prev
        }
    }
}

/// The cells among `idx(0..k)` that exist, named by position.
pub open spec fn gathered_cells(n: int, idx: spec_fn(int) -> int, inv: spec_fn(int) -> int, k: int) -> Set<int> {
    Set::new(|j: int| 0 <= j < n && 0 <= inv(j) < k && idx(inv(j)) == j)
}

/// A reading order that visits each cell at most once gathers at most the
/// whole chunk.
pub proof fn lemma_gather_len(
    chunk: Seq<bool>,
    s: int,
    n: int,
    idx: spec_fn(int) -> int,
    inv: spec_fn(int) -> int,
    m: int,
    k: int,
)
    requires
        s >= 0,
        0 <= n <= m,
        0 <= k <= m,
        s * n <= chunk.len(),
        forall|i: int| 0 <= i < m ==> #[trigger] inv(idx(i)) == i,
    ensures
        gathered_cells(n, idx, inv, k).finite(),
        gathered_cells(n, idx, inv, k).len() <= n,
        gather(chunk, s, n, idx, k).len() == s * gathered_cells(n, idx, inv, k).len(),
        k < m && 0 <= idx(k) < n ==> gathered_cells(n, idx, inv, k).len() < n,
    decreases k,
{
    let cells = gathered_cells(n, idx, inv, k);
    lemma_int_range(0, n);
    assert(cells.subset_of(set_int_range(0, n)));
    lemma_len_subset(cells, set_int_range(0, n));
    if k <= 0 {
        assert(cells =~= Set::<int>::empty());
    } else {
        lemma_gather_len(chunk, s, n, idx, inv, m, k - 1);
        let prev = gathered_cells(n, idx, inv, k - 1);
        let j = idx(k - 1);
        if 0 <= j < n {
            assert(inv(j) == k - 1);
            assert(!prev.contains(j));
            assert(cells =~= prev.insert(j));
            assert(s * (prev.len() + 1) == s * prev.len() + s) by (nonlinear_arith);
            assert(0 <= j * s && j * s + s <= s * n) by (nonlinear_arith)
                requires
                    0 <= j < n,
                    s >= 0,
            ;
        } else {
            assert forall|x: int| cells.contains(x) implies prev.contains(x) by {
                if inv(x) == k - 1 {
                    assert(idx(k - 1) == x);
                }
            }
            assert(cells =~= prev);
        }
    }
    if k < m && 0 <= idx(k) < n {
        let j = idx(k);
        assert(inv(j) == k);
        assert(!cells.contains(j));
        assert(cells.insert(j).subset_of(set_int_range(0, n)));
        lemma_len_subset(cells.insert(j), set_int_range(0, n));
    }
}

/// The input cut into chunks of `m` bits from `start` on (the last one
/// possibly shorter), each chunk transformed by `f`, results concatenated.
pub open spec fn chunked(input: Seq<bool>, m: int, start: int, f: spec_fn(Seq<bool>) -> Seq<bool>) -> Seq<bool>
    decreases input.len() - start,
{
    if start < 0 || m <= 0 || start >= input.len() {
        Seq::empty()
    } else {
        let end = if start + m < input.len() { start + m } else { input.len() as int };
        f(input.subrange(start, end)) + chunked(input, m, end, f)
    }
}

/// The reading order of a `bs`-column, `d`-row matrix: column by column
/// when interleaving, row by row when deinterleaving.
pub open spec fn read_order(bs: int, d: int, forward: bool) -> spec_fn(int) -> int {
    if forward {
        il_index(bs, d)
    } else {
        dl_index(bs, d)
    }
}

/// One chunk of `s`-bit cells read in the matrix's reading order, cells that
/// the chunk does not hold whole being skipped.
pub open spec fn cell_chunk(bs: int, d: int, s: int, forward: bool) -> spec_fn(Seq<bool>) -> Seq<bool> {
    |chunk: Seq<bool>| gather(chunk, s, chunk.len() as int / s, read_order(bs, d, forward), bs * d)
}

/// Block interleaving of one chunk of a `bs`-column, `d`-row matrix.
pub open spec fn block_interleave_chunk(bs: int, d: int) -> spec_fn(Seq<bool>) -> Seq<bool> {
    cell_chunk(bs, d, 1, true)
}

/// Block deinterleaving of one chunk: the cells read row by row up to the
/// chunk's length, an unfilled cell reading as zero.
pub open spec fn block_deinterleave_chunk(bs: int, d: int) -> spec_fn(Seq<bool>) -> Seq<bool> {
    |chunk: Seq<bool>|
        Seq::new(
            chunk.len(),
            |k: int|
                {
                    let j = dl_index(bs, d)(k);
                    if j < chunk.len() {
                        chunk[j]
                    } else {
                        false
                    }
                },
        )
}

/// Whether `a × b` fits a `usize`.
fn product_fits(a: usize, b: usize) -> (r: bool)
    ensures
        r == (a * b <= usize::MAX),
{
    if b == 0 {
        true
    } else if a <= usize::MAX / b {
        assert(a * b <= usize::MAX) by (nonlinear_arith)
            requires
                a <= usize::MAX / b,
                b > 0,
        ;
        true
    } else {
        assert(a * b > usize::MAX) by (nonlinear_arith)
            requires
                a > usize::MAX / b,
                b > 0,
        ;
        false
    }
}

/// Reads every chunk of `bs × d` cells of `s` bits in the matrix's reading
/// order.
fn read_cells(input: &Bits, bs: usize, d: usize, s: usize, forward: bool) -> (r: Bits)
    requires
        bs > 0,
        d > 0,
        s > 0,
        bs * d * s <= usize::MAX,
    ensures
        r@ == chunked(input@, bs * d * s, 0, cell_chunk(bs as int, d as int, s as int, forward)),
{
    assert(bs * d <= bs * d * s && bs * d > 0) by (nonlinear_arith)
        requires
            bs > 0,
            d > 0,
            s > 0,
    ;
    let m = bs * d;
    let mb = m * s;
    let ghost f = cell_chunk(bs as int, d as int, s as int, forward);
    let ghost idx = read_order(bs as int, d as int, forward);
    let ghost inv = read_order(bs as int, d as int, !forward);
    let len = input.len();
    let mut result = Bits::new();
    let mut cs: usize = 0;
    assert(mb > 0) by (nonlinear_arith)
        requires
            mb == m * s,
            m > 0,
            s > 0,
    ;
    assert forall|i: int| 0 <= i < m implies #[trigger] inv(idx(i)) == i by {
        lemma_index_maps(bs as int, d as int, i);
    }
    while cs < len
        invariant
            len == input@.len(),
            len <= MAX_BITS,
            cs <= len,
            m > 0,
            mb > 0,
            m == bs * d,
            mb == m * s,
            bs > 0,
            d > 0,
            s > 0,
            result@.len() <= cs,
            f == cell_chunk(bs as int, d as int, s as int, forward),
            idx == read_order(bs as int, d as int, forward),
            inv == read_order(bs as int, d as int, !forward),
            forall|i: int| 0 <= i < m ==> #[trigger] inv(idx(i)) == i,
            result@ + chunked(input@, mb as int, cs as int, f) == chunked(input@, mb as int, 0, f),
        decreases len - cs,
    {
        let ce = if mb >= len - cs { len } else { cs + mb };
        let cl = ce - cs;
        let ns = cl / s;
        let ghost chunk = input@.subrange(cs as int, ce as int);
        let ghost res0 = result@;
        assert(ns <= m && s * ns <= cl) by (nonlinear_arith)
            requires
                ns == cl / s,
                cl <= mb,
                mb == m * s,
                s > 0,
        ;
        let mut k: usize = 0;
        while k < m
            invariant
                len == input@.len(),
                len <= MAX_BITS,
                cs < ce <= len,
                cl == ce - cs,
                ns == cl / s,
                ns <= m,
                s * ns <= cl,
                m == bs * d,
                bs > 0,
                d > 0,
                s > 0,
                k <= m,
                res0.len() <= cs,
                chunk == input@.subrange(cs as int, ce as int),
                idx == read_order(bs as int, d as int, forward),
                inv == read_order(bs as int, d as int, !forward),
                forall|i: int| 0 <= i < m ==> #[trigger] inv(idx(i)) == i,
                result@ == res0 + gather(chunk, s as int, ns as int, idx, k as int),
            decreases m - k,
        {
            proof {
                lemma_index_maps(bs as int, d as int, k as int);
                lemma_gather_len(chunk, s as int, ns as int, idx, inv, m as int, k as int);
            }
            let j = if forward { (k % d) * bs + k / d } else { (k % bs) * d + k / bs };
            assert(j == idx(k as int));
            if j < ns {
                proof {
                    let g = gathered_cells(ns as int, idx, inv, k as int).len();
                    assert(s * g + s <= s * ns && j * s + s <= s * ns) by (nonlinear_arith)
                        requires
                            g < ns,
                            j < ns,
                            s > 0,
                    ;
                }
                let lo = cs + j * s;
                result.extend_range(input, lo, lo + s);
                assert(input@.subrange(lo as int, lo + s) =~= chunk.subrange(j * s, j * s + s));
            }
            k = k + 1;
        }
        proof {
            lemma_gather_len(chunk, s as int, ns as int, idx, inv, m as int, m as int);
            assert(s * gathered_cells(ns as int, idx, inv, m as int).len() <= s * ns) by (nonlinear_arith)
                requires
                    gathered_cells(ns as int, idx, inv, m as int).len() <= ns,
                    s > 0,
            ;
            assert(f(chunk) == gather(chunk, s as int, ns as int, idx, m as int));
            assert(res0 + (f(chunk) + chunked(input@, mb as int, ce as int, f))
                =~= result@ + chunked(input@, mb as int, ce as int, f));
        }
        cs = ce;
    }
    assert(result@ + Seq::<bool>::empty() =~= result@);
    result
}

/// Configuration of a block interleaver.
#[derive(Debug, Clone, Copy, PartialEq, Eq, Structural)]
pub struct BlockInterleaverConfig {
    /// Bits per row (the matrix's columns).
    pub block_size: usize,
    /// Rows of the matrix.
    pub depth: usize,
    pub direction: InterleaverDirection,
}

impl BlockInterleaverConfig {
    /// The same configuration with another direction.
    pub open spec fn turned(self, direction: InterleaverDirection) -> Self {
        BlockInterleaverConfig { direction, ..self }
    }

    /// Whether the matrix has cells and its size fits a `usize`.
    pub open spec fn usable(self) -> bool {
        self.block_size > 0 && self.depth > 0 && self.block_size * self.depth <= usize::MAX
    }

    /// What `apply` produces: the input unchanged for an unusable matrix,
    /// else the chunks of `block_size × depth` bits each transformed.
    pub open spec fn spec_apply(self, input: Seq<bool>) -> Seq<bool> {
        let bs = self.block_size as int;
        let d = self.depth as int;
        if !self.usable() {
            input
        } else {
            match self.direction {
                InterleaverDirection::Interleave => chunked(input, bs * d, 0, block_interleave_chunk(bs, d)),
                InterleaverDirection::Deinterleave => chunked(input, bs * d, 0, block_deinterleave_chunk(bs, d)),
            }
        }
    }

    pub fn new(block_size: usize, depth: usize, direction: InterleaverDirection) -> (r: Self)
        ensures
            r.block_size == block_size,
            r.depth == depth,
            r.direction == direction,
    {
        BlockInterleaverConfig { block_size, depth, direction }
    }

    /// Interleaves or deinterleaves `input` according to `direction`.
    pub fn apply(&self, input: &Bits) -> (r: Bits)
        ensures
            r@ == self.spec_apply(input@),
    {
        if self.block_size == 0 || self.depth == 0 || self.block_size > usize::MAX / self.depth {
            proof {
                if self.block_size > 0 && self.depth > 0 {
                    assert(self.block_size * self.depth > usize::MAX) by (nonlinear_arith)
                        requires
                            self.block_size > usize::MAX / self.depth,
                            self.depth > 0,
                    ;
                }
            }
            return input.clone();
        }
        assert(self.block_size * self.depth <= usize::MAX) by (nonlinear_arith)
            requires
                self.block_size <= usize::MAX / self.depth,
                self.depth > 0,
        ;
        match self.direction {
            InterleaverDirection::Interleave => self.interleave(input),
            InterleaverDirection::Deinterleave => self.deinterleave(input),
        }
    }

    /// Writes each chunk row by row and reads it column by column.
    fn interleave(&self, input: &Bits) -> (r: Bits)
        requires
            self.usable(),
        ensures
            r@ == chunked(input@, self.block_size * self.depth, 0,
                block_interleave_chunk(self.block_size as int, self.depth as int)),
    {
        assert(self.block_size * self.depth * 1 == self.block_size * self.depth);
        read_cells(input, self.block_size, self.depth, 1, true)
    }

    /// Writes each chunk column by column and reads it row by row.
    fn deinterleave(&self, input: &Bits) -> (r: Bits)
        requires
            self.usable(),
        ensures
            r@ == chunked(input@, self.block_size * self.depth, 0,
                block_deinterleave_chunk(self.block_size as int, self.depth as int)),
    {
        let bs = self.block_size;
        let d = self.depth;
        let m = bs * d;
        let ghost f = block_deinterleave_chunk(bs as int, d as int);
        let ghost idx = dl_index(bs as int, d as int);
        let len = input.len();
        let mut result = Bits::new();
        let mut cs: usize = 0;
        assert(m > 0) by (nonlinear_arith)
            requires
                m == bs * d,
                bs > 0,
                d > 0,
        ;
        while cs < len
            invariant
                len == input@.len(),
                len <= MAX_BITS,
                cs <= len,
                m > 0,
                m == bs * d,
                bs > 0,
                d > 0,
                result@.len() == cs,
                f == block_deinterleave_chunk(bs as int, d as int),
                idx == dl_index(bs as int, d as int),
                result@ + chunked(input@, m as int, cs as int, f) == chunked(input@, m as int, 0, f),
            decreases len - cs,
        {
            let ce = if m >= len - cs { len } else { cs + m };
            let cl = ce - cs;
            let ghost chunk = input@.subrange(cs as int, ce as int);
            let ghost res0 = result@;
            let mut k: usize = 0;
            while k < cl
                invariant
                    len == input@.len(),
                    len <= MAX_BITS,
                    cs < ce <= len,
                    cl == ce - cs,
                    cl <= m,
                    m == bs * d,
                    bs > 0,
                    d > 0,
                    k <= cl,
                    res0.len() == cs,
                    chunk == input@.subrange(cs as int, ce as int),
                    f == block_deinterleave_chunk(bs as int, d as int),
                    f(chunk).len() == cl,
                    idx == dl_index(bs as int, d as int),
                    result@ == res0 + f(chunk).subrange(0, k as int),
                decreases cl - k,
            {
                proof {
                    lemma_index_maps(bs as int, d as int, k as int);
                }
                let j = (k % bs) * d + k / bs;
                assert(j == idx(k as int));
                let b = if j < cl { input.get(cs + j) } else { false };
                result.push(b);
                assert(f(chunk).subrange(0, k + 1) =~= f(chunk).subrange(0, k as int).push(b));
                k = k + 1;
            }
            proof {
                assert(f(chunk).subrange(0, cl as int) =~= f(chunk));
                assert(res0 + (f(chunk) + chunked(input@, m as int, ce as int, f))
                    =~= result@ + chunked(input@, m as int, ce as int, f));
            }
            cs = ce;
        }
        assert(result@ + Seq::<bool>::empty() =~= result@);
        result
    }
}

/// Delay, in uses of its branch, of branch `b`: `b × inc` when
/// interleaving, `(branches - 1 - b) × inc` when deinterleaving.
pub open spec fn branch_delay(b: int, branches: int, inc: int, forward: bool) -> int {
    if forward {
        b * inc
    } else {
        (branches - 1 - b) * inc
    }
}

/// Output of a bank of `branches` FIFO delay lines fed round-robin: bit `t`
/// goes through branch `t % branches`, whose line was seeded with as many
/// zeros as its delay; so bit `t` of the output is the input bit that entered
/// that branch `delay` uses earlier, or a seed zero.
pub open spec fn delay_lines(input: Seq<bool>, branches: int, inc: int, forward: bool) -> Seq<bool> {
    Seq::new(
        input.len(),
        |t: int|
            {
                let b = t % branches;
                let j = t / branches;
                let delay = branch_delay(b, branches, inc, forward);
                if j < delay {
                    false
                } else {
                    input[(j - delay) * branches + b]
                }
            },
    )
}

/// Configuration of a convolutional interleaver.
#[derive(Debug, Clone, Copy, PartialEq, Eq, Structural)]
pub struct ConvolutionalInterleaverConfig {
    /// Number of parallel delay lines.
    pub branches: usize,
    /// Delay added from one branch to the next.
    pub delay_increment: usize,
    pub direction: InterleaverDirection,
}

impl ConvolutionalInterleaverConfig {
    /// The same configuration with another direction.
    pub open spec fn turned(self, direction: InterleaverDirection) -> Self {
        ConvolutionalInterleaverConfig { direction, ..self }
    }

    /// What `apply` produces: the input unchanged without branches, else the
    /// output of the delay lines.
    pub open spec fn spec_apply(self, input: Seq<bool>) -> Seq<bool> {
        if self.branches == 0 {
            input
        } else {
            delay_lines(
                input,
                self.branches as int,
                self.delay_increment as int,
                self.direction == InterleaverDirection::Interleave,
            )
        }
    }

    pub fn new(branches: usize, delay_increment: usize, direction: InterleaverDirection) -> (r: Self)
        ensures
            r.branches == branches,
            r.delay_increment == delay_increment,
            r.direction == direction,
    {
        ConvolutionalInterleaverConfig { branches, delay_increment, direction }
    }

    /// Feeds the input through the delay lines, one bit per branch in turn.
    pub fn apply(&self, input: &Bits) -> (r: Bits)
        ensures
            r@ == self.spec_apply(input@),
    {
        let nb = self.branches;
        if nb == 0 {
            return input.clone();
        }
        let inc = self.delay_increment;
        let forward = match self.direction {
            InterleaverDirection::Interleave => true,
            InterleaverDirection::Deinterleave => false,
        };
        let ghost want = delay_lines(input@, nb as int, inc as int, forward);
        let len = input.len();
        let mut result = Bits::new();
        let mut t: usize = 0;
        while t < len
            invariant
                len == input@.len(),
                len <= MAX_BITS,
                t <= len,
                nb > 0,
                want == delay_lines(input@, nb as int, inc as int, forward),
                result@ == want.subrange(0, t as int),
            decreases len - t,
        {
            let b = t % nb;
            let j = t / nb;
            let factor = if forward { b } else { nb - 1 - b };
            let ghost delay = branch_delay(b as int, nb as int, inc as int, forward);
            assert(delay == factor * inc);
            let bit = if inc > 0 && j / inc < factor {
                proof {
                    lemma_fundamental_div_mod(j as int, inc as int);
                    assert(j < factor * inc) by (nonlinear_arith)
                        requires
                            j == inc * (j / inc) + j % inc,
                            j % inc < inc,
                            j / inc < factor,
                    ;
                }
                false
            } else {
                proof {
                    if inc > 0 {
                        lemma_fundamental_div_mod(j as int, inc as int);
                        assert(factor * inc <= j) by (nonlinear_arith)
                            requires
                                j == inc * (j / inc) + j % inc,
                                j % inc >= 0,
                                j / inc >= factor,
                                inc > 0,
                        ;
                    }
                    lemma_fundamental_div_mod(t as int, nb as int);
                    assert((j - factor * inc) * nb + b <= t) by (nonlinear_arith)
                        requires
                            t == nb * j + b,
                            factor * inc <= j,
                            factor * inc >= 0,
                            nb > 0,
                    ;
                }
                let back = j - factor * inc;
                input.get(back * nb + b)
            };
            result.push(bit);
            assert(want.subrange(0, t + 1) =~= want.subrange(0, t as int).push(bit));
            t = t + 1;
        }
        assert(want.subrange(0, len as int) =~= want);
        result
    }

    /// Delay of the slowest branch: `(branches - 1) × delay_increment`, zero
    /// without branches.
    pub fn total_delay(&self) -> (r: usize)
        requires
            self.branches == 0 || (self.branches - 1) * self.delay_increment <= usize::MAX,
        ensures
            r == if self.branches == 0 { 0 } else { (self.branches - 1) * self.delay_increment },
    {
        if self.branches == 0 {
            return 0;
        }
        (self.branches - 1) * self.delay_increment
    }
}

/// Configuration of a symbol interleaver: a block interleaver whose cells
/// are `symbol_size`-bit symbols.
#[derive(Debug, Clone, Copy, PartialEq, Eq, Structural)]
pub struct SymbolInterleaverConfig {
    /// Bits per symbol.
    pub symbol_size: usize,
    /// Symbols per row (the matrix's columns).
    pub block_size: usize,
    /// Rows of the matrix.
    pub depth: usize,
    pub direction: InterleaverDirection,
}

impl SymbolInterleaverConfig {
    /// The same configuration with another direction.
    pub open spec fn turned(self, direction: InterleaverDirection) -> Self {
        SymbolInterleaverConfig { direction, ..self }
    }

    /// Whether the matrix has cells and its size in bits fits a `usize`.
    pub open spec fn usable(self) -> bool {
        self.symbol_size > 0 && self.block_size > 0 && self.depth > 0
            && self.block_size * self.depth * self.symbol_size <= usize::MAX
    }

    /// What `apply` produces: the input unchanged for an unusable matrix,
    /// else each chunk's whole symbols read in the matrix's reading order (a
    /// partial symbol at the end of a chunk is dropped).
    pub open spec fn spec_apply(self, input: Seq<bool>) -> Seq<bool> {
        let bs = self.block_size as int;
        let d = self.depth as int;
        let s = self.symbol_size as int;
        if !self.usable() {
            input
        } else {
            chunked(input, bs * d * s, 0,
                cell_chunk(bs, d, s, self.direction == InterleaverDirection::Interleave))
        }
    }

    pub fn new(symbol_size: usize, block_size: usize, depth: usize, direction: InterleaverDirection) -> (r: Self)
        ensures
            r.symbol_size == symbol_size,
            r.block_size == block_size,
            r.depth == depth,
            r.direction == direction,
    {
        SymbolInterleaverConfig { symbol_size, block_size, depth, direction }
    }

    /// Interleaves or deinterleaves whole symbols according to `direction`.
    pub fn apply(&self, input: &Bits) -> (r: Bits)
        ensures
            r@ == self.spec_apply(input@),
    {
        let s = self.symbol_size;
        let bs = self.block_size;
        let d = self.depth;
        if s == 0 || bs == 0 || d == 0 || !product_fits(bs, d) {
            proof {
                if s > 0 && bs * d > usize::MAX {
                    assert(bs * d * s > usize::MAX) by (nonlinear_arith)
                        requires
                            bs * d > usize::MAX,
                            s > 0,
                    ;
                }
            }
            return input.clone();
        }
        let m = bs * d;
        if !product_fits(m, s) {
            return input.clone();
        }
        let forward = match self.direction {
            InterleaverDirection::Interleave => true,
            InterleaverDirection::Deinterleave => false,
        };
        read_cells(input, bs, d, s, forward)
    }
}

/// Chunking from position `p` is chunking what follows `p`.
proof fn lemma_chunked_shift(y: Seq<bool>, m: int, p: int, g: spec_fn(Seq<bool>) -> Seq<bool>)
    requires
        m > 0,
        0 <= p <= y.len(),
    ensures
        chunked(y, m, p, g) == chunked(y.subrange(p, y.len() as int), m, 0, g),
    decreases y.len() - p,
{
    let rest = y.subrange(p, y.len() as int);
    if p < y.len() {
        let e = if p + m < y.len() { p + m } else { y.len() as int };
        lemma_chunked_shift(y, m, e, g);
        lemma_chunked_shift(rest, m, e - p, g);
        assert(rest.subrange(0, e - p) =~= y.subrange(p, e));
        assert(rest.subrange(e - p, rest.len() as int) =~= y.subrange(e, y.len() as int));
    }
}

/// Undoing each whole chunk undoes the chunked transform of an input made
/// of whole chunks.
proof fn lemma_chunked_undo(
    x: Seq<bool>,
    m: int,
    q: int,
    f: spec_fn(Seq<bool>) -> Seq<bool>,
    g: spec_fn(Seq<bool>) -> Seq<bool>,
)
    requires
        m > 0,
        q >= 0,
        x.len() == q * m,
        forall|c: Seq<bool>| c.len() == m ==> (#[trigger] f(c)).len() == m && g(f(c)) == c,
    ensures
        chunked(chunked(x, m, 0, f), m, 0, g) == x,
    decreases q,
{
    if q == 0 {
        assert(q * m == 0) by (nonlinear_arith)
            requires
                q == 0,
        ;
        assert(x =~= Seq::<bool>::empty());
    } else {
        assert(x.len() == (q - 1) * m + m) by (nonlinear_arith)
            requires
                x.len() == q * m,
        ;
        let c = x.subrange(0, m);
        let rest = x.subrange(m, x.len() as int);
        lemma_chunked_shift(x, m, m, f);
        lemma_chunked_undo(rest, m, q - 1, f, g);
        let y = chunked(x, m, 0, f);
        let yr = chunked(rest, m, 0, f);
        assert(y == f(c) + yr);
        assert(y.subrange(0, m) =~= f(c));
        assert(y.subrange(m, y.len() as int) =~= yr);
        lemma_chunked_shift(y, m, m, g);
        assert(x =~= c + rest);
    }
}

/// Cell `i` of `x`, cells being `s` bits.
pub open spec fn cell(x: Seq<bool>, s: int, i: int) -> Seq<bool> {
    x.subrange(i * s, i * s + s)
}

/// Over a chunk of whole cells, every cell is read: the `i`-th piece of the
/// output is cell `idx(i)` of the chunk.
proof fn lemma_gather_full(chunk: Seq<bool>, s: int, m: int, idx: spec_fn(int) -> int, k: int)
    requires
        s > 0,
        0 <= k <= m,
        chunk.len() == m * s,
        forall|i: int| 0 <= i < m ==> 0 <= #[trigger] idx(i) < m,
    ensures
        gather(chunk, s, m, idx, k).len() == k * s,
        forall|i: int|
            0 <= i < k ==> #[trigger] cell(gather(chunk, s, m, idx, k), s, i) == cell(chunk, s, idx(i)),
    decreases k,
{
    if k > 0 {
        lemma_gather_full(chunk, s, m, idx, k - 1);
        let prev = gather(chunk, s, m, idx, k - 1);
        let j = idx(k - 1);
        assert(0 <= j * s && j * s + s <= m * s) by (nonlinear_arith)
            requires
                0 <= j < m,
                s > 0,
        ;
        let piece = chunk.subrange(j * s, j * s + s);
        let g = gather(chunk, s, m, idx, k);
        assert(g == prev + piece);
        assert(k * s == (k - 1) * s + s) by (nonlinear_arith);
        assert forall|i: int| 0 <= i < k implies #[trigger] cell(g, s, i) == cell(chunk, s, idx(i)) by {
            if i < k - 1 {
                assert(cell(prev, s, i) == cell(chunk, s, idx(i)));
                assert(i * s + s <= (k - 1) * s) by (nonlinear_arith)
                    requires
                        i < k - 1,
                        s > 0,
                ;
                assert(0 <= i * s) by (nonlinear_arith)
                    requires
                        0 <= i,
                        s > 0,
                ;
                assert(g.subrange(i * s, i * s + s) =~= prev.subrange(i * s, i * s + s));
            } else {
                assert(g.subrange(i * s, i * s + s) =~= piece);
            }
        }
    }
}

/// Two bit strings of `m` cells of `s` bits agree if every cell does.
proof fn lemma_cells_equal(a: Seq<bool>, b: Seq<bool>, s: int, m: int)
    requires
        s > 0,
        m >= 0,
        a.len() == m * s,
        b.len() == m * s,
        forall|i: int| 0 <= i < m ==> #[trigger] cell(a, s, i) == cell(b, s, i),
    ensures
        a == b,
{
    assert forall|t: int| 0 <= t < a.len() implies a[t] == b[t] by {
        let i = t / s;
        let r = t % s;
        lemma_fundamental_div_mod(t, s);
        assert(0 <= i < m && i * s + r == t && 0 <= i * s && i * s + s <= m * s) by (nonlinear_arith)
            requires
                t == s * i + r,
                0 <= r < s,
                0 <= t < m * s,
                s > 0,
        ;
        assert(cell(a, s, i) == cell(b, s, i));
        assert(cell(a, s, i)[r] == a[t]);
        assert(cell(b, s, i)[r] == b[t]);
    }
    assert(a =~= b);
}

/// Deinterleaving one whole chunk of cells undoes interleaving it.
proof fn lemma_cell_chunk_undo(bs: int, d: int, s: int, c: Seq<bool>)
    requires
        bs > 0,
        d > 0,
        s > 0,
        c.len() == bs * d * s,
    ensures
        cell_chunk(bs, d, s, true)(c).len() == bs * d * s,
        cell_chunk(bs, d, s, false)(cell_chunk(bs, d, s, true)(c)) == c,
{
    let m = bs * d;
    let il = read_order(bs, d, true);
    let dl = read_order(bs, d, false);
    assert(c.len() as int / s == m) by (nonlinear_arith)
        requires
            c.len() == bs * d * s,
            m == bs * d,
            s > 0,
    ;
    assert forall|i: int| 0 <= i < m implies 0 <= #[trigger] il(i) < m && 0 <= dl(i) < m by {
        lemma_index_maps(bs, d, i);
    }
    assert forall|i: int| 0 <= i < m implies 0 <= #[trigger] dl(i) < m by {
        lemma_index_maps(bs, d, i);
    }
    lemma_gather_full(c, s, m, il, m);
    let y = gather(c, s, m, il, m);
    assert(y.len() == bs * d * s);
    assert(y.len() as int / s == m);
    lemma_gather_full(y, s, m, dl, m);
    let z = gather(y, s, m, dl, m);
    assert forall|i: int| 0 <= i < m implies #[trigger] cell(z, s, i) == cell(c, s, i) by {
        lemma_index_maps(bs, d, i);
        assert(cell(z, s, i) == cell(y, s, dl(i)));
        assert(cell(y, s, dl(i)) == cell(c, s, il(dl(i))));
    }
    lemma_cells_equal(z, c, s, m);
}

/// Symbol interleaving round trip: for a usable configuration and an input
/// made of whole chunks of `block_size × depth` symbols, deinterleaving the
/// interleaved input gives the input back.
pub proof fn lemma_symbol_round_trip(cfg: SymbolInterleaverConfig, x: Seq<bool>)
    requires
        cfg.usable(),
        x.len() as int % (cfg.block_size * cfg.depth * cfg.symbol_size) == 0,
    ensures
        cfg.turned(InterleaverDirection::Deinterleave).spec_apply(
            cfg.turned(InterleaverDirection::Interleave).spec_apply(x),
        ) == x,
{
    let bs = cfg.block_size as int;
    let d = cfg.depth as int;
    let s = cfg.symbol_size as int;
    let mb = bs * d * s;
    assert(mb > 0) by (nonlinear_arith)
        requires
            bs > 0,
            d > 0,
            s > 0,
            mb == bs * d * s,
    ;
    let f = cell_chunk(bs, d, s, true);
    let g = cell_chunk(bs, d, s, false);
    assert forall|c: Seq<bool>| c.len() == mb implies (#[trigger] f(c)).len() == mb && g(f(c)) == c by {
        lemma_cell_chunk_undo(bs, d, s, c);
    }
    lemma_fundamental_div_mod(x.len() as int, mb);
    assert(x.len() == (x.len() as int / mb) * mb) by (nonlinear_arith)
        requires
            x.len() == mb * (x.len() as int / mb) + x.len() as int % mb,
            x.len() as int % mb == 0,
    ;
    lemma_chunked_undo(x, mb, x.len() as int / mb, f, g);
}

/// Block deinterleaving of one whole chunk undoes interleaving it.
proof fn lemma_block_chunk_undo(bs: int, d: int, c: Seq<bool>)
    requires
        bs > 0,
        d > 0,
        c.len() == bs * d,
    ensures
        block_interleave_chunk(bs, d)(c).len() == bs * d,
        block_deinterleave_chunk(bs, d)(block_interleave_chunk(bs, d)(c)) == c,
{
    let m = bs * d;
    assert(bs * d * 1 == m);
    lemma_cell_chunk_undo(bs, d, 1, c);
    let y = block_interleave_chunk(bs, d)(c);
    let z = cell_chunk(bs, d, 1, false)(y);
    let g = block_deinterleave_chunk(bs, d);
    assert(y.len() as int / 1 == m);
    assert forall|i: int| 0 <= i < m implies 0 <= #[trigger] dl_index(bs, d)(i) < m by {
        lemma_index_maps(bs, d, i);
    }
    lemma_gather_full(y, 1, m, dl_index(bs, d), m);
    assert forall|k: int| 0 <= k < m implies #[trigger] g(y)[k] == z[k] by {
        lemma_index_maps(bs, d, k);
        let j = dl_index(bs, d)(k);
        assert(cell(z, 1, k) == cell(y, 1, j));
        assert(cell(z, 1, k)[0] == z[k]);
        assert(cell(y, 1, j)[0] == y[j]);
    }
    assert(g(y) =~= z);
}

/// Block interleaving round trip: for a usable configuration and an input
/// made of whole chunks of `block_size × depth` bits, deinterleaving the
/// interleaved input gives the input back. Example: a 2 × 2 block turns
/// `1011` into `1101` and back.
pub proof fn lemma_block_round_trip(cfg: BlockInterleaverConfig, x: Seq<bool>)
    requires
        cfg.usable(),
        x.len() as int % (cfg.block_size * cfg.depth) == 0,
    ensures
        cfg.turned(InterleaverDirection::Deinterleave).spec_apply(
            cfg.turned(InterleaverDirection::Interleave).spec_apply(x),
        ) == x,
{
    let bs = cfg.block_size as int;
    let d = cfg.depth as int;
    let m = bs * d;
    assert(m > 0) by (nonlinear_arith)
        requires
            bs > 0,
            d > 0,
            m == bs * d,
    ;
    let f = block_interleave_chunk(bs, d);
    let g = block_deinterleave_chunk(bs, d);
    assert forall|c: Seq<bool>| c.len() == m implies (#[trigger] f(c)).len() == m && g(f(c)) == c by {
        lemma_block_chunk_undo(bs, d, c);
    }
    lemma_fundamental_div_mod(x.len() as int, m);
    assert(x.len() == (x.len() as int / m) * m) by (nonlinear_arith)
        requires
            x.len() == m * (x.len() as int / m) + x.len() as int % m,
            x.len() as int % m == 0,
    ;
    lemma_chunked_undo(x, m, x.len() as int / m, f, g);
}

/// `x` delayed by `lag` bits: zeros in front, the length kept.
pub open spec fn delayed(x: Seq<bool>, lag: int) -> Seq<bool> {
    Seq::new(x.len(), |t: int| if t < lag { false } else { x[t - lag] })
}

/// Convolutional round trip: deinterleaving the interleaved input gives the
/// input delayed by `total_delay() × branches` bits, zeros filling the
/// front.
pub proof fn lemma_convolutional_delayed_round_trip(cfg: ConvolutionalInterleaverConfig, x: Seq<bool>)
    requires
        cfg.branches > 0,
    ensures
        cfg.turned(InterleaverDirection::Deinterleave).spec_apply(
            cfg.turned(InterleaverDirection::Interleave).spec_apply(x),
        ) == delayed(x, (cfg.branches - 1) * cfg.delay_increment * cfg.branches),
{
    let nb = cfg.branches as int;
    let inc = cfg.delay_increment as int;
    let total = (nb - 1) * inc;
    let lag = total * nb;
    let y = delay_lines(x, nb, inc, true);
    let z = delay_lines(y, nb, inc, false);
    let want = delayed(x, lag);
    assert forall|t: int| 0 <= t < x.len() implies z[t] == want[t] by {
        let b = t % nb;
        let j = t / nb;
        lemma_fundamental_div_mod(t, nb);
        let back = (nb - 1 - b) * inc;
        let fwd = b * inc;
        assert(back + fwd == total && back >= 0 && fwd >= 0) by (nonlinear_arith)
            requires
                back == (nb - 1 - b) * inc,
                fwd == b * inc,
                total == (nb - 1) * inc,
                0 <= b < nb,
                inc >= 0,
        ;
        assert((j < total) == (t < lag)) by (nonlinear_arith)
            requires
                t == nb * j + b,
                0 <= b < nb,
                lag == total * nb,
        ;
        if j >= back {
            let t2 = (j - back) * nb + b;
            lemma_fundamental_div_mod_converse(t2, nb, j - back, b);
            assert(t2 <= t) by (nonlinear_arith)
                requires
                    t2 == (j - back) * nb + b,
                    t == nb * j + b,
                    back >= 0,
                    nb > 0,
            ;
            if j - back >= fwd {
                assert((j - back - fwd) * nb + b == t - lag) by (nonlinear_arith)
                    requires
                        t == nb * j + b,
                        back + fwd == total,
                        lag == total * nb,
                ;
            }
        }
    }
    assert(z =~= want);
}

/// Convolutional round trip without delay: when `total_delay()` is zero,
/// deinterleaving the interleaved input gives the input back.
pub proof fn lemma_convolutional_round_trip(cfg: ConvolutionalInterleaverConfig, x: Seq<bool>)
    requires
        cfg.branches == 0 || (cfg.branches - 1) * cfg.delay_increment == 0,
    ensures
        cfg.turned(InterleaverDirection::Deinterleave).spec_apply(
            cfg.turned(InterleaverDirection::Interleave).spec_apply(x),
        ) == x,
{
    if cfg.branches > 0 {
        lemma_convolutional_delayed_round_trip(cfg, x);
        let nb = cfg.branches as int;
        assert((nb - 1) * cfg.delay_increment * nb == 0) by (nonlinear_arith)
            requires
                (nb - 1) * cfg.delay_increment == 0,
        ;
        let z = cfg.turned(InterleaverDirection::Deinterleave).spec_apply(
            cfg.turned(InterleaverDirection::Interleave).spec_apply(x),
        );
        assert(z =~= x);
    }
}

} // verus!
