//! Arena of 64-bit blocks that hands out bit vectors as opaque ranges.
use vstd::prelude::*;

verus! {

/// Number of bits in one block of the arena.
pub const BLOCK_BITS: usize = 64;

/// Handle of a bit vector inside a [`BitBlockStore`]: the first block and the
/// number of blocks.
#[derive(Clone, Copy, Debug, PartialEq, Eq, Structural)]
pub struct SliceRange {
    pub start: usize,
    pub nblocks: usize,
}

impl SliceRange {
    /// Number of bits that the range holds.
    pub open spec fn nbits(self) -> nat {
        (self.nblocks * 64) as nat
    }

    /// The ranges share no block.
    pub open spec fn disjoint(self, o: SliceRange) -> bool {
        self.start + self.nblocks <= o.start || o.start + o.nblocks <= self.start
    }
}

/// Bit `b` of the 64-bit word `w`.
pub open spec fn word_bit(w: u64, b: nat) -> bool {
    (w >> (b as u64)) & 1u64 == 1u64
}

/// Number of blocks that hold `nbits` bits.
pub open spec fn blocks_for(nbits: nat) -> nat {
    (nbits + 63) / 64
}

/// Bit `i` of range `r` over the block sequence `blocks`.
pub open spec fn range_bit(blocks: Seq<u64>, r: SliceRange, i: nat) -> bool {
    word_bit(blocks[r.start + i / 64], i % 64)
}

proof fn lemma_set_bit(w: u64, b: u64, c: u64)
    requires
        b < 64,
        c < 64,
    ensures
        ((w | (1u64 << b)) >> c) & 1u64 == 1u64 <==> (((w >> c) & 1u64 == 1u64) || c == b),
{
    assert(((w | (1u64 << b)) >> c) & 1u64 == 1u64 <==> (((w >> c) & 1u64 == 1u64) || c == b))
        by (bit_vector)
        requires
            b < 64,
            c < 64,
    ;
}

proof fn lemma_or_bit(a: u64, x: u64, c: u64)
    requires
        c < 64,
    ensures
        ((a | x) >> c) & 1u64 == 1u64 <==> (((a >> c) & 1u64 == 1u64) || ((x >> c) & 1u64
            == 1u64)),
{
    assert(((a | x) >> c) & 1u64 == 1u64 <==> (((a >> c) & 1u64 == 1u64) || ((x >> c) & 1u64
        == 1u64))) by (bit_vector)
        requires
            c < 64,
    ;
}

proof fn lemma_zero_bit(c: u64)
    requires
        c < 64,
    ensures
        (0u64 >> c) & 1u64 != 1u64,
{
    assert((0u64 >> c) & 1u64 != 1u64) by (bit_vector);
}

pub proof fn lemma_block_index(i: nat, nblocks: nat)
    requires
        i < nblocks * 64,
    ensures
        i / 64 < nblocks,
{
    assert(i / 64 < nblocks) by (nonlinear_arith)
        requires
            i < nblocks * 64,
    ;
}

/// A growable pool of 64-bit blocks; bit vectors are ranges of it.
pub struct BitBlockStore {
    blocks: Vec<u64>,
}

impl BitBlockStore {
    /// The blocks of the arena.
    pub closed spec fn view(&self) -> Seq<u64> {
        self.blocks@
    }

    /// The range lies inside the arena.
    pub open spec fn holds(&self, r: SliceRange) -> bool {
        r.start + r.nblocks <= self@.len()
    }

    /// Bit `i` of range `r`.
    pub open spec fn bit(&self, r: SliceRange, i: nat) -> bool {
        range_bit(self@, r, i)
    }

    /// An empty arena.
    pub fn new() -> (s: Self)
        ensures
            s@.len() == 0,
    {
        BitBlockStore { blocks: Vec::new() }
    }

    /// Drops every range and rewinds the arena; the allocation is kept for reuse.
    pub fn reset(&mut self)
        ensures
            final(self)@.len() == 0,
    {
        self.blocks.clear();
    }

    /// Appends a range of at least `nbits` zero bits, rounded up to whole blocks.
    pub fn alloc_zero_bits(&mut self, nbits: usize) -> (r: SliceRange)
        ensures
            r.start == old(self)@.len(),
            r.nblocks == blocks_for(nbits as nat),
            final(self)@.len() == old(self)@.len() + r.nblocks,
            final(self)@.subrange(0, old(self)@.len() as int) == old(self)@,
            forall|i: nat| i < r.nbits() ==> !#[trigger] final(self).bit(r, i),
    {
        let nblocks = nbits / BLOCK_BITS + if nbits % BLOCK_BITS == 0 {
            0
        } else {
            1
        };
        let start = self.blocks.len();
        let mut k: usize = 0;
        while k < nblocks
            invariant
                k <= nblocks,
                nblocks == blocks_for(nbits as nat),
                start == old(self)@.len(),
                self.blocks@.len() == start + k,
                self.blocks@.subrange(0, start as int) == old(self)@,
                forall|j: int| start <= j < start + k ==> self.blocks@[j] == 0u64,
            decreases nblocks - k,
        {
            self.blocks.push(0u64);
            k = k + 1;
            assert(self.blocks@.subrange(0, start as int) =~= old(self)@);
        }
        let r = SliceRange { start, nblocks };
        assert forall|i: nat| i < r.nbits() implies !#[trigger] self.bit(r, i) by {
            lemma_zero_bit((i % 64) as u64);
        }
        r
    }

    /// Reads bit `i` of range `r`.
    pub fn get_bit(&self, r: SliceRange, i: usize) -> (b: bool)
        requires
            self.holds(r),
            i < r.nbits(),
        ensures
            b == self.bit(r, i as nat),
    {
        // the arena's length fits a usize
        let _ = self.blocks.len();
        proof {
            lemma_block_index(i as nat, r.nblocks as nat);
        }
        let w = self.blocks[r.start + i / BLOCK_BITS];
        (w >> ((i % BLOCK_BITS) as u64)) & 1u64 == 1u64
    }

    /// Sets bit `i` of range `r`; every other bit of the arena keeps its value.
    pub fn enable_bit(&mut self, r: SliceRange, i: usize)
        requires
            old(self).holds(r),
            i < r.nbits(),
        ensures
            final(self)@.len() == old(self)@.len(),
            final(self).bit(r, i as nat),
            forall|j: int| 0 <= j < r.start ==> #[trigger] final(self)@[j] == old(self)@[j],
            forall|q: SliceRange, j: nat|
                old(self).holds(q) && j < q.nbits() && q.disjoint(r) ==> #[trigger] final(self).bit(q, j) == old(self).bit(q, j),
            forall|j: nat|
                j < r.nbits() && j != i ==> #[trigger] final(self).bit(r, j) == old(self).bit(r, j),
    {
        // the arena's length fits a usize
        let _ = self.blocks.len();
        proof {
            lemma_block_index(i as nat, r.nblocks as nat);
        }
        let w_idx = r.start + i / BLOCK_BITS;
        let b = (i % BLOCK_BITS) as u64;
        let w = self.blocks[w_idx];
        self.blocks[w_idx] = w | (1u64 << b);
        proof {
            lemma_set_bit(w, b, b);
            assert forall|j: nat| j < r.nbits() && j != i implies #[trigger] self.bit(r, j)
                == old(self).bit(r, j) by {
                if r.start + j / 64 == w_idx {
                    lemma_set_bit(w, b, (j % 64) as u64);
                }
            }
        }
    }

    /// Or-assigns range `src` into range `dst`, block by block. The two ranges
    /// are distinct views of the arena, read and written at once.
    pub fn or_assign(&mut self, dst: SliceRange, src: SliceRange)
        requires
            old(self).holds(dst),
            old(self).holds(src),
            dst.nblocks == src.nblocks,
            dst.disjoint(src),
        ensures
            final(self)@.len() == old(self)@.len(),
            forall|i: nat|
                i < dst.nbits() ==> #[trigger] final(self).bit(dst, i) == (old(self).bit(dst, i)
                    || old(self).bit(src, i)),
            forall|q: SliceRange, j: nat|
                old(self).holds(q) && j < q.nbits() && q.disjoint(dst) ==> #[trigger] final(self).bit(q, j) == old(self).bit(q, j),
            forall|j: int| 0 <= j < old(self)@.len() && !(dst.start <= j < dst.start + dst.nblocks) ==> #[trigger] final(self)@[j] == old(self)@[j],
    {
        // the arena's length fits a usize
        let _ = self.blocks.len();
        let mut k: usize = 0;
        while k < dst.nblocks
            invariant
                k <= dst.nblocks,
                dst.nblocks == src.nblocks,
                dst.disjoint(src),
                dst.start + dst.nblocks <= old(self)@.len(),
                src.start + src.nblocks <= old(self)@.len(),
                self.blocks@.len() == old(self)@.len(),
                old(self)@.len() <= usize::MAX,
                forall|j: int|
                    0 <= j < k ==> #[trigger] self.blocks@[dst.start + j] == old(self)@[dst.start
                        + j] | old(self)@[src.start + j],
                forall|j: int|
                    0 <= j < self.blocks@.len() && !(dst.start + k <= j && j < dst.start
                        + dst.nblocks) && !(dst.start <= j && j < dst.start + k)
                        ==> #[trigger] self.blocks@[j] == old(self)@[j],
                forall|j: int|
                    dst.start + k <= j < dst.start + dst.nblocks ==> #[trigger] self.blocks@[j]
                        == old(self)@[j],
            decreases dst.nblocks - k,
        {
            let a = self.blocks[dst.start + k];
            let x = self.blocks[src.start + k];
            self.blocks[dst.start + k] = a | x;
            k = k + 1;
        }
        assert forall|i: nat| i < dst.nbits() implies #[trigger] self.bit(dst, i) == (old(self).bit(dst, i) || old(self).bit(src, i)) by {
            let j = (i / 64) as int;
            assert(self.blocks@[dst.start + j] == old(self)@[dst.start + j] | old(self)@[src.start
                + j]);
            lemma_or_bit(old(self)@[dst.start + j], old(self)@[src.start + j], (i % 64) as u64);
        }
    }

    /// A copy of the blocks of range `r`.
    pub fn get_bitvec(&self, r: SliceRange) -> (v: Vec<u64>)
        requires
            self.holds(r),
        ensures
            v@ == self@.subrange(r.start as int, r.start + r.nblocks),
    {
        // the arena's length fits a usize
        let _ = self.blocks.len();
        let mut v: Vec<u64> = Vec::new();
        let mut k: usize = 0;
        while k < r.nblocks
            invariant
                k <= r.nblocks,
                r.start + r.nblocks <= self@.len(),
                self@.len() <= usize::MAX,
                v@ == self@.subrange(r.start as int, r.start + k),
            decreases r.nblocks - k,
        {
            v.push(self.blocks[r.start + k]);
            k = k + 1;
            assert(v@ =~= self@.subrange(r.start as int, r.start + k));
        }
        v
    }
}

} // verus!
