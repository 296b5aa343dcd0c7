//! Allocation bitmaps: each bit of a run of blocks records whether one
//! inode or one data block is taken. A bit's position decomposes into its
//! block, the byte inside it, and the bit inside the byte.

use vstd::prelude::*;
use crate::block_dev::{BlockDevice, BLOCK_SZ};

verus! {

/// Bits per bitmap block.
pub const BLOCK_BITS: usize = 4096;

/// Return (block_pos, byte_pos, inner_pos) for a bit.
pub fn decomposition(bit: usize) -> (r: (usize, usize, usize))
    ensures
        r.0 == bit / BLOCK_BITS,
        r.1 == (bit % BLOCK_BITS) / 8,
        r.2 == bit % 8,
        r.1 < BLOCK_SZ,
        r.2 < 8,
{
    let block_pos = bit / BLOCK_BITS;
    let rest = bit % BLOCK_BITS;
    proof {
        assert(bit % 4096 % 8 == bit % 8) by (nonlinear_arith);
    }
    (block_pos, rest / 8, rest % 8)
}

/// A bitmap: a run of `blocks` blocks starting at `start_block_id`.
pub struct Bitmap {
    /// First block of the run.
    pub start_block_id: usize,
    /// Length of the run, in blocks.
    pub blocks: usize,
}

/// The allocation bit `bit` of a bitmap starting at `start`, as the device
/// stores it.
pub open spec fn spec_bit(dev: BlockDevice, start: int, bit: int) -> bool {
    ((dev.block(start + (bit as int) / (BLOCK_BITS as int))[((bit as int) % (BLOCK_BITS as int)) / 8] >> ((bit % 8) as u8)) & 1) == 1
}

impl Bitmap {
    /// The run lies on the device and its bit count fits the machine.
    pub open spec fn wf(&self, dev: BlockDevice) -> bool {
        &&& dev.wf()
        &&& self.start_block_id + self.blocks <= dev.blocks@.len()
        &&& dev.blocks@.len() <= usize::MAX
        &&& self.blocks * BLOCK_BITS <= usize::MAX
    }

    /// A bitmap over the given run.
    pub fn new(start_block_id: usize, blocks: usize) -> (r: Bitmap)
        ensures
            r.start_block_id == start_block_id,
            r.blocks == blocks,
    {
        Bitmap { start_block_id, blocks }
    }

    /// How many bits the run can allocate.
    pub fn maximum(&self) -> (r: usize)
        requires
            self.blocks * BLOCK_BITS <= usize::MAX,
        ensures
            r == self.blocks * BLOCK_BITS,
    {
        proof {
            assert(self.blocks * 4096 == self.blocks * BLOCK_BITS) by (nonlinear_arith);
        }
        self.blocks * BLOCK_BITS
    }

    /// Take the lowest clear bit: it comes back set, everything else as it
    /// was; none when every bit of the run is taken.
    #[verifier::rlimit(100)]
    #[verifier::spinoff_prover]
    pub fn alloc_bit(&self, dev: &mut BlockDevice) -> (r: Option<usize>)
        requires
            self.wf(*old(dev)),
        ensures
            final(dev).wf(),
            final(dev).blocks@.len() == old(dev).blocks@.len(),
            r is None ==> final(dev).blocks@ == old(dev).blocks@,
            // a refusal means the run is full: every bit is already set
            r is None ==> forall|b: int|
                0 <= b < self.blocks * BLOCK_BITS ==> spec_bit(
                    *old(dev),
                    self.start_block_id as int,
                    b,
                ),
            r matches Some(bit) ==> {
                &&& bit < self.blocks * BLOCK_BITS
                &&& !spec_bit(*old(dev), self.start_block_id as int, bit as int)
                &&& spec_bit(*final(dev), self.start_block_id as int, bit as int)
                // every lower bit was already taken
                &&& forall|b: int|
                    0 <= b < bit ==> spec_bit(*old(dev), self.start_block_id as int, b)
                // only the byte holding the bit changed
                &&& forall|i: int|
                    0 <= i < old(dev).blocks@.len() && i != self.start_block_id + (bit as int) / (BLOCK_BITS as int) ==> final(dev).block(i) == old(dev).block(i)
                &&& forall|j: int|
                    0 <= j < BLOCK_SZ && j != ((bit as int) % (BLOCK_BITS as int)) / 8
                        ==> #[trigger] final(dev).block(
                        self.start_block_id + (bit as int) / (BLOCK_BITS as int),
                    )[j] == old(dev).block(self.start_block_id + (bit as int) / (BLOCK_BITS as int))[j]
                &&& forall|k: int|
                    0 <= k < 8 && k != (bit as int) % 8 ==> #[trigger] bit_in_byte(
                        final(dev).block(self.start_block_id + (bit as int) / (BLOCK_BITS as int))[((bit as int) % (BLOCK_BITS as int)) / 8],
                        k,
                    ) == bit_in_byte(
                        old(dev).block(self.start_block_id + (bit as int) / (BLOCK_BITS as int))[((bit as int) % (BLOCK_BITS as int)) / 8],
                        k,
                    )
            },
    {
        let mut block_pos: usize = 0;
        while block_pos < self.blocks
            invariant
                block_pos <= self.blocks,
                self.wf(*dev),
                *dev == *old(dev),
                forall|b: int|
                    0 <= b < block_pos * (BLOCK_BITS as int) ==> spec_bit(
                        *old(dev),
                        self.start_block_id as int,
                        b,
                    ),
            decreases self.blocks - block_pos,
        {
            let bid = self.start_block_id + block_pos;
            let mut byte_pos: usize = 0;
            while byte_pos < BLOCK_SZ
                invariant
                    byte_pos <= BLOCK_SZ,
                    block_pos < self.blocks,
                    bid == self.start_block_id + block_pos,
                    self.wf(*dev),
                    *dev == *old(dev),
                    forall|b: int|
                        0 <= b < block_pos * (BLOCK_BITS as int) ==> spec_bit(
                            *old(dev),
                            self.start_block_id as int,
                            b,
                        ),
                    forall|b: int|
                        block_pos * (BLOCK_BITS as int) <= b < block_pos * (BLOCK_BITS as int)
                            + byte_pos * 8 ==> spec_bit(*old(dev), self.start_block_id as int, b),
                decreases BLOCK_SZ - byte_pos,
            {
                let byte = dev.read_byte(bid, byte_pos);
                if byte != 0xff {
                    // the byte has a clear bit: find the lowest
                    let mut inner: usize = 0;
                    while inner < 8 && (byte >> (inner as u8)) & 1 == 1
                        invariant
                            inner <= 8,
                            forall|k: int| 0 <= k < inner ==> bit_in_byte(byte, k),
                        decreases 8 - inner,
                    {
                        inner = inner + 1;
                    }
                    proof {
                        if inner == 8 {
                            lemma_all_bits_set_means_ff(byte);
                            assert(false);
                        }
                    }
                    let bit = block_pos * BLOCK_BITS + byte_pos * 8 + inner;
                    dev.write_byte(bid, byte_pos, byte | (1u8 << (inner as u8)));
                    proof {
                        let sb = self.start_block_id as int;
                        let b = bit as int;
                        assert(b / (BLOCK_BITS as int) == block_pos && (b % (BLOCK_BITS as int)) / 8
                            == byte_pos && b % 8 == inner) by (nonlinear_arith)
                            requires
                                b == block_pos * 4096 + byte_pos * 8 + inner,
                                0 <= inner < 8,
                                0 <= byte_pos < 512,
                                BLOCK_BITS == 4096,
                                0 <= block_pos,
                        ;
                        assert(!bit_in_byte(byte, inner as int) && forall|k: int|
                            0 <= k < 8 && k != inner ==> bit_in_byte(
                                byte | (1u8 << (inner as u8)),
                                k,
                            ) == bit_in_byte(byte, k)) by {
                            lemma_set_bit(byte, inner as int);
                        }
                        assert(bit_in_byte(byte | (1u8 << (inner as u8)), inner as int)) by {
                            lemma_set_bit(byte, inner as int);
                        }
                        assert forall|bb: int| 0 <= bb < bit implies spec_bit(*old(dev), sb, bb) by {
                            let blk = bb / (BLOCK_BITS as int);
                            let byp = (bb % (BLOCK_BITS as int)) / 8;
                            assert(0 <= bb % (BLOCK_BITS as int) < BLOCK_BITS as int)
                                by (nonlinear_arith)
                                requires
                                    BLOCK_BITS == 4096,
                            ;
                            assert(blk * (BLOCK_BITS as int) + bb % (BLOCK_BITS as int) == bb)
                                by (nonlinear_arith)
                                requires
                                    BLOCK_BITS == 4096,
                                    blk == bb / 4096,
                                    0 <= bb,
                            ;
                            if blk < block_pos {
                                assert(bb < block_pos * (BLOCK_BITS as int)) by (nonlinear_arith)
                                    requires
                                        blk < block_pos,
                                        bb == blk * (BLOCK_BITS as int) + bb % (BLOCK_BITS as int),
                                        0 <= bb % (BLOCK_BITS as int) < BLOCK_BITS as int,
                                        BLOCK_BITS == 4096,
                                ;
                            } else {
                                assert(blk == block_pos) by (nonlinear_arith)
                                    requires
                                        blk * 4096 <= bb,
                                        bb < block_pos * 4096 + byte_pos * 8 + inner,
                                        inner < 8,
                                        byte_pos < 512,
                                        blk >= block_pos,
                                        blk == bb / 4096,
                                        bb >= block_pos * 4096,
                                        BLOCK_BITS == 4096,
                                ;
                                if byp < byte_pos {
                                    assert(bb < block_pos * (BLOCK_BITS as int) + byte_pos * 8)
                                        by (nonlinear_arith)
                                        requires
                                            byp < byte_pos,
                                            bb == blk * 4096 + (bb % 4096),
                                            blk == block_pos,
                                            byp == (bb % 4096) / 8,
                                            0 <= bb % 4096 < 4096,
                                            BLOCK_BITS == 4096,
                                    ;
                                } else {
                                    assert(byp == byte_pos && bb % 8 < inner) by (nonlinear_arith)
                                        requires
                                            byp >= byte_pos,
                                            bb < block_pos * 4096 + byte_pos * 8 + inner,
                                            bb == block_pos * 4096 + (bb % 4096),
                                            byp == (bb % 4096) / 8,
                                            bb % 8 == (bb % 4096) % 8,
                                            0 <= bb % 4096 < 4096,
                                            inner < 8,
                                    ;
                                    assert(bit_in_byte(byte, bb % 8));
                                }
                            }
                        }
                    }
                    return Some(bit);
                }
                proof {
                    lemma_ff_all_bits(byte);
                    assert forall|b: int|
                        block_pos * (BLOCK_BITS as int) <= b < block_pos * (BLOCK_BITS as int) + (
                        byte_pos + 1) * 8 implies spec_bit(*old(dev), self.start_block_id as int, b) by {
                        if b >= block_pos * (BLOCK_BITS as int) + byte_pos * 8 {
                            assert(b / (BLOCK_BITS as int) == block_pos && (b % (
                            BLOCK_BITS as int)) / 8 == byte_pos) by (nonlinear_arith)
                                requires
                                    block_pos * 4096 + byte_pos * 8 <= b < block_pos * 4096
                                        + byte_pos * 8 + 8,
                                    0 <= byte_pos < 512,
                                    BLOCK_BITS == 4096,
                            ;
                            assert(bit_in_byte(byte, b % 8));
                        }
                    }
                }
                byte_pos = byte_pos + 1;
            }
            block_pos = block_pos + 1;
            proof {
                assert(block_pos * (BLOCK_BITS as int) == (block_pos - 1) * (BLOCK_BITS as int)
                    + 512 * 8) by (nonlinear_arith);
            }
        }
        None
    }

    /// Give a bit back: it must be set, and comes back clear.
    pub fn dealloc(&self, dev: &mut BlockDevice, bit: usize)
        requires
            self.wf(*old(dev)),
            bit < self.blocks * BLOCK_BITS,
            spec_bit(*old(dev), self.start_block_id as int, bit as int),
        ensures
            final(dev).wf(),
            final(dev).blocks@.len() == old(dev).blocks@.len(),
            !spec_bit(*final(dev), self.start_block_id as int, bit as int),
            forall|i: int|
                0 <= i < old(dev).blocks@.len() && i != self.start_block_id + (bit as int) / (BLOCK_BITS as int) ==> final(dev).block(i) == old(dev).block(i),
            forall|j: int|
                0 <= j < BLOCK_SZ && j != ((bit as int) % (BLOCK_BITS as int)) / 8
                    ==> #[trigger] final(dev).block(
                    self.start_block_id + (bit as int) / (BLOCK_BITS as int),
                )[j] == old(dev).block(self.start_block_id + (bit as int) / (BLOCK_BITS as int))[j],
            forall|k: int|
                0 <= k < 8 && k != (bit as int) % 8 ==> #[trigger] bit_in_byte(
                    final(dev).block(self.start_block_id + (bit as int) / (BLOCK_BITS as int))[((bit as int) % (BLOCK_BITS as int)) / 8],
                    k,
                ) == bit_in_byte(
                    old(dev).block(self.start_block_id + (bit as int) / (BLOCK_BITS as int))[((bit as int) % (BLOCK_BITS as int)) / 8],
                    k,
                ),
    {
        let (block_pos, byte_pos, inner) = decomposition(bit);
        proof {
            assert(block_pos < self.blocks) by (nonlinear_arith)
                requires
                    block_pos == bit / 4096,
                    bit < self.blocks * (BLOCK_BITS as int),
                    BLOCK_BITS == 4096,
            ;
        }
        let bid = self.start_block_id + block_pos;
        let byte = dev.read_byte(bid, byte_pos);
        dev.write_byte(bid, byte_pos, byte & !(1u8 << (inner as u8)));
        proof {
            lemma_clear_bit(byte, inner as int);
        }
    }
}

/// Bit `k` of a byte.
pub open spec fn bit_in_byte(b: u8, k: int) -> bool {
    ((b >> (k as u8)) & 1) == 1
}

/// A byte with every bit set is the all-ones byte.
pub proof fn lemma_all_bits_set_means_ff(b: u8)
    requires
        forall|k: int| 0 <= k < 8 ==> bit_in_byte(b, k),
    ensures
        b == 0xff,
{
    assert(bit_in_byte(b, 0) && bit_in_byte(b, 1) && bit_in_byte(b, 2) && bit_in_byte(b, 3)
        && bit_in_byte(b, 4) && bit_in_byte(b, 5) && bit_in_byte(b, 6) && bit_in_byte(b, 7));
    assert((((b >> 0u8) & 1) == 1 && ((b >> 1u8) & 1) == 1 && ((b >> 2u8) & 1) == 1 && ((b >> 3u8)
        & 1) == 1 && ((b >> 4u8) & 1) == 1 && ((b >> 5u8) & 1) == 1 && ((b >> 6u8) & 1) == 1 && ((b
        >> 7u8) & 1) == 1) ==> b == 0xff) by (bit_vector);
}

/// Every bit of the all-ones byte is set.
pub proof fn lemma_ff_all_bits(b: u8)
    requires
        b == 0xff,
    ensures
        forall|k: int| 0 <= k < 8 ==> bit_in_byte(b, k),
{
    assert forall|k: int| 0 <= k < 8 implies bit_in_byte(b, k) by {
        let ku = k as u8;
        assert(ku < 8 ==> ((0xffu8 >> ku) & 1) == 1) by (bit_vector);
    }
}

/// Setting one bit leaves the others, and sets it.
pub proof fn lemma_set_bit(b: u8, k: int)
    requires
        0 <= k < 8,
    ensures
        bit_in_byte(b | (1u8 << (k as u8)), k),
        forall|j: int| 0 <= j < 8 && j != k ==> bit_in_byte(b | (1u8 << (k as u8)), j) == bit_in_byte(b, j),
        (b >> (k as u8)) & 1 != 1 ==> !bit_in_byte(b, k),
{
    let ku = k as u8;
    assert(ku < 8 ==> (((b | (1u8 << ku)) >> ku) & 1) == 1) by (bit_vector);
    assert forall|j: int| 0 <= j < 8 && j != k implies bit_in_byte(b | (1u8 << ku), j)
        == bit_in_byte(b, j) by {
        let ju = j as u8;
        assert((ju < 8 && ku < 8 && ju != ku) ==> (((b | (1u8 << ku)) >> ju) & 1) == ((b >> ju)
            & 1)) by (bit_vector);
    }
}

/// Clearing one bit leaves the others, and clears it.
pub proof fn lemma_clear_bit(b: u8, k: int)
    requires
        0 <= k < 8,
    ensures
        !bit_in_byte(b & !(1u8 << (k as u8)), k),
        forall|j: int| 0 <= j < 8 && j != k ==> bit_in_byte(b & !(1u8 << (k as u8)), j) == bit_in_byte(b, j),
{
    let ku = k as u8;
    assert(ku < 8 ==> (((b & !(1u8 << ku)) >> ku) & 1) == 0) by (bit_vector);
    assert forall|j: int| 0 <= j < 8 && j != k implies bit_in_byte(b & !(1u8 << ku), j)
        == bit_in_byte(b, j) by {
        let ju = j as u8;
        assert((ju < 8 && ku < 8 && ju != ku) ==> (((b & !(1u8 << ku)) >> ju) & 1) == ((b >> ju)
            & 1)) by (bit_vector);
    }
}

} // verus!
