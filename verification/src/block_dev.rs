//! The block device: random access to fixed 512-byte blocks, with word
//! helpers for the little-endian integers the disk structures use.

use vstd::prelude::*;
use crate::elf::spec_le32;

verus! {

/// Bytes per disk block.
pub const BLOCK_SZ: usize = 512;

/// A block device: an array of 512-byte blocks, read and written whole or
/// in part.
pub struct BlockDevice {
    /// The blocks.
    pub blocks: Vec<Vec<u8>>,
}

impl BlockDevice {
    /// Every block holds exactly one block of bytes.
    pub open spec fn wf(&self) -> bool {
        forall|i: int| 0 <= i < self.blocks@.len() ==> (#[trigger] self.blocks@[i])@.len() == BLOCK_SZ
    }

    /// The bytes of one block.
    pub open spec fn block(&self, i: int) -> Seq<u8> {
        self.blocks@[i]@
    }

    /// Build a device of `n` zeroed blocks.
    pub fn new(n: usize) -> (r: BlockDevice)
        ensures
            r.wf(),
            r.blocks@.len() == n,
            forall|i: int, j: int| 0 <= i < n && 0 <= j < BLOCK_SZ ==> r.block(i)[j] == 0,
    {
        let mut blocks: Vec<Vec<u8>> = Vec::new();
        let mut i: usize = 0;
        while i < n
            invariant
                i <= n,
                blocks@.len() == i,
                forall|k: int|
                    0 <= k < i ==> (#[trigger] blocks@[k])@ == Seq::new(
                        BLOCK_SZ as nat,
                        |j: int| 0u8,
                    ),
            decreases n - i,
        {
            blocks.push(zero_block());
            i = i + 1;
        }
        let r = BlockDevice { blocks };
        r
    }

    /// Read one byte of a block.
    pub fn read_byte(&self, block_id: usize, offset: usize) -> (r: u8)
        requires
            self.wf(),
            block_id < self.blocks@.len(),
            offset < BLOCK_SZ,
        ensures
            r == self.block(block_id as int)[offset as int],
    {
        self.blocks[block_id][offset]
    }

    /// Write one byte of a block.
    pub fn write_byte(&mut self, block_id: usize, offset: usize, b: u8)
        requires
            old(self).wf(),
            block_id < old(self).blocks@.len(),
            offset < BLOCK_SZ,
        ensures
            final(self).wf(),
            final(self).blocks@.len() == old(self).blocks@.len(),
            final(self).block(block_id as int) == old(self).block(block_id as int).update(
                offset as int,
                b,
            ),
            forall|i: int|
                0 <= i < old(self).blocks@.len() && i != block_id ==> final(self).block(i) == old(
                    self,
                ).block(i),
    {
        self.blocks[block_id][offset] = b;
    }

    /// Read the 32-bit little-endian word at `offset` of a block.
    pub fn read_u32(&self, block_id: usize, offset: usize) -> (r: u32)
        requires
            self.wf(),
            block_id < self.blocks@.len(),
            offset + 4 <= BLOCK_SZ,
        ensures
            r == spec_le32(self.block(block_id as int), offset as int),
    {
        let b0 = self.read_byte(block_id, offset) as u32;
        let b1 = self.read_byte(block_id, offset + 1) as u32;
        let b2 = self.read_byte(block_id, offset + 2) as u32;
        let b3 = self.read_byte(block_id, offset + 3) as u32;
        b0 + b1 * 0x100 + b2 * 0x10000 + b3 * 0x1000000
    }

    /// Write the 32-bit little-endian word at `offset` of a block.
    pub fn write_u32(&mut self, block_id: usize, offset: usize, v: u32)
        requires
            old(self).wf(),
            block_id < old(self).blocks@.len(),
            offset + 4 <= BLOCK_SZ,
        ensures
            final(self).wf(),
            final(self).blocks@.len() == old(self).blocks@.len(),
            spec_le32(final(self).block(block_id as int), offset as int) == v,
            forall|j: int|
                0 <= j < BLOCK_SZ && !(offset <= j < offset + 4) ==> final(self).block(
                    block_id as int,
                )[j] == old(self).block(block_id as int)[j],
            forall|i: int|
                0 <= i < old(self).blocks@.len() && i != block_id ==> final(self).block(i) == old(
                    self,
                ).block(i),
    {
        let b0: u8 = (v & 0xff) as u8;
        let b1: u8 = ((v >> 8) & 0xff) as u8;
        let b2: u8 = ((v >> 16) & 0xff) as u8;
        let b3: u8 = ((v >> 24) & 0xff) as u8;
        self.write_byte(block_id, offset, b0);
        self.write_byte(block_id, offset + 1, b1);
        self.write_byte(block_id, offset + 2, b2);
        self.write_byte(block_id, offset + 3, b3);
        proof {
            assert(((v & 0xff) as u8) as u64 + ((((v >> 8) & 0xff) as u8) as u64) * 0x100 + ((((v
                >> 16) & 0xff) as u8) as u64) * 0x10000 + ((((v >> 24) & 0xff) as u8) as u64)
                * 0x1000000 == v as u64) by (bit_vector);
            assert(final(self).block(block_id as int)[offset as int] == b0);
            assert(final(self).block(block_id as int)[offset as int + 1] == b1);
            assert(final(self).block(block_id as int)[offset as int + 2] == b2);
            assert(final(self).block(block_id as int)[offset as int + 3] == b3);
        }
    }

    /// Zero one whole block.
    pub fn clear_block(&mut self, block_id: usize)
        requires
            old(self).wf(),
            block_id < old(self).blocks@.len(),
        ensures
            final(self).wf(),
            final(self).blocks@.len() == old(self).blocks@.len(),
            forall|j: int| 0 <= j < BLOCK_SZ ==> final(self).block(block_id as int)[j] == 0,
            forall|i: int|
                0 <= i < old(self).blocks@.len() && i != block_id ==> final(self).block(i) == old(
                    self,
                ).block(i),
    {
        let mut j: usize = 0;
        while j < BLOCK_SZ
            invariant
                j <= BLOCK_SZ,
                self.wf(),
                block_id < self.blocks@.len(),
                self.blocks@.len() == old(self).blocks@.len(),
                forall|t: int| 0 <= t < j ==> self.block(block_id as int)[t] == 0,
                forall|i: int|
                    0 <= i < old(self).blocks@.len() && i != block_id ==> self.block(i) == old(
                        self,
                    ).block(i),
            decreases BLOCK_SZ - j,
        {
            self.write_byte(block_id, j, 0);
            j = j + 1;
        }
    }
}

/// One zeroed block buffer.
pub fn zero_block() -> (r: Vec<u8>)
    ensures
        r@ == Seq::new(BLOCK_SZ as nat, |j: int| 0u8),
{
    let mut v: Vec<u8> = Vec::new();
    let mut i: usize = 0;
    while i < BLOCK_SZ
        invariant
            i <= BLOCK_SZ,
            v@.len() == i,
            forall|j: int| 0 <= j < i ==> v@[j] == 0u8,
        decreases BLOCK_SZ - i,
    {
        v.push(0u8);
        i = i + 1;
    }
    proof {
        assert(v@ =~= Seq::new(BLOCK_SZ as nat, |j: int| 0u8));
    }
    v
}

} // verus!
