//! The on-disk structures: the super block, the inode with its direct and
//! doubly indirect block index, and directory entries.

use vstd::prelude::*;
use crate::block_dev::{BlockDevice, BLOCK_SZ};
use crate::elf::spec_le32;

verus! {

/// The magic word of a valid file system.
pub const EFS_MAGIC: u32 = 0x3b800001;

/// Direct index slots of an inode.
pub const INODE_DIRECT_COUNT: usize = 28;

/// Longest file name a directory entry stores.
pub const NAME_LENGTH_LIMIT: usize = 27;

/// Block numbers per indirect block.
pub const INODE_INDIRECT1_COUNT: usize = 128;

/// Data blocks reachable through the doubly indirect block.
pub const INODE_INDIRECT2_COUNT: usize = 16384;

/// First data-block index served by the single indirect block.
pub const DIRECT_BOUND: usize = 28;

/// First data-block index served by the doubly indirect block.
pub const INDIRECT1_BOUND: usize = 156;

/// Bytes per directory entry.
pub const DIRENT_SZ: usize = 32;

/// The super block: the magic and the lengths of the four regions that
/// follow block zero.
pub struct SuperBlock {
    /// The magic word.
    pub magic: u32,
    /// Blocks the file system spans.
    pub total_blocks: u32,
    /// Length of the inode bitmap, in blocks.
    pub inode_bitmap_blocks: u32,
    /// Length of the inode area, in blocks.
    pub inode_area_blocks: u32,
    /// Length of the data bitmap, in blocks.
    pub data_bitmap_blocks: u32,
    /// Length of the data area, in blocks.
    pub data_area_blocks: u32,
}

impl SuperBlock {
    /// Fill every field and stamp the magic.
    pub fn initialize(
        &mut self,
        total_blocks: u32,
        inode_bitmap_blocks: u32,
        inode_area_blocks: u32,
        data_bitmap_blocks: u32,
        data_area_blocks: u32,
    )
        ensures
            final(self).magic == EFS_MAGIC,
            final(self).total_blocks == total_blocks,
            final(self).inode_bitmap_blocks == inode_bitmap_blocks,
            final(self).inode_area_blocks == inode_area_blocks,
            final(self).data_bitmap_blocks == data_bitmap_blocks,
            final(self).data_area_blocks == data_area_blocks,
    {
        *self = SuperBlock {
            magic: EFS_MAGIC,
            total_blocks,
            inode_bitmap_blocks,
            inode_area_blocks,
            data_bitmap_blocks,
            data_area_blocks,
        };
    }

    /// Whether the magic is the file system's.
    pub fn is_valid(&self) -> (r: bool)
        ensures
            r == (self.magic == EFS_MAGIC),
    {
        self.magic == EFS_MAGIC
    }
}

/// What an inode stores.
#[derive(Copy, Clone, PartialEq, Eq, Structural, Debug)]
pub enum DiskInodeType {
    /// An ordinary file.
    File,
    /// A directory of entries.
    Directory,
}

/// An inode: the byte size of its content, the direct slots, the single and
/// the doubly indirect block numbers, and its kind.
pub struct DiskInode {
    /// Content size in bytes.
    pub size: u32,
    /// The direct data-block numbers.
    pub direct: Vec<u32>,
    /// The single indirect block, zero until needed.
    pub indirect1: u32,
    /// The doubly indirect block, zero until needed.
    pub indirect2: u32,
    /// File or directory.
    pub type_: DiskInodeType,
}

/// The first row of the doubly indirect tree that holds no entry yet when
/// the content spans `d0` data blocks.
pub open spec fn spec_first_new_row(d0: int) -> int {
    if d0 <= INDIRECT1_BOUND {
        0int
    } else {
        (d0 - INDIRECT1_BOUND + INODE_INDIRECT1_COUNT - 1) / (INODE_INDIRECT1_COUNT as int)
    }
}

/// Where in a fresh-block hand-out the id for new data block `i` sits:
/// one slot per data block, plus one for each index block allocated on the
/// way there — the single indirect block at the direct bound, the doubly
/// indirect top at the next bound, and one level-1 block at the start of
/// each new row.
pub open spec fn spec_install_index(d0: int, i: int) -> int {
    i - d0 + (if d0 <= DIRECT_BOUND && i >= DIRECT_BOUND {
        1int
    } else {
        0int
    }) + (if d0 <= INDIRECT1_BOUND && i >= INDIRECT1_BOUND {
        1int
    } else {
        0int
    }) + (if i >= INDIRECT1_BOUND && (i - INDIRECT1_BOUND) / (INODE_INDIRECT1_COUNT as int)
        >= spec_first_new_row(d0) {
        (i - INDIRECT1_BOUND) / (INODE_INDIRECT1_COUNT as int) - spec_first_new_row(d0) + 1
    } else {
        0int
    })
}

/// A row position splits back into its row and slot.
pub proof fn lemma_rowpos(a: int, b: int)
    requires
        0 <= a,
        0 <= b < INODE_INDIRECT1_COUNT,
    ensures
        (a * (INODE_INDIRECT1_COUNT as int) + b) / (INODE_INDIRECT1_COUNT as int) == a,
        (a * (INODE_INDIRECT1_COUNT as int) + b) % (INODE_INDIRECT1_COUNT as int) == b,
{
    assert((a * (INODE_INDIRECT1_COUNT as int) + b) / (INODE_INDIRECT1_COUNT as int) == a && (a * (
    INODE_INDIRECT1_COUNT as int) + b) % (INODE_INDIRECT1_COUNT as int) == b)
        by (nonlinear_arith)
        requires
            0 <= a,
            0 <= b < INODE_INDIRECT1_COUNT,
            INODE_INDIRECT1_COUNT == 128,
    ;
}

/// A 32-bit word off the four written bytes of a block is unchanged.
pub proof fn lemma_le32_untouched(pre: Seq<u8>, post: Seq<u8>, woff: int, koff: int)
    requires
        0 <= koff,
        koff + 4 <= BLOCK_SZ,
        forall|j: int| 0 <= j < BLOCK_SZ && !(woff <= j < woff + 4) ==> post[j] == pre[j],
        koff + 4 <= woff || woff + 4 <= koff,
    ensures
        spec_le32(post, koff) == spec_le32(pre, koff),
{
    assert(post[koff] == pre[koff]);
    assert(post[koff + 1] == pre[koff + 1]);
    assert(post[koff + 2] == pre[koff + 2]);
    assert(post[koff + 3] == pre[koff + 3]);
}

/// Growing a content never takes rows of the doubly indirect tree away.
pub proof fn lemma_rows_monotone(a: int, b: int)
    requires
        0 <= a <= b,
    ensures
        spec_first_new_row(a) <= spec_first_new_row(b),
        spec_first_new_row(a) >= 0,
        b > INDIRECT1_BOUND ==> spec_first_new_row(b) <= (b - INDIRECT1_BOUND
            + INODE_INDIRECT1_COUNT - 1) / (INODE_INDIRECT1_COUNT as int),
{
    if a > INDIRECT1_BOUND {
        assert(spec_first_new_row(a) <= spec_first_new_row(b) && spec_first_new_row(a) >= 0)
            by (nonlinear_arith)
            requires
                INDIRECT1_BOUND < a <= b,
                INODE_INDIRECT1_COUNT == 128,
                INDIRECT1_BOUND == 156,
                spec_first_new_row(a) == (a - INDIRECT1_BOUND + INODE_INDIRECT1_COUNT - 1) / (
                INODE_INDIRECT1_COUNT as int),
                spec_first_new_row(b) == (b - INDIRECT1_BOUND + INODE_INDIRECT1_COUNT - 1) / (
                INODE_INDIRECT1_COUNT as int),
        ;
    } else if b > INDIRECT1_BOUND {
        assert(spec_first_new_row(b) >= 0) by (nonlinear_arith)
            requires
                INDIRECT1_BOUND < b,
                INODE_INDIRECT1_COUNT == 128,
                INDIRECT1_BOUND == 156,
                spec_first_new_row(b) == (b - INDIRECT1_BOUND + INODE_INDIRECT1_COUNT - 1) / (
                INODE_INDIRECT1_COUNT as int),
        ;
    }
}

/// Data blocks a content of `size` bytes occupies.
pub open spec fn spec_data_blocks(size: u32) -> int {
    (size + BLOCK_SZ - 1) / (BLOCK_SZ as int)
}

/// All blocks, index blocks included, a content of `size` bytes occupies.
pub open spec fn spec_total_blocks(size: u32) -> int {
    let d = spec_data_blocks(size);
    d + (if d > DIRECT_BOUND {
        1int
    } else {
        0int
    }) + (if d > INDIRECT1_BOUND {
        1 + (d - INDIRECT1_BOUND + INODE_INDIRECT1_COUNT - 1) / (INODE_INDIRECT1_COUNT as int)
    } else {
        0int
    })
}

impl DiskInode {
    /// Twenty-eight direct slots.
    pub open spec fn wf(&self) -> bool {
        self.direct@.len() == INODE_DIRECT_COUNT
    }

    /// A zero-size inode of the given kind: no block is indexed yet, the
    /// indirect blocks wait until they are needed.
    pub fn initialize(&mut self, type_: DiskInodeType)
        ensures
            final(self).wf(),
            final(self).size == 0,
            forall|i: int| 0 <= i < INODE_DIRECT_COUNT ==> final(self).direct@[i] == 0,
            final(self).indirect1 == 0,
            final(self).indirect2 == 0,
            final(self).type_ == type_,
    {
        let mut direct: Vec<u32> = Vec::new();
        let mut i: usize = 0;
        while i < INODE_DIRECT_COUNT
            invariant
                i <= INODE_DIRECT_COUNT,
                direct@.len() == i,
                forall|j: int| 0 <= j < i ==> direct@[j] == 0,
            decreases INODE_DIRECT_COUNT - i,
        {
            direct.push(0);
            i = i + 1;
        }
        *self = DiskInode { size: 0, direct, indirect1: 0, indirect2: 0, type_ };
    }

    /// Whether this is a directory.
    pub fn is_dir(&self) -> (r: bool)
        ensures
            r == (self.type_ == DiskInodeType::Directory),
    {
        matches!(self.type_, DiskInodeType::Directory)
    }

    /// Whether this is an ordinary file.
    pub fn is_file(&self) -> (r: bool)
        ensures
            r == (self.type_ == DiskInodeType::File),
    {
        matches!(self.type_, DiskInodeType::File)
    }

    /// Data blocks the current content occupies.
    pub fn data_blocks(&self) -> (r: u32)
        ensures
            r == spec_data_blocks(self.size),
    {
        ((self.size as u64 + BLOCK_SZ as u64 - 1) / BLOCK_SZ as u64) as u32
    }

    /// All blocks, index blocks included, a content of `size` bytes
    /// occupies: the data, the single indirect block past the direct bound,
    /// and past the next bound the doubly indirect block with one more
    /// block per started row.
    pub fn total_blocks(size: u32) -> (r: u32)
        ensures
            r == spec_total_blocks(size),
    {
        let data_blocks = ((size as u64 + BLOCK_SZ as u64 - 1) / BLOCK_SZ as u64) as u32;
        let mut total = data_blocks as u64;
        if data_blocks as usize > DIRECT_BOUND {
            total = total + 1;
        }
        if data_blocks as usize > INDIRECT1_BOUND {
            total = total + 1 + (data_blocks as u64 - INDIRECT1_BOUND as u64
                + INODE_INDIRECT1_COUNT as u64 - 1) / (INODE_INDIRECT1_COUNT as u64);
        }
        total as u32
    }

    /// Extra blocks growing the content to `new_size` needs.
    pub fn blocks_num_needed(&self, new_size: u32) -> (r: u32)
        requires
            new_size >= self.size,
        ensures
            r == spec_total_blocks(new_size) - spec_total_blocks(self.size),
    {
        proof {
            lemma_total_blocks_monotone(self.size, new_size);
        }
        DiskInode::total_blocks(new_size) - DiskInode::total_blocks(self.size)
    }

    /// The block number serving data block `inner_id`: a direct slot, an
    /// entry of the single indirect block, or a walk through the doubly
    /// indirect tree.
    pub fn get_block_id(&self, inner_id: u32, block_device: &BlockDevice) -> (r: u32)
        requires
            self.wf(),
            block_device.wf(),
            inner_id < DIRECT_BOUND + INODE_INDIRECT1_COUNT + INODE_INDIRECT2_COUNT,
            inner_id >= DIRECT_BOUND ==> self.indirect1 < block_device.blocks@.len()
                && self.indirect2 < block_device.blocks@.len(),
            inner_id >= INDIRECT1_BOUND ==> spec_le32(
                block_device.block(self.indirect2 as int),
                ((inner_id - INDIRECT1_BOUND) / (INODE_INDIRECT1_COUNT as int)) * 4,
            ) < block_device.blocks@.len(),
        ensures
            r == spec_block_id(*self, *block_device, inner_id as int),
            // under the on-disk inode invariant an in-range index resolves
            spec_index_tree_defined(*self, *block_device) && inner_id < spec_data_blocks(self.size)
                ==> r != 0,
    {
        proof {
            if spec_index_tree_defined(*self, *block_device) && inner_id < spec_data_blocks(
                self.size,
            ) {
                assert(spec_block_id(*self, *block_device, inner_id as int) != 0);
            }
        }
        let inner = inner_id as usize;
        if inner < INODE_DIRECT_COUNT {
            self.direct[inner]
        } else if inner < INDIRECT1_BOUND {
            block_device.read_u32(self.indirect1 as usize, (inner - INODE_DIRECT_COUNT) * 4)
        } else {
            let last = inner - INDIRECT1_BOUND;
            let row = block_device.read_u32(
                self.indirect2 as usize,
                (last / INODE_INDIRECT1_COUNT) * 4,
            );
            block_device.read_u32(row as usize, (last % INODE_INDIRECT1_COUNT) * 4)
        }
    }
}

/// The on-disk inode invariant: every logical block below the content's
/// block count has a nonzero entry in the index tree.
pub open spec fn spec_index_tree_defined(ino: DiskInode, dev: BlockDevice) -> bool {
    forall|i: int|
        0 <= i < spec_data_blocks(ino.size) ==> #[trigger] spec_block_id(ino, dev, i) != 0
}

/// The block number an inode's index tree stores for data block `i`.
pub open spec fn spec_block_id(ino: DiskInode, dev: BlockDevice, i: int) -> int {
    if i < DIRECT_BOUND {
        ino.direct@[i] as int
    } else if i < INDIRECT1_BOUND {
        spec_le32(dev.block(ino.indirect1 as int), (i - DIRECT_BOUND) * 4)
    } else {
        spec_le32(
            dev.block(
                spec_le32(
                    dev.block(ino.indirect2 as int),
                    ((i - INDIRECT1_BOUND) / (INODE_INDIRECT1_COUNT as int)) * 4,
                ),
            ),
            ((i - INDIRECT1_BOUND) % (INODE_INDIRECT1_COUNT as int)) * 4,
        )
    }
}

/// Growing a content never takes blocks away.
pub proof fn lemma_total_blocks_monotone(a: u32, b: u32)
    requires
        a <= b,
    ensures
        spec_total_blocks(a) <= spec_total_blocks(b),
        spec_total_blocks(a) >= 0,
{
    assert(spec_data_blocks(a) <= spec_data_blocks(b)) by (nonlinear_arith)
        requires
            a <= b,
            BLOCK_SZ == 512,
    ;
    assert(spec_data_blocks(a) >= 0) by (nonlinear_arith)
        requires
            BLOCK_SZ == 512,
    ;
    if spec_data_blocks(b) > INDIRECT1_BOUND {
        assert((spec_data_blocks(a) - INDIRECT1_BOUND + INODE_INDIRECT1_COUNT - 1) / (
        INODE_INDIRECT1_COUNT as int) <= (spec_data_blocks(b) - INDIRECT1_BOUND
            + INODE_INDIRECT1_COUNT - 1) / (INODE_INDIRECT1_COUNT as int)) by (nonlinear_arith)
            requires
                spec_data_blocks(a) <= spec_data_blocks(b),
                INODE_INDIRECT1_COUNT == 128,
                INDIRECT1_BOUND == 156,
        ;
        if spec_data_blocks(a) > INDIRECT1_BOUND {
            assert((spec_data_blocks(a) - INDIRECT1_BOUND + INODE_INDIRECT1_COUNT - 1) / (
            INODE_INDIRECT1_COUNT as int) >= 1) by (nonlinear_arith)
                requires
                    spec_data_blocks(a) > 156,
                    INODE_INDIRECT1_COUNT == 128,
                    INDIRECT1_BOUND == 156,
            ;
        }
    }
}

impl DiskInode {
    /// Grow the content to `new_size`, filling, in order, empty direct
    /// slots, the single indirect block (allocated the first time), and the
    /// doubly indirect tree, from the handed-out fresh block numbers.
    #[verifier::rlimit(100)]
    #[verifier::spinoff_prover]
    pub fn increase_size(
        &mut self,
        new_size: u32,
        new_blocks: Vec<u32>,
        block_device: &mut BlockDevice,
    )
        requires
            old(self).wf(),
            old(block_device).wf(),
            new_size >= old(self).size,
            spec_data_blocks(new_size) <= DIRECT_BOUND + INODE_INDIRECT1_COUNT
                + INODE_INDIRECT2_COUNT,
            new_blocks@.len() == spec_total_blocks(new_size) - spec_total_blocks(old(self).size),
            forall|i: int| 0 <= i < new_blocks@.len() ==> (#[trigger] new_blocks@[i]) < old(
                block_device,
            ).blocks@.len(),
            forall|i: int| 0 <= i < new_blocks@.len() ==> (#[trigger] new_blocks@[i]) != 0,
            old(self).indirect1 < old(block_device).blocks@.len(),
            old(self).indirect2 < old(block_device).blocks@.len(),
            spec_data_blocks(old(self).size) > INDIRECT1_BOUND ==> forall|r: int|
                0 <= r < (spec_data_blocks(old(self).size) - INDIRECT1_BOUND
                    + INODE_INDIRECT1_COUNT - 1) / (INODE_INDIRECT1_COUNT as int)
                    ==> #[trigger] spec_le32(
                    old(block_device).block(old(self).indirect2 as int),
                    r * 4,
                ) < old(block_device).blocks@.len(),
            // past the single-indirect bound the hand-out must be genuinely
            // fresh: pairwise distinct ids, apart from the index blocks
            // already in place
            spec_data_blocks(new_size) > INDIRECT1_BOUND ==> forall|i: int, j: int|
                0 <= i < j < new_blocks@.len() ==> #[trigger] new_blocks@[i]
                    != #[trigger] new_blocks@[j],
            spec_data_blocks(new_size) > INDIRECT1_BOUND ==> forall|i: int|
                0 <= i < new_blocks@.len() ==> (#[trigger] new_blocks@[i]) != old(self).indirect1
                    && new_blocks@[i] != old(self).indirect2,
            (spec_data_blocks(new_size) > INDIRECT1_BOUND && spec_data_blocks(old(self).size)
                > INDIRECT1_BOUND) ==> old(self).indirect1 != old(self).indirect2,
            // and the rows already in place are distinct blocks of their own
            (spec_data_blocks(new_size) > INDIRECT1_BOUND && spec_data_blocks(old(self).size)
                > INDIRECT1_BOUND) ==> forall|r: int, s: int|
                0 <= r < s < spec_first_new_row(spec_data_blocks(old(self).size))
                    ==> #[trigger] spec_le32(
                    old(block_device).block(old(self).indirect2 as int),
                    r * 4,
                ) != #[trigger] spec_le32(
                    old(block_device).block(old(self).indirect2 as int),
                    s * 4,
                ),
            (spec_data_blocks(new_size) > INDIRECT1_BOUND && spec_data_blocks(old(self).size)
                > INDIRECT1_BOUND) ==> forall|r: int|
                0 <= r < spec_first_new_row(spec_data_blocks(old(self).size))
                    ==> #[trigger] spec_le32(
                    old(block_device).block(old(self).indirect2 as int),
                    r * 4,
                ) != old(self).indirect1 && spec_le32(
                    old(block_device).block(old(self).indirect2 as int),
                    r * 4,
                ) != old(self).indirect2,
            (spec_data_blocks(new_size) > INDIRECT1_BOUND && spec_data_blocks(old(self).size)
                > INDIRECT1_BOUND) ==> forall|i: int, r: int|
                0 <= i < new_blocks@.len() && 0 <= r < spec_first_new_row(
                    spec_data_blocks(old(self).size),
                ) ==> (#[trigger] new_blocks@[i]) != #[trigger] spec_le32(
                    old(block_device).block(old(self).indirect2 as int),
                    r * 4,
                ),
        ensures
            final(self).wf(),
            final(block_device).wf(),
            final(block_device).blocks@.len() == old(block_device).blocks@.len(),
            final(self).size == new_size,
            final(self).type_ == old(self).type_,
            // every block already reachable keeps its id
            forall|i: int|
                0 <= i < spec_data_blocks(old(self).size) ==> #[trigger] spec_block_id(
                    *final(self),
                    *final(block_device),
                    i,
                ) == spec_block_id(*old(self), *old(block_device), i),
            // and the handed-out ids are installed in order: each new data
            // block gets its slot of the hand-out, nonzero by the premise
            forall|i: int|
                spec_data_blocks(old(self).size) <= i < spec_data_blocks(new_size)
                    ==> #[trigger] spec_block_id(*final(self), *final(block_device), i)
                    == new_blocks@[spec_install_index(spec_data_blocks(old(self).size), i)]
                    && spec_block_id(*final(self), *final(block_device), i) != 0,
            // the doubly indirect top sleeps until its regime
            spec_data_blocks(new_size) <= INDIRECT1_BOUND ==> final(self).indirect2 == old(self).indirect2,
            // within the single-indirect regime only the single indirect
            // block's bytes move
            spec_data_blocks(new_size) <= INDIRECT1_BOUND ==> forall|b: int|
                0 <= b < old(block_device).blocks@.len() && b != final(self).indirect1
                    ==> #[trigger] final(block_device).block(b) == old(block_device).block(b),
            // in general, only the index blocks of the tree — the indirect
            // blocks, the rows already in place and the handed-out blocks —
            // can move
            forall|b: int|
                0 <= b < old(block_device).blocks@.len() && b != final(self).indirect1 && b
                    != final(self).indirect2 && (forall|s: int|
                    0 <= s < new_blocks@.len() ==> (#[trigger] new_blocks@[s]) != b) && (
                spec_data_blocks(old(self).size) > INDIRECT1_BOUND ==> forall|r: int|
                    0 <= r < spec_first_new_row(spec_data_blocks(old(self).size))
                        ==> #[trigger] spec_le32(
                        old(block_device).block(old(self).indirect2 as int),
                        r * 4,
                    ) != b) ==> #[trigger] final(block_device).block(b) == old(block_device).block(
                    b,
                ),
    {
        let ghost d0 = spec_data_blocks(old(self).size);
        let ghost d1 = spec_data_blocks(new_size);
        let ghost small = d1 <= INDIRECT1_BOUND;
        let mut current_blocks: u32 = self.data_blocks();
        self.size = new_size;
        let mut total_blocks: u32 = self.data_blocks();
        let mut cursor: usize = 0;
        proof {
            let ghost s0 = old(self).size;
            assert(spec_data_blocks(s0) <= spec_data_blocks(new_size)) by (nonlinear_arith)
                requires
                    s0 <= new_size,
                    BLOCK_SZ == 512,
            ;
        }
        // fill the direct slots
        let direct_goal: u32 = if total_blocks < DIRECT_BOUND as u32 {
            total_blocks
        } else {
            DIRECT_BOUND as u32
        };
        while current_blocks < direct_goal
            invariant
                direct_goal == if spec_data_blocks(new_size) < DIRECT_BOUND {
                    spec_data_blocks(new_size)
                } else {
                    DIRECT_BOUND as int
                },
                self.wf(),
                block_device.wf(),
                block_device.blocks@.len() == old(block_device).blocks@.len(),
                self.size == new_size,
                self.type_ == old(self).type_,
                self.indirect1 == old(self).indirect1,
                self.indirect2 == old(self).indirect2,
                *block_device == *old(block_device),
                cursor <= new_blocks@.len(),
                new_blocks@.len() == spec_total_blocks(new_size) - spec_total_blocks(old(self).size),
                current_blocks >= d0,
                cursor == current_blocks - d0,
                current_blocks <= direct_goal || current_blocks == d0,
                current_blocks <= total_blocks,
                total_blocks == d1,
                d0 == spec_data_blocks(old(self).size),
                d1 == spec_data_blocks(new_size),
                small == (d1 <= INDIRECT1_BOUND),
                self.indirect1 < block_device.blocks@.len(),
                self.indirect2 < block_device.blocks@.len(),
                forall|i: int|
                    0 <= i < INODE_DIRECT_COUNT && (i < d0 || i >= current_blocks)
                        ==> #[trigger] self.direct@[i] == old(self).direct@[i],
                forall|i: int|
                    d0 <= i < current_blocks && i < INODE_DIRECT_COUNT
                        ==> #[trigger] self.direct@[i] == new_blocks@[i - d0],
            decreases direct_goal as int - current_blocks,
        {
            if cursor >= new_blocks.len() {
                proof {
                    lemma_rows_monotone(d0, d1);
                    assert(new_blocks@.len() >= d1 - d0);
                    assert(current_blocks < direct_goal);
                    assert(direct_goal as int <= d1);
                    assert(cursor == current_blocks - d0);
                    assert(cursor < d1 - d0);
                    assert(false);
                }
                return ;
            }
            self.direct[current_blocks as usize] = new_blocks[cursor];
            cursor = cursor + 1;
            current_blocks = current_blocks + 1;
            proof {
                let ghost s0 = old(self).size;
                assert(spec_data_blocks(s0) <= spec_data_blocks(new_size)) by (nonlinear_arith)
                    requires
                        s0 <= new_size,
                        BLOCK_SZ == 512,
                ;
            }
        }
        // the single indirect block
        if total_blocks as usize > INODE_DIRECT_COUNT {
            if current_blocks as usize == INODE_DIRECT_COUNT {
                if cursor >= new_blocks.len() {
                    proof {
                        lemma_rows_monotone(d0, d1);
                        assert(new_blocks@.len() >= d1 - d0 + 1);
                        assert(cursor == DIRECT_BOUND - d0);
                        assert(d1 > DIRECT_BOUND);
                        assert(false);
                    }
                    return ;
                }
                self.indirect1 = new_blocks[cursor];
                cursor = cursor + 1;
            }
        } else {
            proof {
                assert forall|i: int| small && 0 <= i < d0 implies #[trigger] spec_block_id(
                    *self,
                    *block_device,
                    i,
                ) == spec_block_id(*old(self), *old(block_device), i) by {}
                assert forall|i: int| small && d0 <= i < d1 implies (#[trigger] spec_block_id(
                    *self,
                    *block_device,
                    i,
                ) == new_blocks@[spec_install_index(d0, i)] && spec_block_id(
                    *self,
                    *block_device,
                    i,
                ) != 0) by {
                    assert(self.direct@[i] == new_blocks@[i - d0]);
                    assert(new_blocks@[i - d0] != 0);
                }
            }
            return ;
        }
        let mut c1: u32 = current_blocks - INODE_DIRECT_COUNT as u32;
        let t1: u32 = total_blocks - INODE_DIRECT_COUNT as u32;
        let ghost c1e: int = if d0 > DIRECT_BOUND {
            d0 - DIRECT_BOUND
        } else {
            0int
        };
        let ghost consumed0: int = (if d0 <= DIRECT_BOUND {
            DIRECT_BOUND - d0
        } else {
            0int
        }) + (if d0 <= DIRECT_BOUND {
            1int
        } else {
            0int
        });
        let ind1_goal: u32 = if t1 < INODE_INDIRECT1_COUNT as u32 {
            t1
        } else {
            INODE_INDIRECT1_COUNT as u32
        };
        proof {
            assert(c1 == current_blocks - DIRECT_BOUND);
            if d0 > DIRECT_BOUND {
                assert(cursor == current_blocks - d0);
                assert(consumed0 + c1 - c1e == current_blocks - d0);
            } else {
                assert(current_blocks == DIRECT_BOUND);
                assert(cursor == DIRECT_BOUND - d0 + 1);
            }
        }
        while c1 < ind1_goal
            invariant
                ind1_goal <= INODE_INDIRECT1_COUNT,
                ind1_goal == if t1 < INODE_INDIRECT1_COUNT { t1 as int } else { INODE_INDIRECT1_COUNT as int },
                self.wf(),
                block_device.wf(),
                block_device.blocks@.len() == old(block_device).blocks@.len(),
                self.size == new_size,
                self.type_ == old(self).type_,
                self.indirect2 == old(self).indirect2,
                c1e <= c1 <= t1,
                c1 <= ind1_goal || c1 == c1e,
                t1 == d1 - INODE_DIRECT_COUNT,
                t1 >= 1,
                d0 == spec_data_blocks(old(self).size),
                d1 == spec_data_blocks(new_size),
                small == (d1 <= INDIRECT1_BOUND),
                c1e == if d0 > DIRECT_BOUND {
                    d0 - DIRECT_BOUND
                } else {
                    0int
                },
                consumed0 == (if d0 <= DIRECT_BOUND {
                    DIRECT_BOUND - d0 + 1
                } else {
                    0int
                }),
                cursor == consumed0 + c1 - c1e,
                cursor <= new_blocks@.len(),
                new_blocks@.len() == spec_total_blocks(new_size) - spec_total_blocks(old(self).size),
                d0 <= d1,
                self.indirect1 < block_device.blocks@.len(),
                self.indirect2 < block_device.blocks@.len(),
                // the inode fields of the direct regime stand
                d0 > DIRECT_BOUND ==> self.indirect1 == old(self).indirect1,
                d0 <= DIRECT_BOUND ==> self.indirect1 as int == new_blocks@[(DIRECT_BOUND
                    - d0) as int],
                forall|i: int|
                    0 <= i < INODE_DIRECT_COUNT && i < d0 ==> #[trigger] self.direct@[i] == old(self).direct@[i],
                forall|i: int|
                    d0 <= i < d1 && i < INODE_DIRECT_COUNT ==> #[trigger] self.direct@[i]
                        == new_blocks@[i - d0],
                // entries installed so far, and the old ones kept
                forall|k: int|
                    c1e <= k < c1 ==> #[trigger] spec_le32(
                        block_device.block(self.indirect1 as int),
                        k * 4,
                    ) == new_blocks@[consumed0 + k - c1e],
                forall|k: int|
                    0 <= k < c1e ==> #[trigger] spec_le32(
                        block_device.block(self.indirect1 as int),
                        k * 4,
                    ) == spec_le32(
                        old(block_device).block(old(self).indirect1 as int),
                        k * 4,
                    ),
                // no other block's bytes move
                forall|b: int|
                    0 <= b < old(block_device).blocks@.len() && b != self.indirect1
                        ==> #[trigger] block_device.block(b) == old(block_device).block(b),
            decreases ind1_goal as int - c1,
        {
            if cursor >= new_blocks.len() {
                proof {
                    lemma_rows_monotone(d0, d1);
                    assert(c1 < ind1_goal && ind1_goal <= t1);
                    if d0 <= DIRECT_BOUND {
                        assert(new_blocks@.len() >= d1 - d0 + 1);
                        assert(cursor < consumed0 + t1 - c1e);
                        assert(cursor < d1 - d0 + 1);
                    } else {
                        assert(new_blocks@.len() >= d1 - d0);
                        assert(cursor < t1 - c1e);
                        assert(cursor < d1 - d0);
                    }
                    assert(false);
                }
                return ;
            }
            let ghost dev_in = *block_device;
            block_device.write_u32(self.indirect1 as usize, (c1 as usize) * 4, new_blocks[cursor]);
            cursor = cursor + 1;
            c1 = c1 + 1;
            proof {
                assert forall|k: int| c1e <= k < c1 implies #[trigger] spec_le32(
                    block_device.block(self.indirect1 as int),
                    k * 4,
                ) == new_blocks@[consumed0 + k - c1e] by {
                    if k < c1 - 1 {
                        assert(spec_le32(dev_in.block(self.indirect1 as int), k * 4)
                            == new_blocks@[consumed0 + k - c1e]);
                        assert(k * 4 + 4 <= (c1 - 1) * 4);
                        assert(block_device.block(self.indirect1 as int)[k * 4] == dev_in.block(
                            self.indirect1 as int,
                        )[k * 4]);
                        assert(block_device.block(self.indirect1 as int)[k * 4 + 1]
                            == dev_in.block(self.indirect1 as int)[k * 4 + 1]);
                        assert(block_device.block(self.indirect1 as int)[k * 4 + 2]
                            == dev_in.block(self.indirect1 as int)[k * 4 + 2]);
                        assert(block_device.block(self.indirect1 as int)[k * 4 + 3]
                            == dev_in.block(self.indirect1 as int)[k * 4 + 3]);
                    }
                }
                assert forall|k: int| 0 <= k < c1e implies #[trigger] spec_le32(
                    block_device.block(self.indirect1 as int),
                    k * 4,
                ) == spec_le32(
                    old(block_device).block(old(self).indirect1 as int),
                    k * 4,
                ) by {
                    assert(spec_le32(dev_in.block(self.indirect1 as int), k * 4) == spec_le32(
                        old(block_device).block(old(self).indirect1 as int),
                        k * 4,
                    ));
                    assert(k * 4 + 4 <= (c1 - 1) * 4);
                    assert(block_device.block(self.indirect1 as int)[k * 4] == dev_in.block(
                        self.indirect1 as int,
                    )[k * 4]);
                    assert(block_device.block(self.indirect1 as int)[k * 4 + 1] == dev_in.block(
                        self.indirect1 as int,
                    )[k * 4 + 1]);
                    assert(block_device.block(self.indirect1 as int)[k * 4 + 2] == dev_in.block(
                        self.indirect1 as int,
                    )[k * 4 + 2]);
                    assert(block_device.block(self.indirect1 as int)[k * 4 + 3] == dev_in.block(
                        self.indirect1 as int,
                    )[k * 4 + 3]);
                }
            }
        }
        // the doubly indirect tree
        if t1 as usize <= INODE_INDIRECT1_COUNT {
            proof {
                assert(c1 == ind1_goal && ind1_goal == t1);
                assert forall|i: int| small && 0 <= i < d0 implies #[trigger] spec_block_id(
                    *self,
                    *block_device,
                    i,
                ) == spec_block_id(*old(self), *old(block_device), i) by {
                    if i >= DIRECT_BOUND {
                        assert(d0 > DIRECT_BOUND);
                        assert(0 <= i - DIRECT_BOUND < c1e);
                        assert(spec_le32(
                            block_device.block(self.indirect1 as int),
                            (i - DIRECT_BOUND) * 4,
                        ) == spec_le32(
                            old(block_device).block(old(self).indirect1 as int),
                            (i - DIRECT_BOUND) * 4,
                        ));
                    }
                }
                assert forall|i: int| small && d0 <= i < d1 implies (#[trigger] spec_block_id(
                    *self,
                    *block_device,
                    i,
                ) == new_blocks@[spec_install_index(d0, i)] && spec_block_id(
                    *self,
                    *block_device,
                    i,
                ) != 0) by {
                    if i < DIRECT_BOUND {
                        assert(self.direct@[i] == new_blocks@[i - d0]);
                        assert(new_blocks@[i - d0] != 0);
                    } else {
                        let k = i - DIRECT_BOUND;
                        assert(c1e <= k < c1);
                        assert(spec_le32(block_device.block(self.indirect1 as int), k * 4)
                            == new_blocks@[consumed0 + k - c1e]);
                        assert(consumed0 + k - c1e == spec_install_index(d0, i));
                        assert(new_blocks@[spec_install_index(d0, i)] != 0);
                    }
                }
            }
            return ;
        }
        // past here the content crosses into the doubly indirect tree
        let ghost fr: int = spec_first_new_row(d0);
        let ghost rr: int = spec_first_new_row(d1);
        let ghost e1: int = if d0 <= DIRECT_BOUND { 1int } else { 0int };
        let ghost e2: int = if d0 <= INDIRECT1_BOUND { 1int } else { 0int };
        proof {
            lemma_rows_monotone(d0, d1);
            assert(d1 == t1 + DIRECT_BOUND);
            assert(d1 > INDIRECT1_BOUND);
            assert(d0 <= INDIRECT1_BOUND ==> fr == 0);
        }
        let ghost i2s: int = cursor as int;
        if c1 as usize == INODE_INDIRECT1_COUNT {
            proof {
                assert(d0 <= INDIRECT1_BOUND);
                assert(cursor == 156 - d0 + e1);
                assert(new_blocks@.len() >= (d1 - d0) + e1 + 1);
                assert(cursor < new_blocks@.len());
            }
            self.indirect2 = new_blocks[cursor];
            cursor = cursor + 1;
        }
        let mut a0: usize = (c1 as usize - INODE_INDIRECT1_COUNT) / INODE_INDIRECT1_COUNT;
        let mut b0: usize = (c1 as usize - INODE_INDIRECT1_COUNT) % INODE_INDIRECT1_COUNT;
        let a1: usize = (t1 as usize - INODE_INDIRECT1_COUNT) / INODE_INDIRECT1_COUNT;
        let b1: usize = (t1 as usize - INODE_INDIRECT1_COUNT) % INODE_INDIRECT1_COUNT;
        proof {
            assert(a1 as int * (INODE_INDIRECT1_COUNT as int) + b1 == t1 - INODE_INDIRECT1_COUNT
                && a1 <= INODE_INDIRECT1_COUNT && (a1 == INODE_INDIRECT1_COUNT ==> b1 == 0) && b1
                < INODE_INDIRECT1_COUNT && a0 as int * (INODE_INDIRECT1_COUNT as int) + b0 == c1
                - INODE_INDIRECT1_COUNT && b0 < INODE_INDIRECT1_COUNT) by (nonlinear_arith)
            requires
                    a1 as int == (t1 - INODE_INDIRECT1_COUNT) as int / (
                    INODE_INDIRECT1_COUNT as int),
                    b1 as int == (t1 - INODE_INDIRECT1_COUNT) as int % (
                    INODE_INDIRECT1_COUNT as int),
                    a0 as int == (c1 - INODE_INDIRECT1_COUNT) as int / (
                    INODE_INDIRECT1_COUNT as int),
                    b0 as int == (c1 - INODE_INDIRECT1_COUNT) as int % (
                    INODE_INDIRECT1_COUNT as int),
                    INODE_INDIRECT1_COUNT <= c1,
                    c1 <= t1,
                    t1 <= INODE_INDIRECT1_COUNT + INODE_INDIRECT2_COUNT,
                    INODE_INDIRECT1_COUNT == 128,
                    INODE_INDIRECT2_COUNT == 16384,
            ;
            assert(rr == a1 as int + (if b1 > 0 { 1int } else { 0int })) by (nonlinear_arith)
            requires
                    rr == (d1 - INDIRECT1_BOUND + INODE_INDIRECT1_COUNT - 1) / (
                    INODE_INDIRECT1_COUNT as int),
                    d1 - INDIRECT1_BOUND == a1 as int * (INODE_INDIRECT1_COUNT as int) + b1,
                    0 <= a1,
                    0 <= b1 < INODE_INDIRECT1_COUNT,
                    a1 as int * (INODE_INDIRECT1_COUNT as int) + b1 >= 1,
                    INODE_INDIRECT1_COUNT == 128,
                    INDIRECT1_BOUND == 156,
            ;
            assert(new_blocks@.len() == (d1 - d0) + e1 + e2 + (rr - fr));
            if d0 > INDIRECT1_BOUND {
                assert(c1 == c1e && c1e == d0 - DIRECT_BOUND);
                assert((INDIRECT1_BOUND as int) + a0 as int * (INODE_INDIRECT1_COUNT as int) + b0
                    == d0);
                assert(cursor == 0);
                assert((if b0 == 0 {
                    fr == a0 as int
                } else {
                    fr == a0 as int + 1
                })) by (nonlinear_arith)
                requires
                        fr == (d0 - INDIRECT1_BOUND + INODE_INDIRECT1_COUNT - 1) / (
                        INODE_INDIRECT1_COUNT as int),
                        d0 - INDIRECT1_BOUND == a0 as int * (INODE_INDIRECT1_COUNT as int) + b0,
                        0 <= a0,
                        0 <= b0 < INODE_INDIRECT1_COUNT,
                        a0 as int * (INODE_INDIRECT1_COUNT as int) + b0 >= 1,
                        INODE_INDIRECT1_COUNT == 128,
                        INDIRECT1_BOUND == 156,
                ;
                assert(self.indirect1 == old(self).indirect1 && self.indirect2 == old(
                    self,
                ).indirect2);
                assert(self.indirect1 != self.indirect2);
            } else {
                assert(c1 == INODE_INDIRECT1_COUNT);
                assert(a0 == 0 && b0 == 0);
                assert(fr == 0);
                assert(self.indirect2 == new_blocks@[i2s] && i2s == 156 - d0 + e1);
                if d0 <= DIRECT_BOUND {
                    assert(self.indirect1 == new_blocks@[(DIRECT_BOUND - d0) as int]);
                    assert(i2s != DIRECT_BOUND - d0);
                    assert(self.indirect1 != self.indirect2);
                } else {
                    assert(self.indirect1 == old(self).indirect1);
                    assert(self.indirect1 != self.indirect2);
                }
            }
            lemma_rowpos(a0 as int, b0 as int);
            assert(cursor as int == spec_install_index(
                d0,
                (INDIRECT1_BOUND as int) + a0 as int * (INODE_INDIRECT1_COUNT as int) + b0 as int,
            ) - (if b0 == 0 {
                1int
            } else {
                0int
            }));
            // what stands below the doubly indirect bound at the walk's start
            assert forall|i: int| 0 <= i < d0 && i < INDIRECT1_BOUND implies #[trigger] spec_block_id(
                *self,
                *block_device,
                i,
            ) == spec_block_id(*old(self), *old(block_device), i) by {
                if i >= DIRECT_BOUND {
                    assert(d0 > DIRECT_BOUND);
                    assert(0 <= i - DIRECT_BOUND < c1e);
                    assert(spec_le32(
                        block_device.block(self.indirect1 as int),
                        (i - DIRECT_BOUND) * 4,
                    ) == spec_le32(
                        old(block_device).block(old(self).indirect1 as int),
                        (i - DIRECT_BOUND) * 4,
                    ));
                }
            }
            assert forall|i: int| d0 <= i < INDIRECT1_BOUND implies (#[trigger] spec_block_id(
                *self,
                *block_device,
                i,
            ) == new_blocks@[spec_install_index(d0, i)] && 0 <= spec_install_index(d0, i)
                < new_blocks@.len()) by {
                if i < DIRECT_BOUND {
                    assert(self.direct@[i] == new_blocks@[i - d0]);
                } else {
                    let k = i - DIRECT_BOUND;
                    assert(c1e <= k < INODE_INDIRECT1_COUNT);
                    assert(spec_le32(block_device.block(self.indirect1 as int), k * 4)
                        == new_blocks@[consumed0 + k - c1e]);
                    assert(consumed0 + k - c1e == spec_install_index(d0, i));
                }
            }
            if d0 > INDIRECT1_BOUND {
                assert(block_device.block(self.indirect2 as int) == old(block_device).block(
                    old(self).indirect2 as int,
                ));
                assert forall|i: int| INDIRECT1_BOUND <= i < d0 implies #[trigger] spec_block_id(
                    *self,
                    *block_device,
                    i,
                ) == spec_block_id(*old(self), *old(block_device), i) by {
                    let ri = (i - INDIRECT1_BOUND) / (INODE_INDIRECT1_COUNT as int);
                    assert(0 <= ri < fr) by (nonlinear_arith)
                    requires
                            ri == (i - INDIRECT1_BOUND) / (INODE_INDIRECT1_COUNT as int),
                            INDIRECT1_BOUND <= i < d0,
                            fr == (d0 - INDIRECT1_BOUND + INODE_INDIRECT1_COUNT - 1) / (
                            INODE_INDIRECT1_COUNT as int),
                            INODE_INDIRECT1_COUNT == 128,
                            INDIRECT1_BOUND == 156,
                    ;
                    let rid = spec_le32(
                        old(block_device).block(old(self).indirect2 as int),
                        ri * 4,
                    );
                    assert(rid != old(self).indirect1);
                    assert(block_device.block(rid) == old(block_device).block(rid));
                }
            }
        }
        while a0 < a1 || (a0 == a1 && b0 < b1)
            invariant
                self.wf(),
                block_device.wf(),
                block_device.blocks@.len() == old(block_device).blocks@.len(),
                self.size == new_size,
                self.type_ == old(self).type_,
                d0 == spec_data_blocks(old(self).size),
                d1 == spec_data_blocks(new_size),
                d0 <= d1,
                d1 > INDIRECT1_BOUND,
                fr == spec_first_new_row(d0),
                rr == spec_first_new_row(d1),
                0 <= fr,
                e1 == (if d0 <= DIRECT_BOUND { 1int } else { 0int }),
                e2 == (if d0 <= INDIRECT1_BOUND { 1int } else { 0int }),
                new_blocks@.len() == (d1 - d0) + e1 + e2 + (rr - fr),
                rr == a1 as int + (if b1 > 0 { 1int } else { 0int }),
                a1 as int * (INODE_INDIRECT1_COUNT as int) + b1 == d1 - INDIRECT1_BOUND,
                a1 <= INODE_INDIRECT1_COUNT,
                b1 < INODE_INDIRECT1_COUNT,
                a1 == INODE_INDIRECT1_COUNT ==> b1 == 0,
                b0 < INODE_INDIRECT1_COUNT,
                a0 < a1 || (a0 == a1 && b0 <= b1),
                (INDIRECT1_BOUND as int) + a0 as int * (INODE_INDIRECT1_COUNT as int) + b0 >= d0,
                a0 as int >= fr || (a0 as int == fr - 1 && b0 > 0),
                b0 == 0 ==> a0 as int >= fr,
                cursor as int == spec_install_index(
                    d0,
                    (INDIRECT1_BOUND as int) + a0 as int * (INODE_INDIRECT1_COUNT as int)
                        + b0 as int,
                ) - (if b0 == 0 {
                    1int
                } else {
                    0int
                }),
                forall|i: int|
                    0 <= i < new_blocks@.len() ==> (#[trigger] new_blocks@[i]) < old(
                        block_device,
                    ).blocks@.len(),
                forall|i: int| 0 <= i < new_blocks@.len() ==> (#[trigger] new_blocks@[i]) != 0,
                forall|i: int, j: int|
                    0 <= i < j < new_blocks@.len() ==> #[trigger] new_blocks@[i]
                        != #[trigger] new_blocks@[j],
                forall|i: int|
                    0 <= i < new_blocks@.len() ==> (#[trigger] new_blocks@[i]) != old(
                        self,
                    ).indirect1 && new_blocks@[i] != old(self).indirect2,
                d0 > INDIRECT1_BOUND ==> forall|i: int, r: int|
                    0 <= i < new_blocks@.len() && 0 <= r < fr ==> (#[trigger] new_blocks@[i])
                        != #[trigger] spec_le32(
                        old(block_device).block(old(self).indirect2 as int),
                        r * 4,
                    ),
                d0 > INDIRECT1_BOUND ==> forall|r: int|
                    0 <= r < fr ==> #[trigger] spec_le32(
                        old(block_device).block(old(self).indirect2 as int),
                        r * 4,
                    ) != old(self).indirect1 && spec_le32(
                        old(block_device).block(old(self).indirect2 as int),
                        r * 4,
                    ) != old(self).indirect2 && spec_le32(
                        old(block_device).block(old(self).indirect2 as int),
                        r * 4,
                    ) < old(block_device).blocks@.len(),
                self.indirect1 < block_device.blocks@.len(),
                self.indirect2 < block_device.blocks@.len(),
                self.indirect1 != self.indirect2,
                d0 > DIRECT_BOUND ==> self.indirect1 == old(self).indirect1,
                d0 <= DIRECT_BOUND ==> self.indirect1 == new_blocks@[(DIRECT_BOUND - d0) as int],
                d0 > INDIRECT1_BOUND ==> self.indirect2 == old(self).indirect2,
                d0 <= INDIRECT1_BOUND ==> (self.indirect2 == new_blocks@[i2s] && i2s == 156 - d0
                    + e1 && 0 <= i2s < new_blocks@.len()),
                // the tree below the doubly indirect bound is settled
                forall|i: int|
                    0 <= i < d0 && i < INDIRECT1_BOUND ==> #[trigger] spec_block_id(
                        *self,
                        *block_device,
                        i,
                    ) == spec_block_id(*old(self), *old(block_device), i),
                forall|i: int|
                    d0 <= i < INDIRECT1_BOUND ==> (#[trigger] spec_block_id(
                        *self,
                        *block_device,
                        i,
                    ) == new_blocks@[spec_install_index(d0, i)] && 0 <= spec_install_index(d0, i)
                        < new_blocks@.len()),
                // rows already in place keep their ids
                d0 > INDIRECT1_BOUND ==> forall|r: int|
                    0 <= r < fr ==> #[trigger] spec_le32(
                        block_device.block(self.indirect2 as int),
                        r * 4,
                    ) == spec_le32(old(block_device).block(old(self).indirect2 as int), r * 4),
                // rows the walk has allocated hold their hand-out ids
                forall|r: int|
                    fr <= r < a0 as int + (if b0 > 0 {
                        1int
                    } else {
                        0int
                    }) ==> (#[trigger] spec_le32(block_device.block(self.indirect2 as int), r * 4)
                        == new_blocks@[spec_install_index(
                        d0,
                        (INDIRECT1_BOUND as int) + r * (INODE_INDIRECT1_COUNT as int),
                    ) - 1] && 0 <= spec_install_index(
                        d0,
                        (INDIRECT1_BOUND as int) + r * (INODE_INDIRECT1_COUNT as int),
                    ) - 1 < new_blocks@.len()),
                // every row in play names a block of its own, apart from the
                // index tops
                forall|r: int|
                    0 <= r < a0 as int + (if b0 > 0 {
                        1int
                    } else {
                        0int
                    }) ==> (#[trigger] spec_le32(block_device.block(self.indirect2 as int), r * 4)
                        != self.indirect1 && spec_le32(
                        block_device.block(self.indirect2 as int),
                        r * 4,
                    ) != self.indirect2 && spec_le32(
                        block_device.block(self.indirect2 as int),
                        r * 4,
                    ) < old(block_device).blocks@.len()),
                forall|r: int, s: int|
                    0 <= r < s < a0 as int + (if b0 > 0 {
                        1int
                    } else {
                        0int
                    }) ==> #[trigger] spec_le32(block_device.block(self.indirect2 as int), r * 4)
                        != #[trigger] spec_le32(block_device.block(self.indirect2 as int), s * 4),
                // data blocks already reachable keep their ids
                forall|i: int|
                    INDIRECT1_BOUND <= i < d0 ==> #[trigger] spec_block_id(
                        *self,
                        *block_device,
                        i,
                    ) == spec_block_id(*old(self), *old(block_device), i),
                // and those the walk has passed hold their hand-out ids
                forall|i: int|
                    d0 <= i && INDIRECT1_BOUND <= i && i < (INDIRECT1_BOUND as int) + a0 as int * (
                    INODE_INDIRECT1_COUNT as int) + b0 ==> (#[trigger] spec_block_id(
                        *self,
                        *block_device,
                        i,
                    ) == new_blocks@[spec_install_index(d0, i)] && 0 <= spec_install_index(d0, i)
                        < new_blocks@.len()),
                // every block off the tree stands as it was
                forall|b: int|
                    0 <= b < old(block_device).blocks@.len() && b != self.indirect1 && b
                        != self.indirect2 && (forall|s: int|
                        0 <= s < new_blocks@.len() ==> (#[trigger] new_blocks@[s]) != b) && (d0
                        > INDIRECT1_BOUND ==> forall|r: int|
                        0 <= r < fr ==> #[trigger] spec_le32(
                            old(block_device).block(old(self).indirect2 as int),
                            r * 4,
                        ) != b) ==> #[trigger] block_device.block(b) == old(block_device).block(b),
            decreases (a1 - a0) * (INODE_INDIRECT1_COUNT as int) + (if a0 == a1 {
                b1 as int
            } else {
                INODE_INDIRECT1_COUNT as int
            }) - b0,
        {
            let ghost devh = *block_device;
            let ghost pos: int = (INDIRECT1_BOUND as int) + a0 as int * (
            INODE_INDIRECT1_COUNT as int) + b0 as int;
            proof {
                if a0 == a1 {
                    assert(b0 < b1);
                    assert(a1 < INODE_INDIRECT1_COUNT);
                }
                assert(a0 < INODE_INDIRECT1_COUNT);
                lemma_rowpos(a0 as int, b0 as int);
                assert((pos - INDIRECT1_BOUND) / (INODE_INDIRECT1_COUNT as int) == a0 as int);
                assert((pos - INDIRECT1_BOUND) % (INODE_INDIRECT1_COUNT as int) == b0 as int);
                assert(a0 as int * (INODE_INDIRECT1_COUNT as int) + b0 < a1 as int * (
                INODE_INDIRECT1_COUNT as int) + b1) by (nonlinear_arith)
                requires
                        a0 < a1 || (a0 == a1 && b0 < b1),
                        0 <= b0 < INODE_INDIRECT1_COUNT,
                        0 <= b1 < INODE_INDIRECT1_COUNT,
                        INODE_INDIRECT1_COUNT == 128,
                ;
                assert(pos < d1);
            }
            if b0 == 0 {
                proof {
                    assert(a0 as int >= fr);
                    assert(spec_install_index(d0, pos) == (pos - d0) + e1 + e2 + (a0 as int - fr
                        + 1));
                    assert(rr >= a0 as int + 1);
                    assert((cursor as int) < new_blocks@.len());
                    assert(a0 as int * 4 + 4 <= BLOCK_SZ as int);
                }
                let nb = new_blocks[cursor];
                let ghost devr = *block_device;
                block_device.write_u32(self.indirect2 as usize, a0 * 4, nb);
                cursor = cursor + 1;
                proof {
                    assert(spec_le32(block_device.block(self.indirect2 as int), a0 as int * 4)
                        == nb);
                    assert forall|r: int| 0 <= r < a0 as int implies #[trigger] spec_le32(
                        block_device.block(self.indirect2 as int),
                        r * 4,
                    ) == spec_le32(devr.block(self.indirect2 as int), r * 4) by {
                        lemma_le32_untouched(
                            devr.block(self.indirect2 as int),
                            block_device.block(self.indirect2 as int),
                            a0 as int * 4,
                            r * 4,
                        );
                    }
                    assert(block_device.block(self.indirect1 as int) == devr.block(
                        self.indirect1 as int,
                    ));
                    assert forall|i: int|
                        (INDIRECT1_BOUND <= i < d0) || (d0 <= i && INDIRECT1_BOUND <= i && i
                            < pos) implies #[trigger] spec_block_id(*self, *block_device, i)
                        == spec_block_id(*self, devr, i) by {
                        let ri = (i - INDIRECT1_BOUND) / (INODE_INDIRECT1_COUNT as int);
                        assert(0 <= ri < a0 as int) by (nonlinear_arith)
                        requires
                                ri == (i - INDIRECT1_BOUND) / (INODE_INDIRECT1_COUNT as int),
                                INDIRECT1_BOUND <= i,
                                i < pos,
                                pos == (INDIRECT1_BOUND as int) + a0 as int * (
                                INODE_INDIRECT1_COUNT as int),
                                0 <= a0 as int,
                                INODE_INDIRECT1_COUNT == 128,
                                INDIRECT1_BOUND == 156,
                        ;
                        assert(spec_le32(block_device.block(self.indirect2 as int), ri * 4)
                            == spec_le32(devr.block(self.indirect2 as int), ri * 4));
                        let rid = spec_le32(devr.block(self.indirect2 as int), ri * 4);
                        assert(rid != self.indirect2);
                        assert(block_device.block(rid) == devr.block(rid));
                    }
                }
            }
            proof {
                assert(cursor as int == spec_install_index(d0, pos));
                assert(spec_install_index(d0, pos) == (pos - d0) + e1 + e2 + (if a0 as int >= fr {
                    a0 as int - fr + 1
                } else {
                    0int
                }));
                if a0 as int >= fr {
                    assert(rr >= a0 as int + (if b1 > 0 && a0 == a1 {
                        1int
                    } else {
                        1int
                    }));
                }
                assert((cursor as int) < new_blocks@.len());
                assert(a0 as int * 4 + 4 <= BLOCK_SZ as int);
                assert(b0 as int * 4 + 4 <= BLOCK_SZ as int);
            }
            let row = block_device.read_u32(self.indirect2 as usize, a0 * 4);
            proof {
                assert(row as int == spec_le32(
                    block_device.block(self.indirect2 as int),
                    a0 as int * 4,
                ));
                assert(0 <= a0 as int && (a0 as int) < a0 as int + 1);
                assert(row as int != self.indirect1 && row as int != self.indirect2 && (
                row as int) < old(block_device).blocks@.len());
            }
            let nb2 = new_blocks[cursor];
            let ghost devw = *block_device;
            let ghost rowg: int = row as int;
            block_device.write_u32(row as usize, b0 * 4, nb2);
            let ghost cw: int = cursor as int;
            cursor = cursor + 1;
            proof {
                assert(block_device.block(self.indirect1 as int) == devw.block(
                    self.indirect1 as int,
                ));
                assert(block_device.block(self.indirect2 as int) == devw.block(
                    self.indirect2 as int,
                ));
                assert(spec_le32(block_device.block(rowg), b0 as int * 4) == nb2);
                assert(spec_block_id(*self, *block_device, pos) == nb2);
                // everything settled before this write still resolves as it
                // did
                assert forall|i: int|
                    (INDIRECT1_BOUND <= i < d0) || (d0 <= i && INDIRECT1_BOUND <= i && i
                        < pos) implies #[trigger] spec_block_id(*self, *block_device, i)
                    == spec_block_id(*self, devw, i) by {
                    let ri = (i - INDIRECT1_BOUND) / (INODE_INDIRECT1_COUNT as int);
                    let si = (i - INDIRECT1_BOUND) % (INODE_INDIRECT1_COUNT as int);
                    assert(0 <= ri <= a0 as int && 0 <= si < INODE_INDIRECT1_COUNT && i == (
                    INDIRECT1_BOUND as int) + ri * (INODE_INDIRECT1_COUNT as int) + si && (ri
                        == a0 as int ==> si < b0 as int)) by (nonlinear_arith)
                    requires
                            ri == (i - INDIRECT1_BOUND) / (INODE_INDIRECT1_COUNT as int),
                            si == (i - INDIRECT1_BOUND) % (INODE_INDIRECT1_COUNT as int),
                            INDIRECT1_BOUND <= i,
                            i < pos,
                            pos == (INDIRECT1_BOUND as int) + a0 as int * (
                            INODE_INDIRECT1_COUNT as int) + b0 as int,
                            0 <= a0 as int,
                            0 <= b0 as int,
                            (b0 as int) < INODE_INDIRECT1_COUNT,
                            INODE_INDIRECT1_COUNT == 128,
                            INDIRECT1_BOUND == 156,
                    ;
                    let rid = spec_le32(devw.block(self.indirect2 as int), ri * 4);
                    assert(spec_le32(block_device.block(self.indirect2 as int), ri * 4) == rid);
                    if rid == rowg {
                        if ri == a0 as int {
                            lemma_le32_untouched(
                                devw.block(rowg),
                                block_device.block(rowg),
                                b0 as int * 4,
                                si * 4,
                            );
                        } else {
                            assert(rid != rowg);
                        }
                    } else {
                        assert(block_device.block(rid) == devw.block(rid));
                    }
                }
            }
            b0 = b0 + 1;
            if b0 == INODE_INDIRECT1_COUNT {
                b0 = 0;
                a0 = a0 + 1;
            }
            proof {
                lemma_rowpos(a0 as int, b0 as int);
                assert((INDIRECT1_BOUND as int) + a0 as int * (INODE_INDIRECT1_COUNT as int)
                    + b0 as int == pos + 1);
                assert(spec_install_index(d0, pos + 1) == cw + 1 + (if b0 == 0 {
                    1int
                } else {
                    0int
                }));
                assert(cursor as int == spec_install_index(d0, pos + 1) - (if b0 == 0 {
                    1int
                } else {
                    0int
                }));
                assert(a0 as int * (INODE_INDIRECT1_COUNT as int) + b0 <= a1 as int * (
                INODE_INDIRECT1_COUNT as int) + b1);
                assert(a0 < a1 || (a0 == a1 && b0 <= b1)) by (nonlinear_arith)
                requires
                        a0 as int * (INODE_INDIRECT1_COUNT as int) + b0 <= a1 as int * (
                        INODE_INDIRECT1_COUNT as int) + b1,
                        0 <= b0 < INODE_INDIRECT1_COUNT,
                        0 <= b1 < INODE_INDIRECT1_COUNT,
                        0 <= a0,
                        0 <= a1,
                        INODE_INDIRECT1_COUNT == 128,
                ;
                assert forall|i: int| 0 <= i < INDIRECT1_BOUND implies #[trigger] spec_block_id(
                    *self,
                    *block_device,
                    i,
                ) == spec_block_id(*self, devh, i) by {
                    if i >= DIRECT_BOUND {
                        assert(block_device.block(self.indirect1 as int) == devh.block(
                            self.indirect1 as int,
                        ));
                    }
                }
                assert forall|i: int|
                    d0 <= i && INDIRECT1_BOUND <= i && i < pos + 1 implies (
                #[trigger] spec_block_id(*self, *block_device, i) == new_blocks@[
                    spec_install_index(d0, i)
                ] && 0 <= spec_install_index(d0, i) < new_blocks@.len()) by {
                    if i == pos {
                        assert(spec_block_id(*self, *block_device, i) == nb2);
                        assert(nb2 == new_blocks@[cw]);
                        assert(cw == spec_install_index(d0, pos));
                    }
                }
            }
        }
        proof {
            assert(a0 == a1 && b0 == b1);
            assert((INDIRECT1_BOUND as int) + a1 as int * (INODE_INDIRECT1_COUNT as int)
                + b1 as int == d1);
            assert forall|i: int| 0 <= i < d0 implies #[trigger] spec_block_id(
                *self,
                *block_device,
                i,
            ) == spec_block_id(*old(self), *old(block_device), i) by {}
            assert forall|i: int| d0 <= i < d1 implies (#[trigger] spec_block_id(
                *self,
                *block_device,
                i,
            ) == new_blocks@[spec_install_index(d0, i)] && spec_block_id(
                *self,
                *block_device,
                i,
            ) != 0) by {}
        }
    }

    /// Clear the content: zero the size and the index slots, and hand back
    /// every data and index block the content occupied — exactly as many
    /// blocks as the content's total.
    #[verifier::rlimit(100)]
    #[verifier::spinoff_prover]
    pub fn clear_size(&mut self, block_device: &mut BlockDevice) -> (v: Vec<u32>)
        requires
            old(self).wf(),
            old(block_device).wf(),
            spec_data_blocks(old(self).size) <= DIRECT_BOUND + INODE_INDIRECT1_COUNT
                + INODE_INDIRECT2_COUNT,
            old(self).indirect1 < old(block_device).blocks@.len(),
            old(self).indirect2 < old(block_device).blocks@.len(),
            spec_data_blocks(old(self).size) > INDIRECT1_BOUND ==> forall|r: int|
                0 <= r < (spec_data_blocks(old(self).size) - INDIRECT1_BOUND
                    + INODE_INDIRECT1_COUNT - 1) / (INODE_INDIRECT1_COUNT as int)
                    ==> #[trigger] spec_le32(
                    old(block_device).block(old(self).indirect2 as int),
                    r * 4,
                ) < old(block_device).blocks@.len(),
        ensures
            final(self).wf(),
            final(block_device).wf(),
            final(block_device).blocks@.len() == old(block_device).blocks@.len(),
            final(self).size == 0,
            final(self).indirect1 == 0,
            final(self).indirect2 == 0,
            final(self).type_ == old(self).type_,
            // exactly the content's total block count is handed back
            v@.len() == spec_total_blocks(old(self).size),
            // the cleared direct slots read as zero
            forall|j: int|
                0 <= j < INODE_DIRECT_COUNT && j < spec_data_blocks(old(self).size)
                    ==> #[trigger] final(self).direct@[j] == 0,
            // within the single-indirect regime, the handed-back blocks are
            // exactly the reachable ones: the data blocks in order, with the
            // index block between the direct and the indirect run
            spec_data_blocks(old(self).size) <= INDIRECT1_BOUND ==> forall|k: int|
                0 <= k < spec_data_blocks(old(self).size) && k < INODE_DIRECT_COUNT
                    ==> #[trigger] v@[k] == spec_block_id(*old(self), *old(block_device), k),
            (spec_data_blocks(old(self).size) <= INDIRECT1_BOUND && spec_data_blocks(old(self).size)
                > DIRECT_BOUND) ==> v@[DIRECT_BOUND as int] == old(self).indirect1,
            (spec_data_blocks(old(self).size) <= INDIRECT1_BOUND && spec_data_blocks(old(self).size)
                > DIRECT_BOUND) ==> forall|k: int|
                DIRECT_BOUND <= k < spec_data_blocks(old(self).size) ==> #[trigger] v@[k + 1]
                    == spec_block_id(*old(self), *old(block_device), k),
    {
        let mut v: Vec<u32> = Vec::new();
        let mut data_blocks: u32 = self.data_blocks();
        let ghost d = spec_data_blocks(old(self).size);
        self.size = 0;
        let mut current: usize = 0;
        let direct_take: usize = if (data_blocks as usize) < INODE_DIRECT_COUNT {
            data_blocks as usize
        } else {
            INODE_DIRECT_COUNT
        };
        while current < direct_take
            invariant
                self.wf(),
                block_device.wf(),
                block_device.blocks@.len() == old(block_device).blocks@.len(),
                current <= direct_take,
                direct_take <= INODE_DIRECT_COUNT,
                direct_take == if d < DIRECT_BOUND {
                    d
                } else {
                    DIRECT_BOUND as int
                },
                d == spec_data_blocks(old(self).size),
                self.size == 0,
                v@.len() == current,
                forall|t: int| 0 <= t < current ==> #[trigger] v@[t] == old(self).direct@[t],
                forall|t: int| 0 <= t < current ==> #[trigger] self.direct@[t] == 0,
                forall|t: int|
                    current <= t < INODE_DIRECT_COUNT ==> #[trigger] self.direct@[t] == old(self).direct@[t],
                self.indirect1 == old(self).indirect1,
                self.indirect2 == old(self).indirect2,
                self.type_ == old(self).type_,
                *block_device == *old(block_device),
            decreases direct_take - current,
        {
            v.push(self.direct[current]);
            self.direct[current] = 0;
            current = current + 1;
        }
        if (data_blocks as usize) <= INODE_DIRECT_COUNT {
            self.indirect1 = 0;
            self.indirect2 = 0;
            proof {
                assert(v@.len() == spec_total_blocks(old(self).size));
            }
            return v;
        }
        // the single indirect block and its entries
        v.push(self.indirect1);
        let mut rest: usize = data_blocks as usize - INODE_DIRECT_COUNT;
        let take1: usize = if rest < INODE_INDIRECT1_COUNT {
            rest
        } else {
            INODE_INDIRECT1_COUNT
        };
        let mut k: usize = 0;
        while k < take1
            invariant
                self.wf(),
                block_device.wf(),
                block_device.blocks@.len() == old(block_device).blocks@.len(),
                k <= take1,
                take1 <= INODE_INDIRECT1_COUNT,
                take1 == if rest < INODE_INDIRECT1_COUNT {
                    rest as int
                } else {
                    INODE_INDIRECT1_COUNT as int
                },
                rest == d - INODE_DIRECT_COUNT,
                d == spec_data_blocks(old(self).size),
                d > DIRECT_BOUND,
                self.size == 0,
                v@.len() == INODE_DIRECT_COUNT + 1 + k,
                forall|t: int| 0 <= t < INODE_DIRECT_COUNT ==> #[trigger] v@[t] == old(self).direct@[t],
                v@[INODE_DIRECT_COUNT as int] == old(self).indirect1,
                forall|t: int|
                    0 <= t < k ==> #[trigger] v@[INODE_DIRECT_COUNT + 1 + t] == spec_le32(
                        old(block_device).block(old(self).indirect1 as int),
                        t * 4,
                    ),
                forall|t: int| 0 <= t < INODE_DIRECT_COUNT ==> #[trigger] self.direct@[t] == 0,
                self.indirect1 == old(self).indirect1,
                self.indirect2 == old(self).indirect2,
                self.type_ == old(self).type_,
                self.indirect1 < block_device.blocks@.len(),
                self.indirect2 < block_device.blocks@.len(),
                *block_device == *old(block_device),
            decreases take1 - k,
        {
            let id = block_device.read_u32(self.indirect1 as usize, k * 4);
            v.push(id);
            k = k + 1;
        }
        self.indirect1 = 0;
        if rest <= INODE_INDIRECT1_COUNT {
            self.indirect2 = 0;
            proof {
                assert forall|kk: int| DIRECT_BOUND <= kk < d implies #[trigger] v@[kk + 1]
                    == spec_block_id(*old(self), *old(block_device), kk) by {
                    assert(v@[INODE_DIRECT_COUNT + 1 + (kk - DIRECT_BOUND)] == spec_le32(
                        old(block_device).block(old(self).indirect1 as int),
                        (kk - DIRECT_BOUND) * 4,
                    ));
                }
            }
            proof {
                let ghost vl = v@.len() as int;
                let ghost tb = spec_total_blocks(old(self).size);
                assert(vl == tb) by (nonlinear_arith)
                    requires
                        vl == INODE_DIRECT_COUNT + 1 + take1,
                        take1 == rest,
                        rest == d - INODE_DIRECT_COUNT,
                        INODE_DIRECT_COUNT < d <= INDIRECT1_BOUND,
                        tb == d + 1,
                        INODE_DIRECT_COUNT == 28,
                        INDIRECT1_BOUND == 156,
                ;
            }
            return v;
        }
        // the doubly indirect tree: the top block, then each row with its
        // entries
        v.push(self.indirect2);
        rest = rest - INODE_INDIRECT1_COUNT;
        let a1: usize = rest / INODE_INDIRECT1_COUNT;
        let b1: usize = rest % INODE_INDIRECT1_COUNT;
        let ghost rows = (d - INDIRECT1_BOUND + INODE_INDIRECT1_COUNT - 1) / (
        INODE_INDIRECT1_COUNT as int);
        proof {
            assert(a1 + (if b1 > 0 {
                1int
            } else {
                0int
            }) == rows && a1 <= rows && a1 <= INODE_INDIRECT1_COUNT) by (nonlinear_arith)
                requires
                    rest == d - INDIRECT1_BOUND,
                    rest >= 1,
                    rest <= INODE_INDIRECT2_COUNT,
                    rows == (d - INDIRECT1_BOUND + INODE_INDIRECT1_COUNT - 1) / (
                    INODE_INDIRECT1_COUNT as int),
                    a1 as int == rest as int / (INODE_INDIRECT1_COUNT as int),
                    b1 as int == rest as int % (INODE_INDIRECT1_COUNT as int),
                    d > INDIRECT1_BOUND,
                    INODE_INDIRECT1_COUNT == 128,
                    INODE_INDIRECT2_COUNT == 16384,
                    INDIRECT1_BOUND == 156,
            ;
        }
        let mut a: usize = 0;
        while a < a1
            invariant
                self.wf(),
                block_device.wf(),
                block_device.blocks@.len() == old(block_device).blocks@.len(),
                a <= a1,
                a1 <= INODE_INDIRECT1_COUNT,
                b1 < INODE_INDIRECT1_COUNT,
                self.size == 0,
                v@.len() == INODE_DIRECT_COUNT + 1 + INODE_INDIRECT1_COUNT + 1 + a * (
                INODE_INDIRECT1_COUNT as int + 1),
                self.indirect1 == 0,
                self.indirect2 == old(self).indirect2,
                self.type_ == old(self).type_,
                self.indirect2 < block_device.blocks@.len(),
                *block_device == *old(block_device),
                spec_data_blocks(old(self).size) > INDIRECT1_BOUND,
                forall|r: int|
                    0 <= r < rows ==> #[trigger] spec_le32(
                        old(block_device).block(old(self).indirect2 as int),
                        r * 4,
                    ) < old(block_device).blocks@.len(),
                a1 <= rows,
                rows == (spec_data_blocks(old(self).size) - INDIRECT1_BOUND
                    + INODE_INDIRECT1_COUNT - 1) / (INODE_INDIRECT1_COUNT as int),
            decreases a1 - a,
        {
            let row = block_device.read_u32(self.indirect2 as usize, a * 4);
            v.push(row);
            proof {
                assert(spec_le32(
                    old(block_device).block(old(self).indirect2 as int),
                    a as int * 4,
                ) < old(block_device).blocks@.len());
            }
            let mut j: usize = 0;
            while j < INODE_INDIRECT1_COUNT
                invariant
                    self.wf(),
                    block_device.wf(),
                    block_device.blocks@.len() == old(block_device).blocks@.len(),
                    j <= INODE_INDIRECT1_COUNT,
                    self.size == 0,
                    self.wf(),
                    self.indirect1 == 0,
                    self.indirect2 == old(self).indirect2,
                    self.type_ == old(self).type_,
                    row < block_device.blocks@.len(),
                    v@.len() == INODE_DIRECT_COUNT + 1 + INODE_INDIRECT1_COUNT + 1 + a * (
                    INODE_INDIRECT1_COUNT as int + 1) + 1 + j,
                    *block_device == *old(block_device),
                decreases INODE_INDIRECT1_COUNT - j,
            {
                let id = block_device.read_u32(row as usize, j * 4);
                v.push(id);
                j = j + 1;
            }
            a = a + 1;
            proof {
                assert(INODE_DIRECT_COUNT + 1 + INODE_INDIRECT1_COUNT + 1 + (a - 1) * (
                INODE_INDIRECT1_COUNT as int + 1) + 1 + INODE_INDIRECT1_COUNT == INODE_DIRECT_COUNT
                    + 1 + INODE_INDIRECT1_COUNT + 1 + a * (INODE_INDIRECT1_COUNT as int + 1))
                    by (nonlinear_arith);
            }
        }
        if b1 > 0 {
            let row = block_device.read_u32(self.indirect2 as usize, a1 * 4);
            v.push(row);
            proof {
                assert(spec_le32(
                    old(block_device).block(old(self).indirect2 as int),
                    a1 as int * 4,
                ) < old(block_device).blocks@.len());
            }
            let mut j: usize = 0;
            while j < b1
                invariant
                    self.wf(),
                    block_device.wf(),
                    block_device.blocks@.len() == old(block_device).blocks@.len(),
                    j <= b1,
                    b1 < INODE_INDIRECT1_COUNT,
                    self.size == 0,
                    self.wf(),
                    self.indirect1 == 0,
                    self.indirect2 == old(self).indirect2,
                    self.type_ == old(self).type_,
                    row < block_device.blocks@.len(),
                    v@.len() == INODE_DIRECT_COUNT + 1 + INODE_INDIRECT1_COUNT + 1 + a1 * (
                    INODE_INDIRECT1_COUNT as int + 1) + 1 + j,
                    *block_device == *old(block_device),
                decreases b1 - j,
            {
                let id = block_device.read_u32(row as usize, j * 4);
                v.push(id);
                j = j + 1;
            }
        }
        self.indirect2 = 0;
        proof {
            let ghost vl = v@.len() as int;
            let ghost tb = spec_total_blocks(old(self).size);
            assert(vl == tb) by (nonlinear_arith)
                requires
                    vl == INODE_DIRECT_COUNT + 1 + INODE_INDIRECT1_COUNT + 1 + a1 * (
                    INODE_INDIRECT1_COUNT as int + 1) + (if b1 > 0 {
                        b1 + 1
                    } else {
                        0int
                    }),
                    tb == d + 1 + 1 + rows,
                    d - INDIRECT1_BOUND == a1 * (INODE_INDIRECT1_COUNT as int) + b1,
                    rows == a1 + (if b1 > 0 {
                        1int
                    } else {
                        0int
                    }),
                    d > INDIRECT1_BOUND,
                    INODE_DIRECT_COUNT == 28,
                    INODE_INDIRECT1_COUNT == 128,
                    INDIRECT1_BOUND == 156,
            ;
        }
        v
    }

    /// Read from `offset` into a fresh buffer of at most `len` bytes: the
    /// range clamps to the content's end, and every byte comes from the
    /// block the index tree names for its position.
    pub fn read_at(&self, offset: usize, len: usize, block_device: &BlockDevice) -> (r: Vec<u8>)
        requires
            self.wf(),
            block_device.wf(),
            spec_data_blocks(self.size) <= DIRECT_BOUND + INODE_INDIRECT1_COUNT
                + INODE_INDIRECT2_COUNT,
            self.indirect1 < block_device.blocks@.len(),
            self.indirect2 < block_device.blocks@.len(),
            forall|i: int|
                0 <= i < spec_data_blocks(self.size) ==> 0 <= #[trigger] spec_block_id(
                    *self,
                    *block_device,
                    i,
                ) < block_device.blocks@.len(),
            spec_data_blocks(self.size) > INDIRECT1_BOUND ==> forall|r: int|
                0 <= r < (spec_data_blocks(self.size) - INDIRECT1_BOUND + INODE_INDIRECT1_COUNT
                    - 1) / (INODE_INDIRECT1_COUNT as int) ==> #[trigger] spec_le32(
                    block_device.block(self.indirect2 as int),
                    r * 4,
                ) < block_device.blocks@.len(),
        ensures
            r@.len() == if offset >= self.size {
                0int
            } else if offset + len <= self.size {
                len as int
            } else {
                self.size - offset
            },
            forall|k: int|
                0 <= k < r@.len() ==> #[trigger] r@[k] == block_device.block(
                    spec_block_id(*self, *block_device, (offset + k) / (BLOCK_SZ as int)),
                )[(offset + k) % (BLOCK_SZ as int)],
    {
        let mut out: Vec<u8> = Vec::new();
        if offset >= self.size as usize {
            return out;
        }
        let end: usize = if len <= self.size as usize - offset {
            offset + len
        } else {
            self.size as usize
        };
        let mut pos: usize = offset;
        while pos < end
            invariant
                self.wf(),
                block_device.wf(),
                offset <= pos <= end,
                end <= self.size,
                out@.len() == pos - offset,
                spec_data_blocks(self.size) <= DIRECT_BOUND + INODE_INDIRECT1_COUNT
                    + INODE_INDIRECT2_COUNT,
                self.indirect1 < block_device.blocks@.len(),
                self.indirect2 < block_device.blocks@.len(),
                forall|i: int|
                    0 <= i < spec_data_blocks(self.size) ==> 0 <= #[trigger] spec_block_id(
                        *self,
                        *block_device,
                        i,
                    ) < block_device.blocks@.len(),
                spec_data_blocks(self.size) > INDIRECT1_BOUND ==> forall|r: int|
                    0 <= r < (spec_data_blocks(self.size) - INDIRECT1_BOUND
                        + INODE_INDIRECT1_COUNT - 1) / (INODE_INDIRECT1_COUNT as int)
                        ==> #[trigger] spec_le32(
                        block_device.block(self.indirect2 as int),
                        r * 4,
                    ) < block_device.blocks@.len(),
                forall|k: int|
                    0 <= k < out@.len() ==> #[trigger] out@[k] == block_device.block(
                        spec_block_id(*self, *block_device, (offset + k) / (BLOCK_SZ as int)),
                    )[(offset + k) % (BLOCK_SZ as int)],
            decreases end - pos,
        {
            let inner = pos / BLOCK_SZ;
            proof {
                lemma_pos_within_blocks(pos as int, self.size as u32);
                if inner >= INDIRECT1_BOUND {
                    lemma_row_within_rows(pos as int, self.size as u32);
                }
            }
            let bid = self.get_block_id(inner as u32, block_device);
            let b = block_device.read_byte(bid as usize, pos % BLOCK_SZ);
            out.push(b);
            pos = pos + 1;
        }
        out
    }

    /// Write the buffer at `offset`; the content must already reach the
    /// range's end, and each byte lands in the block the index tree names.
    pub fn write_at(&self, offset: usize, buf: &Vec<u8>, block_device: &mut BlockDevice) -> (r:
        usize)
        requires
            self.wf(),
            old(block_device).wf(),
            offset + buf@.len() <= self.size,
            spec_data_blocks(self.size) <= DIRECT_BOUND + INODE_INDIRECT1_COUNT
                + INODE_INDIRECT2_COUNT,
            self.indirect1 < old(block_device).blocks@.len(),
            self.indirect2 < old(block_device).blocks@.len(),
            forall|i: int|
                0 <= i < spec_data_blocks(self.size) ==> 0 <= #[trigger] spec_block_id(
                    *self,
                    *old(block_device),
                    i,
                ) < old(block_device).blocks@.len(),
            spec_data_blocks(self.size) > INDIRECT1_BOUND ==> forall|r: int|
                0 <= r < (spec_data_blocks(self.size) - INDIRECT1_BOUND + INODE_INDIRECT1_COUNT
                    - 1) / (INODE_INDIRECT1_COUNT as int) ==> #[trigger] spec_le32(
                    old(block_device).block(self.indirect2 as int),
                    r * 4,
                ) < old(block_device).blocks@.len(),
            // data blocks do not alias the index blocks of the tree
            forall|i: int|
                0 <= i < spec_data_blocks(self.size) ==> #[trigger] spec_block_id(
                    *self,
                    *old(block_device),
                    i,
                ) != self.indirect1 && spec_block_id(*self, *old(block_device), i)
                    != self.indirect2,
            spec_data_blocks(self.size) > INDIRECT1_BOUND ==> forall|i: int, r: int|
                0 <= i < spec_data_blocks(self.size) && 0 <= r < (spec_data_blocks(self.size)
                    - INDIRECT1_BOUND + INODE_INDIRECT1_COUNT - 1) / (INODE_INDIRECT1_COUNT as int)
                    ==> #[trigger] spec_block_id(*self, *old(block_device), i)
                    != #[trigger] spec_le32(
                    old(block_device).block(self.indirect2 as int),
                    r * 4,
                ),
            // distinct logical blocks live on distinct device blocks
            forall|i: int, j: int|
                0 <= i < j < spec_data_blocks(self.size) ==> #[trigger] spec_block_id(
                    *self,
                    *old(block_device),
                    i,
                ) != #[trigger] spec_block_id(*self, *old(block_device), j),
        ensures
            final(block_device).wf(),
            final(block_device).blocks@.len() == old(block_device).blocks@.len(),
            r == buf@.len(),
            // the addressed file bytes now hold the buffer
            forall|k: int|
                0 <= k < buf@.len() ==> #[trigger] final(block_device).block(
                    spec_block_id(*self, *old(block_device), (offset + k) / (BLOCK_SZ as int)),
                )[(offset + k) % (BLOCK_SZ as int)] == buf@[k],
            // every device byte off the addressed range is unchanged
            forall|b: int, o: int|
                0 <= b < old(block_device).blocks@.len() && 0 <= o < BLOCK_SZ && !(exists|k: int|
                    0 <= k < buf@.len() && b == #[trigger] spec_block_id(
                        *self,
                        *old(block_device),
                        (offset + k) / (BLOCK_SZ as int),
                    ) && o == (offset + k) % (BLOCK_SZ as int))
                    ==> #[trigger] final(block_device).block(b)[o] == old(block_device).block(b)[o],
            // the index tree stands as it was
            forall|i: int|
                0 <= i < spec_data_blocks(self.size) ==> #[trigger] spec_block_id(
                    *self,
                    *final(block_device),
                    i,
                ) == spec_block_id(*self, *old(block_device), i),
    {
        let end: usize = offset + buf.len();
        let mut pos: usize = offset;
        while pos < end
            invariant
                self.wf(),
                block_device.wf(),
                block_device.blocks@.len() == old(block_device).blocks@.len(),
                offset <= pos <= end,
                end == offset + buf@.len(),
                end <= self.size,
                spec_data_blocks(self.size) <= DIRECT_BOUND + INODE_INDIRECT1_COUNT
                    + INODE_INDIRECT2_COUNT,
                self.indirect1 < block_device.blocks@.len(),
                self.indirect2 < block_device.blocks@.len(),
                block_device.block(self.indirect1 as int) == old(block_device).block(
                    self.indirect1 as int,
                ),
                block_device.block(self.indirect2 as int) == old(block_device).block(
                    self.indirect2 as int,
                ),
                forall|i: int|
                    0 <= i < spec_data_blocks(self.size) ==> #[trigger] spec_block_id(
                        *self,
                        *block_device,
                        i,
                    ) == spec_block_id(*self, *old(block_device), i),
                forall|i: int|
                    0 <= i < spec_data_blocks(self.size) ==> 0 <= #[trigger] spec_block_id(
                        *self,
                        *old(block_device),
                        i,
                    ) < block_device.blocks@.len(),
                spec_data_blocks(self.size) > INDIRECT1_BOUND ==> forall|r: int|
                    0 <= r < (spec_data_blocks(self.size) - INDIRECT1_BOUND
                        + INODE_INDIRECT1_COUNT - 1) / (INODE_INDIRECT1_COUNT as int)
                        ==> #[trigger] spec_le32(
                        block_device.block(self.indirect2 as int),
                        r * 4,
                    ) < block_device.blocks@.len() && block_device.block(
                        spec_le32(block_device.block(self.indirect2 as int), r * 4),
                    ) == old(block_device).block(
                        spec_le32(old(block_device).block(self.indirect2 as int), r * 4),
                    ),
                forall|i: int|
                    0 <= i < spec_data_blocks(self.size) ==> #[trigger] spec_block_id(
                        *self,
                        *old(block_device),
                        i,
                    ) != self.indirect1 && spec_block_id(*self, *old(block_device), i)
                        != self.indirect2,
                spec_data_blocks(self.size) > INDIRECT1_BOUND ==> forall|i: int, r: int|
                    0 <= i < spec_data_blocks(self.size) && 0 <= r < (spec_data_blocks(self.size)
                        - INDIRECT1_BOUND + INODE_INDIRECT1_COUNT - 1) / (
                    INODE_INDIRECT1_COUNT as int) ==> #[trigger] spec_block_id(
                        *self,
                        *old(block_device),
                        i,
                    ) != #[trigger] spec_le32(
                        old(block_device).block(self.indirect2 as int),
                        r * 4,
                    ),
                forall|i: int, j: int|
                    0 <= i < j < spec_data_blocks(self.size) ==> #[trigger] spec_block_id(
                        *self,
                        *old(block_device),
                        i,
                    ) != #[trigger] spec_block_id(*self, *old(block_device), j),
                forall|k: int|
                    0 <= k < pos - offset ==> #[trigger] block_device.block(
                        spec_block_id(*self, *old(block_device), (offset + k) / (BLOCK_SZ as int)),
                    )[(offset + k) % (BLOCK_SZ as int)] == buf@[k],
                forall|b: int, o: int|
                    0 <= b < old(block_device).blocks@.len() && 0 <= o < BLOCK_SZ && !(exists|
                        k: int,
                    |
                        0 <= k < pos - offset && b == #[trigger] spec_block_id(
                            *self,
                            *old(block_device),
                            (offset + k) / (BLOCK_SZ as int),
                        ) && o == (offset + k) % (BLOCK_SZ as int)) ==> #[trigger] block_device.block(
                        b,
                    )[o] == old(block_device).block(b)[o],
            decreases end - pos,
        {
            let inner = pos / BLOCK_SZ;
            proof {
                lemma_pos_within_blocks(pos as int, self.size as u32);
                if inner >= INDIRECT1_BOUND {
                    lemma_row_within_rows(pos as int, self.size as u32);
                }
            }
            let bid = self.get_block_id(inner as u32, block_device);
            let ghost dev_in = *block_device;
            block_device.write_byte(bid as usize, pos % BLOCK_SZ, buf[pos - offset]);
            pos = pos + 1;
            proof {
                let p0 = pos - 1;
                assert(bid == spec_block_id(*self, *old(block_device), p0 / (BLOCK_SZ as int)));
                assert forall|k: int| 0 <= k < pos - offset implies #[trigger] block_device.block(
                    spec_block_id(*self, *old(block_device), (offset + k) / (BLOCK_SZ as int)),
                )[(offset + k) % (BLOCK_SZ as int)] == buf@[k] by {
                    let bk = spec_block_id(
                        *self,
                        *old(block_device),
                        (offset + k) / (BLOCK_SZ as int),
                    );
                    let ok = (offset + k) % (BLOCK_SZ as int);
                    if k == p0 - offset {
                        assert(block_device.block(bid as int)[p0 % (BLOCK_SZ as int)] == buf@[k]);
                    } else {
                        if (offset + k) / (BLOCK_SZ as int) == p0 / (BLOCK_SZ as int) {
                            assert(ok != p0 % (BLOCK_SZ as int)) by (nonlinear_arith)
                                requires
                                    ok == (offset + k) % (BLOCK_SZ as int),
                                    (offset + k) / (BLOCK_SZ as int) == p0 / (BLOCK_SZ as int),
                                    offset + k != p0,
                                    offset + k >= 0,
                                    p0 >= 0,
                                    BLOCK_SZ == 512,
                            ;
                            assert(block_device.block(bk)[ok] == dev_in.block(bk)[ok]);
                        } else {
                            lemma_pos_within_blocks(offset + k, self.size as u32);
                            assert(bk != bid);
                            assert(block_device.block(bk) == dev_in.block(bk));
                        }
                    }
                }
                assert forall|b: int, o: int|
                    0 <= b < old(block_device).blocks@.len() && 0 <= o < BLOCK_SZ && !(exists|
                        k: int,
                    |
                        0 <= k < pos - offset && b == #[trigger] spec_block_id(
                            *self,
                            *old(block_device),
                            (offset + k) / (BLOCK_SZ as int),
                        ) && o == (offset + k) % (BLOCK_SZ as int)) implies #[trigger] block_device.block(
                    b,
                )[o] == old(block_device).block(b)[o] by {
                    assert(!(b == bid && o == p0 % (BLOCK_SZ as int))) by {
                        if b == bid && o == p0 % (BLOCK_SZ as int) {
                            assert(0 <= p0 - offset < pos - offset && b == spec_block_id(
                                *self,
                                *old(block_device),
                                (offset + (p0 - offset)) / (BLOCK_SZ as int),
                            ) && o == (offset + (p0 - offset)) % (BLOCK_SZ as int));
                        }
                    }
                    if b != bid {
                        assert(block_device.block(b) == dev_in.block(b));
                    }
                    assert(dev_in.block(b)[o] == old(block_device).block(b)[o]);
                }
            }
        }
        buf.len()
    }
}

/// A byte position below the content's end lies in a data block below the
/// content's block count.
pub proof fn lemma_pos_within_blocks(pos: int, size: u32)
    requires
        0 <= pos < size,
    ensures
        0 <= pos / (BLOCK_SZ as int) < spec_data_blocks(size),
        pos / (BLOCK_SZ as int) < DIRECT_BOUND + INODE_INDIRECT1_COUNT + INODE_INDIRECT2_COUNT
            || spec_data_blocks(size) > DIRECT_BOUND + INODE_INDIRECT1_COUNT
            + INODE_INDIRECT2_COUNT,
{
    assert(0 <= pos / (BLOCK_SZ as int) < spec_data_blocks(size)) by (nonlinear_arith)
        requires
            0 <= pos < size,
            BLOCK_SZ == 512,
    ;
}

/// A data block past the doubly indirect bound lies in a row below the
/// content's row count.
pub proof fn lemma_row_within_rows(pos: int, size: u32)
    requires
        0 <= pos < size,
        pos / (BLOCK_SZ as int) >= INDIRECT1_BOUND,
    ensures
        spec_data_blocks(size) > INDIRECT1_BOUND,
        0 <= (pos / (BLOCK_SZ as int) - INDIRECT1_BOUND) / (INODE_INDIRECT1_COUNT as int) < (
        spec_data_blocks(size) - INDIRECT1_BOUND + INODE_INDIRECT1_COUNT - 1) / (
        INODE_INDIRECT1_COUNT as int),
{
    assert(spec_data_blocks(size) > INDIRECT1_BOUND && 0 <= (pos / (BLOCK_SZ as int)
        - INDIRECT1_BOUND) / (INODE_INDIRECT1_COUNT as int) < (spec_data_blocks(size)
        - INDIRECT1_BOUND + INODE_INDIRECT1_COUNT - 1) / (INODE_INDIRECT1_COUNT as int))
        by (nonlinear_arith)
        requires
            0 <= pos < size,
            pos / (BLOCK_SZ as int) >= INDIRECT1_BOUND,
            BLOCK_SZ == 512,
            INODE_INDIRECT1_COUNT == 128,
            INDIRECT1_BOUND == 156,
    ;
}

/// A directory entry: a name of at most the name bound, padded with zeroes,
/// and the inode it names.
pub struct DirEntry {
    /// The name bytes, zero-padded to the name bound plus one.
    pub name: Vec<u8>,
    /// The inode the entry points at.
    pub inode_number: u32,
}

impl DirEntry {
    /// The padded name spans the fixed width.
    pub open spec fn wf(&self) -> bool {
        self.name@.len() == NAME_LENGTH_LIMIT + 1
    }

    /// Build an entry: the name is copied and zero-padded.
    pub fn new(name: &Vec<u8>, inode_number: u32) -> (r: DirEntry)
        requires
            name@.len() <= NAME_LENGTH_LIMIT,
        ensures
            r.wf(),
            r.inode_number == inode_number,
            forall|i: int| 0 <= i < name@.len() ==> r.name@[i] == name@[i],
            forall|i: int| name@.len() <= i < NAME_LENGTH_LIMIT + 1 ==> r.name@[i] == 0,
    {
        let mut bytes: Vec<u8> = Vec::new();
        let mut i: usize = 0;
        while i < name.len()
            invariant
                i <= name@.len(),
                name@.len() <= NAME_LENGTH_LIMIT,
                bytes@.len() == i,
                forall|j: int| 0 <= j < i ==> bytes@[j] == name@[j],
            decreases name@.len() - i,
        {
            bytes.push(name[i]);
            i = i + 1;
        }
        while i < NAME_LENGTH_LIMIT + 1
            invariant
                name@.len() <= i <= NAME_LENGTH_LIMIT + 1,
                bytes@.len() == i,
                forall|j: int| 0 <= j < name@.len() ==> bytes@[j] == name@[j],
                forall|j: int| name@.len() <= j < i ==> bytes@[j] == 0,
            decreases NAME_LENGTH_LIMIT + 1 - i,
        {
            bytes.push(0);
            i = i + 1;
        }
        DirEntry { name: bytes, inode_number }
    }

    /// The name: the bytes before the first zero.
    pub fn name(&self) -> (r: Vec<u8>)
        requires
            self.wf(),
        ensures
            r@.len() <= NAME_LENGTH_LIMIT + 1,
            forall|i: int| 0 <= i < r@.len() ==> r@[i] == self.name@[i] && r@[i] != 0,
            r@.len() < NAME_LENGTH_LIMIT + 1 ==> self.name@[r@.len() as int] == 0,
    {
        let mut out: Vec<u8> = Vec::new();
        let mut i: usize = 0;
        while i < NAME_LENGTH_LIMIT + 1
            invariant
                i <= NAME_LENGTH_LIMIT + 1,
                self.wf(),
                out@.len() == i,
                forall|j: int| 0 <= j < i ==> out@[j] == self.name@[j] && out@[j] != 0,
            decreases NAME_LENGTH_LIMIT + 1 - i,
        {
            let b = self.name[i];
            if b == 0 {
                return out;
            }
            out.push(b);
            i = i + 1;
        }
        out
    }

    /// The inode the entry points at.
    pub fn inode_number(&self) -> (r: u32)
        ensures
            r == self.inode_number,
    {
        self.inode_number
    }
}

} // verus!
