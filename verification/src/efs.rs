//! The file-system façade: lay the regions out on a device, keep the two
//! bitmaps, and hand out inodes and data blocks.

use vstd::prelude::*;
use crate::bitmap::{spec_bit, Bitmap, BLOCK_BITS};
use crate::block_dev::{BlockDevice, BLOCK_SZ};
use crate::elf::spec_le32;
use crate::layout::{DiskInode, DiskInodeType, EFS_MAGIC};

verus! {

/// Bytes per stored inode.
pub const DISK_INODE_SIZE: usize = 128;

/// Stored inodes per block.
pub const INODES_PER_BLOCK: usize = 4;

/// The mounted file system: the two bitmaps and where the inode and data
/// areas start.
pub struct EasyFileSystem {
    /// Bits for the inode area.
    pub inode_bitmap: Bitmap,
    /// Bits for the data area.
    pub data_bitmap: Bitmap,
    /// First block of the inode area.
    pub inode_area_start_block: u32,
    /// First block of the data area.
    pub data_area_start_block: u32,
}

impl EasyFileSystem {
    /// The bitmaps lie on the device and the areas follow them.
    pub open spec fn wf(&self, dev: BlockDevice) -> bool {
        &&& self.inode_bitmap.wf(dev)
        &&& self.data_bitmap.wf(dev)
        &&& self.data_area_start_block < dev.blocks@.len()
    }

    /// Format a device: compute the four regions from the wanted inode
    /// bitmap length, zero every block, write the super block, and take
    /// inode zero for the root directory. None when the device is too small
    /// for the layout.
    pub fn create(block_device: &mut BlockDevice, total_blocks: u32, inode_bitmap_blocks: u32) -> (r:
        Option<EasyFileSystem>)
        requires
            old(block_device).wf(),
            total_blocks as int <= old(block_device).blocks@.len(),
        ensures
            final(block_device).wf(),
            final(block_device).blocks@.len() == old(block_device).blocks@.len(),
            r matches Some(fs) ==> fs.wf(*final(block_device)),
            // a sane request is owed a formatted file system
            (1 <= inode_bitmap_blocks && inode_bitmap_blocks <= 1024 && total_blocks <= 0x100000
                && total_blocks as int >= 1025 * inode_bitmap_blocks + 3) ==> r is Some,
            // block zero then carries the magic and the region lengths
            r is Some ==> ({
                &&& spec_le32(final(block_device).block(0), 0) == EFS_MAGIC
                &&& spec_le32(final(block_device).block(0), 4) == total_blocks
                &&& spec_le32(final(block_device).block(0), 8) == inode_bitmap_blocks
                &&& spec_le32(final(block_device).block(0), 12) == 1024 * inode_bitmap_blocks
                &&& spec_le32(final(block_device).block(0), 16) == (total_blocks - 1 - 1025
                    * inode_bitmap_blocks + 4096) / 4097
                &&& spec_le32(final(block_device).block(0), 20) == (total_blocks - 1 - 1025
                    * inode_bitmap_blocks) - (total_blocks - 1 - 1025 * inode_bitmap_blocks + 4096)
                    / 4097
            }),
            // the regions follow the two bitmaps in order
            r matches Some(fs) ==> ({
                &&& fs.inode_bitmap.start_block_id == 1
                &&& fs.inode_bitmap.blocks == inode_bitmap_blocks
                &&& fs.inode_area_start_block == 1 + inode_bitmap_blocks
                &&& fs.data_bitmap.start_block_id == 1 + 1025 * inode_bitmap_blocks
                &&& fs.data_area_start_block == 1 + 1025 * inode_bitmap_blocks + (total_blocks - 1
                    - 1025 * inode_bitmap_blocks + 4096) / 4097
            }),
            // the data area starts zeroed
            r matches Some(fs) ==> forall|b: int, o: int|
                fs.data_area_start_block <= b < total_blocks && 0 <= o < BLOCK_SZ
                    ==> #[trigger] final(block_device).block(b)[o] == 0,
            // and inode zero is a directory of size zero
            r is Some ==> spec_le32(
                final(block_device).block(1 + inode_bitmap_blocks),
                124,
            ) == 1 && spec_le32(final(block_device).block(1 + inode_bitmap_blocks), 0) == 0,
    {
        if inode_bitmap_blocks == 0 || total_blocks == 0 {
            return None;
        }
        if inode_bitmap_blocks as u64 > 1024 || total_blocks as u64 > 0x100000 {
            return None;
        }
        proof {
            let ghost ib = inode_bitmap_blocks as u64;
            assert(ib <= 1024 ==> ib * 4096 <= 0x400000 && ib * 4096 * 128 <= 0x20000000)
                by (nonlinear_arith);
        }
        let inode_num: u64 = inode_bitmap_blocks as u64 * BLOCK_BITS as u64;
        proof {
            let ghost inm = inode_num;
            assert(inm <= 0x400000 ==> inm * 128 <= 0x20000000) by (nonlinear_arith);
        }
        let inode_area_blocks: u64 = (inode_num * DISK_INODE_SIZE as u64 + BLOCK_SZ as u64 - 1)
            / BLOCK_SZ as u64;
        proof {
            let ghost ib = inode_bitmap_blocks as int;
            assert(inode_num == ib * 4096 && inode_area_blocks == 1024 * ib) by (nonlinear_arith)
                requires
                    1 <= ib <= 1024,
                    inode_num == ib * (BLOCK_BITS as int),
                    inode_area_blocks == (inode_num * (DISK_INODE_SIZE as int) + BLOCK_SZ - 1) / (
                    BLOCK_SZ as int),
                    BLOCK_BITS == 4096,
                    DISK_INODE_SIZE == 128,
                    BLOCK_SZ == 512,
            ;
        }
        let inode_total: u64 = inode_bitmap_blocks as u64 + inode_area_blocks;
        if total_blocks as u64 <= 1 + inode_total {
            return None;
        }
        let data_total: u64 = total_blocks as u64 - 1 - inode_total;
        let data_bitmap_blocks: u64 = (data_total + 4096) / 4097;
        let data_area_blocks: u64 = data_total - data_bitmap_blocks;
        proof {
            let ghost dt = data_total as int;
            assert(1 <= (dt + 4096) / 4097 && (dt >= 2 ==> (dt + 4096) / 4097 <= dt - 1))
                by (nonlinear_arith)
                requires
                    dt >= 1,
            ;
        }
        if data_area_blocks == 0 {
            return None;
        }
        let inode_bitmap = Bitmap::new(1, inode_bitmap_blocks as usize);
        let data_bitmap = Bitmap::new(
            (1 + inode_total) as usize,
            data_bitmap_blocks as usize,
        );
        let fs = EasyFileSystem {
            inode_bitmap,
            data_bitmap,
            inode_area_start_block: (1 + inode_bitmap_blocks as u64) as u32,
            data_area_start_block: (1 + inode_total + data_bitmap_blocks) as u32,
        };
        // zero every block the file system spans
        let mut i: usize = 0;
        while i < total_blocks as usize
            invariant
                i <= total_blocks,
                block_device.wf(),
                block_device.blocks@.len() == old(block_device).blocks@.len(),
                total_blocks as int <= old(block_device).blocks@.len(),
                forall|b: int, o: int|
                    0 <= b < i && 0 <= o < BLOCK_SZ ==> #[trigger] block_device.block(b)[o] == 0,
            decreases total_blocks as int - i,
        {
            block_device.clear_block(i);
            i = i + 1;
        }
        // the super block sits in block zero
        let ghost s0 = *block_device;
        block_device.write_u32(0, 0, EFS_MAGIC);
        let ghost s1 = *block_device;
        block_device.write_u32(0, 4, total_blocks);
        let ghost s2 = *block_device;
        block_device.write_u32(0, 8, inode_bitmap_blocks);
        let ghost s3 = *block_device;
        block_device.write_u32(0, 12, inode_area_blocks as u32);
        let ghost s4 = *block_device;
        block_device.write_u32(0, 16, data_bitmap_blocks as u32);
        let ghost s5 = *block_device;
        block_device.write_u32(0, 20, data_area_blocks as u32);
        proof {
            // each super-block word survives the writes after it
            crate::layout::lemma_le32_untouched(s1.block(0), s2.block(0), 4, 0);
            crate::layout::lemma_le32_untouched(s2.block(0), s3.block(0), 8, 0);
            crate::layout::lemma_le32_untouched(s3.block(0), s4.block(0), 12, 0);
            crate::layout::lemma_le32_untouched(s4.block(0), s5.block(0), 16, 0);
            crate::layout::lemma_le32_untouched(s5.block(0), block_device.block(0), 20, 0);
            crate::layout::lemma_le32_untouched(s2.block(0), s3.block(0), 8, 4);
            crate::layout::lemma_le32_untouched(s3.block(0), s4.block(0), 12, 4);
            crate::layout::lemma_le32_untouched(s4.block(0), s5.block(0), 16, 4);
            crate::layout::lemma_le32_untouched(s5.block(0), block_device.block(0), 20, 4);
            crate::layout::lemma_le32_untouched(s3.block(0), s4.block(0), 12, 8);
            crate::layout::lemma_le32_untouched(s4.block(0), s5.block(0), 16, 8);
            crate::layout::lemma_le32_untouched(s5.block(0), block_device.block(0), 20, 8);
            crate::layout::lemma_le32_untouched(s4.block(0), s5.block(0), 16, 12);
            crate::layout::lemma_le32_untouched(s5.block(0), block_device.block(0), 20, 12);
            crate::layout::lemma_le32_untouched(s5.block(0), block_device.block(0), 20, 16);
            assert(spec_le32(block_device.block(0), 0) == EFS_MAGIC);
            assert(spec_le32(block_device.block(0), 4) == total_blocks);
            assert(spec_le32(block_device.block(0), 8) == inode_bitmap_blocks);
            assert(spec_le32(block_device.block(0), 12) == inode_area_blocks);
            assert(spec_le32(block_device.block(0), 16) == data_bitmap_blocks);
            assert(spec_le32(block_device.block(0), 20) == data_area_blocks);
        }
        // inode zero becomes the root directory
        let dlen = block_device.blocks.len();
        proof {
            assert(fs.inode_bitmap.blocks * BLOCK_BITS <= usize::MAX) by (nonlinear_arith)
                requires
                    fs.inode_bitmap.blocks <= 1024,
                    BLOCK_BITS == 4096,
                    usize::MAX >= 0xffffffff,
            ;
            assert(0 < fs.inode_bitmap.blocks * BLOCK_BITS) by (nonlinear_arith)
                requires
                    1 <= fs.inode_bitmap.blocks,
                    BLOCK_BITS == 4096,
            ;
        }
        let ghost deva = *block_device;
        proof {
            // bit zero of the freshly zeroed inode bitmap is free
            assert(deva.block(1)[0] == 0);
            assert((0u8 >> 0u8) & 1u8 == 0u8) by (bit_vector);
            assert(!spec_bit(deva, fs.inode_bitmap.start_block_id as int, 0));
        }
        let root = fs.alloc_inode(block_device);
        match root {
            Some(0) => (),
            Some(_b) => {
                proof {
                    assert(spec_bit(deva, fs.inode_bitmap.start_block_id as int, 0));
                    assert(false);
                }
                return None;
            },
            None => {
                proof {
                    assert(spec_bit(deva, fs.inode_bitmap.start_block_id as int, 0));
                    assert(false);
                }
                return None;
            },
        }
        let mut root_inode = DiskInode {
            size: 0,
            direct: Vec::new(),
            indirect1: 0,
            indirect2: 0,
            type_: DiskInodeType::File,
        };
        root_inode.initialize(DiskInodeType::Directory);
        let (root_block, root_offset) = fs.get_disk_inode_pos(0);
        if (root_block as usize) < block_device.blocks.len() {
            write_disk_inode(block_device, root_block as usize, root_offset, &root_inode);
        }
        proof {
            assert(root_block == 1 + inode_bitmap_blocks);
            assert(1 + inode_bitmap_blocks < fs.data_area_start_block);
            // the data area kept its zeroes through the super block, the
            // bitmap bit and the root inode
            assert forall|b: int, o: int|
                fs.data_area_start_block <= b < total_blocks && 0 <= o
                    < BLOCK_SZ implies #[trigger] block_device.block(b)[o] == 0 by {
                assert(block_device.block(b) == s0.block(b));
                assert(s0.block(b)[o] == 0);
            }
            // block zero kept the super words
            assert(block_device.block(0) == deva.block(0));
            assert(spec_le32(block_device.block(0), 0) == EFS_MAGIC);
        }
        Some(fs)
    }

    /// Mount a formatted device: read the super block, check the magic, and
    /// rebuild the bitmaps and area offsets from the recorded lengths.
    pub fn open(block_device: &BlockDevice) -> (r: Option<EasyFileSystem>)
        requires
            block_device.wf(),
            block_device.blocks@.len() >= 1,
        ensures
            spec_le32(block_device.block(0), 0) != EFS_MAGIC ==> r is None,
            // a good magic with region lengths under the caps mounts
            (spec_le32(block_device.block(0), 0) == EFS_MAGIC && spec_le32(
                block_device.block(0),
                8,
            ) <= 1024 && spec_le32(block_device.block(0), 12) <= 0x100000 && spec_le32(
                block_device.block(0),
                16,
            ) <= 0x100000) ==> r is Some,
            r matches Some(fs) ==> {
                &&& spec_le32(block_device.block(0), 0) == EFS_MAGIC
                &&& fs.inode_bitmap.start_block_id == 1
                &&& fs.inode_bitmap.blocks == spec_le32(block_device.block(0), 8)
                &&& fs.inode_area_start_block == 1 + spec_le32(block_device.block(0), 8)
                &&& fs.data_bitmap.start_block_id == 1 + spec_le32(block_device.block(0), 8)
                    + spec_le32(block_device.block(0), 12)
                &&& fs.data_area_start_block == 1 + spec_le32(block_device.block(0), 8)
                    + spec_le32(block_device.block(0), 12) + spec_le32(block_device.block(0), 16)
            },
    {
        let magic = block_device.read_u32(0, 0);
        if magic != EFS_MAGIC {
            return None;
        }
        let inode_bitmap_blocks = block_device.read_u32(0, 8);
        let inode_area_blocks = block_device.read_u32(0, 12);
        let data_bitmap_blocks = block_device.read_u32(0, 16);
        if inode_bitmap_blocks as u64 > 1024 || inode_area_blocks as u64 > 0x100000
            || data_bitmap_blocks as u64 > 0x100000 {
            return None;
        }
        let inode_total: u64 = inode_bitmap_blocks as u64 + inode_area_blocks as u64;
        Some(
            EasyFileSystem {
                inode_bitmap: Bitmap::new(1, inode_bitmap_blocks as usize),
                data_bitmap: Bitmap::new(
                    (1 + inode_total) as usize,
                    data_bitmap_blocks as usize,
                ),
                inode_area_start_block: (1 + inode_bitmap_blocks as u64) as u32,
                data_area_start_block: (1 + inode_total + data_bitmap_blocks as u64) as u32,
            },
        )
    }

    /// Where inode `inode_id` is stored: its block and the byte offset
    /// inside it, four inodes to a block.
    pub fn get_disk_inode_pos(&self, inode_id: u32) -> (r: (u32, usize))
        requires
            self.inode_area_start_block + inode_id as int / (INODES_PER_BLOCK as int)
                <= u32::MAX,
        ensures
            r.0 == self.inode_area_start_block + inode_id as int / (INODES_PER_BLOCK as int),
            r.1 == (inode_id as int % (INODES_PER_BLOCK as int)) * DISK_INODE_SIZE,
            r.1 + DISK_INODE_SIZE <= BLOCK_SZ,
    {
        let block_id = self.inode_area_start_block + inode_id / INODES_PER_BLOCK as u32;
        let offset = (inode_id as usize % INODES_PER_BLOCK) * DISK_INODE_SIZE;
        (block_id, offset)
    }

    /// The absolute block a data-area index names.
    pub fn get_data_block_id(&self, data_block_id: u32) -> (r: u32)
        requires
            self.data_area_start_block + data_block_id <= u32::MAX,
        ensures
            r == self.data_area_start_block + data_block_id,
    {
        self.data_area_start_block + data_block_id
    }

    /// Take the lowest free inode number.
    pub fn alloc_inode(&self, block_device: &mut BlockDevice) -> (r: Option<u32>)
        requires
            self.inode_bitmap.wf(*old(block_device)),
            self.inode_bitmap.blocks * (BLOCK_BITS as int) <= u32::MAX,
        ensures
            final(block_device).wf(),
            final(block_device).blocks@.len() == old(block_device).blocks@.len(),
            r matches Some(b) ==> b < self.inode_bitmap.blocks * BLOCK_BITS && !spec_bit(
                *old(block_device),
                self.inode_bitmap.start_block_id as int,
                b as int,
            ) && spec_bit(
                *final(block_device),
                self.inode_bitmap.start_block_id as int,
                b as int,
            ),
            // the lowest free number is handed out
            r matches Some(b) ==> forall|c: int|
                0 <= c < b ==> spec_bit(
                    *old(block_device),
                    self.inode_bitmap.start_block_id as int,
                    c,
                ),
            // a refusal means every inode number is taken
            r is None ==> forall|c: int|
                0 <= c < self.inode_bitmap.blocks * BLOCK_BITS ==> spec_bit(
                    *old(block_device),
                    self.inode_bitmap.start_block_id as int,
                    c,
                ),
            r is None ==> final(block_device).blocks@ == old(block_device).blocks@,
            // only the bitmap block holding the bit changes
            r matches Some(b) ==> forall|i: int|
                0 <= i < old(block_device).blocks@.len() && i != self.inode_bitmap.start_block_id
                    + (b as int) / (BLOCK_BITS as int) ==> final(block_device).block(i) == old(
                    block_device,
                ).block(i),
    {
        match self.inode_bitmap.alloc_bit(block_device) {
            Some(bit) => Some(bit as u32),
            None => None,
        }
    }

    /// Take the lowest free data block, returned as an absolute block id.
    pub fn alloc_data(&self, block_device: &mut BlockDevice) -> (r: Option<u32>)
        requires
            self.data_bitmap.wf(*old(block_device)),
            self.data_area_start_block + self.data_bitmap.blocks * (BLOCK_BITS as int)
                <= u32::MAX,
        ensures
            final(block_device).wf(),
            final(block_device).blocks@.len() == old(block_device).blocks@.len(),
            r matches Some(b) ==> b >= self.data_area_start_block && !spec_bit(
                *old(block_device),
                self.data_bitmap.start_block_id as int,
                b - self.data_area_start_block,
            ) && spec_bit(
                *final(block_device),
                self.data_bitmap.start_block_id as int,
                b - self.data_area_start_block,
            ),
            // the lowest free data block is handed out
            r matches Some(b) ==> forall|c: int|
                0 <= c < b - self.data_area_start_block ==> spec_bit(
                    *old(block_device),
                    self.data_bitmap.start_block_id as int,
                    c,
                ),
            // a refusal means every data block is taken
            r is None ==> forall|c: int|
                0 <= c < self.data_bitmap.blocks * BLOCK_BITS ==> spec_bit(
                    *old(block_device),
                    self.data_bitmap.start_block_id as int,
                    c,
                ),
    {
        match self.data_bitmap.alloc_bit(block_device) {
            Some(bit) => Some(bit as u32 + self.data_area_start_block),
            None => None,
        }
    }

    /// Give a data block back: its bytes are zeroed and its bit cleared.
    pub fn dealloc_data(&self, block_device: &mut BlockDevice, block_id: u32)
        requires
            self.data_bitmap.wf(*old(block_device)),
            block_id >= self.data_area_start_block,
            block_id < old(block_device).blocks@.len(),
            block_id - self.data_area_start_block < self.data_bitmap.blocks * (
            BLOCK_BITS as int),
            spec_bit(
                *old(block_device),
                self.data_bitmap.start_block_id as int,
                block_id - self.data_area_start_block,
            ),
            // the bitmap lies strictly before the data area
            self.data_bitmap.start_block_id + self.data_bitmap.blocks
                <= self.data_area_start_block,
        ensures
            final(block_device).wf(),
            final(block_device).blocks@.len() == old(block_device).blocks@.len(),
            !spec_bit(
                *final(block_device),
                self.data_bitmap.start_block_id as int,
                block_id - self.data_area_start_block,
            ),
            forall|j: int| 0 <= j < BLOCK_SZ ==> final(block_device).block(block_id as int)[j] == 0,
    {
        block_device.clear_block(block_id as usize);
        proof {
            let b = block_id - self.data_area_start_block;
            assert(self.data_bitmap.start_block_id + b / (BLOCK_BITS as int)
                < self.data_area_start_block) by (nonlinear_arith)
                requires
                    0 <= b < self.data_bitmap.blocks * (BLOCK_BITS as int),
                    self.data_bitmap.start_block_id + self.data_bitmap.blocks
                        <= self.data_area_start_block,
                    BLOCK_BITS == 4096,
            ;
        }
        self.data_bitmap.dealloc(block_device, (block_id - self.data_area_start_block) as usize);
    }
}

/// Store an inode's fields at its slot as little-endian words: the size,
/// the twenty-eight direct slots, the two indirect blocks, and the kind.
pub fn write_disk_inode(
    block_device: &mut BlockDevice,
    block_id: usize,
    offset: usize,
    inode: &DiskInode,
)
    requires
        old(block_device).wf(),
        block_id < old(block_device).blocks@.len(),
        offset + DISK_INODE_SIZE <= BLOCK_SZ,
        inode.wf(),
    ensures
        final(block_device).wf(),
        final(block_device).blocks@.len() == old(block_device).blocks@.len(),
        spec_le32(final(block_device).block(block_id as int), offset as int) == inode.size,
        spec_le32(final(block_device).block(block_id as int), offset as int + 116)
            == inode.indirect1,
        spec_le32(final(block_device).block(block_id as int), offset as int + 120)
            == inode.indirect2,
        spec_le32(final(block_device).block(block_id as int), offset as int + 124) == (
        if inode.type_ == DiskInodeType::Directory {
            1int
        } else {
            0int
        }),
        // the twenty-eight direct words round-trip too
        forall|k: int|
            0 <= k < 28 ==> spec_le32(
                final(block_device).block(block_id as int),
                offset as int + 4 + k * 4,
            ) == inode.direct@[k],
        forall|i: int|
            0 <= i < old(block_device).blocks@.len() && i != block_id ==> final(block_device).block(i) == old(block_device).block(i),
{
    block_device.write_u32(block_id, offset, inode.size);
    let mut k: usize = 0;
    while k < 28
        invariant
            k <= 28,
            block_device.wf(),
            block_device.blocks@.len() == old(block_device).blocks@.len(),
            block_id < block_device.blocks@.len(),
            offset + DISK_INODE_SIZE <= BLOCK_SZ,
            inode.wf(),
            spec_le32(block_device.block(block_id as int), offset as int) == inode.size,
            forall|j: int|
                0 <= j < k ==> spec_le32(
                    block_device.block(block_id as int),
                    offset as int + 4 + j * 4,
                ) == inode.direct@[j],
            forall|i: int|
                0 <= i < old(block_device).blocks@.len() && i != block_id ==> block_device.block(i)
                    == old(block_device).block(i),
        decreases 28 - k,
    {
        let ghost dev_in = *block_device;
        block_device.write_u32(block_id, offset + 4 + k * 4, inode.direct[k]);
        k = k + 1;
        proof {
            assert forall|j: int| 0 <= j < k implies spec_le32(
                block_device.block(block_id as int),
                offset as int + 4 + j * 4,
            ) == inode.direct@[j] by {
                if j < k - 1 {
                    assert(spec_le32(dev_in.block(block_id as int), offset as int + 4 + j * 4)
                        == inode.direct@[j]);
                    assert(offset + 4 + j * 4 + 4 <= offset + 4 + (k - 1) * 4);
                }
            }
        }
    }
    block_device.write_u32(block_id, offset + 116, inode.indirect1);
    block_device.write_u32(block_id, offset + 120, inode.indirect2);
    let code: u32 = if matches!(inode.type_, DiskInodeType::Directory) {
        1
    } else {
        0
    };
    block_device.write_u32(block_id, offset + 124, code);
}

/// Load an inode from its slot, reversing the stored layout.
pub fn read_disk_inode(block_device: &BlockDevice, block_id: usize, offset: usize) -> (r:
    DiskInode)
    requires
        block_device.wf(),
        block_id < block_device.blocks@.len(),
        offset + DISK_INODE_SIZE <= BLOCK_SZ,
    ensures
        r.wf(),
        r.size == spec_le32(block_device.block(block_id as int), offset as int),
        r.indirect1 == spec_le32(block_device.block(block_id as int), offset as int + 116),
        r.indirect2 == spec_le32(block_device.block(block_id as int), offset as int + 120),
        r.type_ == (if spec_le32(block_device.block(block_id as int), offset as int + 124) == 1 {
            DiskInodeType::Directory
        } else {
            DiskInodeType::File
        }),
        forall|k: int|
            0 <= k < 28 ==> r.direct@[k] == spec_le32(
                block_device.block(block_id as int),
                offset as int + 4 + k * 4,
            ),
{
    let size = block_device.read_u32(block_id, offset);
    let mut direct: Vec<u32> = Vec::new();
    let mut k: usize = 0;
    while k < 28
        invariant
            k <= 28,
            block_device.wf(),
            block_id < block_device.blocks@.len(),
            offset + DISK_INODE_SIZE <= BLOCK_SZ,
            direct@.len() == k,
            forall|j: int|
                0 <= j < k ==> direct@[j] == spec_le32(
                    block_device.block(block_id as int),
                    offset as int + 4 + j * 4,
                ),
        decreases 28 - k,
    {
        direct.push(block_device.read_u32(block_id, offset + 4 + k * 4));
        k = k + 1;
    }
    let indirect1 = block_device.read_u32(block_id, offset + 116);
    let indirect2 = block_device.read_u32(block_id, offset + 120);
    let code = block_device.read_u32(block_id, offset + 124);
    DiskInode {
        size,
        direct,
        indirect1,
        indirect2,
        type_: if code == 1 {
            DiskInodeType::Directory
        } else {
            DiskInodeType::File
        },
    }
}

} // verus!
