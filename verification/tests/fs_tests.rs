//! File-system behavior: bitmaps, the block-count formulas, the inode index
//! tree, and the formatted layout.

use rcoreos::bitmap::Bitmap;
use rcoreos::block_dev::BlockDevice;
use rcoreos::efs::{read_disk_inode, write_disk_inode, EasyFileSystem};
use rcoreos::layout::{DirEntry, DiskInode, DiskInodeType};

#[test]
fn bitmap_hands_out_the_lowest_bits_in_order() {
    let mut dev = BlockDevice::new(8);
    let bm = Bitmap::new(2, 2);
    assert_eq!(bm.alloc_bit(&mut dev), Some(0));
    assert_eq!(bm.alloc_bit(&mut dev), Some(1));
    assert_eq!(bm.alloc_bit(&mut dev), Some(2));
    bm.dealloc(&mut dev, 1);
    // the freed bit is the lowest again
    assert_eq!(bm.alloc_bit(&mut dev), Some(1));
    assert_eq!(bm.alloc_bit(&mut dev), Some(3));
}

#[test]
fn bitmap_crosses_byte_and_block_boundaries() {
    let mut dev = BlockDevice::new(4);
    let bm = Bitmap::new(0, 1);
    for expected in 0..20usize {
        assert_eq!(bm.alloc_bit(&mut dev), Some(expected));
    }
    bm.dealloc(&mut dev, 7);
    bm.dealloc(&mut dev, 13);
    assert_eq!(bm.alloc_bit(&mut dev), Some(7));
    assert_eq!(bm.alloc_bit(&mut dev), Some(13));
    assert_eq!(bm.alloc_bit(&mut dev), Some(20));
}

#[test]
fn total_blocks_matches_the_layout_formulas() {
    // one direct block
    assert_eq!(DiskInode::total_blocks(1), 1);
    assert_eq!(DiskInode::total_blocks(512), 1);
    // exactly the direct bound
    assert_eq!(DiskInode::total_blocks(28 * 512), 28);
    // one past it brings the single indirect block
    assert_eq!(DiskInode::total_blocks(28 * 512 + 1), 29 + 1);
    // the single indirect range tops out at 156 data blocks
    assert_eq!(DiskInode::total_blocks(156 * 512), 156 + 1);
    // one more brings the doubly indirect block and its first row
    assert_eq!(DiskInode::total_blocks(156 * 512 + 1), 157 + 1 + 1 + 1);
    // two full rows
    assert_eq!(
        DiskInode::total_blocks((156 + 256) * 512),
        156 + 256 + 1 + 1 + 2
    );
}

#[test]
fn clear_frees_exactly_the_total_block_count() {
    let mut dev = BlockDevice::new(600);
    let mut ino = DiskInode {
        size: 0,
        direct: Vec::new(),
        indirect1: 0,
        indirect2: 0,
        type_: DiskInodeType::File,
    };
    ino.initialize(DiskInodeType::File);
    // grow to 40 data blocks: 40 + 1 indirect block
    let new_size: u32 = 40 * 512;
    let needed = ino.blocks_num_needed(new_size);
    assert_eq!(needed, 41);
    let fresh: Vec<u32> = (100..100 + needed).collect();
    ino.increase_size(new_size, fresh, &mut dev);
    assert_eq!(ino.size, new_size);
    let freed = ino.clear_size(&mut dev);
    assert_eq!(freed.len() as u32, DiskInode::total_blocks(new_size));
    assert_eq!(ino.size, 0);
    assert_eq!(ino.indirect1, 0);
    assert_eq!(ino.indirect2, 0);
}

#[test]
fn index_tree_places_blocks_in_order() {
    let mut dev = BlockDevice::new(600);
    let mut ino = DiskInode {
        size: 0,
        direct: Vec::new(),
        indirect1: 0,
        indirect2: 0,
        type_: DiskInodeType::File,
    };
    ino.initialize(DiskInodeType::File);
    let new_size: u32 = 30 * 512;
    let needed = ino.blocks_num_needed(new_size);
    // 30 data blocks plus the indirect block
    assert_eq!(needed, 31);
    let fresh: Vec<u32> = (200..200 + needed).collect();
    ino.increase_size(new_size, fresh, &mut dev);
    // direct slots first
    for i in 0..28u32 {
        assert_eq!(ino.get_block_id(i, &dev), 200 + i);
    }
    // then the indirect block itself, then its entries
    assert_eq!(ino.indirect1, 228);
    assert_eq!(ino.get_block_id(28, &dev), 229);
    assert_eq!(ino.get_block_id(29, &dev), 230);
}

#[test]
fn write_then_read_round_trips_through_the_tree() {
    let mut dev = BlockDevice::new(600);
    let mut ino = DiskInode {
        size: 0,
        direct: Vec::new(),
        indirect1: 0,
        indirect2: 0,
        type_: DiskInodeType::File,
    };
    ino.initialize(DiskInodeType::File);
    let new_size: u32 = 3 * 512;
    let needed = ino.blocks_num_needed(new_size);
    let fresh: Vec<u32> = (50..50 + needed).collect();
    ino.increase_size(new_size, fresh, &mut dev);
    let payload: Vec<u8> = (0..200u8).map(|x| x.wrapping_mul(7)).collect();
    // straddle a block boundary on purpose
    assert_eq!(ino.write_at(400, &payload, &mut dev), 200);
    let back = ino.read_at(400, 200, &dev);
    assert_eq!(back, payload);
    // reads clamp at the content's end
    let tail = ino.read_at(3 * 512 - 10, 100, &dev);
    assert_eq!(tail.len(), 10);
    assert_eq!(ino.read_at(3 * 512, 5, &dev).len(), 0);
}

#[test]
fn create_then_open_round_trips_the_layout() {
    let mut dev = BlockDevice::new(2048);
    let fs = EasyFileSystem::create(&mut dev, 2048, 1).unwrap();
    let reopened = EasyFileSystem::open(&dev).unwrap();
    assert_eq!(
        reopened.inode_area_start_block,
        fs.inode_area_start_block
    );
    assert_eq!(reopened.data_area_start_block, fs.data_area_start_block);
    // the root inode sits first in the inode area, as a directory
    let (block, offset) = fs.get_disk_inode_pos(0);
    let root = read_disk_inode(&dev, block as usize, offset);
    assert!(matches!(root.type_, DiskInodeType::Directory));
    assert_eq!(root.size, 0);
    // a device without the magic refuses to mount
    let blank = BlockDevice::new(4);
    assert!(EasyFileSystem::open(&blank).is_none());
}

#[test]
fn data_allocation_tracks_the_bitmap() {
    let mut dev = BlockDevice::new(2048);
    let fs = EasyFileSystem::create(&mut dev, 2048, 1).unwrap();
    let a = fs.alloc_data(&mut dev).unwrap();
    let b = fs.alloc_data(&mut dev).unwrap();
    assert_eq!(a, fs.data_area_start_block);
    assert_eq!(b, a + 1);
    // freeing zeroes the block and makes it the next grant again
    dev.write_byte(a as usize, 0, 0x77);
    fs.dealloc_data(&mut dev, a);
    assert_eq!(dev.read_byte(a as usize, 0), 0);
    assert_eq!(fs.alloc_data(&mut dev).unwrap(), a);
}

#[test]
fn inode_slots_round_trip_their_fields() {
    let mut dev = BlockDevice::new(16);
    let mut ino = DiskInode {
        size: 0,
        direct: Vec::new(),
        indirect1: 0,
        indirect2: 0,
        type_: DiskInodeType::File,
    };
    ino.initialize(DiskInodeType::Directory);
    ino.size = 12345;
    ino.direct[3] = 77;
    ino.indirect1 = 9;
    ino.indirect2 = 11;
    write_disk_inode(&mut dev, 2, 128, &ino);
    let back = read_disk_inode(&dev, 2, 128);
    assert_eq!(back.size, 12345);
    assert_eq!(back.direct[3], 77);
    assert_eq!(back.indirect1, 9);
    assert_eq!(back.indirect2, 11);
    assert!(matches!(back.type_, DiskInodeType::Directory));
}

#[test]
fn dir_entries_keep_name_and_inode() {
    let entry = DirEntry::new(&b"hello".to_vec(), 42);
    assert_eq!(entry.name(), b"hello".to_vec());
    assert_eq!(entry.inode_number(), 42);
    let empty = DirEntry::new(&Vec::new(), 7);
    assert_eq!(empty.name(), Vec::<u8>::new());
    assert_eq!(empty.inode_number(), 7);
}
