//! The open call, file status, and the doubly indirect index: creating,
//! truncating and reopening files, link counts through fstat, and growth
//! past the single indirect block.

use rcoreos::block_dev::BlockDevice;
use rcoreos::efs::EasyFileSystem;
use rcoreos::inode::{fstat, open_file, HardLinkMap, CREATE, RDONLY, STAT_MODE_FILE, WRONLY};
use rcoreos::layout::{DiskInode, DiskInodeType};

#[test]
fn create_then_reopen_shares_the_inode() {
    let mut dev = BlockDevice::new(1100);
    let fs = EasyFileSystem::create(&mut dev, 1100, 1).expect("format");
    let mut map = HardLinkMap::new();
    let path = b"filea".to_vec();
    let f = open_file(&mut map, &fs, &mut dev, &path, CREATE | WRONLY).expect("create");
    assert!(f.writable);
    assert!(!f.readable);
    assert_eq!(f.offset, 0);
    let g = open_file(&mut map, &fs, &mut dev, &path, RDONLY).expect("reopen");
    assert!(g.readable);
    assert!(!g.writable);
    assert_eq!(g.inode_id, f.inode_id);
    assert_eq!(g.group, f.group);
}

#[test]
fn open_without_create_refuses_an_unknown_path() {
    let mut dev = BlockDevice::new(1100);
    let fs = EasyFileSystem::create(&mut dev, 1100, 1).expect("format");
    let mut map = HardLinkMap::new();
    let path = b"missing".to_vec();
    assert!(open_file(&mut map, &fs, &mut dev, &path, RDONLY).is_none());
    assert!(open_file(&mut map, &fs, &mut dev, &path, WRONLY).is_none());
}

#[test]
fn create_on_an_existing_path_truncates_its_inode() {
    let mut dev = BlockDevice::new(1100);
    let fs = EasyFileSystem::create(&mut dev, 1100, 1).expect("format");
    let mut map = HardLinkMap::new();
    let path = b"fileb".to_vec();
    let f = open_file(&mut map, &fs, &mut dev, &path, CREATE).expect("create");
    // scribble a nonzero size into the inode slot, as a write would
    let (block, offset) = fs.get_disk_inode_pos(f.inode_id);
    dev.write_u32(block as usize, offset, 1234);
    let g = open_file(&mut map, &fs, &mut dev, &path, CREATE).expect("recreate");
    assert_eq!(g.inode_id, f.inode_id);
    assert_eq!(dev.read_u32(block as usize, offset), 0);
}

#[test]
fn fstat_counts_links_through_the_shared_group() {
    let mut dev = BlockDevice::new(1100);
    let fs = EasyFileSystem::create(&mut dev, 1100, 1).expect("format");
    let mut map = HardLinkMap::new();
    let patha = b"origin".to_vec();
    let pathb = b"alias".to_vec();
    let f = open_file(&mut map, &fs, &mut dev, &patha, CREATE).expect("create");
    let st = fstat(&f, &map, &fs, &dev);
    assert_eq!(st.nlink, 1);
    assert_eq!(st.mode, STAT_MODE_FILE);
    assert_eq!(st.ino, f.inode_id as u64);
    assert_eq!(map.link(&patha, &pathb), 0);
    let g = open_file(&mut map, &fs, &mut dev, &pathb, RDONLY).expect("alias opens");
    assert_eq!(g.inode_id, f.inode_id);
    let st2 = fstat(&g, &map, &fs, &dev);
    assert_eq!(st2.nlink, 2);
    // dropping the alias brings the count back and keeps the origin
    assert_eq!(map.unlink(&pathb), 0);
    let st3 = fstat(&f, &map, &fs, &dev);
    assert_eq!(st3.nlink, 1);
    assert!(open_file(&mut map, &fs, &mut dev, &pathb, RDONLY).is_none());
    assert!(open_file(&mut map, &fs, &mut dev, &patha, RDONLY).is_some());
}

#[test]
fn growth_crosses_into_the_doubly_indirect_tree() {
    let mut dev = BlockDevice::new(1000);
    let mut ino = DiskInode {
        size: 0,
        direct: Vec::new(),
        indirect1: 0,
        indirect2: 0,
        type_: DiskInodeType::File,
    };
    ino.initialize(DiskInodeType::File);
    // 200 data blocks: direct, the single indirect block, the top of the
    // doubly indirect tree and one row
    let new_size: u32 = 200 * 512;
    let need = DiskInode::total_blocks(new_size) - DiskInode::total_blocks(0);
    assert_eq!(need, 203);
    let fresh: Vec<u32> = (300..300 + need).collect();
    ino.increase_size(new_size, fresh, &mut dev);
    assert_eq!(ino.size, new_size);
    // the hand-out is consumed in order: direct slots first
    assert_eq!(ino.get_block_id(0, &dev), 300);
    assert_eq!(ino.get_block_id(27, &dev), 327);
    // one id for the single indirect block, then its entries
    assert_eq!(ino.indirect1, 328);
    assert_eq!(ino.get_block_id(28, &dev), 329);
    assert_eq!(ino.get_block_id(155, &dev), 456);
    // one id for the top, one for the first row, then the row's entries
    assert_eq!(ino.indirect2, 457);
    assert_eq!(ino.get_block_id(156, &dev), 459);
    assert_eq!(ino.get_block_id(157, &dev), 460);
    assert_eq!(ino.get_block_id(199, &dev), 502);
}

#[test]
fn write_at_lays_the_bytes_on_the_data_blocks() {
    let mut dev = BlockDevice::new(600);
    let mut ino = DiskInode {
        size: 0,
        direct: Vec::new(),
        indirect1: 0,
        indirect2: 0,
        type_: DiskInodeType::File,
    };
    ino.initialize(DiskInodeType::File);
    let new_size: u32 = 2 * 512;
    let need = DiskInode::total_blocks(new_size);
    let fresh: Vec<u32> = (100..100 + need).collect();
    ino.increase_size(new_size, fresh, &mut dev);
    let payload: Vec<u8> = (0..200u16).map(|i| (i % 251) as u8).collect();
    assert_eq!(ino.write_at(400, &payload, &mut dev), 200);
    // the first block holds the head of the payload, the second the tail
    let b0 = ino.get_block_id(0, &dev) as usize;
    let b1 = ino.get_block_id(1, &dev) as usize;
    assert_eq!(dev.read_byte(b0, 400), 0);
    assert_eq!(dev.read_byte(b0, 511), 111);
    assert_eq!(dev.read_byte(b1, 0), 112);
    assert_eq!(dev.read_byte(b1, 87), 199);
    // a byte before the write is untouched
    assert_eq!(dev.read_byte(b0, 399), 0);
}
