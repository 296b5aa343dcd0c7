//! Image parsing and user-space construction from a hand-built executable.

use rcoreos::addr::PhysPageNum;
use rcoreos::config::{PAGE_SIZE, TRAP_CONTEXT};
use rcoreos::elf::parse_elf;
use rcoreos::frame_allocator::{PhysMem, StackFrameAllocator};
use rcoreos::memory_set::{MemorySet, MAP_R, MAP_U};

fn put_le(buf: &mut [u8], off: usize, v: u64, n: usize) {
    for i in 0..n {
        buf[off + i] = ((v >> (8 * i)) & 0xff) as u8;
    }
}

/// A minimal 64-bit little-endian executable: one loadable segment of eight
/// payload bytes at `0x10000`, zero-extended to sixteen.
fn tiny_elf() -> Vec<u8> {
    let mut b = vec![0u8; 128];
    b[0] = 0x7f;
    b[1] = 0x45;
    b[2] = 0x4c;
    b[3] = 0x46;
    put_le(&mut b, 24, 0x10000, 8); // entry point
    put_le(&mut b, 32, 64, 8); // program-header table offset
    put_le(&mut b, 54, 56, 2); // program-header entry size
    put_le(&mut b, 56, 1, 2); // program-header count
    // the one program header
    put_le(&mut b, 64, 1, 4); // loadable
    put_le(&mut b, 68, 5, 4); // readable, executable
    put_le(&mut b, 72, 120, 8); // payload offset
    put_le(&mut b, 80, 0x10000, 8); // virtual address
    put_le(&mut b, 96, 8, 8); // bytes in the image
    put_le(&mut b, 104, 16, 8); // bytes in memory
    for i in 0..8 {
        b[120 + i] = 0x40 + i as u8;
    }
    b
}

#[test]
fn parser_reads_entry_and_segments() {
    let data = tiny_elf();
    let img = parse_elf(&data).unwrap();
    assert_eq!(img.entry, 0x10000);
    assert_eq!(img.segments.len(), 1);
    let s = &img.segments[0];
    assert_eq!(s.vaddr, 0x10000);
    assert_eq!(s.offset, 120);
    assert_eq!(s.filesz, 8);
    assert_eq!(s.memsz, 16);
    assert_eq!(s.flags, 5);
}

#[test]
fn parser_rejects_a_bad_magic() {
    let mut data = tiny_elf();
    data[1] = 0x00;
    assert!(parse_elf(&data).is_none());
    assert!(parse_elf(&vec![0u8; 10]).is_none());
}

#[test]
fn user_space_builds_from_the_image() {
    let data = tiny_elf();
    let mut mem = PhysMem::new(0, 256);
    let mut alloc = StackFrameAllocator::new();
    alloc.init(PhysPageNum(1), PhysPageNum(256));
    let (ms, user_sp, entry) =
        MemorySet::from_elf(&data, PhysPageNum(0x2000), &mut alloc, &mut mem).unwrap();
    assert_eq!(entry, 0x10000);
    // one guard page past the segment, then one page of stack
    assert_eq!(user_sp, 0x13000);
    assert_eq!(user_sp % PAGE_SIZE, 0);
    // the payload landed at the segment's base, zero-extended
    for i in 0..8usize {
        assert_eq!(
            ms.read_user_byte(&mem, 0x10000 + i, MAP_R | MAP_U, &alloc),
            Some(0x40 + i as u8)
        );
    }
    assert_eq!(ms.read_user_byte(&mem, 0x10008, MAP_R | MAP_U, &alloc), Some(0));
    // the trap-context page is mapped just below the trampoline
    match ms.translate(rcoreos::addr::VirtAddr(TRAP_CONTEXT).floor()) {
        Some(e) => assert!(e.is_valid()),
        None => panic!("trap context page missing"),
    }
}

#[test]
fn unaligned_segments_are_refused() {
    let mut data = tiny_elf();
    put_le(&mut data, 80, 0x10001, 8);
    let mut mem = PhysMem::new(0, 256);
    let mut alloc = StackFrameAllocator::new();
    alloc.init(PhysPageNum(1), PhysPageNum(256));
    assert!(MemorySet::from_elf(&data, PhysPageNum(0x2000), &mut alloc, &mut mem).is_none());
}
