//! Memory-subsystem behavior: frame allocation, page-table walks, address
//! spaces, cloning, and the page-mapping calls.

use rcoreos::addr::{PhysPageNum, VirtAddr, VirtPageNum};
use rcoreos::frame_allocator::{frame_alloc, PhysMem, StackFrameAllocator};
use rcoreos::memory_set::{
    map_virtual_pages, unmap_virtual_pages, MapArea, MapType, MemorySet, MAP_R, MAP_U, MAP_W,
};
use rcoreos::page_table::{PageTable, PTE_R, PTE_U, PTE_V, PTE_W, PTE_X};

fn machine(frames: usize) -> (StackFrameAllocator, PhysMem) {
    let mem = PhysMem::new(0, frames);
    let mut alloc = StackFrameAllocator::new();
    alloc.init(PhysPageNum(1), PhysPageNum(frames));
    (alloc, mem)
}

#[test]
fn fresh_frames_read_as_zero() {
    let (mut alloc, mut mem) = machine(64);
    let ppn = frame_alloc(&mut alloc, &mut mem).unwrap();
    for off in [0usize, 1, 17, 4095] {
        assert_eq!(mem.read_byte(ppn, off), 0);
    }
    // dirty the frame, free it, take it again: zero once more
    mem.write_byte(ppn, 5, 0xAB);
    alloc.dealloc(ppn);
    let ppn2 = frame_alloc(&mut alloc, &mut mem).unwrap();
    assert_eq!(ppn2.0, ppn.0);
    assert_eq!(mem.read_byte(ppn2, 5), 0);
}

#[test]
fn allocator_recycles_last_freed_first() {
    let (mut alloc, mut mem) = machine(64);
    let a = frame_alloc(&mut alloc, &mut mem).unwrap();
    let b = frame_alloc(&mut alloc, &mut mem).unwrap();
    assert_ne!(a.0, b.0);
    alloc.dealloc(a);
    alloc.dealloc(b);
    let c = frame_alloc(&mut alloc, &mut mem).unwrap();
    assert_eq!(c.0, b.0);
}

#[test]
fn map_then_translate_returns_leaf_with_flags() {
    let (mut alloc, mut mem) = machine(64);
    let mut pt = PageTable::new(&mut alloc, &mut mem).unwrap();
    let vpn = VirtPageNum(0x10);
    let target = PhysPageNum(42);
    pt.map(vpn, target, PTE_R | PTE_W | PTE_U, &mut alloc, &mut mem);
    let pte = pt.translate(vpn).unwrap();
    assert!(pte.is_valid());
    assert!(pte.readable());
    assert!(pte.writable());
    assert!(pte.user());
    assert_eq!(pte.flags() & (PTE_R | PTE_W | PTE_U | PTE_V), PTE_R | PTE_W | PTE_U | PTE_V);
    assert_eq!(pte.ppn().0, 42);
    // a neighbouring page stays unmapped
    match pt.translate(VirtPageNum(0x11)) {
        Some(e) => assert!(!e.is_valid()),
        None => (),
    }
}

#[test]
fn unmap_clears_the_leaf() {
    let (mut alloc, mut mem) = machine(64);
    let mut pt = PageTable::new(&mut alloc, &mut mem).unwrap();
    let vpn = VirtPageNum(7);
    pt.map(vpn, PhysPageNum(9), PTE_R, &mut alloc, &mut mem);
    assert!(pt.translate(vpn).unwrap().is_valid());
    pt.unmap(vpn);
    assert!(!pt.translate(vpn).unwrap().is_valid());
}

#[test]
fn pushed_region_carries_its_bytes() {
    let (mut alloc, mut mem) = machine(128);
    let mut ms = MemorySet::new_bare(&mut alloc, &mut mem).unwrap();
    let data: Vec<u8> = (0..100u8).collect();
    let area = MapArea::new(
        VirtAddr(0x10000),
        VirtAddr(0x11000),
        MapType::Framed,
        MAP_R | MAP_W | MAP_U,
    );
    ms.push(area, Some(&data), &mut alloc, &mut mem);
    for i in 0..100usize {
        assert_eq!(
            ms.read_user_byte(&mem, 0x10000 + i, MAP_R | MAP_U, &alloc),
            Some(i as u8)
        );
    }
    // past the payload the page reads as zero
    assert_eq!(ms.read_user_byte(&mem, 0x10000 + 100, MAP_R | MAP_U, &alloc), Some(0));
    // no region covers the next page
    assert_eq!(ms.read_user_byte(&mem, 0x11000, MAP_R | MAP_U, &alloc), None);
}

#[test]
fn clone_reads_the_same_bytes_and_writes_do_not_leak_back() {
    let (mut alloc, mut mem) = machine(256);
    let mut ms = MemorySet::new_bare(&mut alloc, &mut mem).unwrap();
    ms.map_trampoline(PhysPageNum(0x1234), &mut alloc, &mut mem);
    let data: Vec<u8> = (0..64u8).map(|x| x.wrapping_mul(3)).collect();
    let area = MapArea::new(
        VirtAddr(0x20000),
        VirtAddr(0x21000),
        MapType::Framed,
        MAP_R | MAP_W | MAP_U,
    );
    ms.push(area, Some(&data), &mut alloc, &mut mem);
    let clone = MemorySet::from_existed_user(&ms, &mut alloc, &mut mem).unwrap();
    for i in 0..64usize {
        let b = ms.read_user_byte(&mem, 0x20000 + i, MAP_R | MAP_U, &alloc);
        let c = clone.read_user_byte(&mem, 0x20000 + i, MAP_R | MAP_U, &alloc);
        assert_eq!(b, c);
        assert_eq!(c, Some((i as u8).wrapping_mul(3)));
    }
    // a write to the clone leaves the source untouched
    assert!(clone.write_user_byte(&mut mem, 0x20000, 0xEE, MAP_W | MAP_U, &alloc));
    assert_eq!(clone.read_user_byte(&mem, 0x20000, MAP_R | MAP_U, &alloc), Some(0xEE));
    assert_eq!(ms.read_user_byte(&mem, 0x20000, MAP_R | MAP_U, &alloc), Some(0));
}

#[test]
fn mmap_munmap_round_trip() {
    let (mut alloc, mut mem) = machine(256);
    let mut ms = MemorySet::new_bare(&mut alloc, &mut mem).unwrap();
    let r = map_virtual_pages(&mut ms, 0x10000000, 0x3000, 0x3, &mut alloc, &mut mem);
    assert_eq!(r, 0x3000);
    // the three pages are readable and writable
    for page in 0..3usize {
        let addr = 0x10000000 + page * 0x1000;
        assert!(ms.write_user_byte(&mut mem, addr, 7, MAP_W | MAP_U, &alloc));
        assert_eq!(ms.read_user_byte(&mem, addr, MAP_R | MAP_U, &alloc), Some(7));
    }
    // mapping the same range again is refused
    assert_eq!(
        map_virtual_pages(&mut ms, 0x10000000, 0x3000, 0x3, &mut alloc, &mut mem),
        -1
    );
    let r = unmap_virtual_pages(&mut ms, 0x10000000, 0x3000, &mut alloc, &mut mem);
    assert_eq!(r, 0x3000);
    // a later access faults: no page of the range translates to a valid leaf
    for page in 0..3usize {
        let addr = 0x10000000 + page * 0x1000;
        assert_eq!(ms.read_user_byte(&mem, addr, MAP_R | MAP_U, &alloc), None);
        match ms.translate(VirtPageNum(addr / 0x1000)) {
            Some(e) => assert!(!e.is_valid()),
            None => (),
        }
    }
}

#[test]
fn mmap_rejects_bad_arguments() {
    let (mut alloc, mut mem) = machine(64);
    let mut ms = MemorySet::new_bare(&mut alloc, &mut mem).unwrap();
    // unaligned address
    assert_eq!(map_virtual_pages(&mut ms, 0x10000001, 0x1000, 0x3, &mut alloc, &mut mem), -1);
    // stray port bits
    assert_eq!(map_virtual_pages(&mut ms, 0x10000000, 0x1000, 0x8, &mut alloc, &mut mem), -1);
    // meaningless empty port
    assert_eq!(map_virtual_pages(&mut ms, 0x10000000, 0x1000, 0x0, &mut alloc, &mut mem), -1);
    // zero length is a no-op
    assert_eq!(map_virtual_pages(&mut ms, 0x10000000, 0, 0x3, &mut alloc, &mut mem), 0);
}
