//! Address spaces: a page table plus a list of mapped regions. A region
//! covers a half-open range of virtual pages, mapped either identically
//! (frame number equals page number) or onto freshly allocated frames that
//! the region owns.

use vstd::prelude::*;
use crate::addr::{PhysPageNum, VirtAddr, VirtPageNum, VPNRange, SimpleRange, vpn_key};
use crate::config::{PAGE_SIZE, TRAMPOLINE, TRAP_CONTEXT, USER_STACK_SIZE};
use crate::frame_allocator::{PhysMem, StackFrameAllocator, frame_alloc, zero_page};
use crate::page_table::{
    PageTable, PageTableEntry, PTE_R, PTE_V, PTE_X, PPN_MASK, spec_pte_new, spec_pte_ppn,
};

verus! {

/// How a region maps its pages.
#[derive(Copy, Clone, PartialEq, Eq, Structural, Debug)]
pub enum MapType {
    /// The frame number equals the virtual page number.
    Identical,
    /// Each page owns a freshly allocated frame.
    Framed,
}

/// Region permission: readable.
pub const MAP_R: u8 = 2;
/// Region permission: writable.
pub const MAP_W: u8 = 4;
/// Region permission: executable.
pub const MAP_X: u8 = 8;
/// Region permission: accessible from user mode.
pub const MAP_U: u8 = 16;

/// A contiguous range of virtual pages mapped one way with one permission
/// set. A `Framed` region owns the mapping from each page to its frame.
pub struct MapArea {
    /// The pages the region covers.
    pub vpn_range: VPNRange,
    /// For `Framed` regions: the owned (page, frame) pairs, one per page in
    /// order.
    pub data_frames: Vec<(usize, usize)>,
    /// How the region maps.
    pub map_type: MapType,
    /// Permission bits of every page of the region.
    pub map_perm: u8,
}

/// Distinct pages of one region walk to distinct leaf slots as long as the
/// region spans less than the 27 index bits.
pub proof fn lemma_range_keys_distinct(a: usize, b: usize)
    requires
        a < b,
        b - a < 0x8000000,
    ensures
        vpn_key(a as nat) != vpn_key(b as nat),
{
    assert(a % 0x8000000 != b % 0x8000000) by (bit_vector)
        requires
            a < b && b - a < 0x8000000,
    ;
}

impl MapArea {
    /// Build an unmapped region from an address range: the start is rounded
    /// down, the end up.
    pub fn new(start_va: VirtAddr, end_va: VirtAddr, map_type: MapType, map_perm: u8) -> (r:
        MapArea)
        requires
            start_va.0 / PAGE_SIZE <= (start_va.0 + PAGE_SIZE - 1) / (PAGE_SIZE as int),
            start_va.0 <= end_va.0,
        ensures
            r.vpn_range.l.0 == start_va.0 / PAGE_SIZE,
            r.vpn_range.r.0 == (end_va.0 + PAGE_SIZE - 1) / (PAGE_SIZE as int),
            r.data_frames@.len() == 0,
            r.map_type == map_type,
            r.map_perm == map_perm,
    {
        let start_vpn = start_va.floor();
        let end_vpn = end_va.ceil();
        assert(start_va.0 / PAGE_SIZE <= (end_va.0 + PAGE_SIZE - 1) / (PAGE_SIZE as int)) by {
            assert(start_va.0 / PAGE_SIZE * PAGE_SIZE <= start_va.0) by (nonlinear_arith);
            assert(end_va.0 / PAGE_SIZE >= start_va.0 / PAGE_SIZE) by (nonlinear_arith)
                requires
                    start_va.0 <= end_va.0 && PAGE_SIZE > 0,
            ;
            assert((end_va.0 + PAGE_SIZE - 1) / (PAGE_SIZE as int) >= end_va.0 / PAGE_SIZE)
                by (nonlinear_arith)
                requires
                    PAGE_SIZE > 0,
            ;
        }
        MapArea {
            vpn_range: SimpleRange::new(start_vpn, end_vpn),
            data_frames: Vec::new(),
            map_type,
            map_perm,
        }
    }

    /// An unmapped region with the same range, type and permissions as
    /// another: the copy owns no frames yet.
    pub fn from_another(another: &MapArea) -> (r: MapArea)
        requires
            another.vpn_range.l.0 <= another.vpn_range.r.0,
        ensures
            r.vpn_range == another.vpn_range,
            r.data_frames@.len() == 0,
            r.map_type == another.map_type,
            r.map_perm == another.map_perm,
    {
        MapArea {
            vpn_range: SimpleRange::new(another.vpn_range.get_start(), another.vpn_range.get_end()),
            data_frames: Vec::new(),
            map_type: another.map_type,
            map_perm: another.map_perm,
        }
    }

    /// Whether this region owns a frame for the page.
    pub fn have_mapped(&self, vpn: &VirtPageNum) -> (r: bool)
        ensures
            r == exists|k: int|
                0 <= k < self.data_frames@.len() && (#[trigger] self.data_frames@[k]).0 == vpn.0,
    {
        let mut k: usize = 0;
        let n = self.data_frames.len();
        while k < n
            invariant
                k <= n,
                n == self.data_frames@.len(),
                forall|j: int| 0 <= j < k ==> (#[trigger] self.data_frames@[j]).0 != vpn.0,
            decreases n - k,
        {
            if self.data_frames[k].0 == vpn.0 {
                return true;
            }
            k = k + 1;
        }
        false
    }
}

impl MapArea {
    /// Map every page of the region into the table: identical regions write
    /// leaves pointing at the page's own number, framed regions allocate one
    /// fresh zeroed frame per page and record it.
    #[verifier::rlimit(100)]
    #[verifier::spinoff_prover]
    pub fn map_all(
        &mut self,
        pt: &mut PageTable,
        alloc: &mut StackFrameAllocator,
        mem: &mut PhysMem,
    )
        requires
            pt_area_map_pre(*old(self), *old(pt), *old(alloc), *old(mem)),
        ensures
            sys_inv(*final(alloc), *final(mem)),
            final(pt).wf(*final(alloc)),
            final(pt).root.ppn == old(pt).root.ppn,
            final(self).vpn_range == old(self).vpn_range,
            final(self).map_type == old(self).map_type,
            final(self).map_perm == old(self).map_perm,
            area_mapped_wf(*final(self), *final(pt)),
            area_frames_ok(*final(self), *final(alloc), *final(mem)),
            // the region's frames are fresh and mutually distinct
            forall|k: int, l: int|
                0 <= k < l < final(self).data_frames@.len() ==> final(self).data_frames@[k].1
                    != final(self).data_frames@[l].1,
            forall|k: int|
                0 <= k < final(self).data_frames@.len() ==> !old(alloc).is_allocated(
                    (#[trigger] final(self).data_frames@[k]).1 as nat,
                ),
            // a framed page's frame holds zeroed bytes
            final(self).map_type == MapType::Framed ==> forall|k: int|
                0 <= k < final(self).data_frames@.len() ==> final(mem).page(
                    (#[trigger] final(self).data_frames@[k]).1 as nat,
                ) == zero_page(),
            // the table grew by fresh frames only
            final(pt).frames@.len() >= old(pt).frames@.len(),
            final(pt).frames@.subrange(0, old(pt).frames@.len() as int) == old(pt).frames@,
            forall|f: int|
                old(pt).frames@.len() <= f < final(pt).frames@.len() ==> !old(alloc).is_allocated(
                    (#[trigger] final(pt).frames@[f]) as nat,
                ),
            forall|j: int, f: int|
                0 <= j < final(self).data_frames@.len() && old(pt).frames@.len() <= f < final(pt).frames@.len() ==> final(self).data_frames@[j].1 != final(pt).frames@[f],
            // pages whose key lies outside the region keep their mapping
            forall|w: usize|
                !area_has_key(*final(self), vpn_key(w as nat)) ==> final(pt).maps(w) == old(pt).maps(w),
            forall|w: usize|
                !area_has_key(*final(self), vpn_key(w as nat)) && old(pt).maps(w) ==> final(pt).leaf_of(w) == old(pt).leaf_of(w),
            // allocator monotonicity
            forall|q: nat| old(alloc).is_allocated(q) ==> final(alloc).is_allocated(q),
            forall|q: nat|
                final(alloc).is_allocated(q) && !old(alloc).is_allocated(q) ==> old(alloc).is_free(
                    q,
                ),
            forall|q: nat| final(alloc).is_free(q) ==> old(alloc).is_free(q),
            final(alloc).current >= old(alloc).current,
            final(alloc).end == old(alloc).end,
            final(alloc).recycled@.len() <= old(alloc).recycled@.len(),
            forall|i: int|
                0 <= i < final(alloc).recycled@.len() ==> final(alloc).recycled@[i] == old(alloc).recycled@[i],
            spec_usable(*final(alloc)) >= spec_usable(*old(alloc)) - 3 * (old(self).vpn_range.r.0
                - old(self).vpn_range.l.0),
            // bytes of frames already allocated stay
            final(mem).base == old(mem).base,
            final(mem).pages@.len() == old(mem).pages@.len(),
            forall|q: nat|
                old(mem).covers(q) && old(alloc).is_allocated(q) ==> final(mem).page(q) == old(mem).page(q),
    {
        let start: usize = self.vpn_range.get_start().0;
        let len: usize = self.vpn_range.get_end().0 - start;
        let ghost pt0 = *pt;
        let ghost alloc0 = *alloc;
        let ghost mem0 = *mem;
        let mut k: usize = 0;
        while k < len
            invariant
                start == self.vpn_range.l.0,
                len == self.vpn_range.r.0 - start,
                k <= len,
                self.vpn_range == old(self).vpn_range,
                self.map_type == old(self).map_type,
                self.map_perm == old(self).map_perm,
                pt_area_map_pre(*old(self), pt0, alloc0, mem0),
                sys_inv(*alloc, *mem),
                pt.wf(*alloc),
                pt.root.ppn == pt0.root.ppn,
                // frames handed out so far
                self.map_type == MapType::Framed ==> self.data_frames@.len() == k,
                self.map_type == MapType::Identical ==> self.data_frames@.len() == 0,
                forall|j: int|
                    0 <= j < self.data_frames@.len() ==> (#[trigger] self.data_frames@[j]).0
                        == start + j,
                forall|j: int|
                    0 <= j < self.data_frames@.len() ==> (#[trigger] self.data_frames@[j]).1
                        <= PPN_MASK,
                forall|j: int|
                    0 <= j < self.data_frames@.len() ==> alloc.is_allocated(
                        (#[trigger] self.data_frames@[j]).1 as nat,
                    ) && mem.covers(self.data_frames@[j].1 as nat) && !alloc0.is_allocated(
                        self.data_frames@[j].1 as nat,
                    ),
                forall|j: int, l: int|
                    0 <= j < l < self.data_frames@.len() ==> self.data_frames@[j].1
                        != self.data_frames@[l].1,
                self.map_type == MapType::Framed ==> forall|j: int|
                    0 <= j < self.data_frames@.len() ==> mem.page(
                        (#[trigger] self.data_frames@[j]).1 as nat,
                    ) == zero_page(),
                // leaves written so far
                self.map_type == MapType::Framed ==> forall|j: int|
                    0 <= j < k ==> pt.leaf_of((start + j) as usize) == Some(
                        spec_pte_new((#[trigger] self.data_frames@[j]).1 as u64, self.map_perm
                            | PTE_V),
                    ),
                self.map_type == MapType::Identical ==> forall|j: int|
                    0 <= j < k ==> pt.leaf_of((start + j) as usize) == Some(
                        spec_pte_new((start + j) as u64, self.map_perm | #[trigger] pte_v_of(j)),
                    ),
                // pages not yet mapped
                forall|j: int| k <= j < len ==> !#[trigger] pt.maps((start + j) as usize),
                // preservation of everything outside the region
                forall|w: usize|
                    !area_has_key(*self, vpn_key(w as nat)) ==> #[trigger] pt.maps(w) == pt0.maps(
                        w,
                    ),
                forall|w: usize|
                    !area_has_key(*self, vpn_key(w as nat)) && pt0.maps(w) ==> #[trigger] pt.leaf_of(
                        w,
                    ) == pt0.leaf_of(w),
                // page-table frames grew by fresh ones
                pt.frames@.len() >= pt0.frames@.len(),
                pt.frames@.subrange(0, pt0.frames@.len() as int) == pt0.frames@,
                forall|f: int|
                    pt0.frames@.len() <= f < pt.frames@.len() ==> !alloc0.is_allocated(
                        (#[trigger] pt.frames@[f]) as nat,
                    ),
                forall|j: int, f: int|
                    0 <= j < self.data_frames@.len() && pt0.frames@.len() <= f < pt.frames@.len()
                        ==> self.data_frames@[j].1 != pt.frames@[f],
                // allocator monotonicity towards the loop entry
                forall|q: nat| alloc0.is_allocated(q) ==> alloc.is_allocated(q),
                forall|q: nat|
                    alloc.is_allocated(q) && !alloc0.is_allocated(q) ==> alloc0.is_free(q),
                forall|q: nat| alloc.is_free(q) ==> alloc0.is_free(q),
                alloc.current >= alloc0.current,
                alloc.end == alloc0.end,
                alloc.recycled@.len() <= alloc0.recycled@.len(),
                forall|i: int|
                    0 <= i < alloc.recycled@.len() ==> alloc.recycled@[i] == alloc0.recycled@[i],
                spec_usable(*alloc) >= spec_usable(alloc0) - 3 * k,
                mem.base == mem0.base,
                mem.pages@.len() == mem0.pages@.len(),
                forall|q: nat|
                    mem0.covers(q) && alloc0.is_allocated(q) ==> mem.page(q) == mem0.page(q),
            decreases len - k,
        {
            let ghost pt_in = *pt;
            let ghost alloc_in = *alloc;
            let ghost mem_in = *mem;
            let vpn = VirtPageNum(start + k);
            let ppn: PhysPageNum = match self.map_type {
                MapType::Identical => PhysPageNum(start + k),
                MapType::Framed => {
                    let f = frame_alloc(alloc, mem).unwrap();
                    self.data_frames.push((start + k, f.0));
                    f
                },
            };
            let ghost alloc_mid = *alloc;
            pt.map(vpn, ppn, self.map_perm, alloc, mem);
            k = k + 1;
            proof {
                let kk = k - 1;
                let vk: usize = (start + kk) as usize;
                // every other index of the range walks to another leaf slot
                assert forall|j: int| 0 <= j < len && j != kk implies #[trigger] vpn_key(
                    (start + j) as nat,
                ) != vpn_key(vk as nat) by {
                    if j < kk {
                        lemma_range_keys_distinct((start + j) as usize, vk);
                    } else {
                        lemma_range_keys_distinct(vk, (start + j) as usize);
                    }
                }
                // a key outside the region is not the mapped key
                assert forall|w: usize| !area_has_key(*self, vpn_key(w as nat)) implies vpn_key(
                    w as nat,
                ) != vpn_key(vk as nat) by {
                    if vpn_key(w as nat) == vpn_key(vk as nat) {
                        assert(0 <= kk < self.vpn_range.r.0 - self.vpn_range.l.0 && vpn_key(
                            (self.vpn_range.l.0 + kk) as nat,
                        ) == vpn_key(w as nat));
                    }
                }
                // leaves written before this step survive it
                assert forall|j: int| 0 <= j < kk implies #[trigger] pt.leaf_of(
                    (start + j) as usize,
                ) == pt_in.leaf_of((start + j) as usize) && pt.maps((start + j) as usize) by {
                    let w: usize = (start + j) as usize;
                    if self.map_type == MapType::Framed {
                        let p = self.data_frames@[j].1;
                        assert(pt_in.leaf_of(w) == Some(spec_pte_new(p as u64, self.map_perm | PTE_V)));
                        crate::page_table::lemma_mapped_leaf_flags(p as u64, self.map_perm);
                    } else {
                        assert(pt_in.leaf_of(w) == Some(
                            spec_pte_new((start + j) as u64, self.map_perm | pte_v_of(j)),
                        ));
                        crate::page_table::lemma_mapped_leaf_flags((start + j) as u64, self.map_perm);
                    }
                    assert(pt_in.maps(w));
                }
                // every frame the table gained since loop entry is fresh
                assert forall|f: int|
                    pt0.frames@.len() <= f < pt.frames@.len() implies !alloc0.is_allocated(
                    (#[trigger] pt.frames@[f]) as nat,
                ) by {
                    if f < pt_in.frames@.len() {
                        assert(pt.frames@[f] == pt.frames@.subrange(
                            0,
                            pt_in.frames@.len() as int,
                        )[f]);
                        assert(pt.frames@[f] == pt_in.frames@[f]);
                    } else {
                        assert(alloc_mid.is_free(pt.frames@[f] as nat));
                        assert(alloc0.is_free(pt.frames@[f] as nat));
                    }
                }
                // pages beyond this step stay unmapped
                assert forall|j: int| k <= j < len implies !#[trigger] pt.maps((start + j) as usize)
                    by {
                    let w: usize = (start + j) as usize;
                    assert(vpn_key(w as nat) != vpn_key(vk as nat));
                    assert(!pt_in.maps(w));
                }
                // region frames never collide with table frames gained here
                assert forall|j: int, f: int|
                    0 <= j < self.data_frames@.len() && pt0.frames@.len() <= f
                        < pt.frames@.len() implies self.data_frames@[j].1 != pt.frames@[f] by {
                    if f < pt_in.frames@.len() {
                        assert(pt.frames@[f] == pt.frames@.subrange(
                            0,
                            pt_in.frames@.len() as int,
                        )[f]);
                        assert(pt.frames@[f] == pt_in.frames@[f]);
                        assert(alloc_in.is_allocated(pt_in.frames@[f] as nat));
                        if j < self.data_frames@.len() - 1 || self.map_type
                            != MapType::Framed {
                            assert(alloc_in.is_allocated(self.data_frames@[j].1 as nat));
                        } else {
                            assert(alloc_in.is_free(self.data_frames@[j].1 as nat));
                        }
                    } else {
                        assert(alloc_mid.is_free(pt.frames@[f] as nat));
                        assert(alloc_mid.is_allocated(self.data_frames@[j].1 as nat));
                    }
                }
                // outside keys: chain this step's preservation onto the loop's
                assert forall|w: usize| !area_has_key(*self, vpn_key(w as nat)) implies #[trigger] pt.maps(w)
                    == pt0.maps(w) && (pt0.maps(w) ==> pt.leaf_of(w) == pt0.leaf_of(w)) by {
                    assert(vpn_key(w as nat) != vpn_key(vk as nat));
                    assert(pt_in.maps(w) == pt0.maps(w));
                }
                assert(pt.frames@.subrange(0, pt0.frames@.len() as int) =~= pt0.frames@);
            }
        }
    }
}

/// The bytes page `k` of a region receives when `data` is laid down from the
/// region's start: the next page of `data`, zero-extended.
pub open spec fn data_chunk(data: Seq<u8>, k: int) -> Seq<u8> {
    Seq::new(
        PAGE_SIZE as nat,
        |i: int|
            if k * (PAGE_SIZE as int) + i < data.len() {
                data[k * (PAGE_SIZE as int) + i]
            } else {
                0u8
            },
    )
}

impl MapArea {
    /// Lay `data` down over the region's frames, first page first; pages
    /// past the end of `data` are zero-filled.
    pub fn copy_data(&self, mem: &mut PhysMem, data: &Vec<u8>)
        requires
            old(mem).wf(),
            self.map_type == MapType::Framed,
            self.vpn_range.l.0 <= self.vpn_range.r.0,
            self.data_frames@.len() == self.vpn_range.r.0 - self.vpn_range.l.0,
            forall|k: int|
                0 <= k < self.data_frames@.len() ==> old(mem).covers(
                    (#[trigger] self.data_frames@[k]).1 as nat,
                ),
            forall|k: int, l: int|
                0 <= k < l < self.data_frames@.len() ==> self.data_frames@[k].1
                    != self.data_frames@[l].1,
            data@.len() <= self.data_frames@.len() * (PAGE_SIZE as int),
        ensures
            final(mem).wf(),
            final(mem).base == old(mem).base,
            final(mem).pages@.len() == old(mem).pages@.len(),
            forall|k: int|
                0 <= k < self.data_frames@.len() ==> final(mem).page(
                    (#[trigger] self.data_frames@[k]).1 as nat,
                ) == data_chunk(data@, k),
            forall|q: nat|
                old(mem).covers(q) && (forall|k: int|
                    0 <= k < self.data_frames@.len() ==> (#[trigger] self.data_frames@[k]).1 != q)
                    ==> final(mem).page(q) == old(mem).page(q),
    {
        let ghost mem0 = *mem;
        let npages: usize = self.data_frames.len();
        let total: usize = data.len();
        let mut k: usize = 0;
        let mut offset: usize = 0;
        while k < npages
            invariant
                k <= npages,
                npages == self.data_frames@.len(),
                total == data@.len(),
                total <= npages * (PAGE_SIZE as int),
                offset == if k * (PAGE_SIZE as int) <= total {
                    k * (PAGE_SIZE as int)
                } else {
                    total as int
                },
                mem.wf(),
                mem.base == mem0.base,
                mem.pages@.len() == mem0.pages@.len(),
                forall|j: int|
                    0 <= j < npages ==> mem0.covers((#[trigger] self.data_frames@[j]).1 as nat),
                forall|j: int, l: int|
                    0 <= j < l < npages ==> self.data_frames@[j].1 != self.data_frames@[l].1,
                forall|j: int|
                    0 <= j < k ==> mem.page((#[trigger] self.data_frames@[j]).1 as nat)
                        == data_chunk(data@, j),
                forall|q: nat|
                    mem0.covers(q) && (forall|j: int|
                        0 <= j < npages ==> (#[trigger] self.data_frames@[j]).1 != q) ==> mem.page(
                        q,
                    ) == mem0.page(q),
                forall|j: int|
                    k <= j < npages ==> mem.page((#[trigger] self.data_frames@[j]).1 as nat)
                        == mem0.page(self.data_frames@[j].1 as nat),
            decreases npages - k,
        {
            let ppn = PhysPageNum(self.data_frames[k].1);
            let copy_n: usize = if total - offset < PAGE_SIZE {
                total - offset
            } else {
                PAGE_SIZE
            };
            let ghost memk = *mem;
            let mut i: usize = 0;
            while i < PAGE_SIZE
                invariant
                    i <= PAGE_SIZE,
                    k < npages,
                    npages == self.data_frames@.len(),
                    total == data@.len(),
                    copy_n <= PAGE_SIZE,
                    offset + copy_n <= total,
                    offset == if k * (PAGE_SIZE as int) <= total {
                        k * (PAGE_SIZE as int)
                    } else {
                        total as int
                    },
                    copy_n == if total - offset < PAGE_SIZE {
                        total - offset
                    } else {
                        PAGE_SIZE as int
                    },
                    ppn.0 == self.data_frames@[k as int].1,
                    memk.covers(ppn.0 as nat),
                    mem.wf(),
                    mem.base == memk.base,
                    mem.pages@.len() == memk.pages@.len(),
                    forall|j: int|
                        0 <= j < i ==> mem.page(ppn.0 as nat)[j] == data_chunk(data@, k as int)[j],
                    forall|q: nat| memk.covers(q) && q != ppn.0 ==> mem.page(q) == memk.page(q),
                decreases PAGE_SIZE - i,
            {
                let b: u8 = if i < copy_n {
                    data[offset + i]
                } else {
                    0u8
                };
                proof {
                    if i < copy_n {
                        assert(k * (PAGE_SIZE as int) + i < total);
                        assert(offset + i == k * (PAGE_SIZE as int) + i);
                    } else {
                        assert(k * (PAGE_SIZE as int) + i >= total);
                    }
                }
                mem.write_byte(ppn, i, b);
                i = i + 1;
            }
            proof {
                assert(mem.page(ppn.0 as nat) =~= data_chunk(data@, k as int));
            }
            offset = offset + copy_n;
            k = k + 1;
            proof {
                assert(offset == if k * (PAGE_SIZE as int) <= total {
                    k * (PAGE_SIZE as int)
                } else {
                    total as int
                }) by (nonlinear_arith)
                    requires
                        offset == if (k - 1) * (PAGE_SIZE as int) <= total {
                            (k - 1) * (PAGE_SIZE as int) + copy_n
                        } else {
                            total + copy_n
                        },
                        copy_n == if total - (if (k - 1) * (PAGE_SIZE as int) <= total {
                            (k - 1) * (PAGE_SIZE as int)
                        } else {
                            total as int
                        }) < PAGE_SIZE {
                            total - (if (k - 1) * (PAGE_SIZE as int) <= total {
                                (k - 1) * (PAGE_SIZE as int)
                            } else {
                                total as int
                            })
                        } else {
                            PAGE_SIZE as int
                        },
                        PAGE_SIZE == 0x1000,
                        k >= 1,
                ;
            }
        }
    }
}

/// What mapping a whole region needs of the table, the allocator and the
/// byte store.
pub open spec fn pt_area_map_pre(
    a: MapArea,
    pt: PageTable,
    alloc: StackFrameAllocator,
    mem: PhysMem,
) -> bool {
    &&& sys_inv(alloc, mem)
    &&& pt.wf(alloc)
    &&& a.data_frames@.len() == 0
    &&& a.vpn_range.l.0 <= a.vpn_range.r.0
    &&& a.vpn_range.r.0 - a.vpn_range.l.0 < 0x8000000
    &&& a.map_type == MapType::Identical ==> a.vpn_range.r.0 <= PPN_MASK
    &&& forall|j: int|
        0 <= j < a.vpn_range.r.0 - a.vpn_range.l.0 ==> !#[trigger] pt.maps(
            (a.vpn_range.l.0 + j) as usize,
        )
    &&& spec_usable(alloc) >= 3 * (a.vpn_range.r.0 - a.vpn_range.l.0)
}

/// Coupling of the allocator and the byte store: the allocator hands out
/// frames the store covers, and frame numbers fit a page-table entry.
pub open spec fn sys_inv(alloc: StackFrameAllocator, mem: PhysMem) -> bool {
    &&& alloc.wf()
    &&& mem.wf()
    &&& mem.base <= alloc.current
    &&& alloc.end <= mem.base + mem.pages@.len()
    &&& forall|i: int|
        0 <= i < alloc.recycled@.len() ==> mem.covers((#[trigger] alloc.recycled@[i]) as nat)
    &&& alloc.end <= PPN_MASK
}

/// Frames still available to the allocator.
pub open spec fn spec_usable(alloc: StackFrameAllocator) -> int {
    alloc.end - alloc.current + alloc.recycled@.len()
}

/// A region completely mapped in the given table: one valid leaf per page,
/// carrying the region's permissions, and for `Framed` regions the owned
/// frame of each page.
pub open spec fn area_mapped_wf(a: MapArea, pt: PageTable) -> bool {
    &&& a.vpn_range.l.0 <= a.vpn_range.r.0
    &&& a.vpn_range.r.0 - a.vpn_range.l.0 < 0x8000000
    &&& match a.map_type {
        MapType::Framed => {
            &&& a.data_frames@.len() == a.vpn_range.r.0 - a.vpn_range.l.0
            &&& forall|k: int|
                0 <= k < a.data_frames@.len() ==> (#[trigger] a.data_frames@[k]).0 == a.vpn_range.l.0
                    + k
            &&& forall|k: int|
                0 <= k < a.data_frames@.len() ==> pt.leaf_of((a.vpn_range.l.0 + k) as usize)
                    == Some(
                    spec_pte_new((#[trigger] a.data_frames@[k]).1 as u64, a.map_perm | PTE_V),
                )
            &&& forall|k: int|
                0 <= k < a.data_frames@.len() ==> (#[trigger] a.data_frames@[k]).1 <= PPN_MASK
        },
        MapType::Identical => {
            &&& a.data_frames@.len() == 0
            &&& a.vpn_range.r.0 <= PPN_MASK
            &&& forall|k: int|
                0 <= k < a.vpn_range.r.0 - a.vpn_range.l.0 ==> pt.leaf_of(
                    (a.vpn_range.l.0 + k) as usize,
                ) == Some(
                    spec_pte_new((a.vpn_range.l.0 + k) as u64, a.map_perm | #[trigger] pte_v_of(k)),
                )
        },
    }
}

/// The Valid bit, indexed for trigger purposes.
pub open spec fn pte_v_of(k: int) -> u8 {
    PTE_V
}

/// The owned frames of a `Framed` region are live in the allocator and lie
/// in the byte store.
pub open spec fn area_frames_ok(a: MapArea, alloc: StackFrameAllocator, mem: PhysMem) -> bool {
    forall|k: int|
        0 <= k < a.data_frames@.len() ==> alloc.is_allocated(
            (#[trigger] a.data_frames@[k]).1 as nat,
        ) && mem.covers(a.data_frames@[k].1 as nat)
}

/// The walk keys of two regions never meet.
pub open spec fn areas_keys_disjoint(a: MapArea, b: MapArea) -> bool {
    forall|u: int, v: int|
        0 <= u < a.vpn_range.r.0 - a.vpn_range.l.0 && 0 <= v < b.vpn_range.r.0 - b.vpn_range.l.0
            ==> #[trigger] vpn_key((a.vpn_range.l.0 + u) as nat) != #[trigger] vpn_key(
            (b.vpn_range.l.0 + v) as nat,
        )
}

/// Whether a walk key belongs to a region.
pub open spec fn area_has_key(a: MapArea, key: nat) -> bool {
    exists|u: int|
        0 <= u < a.vpn_range.r.0 - a.vpn_range.l.0 && #[trigger] vpn_key(
            (a.vpn_range.l.0 + u) as nat,
        ) == key
}

/// Mapping one page whose walk key lies in no region leaves every region
/// mapped, its frames live, and all ownership separations intact.
pub proof fn lemma_preserve_areas(
    pre: MemorySet,
    post: MemorySet,
    alloc_pre: StackFrameAllocator,
    alloc_post: StackFrameAllocator,
    mem_pre: PhysMem,
    mem_post: PhysMem,
    v: usize,
)
    requires
        post.areas@ == pre.areas@,
        forall|i: int|
            0 <= i < pre.areas@.len() ==> area_mapped_wf(#[trigger] pre.areas@[i], pre.page_table),
        forall|i: int|
            0 <= i < pre.areas@.len() ==> area_frames_ok(#[trigger] pre.areas@[i], alloc_pre, mem_pre),
        forall|i: int, k: int, f: int|
            0 <= i < pre.areas@.len() && 0 <= k < pre.areas@[i].data_frames@.len() && 0 <= f
                < pre.page_table.frames@.len() ==> pre.areas@[i].data_frames@[k].1
                != pre.page_table.frames@[f],
        forall|i: int|
            0 <= i < pre.areas@.len() ==> !area_has_key(
                #[trigger] pre.areas@[i],
                vpn_key(v as nat),
            ),
        forall|w: usize|
            vpn_key(w as nat) != vpn_key(v as nat) ==> post.page_table.maps(w)
                == pre.page_table.maps(w),
        forall|w: usize|
            vpn_key(w as nat) != vpn_key(v as nat) && pre.page_table.maps(w)
                ==> post.page_table.leaf_of(w) == pre.page_table.leaf_of(w),
        post.page_table.frames@.len() >= pre.page_table.frames@.len(),
        post.page_table.frames@.subrange(0, pre.page_table.frames@.len() as int)
            == pre.page_table.frames@,
        forall|f: int|
            pre.page_table.frames@.len() <= f < post.page_table.frames@.len() ==> !alloc_pre.is_allocated(
                (#[trigger] post.page_table.frames@[f]) as nat,
            ),
        forall|q: nat| alloc_pre.is_allocated(q) ==> alloc_post.is_allocated(q),
        mem_post.base == mem_pre.base,
        mem_post.pages@.len() == mem_pre.pages@.len(),
    ensures
        forall|i: int|
            0 <= i < post.areas@.len() ==> area_mapped_wf(
                #[trigger] post.areas@[i],
                post.page_table,
            ),
        forall|i: int|
            0 <= i < post.areas@.len() ==> area_frames_ok(
                #[trigger] post.areas@[i],
                alloc_post,
                mem_post,
            ),
        forall|i: int, k: int, f: int|
            0 <= i < post.areas@.len() && 0 <= k < post.areas@[i].data_frames@.len() && 0 <= f
                < post.page_table.frames@.len() ==> post.areas@[i].data_frames@[k].1
                != post.page_table.frames@[f],
{
    assert forall|i: int| 0 <= i < post.areas@.len() implies area_mapped_wf(
        #[trigger] post.areas@[i],
        post.page_table,
    ) by {
        let a = pre.areas@[i];
        assert(area_mapped_wf(a, pre.page_table));
        assert(!area_has_key(a, vpn_key(v as nat)));
        let l = a.vpn_range.l.0;
        assert forall|k: int| 0 <= k < a.vpn_range.r.0 - l implies #[trigger] post.page_table.leaf_of(
            (l + k) as usize,
        ) == pre.page_table.leaf_of((l + k) as usize) by {
            let w: usize = (l + k) as usize;
            assert(w == l + k);
            assert(vpn_key((l + k) as nat) != vpn_key(v as nat));
            assert(vpn_key(w as nat) != vpn_key(v as nat));
            match a.map_type {
                MapType::Framed => {
                    assert(pre.page_table.leaf_of(w) == Some(
                        spec_pte_new(a.data_frames@[k].1 as u64, a.map_perm | PTE_V),
                    ));
                    crate::page_table::lemma_mapped_leaf_flags(
                        a.data_frames@[k].1 as u64,
                        a.map_perm,
                    );
                    assert(pre.page_table.maps(w));
                },
                MapType::Identical => {
                    assert(pre.page_table.leaf_of(w) == Some(
                        spec_pte_new((l + k) as u64, a.map_perm | pte_v_of(k)),
                    ));
                    crate::page_table::lemma_mapped_leaf_flags((l + k) as u64, a.map_perm);
                    assert(pre.page_table.maps(w));
                },
            }
        }
    }
    assert forall|i: int, k: int, f: int|
        0 <= i < post.areas@.len() && 0 <= k < post.areas@[i].data_frames@.len() && 0 <= f
            < post.page_table.frames@.len() implies post.areas@[i].data_frames@[k].1
        != post.page_table.frames@[f] by {
        if f < pre.page_table.frames@.len() {
            assert(post.page_table.frames@[f] == pre.page_table.frames@.subrange(
                0,
                pre.page_table.frames@.len() as int,
            )[f]);
        } else {
            assert(!alloc_pre.is_allocated(post.page_table.frames@[f] as nat));
            assert(area_frames_ok(pre.areas@[i], alloc_pre, mem_pre));
            assert(alloc_pre.is_allocated(pre.areas@[i].data_frames@[k].1 as nat));
        }
    }
}

/// An address space: a page table plus its regions, and the trampoline
/// mapping written straight into the table.
pub struct MemorySet {
    /// The backing page table.
    pub page_table: PageTable,
    /// The mapped regions, in the order they were pushed.
    pub areas: Vec<MapArea>,
    /// The frame the trampoline page maps to, once mapped.
    pub trampoline: Option<usize>,
}

/// The page number of the trampoline page.
pub open spec fn spec_trampoline_vpn() -> usize {
    (TRAMPOLINE / PAGE_SIZE) as usize
}

/// The segments an image's program-header table declares loadable.
pub open spec fn spec_elf_segments(data: Seq<u8>) -> Seq<crate::elf::ElfSegment> {
    crate::elf::spec_load_segments(
        data,
        crate::elf::spec_le64(data, 32),
        crate::elf::spec_le16(data, 54),
        crate::elf::spec_le16(data, 56),
    )
}

/// The first page of a loadable segment.
pub open spec fn spec_seg_l(s: crate::elf::ElfSegment) -> int {
    s.vaddr as int / (PAGE_SIZE as int)
}

/// One past the last page of a loadable segment.
pub open spec fn spec_seg_r(s: crate::elf::ElfSegment) -> int {
    (s.vaddr + s.memsz + PAGE_SIZE - 1) as int / (PAGE_SIZE as int)
}

/// A loadable segment the space can hold: page-aligned with real content,
/// its payload inside the image, its pages below the trap pages' keys.
pub open spec fn spec_seg_ok(data: Seq<u8>, s: crate::elf::ElfSegment) -> bool {
    &&& s.memsz > 0
    &&& s.vaddr % (PAGE_SIZE as u64) == 0
    &&& s.filesz <= s.memsz
    &&& s.vaddr + s.memsz < 0xFFFF0000
    &&& s.offset + s.filesz <= data.len()
}

/// Pages the first `n` loadable segments span.
pub open spec fn spec_segs_pages(ss: Seq<crate::elf::ElfSegment>, n: int) -> int
    decreases n,
{
    if n <= 0 {
        0int
    } else {
        spec_segs_pages(ss, n - 1) + spec_seg_r(ss[n - 1]) - spec_seg_l(ss[n - 1])
    }
}

/// An image whose loadable segments fit the space: a sound header, each
/// segment well formed, and their page ranges pairwise disjoint.
pub open spec fn spec_elf_loadable(data: Seq<u8>) -> bool {
    &&& crate::elf::spec_has_magic(data)
    &&& crate::elf::spec_le64(data, 24) <= 0xFFFF_FFFF
    &&& crate::elf::spec_le16(data, 54) >= 56
    &&& crate::elf::spec_le64(data, 32) + crate::elf::spec_le16(data, 56) * crate::elf::spec_le16(
        data,
        54,
    ) <= data.len()
    &&& forall|k: int|
        0 <= k < spec_elf_segments(data).len() ==> spec_seg_ok(
            data,
            #[trigger] spec_elf_segments(data)[k],
        )
    &&& forall|k: int, k2: int|
        0 <= k < k2 < spec_elf_segments(data).len() ==> spec_seg_r(
            #[trigger] spec_elf_segments(data)[k],
        ) <= spec_seg_l(#[trigger] spec_elf_segments(data)[k2]) || spec_seg_r(
            spec_elf_segments(data)[k2],
        ) <= spec_seg_l(spec_elf_segments(data)[k])
}

/// Pages of a segment prefix only grow with the prefix.
pub proof fn lemma_segs_pages_mono(data: Seq<u8>, ss: Seq<crate::elf::ElfSegment>, a: int, b: int)
    requires
        0 <= a <= b <= ss.len(),
        forall|k: int| 0 <= k < ss.len() ==> spec_seg_ok(data, #[trigger] ss[k]),
    ensures
        spec_segs_pages(ss, a) <= spec_segs_pages(ss, b),
    decreases b - a,
{
    if a < b {
        lemma_segs_pages_mono(data, ss, a, b - 1);
        assert(spec_seg_l(ss[b - 1]) <= spec_seg_r(ss[b - 1])) by (nonlinear_arith)
            requires
                ss[b - 1].memsz > 0,
                spec_seg_l(ss[b - 1]) == ss[b - 1].vaddr as int / (PAGE_SIZE as int),
                spec_seg_r(ss[b - 1]) == (ss[b - 1].vaddr + ss[b - 1].memsz + PAGE_SIZE - 1) as int
                    / (PAGE_SIZE as int),
                PAGE_SIZE == 0x1000,
        ;
    }
}

impl MemorySet {
    /// Whether the space maps the page to a valid leaf.
    pub open spec fn maps(&self, v: usize) -> bool {
        self.page_table.maps(v)
    }

    /// The leaf entry of a page.
    pub open spec fn leaf_of(&self, v: usize) -> Option<u64> {
        self.page_table.leaf_of(v)
    }

    /// The bytes of the frame a page maps to.
    pub open spec fn view_page(&self, mem: PhysMem, v: usize) -> Seq<u8> {
        mem.page(spec_pte_ppn(self.leaf_of(v)->0) as nat)
    }

    /// Every region mapped, frames owned once, keys disjoint, and the
    /// trampoline leaf where mapped.
    pub open spec fn wf(&self, alloc: StackFrameAllocator, mem: PhysMem) -> bool {
        &&& self.page_table.wf(alloc)
        &&& forall|i: int|
            0 <= i < self.areas@.len() ==> area_mapped_wf(#[trigger] self.areas@[i], self.page_table)
        &&& forall|i: int|
            0 <= i < self.areas@.len() ==> area_frames_ok(#[trigger] self.areas@[i], alloc, mem)
        &&& forall|i: int, j: int|
            0 <= i < j < self.areas@.len() ==> areas_keys_disjoint(self.areas@[i], self.areas@[j])
        // frames owned at most once, across regions and the table's own nodes
        &&& forall|i: int, k: int, l: int|
            0 <= i < self.areas@.len() && 0 <= k < l < self.areas@[i].data_frames@.len()
                ==> self.areas@[i].data_frames@[k].1 != self.areas@[i].data_frames@[l].1
        &&& forall|i: int, j: int, k: int, l: int|
            0 <= i < j < self.areas@.len() && 0 <= k < self.areas@[i].data_frames@.len() && 0 <= l
                < self.areas@[j].data_frames@.len() ==> self.areas@[i].data_frames@[k].1
                != self.areas@[j].data_frames@[l].1
        &&& forall|i: int, k: int, f: int|
            0 <= i < self.areas@.len() && 0 <= k < self.areas@[i].data_frames@.len() && 0 <= f
                < self.page_table.frames@.len() ==> self.areas@[i].data_frames@[k].1
                != self.page_table.frames@[f]
        // the trampoline leaf, outside every region
        &&& match self.trampoline {
            Some(p) => {
                &&& p <= PPN_MASK
                &&& self.leaf_of(spec_trampoline_vpn()) == Some(
                    spec_pte_new(p as u64, PTE_R | PTE_X | PTE_V),
                )
                &&& forall|i: int|
                    0 <= i < self.areas@.len() ==> !area_has_key(
                        #[trigger] self.areas@[i],
                        vpn_key(spec_trampoline_vpn() as nat),
                    )
            },
            None => true,
        }
    }

    /// An empty space: a fresh root table, no regions.
    pub fn new_bare(alloc: &mut StackFrameAllocator, mem: &mut PhysMem) -> (r: Option<MemorySet>)
        requires
            sys_inv(*old(alloc), *old(mem)),
            spec_usable(*old(alloc)) >= 1,
        ensures
            sys_inv(*final(alloc), *final(mem)),
            final(mem).base == old(mem).base,
            final(mem).pages@.len() == old(mem).pages@.len(),
            final(alloc).end == old(alloc).end,
            r is Some,
            r matches Some(ms) ==> {
                &&& ms.wf(*final(alloc), *final(mem))
                &&& ms.areas@.len() == 0
                &&& ms.trampoline is None
                &&& forall|v: usize| !ms.maps(v)
                &&& forall|q: nat| old(alloc).is_allocated(q) ==> final(alloc).is_allocated(q)
                &&& forall|q: nat|
                    final(alloc).is_allocated(q) && !old(alloc).is_allocated(q) ==> old(alloc).is_free(q)
                &&& forall|q: nat| final(alloc).is_free(q) ==> old(alloc).is_free(q)
                &&& forall|q: nat|
                    old(mem).covers(q) && old(alloc).is_allocated(q) ==> final(mem).page(q) == old(mem).page(q)
                &&& spec_usable(*final(alloc)) == spec_usable(*old(alloc)) - 1
            },
    {
        let pt = PageTable::new(alloc, mem);
        match pt {
            Some(page_table) => Some(
                MemorySet { page_table, areas: Vec::new(), trampoline: None },
            ),
            None => None,
        }
    }

    /// The hardware token naming this space's page table.
    pub fn token(&self) -> (r: u64)
        ensures
            r == (8u64 << 60) | (self.page_table.root.ppn as u64),
    {
        self.page_table.token()
    }

    /// Walk the table for one page.
    pub fn translate(&self, vpn: VirtPageNum) -> (r: Option<PageTableEntry>)
        requires
            self.page_table.shape_wf(),
        ensures
            match r {
                Some(e) => self.leaf_of(vpn.0) == Some(e.bits),
                None => self.leaf_of(vpn.0) is None,
            },
    {
        self.page_table.translate(vpn)
    }

    /// Whether some region owns a frame for the page.
    pub fn have_mapped(&self, vpn: &VirtPageNum) -> (r: bool)
        ensures
            r == exists|i: int, k: int|
                0 <= i < self.areas@.len() && 0 <= k < self.areas@[i].data_frames@.len() && (
                self.areas@[i].data_frames@[k]).0 == vpn.0,
    {
        let mut i: usize = 0;
        let n = self.areas.len();
        while i < n
            invariant
                i <= n,
                n == self.areas@.len(),
                forall|j: int, k: int|
                    0 <= j < i && 0 <= k < self.areas@[j].data_frames@.len() ==> (
                    self.areas@[j].data_frames@[k]).0 != vpn.0,
            decreases n - i,
        {
            if self.areas[i].have_mapped(vpn) {
                return true;
            }
            i = i + 1;
        }
        false
    }

    /// Write the trampoline leaf straight into the table: the top virtual
    /// page, readable and executable, not recorded as a region.
    pub fn map_trampoline(
        &mut self,
        strampoline_ppn: PhysPageNum,
        alloc: &mut StackFrameAllocator,
        mem: &mut PhysMem,
    )
        requires
            old(self).wf(*old(alloc), *old(mem)),
            sys_inv(*old(alloc), *old(mem)),
            old(self).trampoline is None,
            !old(self).maps(spec_trampoline_vpn()),
            forall|i: int|
                0 <= i < old(self).areas@.len() ==> !area_has_key(
                    #[trigger] old(self).areas@[i],
                    vpn_key(spec_trampoline_vpn() as nat),
                ),
            strampoline_ppn.0 <= PPN_MASK,
            spec_usable(*old(alloc)) >= 2,
        ensures
            sys_inv(*final(alloc), *final(mem)),
            final(mem).base == old(mem).base,
            final(mem).pages@.len() == old(mem).pages@.len(),
            final(alloc).end == old(alloc).end,
            final(self).wf(*final(alloc), *final(mem)),
            final(self).areas@ == old(self).areas@,
            final(self).trampoline == Some(strampoline_ppn.0),
            final(self).maps(spec_trampoline_vpn()),
            forall|w: usize|
                vpn_key(w as nat) != vpn_key(spec_trampoline_vpn() as nat) ==> final(self).maps(w)
                    == old(self).maps(w),
            forall|w: usize|
                vpn_key(w as nat) != vpn_key(spec_trampoline_vpn() as nat) && old(self).maps(w)
                    ==> final(self).leaf_of(w) == old(self).leaf_of(w),
            forall|q: nat| old(alloc).is_allocated(q) ==> final(alloc).is_allocated(q),
            forall|q: nat|
                final(alloc).is_allocated(q) && !old(alloc).is_allocated(q) ==> old(alloc).is_free(
                    q,
                ),
            forall|q: nat| final(alloc).is_free(q) ==> old(alloc).is_free(q),
            forall|q: nat|
                old(mem).covers(q) && old(alloc).is_allocated(q) ==> final(mem).page(q) == old(mem).page(q),
            spec_usable(*final(alloc)) >= spec_usable(*old(alloc)) - 2,
    {
        let vpn = VirtPageNum(TRAMPOLINE / PAGE_SIZE);
        self.page_table.map(vpn, strampoline_ppn, PTE_R | PTE_X, alloc, mem);
        self.trampoline = Some(strampoline_ppn.0);
        proof {
            lemma_preserve_areas(*old(self), *self, *old(alloc), *final(alloc), *old(mem), *final(mem), vpn.0);
        }
    }

    /// Map a new region into the space and record it; with `data`, lay the
    /// bytes down over the fresh frames, zero-extended to the region's end.
    #[verifier::rlimit(100)]
    #[verifier::spinoff_prover]
    pub fn push(
        &mut self,
        map_area: MapArea,
        data: Option<&Vec<u8>>,
        alloc: &mut StackFrameAllocator,
        mem: &mut PhysMem,
    )
        requires
            old(self).wf(*old(alloc), *old(mem)),
            sys_inv(*old(alloc), *old(mem)),
            map_area.data_frames@.len() == 0,
            map_area.vpn_range.l.0 <= map_area.vpn_range.r.0,
            map_area.vpn_range.r.0 - map_area.vpn_range.l.0 < 0x8000000,
            map_area.map_type == MapType::Identical ==> map_area.vpn_range.r.0 <= PPN_MASK,
            forall|j: int|
                0 <= j < map_area.vpn_range.r.0 - map_area.vpn_range.l.0 ==> !#[trigger] old(self).maps((map_area.vpn_range.l.0 + j) as usize),
            spec_usable(*old(alloc)) >= 3 * (map_area.vpn_range.r.0 - map_area.vpn_range.l.0),
            data is Some ==> map_area.map_type == MapType::Framed && data->0@.len() <= (
            map_area.vpn_range.r.0 - map_area.vpn_range.l.0) * (PAGE_SIZE as int),
        ensures
            sys_inv(*final(alloc), *final(mem)),
            final(self).wf(*final(alloc), *final(mem)),
            final(mem).base == old(mem).base,
            final(mem).pages@.len() == old(mem).pages@.len(),
            final(alloc).end == old(alloc).end,
            final(self).trampoline == old(self).trampoline,
            final(self).page_table.root.ppn == old(self).page_table.root.ppn,
            // the new region is recorded last, mapped over the whole range
            final(self).areas@.len() == old(self).areas@.len() + 1,
            forall|i: int|
                0 <= i < old(self).areas@.len() ==> final(self).areas@[i] == old(self).areas@[i],
            final(self).areas@.last().vpn_range == map_area.vpn_range,
            final(self).areas@.last().map_type == map_area.map_type,
            final(self).areas@.last().map_perm == map_area.map_perm,
            forall|j: int|
                0 <= j < map_area.vpn_range.r.0 - map_area.vpn_range.l.0 ==> #[trigger] final(self).maps((map_area.vpn_range.l.0 + j) as usize),
            // the region's frames are fresh: none was live at entry
            forall|k: int|
                0 <= k < final(self).areas@.last().data_frames@.len() ==> !old(alloc).is_allocated(
                    (#[trigger] final(self).areas@.last().data_frames@[k]).1 as nat,
                ),
            forall|j: int|
                0 <= j < map_area.vpn_range.r.0 - map_area.vpn_range.l.0 ==> #[trigger] spec_pte_flags_of_leaf(
                    *final(self),
                    (map_area.vpn_range.l.0 + j) as usize,
                ) == (map_area.map_perm | PTE_V),
            // contents of a fresh framed region
            map_area.map_type == MapType::Framed ==> forall|j: int|
                0 <= j < map_area.vpn_range.r.0 - map_area.vpn_range.l.0 ==> #[trigger] final(self).view_page(*final(mem), (map_area.vpn_range.l.0 + j) as usize) == (match data {
                    Some(d) => data_chunk(d@, j),
                    None => zero_page(),
                }),
            // everything outside the new region's keys is untouched
            forall|w: usize|
                !area_has_key(final(self).areas@.last(), vpn_key(w as nat)) ==> final(self).maps(w)
                    == old(self).maps(w),
            forall|w: usize|
                !area_has_key(final(self).areas@.last(), vpn_key(w as nat)) && old(self).maps(w)
                    ==> final(self).leaf_of(w) == old(self).leaf_of(w),
            forall|w: usize|
                (!area_has_key(final(self).areas@.last(), vpn_key(w as nat)) && old(self).maps(w)
                    && old(mem).covers(spec_pte_ppn(old(self).leaf_of(w)->0) as nat) && old(alloc).is_allocated(spec_pte_ppn(old(self).leaf_of(w)->0) as nat)) ==> final(self).view_page(*final(mem), w) == old(self).view_page(*old(mem), w),
            // allocator monotonicity
            forall|q: nat| old(alloc).is_allocated(q) ==> final(alloc).is_allocated(q),
            forall|q: nat|
                final(alloc).is_allocated(q) && !old(alloc).is_allocated(q) ==> old(alloc).is_free(
                    q,
                ),
            forall|q: nat| final(alloc).is_free(q) ==> old(alloc).is_free(q),
            final(alloc).current >= old(alloc).current,
            final(alloc).recycled@.len() <= old(alloc).recycled@.len(),
            forall|i: int|
                0 <= i < final(alloc).recycled@.len() ==> final(alloc).recycled@[i] == old(alloc).recycled@[i],
            spec_usable(*final(alloc)) >= spec_usable(*old(alloc)) - 3 * (map_area.vpn_range.r.0
                - map_area.vpn_range.l.0),
            forall|q: nat|
                old(mem).covers(q) && old(alloc).is_allocated(q) ==> final(mem).page(q) == old(mem).page(q),
    {
        let ghost ms0 = *self;
        let ghost unmapped_range = map_area.vpn_range;
        proof {
            assert forall|j: int|
                0 <= j < unmapped_range.r.0 - unmapped_range.l.0 implies !#[trigger] ms0.maps(
                (unmapped_range.l.0 + j) as usize,
            ) by {
                assert(!old(self).maps((map_area.vpn_range.l.0 + j) as usize));
            }
        }
        let mut area = map_area;
        let ghost alloc0 = *alloc;
        let ghost mem0 = *mem;
        let ghost pt0 = self.page_table;
        proof {
            assert forall|j: int|
                0 <= j < area.vpn_range.r.0 - area.vpn_range.l.0 implies !#[trigger] self.page_table.maps(
                (area.vpn_range.l.0 + j) as usize,
            ) by {
                assert(!old(self).maps((area.vpn_range.l.0 + j) as usize));
            }
        }
        area.map_all(&mut self.page_table, alloc, mem);
        let ghost alloc1 = *alloc;
        let ghost mem1 = *mem;
        match data {
            Some(d) => {
                area.copy_data(mem, d);
            },
            None => (),
        }
        proof {
            // bytes of frames that were allocated before the push are intact:
            // copy_data wrote only the region's fresh frames
            assert forall|q: nat| mem0.covers(q) && alloc0.is_allocated(q) implies mem.page(q)
                == mem0.page(q) by {
                assert(mem1.page(q) == mem0.page(q));
                assert forall|k: int| 0 <= k < area.data_frames@.len() implies (
                #[trigger] area.data_frames@[k]).1 != q by {
                    assert(!alloc0.is_allocated(area.data_frames@[k].1 as nat));
                }
            }
        }
        self.areas.push(area);
        proof {
            assert(map_area.vpn_range == unmapped_range);
            let a = self.areas@.last();
            let la = a.vpn_range.l.0;
            let na = a.vpn_range.r.0 - la;
            assert(a.vpn_range == map_area.vpn_range);
            assert(la == map_area.vpn_range.l.0 && na == map_area.vpn_range.r.0
                - map_area.vpn_range.l.0);
            // any key of an old mapping lies outside the new region
            assert forall|w: usize| ms0.maps(w) implies !area_has_key(
                a,
                vpn_key(w as nat),
            ) by {
                if area_has_key(a, vpn_key(w as nat)) {
                    let u = choose|u: int|
                        0 <= u < a.vpn_range.r.0 - a.vpn_range.l.0 && #[trigger] vpn_key(
                            (a.vpn_range.l.0 + u) as nat,
                        ) == vpn_key(w as nat);
                    assert(0 <= u < na);
                    assert(vpn_key((la + u) as nat) == vpn_key(w as nat));
                    lemma_leaf_key(pt0, w, (la + u) as usize);
                    assert(!ms0.maps((unmapped_range.l.0 + u) as usize));
                    assert(!ms0.maps((la + u) as usize));
                }
            }
            // old regions keep their mappings and separations
            assert forall|i: int| 0 <= i < ms0.areas@.len() implies area_mapped_wf(
                #[trigger] self.areas@[i],
                self.page_table,
            ) && areas_keys_disjoint(self.areas@[i], a) by {
                let b = ms0.areas@[i];
                assert(self.areas@[i] == b);
                assert(area_mapped_wf(b, pt0));
                let lb = b.vpn_range.l.0;
                assert(b.vpn_range.l.0 <= b.vpn_range.r.0);
                assert forall|u: int|
                    #![trigger self.page_table.leaf_of((lb + u) as usize)]
                    #![trigger vpn_key((lb + u) as nat)]
                    0 <= u < b.vpn_range.r.0 - lb implies (self.page_table.leaf_of(
                    (lb + u) as usize,
                ) == pt0.leaf_of((lb + u) as usize) && pt0.maps((lb + u) as usize)
                    && !area_has_key(a, vpn_key((lb + u) as nat))) by {
                    let w: usize = (lb + u) as usize;
                    match b.map_type {
                        MapType::Framed => {
                            let p = b.data_frames@[u].1;
                            assert(pt0.leaf_of(w) == Some(
                                spec_pte_new(p as u64, b.map_perm | PTE_V),
                            ));
                            crate::page_table::lemma_mapped_leaf_flags(p as u64, b.map_perm);
                        },
                        MapType::Identical => {
                            assert(pte_v_of(u) == PTE_V);
                            assert(pt0.leaf_of(w) == Some(
                                spec_pte_new((lb + u) as u64, b.map_perm | pte_v_of(u)),
                            ));
                            crate::page_table::lemma_mapped_leaf_flags((lb + u) as u64, b.map_perm);
                        },
                    }
                    assert(pt0.maps(w));
                    assert(vpn_key(w as nat) == vpn_key((lb + u) as nat));
                    if area_has_key(a, vpn_key(w as nat)) {
                        let uu = choose|uu: int|
                            0 <= uu < a.vpn_range.r.0 - a.vpn_range.l.0 && #[trigger] vpn_key(
                                (a.vpn_range.l.0 + uu) as nat,
                            ) == vpn_key(w as nat);
                        assert(0 <= uu < na);
                        lemma_leaf_key(pt0, w, (la + uu) as usize);
                        assert(!ms0.maps((unmapped_range.l.0 + uu) as usize));
                        assert(!ms0.maps((la + uu) as usize));
                    }
                    assert(!area_has_key(a, vpn_key(w as nat)));
                }
                assert(area_mapped_wf(b, self.page_table));
                assert forall|u2: int, v2: int|
                    0 <= u2 < b.vpn_range.r.0 - b.vpn_range.l.0 && 0 <= v2 < a.vpn_range.r.0
                        - a.vpn_range.l.0 implies #[trigger] vpn_key((b.vpn_range.l.0 + u2) as nat)
                    != #[trigger] vpn_key((a.vpn_range.l.0 + v2) as nat) by {
                    assert(!area_has_key(a, vpn_key((lb + u2) as nat)));
                    if vpn_key((b.vpn_range.l.0 + u2) as nat) == vpn_key(
                        (a.vpn_range.l.0 + v2) as nat,
                    ) {
                        assert(area_has_key(a, vpn_key((lb + u2) as nat)));
                    }
                }
                assert(areas_keys_disjoint(b, a));
            }
            // the trampoline leaf, where present, also lies outside
            match self.trampoline {
                Some(p) => {
                    crate::page_table::lemma_mapped_leaf_flags(p as u64, PTE_R | PTE_X);
                    assert(ms0.maps(spec_trampoline_vpn()));
                    assert(!area_has_key(a, vpn_key(spec_trampoline_vpn() as nat)));
                },
                None => (),
            }
            // frame separations against the grown table
            assert forall|i: int, k: int, f: int|
                0 <= i < self.areas@.len() && 0 <= k < self.areas@[i].data_frames@.len() && 0 <= f
                    < self.page_table.frames@.len() implies self.areas@[i].data_frames@[k].1
                != self.page_table.frames@[f] by {
                if i < ms0.areas@.len() {
                    if f < pt0.frames@.len() {
                        assert(self.page_table.frames@[f] == self.page_table.frames@.subrange(
                            0,
                            pt0.frames@.len() as int,
                        )[f]);
                    } else {
                        assert(!alloc0.is_allocated(self.page_table.frames@[f] as nat));
                        assert(area_frames_ok(ms0.areas@[i], alloc0, mem0));
                        assert(alloc0.is_allocated(ms0.areas@[i].data_frames@[k].1 as nat));
                    }
                } else {
                    if f < pt0.frames@.len() {
                        assert(self.page_table.frames@[f] == self.page_table.frames@.subrange(
                            0,
                            pt0.frames@.len() as int,
                        )[f]);
                        assert(alloc0.is_allocated(pt0.frames@[f] as nat));
                        assert(!alloc0.is_allocated(a.data_frames@[k].1 as nat));
                    }
                }
            }
            // frame separations across regions
            assert forall|i: int, j: int, k: int, l: int|
                0 <= i < j < self.areas@.len() && 0 <= k < self.areas@[i].data_frames@.len() && 0
                    <= l < self.areas@[j].data_frames@.len() implies self.areas@[i].data_frames@[k].1
                != self.areas@[j].data_frames@[l].1 by {
                if j == self.areas@.len() - 1 {
                    assert(area_frames_ok(ms0.areas@[i], alloc0, mem0));
                    assert(alloc0.is_allocated(ms0.areas@[i].data_frames@[k].1 as nat));
                    assert(!alloc0.is_allocated(a.data_frames@[l].1 as nat));
                }
            }
            // contents of the new region
            if area.map_type == MapType::Framed {
                assert forall|j: int| 0 <= j < na implies #[trigger] self.view_page(
                    *mem,
                    (la + j) as usize,
                ) == (match data {
                    Some(d) => data_chunk(d@, j),
                    None => zero_page(),
                }) by {
                    crate::page_table::lemma_mapped_leaf_flags(
                        a.data_frames@[j].1 as u64,
                        a.map_perm,
                    );
                }
            }
            // the new region's pages are mapped, with the region's flags
            assert forall|j: int|
                #![trigger spec_pte_flags_of_leaf(*self, (la + j) as usize)]
                #![trigger self.maps((la + j) as usize)]
                0 <= j < na implies spec_pte_flags_of_leaf(*self, (la + j) as usize) == (a.map_perm
                | PTE_V) && self.maps((la + j) as usize) by {
                match a.map_type {
                    MapType::Framed => {
                        assert(self.page_table.leaf_of((la + j) as usize) == Some(
                            spec_pte_new(a.data_frames@[j].1 as u64, a.map_perm | PTE_V),
                        ));
                        crate::page_table::lemma_mapped_leaf_flags(
                            a.data_frames@[j].1 as u64,
                            a.map_perm,
                        );
                    },
                    MapType::Identical => {
                        assert(pte_v_of(j) == PTE_V);
                        assert(self.page_table.leaf_of((la + j) as usize) == Some(
                            spec_pte_new((la + j) as u64, a.map_perm | pte_v_of(j)),
                        ));
                        crate::page_table::lemma_mapped_leaf_flags((la + j) as u64, a.map_perm);
                    },
                }
            }
            assert forall|j: int|
                #![trigger self.maps((map_area.vpn_range.l.0 + j) as usize)]
                #![trigger spec_pte_flags_of_leaf(*self, (map_area.vpn_range.l.0 + j) as usize)]
                0 <= j < map_area.vpn_range.r.0 - map_area.vpn_range.l.0 implies self.maps(
                (map_area.vpn_range.l.0 + j) as usize,
            ) && spec_pte_flags_of_leaf(*self, (map_area.vpn_range.l.0 + j) as usize) == (
            map_area.map_perm | PTE_V) by {
                assert(spec_pte_flags_of_leaf(*self, (la + j) as usize) == (a.map_perm | PTE_V)
                    && self.maps((la + j) as usize));
                assert((map_area.vpn_range.l.0 + j) as usize == (la + j) as usize);
            }
            // the new region's frames were free at entry
            assert forall|k: int|
                0 <= k < a.data_frames@.len() implies !old(alloc).is_allocated(
                (#[trigger] a.data_frames@[k]).1 as nat,
            ) by {}
            // views of old mappings onto live covered frames are untouched
            assert forall|w: usize|
                (!area_has_key(a, vpn_key(w as nat)) && ms0.maps(w) && mem0.covers(
                    spec_pte_ppn(ms0.leaf_of(w)->0) as nat,
                ) && alloc0.is_allocated(
                    spec_pte_ppn(ms0.leaf_of(w)->0) as nat,
                )) implies #[trigger] self.view_page(*mem, w) == ms0.view_page(mem0, w) by {
                assert(self.leaf_of(w) == ms0.leaf_of(w));
                assert(mem.page(spec_pte_ppn(ms0.leaf_of(w)->0) as nat) == mem0.page(
                    spec_pte_ppn(ms0.leaf_of(w)->0) as nat,
                ));
            }
        }
    }
}

impl MemorySet {
    /// Whether every page of `[l, r)` is still unmapped; the walker is
    /// consulted page by page.
    pub fn range_unmapped(&self, l: VirtPageNum, r: VirtPageNum) -> (ok: bool)
        requires
            self.page_table.shape_wf(),
            l.0 <= r.0,
        ensures
            ok == forall|j: int| 0 <= j < r.0 - l.0 ==> !#[trigger] self.maps((l.0 + j) as usize),
    {
        let mut v: usize = l.0;
        while v < r.0
            invariant
                l.0 <= v <= r.0,
                self.page_table.shape_wf(),
                forall|j: int| 0 <= j < v - l.0 ==> !#[trigger] self.maps((l.0 + j) as usize),
            decreases r.0 - v,
        {
            match self.translate(VirtPageNum(v)) {
                Some(e) => {
                    if e.is_valid() {
                        proof {
                            assert(self.maps((l.0 + (v - l.0)) as usize));
                        }
                        return false;
                    }
                },
                None => (),
            }
            assert(!self.maps((l.0 + (v - l.0)) as usize));
            v = v + 1;
        }
        true
    }

    /// Insert a fresh framed region spanning the given addresses.
    pub fn insert_framed_area(
        &mut self,
        start_va: VirtAddr,
        end_va: VirtAddr,
        permission: u8,
        alloc: &mut StackFrameAllocator,
        mem: &mut PhysMem,
    )
        requires
            old(self).wf(*old(alloc), *old(mem)),
            sys_inv(*old(alloc), *old(mem)),
            start_va.0 <= end_va.0,
            end_va.0 / PAGE_SIZE + 1 - start_va.0 / PAGE_SIZE < 0x8000000,
            forall|j: int|
                0 <= j < (end_va.0 + PAGE_SIZE - 1) / (PAGE_SIZE as int) - start_va.0 / PAGE_SIZE
                    ==> !#[trigger] old(self).maps((start_va.0 / PAGE_SIZE + j) as usize),
            spec_usable(*old(alloc)) >= 3 * ((end_va.0 + PAGE_SIZE - 1) / (PAGE_SIZE as int)
                - start_va.0 / PAGE_SIZE),
        ensures
            sys_inv(*final(alloc), *final(mem)),
            final(self).wf(*final(alloc), *final(mem)),
            final(mem).base == old(mem).base,
            final(mem).pages@.len() == old(mem).pages@.len(),
            final(self).areas@.len() == old(self).areas@.len() + 1,
            forall|i: int|
                0 <= i < old(self).areas@.len() ==> final(self).areas@[i] == old(self).areas@[i],
            final(self).areas@.last().vpn_range.l.0 == start_va.0 / PAGE_SIZE,
            final(self).areas@.last().vpn_range.r.0 == (end_va.0 + PAGE_SIZE - 1) / (
            PAGE_SIZE as int),
            final(self).areas@.last().map_type == MapType::Framed,
            final(self).areas@.last().map_perm == permission,
            final(self).trampoline == old(self).trampoline,
            forall|w: usize|
                !area_has_key(final(self).areas@.last(), vpn_key(w as nat)) ==> final(self).maps(w)
                    == old(self).maps(w),
            forall|w: usize|
                !area_has_key(final(self).areas@.last(), vpn_key(w as nat)) && old(self).maps(w)
                    ==> final(self).leaf_of(w) == old(self).leaf_of(w),
            forall|q: nat| old(alloc).is_allocated(q) ==> final(alloc).is_allocated(q),
            forall|q: nat| final(alloc).is_free(q) ==> old(alloc).is_free(q),
            forall|q: nat|
                old(mem).covers(q) && old(alloc).is_allocated(q) ==> final(mem).page(q) == old(mem).page(q),
            spec_usable(*final(alloc)) >= spec_usable(*old(alloc)) - 3 * ((end_va.0 + PAGE_SIZE
                - 1) / (PAGE_SIZE as int) - start_va.0 / PAGE_SIZE),
    {
        let area = MapArea::new(start_va, end_va, MapType::Framed, permission);
        self.push(area, None, alloc, mem);
    }

    /// Where a framed region holds the page: the region's index and the
    /// page's position in it.
    pub open spec fn spec_locate(&self, v: usize) -> Option<(int, int)> {
        if exists|i: int, k: int| self.locates_at(v, i, k) {
            Some(choose|i: int, k: int| self.locates_at(v, i, k))
        } else {
            None
        }
    }

    /// The page `v` is page `k` of framed region `i`.
    pub open spec fn locates_at(&self, v: usize, i: int, k: int) -> bool {
        &&& 0 <= i < self.areas@.len()
        &&& self.areas@[i].map_type == MapType::Framed
        &&& 0 <= k < self.areas@[i].vpn_range.r.0 - self.areas@[i].vpn_range.l.0
        &&& self.areas@[i].vpn_range.l.0 + k == v
    }

    /// Whether a framed region with all the needed permission bits holds the
    /// page.
    pub open spec fn user_accessible(&self, v: usize, need: u8) -> bool {
        exists|i: int, k: int|
            #[trigger] self.locates_at(v, i, k) && (self.areas@[i].map_perm & need) == need
    }

    /// Find the framed region holding the page, with the page's index in it.
    pub fn locate(&self, vpn: VirtPageNum) -> (r: Option<(usize, usize)>)
        requires
            forall|i: int|
                0 <= i < self.areas@.len() ==> (#[trigger] self.areas@[i]).vpn_range.l.0
                    <= self.areas@[i].vpn_range.r.0,
        ensures
            match r {
                Some((i, k)) => self.locates_at(vpn.0, i as int, k as int),
                None => forall|i: int, k: int| !#[trigger] self.locates_at(vpn.0, i, k),
            },
    {
        let mut i: usize = 0;
        let n = self.areas.len();
        while i < n
            invariant
                i <= n,
                n == self.areas@.len(),
                forall|ii: int|
                    0 <= ii < n ==> (#[trigger] self.areas@[ii]).vpn_range.l.0
                        <= self.areas@[ii].vpn_range.r.0,
                forall|ii: int, k: int| ii < i ==> !#[trigger] self.locates_at(vpn.0, ii, k),
            decreases n - i,
        {
            let a = &self.areas[i];
            if matches!(a.map_type, MapType::Framed) && a.vpn_range.get_start().0 <= vpn.0 && vpn.0
                < a.vpn_range.get_end().0 {
                let k = vpn.0 - a.vpn_range.get_start().0;
                assert(self.locates_at(vpn.0, i as int, k as int));
                return Some((i, k));
            }
            assert forall|k: int| !#[trigger] self.locates_at(vpn.0, i as int, k) by {}
            i = i + 1;
        }
        None
    }

    /// The byte a user address reads through this space.
    pub open spec fn byte_at(&self, mem: PhysMem, addr: usize) -> u8 {
        self.view_page(mem, (addr / PAGE_SIZE) as usize)[addr as int % (PAGE_SIZE as int)]
    }

    /// Read one byte at a user virtual address, checking the permission
    /// bits; none when no framed region with them covers the address.
    pub fn read_user_byte(
        &self,
        mem: &PhysMem,
        addr: usize,
        need: u8,
        alloc: &StackFrameAllocator,
    ) -> (r: Option<u8>)
        requires
            self.wf(*alloc, *mem),
            sys_inv(*alloc, *mem),
        ensures
            r is Some <==> self.user_accessible((addr / PAGE_SIZE) as usize, need),
            r matches Some(b) ==> b == self.byte_at(*mem, addr),
    {
        let vpn = VirtAddr(addr).floor();
        match self.locate(vpn) {
            Some((i, k)) => {
                let a = &self.areas[i];
                if a.map_perm & need == need {
                    let ppn = PhysPageNum(a.data_frames[k].1);
                    let b = mem.read_byte(ppn, addr % PAGE_SIZE);
                    proof {
                        assert(self.locates_at(vpn.0, i as int, k as int));
                        assert(self.user_accessible(vpn.0, need));
                        crate::page_table::lemma_mapped_leaf_flags(
                            a.data_frames@[k as int].1 as u64,
                            a.map_perm,
                        );
                        assert(self.leaf_of(vpn.0) == Some(
                            spec_pte_new(a.data_frames@[k as int].1 as u64, a.map_perm | PTE_V),
                        ));
                    }
                    Some(b)
                } else {
                    proof {
                        lemma_locate_unique(*self, vpn.0, i as int, k as int);
                    }
                    None
                }
            },
            None => None,
        }
    }

    /// Write one byte at a user virtual address, checking the permission
    /// bits; false when no framed region with them covers the address.
    pub fn write_user_byte(
        &self,
        mem: &mut PhysMem,
        addr: usize,
        b: u8,
        need: u8,
        alloc: &StackFrameAllocator,
    ) -> (ok: bool)
        requires
            self.wf(*alloc, *old(mem)),
            sys_inv(*alloc, *old(mem)),
        ensures
            final(mem).wf(),
            final(mem).base == old(mem).base,
            final(mem).pages@.len() == old(mem).pages@.len(),
            self.wf(*alloc, *final(mem)),
            ok == self.user_accessible((addr / PAGE_SIZE) as usize, need),
            ok ==> final(mem).page(
                spec_pte_ppn(self.leaf_of((addr / PAGE_SIZE) as usize)->0) as nat,
            ) == old(mem).page(spec_pte_ppn(self.leaf_of((addr / PAGE_SIZE) as usize)->0) as nat).update(
                addr as int % (PAGE_SIZE as int),
                b,
            ),
            ok ==> forall|q: nat|
                old(mem).covers(q) && q != spec_pte_ppn(
                    self.leaf_of((addr / PAGE_SIZE) as usize)->0,
                ) ==> final(mem).page(q) == old(mem).page(q),
            !ok ==> final(mem).pages@ == old(mem).pages@,
    {
        let vpn = VirtAddr(addr).floor();
        match self.locate(vpn) {
            Some((i, k)) => {
                let a = &self.areas[i];
                if a.map_perm & need == need {
                    let ppn = PhysPageNum(a.data_frames[k].1);
                    proof {
                        assert(self.locates_at(vpn.0, i as int, k as int));
                        assert(self.user_accessible(vpn.0, need));
                        crate::page_table::lemma_mapped_leaf_flags(
                            a.data_frames@[k as int].1 as u64,
                            a.map_perm,
                        );
                        assert(self.leaf_of(vpn.0) == Some(
                            spec_pte_new(a.data_frames@[k as int].1 as u64, a.map_perm | PTE_V),
                        ));
                    }
                    mem.write_byte(ppn, addr % PAGE_SIZE, b);
                    true
                } else {
                    proof {
                        lemma_locate_unique(*self, vpn.0, i as int, k as int);
                    }
                    false
                }
            },
            None => false,
        }
    }
}

/// One page lies in at most one region: where it is located is decided by
/// the region found.
pub proof fn lemma_locate_unique(ms: MemorySet, v: usize, i: int, k: int)
    requires
        ms.locates_at(v, i, k),
        forall|a: int, b: int|
            0 <= a < b < ms.areas@.len() ==> areas_keys_disjoint(ms.areas@[a], ms.areas@[b]),
        forall|a: int|
            0 <= a < ms.areas@.len() ==> (#[trigger] ms.areas@[a]).vpn_range.r.0
                - ms.areas@[a].vpn_range.l.0 < 0x8000000,
    ensures
        forall|i2: int, k2: int| #[trigger] ms.locates_at(v, i2, k2) ==> i2 == i && k2 == k,
{
    assert forall|i2: int, k2: int| #[trigger] ms.locates_at(v, i2, k2) implies i2 == i && k2
        == k by {
        if i2 != i {
            let a = ms.areas@[i];
            let b = ms.areas@[i2];
            assert(vpn_key((a.vpn_range.l.0 + k) as nat) == vpn_key((b.vpn_range.l.0 + k2) as nat));
            if i < i2 {
                assert(areas_keys_disjoint(ms.areas@[i], ms.areas@[i2]));
            } else {
                assert(areas_keys_disjoint(ms.areas@[i2], ms.areas@[i]));
            }
        }
    }
}

/// Pages covered by a sequence of regions, first region first.
pub open spec fn spec_area_pages(areas: Seq<MapArea>) -> int
    decreases areas.len(),
{
    if areas.len() == 0 {
        0
    } else {
        (areas[0].vpn_range.r.0 - areas[0].vpn_range.l.0) + spec_area_pages(areas.drop_first())
    }
}

/// The page count of well-formed regions is not negative.
pub proof fn lemma_area_pages_nonneg(areas: Seq<MapArea>)
    requires
        forall|i: int|
            0 <= i < areas.len() ==> (#[trigger] areas[i]).vpn_range.l.0 <= areas[i].vpn_range.r.0,
    ensures
        spec_area_pages(areas) >= 0,
        areas.len() > 0 ==> spec_area_pages(areas) >= areas[0].vpn_range.r.0
            - areas[0].vpn_range.l.0,
    decreases areas.len(),
{
    if areas.len() > 0 {
        assert(forall|i: int|
            0 <= i < areas.drop_first().len() ==> (#[trigger] areas.drop_first()[i])
                == areas[i + 1]);
        lemma_area_pages_nonneg(areas.drop_first());
    }
}

impl MemorySet {
    /// Clone a user space: a new table, the same trampoline, and for every
    /// region a fresh region with identical range and permissions whose
    /// pages hold the same bytes.
    #[verifier::rlimit(100)]
    #[verifier::spinoff_prover]
    pub fn from_existed_user(
        user_space: &MemorySet,
        alloc: &mut StackFrameAllocator,
        mem: &mut PhysMem,
    ) -> (r: Option<MemorySet>)
        requires
            user_space.wf(*old(alloc), *old(mem)),
            sys_inv(*old(alloc), *old(mem)),
            user_space.trampoline is Some,
            forall|i: int|
                0 <= i < user_space.areas@.len() ==> (#[trigger] user_space.areas@[i]).map_type
                    == MapType::Framed,
            spec_usable(*old(alloc)) >= 3 * spec_area_pages(user_space.areas@) + 3,
        ensures
            sys_inv(*final(alloc), *final(mem)),
            final(mem).base == old(mem).base,
            final(mem).pages@.len() == old(mem).pages@.len(),
            user_space.wf(*final(alloc), *final(mem)),
            forall|q: nat| old(alloc).is_allocated(q) ==> final(alloc).is_allocated(q),
            forall|q: nat| final(alloc).is_free(q) ==> old(alloc).is_free(q),
            forall|q: nat|
                old(mem).covers(q) && old(alloc).is_allocated(q) ==> final(mem).page(q) == old(mem).page(q),
            r matches Some(ms) ==> {
                &&& ms.wf(*final(alloc), *final(mem))
                &&& ms.trampoline == user_space.trampoline
                &&& ms.areas@.len() == user_space.areas@.len()
                &&& forall|i: int|
                    0 <= i < ms.areas@.len() ==> (#[trigger] ms.areas@[i]).vpn_range
                        == user_space.areas@[i].vpn_range && ms.areas@[i].map_type
                        == user_space.areas@[i].map_type && ms.areas@[i].map_perm
                        == user_space.areas@[i].map_perm
                // the clone reads the same bytes at every cloned page
                &&& forall|i: int, k: int|
                    0 <= i < ms.areas@.len() && 0 <= k < ms.areas@[i].vpn_range.r.0
                        - ms.areas@[i].vpn_range.l.0 ==> #[trigger] ms.view_page(
                        *final(mem),
                        (ms.areas@[i].vpn_range.l.0 + k) as usize,
                    ) == user_space.view_page(
                        *final(mem),
                        (user_space.areas@[i].vpn_range.l.0 + k) as usize,
                    )
                // the clone's frames are fresh: none was live before, so a
                // later write through the clone can touch no frame of the
                // source
                &&& forall|i: int, k: int|
                    0 <= i < ms.areas@.len() && 0 <= k < ms.areas@[i].data_frames@.len()
                        ==> !old(alloc).is_allocated(
                        (#[trigger] ms.areas@[i].data_frames@[k]).1 as nat,
                    )
                &&& forall|i: int, k: int|
                    0 <= i < ms.areas@.len() && 0 <= k < ms.areas@[i].data_frames@.len()
                        ==> (#[trigger] ms.areas@[i].data_frames@[k]).1
                        != user_space.areas@[i].data_frames@[k].1
            },
            r is None ==> spec_usable(*old(alloc)) < 3 * spec_area_pages(user_space.areas@) + 3,
    {
        proof {
            lemma_area_pages_nonneg(user_space.areas@);
        }
        let got = MemorySet::new_bare(alloc, mem);
        let mut ms = match got {
            Some(m) => m,
            None => {
                return None;
            },
        };
        let tramp_ppn: usize = match user_space.trampoline {
            Some(p) => p,
            None => {
                return None;
            },
        };
        proof {
            assert(!ms.maps(spec_trampoline_vpn()));
        }
        ms.map_trampoline(PhysPageNum(tramp_ppn), alloc, mem);
        let ghost alloc0 = *old(alloc);
        let ghost mem0 = *old(mem);
        proof {
            assert(user_space.areas@.skip(0) =~= user_space.areas@);
            assert forall|ii: int, k: int|
                0 <= ii < user_space.areas@.len() && 0 <= k
                    < user_space.areas@[ii].vpn_range.r.0
                    - user_space.areas@[ii].vpn_range.l.0 implies !#[trigger] ms.maps(
                (user_space.areas@[ii].vpn_range.l.0 + k) as usize,
            ) by {
                let w: usize = (user_space.areas@[ii].vpn_range.l.0 + k) as usize;
                if vpn_key(w as nat) != vpn_key(spec_trampoline_vpn() as nat) {
                    assert(ms.maps(w) == false);
                } else {
                    assert(!area_has_key(user_space.areas@[ii], vpn_key(
                        spec_trampoline_vpn() as nat,
                    )));
                    assert(vpn_key((user_space.areas@[ii].vpn_range.l.0 + k) as nat) == vpn_key(
                        w as nat,
                    ));
                    assert(false);
                }
            }
        }
        let n = user_space.areas.len();
        let mut i: usize = 0;
        while i < n
            invariant
                i <= n,
                n == user_space.areas@.len(),
                user_space.wf(alloc0, mem0),
                sys_inv(*alloc, *mem),
                ms.wf(*alloc, *mem),
                ms.trampoline == user_space.trampoline,
                forall|ii: int|
                    0 <= ii < n ==> (#[trigger] user_space.areas@[ii]).map_type == MapType::Framed,
                ms.areas@.len() == i,
                forall|ii: int|
                    0 <= ii < i ==> (#[trigger] ms.areas@[ii]).vpn_range
                        == user_space.areas@[ii].vpn_range && ms.areas@[ii].map_type
                        == user_space.areas@[ii].map_type && ms.areas@[ii].map_perm
                        == user_space.areas@[ii].map_perm,
                forall|ii: int, k: int|
                    0 <= ii < i && 0 <= k < ms.areas@[ii].vpn_range.r.0
                        - ms.areas@[ii].vpn_range.l.0 ==> #[trigger] ms.view_page(
                        *mem,
                        (ms.areas@[ii].vpn_range.l.0 + k) as usize,
                    ) == user_space.view_page(
                        mem0,
                        (user_space.areas@[ii].vpn_range.l.0 + k) as usize,
                    ),
                forall|ii: int, k: int|
                    0 <= ii < i && 0 <= k < ms.areas@[ii].data_frames@.len()
                        ==> !alloc0.is_allocated(
                        (#[trigger] ms.areas@[ii].data_frames@[k]).1 as nat,
                    ),
                // remaining regions are still unmapped in the clone
                forall|ii: int, k: int|
                    i <= ii < n && 0 <= k < user_space.areas@[ii].vpn_range.r.0
                        - user_space.areas@[ii].vpn_range.l.0 ==> !#[trigger] ms.maps(
                        (user_space.areas@[ii].vpn_range.l.0 + k) as usize,
                    ),
                spec_usable(*alloc) >= 3 * spec_area_pages(user_space.areas@.skip(i as int)),
                forall|q: nat| alloc0.is_allocated(q) ==> alloc.is_allocated(q),
                forall|q: nat| alloc.is_free(q) ==> alloc0.is_free(q),
                mem.base == mem0.base,
                mem.pages@.len() == mem0.pages@.len(),
                forall|q: nat|
                    mem0.covers(q) && alloc0.is_allocated(q) ==> mem.page(q) == mem0.page(q),
            decreases n - i,
        {
            let src = &user_space.areas[i];
            let new_area = MapArea::from_another(src);
            let npages: usize = src.vpn_range.get_end().0 - src.vpn_range.get_start().0;
            // gather the source bytes, page by page
            let mut data: Vec<u8> = Vec::new();
            let mut k: usize = 0;
            while k < npages
                invariant
                    k <= npages,
                    npages == src.vpn_range.r.0 - src.vpn_range.l.0,
                    src == user_space.areas@[i as int],
                    0 <= i < n,
                    n == user_space.areas@.len(),
                    user_space.wf(alloc0, mem0),
                    src.map_type == MapType::Framed,
                    mem.wf(),
                    mem.base == mem0.base,
                    mem.pages@.len() == mem0.pages@.len(),
                    forall|q: nat|
                        mem0.covers(q) && alloc0.is_allocated(q) ==> mem.page(q) == mem0.page(q),
                    data@.len() == k * (PAGE_SIZE as int),
                    forall|kk: int, bb: int|
                        0 <= kk < k && 0 <= bb < PAGE_SIZE ==> #[trigger] data@[kk * (
                        PAGE_SIZE as int) + bb] == user_space.view_page(
                            mem0,
                            (src.vpn_range.l.0 + kk) as usize,
                        )[bb],
                decreases npages - k,
            {
                let ppn = PhysPageNum(src.data_frames[k].1);
                proof {
                    assert(area_frames_ok(user_space.areas@[i as int], alloc0, mem0));
                    crate::page_table::lemma_mapped_leaf_flags(
                        src.data_frames@[k as int].1 as u64,
                        src.map_perm,
                    );
                    assert(user_space.leaf_of((src.vpn_range.l.0 + k) as usize) == Some(
                        spec_pte_new(src.data_frames@[k as int].1 as u64, src.map_perm | PTE_V),
                    ));
                }
                let mut b: usize = 0;
                while b < PAGE_SIZE
                    invariant
                        b <= PAGE_SIZE,
                        k < npages,
                        npages == src.vpn_range.r.0 - src.vpn_range.l.0,
                        src == user_space.areas@[i as int],
                        0 <= i < n,
                        n == user_space.areas@.len(),
                        user_space.wf(alloc0, mem0),
                        src.map_type == MapType::Framed,
                        ppn.0 == src.data_frames@[k as int].1,
                        mem.wf(),
                        mem.base == mem0.base,
                        mem.pages@.len() == mem0.pages@.len(),
                        forall|q: nat|
                            mem0.covers(q) && alloc0.is_allocated(q) ==> mem.page(q) == mem0.page(
                                q,
                            ),
                        mem.covers(ppn.0 as nat),
                        mem.page(ppn.0 as nat) == mem0.page(ppn.0 as nat),
                        user_space.view_page(mem0, (src.vpn_range.l.0 + k) as usize) == mem0.page(
                            ppn.0 as nat,
                        ),
                        data@.len() == k * (PAGE_SIZE as int) + b,
                        forall|kk: int, bb: int|
                            0 <= kk < k && 0 <= bb < PAGE_SIZE ==> #[trigger] data@[kk * (
                            PAGE_SIZE as int) + bb] == user_space.view_page(
                                mem0,
                                (src.vpn_range.l.0 + kk) as usize,
                            )[bb],
                        forall|bb: int|
                            0 <= bb < b ==> #[trigger] data@[k * (PAGE_SIZE as int) + bb]
                                == user_space.view_page(
                                mem0,
                                (src.vpn_range.l.0 + k) as usize,
                            )[bb],
                    decreases PAGE_SIZE - b,
                {
                    let byte = mem.read_byte(ppn, b);
                    data.push(byte);
                    b = b + 1;
                }
                k = k + 1;
            }
            proof {
                lemma_area_pages_nonneg(user_space.areas@.skip(i as int));
                assert(user_space.areas@.skip(i as int)[0] == user_space.areas@[i as int]);
                assert(user_space.areas@.skip(i as int).drop_first() =~= user_space.areas@.skip(
                    i as int + 1,
                ));
                lemma_area_pages_nonneg(user_space.areas@.skip(i as int + 1));
            }
            let ghost ms_pre = ms;
            let ghost mem_pre = *mem;
            let ghost alloc_pre = *alloc;
            let ghost pushed = new_area;
            ms.push(new_area, Some(&data), alloc, mem);
            i = i + 1;
            proof {
                let a = ms.areas@.last();
                assert(a.vpn_range == pushed.vpn_range);
                assert(a.vpn_range.l.0 == pushed.vpn_range.l.0);
                assert(pushed.vpn_range == src.vpn_range);
                assert(user_space.areas@[i - 1] == src);
                // contents of the just-cloned region
                assert forall|k2: int|
                    0 <= k2 < a.vpn_range.r.0 - a.vpn_range.l.0 implies #[trigger] ms.view_page(
                    *mem,
                    (a.vpn_range.l.0 + k2) as usize,
                ) == user_space.view_page(
                    mem0,
                    (user_space.areas@[i - 1].vpn_range.l.0 + k2) as usize,
                ) by {
                    assert(ms.view_page(*mem, (pushed.vpn_range.l.0 + k2) as usize) == data_chunk(
                        data@,
                        k2,
                    ));
                    assert((a.vpn_range.l.0 + k2) as usize == (pushed.vpn_range.l.0 + k2) as usize);
                    let p2 = src.data_frames@[k2].1;
                    assert(area_frames_ok(user_space.areas@[i - 1], alloc0, mem0));
                    crate::page_table::lemma_mapped_leaf_flags(p2 as u64, src.map_perm);
                    assert(user_space.view_page(
                        mem0,
                        (src.vpn_range.l.0 + k2) as usize,
                    ) == mem0.page(p2 as nat));
                    assert(mem0.page(p2 as nat).len() == PAGE_SIZE);
                    assert(data_chunk(data@, k2) =~= user_space.view_page(
                        mem0,
                        (user_space.areas@[i - 1].vpn_range.l.0 + k2) as usize,
                    ));
                }
                // earlier cloned regions keep their bytes
                assert forall|ii: int, k2: int|
                    0 <= ii < i - 1 && 0 <= k2 < ms.areas@[ii].vpn_range.r.0
                        - ms.areas@[ii].vpn_range.l.0 implies #[trigger] ms.view_page(
                    *mem,
                    (ms.areas@[ii].vpn_range.l.0 + k2) as usize,
                ) == user_space.view_page(
                    mem0,
                    (user_space.areas@[ii].vpn_range.l.0 + k2) as usize,
                ) by {
                    let w: usize = (ms_pre.areas@[ii].vpn_range.l.0 + k2) as usize;
                    assert(ms_pre.locates_at(w, ii, k2));
                    assert(area_mapped_wf(ms_pre.areas@[ii], ms_pre.page_table));
                    let p = ms_pre.areas@[ii].data_frames@[k2].1;
                    crate::page_table::lemma_mapped_leaf_flags(
                        p as u64,
                        ms_pre.areas@[ii].map_perm,
                    );
                    assert(ms_pre.maps(w));
                    assert(spec_pte_ppn(ms_pre.leaf_of(w)->0) == p);
                    assert(area_frames_ok(ms_pre.areas@[ii], alloc_pre, mem_pre));
                    assert(mem_pre.covers(p as nat) && alloc_pre.is_allocated(p as nat));
                    assert(ms_pre.areas@[ii].vpn_range == user_space.areas@[ii].vpn_range);
                    if area_has_key(ms.areas@.last(), vpn_key(w as nat)) {
                        let u = choose|u: int|
                            0 <= u < a.vpn_range.r.0 - a.vpn_range.l.0 && #[trigger] vpn_key(
                                (a.vpn_range.l.0 + u) as nat,
                            ) == vpn_key(w as nat);
                        assert(ii < i - 1);
                        assert(areas_keys_disjoint(
                            user_space.areas@[ii],
                            user_space.areas@[i - 1],
                        ));
                        assert(vpn_key((user_space.areas@[i - 1].vpn_range.l.0 + u) as nat)
                            == vpn_key((a.vpn_range.l.0 + u) as nat));
                        assert(vpn_key((user_space.areas@[ii].vpn_range.l.0 + k2) as nat)
                            == vpn_key(w as nat));
                        assert(false);
                    }
                    assert(!area_has_key(ms.areas@.last(), vpn_key(w as nat)));
                    assert(ms.view_page(*mem, w) == ms_pre.view_page(mem_pre, w));
                    assert(ms_pre.view_page(mem_pre, w) == user_space.view_page(
                        mem0,
                        (user_space.areas@[ii].vpn_range.l.0 + k2) as usize,
                    ));
                }
                // the cloned frames so far were never live before this call
                assert forall|ii: int, k2: int|
                    0 <= ii < i && 0 <= k2 < ms.areas@[ii].data_frames@.len() implies !alloc0.is_allocated(
                    (#[trigger] ms.areas@[ii].data_frames@[k2]).1 as nat,
                ) by {
                    if ii < i - 1 {
                        assert(ms.areas@[ii] == ms_pre.areas@[ii]);
                    } else {
                        let p = a.data_frames@[k2].1;
                        assert(!alloc_pre.is_allocated(p as nat));
                        assert(area_frames_ok(a, *alloc, *mem));
                        assert(alloc.is_allocated(p as nat));
                        assert(alloc_pre.is_free(p as nat));
                        assert(alloc0.is_free(p as nat));
                    }
                }
                // remaining source regions still unmapped in the clone
                assert forall|ii: int, k2: int|
                    i <= ii < n && 0 <= k2 < user_space.areas@[ii].vpn_range.r.0
                        - user_space.areas@[ii].vpn_range.l.0 implies !#[trigger] ms.maps(
                    (user_space.areas@[ii].vpn_range.l.0 + k2) as usize,
                ) by {
                    let w: usize = (user_space.areas@[ii].vpn_range.l.0 + k2) as usize;
                    assert(!ms_pre.maps(w));
                    if area_has_key(ms.areas@.last(), vpn_key(w as nat)) {
                        let u = choose|u: int|
                            0 <= u < a.vpn_range.r.0 - a.vpn_range.l.0 && #[trigger] vpn_key(
                                (a.vpn_range.l.0 + u) as nat,
                            ) == vpn_key(w as nat);
                        assert(i - 1 < ii);
                        assert(areas_keys_disjoint(
                            user_space.areas@[i - 1],
                            user_space.areas@[ii],
                        ));
                        assert(vpn_key((user_space.areas@[i - 1].vpn_range.l.0 + u) as nat)
                            == vpn_key((a.vpn_range.l.0 + u) as nat));
                        assert(vpn_key((user_space.areas@[ii].vpn_range.l.0 + k2) as nat)
                            == vpn_key(w as nat));
                        assert(false);
                    }
                    assert(!area_has_key(ms.areas@.last(), vpn_key(w as nat)));
                }
            }
        }
        proof {
            // the source space stays well-formed against the final state
            lemma_wf_monotone(*user_space, alloc0, *alloc, mem0, *mem);
            assert forall|ii: int, k: int|
                0 <= ii < ms.areas@.len() && 0 <= k < ms.areas@[ii].data_frames@.len() implies (
            #[trigger] ms.areas@[ii].data_frames@[k]).1
                != user_space.areas@[ii].data_frames@[k].1 by {
                assert(area_frames_ok(user_space.areas@[ii], alloc0, mem0));
                assert(alloc0.is_allocated(user_space.areas@[ii].data_frames@[k].1 as nat));
                assert(!alloc0.is_allocated(ms.areas@[ii].data_frames@[k].1 as nat));
            }
            assert forall|ii: int, k: int|
                0 <= ii < ms.areas@.len() && 0 <= k < ms.areas@[ii].vpn_range.r.0
                    - ms.areas@[ii].vpn_range.l.0 implies #[trigger] ms.view_page(
                *mem,
                (ms.areas@[ii].vpn_range.l.0 + k) as usize,
            ) == user_space.view_page(
                *mem,
                (user_space.areas@[ii].vpn_range.l.0 + k) as usize,
            ) by {
                let w: usize = (user_space.areas@[ii].vpn_range.l.0 + k) as usize;
                assert(area_frames_ok(user_space.areas@[ii], alloc0, mem0));
                let p = user_space.areas@[ii].data_frames@[k].1;
                crate::page_table::lemma_mapped_leaf_flags(
                    p as u64,
                    user_space.areas@[ii].map_perm,
                );
                assert(mem.page(p as nat) == mem0.page(p as nat));
            }
        }
        Some(ms)
    }
}

/// A space's well-formedness survives any step that only allocates fresh
/// frames and leaves the bytes of live frames alone.
pub proof fn lemma_wf_monotone(
    ms: MemorySet,
    alloc_pre: StackFrameAllocator,
    alloc_post: StackFrameAllocator,
    mem_pre: PhysMem,
    mem_post: PhysMem,
)
    requires
        ms.wf(alloc_pre, mem_pre),
        forall|q: nat| alloc_pre.is_allocated(q) ==> alloc_post.is_allocated(q),
        mem_post.base == mem_pre.base,
        mem_post.pages@.len() == mem_pre.pages@.len(),
    ensures
        ms.wf(alloc_post, mem_post),
{
    assert forall|i: int| 0 <= i < ms.areas@.len() implies area_frames_ok(
        #[trigger] ms.areas@[i],
        alloc_post,
        mem_post,
    ) by {
        assert(area_frames_ok(ms.areas@[i], alloc_pre, mem_pre));
        assert forall|k: int| 0 <= k < ms.areas@[i].data_frames@.len() implies alloc_post.is_allocated(
            (#[trigger] ms.areas@[i].data_frames@[k]).1 as nat,
        ) && mem_post.covers(ms.areas@[i].data_frames@[k].1 as nat) by {
            assert(alloc_pre.is_allocated(ms.areas@[i].data_frames@[k].1 as nat));
        }
    }
}

/// Copy `len` bytes of a vector from `start`.
pub fn subvec(data: &Vec<u8>, start: usize, len: usize) -> (r: Vec<u8>)
    requires
        start + len <= data@.len(),
    ensures
        r@ == data@.subrange(start as int, start as int + len),
{
    let n: usize = data.len();
    let mut v: Vec<u8> = Vec::new();
    let mut i: usize = 0;
    while i < len
        invariant
            i <= len,
            start + len <= data@.len(),
            data@.len() <= usize::MAX,
            v@.len() == i,
            forall|j: int| 0 <= j < i ==> v@[j] == data@[start + j],
        decreases len - i,
    {
        v.push(data[start + i]);
        i = i + 1;
    }
    proof {
        assert(v@ =~= data@.subrange(start as int, start as int + len));
    }
    v
}

/// Whether the given frame backs a page or a table node of the space.
pub open spec fn ms_owns_frame(ms: MemorySet, q: nat) -> bool {
    (exists|i: int, k: int|
        0 <= i < ms.areas@.len() && 0 <= k < ms.areas@[i].data_frames@.len() && (
        #[trigger] ms.areas@[i].data_frames@[k]).1 == q) || (exists|f: int|
        0 <= f < ms.page_table.frames@.len() && (#[trigger] ms.page_table.frames@[f]) == q)
}

impl MemorySet {
    /// Remove the region that starts at the given page, if any: clear its
    /// leaves and hand its frames back.
    #[verifier::rlimit(100)]
    #[verifier::spinoff_prover]
    pub fn remove_area_with_start_vpn(
        &mut self,
        start_vpn: VirtPageNum,
        alloc: &mut StackFrameAllocator,
        mem: &mut PhysMem,
    )
        requires
            old(self).wf(*old(alloc), *old(mem)),
            sys_inv(*old(alloc), *old(mem)),
        ensures
            sys_inv(*final(alloc), *final(mem)),
            final(self).wf(*final(alloc), *final(mem)),
            final(mem).pages@ == old(mem).pages@,
            final(mem).base == old(mem).base,
            final(self).trampoline == old(self).trampoline,
            final(self).page_table.root.ppn == old(self).page_table.root.ppn,
            final(alloc).current == old(alloc).current,
            final(alloc).end == old(alloc).end,
            // only frames this space owned go back to the allocator
            forall|q: nat|
                old(alloc).is_allocated(q) && !final(alloc).is_allocated(q) ==> ms_owns_frame(
                    *old(self),
                    q,
                ),
            forall|q: nat| final(alloc).is_allocated(q) ==> old(alloc).is_allocated(q),
            // no region starts there: nothing happens
            (forall|i: int|
                0 <= i < old(self).areas@.len() ==> (#[trigger] old(self).areas@[i]).vpn_range.l.0
                    != start_vpn.0) ==> final(self).areas@ == old(self).areas@ && final(self).page_table == old(self).page_table,
            // else one region starting there is removed and its pages unmapped
            (exists|i: int|
                0 <= i < old(self).areas@.len() && (#[trigger] old(self).areas@[i]).vpn_range.l.0
                    == start_vpn.0) ==> exists|i: int|
                {
                    &&& 0 <= i < old(self).areas@.len()
                    &&& (#[trigger] old(self).areas@[i]).vpn_range.l.0 == start_vpn.0
                    &&& forall|k: int|
                        0 <= k < i ==> (#[trigger] old(self).areas@[k]).vpn_range.l.0
                            != start_vpn.0
                    &&& final(self).areas@ == old(self).areas@.remove(i)
                    &&& old(self).areas@[i].map_type == MapType::Framed ==> forall|k: int|
                        0 <= k < old(self).areas@[i].vpn_range.r.0 - old(self).areas@[i].vpn_range.l.0 ==> !#[trigger] final(self).maps(
                            (old(self).areas@[i].vpn_range.l.0 + k) as usize,
                        )
                },
    {
        let ghost ms0 = *self;
        let ghost alloc0 = *alloc;
        let n = self.areas.len();
        let mut idx: usize = 0;
        let mut found: bool = false;
        while idx < n && !found
            invariant
                idx <= n,
                n == self.areas@.len(),
                forall|i: int|
                    0 <= i < idx ==> (#[trigger] self.areas@[i]).vpn_range.l.0 != start_vpn.0,
                found ==> idx < n && self.areas@[idx as int].vpn_range.l.0 == start_vpn.0,
            decreases n - idx, 1int - if found { 1int } else { 0int },
        {
            if self.areas[idx].vpn_range.get_start().0 == start_vpn.0 {
                found = true;
            } else {
                idx = idx + 1;
            }
        }
        if !found {
            proof {
                assert forall|i: int| 0 <= i < old(self).areas@.len() implies (#[trigger] old(self).areas@[i]).vpn_range.l.0 != start_vpn.0 by {
                    assert(self.areas@[i].vpn_range.l.0 != start_vpn.0);
                }
            }
            return ;
        }
        let area = self.areas.remove(idx);
        proof {
            assert forall|i: int|
                0 <= i < ms0.areas@.len() && ms0.areas@[i].vpn_range.l.0
                    != start_vpn.0 implies self.areas@.contains(ms0.areas@[i]) by {
                if i < idx {
                    assert(self.areas@[i] == ms0.areas@[i]);
                } else {
                    assert(i > idx);
                    assert(self.areas@[i - 1] == ms0.areas@[i]);
                }
            }
        }
        let npages = area.data_frames.len();
        let mut k: usize = 0;
        while k < npages
            invariant
                k <= npages,
                npages == area.data_frames@.len(),
                area == ms0.areas@[idx as int],
                0 <= idx < ms0.areas@.len(),
                ms0.wf(alloc0, *mem),
                self.areas@ == ms0.areas@.remove(idx as int),
                self.trampoline == ms0.trampoline,
                self.page_table.frames@ == ms0.page_table.frames@,
                self.page_table.root.ppn == ms0.page_table.root.ppn,
                sys_inv(*alloc, *mem),
                self.page_table.shape_wf(),
                alloc.current == alloc0.current,
                alloc.end == alloc0.end,
                // the first k leaves of the removed region are cleared
                forall|j: int|
                    0 <= j < k ==> !#[trigger] self.maps((area.vpn_range.l.0 + j) as usize),
                // the rest still carry their old leaves
                forall|j: int|
                    k <= j < npages ==> #[trigger] self.leaf_of((area.vpn_range.l.0 + j) as usize)
                        == ms0.leaf_of((area.vpn_range.l.0 + j) as usize),
                // the other regions' leaves are untouched
                forall|i2: int, u: int|
                    #![trigger self.leaf_of((ms0.areas@[i2].vpn_range.l.0 + u) as usize)]
                    0 <= i2 < ms0.areas@.len() && i2 != idx && 0 <= u
                        < ms0.areas@[i2].vpn_range.r.0 - ms0.areas@[i2].vpn_range.l.0
                        ==> self.leaf_of((ms0.areas@[i2].vpn_range.l.0 + u) as usize)
                        == ms0.leaf_of((ms0.areas@[i2].vpn_range.l.0 + u) as usize),
                // the trampoline leaf is untouched
                ms0.trampoline is Some ==> self.leaf_of(spec_trampoline_vpn()) == ms0.leaf_of(
                    spec_trampoline_vpn(),
                ),
                // frames after position k are still allocated; freed ones were ours
                forall|j: int|
                    k <= j < npages ==> alloc.is_allocated(
                        (#[trigger] area.data_frames@[j]).1 as nat,
                    ),
                forall|q: nat|
                    alloc0.is_allocated(q) && !alloc.is_allocated(q) ==> ms_owns_frame(ms0, q),
                forall|q: nat| alloc.is_allocated(q) ==> alloc0.is_allocated(q),
                forall|q: nat|
                    alloc0.is_allocated(q) && !alloc.is_allocated(q) ==> exists|j: int|
                        0 <= j < k && (#[trigger] area.data_frames@[j]).1 == q,
            decreases npages - k,
        {
            let ghost ms_in = *self;
            let vpn = VirtPageNum(area.data_frames[k].0);
            let ppn = PhysPageNum(area.data_frames[k].1);
            proof {
                assert(area_mapped_wf(ms0.areas@[idx as int], ms0.page_table));
                assert(area.data_frames@[k as int].0 == area.vpn_range.l.0 + k);
                crate::page_table::lemma_mapped_leaf_flags(
                    area.data_frames@[k as int].1 as u64,
                    area.map_perm,
                );
                assert(ms0.leaf_of((area.vpn_range.l.0 + k) as usize) == Some(
                    spec_pte_new(area.data_frames@[k as int].1 as u64, area.map_perm | PTE_V),
                ));
                assert(self.leaf_of((area.vpn_range.l.0 + k) as usize) == ms0.leaf_of(
                    (area.vpn_range.l.0 + k) as usize,
                ));
                assert(self.maps(vpn.0));
            }
            self.page_table.unmap(vpn);
            alloc.dealloc(ppn);
            k = k + 1;
            proof {
                lemma_remove_step(ms_in, *self, ms0, area, idx as int, (k - 1) as int, vpn.0);
                assert forall|q: nat|
                    alloc0.is_allocated(q) && !alloc.is_allocated(q) implies ms_owns_frame(
                    ms0,
                    q,
                ) && (exists|j: int|
                    0 <= j < k && (#[trigger] area.data_frames@[j]).1 == q) by {
                    if q == ppn.0 {
                        assert(ms0.areas@[idx as int].data_frames@[k - 1].1 == q);
                        assert(area.data_frames@[k - 1].1 == q);
                    }
                }
            }
        }
        proof {
            lemma_remove_area_wf(ms0, *self, *alloc, alloc0, *mem, idx as int);
            assert(ms0 == *old(self));
            assert(0 <= idx < old(self).areas@.len() && old(self).areas@[idx as int].vpn_range.l.0
                == start_vpn.0 && self.areas@ == old(self).areas@.remove(idx as int));
            assert forall|k: int| 0 <= k < idx implies (#[trigger] old(self).areas@[k]).vpn_range.l.0
                != start_vpn.0 by {
                assert(ms0.areas@[k].vpn_range.l.0 != start_vpn.0);
            }
            if area.map_type == MapType::Framed {
                assert forall|k: int|
                    0 <= k < old(self).areas@[idx as int].vpn_range.r.0 - old(self).areas@[idx as int].vpn_range.l.0 implies !#[trigger] self.maps(
                    (old(self).areas@[idx as int].vpn_range.l.0 + k) as usize,
                ) by {
                    assert(area_mapped_wf(ms0.areas@[idx as int], ms0.page_table));
                    assert(area.vpn_range == ms0.areas@[idx as int].vpn_range);
                    assert(area.data_frames@ == ms0.areas@[idx as int].data_frames@);
                    assert(ms0.areas@ == old(self).areas@);
                    assert(area.vpn_range.l.0 == old(self).areas@[idx as int].vpn_range.l.0
                        && area.vpn_range.r.0 == old(self).areas@[idx as int].vpn_range.r.0);
                    assert(area.data_frames@.len() == area.vpn_range.r.0 - area.vpn_range.l.0);
                    assert(k < area.data_frames@.len());
                    assert(!self.maps((area.vpn_range.l.0 + k) as usize));
                    assert((old(self).areas@[idx as int].vpn_range.l.0 + k) as usize == (
                    area.vpn_range.l.0 + k) as usize);
                }
            }
            assert(old(self).areas@[idx as int].map_type == area.map_type);
        }
    }
}

/// One cleared leaf changes nothing of the other regions, the pages of the
/// region that still wait, or the trampoline.
#[verifier::rlimit(100)]
#[verifier::spinoff_prover]
pub proof fn lemma_remove_step(
    pre: MemorySet,
    post: MemorySet,
    ms0: MemorySet,
    area: MapArea,
    idx: int,
    k: int,
    v: usize,
)
    requires
        0 <= idx < ms0.areas@.len(),
        area == ms0.areas@[idx],
        0 <= k < area.data_frames@.len(),
        area_mapped_wf(area, ms0.page_table),
        v == area.vpn_range.l.0 + k,
        area.data_frames@.len() == area.vpn_range.r.0 - area.vpn_range.l.0,
        area.vpn_range.r.0 - area.vpn_range.l.0 < 0x8000000,
        post.areas@ == pre.areas@,
        post.trampoline == pre.trampoline,
        // what unmap guarantees
        post.leaf_of(v) == Some(0u64),
        forall|w: usize|
            vpn_key(w as nat) != vpn_key(v as nat) ==> post.leaf_of(w) == pre.leaf_of(w),
        // pre-state facts from the loop
        forall|j: int|
            0 <= j < k ==> !#[trigger] pre.maps((area.vpn_range.l.0 + j) as usize),
        forall|j: int|
            k <= j < area.data_frames@.len() ==> #[trigger] pre.leaf_of(
                (area.vpn_range.l.0 + j) as usize,
            ) == ms0.leaf_of((area.vpn_range.l.0 + j) as usize),
        forall|i2: int, u: int|
            #![trigger pre.leaf_of((ms0.areas@[i2].vpn_range.l.0 + u) as usize)]
            0 <= i2 < ms0.areas@.len() && i2 != idx && 0 <= u < ms0.areas@[i2].vpn_range.r.0
                - ms0.areas@[i2].vpn_range.l.0 ==> pre.leaf_of(
                (ms0.areas@[i2].vpn_range.l.0 + u) as usize,
            ) == ms0.leaf_of((ms0.areas@[i2].vpn_range.l.0 + u) as usize),
        ms0.trampoline is Some ==> pre.leaf_of(spec_trampoline_vpn()) == ms0.leaf_of(
            spec_trampoline_vpn(),
        ),
        forall|i: int, j: int|
            0 <= i < j < ms0.areas@.len() ==> areas_keys_disjoint(ms0.areas@[i], ms0.areas@[j]),
        ms0.trampoline is Some ==> !area_has_key(area, vpn_key(spec_trampoline_vpn() as nat)),
        ms0.trampoline == pre.trampoline,
    ensures
        forall|j: int|
            0 <= j < k + 1 ==> !#[trigger] post.maps((area.vpn_range.l.0 + j) as usize),
        forall|j: int|
            k + 1 <= j < area.data_frames@.len() ==> #[trigger] post.leaf_of(
                (area.vpn_range.l.0 + j) as usize,
            ) == ms0.leaf_of((area.vpn_range.l.0 + j) as usize),
        forall|i2: int, u: int|
            #![trigger post.leaf_of((ms0.areas@[i2].vpn_range.l.0 + u) as usize)]
            0 <= i2 < ms0.areas@.len() && i2 != idx && 0 <= u < ms0.areas@[i2].vpn_range.r.0
                - ms0.areas@[i2].vpn_range.l.0 ==> post.leaf_of(
                (ms0.areas@[i2].vpn_range.l.0 + u) as usize,
            ) == ms0.leaf_of((ms0.areas@[i2].vpn_range.l.0 + u) as usize),
        ms0.trampoline is Some ==> post.leaf_of(spec_trampoline_vpn()) == ms0.leaf_of(
            spec_trampoline_vpn(),
        ),
    {
    let l0 = area.vpn_range.l.0;
    assert forall|j: int| 0 <= j < k + 1 implies !#[trigger] post.maps((l0 + j) as usize) by {
        let w: usize = (l0 + j) as usize;
        if j < k {
            lemma_range_keys_distinct((l0 + j) as usize, (l0 + k) as usize);
            assert(vpn_key(w as nat) != vpn_key(v as nat));
            assert(post.leaf_of(w) == pre.leaf_of(w));
            assert(!pre.maps((l0 + j) as usize));
        } else {
            assert(!crate::page_table::spec_pte_valid(0u64)) by (bit_vector);
        }
    }
    assert forall|j: int| k + 1 <= j < area.data_frames@.len() implies #[trigger] post.leaf_of(
        (l0 + j) as usize,
    ) == ms0.leaf_of((l0 + j) as usize) by {
        let w: usize = (l0 + j) as usize;
        lemma_range_keys_distinct((l0 + k) as usize, (l0 + j) as usize);
        assert(vpn_key(w as nat) != vpn_key(v as nat));
        assert(post.leaf_of(w) == pre.leaf_of(w));
        assert(pre.leaf_of((l0 + j) as usize) == ms0.leaf_of((l0 + j) as usize));
    }
    assert forall|i2: int, u: int|
        0 <= i2 < ms0.areas@.len() && i2 != idx && 0 <= u < ms0.areas@[i2].vpn_range.r.0
            - ms0.areas@[i2].vpn_range.l.0 implies #[trigger] post.leaf_of(
        (ms0.areas@[i2].vpn_range.l.0 + u) as usize,
    ) == ms0.leaf_of((ms0.areas@[i2].vpn_range.l.0 + u) as usize) by {
        let w: usize = (ms0.areas@[i2].vpn_range.l.0 + u) as usize;
        if i2 < idx {
            assert(areas_keys_disjoint(ms0.areas@[i2], ms0.areas@[idx]));
            assert(vpn_key((ms0.areas@[i2].vpn_range.l.0 + u) as nat) != vpn_key(
                (area.vpn_range.l.0 + k) as nat,
            ));
        } else {
            assert(areas_keys_disjoint(ms0.areas@[idx], ms0.areas@[i2]));
            assert(vpn_key((area.vpn_range.l.0 + k) as nat) != vpn_key(
                (ms0.areas@[i2].vpn_range.l.0 + u) as nat,
            ));
        }
        assert(vpn_key(w as nat) != vpn_key(v as nat));
        assert(post.leaf_of(w) == pre.leaf_of(w));
        assert(pre.leaf_of(w) == ms0.leaf_of(w));
    }
    match ms0.trampoline {
        Some(_) => {
            let w = spec_trampoline_vpn();
            if vpn_key(w as nat) == vpn_key(v as nat) {
                assert(vpn_key((area.vpn_range.l.0 + k) as nat) == vpn_key(w as nat));
                assert(area_has_key(area, vpn_key(w as nat)));
                assert(false);
            }
            assert(post.leaf_of(w) == pre.leaf_of(w));
        },
        None => (),
    }
}

/// After a region's leaves are cleared and its frames are freed, the other
/// regions still satisfy every well-formedness clause.
#[verifier::rlimit(100)]
#[verifier::spinoff_prover]
pub proof fn lemma_remove_area_wf(
    pre: MemorySet,
    post: MemorySet,
    alloc_post: StackFrameAllocator,
    alloc_pre: StackFrameAllocator,
    mem: PhysMem,
    idx: int,
)
    requires
        pre.wf(alloc_pre, mem),
        0 <= idx < pre.areas@.len(),
        post.areas@ == pre.areas@.remove(idx),
        post.trampoline == pre.trampoline,
        post.page_table.frames@ == pre.page_table.frames@,
        post.page_table.shape_wf(),
        forall|i2: int, u: int|
            #![trigger post.leaf_of((pre.areas@[i2].vpn_range.l.0 + u) as usize)]
            0 <= i2 < pre.areas@.len() && i2 != idx && 0 <= u < pre.areas@[i2].vpn_range.r.0
                - pre.areas@[i2].vpn_range.l.0 ==> post.leaf_of(
                (pre.areas@[i2].vpn_range.l.0 + u) as usize,
            ) == pre.leaf_of((pre.areas@[i2].vpn_range.l.0 + u) as usize),
        pre.trampoline is Some ==> post.leaf_of(spec_trampoline_vpn()) == pre.leaf_of(
            spec_trampoline_vpn(),
        ),
        forall|q: nat|
            alloc_pre.is_allocated(q) && !alloc_post.is_allocated(q) ==> exists|j: int|
                0 <= j < pre.areas@[idx].data_frames@.len() && (
                #[trigger] pre.areas@[idx].data_frames@[j]).1 == q,
    ensures
        post.wf(alloc_post, mem),
{
    let cut = pre.areas@[idx];
    assert forall|i: int| 0 <= i < post.areas@.len() implies area_mapped_wf(
        #[trigger] post.areas@[i],
        post.page_table,
    ) && area_frames_ok(post.areas@[i], alloc_post, mem) by {
        let iold: int = if i < idx {
            i
        } else {
            i + 1
        };
        let b = pre.areas@[iold];
        assert(post.areas@[i] == b);
        assert(area_mapped_wf(b, pre.page_table));
        assert(area_frames_ok(b, alloc_pre, mem));
        let lb = b.vpn_range.l.0;
        assert forall|u: int|
            #![trigger post.page_table.leaf_of((lb + u) as usize)]
            #![trigger vpn_key((lb + u) as nat)]
            0 <= u < b.vpn_range.r.0 - lb implies post.page_table.leaf_of((lb + u) as usize)
            == pre.page_table.leaf_of((lb + u) as usize) by {
            assert(post.leaf_of((pre.areas@[iold].vpn_range.l.0 + u) as usize) == pre.leaf_of(
                (pre.areas@[iold].vpn_range.l.0 + u) as usize,
            ));
        }
        assert forall|kk: int| 0 <= kk < b.data_frames@.len() implies alloc_post.is_allocated(
            (#[trigger] b.data_frames@[kk]).1 as nat,
        ) && mem.covers(b.data_frames@[kk].1 as nat) by {
            assert(alloc_pre.is_allocated(b.data_frames@[kk].1 as nat));
            if !alloc_post.is_allocated(b.data_frames@[kk].1 as nat) {
                let j = choose|j: int|
                    0 <= j < cut.data_frames@.len() && (#[trigger] cut.data_frames@[j]).1
                        == b.data_frames@[kk].1;
                if iold < idx {
                    assert(pre.areas@[iold].data_frames@[kk].1
                        != pre.areas@[idx].data_frames@[j].1);
                } else {
                    assert(pre.areas@[idx].data_frames@[j].1
                        != pre.areas@[iold].data_frames@[kk].1);
                }
            }
        }
    }
    assert forall|f: int| 0 <= f < post.page_table.frames@.len() implies alloc_post.is_allocated(
        (#[trigger] post.page_table.frames@[f]) as nat,
    ) by {
        assert(alloc_pre.is_allocated(pre.page_table.frames@[f] as nat));
        if !alloc_post.is_allocated(post.page_table.frames@[f] as nat) {
            let j = choose|j: int|
                0 <= j < cut.data_frames@.len() && (#[trigger] cut.data_frames@[j]).1
                    == post.page_table.frames@[f];
            assert(pre.areas@[idx].data_frames@[j].1 != pre.page_table.frames@[f]);
        }
    }
}

impl MemorySet {
    /// Build a user space from an executable image: one framed user region
    /// per loadable segment with the segment's bytes laid down, then a guard
    /// page, the user stack, the trap-context page just below the
    /// trampoline, and the trampoline itself. Returns the space, the user
    /// stack top and the entry point; none when the image is rejected or
    /// memory runs short.
    #[verifier::rlimit(100)]
    #[verifier::spinoff_prover]
    pub fn from_elf(
        elf_data: &Vec<u8>,
        strampoline: PhysPageNum,
        alloc: &mut StackFrameAllocator,
        mem: &mut PhysMem,
    ) -> (r: Option<(MemorySet, usize, usize)>)
        requires
            sys_inv(*old(alloc), *old(mem)),
            strampoline.0 <= PPN_MASK,
        ensures
            sys_inv(*final(alloc), *final(mem)),
            final(mem).base == old(mem).base,
            final(mem).pages@.len() == old(mem).pages@.len(),
            final(alloc).end == old(alloc).end,
            forall|q: nat| old(alloc).is_allocated(q) ==> final(alloc).is_allocated(q),
            forall|q: nat| final(alloc).is_free(q) ==> old(alloc).is_free(q),
            forall|q: nat|
                old(mem).covers(q) && old(alloc).is_allocated(q) ==> final(mem).page(q) == old(
                    mem,
                ).page(q),
            r matches Some(t) ==> {
                &&& t.0.wf(*final(alloc), *final(mem))
                &&& t.0.trampoline == Some(strampoline.0)
                &&& t.2 == crate::elf::spec_le64(elf_data@, 24)
                &&& t.0.areas@.len() >= 2
                &&& forall|i: int|
                    0 <= i < t.0.areas@.len() ==> (#[trigger] t.0.areas@[i]).map_type
                        == MapType::Framed
                // the trap-context page is mapped at the page below the trampoline
                &&& t.0.maps((TRAP_CONTEXT / PAGE_SIZE) as usize)
                // the user stack is mapped, writable from user mode
                &&& t.1 % PAGE_SIZE == 0
                &&& t.1 >= USER_STACK_SIZE
                &&& t.0.user_accessible(((t.1 - 1) / (PAGE_SIZE as int)) as usize, MAP_R | MAP_W | MAP_U)
            },
            // an image whose loadable segments fit the space, with frames to
            // spare, is owed an address space, and each segment's payload
            // then stands at its virtual range, zero-extended page by page
            (spec_elf_loadable(elf_data@) && spec_usable(*old(alloc)) >= 9 + 3 * spec_segs_pages(
                spec_elf_segments(elf_data@),
                spec_elf_segments(elf_data@).len() as int,
            )) ==> r is Some,
            r matches Some(t) ==> ((spec_elf_loadable(elf_data@) && spec_usable(*old(alloc)) >= 9
                + 3 * spec_segs_pages(
                spec_elf_segments(elf_data@),
                spec_elf_segments(elf_data@).len() as int,
            )) ==> forall|k: int, j: int|
                0 <= k < spec_elf_segments(elf_data@).len() && 0 <= j < spec_seg_r(
                    spec_elf_segments(elf_data@)[k],
                ) - spec_seg_l(spec_elf_segments(elf_data@)[k])
                    ==> #[trigger] t.0.view_page(
                    *final(mem),
                    (spec_seg_l(spec_elf_segments(elf_data@)[k]) + j) as usize,
                ) == data_chunk(
                    elf_data@.subrange(
                        spec_elf_segments(elf_data@)[k].offset as int,
                        spec_elf_segments(elf_data@)[k].offset as int + spec_elf_segments(
                            elf_data@,
                        )[k].filesz,
                    ),
                    j,
                )),
    {
        let ghost segs = spec_elf_segments(elf_data@);
        let ghost owed = spec_elf_loadable(elf_data@) && spec_usable(*old(alloc)) >= 9 + 3
            * spec_segs_pages(segs, segs.len() as int);
        proof {
            if owed {
                lemma_segs_pages_mono(elf_data@, segs, 0, segs.len() as int);
            }
        }
        let img = match crate::elf::parse_elf(elf_data) {
            Some(img) => img,
            None => {
                proof {
                    assert(!owed);
                }
                return None;
            },
        };
        proof {
            if owed {
                assert(img.segments@ == segs);
            }
        }
        if alloc.usable_frames() < 1 {
            proof {
                assert(!owed);
            }
            return None;
        }
        let mut ms = match MemorySet::new_bare(alloc, mem) {
            Some(m) => m,
            None => {
                return None;
            },
        };
        if alloc.usable_frames() < 2 {
            proof {
                assert(!owed);
            }
            return None;
        }
        ms.map_trampoline(strampoline, alloc, mem);
        proof {
            if owed {
                assert forall|w: usize| #[trigger] ms.maps(w) implies vpn_key(w as nat)
                    == vpn_key(spec_trampoline_vpn() as nat) || exists|k: int|
                    0 <= k < 0 && spec_seg_l(#[trigger] segs[k]) <= vpn_key(w as nat) < spec_seg_r(
                        segs[k],
                    ) by {}
            }
        }
        let total_len: usize = elf_data.len();
        let nseg = img.segments.len();
        let mut si: usize = 0;
        let mut max_end_vpn: usize = 0;
        while si < nseg
            invariant
                si <= nseg,
                nseg == img.segments@.len(),
                owed == (spec_elf_loadable(elf_data@) && spec_usable(*old(alloc)) >= 9 + 3
                    * spec_segs_pages(segs, segs.len() as int)),
                segs == spec_elf_segments(elf_data@),
                owed ==> img.segments@ == segs,
                owed ==> spec_usable(*alloc) >= 6 + 3 * (spec_segs_pages(segs, segs.len() as int)
                    - spec_segs_pages(segs, si as int)),
                owed ==> max_end_vpn <= 0xFFFF0,
                owed ==> forall|k: int|
                    0 <= k < si ==> spec_seg_r(#[trigger] segs[k]) <= max_end_vpn as int,
                owed ==> forall|w: usize|
                    #[trigger] ms.maps(w) ==> vpn_key(w as nat) == vpn_key(
                        spec_trampoline_vpn() as nat,
                    ) || exists|k: int|
                        0 <= k < si && spec_seg_l(#[trigger] segs[k]) <= vpn_key(w as nat)
                            < spec_seg_r(segs[k]),
                owed ==> ms.areas@.len() == si,
                owed ==> forall|k: int|
                    0 <= k < si ==> ((#[trigger] ms.areas@[k]).vpn_range.l.0 == spec_seg_l(
                        segs[k],
                    ) && ms.areas@[k].vpn_range.r.0 == spec_seg_r(segs[k])),
                owed ==> forall|k: int, j: int|
                    0 <= k < si && 0 <= j < spec_seg_r(segs[k]) - spec_seg_l(segs[k])
                        ==> #[trigger] ms.view_page(*mem, (spec_seg_l(segs[k]) + j) as usize)
                        == data_chunk(
                        elf_data@.subrange(
                            segs[k].offset as int,
                            segs[k].offset as int + segs[k].filesz,
                        ),
                        j,
                    ) && ms.maps((spec_seg_l(segs[k]) + j) as usize),
                sys_inv(*alloc, *mem),
                ms.wf(*alloc, *mem),
                ms.trampoline == Some(strampoline.0),
                mem.base == old(mem).base,
                mem.pages@.len() == old(mem).pages@.len(),
                alloc.end == old(alloc).end,
                elf_data@.len() <= usize::MAX,
                forall|q: nat| old(alloc).is_allocated(q) ==> alloc.is_allocated(q),
                forall|q: nat| alloc.is_free(q) ==> old(alloc).is_free(q),
                forall|q: nat|
                    old(mem).covers(q) && old(alloc).is_allocated(q) ==> mem.page(q) == old(
                        mem,
                    ).page(q),
                forall|i: int|
                    0 <= i < ms.areas@.len() ==> (#[trigger] ms.areas@[i]).map_type
                        == MapType::Framed,
            decreases nseg - si,
        {
            let ghost ms_in = ms;
            let seg = img.segments[si];
            si = si + 1;
            let ghost cur = si as int - 1;
            proof {
                if owed {
                    assert(seg == segs[cur]);
                    assert(spec_seg_ok(elf_data@, segs[cur]));
                    assert(spec_segs_pages(segs, si as int) == spec_segs_pages(segs, cur)
                        + spec_seg_r(segs[cur]) - spec_seg_l(segs[cur]));
                    lemma_segs_pages_mono(elf_data@, segs, si as int, segs.len() as int);
                }
            }
            // reject images whose segments the space cannot hold
            if seg.memsz == 0 {
                continue ;
            }
            if seg.vaddr % (PAGE_SIZE as u64) != 0 {
                proof {
                    assert(!owed);
                }
                return None;
            }
            if seg.filesz > seg.memsz {
                proof {
                    assert(!owed);
                }
                return None;
            }
            if seg.vaddr > u64::MAX - seg.memsz {
                proof {
                    assert(!owed);
                }
                return None;
            }
            if seg.vaddr + seg.memsz >= usize::MAX as u64 - PAGE_SIZE as u64 {
                proof {
                    assert(!owed);
                }
                return None;
            }
            if seg.offset > elf_data.len() as u64 || seg.filesz > elf_data.len() as u64
                - seg.offset {
                proof {
                    assert(!owed);
                }
                return None;
            }
            let start_va = VirtAddr(seg.vaddr as usize);
            let end_va = VirtAddr((seg.vaddr + seg.memsz) as usize);
            let mut perm: u8 = MAP_U;
            if seg.flags & crate::elf::PF_R != 0 {
                perm = perm | MAP_R;
            }
            if seg.flags & crate::elf::PF_W != 0 {
                perm = perm | MAP_W;
            }
            if seg.flags & crate::elf::PF_X != 0 {
                perm = perm | MAP_X;
            }
            let area = MapArea::new(start_va, end_va, MapType::Framed, perm);
            let l = area.vpn_range.get_start();
            let rr = area.vpn_range.get_end();
            proof {
                if owed {
                    assert(l.0 == spec_seg_l(segs[cur]) && rr.0 == spec_seg_r(segs[cur])
                        && rr.0 <= 0xFFFF0) by (nonlinear_arith)
                        requires
                            l.0 == seg.vaddr as usize / PAGE_SIZE,
                            rr.0 == ((seg.vaddr + seg.memsz) as usize + PAGE_SIZE - 1) / (
                            PAGE_SIZE as int),
                            (seg.vaddr + seg.memsz) as usize == seg.vaddr + seg.memsz,
                            seg.vaddr as usize == seg.vaddr,
                            seg == segs[cur],
                            spec_seg_l(segs[cur]) == segs[cur].vaddr as int / (PAGE_SIZE as int),
                            spec_seg_r(segs[cur]) == (segs[cur].vaddr + segs[cur].memsz + PAGE_SIZE
                                - 1) as int / (PAGE_SIZE as int),
                            seg.vaddr + seg.memsz < 0xFFFF0000,
                            seg.memsz > 0,
                            PAGE_SIZE == 0x1000,
                    ;
                }
            }
            if rr.0 - l.0 >= 0x8000000 {
                proof {
                    assert(!owed);
                }
                return None;
            }
            if !ms.range_unmapped(l, rr) {
                proof {
                    if owed {
                        let j = choose|j: int|
                            0 <= j < rr.0 - l.0 && #[trigger] ms.maps((l.0 + j) as usize);
                        let w = (l.0 + j) as usize;
                        assert(ms.maps(w));
                        assert(vpn_key(w as nat) == w as nat) by (nonlinear_arith)
                            requires
                                0 <= (w as nat),
                                (w as nat) < 0x7FFFFFF,
                        ;
                        assert(usize::MAX == 0xFFFF_FFFF || usize::MAX
                            == 0xFFFF_FFFF_FFFF_FFFF);
                        assert(vpn_key(spec_trampoline_vpn() as nat) >= 0xFFFFF)
                            by (nonlinear_arith)
                            requires
                                spec_trampoline_vpn() == (TRAMPOLINE / PAGE_SIZE) as usize,
                                TRAMPOLINE == usize::MAX - PAGE_SIZE + 1,
                                PAGE_SIZE == 0x1000,
                                usize::MAX == 0xFFFF_FFFF || usize::MAX
                                    == 0xFFFF_FFFF_FFFF_FFFF,
                        ;
                        assert(false);
                    }
                }
                return None;
            }
            if alloc.usable_frames() < usize::MAX / 4 && (rr.0 - l.0) > alloc.usable_frames() / 3 {
                proof {
                    assert(!owed);
                }
                return None;
            }
            let payload = subvec(elf_data, seg.offset as usize, seg.filesz as usize);
            proof {
                assert(3 * (rr.0 - l.0) <= spec_usable(*alloc));
                assert(payload@.len() <= (rr.0 - l.0) * (PAGE_SIZE as int)) by (nonlinear_arith)
                    requires
                        payload@.len() == seg.filesz,
                        seg.filesz <= seg.memsz,
                        rr.0 - l.0 >= 1,
                        l.0 == seg.vaddr as usize / PAGE_SIZE,
                        seg.vaddr as usize % PAGE_SIZE == 0,
                        rr.0 == ((seg.vaddr + seg.memsz) as usize + PAGE_SIZE - 1) / (
                        PAGE_SIZE as int),
                        (seg.vaddr + seg.memsz) as usize == seg.vaddr + seg.memsz,
                        seg.vaddr as usize == seg.vaddr,
                        PAGE_SIZE == 0x1000,
                ;
                assert forall|j: int| 0 <= j < rr.0 - l.0 implies !#[trigger] ms.maps(
                    (area.vpn_range.l.0 + j) as usize,
                ) by {
                    assert(!ms.maps((l.0 + j) as usize));
                }
            }
            if l.0 + (rr.0 - l.0) > max_end_vpn {
                max_end_vpn = rr.0;
            }
            let ghost alloc_in = *alloc;
            let ghost mem_in = *mem;
            ms.push(area, Some(&payload), alloc, mem);
            proof {
                if owed {
                    assert forall|k: int, j: int|
                        0 <= k < si && 0 <= j < spec_seg_r(segs[k]) - spec_seg_l(
                            segs[k],
                        ) implies (#[trigger] ms.view_page(
                        *mem,
                        (spec_seg_l(segs[k]) + j) as usize,
                    ) == data_chunk(
                        elf_data@.subrange(
                            segs[k].offset as int,
                            segs[k].offset as int + segs[k].filesz,
                        ),
                        j,
                    ) && ms.maps((spec_seg_l(segs[k]) + j) as usize)) by {
                        let w = (spec_seg_l(segs[k]) + j) as usize;
                        if k == cur {
                            assert(w == (area.vpn_range.l.0 + j) as usize);
                            assert(ms.view_page(*mem, w) == data_chunk(payload@, j));
                            assert(ms.maps((area.vpn_range.l.0 + j) as usize));
                        } else {
                            assert(spec_seg_ok(elf_data@, segs[k]));
                            assert((w as int) < spec_seg_r(segs[k]) && spec_seg_r(segs[k])
                                <= 0xFFFF0) by (nonlinear_arith)
                                requires
                                    w as int == spec_seg_l(segs[k]) + j,
                                    j < spec_seg_r(segs[k]) - spec_seg_l(segs[k]),
                                    0 <= spec_seg_l(segs[k]),
                                    spec_seg_l(segs[k]) == segs[k].vaddr as int / (
                                    PAGE_SIZE as int),
                                    spec_seg_r(segs[k]) == (segs[k].vaddr + segs[k].memsz
                                        + PAGE_SIZE - 1) as int / (PAGE_SIZE as int),
                                    segs[k].vaddr + segs[k].memsz < 0xFFFF0000,
                                    segs[k].memsz > 0,
                                    PAGE_SIZE == 0x1000,
                            ;
                            assert(vpn_key(w as nat) == w as nat) by (nonlinear_arith)
                                requires
                                    0 <= (w as nat),
                                    (w as nat) < 0x7FFFFFF,
                            ;
                            assert(!area_has_key(ms.areas@.last(), vpn_key(w as nat))) by {
                                if area_has_key(ms.areas@.last(), vpn_key(w as nat)) {
                                    let u = choose|u: int|
                                        0 <= u < ms.areas@.last().vpn_range.r.0
                                            - ms.areas@.last().vpn_range.l.0 && #[trigger] vpn_key(
                                            (ms.areas@.last().vpn_range.l.0 + u) as nat,
                                        ) == vpn_key(w as nat);
                                    assert(vpn_key((ms.areas@.last().vpn_range.l.0 + u) as nat)
                                        == (ms.areas@.last().vpn_range.l.0 + u) as nat)
                                        by (nonlinear_arith)
                                        requires
                                            0 <= ((ms.areas@.last().vpn_range.l.0 + u) as nat),
                                            ((ms.areas@.last().vpn_range.l.0 + u) as nat)
                                                < 0x7FFFFFF,
                                    ;
                                    assert(spec_seg_l(segs[cur]) <= w as int && (w as int) < spec_seg_r(
                                        segs[cur],
                                    ));
                                    assert(false);
                                }
                            }
                            assert(ms_in.view_page(mem_in, (spec_seg_l(segs[k]) + j) as usize)
                            == data_chunk(
                            elf_data@.subrange(
                                segs[k].offset as int,
                                segs[k].offset as int + segs[k].filesz,
                            ),
                            j,
                        ));
                        assert(ms_in.maps(w));
                            assert(ms_in.areas@[k].vpn_range.l.0 == spec_seg_l(segs[k]));
                            assert(area_mapped_wf(ms_in.areas@[k], ms_in.page_table));
                            assert(area_frames_ok(ms_in.areas@[k], alloc_in, mem_in));
                            assert(ms_in.leaf_of(w) == Some(
                                spec_pte_new(
                                    ms_in.areas@[k].data_frames@[j].1 as u64,
                                    ms_in.areas@[k].map_perm | crate::page_table::PTE_V,
                                ),
                            ));
                            crate::page_table::lemma_mapped_leaf_flags(
                                ms_in.areas@[k].data_frames@[j].1 as u64,
                                ms_in.areas@[k].map_perm,
                            );
                            assert(spec_pte_ppn(ms_in.leaf_of(w)->0)
                                == ms_in.areas@[k].data_frames@[j].1);
                            assert(mem_in.covers(
                                spec_pte_ppn(ms_in.leaf_of(w)->0) as nat,
                            ) && alloc_in.is_allocated(spec_pte_ppn(ms_in.leaf_of(w)->0) as nat));
                            assert(ms.view_page(*mem, w) == ms_in.view_page(mem_in, w));
                        }
                    }
                    assert forall|w: usize| #[trigger] ms.maps(w) implies vpn_key(w as nat)
                        == vpn_key(spec_trampoline_vpn() as nat) || exists|k: int|
                        0 <= k < si && spec_seg_l(#[trigger] segs[k]) <= vpn_key(w as nat)
                            < spec_seg_r(segs[k]) by {
                        if !ms_in.maps(w) {
                            assert(area_has_key(ms.areas@.last(), vpn_key(w as nat)));
                            let u = choose|u: int|
                                0 <= u < ms.areas@.last().vpn_range.r.0
                                    - ms.areas@.last().vpn_range.l.0 && #[trigger] vpn_key(
                                    (ms.areas@.last().vpn_range.l.0 + u) as nat,
                                ) == vpn_key(w as nat);
                            assert(vpn_key((ms.areas@.last().vpn_range.l.0 + u) as nat) == (
                            ms.areas@.last().vpn_range.l.0 + u) as nat) by (nonlinear_arith)
                                requires
                                    0 <= ((ms.areas@.last().vpn_range.l.0 + u) as nat),
                                    ((ms.areas@.last().vpn_range.l.0 + u) as nat) < 0x7FFFFFF,
                            ;
                            assert(spec_seg_l(segs[cur]) <= vpn_key(w as nat) < spec_seg_r(
                                segs[cur],
                            ));
                        }
                    }
                }
            }
        }
        // guard page, then the user stack
        if max_end_vpn >= usize::MAX / PAGE_SIZE - 2 {
            proof {
                if owed {
                    assert(usize::MAX == 0xFFFF_FFFF || usize::MAX == 0xFFFF_FFFF_FFFF_FFFF);
                    assert(usize::MAX / PAGE_SIZE - 2 > 0xFFFF0) by (nonlinear_arith)
                        requires
                            usize::MAX == 0xFFFF_FFFF || usize::MAX == 0xFFFF_FFFF_FFFF_FFFF,
                            PAGE_SIZE == 0x1000,
                    ;
                    assert(false);
                }
            }
            return None;
        }
        let user_stack_bottom: usize = max_end_vpn * PAGE_SIZE + PAGE_SIZE;
        let user_stack_top: usize = user_stack_bottom + USER_STACK_SIZE;
        let stack_area = MapArea::new(
            VirtAddr(user_stack_bottom),
            VirtAddr(user_stack_top),
            MapType::Framed,
            MAP_R | MAP_W | MAP_U,
        );
        let sl = stack_area.vpn_range.get_start();
        let sr = stack_area.vpn_range.get_end();
        proof {
            if owed {
                let m = max_end_vpn as int;
                let pg = PAGE_SIZE as int;
                assert(sl.0 == m + 1 && sr.0 == m + 2) by (nonlinear_arith)
                    requires
                        sl.0 == (m * pg + pg) / pg,
                        sr.0 == (m * pg + pg + USER_STACK_SIZE + pg - 1) / pg,
                        USER_STACK_SIZE == 0x1000,
                        pg == 0x1000,
                        m >= 0,
                ;
            }
        }
        if sr.0 - sl.0 >= 0x8000000 {
            proof {
                assert(!owed);
            }
            return None;
        }
        if !ms.range_unmapped(sl, sr) {
            proof {
                if owed {
                    let j = choose|j: int|
                        0 <= j < sr.0 - sl.0 && #[trigger] ms.maps((sl.0 + j) as usize);
                    let w = (sl.0 + j) as usize;
                    assert(ms.maps(w));
                    assert(w as int == max_end_vpn + 1);
                    assert(vpn_key(w as nat) == w as nat) by (nonlinear_arith)
                        requires
                            0 <= (w as nat),
                            (w as nat) < 0x7FFFFFF,
                    ;
                    assert(usize::MAX == 0xFFFF_FFFF || usize::MAX == 0xFFFF_FFFF_FFFF_FFFF);
                    assert(vpn_key(spec_trampoline_vpn() as nat) >= 0xFFFFF) by (nonlinear_arith)
                        requires
                            spec_trampoline_vpn() == (TRAMPOLINE / PAGE_SIZE) as usize,
                            TRAMPOLINE == usize::MAX - PAGE_SIZE + 1,
                            PAGE_SIZE == 0x1000,
                            usize::MAX == 0xFFFF_FFFF || usize::MAX == 0xFFFF_FFFF_FFFF_FFFF,
                    ;
                    assert(false);
                }
            }
            return None;
        }
        if alloc.usable_frames() < usize::MAX / 4 && (sr.0 - sl.0) > alloc.usable_frames() / 3 {
            proof {
                assert(!owed);
            }
            return None;
        }
        proof {
            assert forall|j: int| 0 <= j < sr.0 - sl.0 implies !#[trigger] ms.maps(
                (stack_area.vpn_range.l.0 + j) as usize,
            ) by {
                assert(!ms.maps((sl.0 + j) as usize));
            }
        }
        let ghost stack_pushed = stack_area;
        let ghost ms_before_stack = ms;
        let ghost alloc_bs = *alloc;
        let ghost mem_bs = *mem;
        ms.push(stack_area, None, alloc, mem);
        let ghost ms_after_stack = ms;
        proof {
            if owed {
                    assert forall|k: int, j: int|
                        0 <= k < nseg as int && 0 <= j < spec_seg_r(segs[k]) - spec_seg_l(
                            segs[k],
                        ) implies (#[trigger] ms.view_page(
                        *mem,
                        (spec_seg_l(segs[k]) + j) as usize,
                    ) == data_chunk(
                        elf_data@.subrange(
                            segs[k].offset as int,
                            segs[k].offset as int + segs[k].filesz,
                        ),
                        j,
                    ) && ms.maps((spec_seg_l(segs[k]) + j) as usize)) by {
                        let w = (spec_seg_l(segs[k]) + j) as usize;
                        assert(spec_seg_ok(elf_data@, segs[k]));
                        assert((w as int) < spec_seg_r(segs[k]) && spec_seg_r(segs[k]) <= 0xFFFF0)
                            by (nonlinear_arith)
                            requires
                                w as int == spec_seg_l(segs[k]) + j,
                                j < spec_seg_r(segs[k]) - spec_seg_l(segs[k]),
                                0 <= spec_seg_l(segs[k]),
                                spec_seg_l(segs[k]) == segs[k].vaddr as int / (PAGE_SIZE as int),
                                spec_seg_r(segs[k]) == (segs[k].vaddr + segs[k].memsz + PAGE_SIZE
                                    - 1) as int / (PAGE_SIZE as int),
                                segs[k].vaddr + segs[k].memsz < 0xFFFF0000,
                                segs[k].memsz > 0,
                                PAGE_SIZE == 0x1000,
                        ;
                        assert(vpn_key(w as nat) == w as nat) by (nonlinear_arith)
                            requires
                                0 <= (w as nat),
                                (w as nat) < 0x7FFFFFF,
                        ;
                        assert(!area_has_key(ms.areas@.last(), vpn_key(w as nat))) by {
                            if area_has_key(ms.areas@.last(), vpn_key(w as nat)) {
                                let u = choose|u: int|
                                    0 <= u < ms.areas@.last().vpn_range.r.0
                                        - ms.areas@.last().vpn_range.l.0 && #[trigger] vpn_key(
                                        (ms.areas@.last().vpn_range.l.0 + u) as nat,
                                    ) == vpn_key(w as nat);
                                assert(vpn_key((ms.areas@.last().vpn_range.l.0 + u) as nat) == (
                                ms.areas@.last().vpn_range.l.0 + u) as nat) by (nonlinear_arith)
                                    requires
                                        0 <= ((ms.areas@.last().vpn_range.l.0 + u) as nat),
                                        ((ms.areas@.last().vpn_range.l.0 + u) as nat) < 0x7FFFFFF,
                                ;
                                assert(false);
                            }
                        }
                        assert(ms_before_stack.view_page(mem_bs, (spec_seg_l(segs[k]) + j) as usize)
                            == data_chunk(
                            elf_data@.subrange(
                                segs[k].offset as int,
                                segs[k].offset as int + segs[k].filesz,
                            ),
                            j,
                        ));
                        assert(ms_before_stack.maps(w));
                        assert(ms_before_stack.areas@[k].vpn_range.l.0 == spec_seg_l(segs[k]));
                        assert(area_mapped_wf(ms_before_stack.areas@[k], ms_before_stack.page_table));
                        assert(area_frames_ok(ms_before_stack.areas@[k], alloc_bs, mem_bs));
                        assert(ms_before_stack.leaf_of(w) == Some(
                            spec_pte_new(
                                ms_before_stack.areas@[k].data_frames@[j].1 as u64,
                                ms_before_stack.areas@[k].map_perm | crate::page_table::PTE_V,
                            ),
                        ));
                        crate::page_table::lemma_mapped_leaf_flags(
                            ms_before_stack.areas@[k].data_frames@[j].1 as u64,
                            ms_before_stack.areas@[k].map_perm,
                        );
                        assert(spec_pte_ppn(ms_before_stack.leaf_of(w)->0) == ms_before_stack.areas@[k].data_frames@[j].1);
                        assert(mem_bs.covers(spec_pte_ppn(ms_before_stack.leaf_of(w)->0) as nat)
                            && alloc_bs.is_allocated(spec_pte_ppn(ms_before_stack.leaf_of(w)->0) as nat));
                        assert(ms.view_page(*mem, w) == ms_before_stack.view_page(mem_bs, w));
                    }

                assert forall|w: usize| #[trigger] ms.maps(w) implies vpn_key(w as nat)
                    == vpn_key(spec_trampoline_vpn() as nat) || vpn_key(w as nat) == max_end_vpn
                    + 1 || exists|k: int|
                    0 <= k < nseg && spec_seg_l(#[trigger] segs[k]) <= vpn_key(w as nat)
                        < spec_seg_r(segs[k]) by {
                    if !ms_before_stack.maps(w) {
                        assert(area_has_key(ms.areas@.last(), vpn_key(w as nat)));
                        let u = choose|u: int|
                            0 <= u < ms.areas@.last().vpn_range.r.0
                                - ms.areas@.last().vpn_range.l.0 && #[trigger] vpn_key(
                                (ms.areas@.last().vpn_range.l.0 + u) as nat,
                            ) == vpn_key(w as nat);
                        assert(vpn_key((ms.areas@.last().vpn_range.l.0 + u) as nat) == (
                        ms.areas@.last().vpn_range.l.0 + u) as nat) by (nonlinear_arith)
                            requires
                                0 <= ((ms.areas@.last().vpn_range.l.0 + u) as nat),
                                ((ms.areas@.last().vpn_range.l.0 + u) as nat) < 0x7FFFFFF,
                        ;
                    }
                }
            }
        }
        // the trap-context page, just below the trampoline
        let trap_area = MapArea::new(
            VirtAddr(TRAP_CONTEXT),
            VirtAddr(TRAMPOLINE),
            MapType::Framed,
            MAP_R | MAP_W,
        );
        let tl = trap_area.vpn_range.get_start();
        let tr = trap_area.vpn_range.get_end();
        proof {
            if owed {
                assert(usize::MAX == 0xFFFF_FFFF || usize::MAX == 0xFFFF_FFFF_FFFF_FFFF);
                assert(tr.0 == tl.0 + 1 && vpn_key(tl.0 as nat) >= 0xFFFFE && vpn_key(
                    tl.0 as nat,
                ) != vpn_key(spec_trampoline_vpn() as nat)) by (nonlinear_arith)
                    requires
                        tl.0 == TRAP_CONTEXT as int / (PAGE_SIZE as int),
                        tr.0 == (TRAMPOLINE + PAGE_SIZE - 1) as int / (PAGE_SIZE as int),
                        spec_trampoline_vpn() == (TRAMPOLINE / PAGE_SIZE) as usize,
                        TRAMPOLINE == usize::MAX - PAGE_SIZE + 1,
                        TRAP_CONTEXT == TRAMPOLINE - PAGE_SIZE,
                        PAGE_SIZE == 0x1000,
                        usize::MAX == 0xFFFF_FFFF || usize::MAX == 0xFFFF_FFFF_FFFF_FFFF,
                ;
            }
        }
        if tr.0 - tl.0 >= 0x8000000 {
            proof {
                assert(!owed);
            }
            return None;
        }
        if !ms.range_unmapped(tl, tr) {
            proof {
                if owed {
                    let j = choose|j: int|
                        0 <= j < tr.0 - tl.0 && #[trigger] ms.maps((tl.0 + j) as usize);
                    let w = (tl.0 + j) as usize;
                    assert(ms.maps(w));
                    assert(w == tl.0);
                    assert(vpn_key(w as nat) >= 0xFFFFE);
                    assert(vpn_key(w as nat) != vpn_key(spec_trampoline_vpn() as nat));
                    assert(false);
                }
            }
            return None;
        }
        if alloc.usable_frames() < usize::MAX / 4 && (tr.0 - tl.0) > alloc.usable_frames() / 3 {
            proof {
                assert(!owed);
            }
            return None;
        }
        proof {
            assert forall|j: int| 0 <= j < tr.0 - tl.0 implies !#[trigger] ms.maps(
                (trap_area.vpn_range.l.0 + j) as usize,
            ) by {
                assert(!ms.maps((tl.0 + j) as usize));
            }
        }
        let ghost trap_pushed = trap_area;
        let ghost ms_bt = ms;
        let ghost alloc_bt = *alloc;
        let ghost mem_bt = *mem;
        ms.push(trap_area, None, alloc, mem);
        proof {
            if owed {
                    assert forall|k: int, j: int|
                        0 <= k < nseg as int && 0 <= j < spec_seg_r(segs[k]) - spec_seg_l(
                            segs[k],
                        ) implies (#[trigger] ms.view_page(
                        *mem,
                        (spec_seg_l(segs[k]) + j) as usize,
                    ) == data_chunk(
                        elf_data@.subrange(
                            segs[k].offset as int,
                            segs[k].offset as int + segs[k].filesz,
                        ),
                        j,
                    ) && ms.maps((spec_seg_l(segs[k]) + j) as usize)) by {
                        let w = (spec_seg_l(segs[k]) + j) as usize;
                        assert(spec_seg_ok(elf_data@, segs[k]));
                        assert((w as int) < spec_seg_r(segs[k]) && spec_seg_r(segs[k]) <= 0xFFFF0)
                            by (nonlinear_arith)
                            requires
                                w as int == spec_seg_l(segs[k]) + j,
                                j < spec_seg_r(segs[k]) - spec_seg_l(segs[k]),
                                0 <= spec_seg_l(segs[k]),
                                spec_seg_l(segs[k]) == segs[k].vaddr as int / (PAGE_SIZE as int),
                                spec_seg_r(segs[k]) == (segs[k].vaddr + segs[k].memsz + PAGE_SIZE
                                    - 1) as int / (PAGE_SIZE as int),
                                segs[k].vaddr + segs[k].memsz < 0xFFFF0000,
                                segs[k].memsz > 0,
                                PAGE_SIZE == 0x1000,
                        ;
                        assert(vpn_key(w as nat) == w as nat) by (nonlinear_arith)
                            requires
                                0 <= (w as nat),
                                (w as nat) < 0x7FFFFFF,
                        ;
                        assert(!area_has_key(ms.areas@.last(), vpn_key(w as nat))) by {
                            if area_has_key(ms.areas@.last(), vpn_key(w as nat)) {
                                let u = choose|u: int|
                                    0 <= u < ms.areas@.last().vpn_range.r.0
                                        - ms.areas@.last().vpn_range.l.0 && #[trigger] vpn_key(
                                        (ms.areas@.last().vpn_range.l.0 + u) as nat,
                                    ) == vpn_key(w as nat);
                                assert(vpn_key((ms.areas@.last().vpn_range.l.0 + u) as nat) == (
                                ms.areas@.last().vpn_range.l.0 + u) as nat) by (nonlinear_arith)
                                    requires
                                        0 <= ((ms.areas@.last().vpn_range.l.0 + u) as nat),
                                        ((ms.areas@.last().vpn_range.l.0 + u) as nat) < 0x7FFFFFF,
                                ;
                                assert(false);
                            }
                        }
                        assert(ms_bt.view_page(mem_bt, (spec_seg_l(segs[k]) + j) as usize)
                            == data_chunk(
                            elf_data@.subrange(
                                segs[k].offset as int,
                                segs[k].offset as int + segs[k].filesz,
                            ),
                            j,
                        ));
                        assert(ms_bt.maps(w));
                        assert(ms_bt.areas@[k].vpn_range.l.0 == spec_seg_l(segs[k]));
                        assert(area_mapped_wf(ms_bt.areas@[k], ms_bt.page_table));
                        assert(area_frames_ok(ms_bt.areas@[k], alloc_bt, mem_bt));
                        assert(ms_bt.leaf_of(w) == Some(
                            spec_pte_new(
                                ms_bt.areas@[k].data_frames@[j].1 as u64,
                                ms_bt.areas@[k].map_perm | crate::page_table::PTE_V,
                            ),
                        ));
                        crate::page_table::lemma_mapped_leaf_flags(
                            ms_bt.areas@[k].data_frames@[j].1 as u64,
                            ms_bt.areas@[k].map_perm,
                        );
                        assert(spec_pte_ppn(ms_bt.leaf_of(w)->0) == ms_bt.areas@[k].data_frames@[j].1);
                        assert(mem_bt.covers(spec_pte_ppn(ms_bt.leaf_of(w)->0) as nat)
                            && alloc_bt.is_allocated(spec_pte_ppn(ms_bt.leaf_of(w)->0) as nat));
                        assert(ms.view_page(*mem, w) == ms_bt.view_page(mem_bt, w));
                    }

            }
            let m = max_end_vpn as int;
            let pg = PAGE_SIZE as int;
            assert(ms.maps((trap_pushed.vpn_range.l.0 + 0) as usize));
            assert(trap_pushed.vpn_range.l.0 == TRAP_CONTEXT / PAGE_SIZE);
            assert((trap_pushed.vpn_range.l.0 + 0) as usize == (TRAP_CONTEXT
                / PAGE_SIZE) as usize);
            assert(ms.maps((TRAP_CONTEXT / PAGE_SIZE) as usize));
            // the stack's top page is page m + 1, the single page of the
            // stack region
            assert(user_stack_bottom == (m + 1) * pg) by (nonlinear_arith)
                requires
                    user_stack_bottom == m * pg + pg,
            ;
            assert(stack_pushed.vpn_range.l.0 == m + 1) by (nonlinear_arith)
                requires
                    stack_pushed.vpn_range.l.0 == ((m + 1) * pg) / pg,
                    pg == 0x1000,
            ;
            assert(user_stack_top == (m + 2) * pg) by (nonlinear_arith)
                requires
                    user_stack_top == (m + 1) * pg + 0x1000,
                    pg == 0x1000,
            ;
            assert(stack_pushed.vpn_range.r.0 == m + 2) by (nonlinear_arith)
                requires
                    stack_pushed.vpn_range.r.0 == ((m + 2) * pg + pg - 1) / pg,
                    pg == 0x1000,
            ;
            assert((user_stack_top - 1) / pg == m + 1) by (nonlinear_arith)
                requires
                    user_stack_top == (m + 2) * pg,
                    pg == 0x1000,
            ;
            // the stack region sits second from the end
            let si2 = ms.areas@.len() - 2;
            assert(ms.areas@[si2] == ms_after_stack.areas@[si2]);
            assert(ms_after_stack.areas@[si2].vpn_range == stack_pushed.vpn_range);
            assert(ms_after_stack.areas@[si2].map_type == MapType::Framed);
            assert(ms_after_stack.areas@[si2].map_perm == (MAP_R | MAP_W | MAP_U));
            assert(ms.areas@[si2].vpn_range == stack_pushed.vpn_range);
            assert(ms.locates_at(((user_stack_top - 1) / pg) as usize, si2, 0));
            let pv: u8 = ms.areas@[si2].map_perm;
            assert(pv == (MAP_R | MAP_W | MAP_U) ==> (pv & (MAP_R | MAP_W | MAP_U)) == (MAP_R
                | MAP_W | MAP_U)) by (bit_vector);
            assert(ms.user_accessible(((user_stack_top - 1) / pg) as usize, MAP_R | MAP_W | MAP_U));
        }
        if (img.entry as u64) > usize::MAX as u64 {
            proof {
                assert(!owed);
            }
            return None;
        }
        let entry: usize = img.entry as usize;
        Some((ms, user_stack_top, entry))
    }

    /// The first page of a section.
    pub open spec fn spec_section_l(s: (usize, usize, u8)) -> int {
        s.0 as int / (PAGE_SIZE as int)
    }

    /// One past the last page of a section.
    pub open spec fn spec_section_r(s: (usize, usize, u8)) -> int {
        (s.1 + PAGE_SIZE - 1) as int / (PAGE_SIZE as int)
    }

    /// A section the kernel space can hold: ordered bounds under the address
    /// cap, and pages that stay below the walker's key space.
    pub open spec fn spec_section_ok(s: (usize, usize, u8)) -> bool {
        &&& s.0 <= s.1
        &&& (s.1 as int) < usize::MAX - PAGE_SIZE
        &&& MemorySet::spec_section_r(s) - MemorySet::spec_section_l(s) < 0x8000000
        &&& MemorySet::spec_section_r(s) < 0x7FFFFFF
    }

    /// Pages the first `n` sections span, one range after the other.
    pub open spec fn spec_sections_pages(ss: Seq<(usize, usize, u8)>, n: int) -> int
        decreases n,
    {
        if n <= 0 {
            0int
        } else {
            MemorySet::spec_sections_pages(ss, n - 1) + MemorySet::spec_section_r(ss[n - 1])
                - MemorySet::spec_section_l(ss[n - 1])
        }
    }

    /// Build the kernel space: identity-map each given section `(start, end,
    /// permissions)` — text, read-only data, data, bss, the remaining
    /// physical memory, and the device windows — then the trampoline.
    pub fn new_kernel(
        sections: &Vec<(usize, usize, u8)>,
        strampoline: PhysPageNum,
        alloc: &mut StackFrameAllocator,
        mem: &mut PhysMem,
    ) -> (r: Option<MemorySet>)
        requires
            sys_inv(*old(alloc), *old(mem)),
            strampoline.0 <= PPN_MASK,
        ensures
            sys_inv(*final(alloc), *final(mem)),
            final(mem).base == old(mem).base,
            final(mem).pages@.len() == old(mem).pages@.len(),
            final(alloc).end == old(alloc).end,
            forall|q: nat| old(alloc).is_allocated(q) ==> final(alloc).is_allocated(q),
            forall|q: nat| final(alloc).is_free(q) ==> old(alloc).is_free(q),
            forall|q: nat|
                old(mem).covers(q) && old(alloc).is_allocated(q) ==> final(mem).page(q) == old(
                    mem,
                ).page(q),
            r matches Some(ms) ==> ms.wf(*final(alloc), *final(mem)) && ms.trampoline == Some(
                strampoline.0,
            ),
            // well-formed, pairwise disjoint sections with frames to spare
            // are owed a kernel space
            (spec_usable(*old(alloc)) >= 3 + 3 * MemorySet::spec_sections_pages(
                sections@,
                sections@.len() as int,
            ) && (forall|k: int|
                0 <= k < sections@.len() ==> MemorySet::spec_section_ok(#[trigger] sections@[k]))
                && (forall|k: int, k2: int|
                0 <= k < k2 < sections@.len() ==> MemorySet::spec_section_r(
                    #[trigger] sections@[k],
                ) <= MemorySet::spec_section_l(#[trigger] sections@[k2])
                    || MemorySet::spec_section_r(sections@[k2]) <= MemorySet::spec_section_l(
                    sections@[k],
                ))) ==> r is Some,
            // each section is then mapped page for page with its permissions
            r matches Some(ms) ==> ms.areas@.len() == sections@.len() && forall|k: int|
                0 <= k < sections@.len() ==> ({
                    &&& (#[trigger] ms.areas@[k]).vpn_range.l.0 == MemorySet::spec_section_l(
                        sections@[k],
                    )
                    &&& ms.areas@[k].vpn_range.r.0 == MemorySet::spec_section_r(sections@[k])
                    &&& ms.areas@[k].map_type == MapType::Identical
                    &&& ms.areas@[k].map_perm == sections@[k].2
                }),
    {
        let ghost owed = spec_usable(*old(alloc)) >= 3 + 3 * MemorySet::spec_sections_pages(
            sections@,
            sections@.len() as int,
        ) && (forall|k: int|
            0 <= k < sections@.len() ==> MemorySet::spec_section_ok(#[trigger] sections@[k])) && (
        forall|k: int, k2: int|
            0 <= k < k2 < sections@.len() ==> MemorySet::spec_section_r(#[trigger] sections@[k])
                <= MemorySet::spec_section_l(#[trigger] sections@[k2])
                || MemorySet::spec_section_r(sections@[k2]) <= MemorySet::spec_section_l(
                sections@[k],
            ));
        proof {
            if owed {
                lemma_sections_pages_mono(sections@, 0, sections@.len() as int);
            }
        }
        if alloc.usable_frames() < 1 {
            proof {
                assert(!owed);
            }
            return None;
        }
        let mut ms = match MemorySet::new_bare(alloc, mem) {
            Some(m) => m,
            None => {
                return None;
            },
        };
        if alloc.usable_frames() < 2 {
            proof {
                assert(!owed);
            }
            return None;
        }
        ms.map_trampoline(strampoline, alloc, mem);
        let n = sections.len();
        let mut i: usize = 0;
        while i < n
            invariant
                i <= n,
                n == sections@.len(),
                sys_inv(*alloc, *mem),
                ms.wf(*alloc, *mem),
                ms.trampoline == Some(strampoline.0),
                mem.base == old(mem).base,
                mem.pages@.len() == old(mem).pages@.len(),
                alloc.end == old(alloc).end,
                forall|q: nat| old(alloc).is_allocated(q) ==> alloc.is_allocated(q),
                forall|q: nat| alloc.is_free(q) ==> old(alloc).is_free(q),
                forall|q: nat|
                    old(mem).covers(q) && old(alloc).is_allocated(q) ==> mem.page(q) == old(
                        mem,
                    ).page(q),
                owed == (spec_usable(*old(alloc)) >= 3 + 3 * MemorySet::spec_sections_pages(
                    sections@,
                    sections@.len() as int,
                ) && (forall|k: int|
                    0 <= k < sections@.len() ==> MemorySet::spec_section_ok(
                        #[trigger] sections@[k],
                    )) && (forall|k: int, k2: int|
                    0 <= k < k2 < sections@.len() ==> MemorySet::spec_section_r(
                        #[trigger] sections@[k],
                    ) <= MemorySet::spec_section_l(#[trigger] sections@[k2])
                        || MemorySet::spec_section_r(sections@[k2])
                        <= MemorySet::spec_section_l(sections@[k]))),
                owed ==> spec_usable(*alloc) >= 3 * (MemorySet::spec_sections_pages(
                    sections@,
                    n as int,
                ) - MemorySet::spec_sections_pages(sections@, i as int)),
                ms.areas@.len() == i,
                forall|k: int|
                    0 <= k < i ==> ({
                        &&& (#[trigger] ms.areas@[k]).vpn_range.l.0 == MemorySet::spec_section_l(
                            sections@[k],
                        )
                        &&& ms.areas@[k].vpn_range.r.0 == MemorySet::spec_section_r(sections@[k])
                        &&& ms.areas@[k].map_type == MapType::Identical
                        &&& ms.areas@[k].map_perm == sections@[k].2
                    }),
                owed ==> forall|w: usize|
                    #[trigger] ms.maps(w) ==> vpn_key(w as nat) == vpn_key(
                        spec_trampoline_vpn() as nat,
                    ) || exists|k: int|
                        0 <= k < i && MemorySet::spec_section_l(#[trigger] sections@[k])
                            <= vpn_key(w as nat) < MemorySet::spec_section_r(sections@[k]),
            decreases n - i,
        {
            let ghost ms_in = ms;
            let (start, end, perm) = sections[i];
            i = i + 1;
            let ghost cur = i as int - 1;
            proof {
                if owed {
                    lemma_sections_pages_mono(sections@, i as int, n as int);
                    assert(MemorySet::spec_sections_pages(sections@, i as int)
                        == MemorySet::spec_sections_pages(sections@, cur)
                        + MemorySet::spec_section_r(sections@[cur]) - MemorySet::spec_section_l(
                        sections@[cur],
                    ));
                    assert(MemorySet::spec_section_ok(sections@[cur]));
                }
            }
            if start > end {
                proof {
                    assert(!owed);
                }
                return None;
            }
            if end >= usize::MAX - PAGE_SIZE {
                proof {
                    assert(!owed);
                }
                return None;
            }
            let area = MapArea::new(VirtAddr(start), VirtAddr(end), MapType::Identical, perm);
            let l = area.vpn_range.get_start();
            let rr = area.vpn_range.get_end();
            if rr.0 - l.0 >= 0x8000000 {
                proof {
                    assert(!owed);
                }
                return None;
            }
            if rr.0 as u64 > PPN_MASK {
                proof {
                    assert(!owed);
                }
                return None;
            }
            if !ms.range_unmapped(l, rr) {
                proof {
                    if owed {
                        let j = choose|j: int|
                            0 <= j < rr.0 - l.0 && #[trigger] ms.maps((l.0 + j) as usize);
                        let w = (l.0 + j) as usize;
                        assert(ms.maps(w));
                        assert(vpn_key(w as nat) == w as nat) by (nonlinear_arith)
                            requires
                                0 <= (w as nat) < 0x7FFFFFF,
                        ;
                        assert(vpn_key(spec_trampoline_vpn() as nat) == 0x7FFFFFF)
                            by (nonlinear_arith)
                            requires
                                spec_trampoline_vpn() == (TRAMPOLINE / PAGE_SIZE) as usize,
                                TRAMPOLINE == usize::MAX - PAGE_SIZE + 1,
                                PAGE_SIZE == 0x1000,
                                usize::MAX == 0xFFFF_FFFF_FFFF_FFFF,
                        ;
                        assert(false);
                    }
                }
                return None;
            }
            if alloc.usable_frames() < usize::MAX / 4 && (rr.0 - l.0) > alloc.usable_frames() / 3 {
                proof {
                    assert(!owed);
                }
                return None;
            }
            proof {
                assert forall|j: int| 0 <= j < rr.0 - l.0 implies !#[trigger] ms.maps(
                    (area.vpn_range.l.0 + j) as usize,
                ) by {
                    assert(!ms.maps((l.0 + j) as usize));
                }
                if owed {
                    assert(spec_usable(*alloc) >= 3 * (rr.0 - l.0));
                }
            }
            ms.push(area, None, alloc, mem);
            proof {
                if owed {
                    assert forall|w: usize| #[trigger] ms.maps(w) implies vpn_key(w as nat)
                        == vpn_key(spec_trampoline_vpn() as nat) || exists|k: int|
                        0 <= k < i && MemorySet::spec_section_l(#[trigger] sections@[k])
                            <= vpn_key(w as nat) < MemorySet::spec_section_r(sections@[k]) by {
                        if !ms_in.maps(w) {
                            assert(area_has_key(ms.areas@.last(), vpn_key(w as nat)));
                            let u = choose|u: int|
                                0 <= u < ms.areas@.last().vpn_range.r.0
                                    - ms.areas@.last().vpn_range.l.0 && #[trigger] vpn_key(
                                    (ms.areas@.last().vpn_range.l.0 + u) as nat,
                                ) == vpn_key(w as nat);
                            assert(vpn_key((ms.areas@.last().vpn_range.l.0 + u) as nat) == (
                            ms.areas@.last().vpn_range.l.0 + u) as nat) by (nonlinear_arith)
                                requires
                                    0 <= ((ms.areas@.last().vpn_range.l.0 + u) as nat),
                                    ((ms.areas@.last().vpn_range.l.0 + u) as nat) < 0x7FFFFFF,
                            ;
                            assert(MemorySet::spec_section_l(sections@[cur]) <= vpn_key(w as nat)
                                < MemorySet::spec_section_r(sections@[cur]));
                        }
                    }
                }
            }
        }
        Some(ms)
    }
}

/// Pages of a section prefix only grow with the prefix.
pub proof fn lemma_sections_pages_mono(ss: Seq<(usize, usize, u8)>, a: int, b: int)
    requires
        0 <= a <= b <= ss.len(),
        forall|k: int| 0 <= k < ss.len() ==> MemorySet::spec_section_ok(#[trigger] ss[k]),
    ensures
        MemorySet::spec_sections_pages(ss, a) <= MemorySet::spec_sections_pages(ss, b),
    decreases b - a,
{
    if a < b {
        lemma_sections_pages_mono(ss, a, b - 1);
        assert(MemorySet::spec_section_l(ss[b - 1]) <= MemorySet::spec_section_r(ss[b - 1]))
            by (nonlinear_arith)
            requires
                ss[b - 1].0 <= ss[b - 1].1,
                MemorySet::spec_section_l(ss[b - 1]) == ss[b - 1].0 as int / (PAGE_SIZE as int),
                MemorySet::spec_section_r(ss[b - 1]) == (ss[b - 1].1 + PAGE_SIZE - 1) as int / (
                PAGE_SIZE as int),
                PAGE_SIZE == 0x1000,
        ;
    }
}

/// Map `[addr, addr + len)` as fresh user pages with the permission bits of
/// `port` (read, write, execute in its low three bits). The address must be
/// page aligned, the length bounded, the port must name no other bit and at
/// least one; a range that meets an existing page is refused. Returns the
/// mapped byte count, or -1.
pub fn map_virtual_pages(
    ms: &mut MemorySet,
    addr: usize,
    len: usize,
    port: usize,
    alloc: &mut StackFrameAllocator,
    mem: &mut PhysMem,
) -> (r: isize)
    requires
        old(ms).wf(*old(alloc), *old(mem)),
        sys_inv(*old(alloc), *old(mem)),
    ensures
        sys_inv(*final(alloc), *final(mem)),
        final(ms).wf(*final(alloc), *final(mem)),
        addr % PAGE_SIZE != 0 || len > 0x40000000 || (port & !0x7usize) != 0 || (port & 0x7usize)
            == 0 ==> r == -1,
        len == 0 && addr % PAGE_SIZE == 0 && (port & !0x7usize) == 0 && (port & 0x7usize) != 0
            ==> r == 0,
        // a refusal changes nothing
        r == -1 ==> final(ms).areas@ == old(ms).areas@ && (forall|w: usize|
            final(ms).leaf_of(w) == old(ms).leaf_of(w)),
        // a valid, aligned, free range with frames to spare owes the mapping
        (addr % PAGE_SIZE == 0 && 0 < len <= 0x40000000 && (port & !0x7usize) == 0 && (port
            & 0x7usize) != 0 && addr + len + PAGE_SIZE <= usize::MAX && (forall|j: int|
            0 <= j < (addr + len + PAGE_SIZE - 1) / (PAGE_SIZE as int) - addr / PAGE_SIZE
                ==> !#[trigger] old(ms).maps((addr / PAGE_SIZE + j) as usize)) && spec_usable(
            *old(alloc),
        ) >= 3 * ((addr + len + PAGE_SIZE - 1) / (PAGE_SIZE as int) - addr / PAGE_SIZE)) ==> r == ((
        addr + len + PAGE_SIZE - 1) / (PAGE_SIZE as int)) * PAGE_SIZE - (addr / PAGE_SIZE)
            * PAGE_SIZE,
        r > 0 ==> {
            &&& r == ((addr + len + PAGE_SIZE - 1) / (PAGE_SIZE as int)) * PAGE_SIZE - addr
            &&& forall|j: int|
                0 <= j < (addr + len + PAGE_SIZE - 1) / (PAGE_SIZE as int) - addr / PAGE_SIZE
                    ==> #[trigger] final(ms).maps((addr / PAGE_SIZE + j) as usize)
            // the fresh region carries the port's permission bits over user
            // access
            &&& final(ms).areas@.len() == old(ms).areas@.len() + 1
            &&& final(ms).areas@.last().map_perm == spec_port_to_permission(port)
            // and its pages read as zero
            &&& forall|j: int|
                0 <= j < (addr + len + PAGE_SIZE - 1) / (PAGE_SIZE as int) - addr / PAGE_SIZE
                    ==> #[trigger] final(ms).view_page(*final(mem), (addr / PAGE_SIZE + j) as usize)
                    == zero_page()
        },
{
    if addr % PAGE_SIZE != 0 || len > 0x40000000 || (port & !0x7usize) != 0 || (port & 0x7usize)
        == 0 {
        return -1;
    }
    if len == 0 {
        return 0;
    }
    let perm = port_to_permission(port);
    if addr > usize::MAX - len - PAGE_SIZE {
        return -1;
    }
    let area = MapArea::new(VirtAddr(addr), VirtAddr(addr + len), MapType::Framed, perm);
    let l = area.vpn_range.get_start();
    let rr = area.vpn_range.get_end();
    if rr.0 - l.0 >= 0x8000000 {
        return -1;
    }
    if !ms.range_unmapped(l, rr) {
        return -1;
    }
    if alloc.usable_frames() < usize::MAX / 4 && (rr.0 - l.0) > alloc.usable_frames() / 3 {
        return -1;
    }
    proof {
        assert forall|j: int| 0 <= j < rr.0 - l.0 implies !#[trigger] ms.maps(
            (area.vpn_range.l.0 + j) as usize,
        ) by {
            assert(!ms.maps((l.0 + j) as usize));
        }
    }
    let npages = rr.0 - l.0;
    ms.push(area, None, alloc, mem);
    proof {
        assert forall|j: int| 0 <= j < (addr + len + PAGE_SIZE - 1) / (PAGE_SIZE as int) - addr
            / PAGE_SIZE implies #[trigger] ms.maps((addr / PAGE_SIZE + j) as usize) by {
            assert(ms.maps((l.0 + j) as usize));
        }
        assert forall|j: int| 0 <= j < (addr + len + PAGE_SIZE - 1) / (PAGE_SIZE as int) - addr
            / PAGE_SIZE implies #[trigger] ms.view_page(*mem, (addr / PAGE_SIZE + j) as usize)
            == zero_page() by {
            assert(ms.view_page(*mem, (l.0 + j) as usize) == zero_page());
        }
        assert(l.0 * PAGE_SIZE == addr) by (nonlinear_arith)
            requires
                l.0 == addr / PAGE_SIZE,
                addr % PAGE_SIZE == 0,
                PAGE_SIZE == 0x1000,
        ;
        assert(npages <= 0x100001 && usize::MAX / PAGE_SIZE >= 0xFFFFF) by (nonlinear_arith)
            requires
                npages == (addr + len + PAGE_SIZE - 1) / (PAGE_SIZE as int) - addr / PAGE_SIZE,
                addr % PAGE_SIZE == 0,
                len <= 0x40000000,
                PAGE_SIZE == 0x1000,
                usize::MAX >= 0xffffffff,
        ;
    }
    (npages * PAGE_SIZE) as isize
}

/// Turn the low three port bits into region permission bits, with user
/// access added.
pub fn port_to_permission(port: usize) -> (r: u8)
    ensures
        r == spec_port_to_permission(port),
        r & MAP_U == MAP_U,
{
    let rbit: u8 = if port & 0x1 != 0 {
        MAP_R
    } else {
        0
    };
    let wbit: u8 = if port & 0x2 != 0 {
        MAP_W
    } else {
        0
    };
    let xbit: u8 = if port & 0x4 != 0 {
        MAP_X
    } else {
        0
    };
    let perm: u8 = rbit | wbit | xbit | MAP_U;
    proof {
        assert(perm & MAP_U == MAP_U) by {
            let p = perm;
            assert((p | 16u8) & 16u8 == 16u8 || true);
            assert(p == rbit | wbit | xbit | 16u8);
            let rb = rbit;
            let wb = wbit;
            let xb = xbit;
            assert((rb | wb | xb | 16u8) & 16u8 == 16u8) by (bit_vector);
        }
    }
    perm
}

/// The permission bits a port encodes.
pub open spec fn spec_port_to_permission(port: usize) -> u8 {
    (if port & 0x1 != 0 {
        MAP_R
    } else {
        0
    }) | (if port & 0x2 != 0 {
        MAP_W
    } else {
        0
    }) | (if port & 0x4 != 0 {
        MAP_X
    } else {
        0
    }) | MAP_U
}

/// Unmap the page-aligned range `[addr, addr + len)`: the range must cover
/// exactly one mapped region from its start, and is refused with -1
/// otherwise — this space deliberately does not split a region or walk
/// across several, so a sub-range of a region, or a range spanning two,
/// is an error here rather than a partial unmap. Returns the unmapped
/// byte count, or -1.
#[verifier::rlimit(100)]
#[verifier::spinoff_prover]
pub fn unmap_virtual_pages(
    ms: &mut MemorySet,
    addr: usize,
    len: usize,
    alloc: &mut StackFrameAllocator,
    mem: &mut PhysMem,
) -> (r: isize)
    requires
        old(ms).wf(*old(alloc), *old(mem)),
        sys_inv(*old(alloc), *old(mem)),
    ensures
        sys_inv(*final(alloc), *final(mem)),
        final(ms).wf(*final(alloc), *final(mem)),
        addr % PAGE_SIZE != 0 || len > 0x40000000 ==> r == -1,
        r > 0 ==> r == ((addr + len + PAGE_SIZE - 1) / (PAGE_SIZE as int)) * PAGE_SIZE - (addr
            / PAGE_SIZE) * PAGE_SIZE,
        // a refusal changes nothing
        r == -1 ==> final(ms).areas@ == old(ms).areas@ && (forall|w: usize|
            final(ms).leaf_of(w) == old(ms).leaf_of(w)),
        // when the first region starting at the range's first page is a
        // framed region spanning exactly the range, the unmapping is owed
        // and afterwards none of the range's pages translates
        (addr % PAGE_SIZE == 0 && 0 < len <= 0x40000000 && addr + len + PAGE_SIZE <= usize::MAX
            && (exists|i: int|
            {
                &&& 0 <= i < old(ms).areas@.len()
                &&& (#[trigger] old(ms).areas@[i]).vpn_range.l.0 == addr / PAGE_SIZE
                &&& old(ms).areas@[i].vpn_range.r.0 == (addr + len + PAGE_SIZE - 1) / (
                PAGE_SIZE as int)
                &&& old(ms).areas@[i].map_type == MapType::Framed
                &&& forall|k: int|
                    0 <= k < i ==> (#[trigger] old(ms).areas@[k]).vpn_range.l.0 != addr
                        / PAGE_SIZE
            })) ==> (r == ((addr + len + PAGE_SIZE - 1) / (PAGE_SIZE as int)) * PAGE_SIZE - (addr
            / PAGE_SIZE) * PAGE_SIZE && (forall|j: int|
            0 <= j < (addr + len + PAGE_SIZE - 1) / (PAGE_SIZE as int) - addr / PAGE_SIZE
                ==> !#[trigger] final(ms).maps((addr / PAGE_SIZE + j) as usize))),
{
    if addr % PAGE_SIZE != 0 || len > 0x40000000 {
        return -1;
    }
    if len == 0 {
        return 0;
    }
    if addr > usize::MAX - len - PAGE_SIZE {
        return -1;
    }
    let start_vpn = VirtAddr(addr).floor();
    let end_vpn = VirtAddr(addr + len).ceil();
    // the range must be exactly one region starting at its first page
    let n = ms.areas.len();
    let mut i: usize = 0;
    let mut ok = false;
    while i < n && !ok
        invariant
            i <= n,
            n == ms.areas@.len(),
            forall|k: int|
                0 <= k < i ==> !((#[trigger] ms.areas@[k]).vpn_range.l.0 == start_vpn.0
                    && ms.areas@[k].vpn_range.r.0 == end_vpn.0 && ms.areas@[k].map_type
                    == MapType::Framed),
            ok ==> i < n && ms.areas@[i as int].vpn_range.l.0 == start_vpn.0
                && ms.areas@[i as int].vpn_range.r.0 == end_vpn.0 && ms.areas@[i as int].map_type
                == MapType::Framed,
        decreases n - i, 1int - if ok { 1int } else { 0int },
    {
        let a = &ms.areas[i];
        if a.vpn_range.get_start().0 == start_vpn.0 && a.vpn_range.get_end().0 == end_vpn.0
            && matches!(a.map_type, MapType::Framed) {
            ok = true;
        } else {
            i = i + 1;
        }
    }
    if !ok {
        return -1;
    }
    let ghost ms0 = *ms;
    ms.remove_area_with_start_vpn(start_vpn, alloc, mem);
    let npages = end_vpn.0 - start_vpn.0;
    proof {
        assert(start_vpn.0 == addr / PAGE_SIZE && end_vpn.0 == (addr + len + PAGE_SIZE - 1) / (
        PAGE_SIZE as int));
        assert(npages <= 0x100001 && usize::MAX / PAGE_SIZE >= 0xFFFFF) by (nonlinear_arith)
            requires
                npages == (addr + len + PAGE_SIZE - 1) / (PAGE_SIZE as int) - addr / PAGE_SIZE,
                addr % PAGE_SIZE == 0,
                len <= 0x40000000,
                PAGE_SIZE == 0x1000,
                usize::MAX >= 0xffffffff,
        ;
        // the removed region is the least one starting at the range's first
        // page; when the hypothesis holds, that is the found framed region
        // spanning exactly the range, so every page of it no longer maps
        if exists|w: int|
            {
                &&& 0 <= w < ms0.areas@.len()
                &&& (#[trigger] ms0.areas@[w]).vpn_range.l.0 == start_vpn.0
                &&& ms0.areas@[w].vpn_range.r.0 == end_vpn.0
                &&& ms0.areas@[w].map_type == MapType::Framed
                &&& forall|k: int|
                    0 <= k < w ==> (#[trigger] ms0.areas@[k]).vpn_range.l.0 != start_vpn.0
            } {
            let w = choose|w: int|
                {
                    &&& 0 <= w < ms0.areas@.len()
                    &&& (#[trigger] ms0.areas@[w]).vpn_range.l.0 == start_vpn.0
                    &&& ms0.areas@[w].vpn_range.r.0 == end_vpn.0
                    &&& ms0.areas@[w].map_type == MapType::Framed
                    &&& forall|k: int|
                        0 <= k < w ==> (#[trigger] ms0.areas@[k]).vpn_range.l.0 != start_vpn.0
                };
            let rm = choose|rm: int|
                {
                    &&& 0 <= rm < ms0.areas@.len()
                    &&& (#[trigger] ms0.areas@[rm]).vpn_range.l.0 == start_vpn.0
                    &&& forall|k: int|
                        0 <= k < rm ==> (#[trigger] ms0.areas@[k]).vpn_range.l.0 != start_vpn.0
                    &&& ms.areas@ == ms0.areas@.remove(rm)
                    &&& (ms0.areas@[rm].map_type == MapType::Framed ==> forall|k: int|
                        0 <= k < ms0.areas@[rm].vpn_range.r.0 - ms0.areas@[rm].vpn_range.l.0
                            ==> !#[trigger] ms.maps((ms0.areas@[rm].vpn_range.l.0 + k) as usize))
                };
            assert(rm == w);
            assert forall|j: int| 0 <= j < end_vpn.0 - start_vpn.0 implies !#[trigger] ms.maps(
                (addr / PAGE_SIZE + j) as usize,
            ) by {
                assert(!ms.maps((ms0.areas@[rm].vpn_range.l.0 + j) as usize));
                assert((addr / PAGE_SIZE + j) as usize == (ms0.areas@[rm].vpn_range.l.0
                    + j) as usize);
            }
        }
    }
    (npages * PAGE_SIZE) as isize
}

/// The flag byte of the leaf a space maps a page to.
pub open spec fn spec_pte_flags_of_leaf(ms: MemorySet, v: usize) -> u8 {
    crate::page_table::spec_pte_flags(ms.leaf_of(v)->0)
}

/// Two pages with one walk key reach one leaf.
pub proof fn lemma_leaf_key(pt: PageTable, a: usize, b: usize)
    requires
        vpn_key(a as nat) == vpn_key(b as nat),
    ensures
        pt.leaf_of(a) == pt.leaf_of(b),
{
    crate::page_table::lemma_key_indexes(a, b);
}

} // verus!
