//! Three-level page tables: entries in the hardware format (a 44-bit frame
//! number over eight flag bits), the walker that creates interior nodes on
//! demand, and map / unmap / translate over virtual page numbers.
//!
//! Interior nodes are held as owned values beside the frame numbers that back
//! them, so a table is a tree by construction; the walk splits a virtual page
//! number into three 9-bit indices, highest first, exactly as the hardware
//! does.

use vstd::prelude::*;
use crate::addr::{PhysPageNum, VirtPageNum, vpn_key};
use crate::frame_allocator::{PhysMem, StackFrameAllocator, frame_alloc};

verus! {

/// Valid.
pub const PTE_V: u8 = 1;
/// Readable.
pub const PTE_R: u8 = 2;
/// Writable.
pub const PTE_W: u8 = 4;
/// Executable.
pub const PTE_X: u8 = 8;
/// Accessible in user mode.
pub const PTE_U: u8 = 16;

/// Mask of the 44 frame-number bits of an entry.
pub const PPN_MASK: u64 = 0xFFF_FFFF_FFFF;

/// A page-table entry: a frame number shifted ten bits up, over the flag
/// byte.
#[derive(Copy, Clone, PartialEq, Eq, Structural, Debug)]
pub struct PageTableEntry {
    /// The raw bits of the entry.
    pub bits: u64,
}

/// The flag byte of raw entry bits.
pub open spec fn spec_pte_flags(bits: u64) -> u8 {
    (bits & 0xff) as u8
}

/// The frame number of raw entry bits.
pub open spec fn spec_pte_ppn(bits: u64) -> u64 {
    (bits >> 10) & PPN_MASK
}

/// Whether raw entry bits carry the Valid flag.
pub open spec fn spec_pte_valid(bits: u64) -> bool {
    bits & 1 == 1
}

/// The raw bits of an entry built from a frame number and flags.
pub open spec fn spec_pte_new(ppn: u64, flags: u8) -> u64 {
    (ppn << 10) | (flags as u64)
}

impl PageTableEntry {
    /// Build an entry from a frame number and a flag byte.
    pub fn new(ppn: PhysPageNum, flags: u8) -> (r: PageTableEntry)
        requires
            ppn.0 <= PPN_MASK,
        ensures
            r.bits == spec_pte_new(ppn.0 as u64, flags),
            spec_pte_ppn(r.bits) == ppn.0,
            spec_pte_flags(r.bits) == flags,
    {
        let p: u64 = ppn.0 as u64;
        let f: u64 = flags as u64;
        let bits: u64 = (p << 10) | f;
        assert((((p << 10) | f) >> 10) & 0xFFF_FFFF_FFFF == p && ((p << 10) | f) & 0xff == f)
            by (bit_vector)
            requires
                p <= 0xFFF_FFFF_FFFF && f < 256,
        ;
        PageTableEntry { bits }
    }

    /// The all-zero entry: not valid.
    pub fn empty() -> (r: PageTableEntry)
        ensures
            r.bits == 0,
            !spec_pte_valid(r.bits),
    {
        assert(0u64 & 1 == 0) by (bit_vector);
        PageTableEntry { bits: 0 }
    }

    /// The frame number the entry points at.
    pub fn ppn(&self) -> (r: PhysPageNum)
        requires
            spec_pte_ppn(self.bits) <= usize::MAX,
        ensures
            r.0 == spec_pte_ppn(self.bits),
    {
        PhysPageNum(((self.bits >> 10) & PPN_MASK) as usize)
    }

    /// The flag byte of the entry.
    pub fn flags(&self) -> (r: u8)
        ensures
            r == spec_pte_flags(self.bits),
    {
        (self.bits & 0xff) as u8
    }

    /// Whether the Valid flag is set.
    pub fn is_valid(&self) -> (r: bool)
        ensures
            r == spec_pte_valid(self.bits),
    {
        self.bits & 1 == 1
    }

    /// Whether the Readable flag is set.
    pub fn readable(&self) -> (r: bool)
        ensures
            r == (self.bits & 2 == 2),
    {
        self.bits & 2 == 2
    }

    /// Whether the Writable flag is set.
    pub fn writable(&self) -> (r: bool)
        ensures
            r == (self.bits & 4 == 4),
    {
        self.bits & 4 == 4
    }

    /// Whether the Executable flag is set.
    pub fn executable(&self) -> (r: bool)
        ensures
            r == (self.bits & 8 == 8),
    {
        self.bits & 8 == 8
    }

    /// Whether the User flag is set.
    pub fn user(&self) -> (r: bool)
        ensures
            r == (self.bits & 16 == 16),
    {
        self.bits & 16 == 16
    }
}

/// The highest-level 9-bit index of a virtual page number.
pub open spec fn spec_idx0(v: usize) -> usize {
    (v >> 18) & 511
}

/// The middle 9-bit index of a virtual page number.
pub open spec fn spec_idx1(v: usize) -> usize {
    (v >> 9) & 511
}

/// The lowest 9-bit index of a virtual page number.
pub open spec fn spec_idx2(v: usize) -> usize {
    v & 511
}

/// Two virtual page numbers walk to the same leaf slot exactly when their low
/// 27 bits agree.
pub proof fn lemma_key_indexes(a: usize, b: usize)
    ensures
        (vpn_key(a as nat) == vpn_key(b as nat)) <==> (spec_idx0(a) == spec_idx0(b) && spec_idx1(a)
            == spec_idx1(b) && spec_idx2(a) == spec_idx2(b)),
{
    assert((a % 0x8000000 == b % 0x8000000) <==> ((a >> 18) & 511 == (b >> 18) & 511 && (a >> 9)
        & 511 == (b >> 9) & 511 && a & 511 == b & 511)) by (bit_vector);
}

/// Level-two node: 512 leaf entries, stored in the frame `ppn`.
pub struct LeafNode {
    /// The frame that holds this node.
    pub ppn: usize,
    /// The raw bits of the 512 leaf entries.
    pub entries: Vec<u64>,
}

/// Level-one node: up to 512 children, stored in the frame `ppn`.
pub struct MidNode {
    /// The frame that holds this node.
    pub ppn: usize,
    /// The children; a present child stands for a directory entry with the
    /// Valid flag alone.
    pub children: Vec<Option<LeafNode>>,
}

/// The root node of a table.
pub struct RootNode {
    /// The frame that holds this node.
    pub ppn: usize,
    /// The children; a present child stands for a directory entry with the
    /// Valid flag alone.
    pub children: Vec<Option<MidNode>>,
}

/// A three-level page table: the root frame plus every interior node, each
/// owned together with the frame number that backs it.
pub struct PageTable {
    /// The tree of interior nodes.
    pub root: RootNode,
    /// Every frame that backs a node of the tree, the root first; destroyed
    /// tables hand these back to the allocator.
    pub frames: Vec<usize>,
}

impl PageTable {
    /// Shape of the tree: each node holds exactly 512 slots.
    pub open spec fn shape_wf(&self) -> bool {
        &&& self.root.children@.len() == 512
        &&& forall|i: int|
            0 <= i < 512 && (#[trigger] self.root.children@[i]) is Some
                ==> self.root.children@[i]->0.children@.len() == 512
        &&& forall|i: int, j: int|
            0 <= i < 512 && 0 <= j < 512 && (#[trigger] self.root.children@[i]) is Some && (
            #[trigger] self.root.children@[i]->0.children@[j]) is Some
                ==> self.root.children@[i]->0.children@[j]->0.entries@.len() == 512
    }

    /// The frames the tree owns are recorded, pairwise distinct, and all
    /// allocated: teardown may return each one exactly once.
    pub open spec fn frames_wf(&self, alloc: StackFrameAllocator) -> bool {
        &&& forall|i: int, j: int|
            0 <= i < j < self.frames@.len() ==> self.frames@[i] != self.frames@[j]
        &&& forall|i: int|
            0 <= i < self.frames@.len() ==> alloc.is_allocated((#[trigger] self.frames@[i]) as nat)
    }

    /// Well-formed against the given allocator.
    pub open spec fn wf(&self, alloc: StackFrameAllocator) -> bool {
        self.shape_wf() && self.frames_wf(alloc)
    }

    /// The leaf entry the walk reaches for the given virtual page number, if
    /// both directory levels are present.
    pub open spec fn leaf_of(&self, v: usize) -> Option<u64> {
        match self.root.children@[spec_idx0(v) as int] {
            Some(mid) => match mid.children@[spec_idx1(v) as int] {
                Some(leaf) => Some(leaf.entries@[spec_idx2(v) as int]),
                None => None,
            },
            None => None,
        }
    }

    /// Whether the walk reaches a leaf carrying the Valid flag.
    pub open spec fn maps(&self, v: usize) -> bool {
        match self.leaf_of(v) {
            Some(bits) => spec_pte_valid(bits),
            None => false,
        }
    }

    /// A fresh table: one zeroed root frame, nothing mapped.
    pub fn new(alloc: &mut StackFrameAllocator, mem: &mut PhysMem) -> (r: Option<PageTable>)
        requires
            old(alloc).wf(),
            old(mem).wf(),
            old(mem).base <= old(alloc).current,
            old(alloc).end <= old(mem).base + old(mem).pages@.len(),
            forall|i: int|
                0 <= i < old(alloc).recycled@.len() ==> old(mem).covers(
                    (#[trigger] old(alloc).recycled@[i]) as nat,
                ),
        ensures
            final(alloc).wf(),
            final(mem).wf(),
            final(mem).base == old(mem).base,
            final(mem).pages@.len() == old(mem).pages@.len(),
            final(alloc).end == old(alloc).end,
            r is None <==> old(alloc).recycled@.len() == 0 && old(alloc).current == old(alloc).end,
            final(alloc).current >= old(alloc).current,
            final(alloc).recycled@.len() <= old(alloc).recycled@.len(),
            forall|i: int|
                0 <= i < final(alloc).recycled@.len() ==> final(alloc).recycled@[i] == old(alloc).recycled@[i],
            final(alloc).end - final(alloc).current + final(alloc).recycled@.len()
                >= old(alloc).end - old(alloc).current + old(alloc).recycled@.len() - 1,
            r matches Some(pt) ==> {
                &&& pt.wf(*final(alloc))
                &&& forall|v: usize| pt.leaf_of(v) is None
                &&& pt.frames@.len() == 1
                &&& pt.frames@[0] == pt.root.ppn
                &&& old(alloc).is_free(pt.root.ppn as nat)
                &&& forall|q: nat|
                    q != pt.root.ppn ==> (old(alloc).is_allocated(q)
                        <==> final(alloc).is_allocated(q))
                &&& forall|q: nat|
                    old(mem).covers(q) && q != pt.root.ppn
                        ==> final(mem).page(q) == old(mem).page(q)
            },
    {
        let got = frame_alloc(alloc, mem);
        match got {
            Some(ppn) => {
                let mut children: Vec<Option<MidNode>> = Vec::new();
                let mut i: usize = 0;
                while i < 512
                    invariant
                        i <= 512,
                        children@.len() == i,
                        forall|j: int| 0 <= j < i ==> (#[trigger] children@[j]) is None,
                    decreases 512 - i,
                {
                    children.push(None);
                    i = i + 1;
                }
                let mut frames: Vec<usize> = Vec::new();
                frames.push(ppn.0);
                let pt = PageTable { root: RootNode { ppn: ppn.0, children }, frames };
                assert forall|v: usize| pt.leaf_of(v) is None by {
                    assert((v >> 18) & 511 < 512) by (bit_vector);
                }
                Some(pt)
            },
            None => None,
        }
    }
}

/// Build 512 empty leaf slots.
fn empty_leaf_entries() -> (r: Vec<u64>)
    ensures
        r@.len() == 512,
        forall|j: int| 0 <= j < 512 ==> r@[j] == 0u64,
{
    let mut v: Vec<u64> = Vec::new();
    let mut i: usize = 0;
    while i < 512
        invariant
            i <= 512,
            v@.len() == i,
            forall|j: int| 0 <= j < i ==> v@[j] == 0u64,
        decreases 512 - i,
    {
        v.push(0u64);
        i = i + 1;
    }
    v
}

/// Build 512 empty child slots for a mid-level node.
fn empty_mid_children() -> (r: Vec<Option<LeafNode>>)
    ensures
        r@.len() == 512,
        forall|j: int| 0 <= j < 512 ==> (#[trigger] r@[j]) is None,
{
    let mut v: Vec<Option<LeafNode>> = Vec::new();
    let mut i: usize = 0;
    while i < 512
        invariant
            i <= 512,
            v@.len() == i,
            forall|j: int| 0 <= j < i ==> (#[trigger] v@[j]) is None,
        decreases 512 - i,
    {
        v.push(None);
        i = i + 1;
    }
    v
}

impl PageTable {
    /// The hardware root register value naming this table: mode bits over the
    /// root frame number.
    pub fn token(&self) -> (r: u64)
        ensures
            r == (8u64 << 60) | (self.root.ppn as u64),
    {
        (8u64 << 60) | (self.root.ppn as u64)
    }

    /// Walk to the leaf for `vpn` and return a copy of it, or none when a
    /// directory level is missing.
    pub fn translate(&self, vpn: VirtPageNum) -> (r: Option<PageTableEntry>)
        requires
            self.shape_wf(),
        ensures
            match r {
                Some(e) => self.leaf_of(vpn.0) == Some(e.bits),
                None => self.leaf_of(vpn.0) is None,
            },
    {
        let (i0, i1, i2) = vpn.indexes();
        match &self.root.children[i0] {
            Some(mid) => match &mid.children[i1] {
                Some(leaf) => Some(PageTableEntry { bits: leaf.entries[i2] }),
                None => None,
            },
            None => None,
        }
    }

    /// Insert a leaf for `vpn` pointing at `ppn` with the given flags over
    /// Valid, creating missing directory levels from the allocator. The leaf
    /// must not be mapped yet, and two free frames must remain for the
    /// directory levels.
    pub fn map(
        &mut self,
        vpn: VirtPageNum,
        ppn: PhysPageNum,
        flags: u8,
        alloc: &mut StackFrameAllocator,
        mem: &mut PhysMem,
    )
        requires
            old(self).wf(*old(alloc)),
            old(alloc).wf(),
            old(mem).wf(),
            old(mem).base <= old(alloc).current,
            old(alloc).end <= old(mem).base + old(mem).pages@.len(),
            forall|i: int|
                0 <= i < old(alloc).recycled@.len() ==> old(mem).covers(
                    (#[trigger] old(alloc).recycled@[i]) as nat,
                ),
            old(alloc).end - old(alloc).current + old(alloc).recycled@.len() >= 2,
            !old(self).maps(vpn.0),
            ppn.0 as u64 <= PPN_MASK,
        ensures
            final(alloc).wf(),
            final(mem).wf(),
            final(mem).base == old(mem).base,
            final(mem).pages@.len() == old(mem).pages@.len(),
            final(alloc).end == old(alloc).end,
            final(self).wf(*final(alloc)),
            final(self).root.ppn == old(self).root.ppn,
            final(self).leaf_of(vpn.0) == Some(spec_pte_new(ppn.0 as u64, flags | PTE_V)),
            final(self).maps(vpn.0),
            forall|w: usize|
                vpn_key(w as nat) != vpn_key(vpn.0 as nat)
                    ==> final(self).maps(w) == old(self).maps(w),
            forall|w: usize|
                vpn_key(w as nat) != vpn_key(vpn.0 as nat) && old(self).maps(w)
                    ==> final(self).leaf_of(w) == old(self).leaf_of(w),
            // frames grow by fresh ones only
            final(self).frames@.len() >= old(self).frames@.len(),
            final(self).frames@.subrange(0, old(self).frames@.len() as int) == old(self).frames@,
            forall|i: int|
                old(self).frames@.len() <= i < final(self).frames@.len() ==> old(alloc).is_free(
                    (#[trigger] final(self).frames@[i]) as nat,
                ) && !old(alloc).is_allocated((final(self).frames@[i]) as nat),
            // the allocator lost at most the fresh frames
            forall|q: nat| old(alloc).is_allocated(q) ==> final(alloc).is_allocated(q),
            forall|q: nat|
                final(alloc).is_allocated(q) && !old(alloc).is_allocated(q)
                    ==> old(alloc).is_free(q),
            forall|q: nat| final(alloc).is_free(q) ==> old(alloc).is_free(q),
            final(alloc).current >= old(alloc).current,
            final(alloc).recycled@.len() <= old(alloc).recycled@.len(),
            forall|i: int|
                0 <= i < final(alloc).recycled@.len() ==> final(alloc).recycled@[i] == old(alloc).recycled@[i],
            // pages of frames already allocated keep their bytes
            forall|q: nat|
                old(mem).covers(q) && old(alloc).is_allocated(q)
                    ==> final(mem).page(q) == old(mem).page(q),
            final(alloc).end - final(alloc).current + final(alloc).recycled@.len()
                >= old(alloc).end - old(alloc).current + old(alloc).recycled@.len() - 2,
    {
        let (i0, i1, i2) = vpn.indexes();
        let ghost alloc0 = *alloc;
        // level 0: make sure the mid-level node exists
        let mut slot0: Option<MidNode> = None;
        core::mem::swap(&mut self.root.children[i0], &mut slot0);
        let mut mid: MidNode = match slot0 {
            Some(m) => m,
            None => {
                let f = frame_alloc(alloc, mem).unwrap();
                self.frames.push(f.0);
                MidNode { ppn: f.0, children: empty_mid_children() }
            },
        };
        let ghost alloc1 = *alloc;
        // level 1: make sure the leaf node exists
        let mut slot1: Option<LeafNode> = None;
        core::mem::swap(&mut mid.children[i1], &mut slot1);
        let mut leaf: LeafNode = match slot1 {
            Some(l) => l,
            None => {
                let f = frame_alloc(alloc, mem).unwrap();
                self.frames.push(f.0);
                LeafNode { ppn: f.0, entries: empty_leaf_entries() }
            },
        };
        // level 2: write the leaf entry
        let pte = PageTableEntry::new(ppn, flags | PTE_V);
        leaf.entries[i2] = pte.bits;
        let mut slot1b: Option<LeafNode> = Some(leaf);
        core::mem::swap(&mut mid.children[i1], &mut slot1b);
        let mut slot0b: Option<MidNode> = Some(mid);
        core::mem::swap(&mut self.root.children[i0], &mut slot0b);
        proof {
            let v: usize = vpn.0;
            assert(!spec_pte_valid(0u64)) by (bit_vector);
            assert(spec_pte_valid(spec_pte_new(ppn.0 as u64, flags | PTE_V))) by {
                lemma_mapped_leaf_flags(ppn.0 as u64, flags);
            }
            assert forall|w: usize| vpn_key(w as nat) != vpn_key(v as nat) implies (final(self).maps(w) == old(self).maps(w) && (old(self).maps(w) ==> final(self).leaf_of(w) == old(self).leaf_of(w))) by {
                lemma_key_indexes(w, v);
                assert((w >> 18) & 511 < 512 && (w >> 9) & 511 < 512 && (w & 511) < 512)
                    by (bit_vector);
                if spec_idx0(w) == spec_idx0(v) && spec_idx1(w) == spec_idx1(v) {
                    assert(spec_idx2(w) != spec_idx2(v));
                }
            }
        }
    }

    /// Clear the leaf for `vpn`; it must currently be mapped.
    pub fn unmap(&mut self, vpn: VirtPageNum)
        requires
            old(self).shape_wf(),
            old(self).maps(vpn.0),
        ensures
            final(self).shape_wf(),
            final(self).frames@ == old(self).frames@,
            final(self).root.ppn == old(self).root.ppn,
            final(self).leaf_of(vpn.0) == Some(0u64),
            !final(self).maps(vpn.0),
            forall|w: usize|
                vpn_key(w as nat) != vpn_key(vpn.0 as nat)
                    ==> final(self).leaf_of(w) == old(self).leaf_of(w),
    {
        let (i0, i1, i2) = vpn.indexes();
        let mut slot0: Option<MidNode> = None;
        core::mem::swap(&mut self.root.children[i0], &mut slot0);
        let mut mid: MidNode = slot0.unwrap();
        let mut slot1: Option<LeafNode> = None;
        core::mem::swap(&mut mid.children[i1], &mut slot1);
        let mut leaf: LeafNode = slot1.unwrap();
        leaf.entries[i2] = 0u64;
        let mut slot1b: Option<LeafNode> = Some(leaf);
        core::mem::swap(&mut mid.children[i1], &mut slot1b);
        let mut slot0b: Option<MidNode> = Some(mid);
        core::mem::swap(&mut self.root.children[i0], &mut slot0b);
        proof {
            assert(!spec_pte_valid(0u64)) by (bit_vector);
            assert forall|w: usize| vpn_key(w as nat) != vpn_key(vpn.0 as nat) implies (final(self).leaf_of(w) == old(self).leaf_of(w)) by {
                lemma_key_indexes(w, vpn.0);
                assert((w >> 18) & 511 < 512 && (w >> 9) & 511 < 512 && (w & 511) < 512)
                    by (bit_vector);
            }
        }
    }
}

/// Mapping writes the given flags beside Valid: the leaf that a mapped page
/// translates to is valid and carries every requested permission bit.
pub proof fn lemma_mapped_leaf_flags(ppn: u64, f: u8)
    requires
        ppn <= PPN_MASK,
    ensures
        spec_pte_valid(spec_pte_new(ppn, f | PTE_V)),
        spec_pte_flags(spec_pte_new(ppn, f | PTE_V)) & (f | PTE_V) == (f | PTE_V),
        spec_pte_flags(spec_pte_new(ppn, f | PTE_V)) == (f | PTE_V),
        spec_pte_ppn(spec_pte_new(ppn, f | PTE_V)) == ppn,
{
    let bits = spec_pte_new(ppn, f | PTE_V);
    assert((f | 1u8) & (f | 1u8) == (f | 1u8)) by (bit_vector);
    assert(((ppn << 10) | ((f | 1u8) as u64)) & 1 == 1 && (((ppn << 10) | ((f | 1u8) as u64))
        & 0xff) as u8 == (f | 1u8) && (((ppn << 10) | ((f | 1u8) as u64)) >> 10)
        & 0xFFF_FFFF_FFFF == ppn) by (bit_vector)
        requires
            ppn <= 0xFFF_FFFF_FFFF,
    ;
}

} // verus!
