//! Physical frame allocation: a stack of recycled frame numbers over a
//! monotonically advancing watermark, and the byte store that backs the
//! allocatable frames.

use vstd::prelude::*;
use crate::addr::PhysPageNum;
use crate::config::PAGE_SIZE;

verus! {

/// The bytes of every allocatable physical frame, indexed by frame number
/// from `base` up.
pub struct PhysMem {
    /// First frame number the store covers.
    pub base: usize,
    /// One 4 KiB buffer per frame in `[base, base + pages.len())`.
    pub pages: Vec<Vec<u8>>,
}

impl PhysMem {
    /// Every page buffer holds exactly one page of bytes, and the range does
    /// not wrap.
    pub open spec fn wf(&self) -> bool {
        &&& forall|i: int| 0 <= i < self.pages@.len() ==> (#[trigger] self.pages@[i])@.len() == PAGE_SIZE
        &&& self.base + self.pages@.len() <= usize::MAX
    }

    /// Whether the store covers the given frame.
    pub open spec fn covers(&self, ppn: nat) -> bool {
        self.base <= ppn < self.base + self.pages@.len()
    }

    /// The bytes of the given frame.
    pub open spec fn page(&self, ppn: nat) -> Seq<u8> {
        self.pages@[ppn - self.base]@
    }

    /// Build a store of `frames` zeroed frames starting at frame `base`.
    pub fn new(base: usize, frames: usize) -> (r: PhysMem)
        requires
            base + frames <= usize::MAX,
        ensures
            r.wf(),
            r.base == base,
            r.pages@.len() == frames,
            forall|p: nat| r.covers(p) ==> r.page(p) == zero_page(),
    {
        let mut pages: Vec<Vec<u8>> = Vec::new();
        let mut i: usize = 0;
        while i < frames
            invariant
                i <= frames,
                pages@.len() == i,
                forall|j: int| 0 <= j < i ==> (#[trigger] pages@[j])@ == zero_page(),
            decreases frames - i,
        {
            pages.push(zeroed_page_bytes());
            i = i + 1;
        }
        let r = PhysMem { base, pages };
        assert(forall|p: nat| r.covers(p) ==> r.page(p) == zero_page());
        r
    }

    /// Read one byte of a frame.
    pub fn read_byte(&self, ppn: PhysPageNum, offset: usize) -> (r: u8)
        requires
            self.wf(),
            self.covers(ppn.0 as nat),
            offset < PAGE_SIZE,
        ensures
            r == self.page(ppn.0 as nat)[offset as int],
    {
        let idx = ppn.0 - self.base;
        self.pages[idx][offset]
    }

    /// Write one byte of a frame.
    pub fn write_byte(&mut self, ppn: PhysPageNum, offset: usize, b: u8)
        requires
            old(self).wf(),
            old(self).covers(ppn.0 as nat),
            offset < PAGE_SIZE,
        ensures
            final(self).wf(),
            final(self).base == old(self).base,
            final(self).pages@.len() == old(self).pages@.len(),
            final(self).page(ppn.0 as nat) == old(self).page(ppn.0 as nat).update(offset as int, b),
            forall|p: nat| old(self).covers(p) && p != ppn.0 ==> final(self).page(p) == old(self).page(p),
    {
        let idx = ppn.0 - self.base;
        self.pages[idx][offset] = b;
    }
}

/// Stack-style frame allocator: frame numbers in `[current, end)` were never
/// handed out yet; `recycled` holds the returned ones, last in first out.
pub struct StackFrameAllocator {
    /// Low watermark: the next never-allocated frame.
    pub current: usize,
    /// One past the last frame the allocator may hand out.
    pub end: usize,
    /// Frames returned to the allocator, available again.
    pub recycled: Vec<usize>,
}

impl StackFrameAllocator {
    /// Every recycled frame was allocated once (it lies below the watermark)
    /// and is recorded only once.
    pub open spec fn wf(&self) -> bool {
        &&& self.current <= self.end
        &&& forall|i: int| 0 <= i < self.recycled@.len() ==> (#[trigger] self.recycled@[i]) < self.current
        &&& forall|i: int, j: int|
            0 <= i < j < self.recycled@.len() ==> self.recycled@[i] != self.recycled@[j]
    }

    /// Whether the frame stands in the recycled stack.
    pub open spec fn is_recycled(&self, ppn: nat) -> bool {
        exists|i: int| 0 <= i < self.recycled@.len() && self.recycled@[i] == ppn
    }

    /// Whether the allocator currently holds the frame as free.
    pub open spec fn is_free(&self, ppn: nat) -> bool {
        self.is_recycled(ppn) || self.current <= ppn < self.end
    }

    /// A frame counts as allocated when it lies below the watermark and is
    /// not recycled.
    pub open spec fn is_allocated(&self, ppn: nat) -> bool {
        ppn < self.current && !self.is_recycled(ppn)
    }

    /// An allocator that owns no frames yet.
    pub fn new() -> (r: StackFrameAllocator)
        ensures
            r.wf(),
            r.current == 0 && r.end == 0,
            r.recycled@.len() == 0,
    {
        StackFrameAllocator { current: 0, end: 0, recycled: Vec::new() }
    }

    /// Hand the allocator the frame range `[l, r)`.
    pub fn init(&mut self, l: PhysPageNum, r: PhysPageNum)
        requires
            l.0 <= r.0,
        ensures
            final(self).wf(),
            final(self).current == l.0,
            final(self).end == r.0,
            final(self).recycled@.len() == 0,
    {
        self.current = l.0;
        self.end = r.0;
        self.recycled = Vec::new();
    }

    /// Number of frames still free, saturating at the machine bound.
    pub fn usable_frames(&self) -> (r: usize)
        requires
            self.wf(),
        ensures
            r == self.end - self.current + self.recycled@.len() || (r == usize::MAX && self.end
                - self.current + self.recycled@.len() >= usize::MAX),
            r <= self.end - self.current + self.recycled@.len(),
    {
        let fresh = self.end - self.current;
        let n = self.recycled.len();
        if n > usize::MAX - fresh {
            usize::MAX
        } else {
            fresh + n
        }
    }

    /// Pop a recycled frame if any, else advance the watermark; none when the
    /// range is exhausted.
    pub fn alloc_frame(&mut self) -> (r: Option<PhysPageNum>)
        requires
            old(self).wf(),
        ensures
            final(self).wf(),
            final(self).end == old(self).end,
            r is None <==> old(self).recycled@.len() == 0 && old(self).current == old(self).end,
            r is None ==> final(self).current == old(self).current && final(self).recycled@ == old(self).recycled@,
            final(self).recycled@.len() <= old(self).recycled@.len(),
            forall|i: int|
                0 <= i < final(self).recycled@.len() ==> final(self).recycled@[i] == old(self).recycled@[i],
            r matches Some(p) ==> old(self).is_free(p.0 as nat) && !final(self).is_free(p.0 as nat),
            r matches Some(p) ==> if old(self).recycled@.len() > 0 {
                &&& p.0 == old(self).recycled@.last()
                &&& final(self).recycled@ == old(self).recycled@.drop_last()
                &&& final(self).current == old(self).current
            } else {
                &&& p.0 == old(self).current
                &&& final(self).current == old(self).current + 1
                &&& final(self).recycled@ == old(self).recycled@
            },
            r matches Some(p) ==> forall|q: nat|
                q != p.0 ==> (old(self).is_free(q) <==> final(self).is_free(q)),
            r matches Some(p) ==> forall|q: nat|
                q != p.0 ==> (old(self).is_allocated(q) <==> final(self).is_allocated(q)),
            r matches Some(p) ==> final(self).is_allocated(p.0 as nat),
    {
        if let Some(ppn) = self.recycled.pop() {
            assert(old(self).recycled@.drop_last() =~= self.recycled@);
            assert forall|q: nat| q != ppn implies (old(self).is_recycled(q) <==> self.is_recycled(
                q,
            )) by {
                if old(self).is_recycled(q) {
                    let i = choose|i: int|
                        0 <= i < old(self).recycled@.len() && old(self).recycled@[i] == q;
                    assert(i < old(self).recycled@.len() - 1);
                    assert(self.recycled@[i] == q);
                }
                if self.is_recycled(q) {
                    let i = choose|i: int|
                        0 <= i < self.recycled@.len() && self.recycled@[i] == q;
                    assert(old(self).recycled@[i] == q);
                }
            }
            assert(!self.is_free(ppn as nat));
            Some(PhysPageNum(ppn))
        } else {
            if self.current == self.end {
                None
            } else {
                self.current = self.current + 1;
                Some(PhysPageNum(self.current - 1))
            }
        }
    }

    /// Return a frame: it must have been allocated and not yet returned.
    pub fn dealloc(&mut self, ppn: PhysPageNum)
        requires
            old(self).wf(),
            old(self).is_allocated(ppn.0 as nat),
        ensures
            final(self).wf(),
            final(self).current == old(self).current,
            final(self).end == old(self).end,
            final(self).recycled@ == old(self).recycled@.push(ppn.0),
            final(self).is_free(ppn.0 as nat),
            forall|q: nat| q != ppn.0 ==> (old(self).is_free(q) <==> final(self).is_free(q)),
            forall|q: nat| q != ppn.0 ==> (old(self).is_allocated(q) <==> final(self).is_allocated(q)),
    {
        self.recycled.push(ppn.0);
        assert(self.recycled@.last() == ppn.0);
        assert(self.is_recycled(ppn.0 as nat));
        assert forall|q: nat| q != ppn.0 implies (old(self).is_recycled(q) <==> self.is_recycled(
            q,
        )) by {
            if self.is_recycled(q) {
                let i = choose|i: int| 0 <= i < self.recycled@.len() && self.recycled@[i] == q;
                assert(i < self.recycled@.len() - 1);
                assert(old(self).recycled@[i] == q);
            }
            if old(self).is_recycled(q) {
                let i = choose|i: int|
                    0 <= i < old(self).recycled@.len() && old(self).recycled@[i] == q;
                assert(self.recycled@[i] == q);
            }
        }
    }
}

/// Allocate one frame and zero its bytes: the frame handed out is always
/// clean.
pub fn frame_alloc(allocator: &mut StackFrameAllocator, mem: &mut PhysMem) -> (r: Option<
    PhysPageNum,
>)
    requires
        old(allocator).wf(),
        old(mem).wf(),
        old(mem).base <= old(allocator).current,
        old(allocator).end <= old(mem).base + old(mem).pages@.len(),
        forall|i: int|
            0 <= i < old(allocator).recycled@.len() ==> old(mem).covers(
                (#[trigger] old(allocator).recycled@[i]) as nat,
            ),
    ensures
        final(allocator).wf(),
        final(mem).wf(),
        final(mem).base == old(mem).base,
        final(mem).pages@.len() == old(mem).pages@.len(),
        final(allocator).end == old(allocator).end,
        final(allocator).current >= old(allocator).current,
        r is None <==> old(allocator).recycled@.len() == 0 && old(allocator).current == old(allocator).end,
        final(allocator).recycled@.len() <= old(allocator).recycled@.len(),
        forall|i: int|
            0 <= i < final(allocator).recycled@.len() ==> final(allocator).recycled@[i] == old(allocator).recycled@[i],
        final(allocator).end - final(allocator).current + final(allocator).recycled@.len() >= old(allocator).end - old(allocator).current + old(allocator).recycled@.len() - 1,
        r matches Some(p) ==> final(allocator).end - final(allocator).current + final(allocator).recycled@.len() == old(allocator).end - old(allocator).current + old(allocator).recycled@.len() - 1,
        r is None ==> final(mem).pages@ == old(mem).pages@ && final(allocator).current == old(allocator).current && final(allocator).recycled@ == old(allocator).recycled@,
        r matches Some(p) ==> {
            &&& old(allocator).is_free(p.0 as nat)
            &&& final(allocator).is_allocated(p.0 as nat)
            &&& final(mem).covers(p.0 as nat)
            &&& final(mem).page(p.0 as nat) == zero_page()
            &&& forall|q: nat| old(mem).covers(q) && q != p.0 ==> final(mem).page(q) == old(mem).page(q)
            &&& forall|q: nat| q != p.0 ==> (old(allocator).is_free(q) <==> final(allocator).is_free(q))
            &&& forall|q: nat|
                q != p.0 ==> (old(allocator).is_allocated(q) <==> final(allocator).is_allocated(q))
        },
{
    let got = allocator.alloc_frame();
    match got {
        Some(ppn) => {
            let idx = ppn.0 - mem.base;
            let z = zeroed_page_bytes();
            mem.pages[idx] = z;
            Some(ppn)
        },
        None => None,
    }
}

/// A page of zero bytes.
pub open spec fn zero_page() -> Seq<u8> {
    Seq::new(PAGE_SIZE as nat, |i: int| 0u8)
}

/// Build one zeroed page buffer.
pub fn zeroed_page_bytes() -> (r: Vec<u8>)
    ensures
        r@ == zero_page(),
{
    let mut v: Vec<u8> = Vec::new();
    let mut i: usize = 0;
    while i < PAGE_SIZE
        invariant
            i <= PAGE_SIZE,
            v@.len() == i,
            forall|j: int| 0 <= j < i ==> v@[j] == 0u8,
        decreases PAGE_SIZE - i,
    {
        v.push(0u8);
        i = i + 1;
    }
    assert(v@ =~= zero_page());
    v
}

} // verus!
