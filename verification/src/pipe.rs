//! Pipes: a bounded ring of bytes with a read end and a write end. The ring
//! remembers its own state tag, since an equal head and tail can mean either
//! empty or full.

use vstd::prelude::*;

verus! {

/// Capacity of a pipe's ring, in bytes.
pub const RING_BUFFER_SIZE: usize = 32;

/// State tag of the ring.
#[derive(Copy, Clone, PartialEq, Eq, Structural, Debug)]
pub enum RingBufferStatus {
    /// Head equals tail and the ring holds nothing.
    Empty,
    /// Head equals tail and the ring holds everything.
    Full,
    /// Head and tail differ.
    Normal,
}

/// A pipe's ring of queued bytes.
pub struct PipeRingBuffer {
    /// The backing storage.
    pub arr: Vec<u8>,
    /// Index of the next byte to read.
    pub head: usize,
    /// Index of the next free slot.
    pub tail: usize,
    /// Whether the ring is empty, full or in between.
    pub status: RingBufferStatus,
}

impl PipeRingBuffer {
    /// The storage spans the capacity and the tag agrees with the indices.
    pub open spec fn wf(&self) -> bool {
        &&& self.arr@.len() == RING_BUFFER_SIZE
        &&& self.head < RING_BUFFER_SIZE
        &&& self.tail < RING_BUFFER_SIZE
        &&& (self.status == RingBufferStatus::Empty || self.status == RingBufferStatus::Full
            ==> self.head == self.tail)
        &&& (self.status == RingBufferStatus::Normal ==> self.head != self.tail)
    }

    /// How many bytes wait in the ring.
    pub open spec fn spec_available_read(&self) -> int {
        if self.status == RingBufferStatus::Empty {
            0
        } else if self.tail > self.head {
            self.tail - self.head
        } else {
            self.tail + RING_BUFFER_SIZE - self.head
        }
    }

    /// The queued bytes, oldest first.
    pub open spec fn contents(&self) -> Seq<u8> {
        Seq::new(
            self.spec_available_read() as nat,
            |i: int| self.arr@[(self.head + i) % (RING_BUFFER_SIZE as int)],
        )
    }

    /// An empty ring.
    pub fn new() -> (r: PipeRingBuffer)
        ensures
            r.wf(),
            r.contents() == Seq::<u8>::empty(),
            r.spec_available_read() == 0,
    {
        let mut arr: Vec<u8> = Vec::new();
        let mut i: usize = 0;
        while i < RING_BUFFER_SIZE
            invariant
                i <= RING_BUFFER_SIZE,
                arr@.len() == i,
            decreases RING_BUFFER_SIZE - i,
        {
            arr.push(0u8);
            i = i + 1;
        }
        let r = PipeRingBuffer { arr, head: 0, tail: 0, status: RingBufferStatus::Empty };
        proof {
            assert(r.contents() =~= Seq::<u8>::empty());
        }
        r
    }

    /// Bytes waiting to be read.
    pub fn available_read(&self) -> (r: usize)
        requires
            self.wf(),
        ensures
            r == self.spec_available_read(),
            r == self.contents().len(),
    {
        if matches!(self.status, RingBufferStatus::Empty) {
            0
        } else if self.tail > self.head {
            self.tail - self.head
        } else {
            self.tail + RING_BUFFER_SIZE - self.head
        }
    }

    /// Free slots left for writing.
    pub fn available_write(&self) -> (r: usize)
        requires
            self.wf(),
        ensures
            r == RING_BUFFER_SIZE - self.spec_available_read(),
    {
        if matches!(self.status, RingBufferStatus::Full) {
            0
        } else {
            RING_BUFFER_SIZE - self.available_read()
        }
    }

    /// Queue one byte; the ring must have room.
    pub fn write_byte(&mut self, byte: u8)
        requires
            old(self).wf(),
            old(self).spec_available_read() < RING_BUFFER_SIZE,
        ensures
            final(self).wf(),
            final(self).contents() == old(self).contents().push(byte),
    {
        self.status = RingBufferStatus::Normal;
        self.arr[self.tail] = byte;
        self.tail = (self.tail + 1) % RING_BUFFER_SIZE;
        if self.tail == self.head {
            self.status = RingBufferStatus::Full;
        }
        proof {
            assert(final(self).contents() =~= old(self).contents().push(byte));
        }
    }

    /// Take the oldest byte; the ring must hold one.
    pub fn read_byte(&mut self) -> (c: u8)
        requires
            old(self).wf(),
            old(self).spec_available_read() > 0,
        ensures
            final(self).wf(),
            c == old(self).contents()[0],
            final(self).contents() == old(self).contents().drop_first(),
    {
        self.status = RingBufferStatus::Normal;
        let c = self.arr[self.head];
        self.head = (self.head + 1) % RING_BUFFER_SIZE;
        if self.head == self.tail {
            self.status = RingBufferStatus::Empty;
        }
        proof {
            assert(final(self).contents() =~= old(self).contents().drop_first());
        }
        c
    }
}

/// A shared pipe: the ring plus how many read and write ends are still open.
pub struct PipeState {
    /// The queued bytes.
    pub buffer: PipeRingBuffer,
    /// Open descriptors on the read end.
    pub read_ends: usize,
    /// Open descriptors on the write end; when none are left a drained pipe
    /// reads as ended.
    pub write_ends: usize,
}

impl PipeState {
    /// The ring is well-formed.
    pub open spec fn wf(&self) -> bool {
        self.buffer.wf()
    }

    /// Whether every write end was closed.
    pub open spec fn all_write_ends_closed(&self) -> bool {
        self.write_ends == 0
    }

    /// A fresh pipe with one read end and one write end.
    pub fn make_pipe() -> (r: PipeState)
        ensures
            r.wf(),
            r.buffer.contents() == Seq::<u8>::empty(),
            r.read_ends == 1,
            r.write_ends == 1,
    {
        PipeState { buffer: PipeRingBuffer::new(), read_ends: 1, write_ends: 1 }
    }
}

/// What a pipe hands back is what was written, in order: bytes queued
/// after earlier contents read out exactly as they went in, once the
/// earlier contents are drained. With the ring's capacity for them, a run
/// of bytes survives the trip through a pipe unchanged.
pub proof fn lemma_pipe_fifo(contents: Seq<u8>, written: Seq<u8>)
    requires
        contents.len() + written.len() <= RING_BUFFER_SIZE,
    ensures
        (contents + written).subrange(0, contents.len() as int) == contents,
        (contents + written).subrange(
            contents.len() as int,
            contents.len() as int + written.len() as int,
        ) == written,
        (contents + written).skip(contents.len() as int) == written,
{
    assert((contents + written).subrange(0, contents.len() as int) =~= contents);
    assert((contents + written).subrange(contents.len() as int, contents.len() as int + written.len() as int) =~= written);
    assert((contents + written).skip(contents.len() as int) =~= written);
}

} // verus!
