//! Per-process mailboxes: a bounded queue of datagrams, each a bounded run
//! of bytes, delivered first in first out.

use vstd::prelude::*;

verus! {

/// Most datagrams a mailbox holds.
pub const MAX_PACKET_NUM: usize = 16;

/// Most bytes one datagram holds; longer writes are cut to this.
pub const PACKET_BUFFER_SIZE: usize = 256;

/// One datagram: its bytes.
#[verifier::ext_equal]
pub struct MailPacket {
    /// The payload.
    pub data: Vec<u8>,
}

impl MailPacket {
    /// A datagram never exceeds the packet bound.
    pub open spec fn wf(&self) -> bool {
        self.data@.len() <= PACKET_BUFFER_SIZE
    }

    /// An empty datagram.
    pub fn new() -> (r: MailPacket)
        ensures
            r.wf(),
            r.data@.len() == 0,
    {
        MailPacket { data: Vec::new() }
    }

    /// Build a datagram from a buffer, cutting it to the packet bound.
    pub fn from_buffer(buf: &Vec<u8>) -> (r: MailPacket)
        ensures
            r.wf(),
            r.data@ == if buf@.len() <= PACKET_BUFFER_SIZE {
                buf@
            } else {
                buf@.subrange(0, PACKET_BUFFER_SIZE as int)
            },
    {
        let take: usize = if buf.len() <= PACKET_BUFFER_SIZE {
            buf.len()
        } else {
            PACKET_BUFFER_SIZE
        };
        let mut data: Vec<u8> = Vec::new();
        let mut i: usize = 0;
        while i < take
            invariant
                i <= take,
                take <= buf@.len(),
                data@.len() == i,
                forall|j: int| 0 <= j < i ==> data@[j] == buf@[j],
            decreases take - i,
        {
            data.push(buf[i]);
            i = i + 1;
        }
        proof {
            if buf@.len() <= PACKET_BUFFER_SIZE {
                assert(data@ =~= buf@);
            } else {
                assert(data@ =~= buf@.subrange(0, PACKET_BUFFER_SIZE as int));
            }
        }
        MailPacket { data }
    }
}

/// A mailbox: queued datagrams, oldest first.
#[verifier::ext_equal]
pub struct MailBox {
    /// The waiting datagrams.
    pub packets: Vec<MailPacket>,
}

impl MailBox {
    /// Bounded, with every datagram bounded.
    pub open spec fn wf(&self) -> bool {
        &&& self.packets@.len() <= MAX_PACKET_NUM
        &&& forall|i: int| 0 <= i < self.packets@.len() ==> (#[trigger] self.packets@[i]).wf()
    }

    /// The queued payloads, oldest first.
    pub open spec fn view_packets(&self) -> Seq<Seq<u8>> {
        Seq::new(self.packets@.len(), |i: int| self.packets@[i].data@)
    }

    /// An empty mailbox.
    pub fn new() -> (r: MailBox)
        ensures
            r.wf(),
            r.packets@.len() == 0,
    {
        MailBox { packets: Vec::new() }
    }

    /// Queue a datagram without the full check; used when a mailbox is
    /// copied over at fork.
    pub fn push(&mut self, packet: MailPacket)
        requires
            old(self).wf(),
            old(self).packets@.len() < MAX_PACKET_NUM,
            packet.wf(),
        ensures
            final(self).wf(),
            final(self).packets@ == old(self).packets@.push(packet),
    {
        self.packets.push(packet);
    }

    /// Deliver a datagram: cut to the packet bound; a full mailbox refuses;
    /// an empty buffer only probes for room. Returns the bytes queued, or -1.
    pub fn write(&mut self, buf: &Vec<u8>) -> (r: isize)
        requires
            old(self).wf(),
        ensures
            final(self).wf(),
            old(self).packets@.len() >= MAX_PACKET_NUM ==> r == -1 && final(self).packets@ == old(self).packets@,
            old(self).packets@.len() < MAX_PACKET_NUM && buf@.len() == 0 ==> r == 0 && final(self).packets@ == old(self).packets@,
            old(self).packets@.len() < MAX_PACKET_NUM && buf@.len() > 0 ==> {
                &&& r == if buf@.len() <= PACKET_BUFFER_SIZE {
                    buf@.len() as int
                } else {
                    PACKET_BUFFER_SIZE as int
                }
                &&& final(self).view_packets() == old(self).view_packets().push(
                    if buf@.len() <= PACKET_BUFFER_SIZE {
                        buf@
                    } else {
                        buf@.subrange(0, PACKET_BUFFER_SIZE as int)
                    },
                )
            },
    {
        if self.packets.len() >= MAX_PACKET_NUM {
            return -1;
        }
        let packet = MailPacket::from_buffer(buf);
        let r = packet.data.len() as isize;
        if packet.data.len() > 0 {
            self.packets.push(packet);
            proof {
                assert(final(self).view_packets() =~= old(self).view_packets().push(
                    final(self).packets@.last().data@,
                ));
            }
        }
        r
    }

    /// Take the oldest datagram, cut to the reader's buffer length; an empty
    /// mailbox refuses; a zero-length buffer only probes. Returns the bytes
    /// handed out, or -1.
    pub fn read(&mut self, buf_len: usize) -> (r: (isize, Vec<u8>))
        requires
            old(self).wf(),
        ensures
            final(self).wf(),
            old(self).packets@.len() == 0 ==> r.0 == -1 && final(self).packets@ == old(self).packets@,
            old(self).packets@.len() > 0 && buf_len == 0 ==> r.0 == 0 && final(self).packets@
                == old(self).packets@,
            old(self).packets@.len() > 0 && buf_len > 0 ==> {
                &&& final(self).view_packets() == old(self).view_packets().drop_first()
                &&& r.1@ == if old(self).packets@[0].data@.len() <= buf_len {
                    old(self).packets@[0].data@
                } else {
                    old(self).packets@[0].data@.subrange(0, buf_len as int)
                }
                &&& r.0 == r.1@.len()
            },
    {
        if self.packets.len() == 0 {
            return (-1, Vec::new());
        }
        if buf_len == 0 {
            return (0, Vec::new());
        }
        let packet = self.packets.remove(0);
        let take: usize = if packet.data.len() <= buf_len {
            packet.data.len()
        } else {
            buf_len
        };
        let out = crate::memory_set::subvec(&packet.data, 0, take);
        proof {
            assert(final(self).view_packets() =~= old(self).view_packets().drop_first());
            if old(self).packets@[0].data@.len() <= buf_len {
                assert(out@ =~= old(self).packets@[0].data@);
            }
        }
        (take as isize, out)
    }
}

} // verus!
