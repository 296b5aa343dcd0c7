//! A reader for 64-bit little-endian executable images: the magic, the
//! entry point, and the table of loadable program segments, each read as
//! plain integers from fixed offsets.

use vstd::prelude::*;

verus! {

/// Segment flag: executable.
pub const PF_X: u32 = 1;
/// Segment flag: writable.
pub const PF_W: u32 = 2;
/// Segment flag: readable.
pub const PF_R: u32 = 4;

/// The 16-bit little-endian integer at `off`.
pub open spec fn spec_le16(data: Seq<u8>, off: int) -> int {
    data[off] as u64 + data[off + 1] as u64 * 0x100
}

/// The 64-bit little-endian integer at `off`.
pub open spec fn spec_le64(data: Seq<u8>, off: int) -> int {
    data[off] as u64 + data[off + 1] as u64 * 0x100 + data[off + 2] as u64 * 0x10000 + data[off
        + 3] as u64 * 0x1000000 + data[off + 4] as u64 * 0x100000000 + data[off + 5] as u64
        * 0x10000000000 + data[off + 6] as u64 * 0x1000000000000 + data[off + 7] as u64
        * 0x100000000000000
}

/// The 32-bit little-endian integer at `off`.
pub open spec fn spec_le32(data: Seq<u8>, off: int) -> int {
    data[off] as u64 + data[off + 1] as u64 * 0x100 + data[off + 2] as u64 * 0x10000 + data[off
        + 3] as u64 * 0x1000000
}

/// Read the 16-bit little-endian integer at `off`.
pub fn read_le16(data: &Vec<u8>, off: usize) -> (r: u64)
    requires
        off + 2 <= data@.len(),
    ensures
        r == spec_le16(data@, off as int),
{
    let n: usize = data.len();
    (data[off] as u64) + (data[off + 1] as u64) * 0x100
}

/// Read the 32-bit little-endian integer at `off`.
pub fn read_le32(data: &Vec<u8>, off: usize) -> (r: u64)
    requires
        off + 4 <= data@.len(),
    ensures
        r == spec_le32(data@, off as int),
{
    let n: usize = data.len();
    (data[off] as u64) + (data[off + 1] as u64) * 0x100 + (data[off + 2] as u64) * 0x10000 + (
    data[off + 3] as u64) * 0x1000000
}

/// Read the 64-bit little-endian integer at `off`.
pub fn read_le64(data: &Vec<u8>, off: usize) -> (r: u64)
    requires
        off + 8 <= data@.len(),
    ensures
        r == spec_le64(data@, off as int),
{
    let n: usize = data.len();
    (data[off] as u64) + (data[off + 1] as u64) * 0x100 + (data[off + 2] as u64) * 0x10000 + (
    data[off + 3] as u64) * 0x1000000 + (data[off + 4] as u64) * 0x100000000 + (data[off
        + 5] as u64) * 0x10000000000 + (data[off + 6] as u64) * 0x1000000000000 + (data[off
        + 7] as u64) * 0x100000000000000
}

/// One loadable program segment: where it sits in the image, where it goes
/// in the address space, and its permission flags.
#[derive(Copy, Clone, PartialEq, Eq, Structural, Debug)]
pub struct ElfSegment {
    /// Virtual address the segment loads at.
    pub vaddr: u64,
    /// Offset of the segment's payload in the image.
    pub offset: u64,
    /// Bytes of payload present in the image.
    pub filesz: u64,
    /// Bytes the segment occupies in memory; the tail past `filesz` is
    /// zero-filled.
    pub memsz: u64,
    /// Permission flags of the segment.
    pub flags: u32,
}

/// Whether the image starts with the executable magic.
pub open spec fn spec_has_magic(data: Seq<u8>) -> bool {
    data.len() >= 64 && data[0] == 0x7f && data[1] == 0x45 && data[2] == 0x4c && data[3] == 0x46
}

/// The header of a parsed image: its entry point and loadable segments in
/// table order.
pub struct ElfImage {
    /// The entry point.
    pub entry: u64,
    /// The loadable segments.
    pub segments: Vec<ElfSegment>,
}

/// The segment the `i`-th program header of the image describes.
pub open spec fn spec_phdr(data: Seq<u8>, phoff: int, phentsize: int, i: int) -> ElfSegment {
    let base = phoff + i * phentsize;
    ElfSegment {
        vaddr: spec_le64(data, base + 16) as u64,
        offset: spec_le64(data, base + 8) as u64,
        filesz: spec_le64(data, base + 32) as u64,
        memsz: spec_le64(data, base + 40) as u64,
        flags: spec_le32(data, base + 4) as u32,
    }
}

/// Whether the `i`-th program header is loadable.
pub open spec fn spec_phdr_load(data: Seq<u8>, phoff: int, phentsize: int, i: int) -> bool {
    spec_le32(data, phoff + i * phentsize) == 1
}

/// The loadable segments among the first `n` program headers, in table
/// order.
pub open spec fn spec_load_segments(data: Seq<u8>, phoff: int, phentsize: int, n: int) -> Seq<
    ElfSegment,
>
    decreases n,
{
    if n <= 0 {
        Seq::empty()
    } else {
        let pre = spec_load_segments(data, phoff, phentsize, n - 1);
        if spec_phdr_load(data, phoff, phentsize, n - 1) {
            pre.push(spec_phdr(data, phoff, phentsize, n - 1))
        } else {
            pre
        }
    }
}

/// Parse an image: check the magic, then walk the program-header table and
/// keep the loadable segments in order. None when the magic is absent or the
/// table reaches past the end of the image.
pub fn parse_elf(data: &Vec<u8>) -> (r: Option<ElfImage>)
    ensures
        r is Some ==> spec_has_magic(data@),
        r matches Some(img) ==> {
            &&& img.entry == spec_le64(data@, 24)
            &&& {
                let phoff = spec_le64(data@, 32) as int;
                let phentsize = spec_le16(data@, 54) as int;
                let phnum = spec_le16(data@, 56) as int;
                &&& phoff + phnum * phentsize <= data@.len()
                &&& phentsize >= 56
                &&& img.segments@ == spec_load_segments(data@, phoff, phentsize, phnum)
            }
        },
        !spec_has_magic(data@) ==> r is None,
        // a well-formed header owes a parse: the magic stands, the entries
        // are full-sized, and the table lies inside the image
        (spec_has_magic(data@) && spec_le16(data@, 54) >= 56 && spec_le64(data@, 32) + spec_le16(
            data@,
            56,
        ) * spec_le16(data@, 54) <= data@.len()) ==> r is Some,
{
    if data.len() < 64 {
        return None;
    }
    if !(data[0] == 0x7f && data[1] == 0x45 && data[2] == 0x4c && data[3] == 0x46) {
        return None;
    }
    let entry = read_le64(data, 24);
    let phoff = read_le64(data, 32);
    let phentsize = read_le16(data, 54);
    let phnum = read_le16(data, 56);
    if phentsize < 56 {
        return None;
    }
    if phoff > data.len() as u64 {
        return None;
    }
    // phnum and phentsize are 16-bit, so the product fits comfortably
    proof {
        assert(phnum * phentsize < 0x100000000) by (nonlinear_arith)
            requires
                0 <= phnum < 0x10000 && 0 <= phentsize < 0x10000,
        ;
    }
    let table: u64 = phnum * phentsize;
    if table > data.len() as u64 - phoff {
        return None;
    }
    let mut segments: Vec<ElfSegment> = Vec::new();
    let mut i: u64 = 0;
    while i < phnum
        invariant
            i <= phnum,
            phnum == spec_le16(data@, 56),
            phentsize == spec_le16(data@, 54),
            phoff == spec_le64(data@, 32),
            phnum < 0x10000 && phentsize < 0x10000,
            phentsize >= 56,
            phoff + phnum * phentsize <= data@.len(),
            data@.len() <= usize::MAX,
            segments@ == spec_load_segments(data@, phoff as int, phentsize as int, i as int),
        decreases phnum - i,
    {
        let ghost segs0 = segments@;
        let ghost i0 = i;
        proof {
            assert(i * phentsize + phentsize <= phnum * phentsize) by (nonlinear_arith)
                requires
                    i < phnum && phentsize >= 0,
            ;
        }
        proof {
            assert(0 <= i * phentsize) by (nonlinear_arith)
                requires
                    i >= 0 && phentsize >= 0,
            ;
        }
        let base64: u64 = phoff + i * phentsize;
        let base: usize = base64 as usize;
        let ptype = read_le32(data, base);
        if ptype == 1 {
            let seg = ElfSegment {
                vaddr: read_le64(data, base + 16),
                offset: read_le64(data, base + 8),
                filesz: read_le64(data, base + 32),
                memsz: read_le64(data, base + 40),
                flags: read_le32(data, base + 4) as u32,
            };
            segments.push(seg);
            proof {
                assert(spec_phdr_load(data@, phoff as int, phentsize as int, i as int));
                assert(segments@.last() == spec_phdr(
                    data@,
                    phoff as int,
                    phentsize as int,
                    i as int,
                ));
            }
        }
        i = i + 1;
        proof {
            assert(spec_load_segments(data@, phoff as int, phentsize as int, i as int)
                == if spec_phdr_load(data@, phoff as int, phentsize as int, i as int - 1) {
                    spec_load_segments(data@, phoff as int, phentsize as int, i as int - 1).push(
                        spec_phdr(data@, phoff as int, phentsize as int, i as int - 1),
                    )
                } else {
                    spec_load_segments(data@, phoff as int, phentsize as int, i as int - 1)
                });
            assert(segments@ == spec_load_segments(
                data@,
                phoff as int,
                phentsize as int,
                i as int,
            ));
        }
    }
    proof {
        assert(segments@ == spec_load_segments(
            data@,
            spec_le64(data@, 32),
            spec_le16(data@, 54),
            spec_le16(data@, 56),
        ));
    }
    Some(ElfImage { entry, segments })
}

} // verus!
