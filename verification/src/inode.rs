//! The kernel's view of files: open flags, open-file records with an offset
//! and permissions, the hard-link map that lets several paths share one
//! inode and one link count, and the open call that decides between
//! opening, creating and truncating.

use vstd::prelude::*;
use crate::bitmap::{spec_bit, BLOCK_BITS};
use crate::block_dev::BlockDevice;
use crate::efs::{write_disk_inode, read_disk_inode, EasyFileSystem, DISK_INODE_SIZE};
use crate::elf::spec_le32;
use crate::layout::{DiskInode, DiskInodeType};

verus! {

/// Open for reading only.
pub const RDONLY: u32 = 0;

/// Open for writing only.
pub const WRONLY: u32 = 1;

/// Open for reading and writing.
pub const RDWR: u32 = 2;

/// Create the file, or truncate it when it exists.
pub const CREATE: u32 = 0x200;

/// Truncate an existing file.
pub const TRUNC: u32 = 0x400;

/// The read and write permissions a flag word grants.
pub fn read_write(flags: u32) -> (r: (bool, bool))
    ensures
        flags == 0 ==> r == (true, false),
        flags != 0 && flags & WRONLY != 0 ==> r == (false, true),
        flags != 0 && flags & WRONLY == 0 ==> r == (true, true),
{
    if flags == 0 {
        (true, false)
    } else if flags & WRONLY != 0 {
        (false, true)
    } else {
        (true, true)
    }
}

/// An open file: its permissions, its read-write offset, the inode it
/// names, and the link group whose count it shares.
pub struct OSInode {
    /// Whether reads are allowed.
    pub readable: bool,
    /// Whether writes are allowed.
    pub writable: bool,
    /// The running read-write position.
    pub offset: usize,
    /// The inode the file stores into.
    pub inode_id: u32,
    /// The group of paths sharing the inode and its link count.
    pub group: usize,
}

/// Whether two byte strings are equal.
pub fn bytes_eq(a: &Vec<u8>, b: &Vec<u8>) -> (r: bool)
    ensures
        r == (a@ == b@),
{
    if a.len() != b.len() {
        assert(a@ != b@);
        return false;
    }
    let n = a.len();
    let mut i: usize = 0;
    while i < n
        invariant
            i <= n,
            n == a@.len(),
            n == b@.len(),
            forall|j: int| 0 <= j < i ==> a@[j] == b@[j],
        decreases n - i,
    {
        if a[i] != b[i] {
            assert(a@ != b@);
            return false;
        }
        i = i + 1;
    }
    proof {
        assert(a@ =~= b@);
    }
    true
}

/// The hard-link map: each known path names a link group; a group carries
/// the inode and how many paths point at it.
pub struct HardLinkMap {
    /// Path and the group it names.
    pub entries: Vec<(Vec<u8>, usize)>,
    /// Per group: the inode it stands for.
    pub group_inode: Vec<u32>,
    /// Per group: how many links point at it. The count includes the map's
    /// own hold, so a single path shows one.
    pub group_nlink: Vec<usize>,
}

impl HardLinkMap {
    /// Every entry names a real group, and the two group tables run
    /// together.
    pub open spec fn wf(&self) -> bool {
        &&& self.group_inode@.len() == self.group_nlink@.len()
        &&& forall|i: int|
            0 <= i < self.entries@.len() ==> (#[trigger] self.entries@[i]).1
                < self.group_inode@.len()
    }

    /// The group a path names, if the path is known.
    pub open spec fn spec_find(&self, path: Seq<u8>) -> Option<int> {
        if exists|i: int| 0 <= i < self.entries@.len() && (#[trigger] self.entries@[i]).0@ == path {
            Some(
                choose|i: int|
                    0 <= i < self.entries@.len() && (#[trigger] self.entries@[i]).0@ == path,
            )
        } else {
            None
        }
    }

    /// An empty map.
    pub fn new() -> (r: HardLinkMap)
        ensures
            r.wf(),
            r.entries@.len() == 0,
    {
        HardLinkMap { entries: Vec::new(), group_inode: Vec::new(), group_nlink: Vec::new() }
    }

    /// The index of an entry whose path matches, if any.
    fn find_entry(&self, path: &Vec<u8>) -> (r: Option<usize>)
        requires
            self.wf(),
        ensures
            match r {
                Some(i) => i < self.entries@.len() && self.entries@[i as int].0@ == path@
                    && forall|j: int| 0 <= j < i ==> (#[trigger] self.entries@[j]).0@ != path@,
                None => forall|i: int|
                    0 <= i < self.entries@.len() ==> (#[trigger] self.entries@[i]).0@ != path@,
            },
    {
        let n = self.entries.len();
        let mut i: usize = 0;
        while i < n
            invariant
                i <= n,
                self.wf(),
                n == self.entries@.len(),
                forall|j: int| 0 <= j < i ==> (#[trigger] self.entries@[j]).0@ != path@,
            decreases n - i,
        {
            if bytes_eq(&self.entries[i].0, path) {
                return Some(i);
            }
            i = i + 1;
        }
        None
    }

    /// Record a fresh file under a path: a new group with one link.
    pub fn insert_new(&mut self, path: &Vec<u8>, inode_id: u32) -> (group: usize)
        requires
            old(self).wf(),
        ensures
            final(self).wf(),
            group == old(self).group_inode@.len(),
            final(self).group_inode@ == old(self).group_inode@.push(inode_id),
            final(self).group_nlink@ == old(self).group_nlink@.push(1),
            final(self).entries@.len() == old(self).entries@.len() + 1,
            final(self).entries@.last().0@ == path@,
            final(self).entries@.last().1 == group,
    {
        let group = self.group_inode.len();
        self.group_inode.push(inode_id);
        self.group_nlink.push(1);
        let key = crate::memory_set::subvec(path, 0, path.len());
        self.entries.push((key, group));
        proof {
            assert(final(self).entries@.last().0@ =~= path@);
            assert forall|i: int| 0 <= i < self.entries@.len() implies (
            #[trigger] self.entries@[i]).1 < self.group_inode@.len() by {
                if i < old(self).entries@.len() {
                    assert(self.entries@[i] == old(self).entries@[i]);
                }
            }
        }
        group
    }

    /// The inode a known group stands for.
    pub fn inode_of(&self, group: usize) -> (r: u32)
        requires
            self.wf(),
            group < self.group_inode@.len(),
        ensures
            r == self.group_inode@[group as int],
    {
        self.group_inode[group]
    }

    /// How many links point at a known group.
    pub fn nlink_of(&self, group: usize) -> (r: usize)
        requires
            self.wf(),
            group < self.group_nlink@.len(),
        ensures
            r == self.group_nlink@[group as int],
    {
        self.group_nlink[group]
    }

    /// Open a known path: the group it names, so callers share the inode
    /// and the link count; none for an unknown path.
    pub fn open_group(&self, path: &Vec<u8>) -> (r: Option<usize>)
        requires
            self.wf(),
        ensures
            match r {
                Some(g) => g < self.group_inode@.len() && exists|i: int|
                    0 <= i < self.entries@.len() && (#[trigger] self.entries@[i]).0@ == path@ && self.entries@[i].1 == g,
                None => forall|i: int|
                    0 <= i < self.entries@.len() ==> (#[trigger] self.entries@[i]).0@ != path@,
            },
    {
        match self.find_entry(path) {
            Some(i) => Some(self.entries[i].1),
            None => None,
        }
    }

    /// Add a hard link: the new path joins the old path's group and the
    /// shared link count grows by one. Equal paths, or an unknown old path,
    /// give -1.
    pub fn link(&mut self, old_path: &Vec<u8>, new_path: &Vec<u8>) -> (r: isize)
        requires
            old(self).wf(),
            old(self).group_nlink@.len() < usize::MAX,
        ensures
            final(self).wf(),
            r == -1 || r == 0,
            // a link never moves a group's inode
            final(self).group_inode@ == old(self).group_inode@,
            old_path@ == new_path@ ==> r == -1,
            (old_path@ != new_path@ && (forall|i: int|
                0 <= i < old(self).entries@.len() ==> (#[trigger] old(self).entries@[i]).0@
                    != old_path@)) ==> r == -1,
            // distinct paths with the old one present owe a link, as long as
            // its count has room
            (old_path@ != new_path@ && (exists|i: int|
                0 <= i < old(self).entries@.len() && (#[trigger] old(self).entries@[i]).0@
                    == old_path@) && (forall|i: int|
                0 <= i < old(self).entries@.len() && (#[trigger] old(self).entries@[i]).0@
                    == old_path@ ==> old(self).group_nlink@[old(self).entries@[i].1 as int]
                    < usize::MAX)) ==> r == 0,
            r == -1 ==> final(self).entries@ == old(self).entries@ && final(self).group_nlink@
                == old(self).group_nlink@,
            // on success the new path joins the first-matching entry's group:
            // the prior entries and every other group's count survive
            // untouched, and the shared count rises by one
            r == 0 ==> exists|i: int|
                {
                    &&& 0 <= i < old(self).entries@.len()
                    &&& (#[trigger] old(self).entries@[i]).0@ == old_path@
                    &&& forall|j: int|
                        0 <= j < i ==> (#[trigger] old(self).entries@[j]).0@ != old_path@
                    &&& final(self).entries@.len() == old(self).entries@.len() + 1
                    &&& forall|t: int|
                        0 <= t < old(self).entries@.len() ==> #[trigger] final(self).entries@[t]
                            == old(self).entries@[t]
                    &&& final(self).entries@.last().0@ == new_path@
                    &&& final(self).entries@.last().1 == old(self).entries@[i].1
                    &&& final(self).group_nlink@ == old(self).group_nlink@.update(
                        old(self).entries@[i].1 as int,
                        (old(self).group_nlink@[old(self).entries@[i].1 as int] + 1) as usize,
                    )
                },
    {
        if bytes_eq(old_path, new_path) {
            return -1;
        }
        let found = self.find_entry(old_path);
        let i = match found {
            Some(i) => i,
            None => {
                return -1;
            },
        };
        let g = self.entries[i].1;
        let n = self.group_nlink[g];
        if n == usize::MAX {
            return -1;
        }
        self.group_nlink[g] = n + 1;
        let key = crate::memory_set::subvec(new_path, 0, new_path.len());
        self.entries.push((key, g));
        proof {
            assert(final(self).entries@.last().0@ =~= new_path@);
            assert forall|t: int| 0 <= t < self.entries@.len() implies (
            #[trigger] self.entries@[t]).1 < self.group_inode@.len() by {
                if t < old(self).entries@.len() {
                    assert(self.entries@[t] == old(self).entries@[t]);
                }
            }
            assert(old(self).entries@[i as int].0@ == old_path@);
            assert(final(self).entries@[final(self).entries@.len() - 1].0@ == new_path@);
            assert(self.group_nlink@ =~= old(self).group_nlink@.update(
                g as int,
                (old(self).group_nlink@[g as int] + 1) as usize,
            ));
        }
        0
    }

    /// Remove a link: the shared count drops by one, and when it reaches
    /// one again — the map's own hold — the path leaves the map. A path
    /// whose count is already down to the map's own hold, or an unknown
    /// path, gives -1: the last link stays.
    pub fn unlink(&mut self, path: &Vec<u8>) -> (r: isize)
        requires
            old(self).wf(),
        ensures
            final(self).wf(),
            r == -1 || r == 0,
            // unlinking never moves a group's inode
            final(self).group_inode@ == old(self).group_inode@,
            (forall|i: int|
                0 <= i < old(self).entries@.len() ==> (#[trigger] old(self).entries@[i]).0@
                    != path@) ==> r == -1,
            // a present path whose every entry has links to spare owes
            // success
            ((exists|i: int|
                0 <= i < old(self).entries@.len() && (#[trigger] old(self).entries@[i]).0@
                    == path@) && (forall|i: int|
                0 <= i < old(self).entries@.len() && (#[trigger] old(self).entries@[i]).0@ == path@
                    ==> old(self).group_nlink@[old(self).entries@[i].1 as int] > 1)) ==> r == 0,
            r == -1 ==> final(self).entries@ == old(self).entries@ && final(self).group_nlink@
                == old(self).group_nlink@,
            // on success the first-matching entry's group loses one link;
            // every other group's count stands, and the entry leaves the map
            // exactly when the count falls to the map's own hold — else every
            // entry stays
            r == 0 ==> exists|i: int|
                {
                    &&& 0 <= i < old(self).entries@.len()
                    &&& (#[trigger] old(self).entries@[i]).0@ == path@
                    &&& forall|j: int|
                        0 <= j < i ==> (#[trigger] old(self).entries@[j]).0@ != path@
                    &&& old(self).group_nlink@[old(self).entries@[i].1 as int] > 1
                    &&& final(self).group_nlink@ == old(self).group_nlink@.update(
                        old(self).entries@[i].1 as int,
                        (old(self).group_nlink@[old(self).entries@[i].1 as int] - 1) as usize,
                    )
                    &&& final(self).entries@ == if old(self).group_nlink@[old(self).entries@[i].1 as int]
                        == 2 {
                        old(self).entries@.remove(i)
                    } else {
                        old(self).entries@
                    }
                },
    {
        let found = self.find_entry(path);
        let i = match found {
            Some(i) => i,
            None => {
                return -1;
            },
        };
        let g = self.entries[i].1;
        let n = self.group_nlink[g];
        if n <= 1 {
            return -1;
        }
        self.group_nlink[g] = n - 1;
        let last_gone = n - 1 == 1;
        if last_gone {
            self.entries.remove(i);
        }
        proof {
            assert forall|t: int| 0 <= t < self.entries@.len() implies (
            #[trigger] self.entries@[t]).1 < self.group_inode@.len() by {
                if last_gone {
                    if t < i {
                        assert(self.entries@[t] == old(self).entries@[t]);
                    } else {
                        assert(self.entries@[t] == old(self).entries@[t + 1]);
                    }
                } else {
                    assert(self.entries@[t] == old(self).entries@[t]);
                }
            }
            assert(old(self).entries@[i as int].0@ == path@);
            assert(self.group_nlink@ =~= old(self).group_nlink@.update(
                g as int,
                (old(self).group_nlink@[g as int] - 1) as usize,
            ));
            if !last_gone {
                assert(self.entries@ =~= old(self).entries@);
            }
        }
        0
    }
}

/// A file's status record: the device, the inode, whether it is a
/// directory, and how many hard links point at it.
pub struct Stat {
    /// The device id; a single device here.
    pub dev: u64,
    /// The inode the file stores into.
    pub ino: u64,
    /// The mode word: directory or ordinary file.
    pub mode: u32,
    /// Hard links pointing at the inode.
    pub nlink: u32,
}

/// Mode word of a directory.
pub const STAT_MODE_DIR: u32 = 0o040000;

/// Mode word of an ordinary file.
pub const STAT_MODE_FILE: u32 = 0o100000;

/// The status of an open file: its inode, its link count from the shared
/// group, and a directory mode exactly when the on-disk inode is one.
pub fn fstat(
    file: &OSInode,
    map: &HardLinkMap,
    efs: &EasyFileSystem,
    block_device: &BlockDevice,
) -> (r: Stat)
    requires
        map.wf(),
        block_device.wf(),
        file.group < map.group_inode@.len(),
        map.group_nlink@[file.group as int] <= u32::MAX,
        efs.inode_area_start_block + file.inode_id as int / (crate::efs::INODES_PER_BLOCK as int)
            < block_device.blocks@.len(),
        efs.inode_area_start_block + file.inode_id as int / (crate::efs::INODES_PER_BLOCK as int)
            <= u32::MAX,
    ensures
        r.dev == 0,
        r.ino == file.inode_id,
        r.nlink == map.group_nlink@[file.group as int],
        r.mode == (if spec_le32(
            block_device.block(
                efs.inode_area_start_block + file.inode_id as int / (
                crate::efs::INODES_PER_BLOCK as int),
            ),
            (file.inode_id as int % (crate::efs::INODES_PER_BLOCK as int)) * DISK_INODE_SIZE + 124,
        ) == 1 {
            STAT_MODE_DIR
        } else {
            STAT_MODE_FILE
        }),
{
    let nlink = map.group_nlink[file.group];
    let (block, offset) = efs.get_disk_inode_pos(file.inode_id);
    let ino = read_disk_inode(block_device, block as usize, offset);
    let mode: u32 = if ino.is_dir() {
        STAT_MODE_DIR
    } else {
        STAT_MODE_FILE
    };
    let nlink32: u32 = nlink as u32;
    Stat { dev: 0, ino: file.inode_id as u64, mode, nlink: nlink32 }
}

/// Open a path against the link map and the file system. A plain open
/// needs the path known; `CREATE` makes a missing file, and `CREATE` or
/// `TRUNC` on a known path clears its inode to a zero-size file. The
/// record handed back carries the permissions the flag word grants and
/// starts at offset zero.
pub fn open_file(
    map: &mut HardLinkMap,
    efs: &EasyFileSystem,
    block_device: &mut BlockDevice,
    path: &Vec<u8>,
    flags: u32,
) -> (r: Option<OSInode>)
    requires
        old(map).wf(),
        efs.inode_bitmap.wf(*old(block_device)),
        efs.inode_bitmap.blocks * (BLOCK_BITS as int) <= u32::MAX,
        // every inode the map names, and every inode the bitmap can hand
        // out, has its slot on the device
        efs.inode_area_start_block + (efs.inode_bitmap.blocks * (BLOCK_BITS as int)) / (
        crate::efs::INODES_PER_BLOCK as int) < old(block_device).blocks@.len(),
        efs.inode_area_start_block + (efs.inode_bitmap.blocks * (BLOCK_BITS as int)) / (
        crate::efs::INODES_PER_BLOCK as int) <= u32::MAX,
        forall|g: int|
            0 <= g < old(map).group_inode@.len() ==> (#[trigger] old(map).group_inode@[g])
                < efs.inode_bitmap.blocks * (BLOCK_BITS as int),
    ensures
        final(map).wf(),
        final(block_device).wf(),
        final(block_device).blocks@.len() == old(block_device).blocks@.len(),
        // what comes back follows the flag word and starts at offset zero
        r matches Some(f) ==> ({
            &&& (flags == 0 ==> f.readable && !f.writable)
            &&& (flags != 0 && flags & WRONLY != 0 ==> !f.readable && f.writable)
            &&& (flags != 0 && flags & WRONLY == 0 ==> f.readable && f.writable)
            &&& f.offset == 0
            &&& f.group < final(map).group_inode@.len()
            &&& f.inode_id == final(map).group_inode@[f.group as int]
        }),
        // without CREATE an unknown path is refused and nothing moves
        (flags & CREATE == 0 && (forall|i: int|
            0 <= i < old(map).entries@.len() ==> (#[trigger] old(map).entries@[i]).0@ != path@))
            ==> (r is None && *final(block_device) == *old(block_device)),
        // a known path always opens, into the group it names, with the map
        // unchanged
        (exists|i: int|
            0 <= i < old(map).entries@.len() && (#[trigger] old(map).entries@[i]).0@ == path@)
            ==> (r is Some && final(map).entries@ == old(map).entries@ && final(map).group_inode@
            == old(map).group_inode@ && final(map).group_nlink@ == old(map).group_nlink@ && exists|
            i: int,
        |
            0 <= i < old(map).entries@.len() && (#[trigger] old(map).entries@[i]).0@ == path@
                && r->0.group == old(map).entries@[i].1),
        // a plain open leaves the device alone
        ((exists|i: int|
            0 <= i < old(map).entries@.len() && (#[trigger] old(map).entries@[i]).0@ == path@)
            && flags & (CREATE | TRUNC) == 0) ==> *final(block_device) == *old(block_device),
        // CREATE or TRUNC on a known path clears its inode on the device: a
        // zero-size ordinary file
        ((exists|i: int|
            0 <= i < old(map).entries@.len() && (#[trigger] old(map).entries@[i]).0@ == path@)
            && flags & (CREATE | TRUNC) != 0) ==> r is Some && spec_le32(
            final(block_device).block(
                efs.inode_area_start_block + r->0.inode_id as int / (
                crate::efs::INODES_PER_BLOCK as int),
            ),
            (r->0.inode_id as int % (crate::efs::INODES_PER_BLOCK as int)) * DISK_INODE_SIZE,
        ) == 0 && spec_le32(
            final(block_device).block(
                efs.inode_area_start_block + r->0.inode_id as int / (
                crate::efs::INODES_PER_BLOCK as int),
            ),
            (r->0.inode_id as int % (crate::efs::INODES_PER_BLOCK as int)) * DISK_INODE_SIZE + 124,
        ) == 0,
        // CREATE on an unknown path, with an inode to spare, makes the
        // file: a fresh group with one link under the path, its inode a
        // zero-size ordinary file on the device
        (flags & CREATE != 0 && (forall|i: int|
            0 <= i < old(map).entries@.len() ==> (#[trigger] old(map).entries@[i]).0@ != path@)
            && (exists|b: int|
            0 <= b < efs.inode_bitmap.blocks * (BLOCK_BITS as int) && !spec_bit(
                *old(block_device),
                efs.inode_bitmap.start_block_id as int,
                b,
            ))) ==> (r is Some && final(map).entries@.len() == old(map).entries@.len() + 1
            && final(map).entries@.last().0@ == path@ && final(map).group_inode@ == old(map).group_inode@.push(
            r->0.inode_id,
        ) && final(map).group_nlink@ == old(map).group_nlink@.push(1) && spec_le32(
            final(block_device).block(
                efs.inode_area_start_block + r->0.inode_id as int / (
                crate::efs::INODES_PER_BLOCK as int),
            ),
            (r->0.inode_id as int % (crate::efs::INODES_PER_BLOCK as int)) * DISK_INODE_SIZE + 124,
        ) == 0),
        // a refusal leaves the map as it was
        r is None ==> final(map).entries@ == old(map).entries@ && final(map).group_inode@ == old(
            map,
        ).group_inode@ && final(map).group_nlink@ == old(map).group_nlink@,
{
    let (readable, writable) = read_write(flags);
    let found = map.open_group(path);
    match found {
        Some(g) => {
            let inode_id = map.inode_of(g);
            proof {
                assert(efs.inode_area_start_block + inode_id as int / (
                crate::efs::INODES_PER_BLOCK as int) < block_device.blocks@.len()
                    && efs.inode_area_start_block + inode_id as int / (
                crate::efs::INODES_PER_BLOCK as int) <= u32::MAX) by (nonlinear_arith)
                    requires
                        inode_id < efs.inode_bitmap.blocks * (BLOCK_BITS as int),
                        efs.inode_area_start_block + (efs.inode_bitmap.blocks * (
                        BLOCK_BITS as int)) / (crate::efs::INODES_PER_BLOCK as int)
                            < block_device.blocks@.len(),
                        efs.inode_area_start_block + (efs.inode_bitmap.blocks * (
                        BLOCK_BITS as int)) / (crate::efs::INODES_PER_BLOCK as int) <= u32::MAX,
                        crate::efs::INODES_PER_BLOCK == 4,
                        BLOCK_BITS == 4096,
                ;
            }
            if flags & (CREATE | TRUNC) != 0 {
                let mut ino = DiskInode {
                    size: 0,
                    direct: Vec::new(),
                    indirect1: 0,
                    indirect2: 0,
                    type_: DiskInodeType::File,
                };
                ino.initialize(DiskInodeType::File);
                let (block, offset) = efs.get_disk_inode_pos(inode_id);
                write_disk_inode(block_device, block as usize, offset, &ino);
            }
            Some(OSInode { readable, writable, offset: 0, inode_id, group: g })
        },
        None => {
            if flags & CREATE == 0 {
                return None;
            }
            let bit = match efs.alloc_inode(block_device) {
                Some(b) => b,
                None => {
                    return None;
                },
            };
            proof {
                assert(efs.inode_area_start_block + bit as int / (
                crate::efs::INODES_PER_BLOCK as int) < block_device.blocks@.len()
                    && efs.inode_area_start_block + bit as int / (
                crate::efs::INODES_PER_BLOCK as int) <= u32::MAX) by (nonlinear_arith)
                    requires
                        bit < efs.inode_bitmap.blocks * (BLOCK_BITS as int),
                        efs.inode_area_start_block + (efs.inode_bitmap.blocks * (
                        BLOCK_BITS as int)) / (crate::efs::INODES_PER_BLOCK as int)
                            < block_device.blocks@.len(),
                        efs.inode_area_start_block + (efs.inode_bitmap.blocks * (
                        BLOCK_BITS as int)) / (crate::efs::INODES_PER_BLOCK as int) <= u32::MAX,
                        crate::efs::INODES_PER_BLOCK == 4,
                        BLOCK_BITS == 4096,
                ;
            }
            let mut ino = DiskInode {
                size: 0,
                direct: Vec::new(),
                indirect1: 0,
                indirect2: 0,
                type_: DiskInodeType::File,
            };
            ino.initialize(DiskInodeType::File);
            let (block, offset) = efs.get_disk_inode_pos(bit);
            write_disk_inode(block_device, block as usize, offset, &ino);
            let g = map.insert_new(path, bit);
            Some(OSInode { readable, writable, offset: 0, inode_id: bit, group: g })
        },
    }
}

} // verus!
