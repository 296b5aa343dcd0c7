//! Hard links: shared inodes, shared link counts, and the flag word.

use rcoreos::inode::{read_write, HardLinkMap, CREATE, RDWR, TRUNC, WRONLY};

#[test]
fn flags_grant_the_expected_permissions() {
    assert_eq!(read_write(0), (true, false));
    assert_eq!(read_write(WRONLY), (false, true));
    assert_eq!(read_write(RDWR), (true, true));
    assert_eq!(read_write(CREATE | WRONLY), (false, true));
    assert_eq!(read_write(CREATE), (true, true));
    assert_eq!(read_write(TRUNC), (true, true));
}

#[test]
fn linked_paths_share_the_inode_and_the_count() {
    let mut map = HardLinkMap::new();
    let ga = map.insert_new(&b"a".to_vec(), 5);
    assert_eq!(map.nlink_of(ga), 1);
    // link a to b: both name inode 5, the count is 2
    assert_eq!(map.link(&b"a".to_vec(), &b"b".to_vec()), 0);
    let gb = map.open_group(&b"b".to_vec()).unwrap();
    assert_eq!(gb, ga);
    assert_eq!(map.inode_of(gb), 5);
    assert_eq!(map.inode_of(ga), map.inode_of(gb));
    assert_eq!(map.nlink_of(ga), 2);
    // unlink a: b stays valid with one link left
    assert_eq!(map.unlink(&b"a".to_vec()), 0);
    assert_eq!(map.nlink_of(gb), 1);
    assert!(map.open_group(&b"a".to_vec()).is_none());
    assert!(map.open_group(&b"b".to_vec()).is_some());
    // the last link refuses to go
    assert_eq!(map.unlink(&b"b".to_vec()), -1);
}

#[test]
fn link_rejects_bad_arguments() {
    let mut map = HardLinkMap::new();
    map.insert_new(&b"a".to_vec(), 1);
    // a path cannot be linked to itself
    assert_eq!(map.link(&b"a".to_vec(), &b"a".to_vec()), -1);
    // the old path must exist
    assert_eq!(map.link(&b"missing".to_vec(), &b"c".to_vec()), -1);
    // unlinking an unknown path is refused
    assert_eq!(map.unlink(&b"missing".to_vec()), -1);
}

#[test]
fn hard_link_then_stat_counts() {
    // create a, link a to b: b's stat shows two links and a's inode;
    // removing a leaves b with one
    let mut map = HardLinkMap::new();
    let ga = map.insert_new(&b"a".to_vec(), 9);
    assert_eq!(map.link(&b"a".to_vec(), &b"b".to_vec()), 0);
    let gb = map.open_group(&b"b".to_vec()).unwrap();
    assert_eq!(map.nlink_of(gb), 2);
    assert_eq!(map.inode_of(gb), map.inode_of(ga));
    assert_eq!(map.unlink(&b"a".to_vec()), 0);
    assert_eq!(map.nlink_of(gb), 1);
}
