use filesystem::extent_tree::{Extent, ExtentTreeNode};
use filesystem::file_errors::FileError;
use filesystem::inode::Inode;

fn sample() -> Inode {
    Inode {
        i_mode: 0o100644,
        i_uid: 1000,
        i_size: 123456,
        i_atime: 1,
        i_ctime: 2,
        i_mtime: 3,
        i_dtime: 4,
        i_gid: 100,
        i_links_count: 1,
        i_blocks: 31,
        i_flags: 0xDEAD,
        i_extents: ExtentTreeNode {
            magic: 0xF30A,
            depth: 0,
            entry_count: 2,
            max_entries: 15,
            entries: vec![
                Extent { logical_start: 0, physical_start: 700, length: 20 }.to_bytes(),
                Extent { logical_start: 20, physical_start: 900, length: 11 }.to_bytes(),
            ],
        },
        i_generation: 77,
        i_reserved: [1, 2, 3, 4],
    }
}

#[test]
fn inode_is_256_bytes() {
    assert_eq!(sample().serialise().len(), 256);
}

#[test]
fn inode_round_trip() {
    let n = sample();
    let m = Inode::deserialise(&n.serialise()).ok().unwrap();
    assert_eq!(m.i_mode, n.i_mode);
    assert_eq!(m.i_uid, n.i_uid);
    assert_eq!(m.i_size, n.i_size);
    assert_eq!(m.i_atime, 1);
    assert_eq!(m.i_ctime, 2);
    assert_eq!(m.i_mtime, 3);
    assert_eq!(m.i_dtime, 4);
    assert_eq!(m.i_gid, 100);
    assert_eq!(m.i_links_count, 1);
    assert_eq!(m.i_blocks, 31);
    assert_eq!(m.i_flags, 0xDEAD);
    assert_eq!(m.i_generation, 77);
    assert_eq!(m.i_reserved, [1, 2, 3, 4]);
    assert_eq!(m.i_extents.entry_count, 2);
    assert_eq!(m.i_extents.entries, n.i_extents.entries);
}

#[test]
fn inode_unused_slots_are_zero() {
    let b = sample().serialise();
    assert!(b[68 + 24..248].iter().all(|&x| x == 0));
}

#[test]
fn inode_bad_magic_is_corrupted() {
    let mut b = sample().serialise();
    b[60] = 0;
    assert!(matches!(Inode::deserialise(&b), Err(FileError::CorruptedINode)));
}

#[test]
fn inode_too_many_entries_is_corrupted() {
    let mut b = sample().serialise();
    b[64] = 16;
    b[66] = 20;
    assert!(matches!(Inode::deserialise(&b), Err(FileError::CorruptedINode)));
    let mut c = sample().serialise();
    c[64] = 5;
    c[66] = 4;
    assert!(matches!(Inode::deserialise(&c), Err(FileError::CorruptedINode)));
}

#[test]
fn inode_ignores_unused_slots_and_stores_them_zeroed() {
    let clean = sample().serialise();
    let mut dirty = clean.clone();
    for k in 68 + 24..248 {
        dirty[k] = 0xAB;
    }
    dirty.extend_from_slice(&[9, 9, 9]);
    let a = Inode::deserialise(&clean).ok().unwrap();
    let b = Inode::deserialise(&dirty).ok().unwrap();
    assert_eq!(a.i_extents.entries, b.i_extents.entries);
    assert_eq!(b.i_size, a.i_size);
    assert_eq!(b.serialise(), clean);
}
