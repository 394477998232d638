use filesystem::block::{BlockHeader, Flag, SuperBlock};
use filesystem::filesystem::{
    block_bitmap_block, empty_extent_root, empty_inode, inode_bitmap_block, inode_location,
    inode_table_block, new_block, new_inode, new_superblock, release_inode, reserve_inode_number,
    root_inode,
};
use filesystem::extent_tree::Extent;
use filesystem::file_errors::FileError;
use filesystem::inode::Inode;

#[test]
fn new_block_is_zero() {
    let b = new_block(9);
    assert_eq!(b.id, 9);
    assert_eq!(b.header, BlockHeader { lsn: 0, checksum: 0, flag: Flag::Clean });
    assert_eq!(b.buf, vec![0u8; 4096]);
}

#[test]
fn empty_root_has_fifteen_zero_slots() {
    let r = empty_extent_root();
    assert_eq!((r.magic, r.depth, r.entry_count, r.max_entries), (0xF30A, 0, 0, 15));
    assert_eq!(r.entries, vec![[0u8; 12]; 15]);
}

#[test]
fn superblock_of_new_disk() {
    let sb = new_superblock();
    assert_eq!(sb.magic, 69420);
    assert_eq!(sb.free_blocks, 12800 - 670);
    assert_eq!(sb.free_inodes, 9999);
    assert_eq!(sb.data_start, 670);
    assert_eq!(sb.root_inode, 0);
    assert_eq!(SuperBlock::deserialise(&sb.serialise()), Ok(sb));
}

#[test]
fn bitmaps_of_new_disk() {
    let ib = inode_bitmap_block();
    assert_eq!(ib.id, 1);
    assert_eq!(ib.buf[14], 0b0000_0001);
    assert!(ib.buf[15..].iter().all(|&x| x == 0));
    let bb = block_bitmap_block();
    assert_eq!(bb.id, 2);
    assert!(bb.buf[14..14 + 83].iter().all(|&x| x == 0xFF));
    assert_eq!(bb.buf[14 + 83], 0b0011_1111);
    assert!(bb.buf[14 + 84..].iter().all(|&x| x == 0));
}

#[test]
fn inode_table_of_new_disk() {
    let first = inode_table_block(0);
    assert_eq!(first.id, 3);
    let root = Inode::deserialise(&first.buf[14..270]).ok().unwrap();
    assert_eq!(root.i_mode, 0o40755);
    assert_eq!(root.i_links_count, 2);
    let other = Inode::deserialise(&first.buf[270..526]).ok().unwrap();
    assert_eq!(other.i_mode, 0);
    assert_eq!(&first.buf[14..270], &root_inode().serialise()[..]);
    assert_eq!(&first.buf[270..526], &empty_inode().serialise()[..]);
    let last = inode_table_block(666);
    assert_eq!(last.id, 669);
    assert!(last.buf[14 + 10 * 256..].iter().all(|&x| x == 0));
    assert_eq!(&last.buf[14 + 9 * 256..14 + 10 * 256], &empty_inode().serialise()[..]);
}

#[test]
fn inode_locations() {
    assert_eq!(inode_location(0), (3, 14));
    assert_eq!(inode_location(16), (4, 14 + 256));
}

#[test]
fn reserving_inodes() {
    let mut bitmap = vec![0b0000_0001u8, 0];
    assert_eq!(reserve_inode_number(&mut bitmap), Ok(1));
    assert_eq!(bitmap[0], 0b0000_0011);
    let mut full = vec![0xFFu8; 1250];
    assert_eq!(reserve_inode_number(&mut full), Err(FileError::NoInodes));
}

#[test]
fn new_inode_fields() {
    let n = new_inode(0o100644, 5, 6, 99);
    assert_eq!((n.i_mode, n.i_uid, n.i_gid), (0o100644, 5, 6));
    assert_eq!((n.i_atime, n.i_ctime, n.i_mtime, n.i_dtime), (99, 99, 99, 0));
    assert_eq!(n.i_extents.entry_count, 0);
}

#[test]
fn release_inode_frees_and_counts_each_block_once() {
    let mut inode_bitmap = vec![0b0000_0111u8];
    let mut block_bitmap = vec![0xffu8, 0xff];
    let mut sb = new_superblock();
    sb.free_inodes = 10;
    sb.free_blocks = 20;
    let data = vec![Extent { logical_start: 0, physical_start: 2, length: 3 }];
    let tree_blocks = vec![9u32];
    release_inode(&mut inode_bitmap, &mut block_bitmap, &mut sb, 1, &data, &tree_blocks);
    assert_eq!(inode_bitmap, vec![0b0000_0101]);
    assert_eq!(block_bitmap, vec![0b1110_0011, 0b1111_1101]);
    assert_eq!(sb.free_inodes, 11);
    assert_eq!(sb.free_blocks, 24);
}
