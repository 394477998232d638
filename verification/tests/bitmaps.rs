use filesystem::bitmaps::{
    find_blocks, find_free_inode, mark_block_free, mark_blocks_free, mark_blocks_used,
    mark_inode_free, mark_inode_used,
};
use filesystem::extent_tree::Extent;

fn ext(logical_start: u32, physical_start: u32, length: u32) -> Extent {
    Extent { logical_start, physical_start, length }
}

#[test]
fn free_inode_in_empty_bitmap_is_zero() {
    assert_eq!(find_free_inode(&[0u8, 0u8]), Some(0));
}

#[test]
fn free_inode_skips_used_entries() {
    let mut bitmap = vec![0u8; 2];
    mark_inode_used(&mut bitmap, 0);
    assert_eq!(find_free_inode(&bitmap), Some(1));
}

#[test]
fn free_inode_skips_full_bytes() {
    assert_eq!(find_free_inode(&[0xFF, 0b0000_0111]), Some(11));
}

#[test]
fn free_inode_none_when_full() {
    assert_eq!(find_free_inode(&[0xFF, 0xFF]), None);
    assert_eq!(find_free_inode(&[]), None);
}

#[test]
fn find_blocks_zero_count_is_empty() {
    assert!(find_blocks(&[0u8; 4], 0).is_empty());
}

#[test]
fn find_blocks_single_run() {
    let r = find_blocks(&[0b0000_0011, 0], 3);
    assert_eq!(r, vec![ext(0, 2, 3)]);
}

#[test]
fn find_blocks_splits_around_used_blocks() {
    // Free: 0, 1, then 3, 4, 5 ...
    let r = find_blocks(&[0b0000_0100, 0], 4);
    assert_eq!(r, vec![ext(0, 0, 2), ext(2, 3, 2)]);
}

#[test]
fn find_blocks_run_across_byte_boundary() {
    let r = find_blocks(&[0b0011_1111, 0b1111_1100], 4);
    assert_eq!(r, vec![ext(0, 6, 4)]);
}

#[test]
fn find_blocks_not_enough_free_is_empty() {
    assert!(find_blocks(&[0b1111_1110, 0b0111_1111], 3).is_empty());
    assert!(find_blocks(&[0b1111_1110, 0b0111_1111], 2) == vec![ext(0, 0, 1), ext(1, 15, 1)]);
}

#[test]
fn mark_blocks_used_sets_bits() {
    let mut bitmap = vec![0u8; 3];
    mark_blocks_used(&mut bitmap, &[ext(0, 2, 3), ext(3, 9, 8)]);
    assert_eq!(bitmap, vec![0b0001_1100, 0b1111_1110, 0b0000_0001]);
}

#[test]
fn mark_blocks_free_clears_bits() {
    let mut bitmap = vec![0xFF, 0xFF];
    mark_blocks_free(&mut bitmap, &[ext(0, 4, 6)]);
    assert_eq!(bitmap, vec![0b0000_1111, 0b1111_1100]);
}

#[test]
fn mark_block_free_clears_one_bit() {
    let mut bitmap = vec![0xFF, 0xFF];
    mark_block_free(&mut bitmap, 9);
    assert_eq!(bitmap, vec![0xFF, 0b1111_1101]);
}

#[test]
fn mark_inode_free_clears_one_bit() {
    let mut bitmap = vec![0b0000_1000];
    mark_inode_free(&mut bitmap, 3);
    assert_eq!(bitmap, vec![0]);
}

#[test]
fn allocating_then_freeing_restores_the_bitmap() {
    let before = vec![0b1010_0101, 0b0000_1111, 0b1000_0000];
    let mut bitmap = before.clone();
    let found = find_blocks(&bitmap, 5);
    assert_eq!(found.iter().map(|e| e.length).sum::<u32>(), 5);
    mark_blocks_used(&mut bitmap, &found);
    assert_ne!(bitmap, before);
    mark_blocks_free(&mut bitmap, &found);
    assert_eq!(bitmap, before);
}

#[test]
fn found_blocks_are_free() {
    let bitmap = vec![0b1010_0101, 0b0000_1111];
    for e in find_blocks(&bitmap, 6) {
        for b in e.physical_start..e.physical_start + e.length {
            assert_eq!(bitmap[(b / 8) as usize] & (1 << (b % 8)), 0);
        }
    }
}

#[test]
fn inode_use_then_free_restores() {
    let mut bitmap = vec![0b0101_0000];
    mark_inode_used(&mut bitmap, 2);
    mark_inode_free(&mut bitmap, 2);
    assert_eq!(bitmap, vec![0b0101_0000]);
}

#[test]
fn found_inode_marked_used_moves_search_on() {
    let mut bitmap = vec![0b0000_0011, 0];
    let i = find_free_inode(&bitmap).unwrap();
    assert_eq!(i, 2);
    mark_inode_used(&mut bitmap, i);
    assert_eq!(find_free_inode(&bitmap), Some(3));
}

#[test]
fn empty_extents_past_the_bitmap_are_ignored() {
    let mut bitmap = vec![0u8; 2];
    let exts = vec![
        Extent { logical_start: 0, physical_start: 3, length: 2 },
        Extent { logical_start: 9, physical_start: 1000, length: 0 },
    ];
    mark_blocks_used(&mut bitmap, &exts);
    assert_eq!(bitmap, vec![0b0001_1000, 0]);
    mark_blocks_free(&mut bitmap, &exts);
    assert_eq!(bitmap, vec![0, 0]);
}
