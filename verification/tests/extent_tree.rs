use filesystem::bitmaps::find_free_inode;
use filesystem::block::{Block, BlockHeader, Flag};
use filesystem::extent_tree::{
    delete_extent_range, delete_leaf, find_child, insert_extent, insert_leaf,
    lookup_extent, min_entries, range_lookup, tree_is_ok, write_external_block, DeleteResult,
    Extent, ExtentTreeNode, IndexEntry, InsertResult, NodeStore,
};
use filesystem::file_errors::FileError;

fn ext(logical_start: u32, physical_start: u32, length: u32) -> Extent {
    Extent { logical_start, physical_start, length }
}

fn leaf(exts: &[Extent], max_entries: u16) -> ExtentTreeNode {
    ExtentTreeNode {
        magic: 0xF30A,
        depth: 0,
        entry_count: exts.len() as u16,
        max_entries,
        entries: exts.iter().map(|e| e.to_bytes()).collect(),
    }
}

fn internal(idx: &[(u32, u32)], depth: u16, max_entries: u16) -> ExtentTreeNode {
    ExtentTreeNode {
        magic: 0xF30A,
        depth,
        entry_count: idx.len() as u16,
        max_entries,
        entries: idx
            .iter()
            .map(|&(k, b)| IndexEntry { logical_start: k, child_block: b, _reserved: 0 }.to_bytes())
            .collect(),
    }
}

fn extents_of(node: &ExtentTreeNode) -> Vec<Extent> {
    (0..node.entries.len()).map(|i| node.get_extent(i)).collect()
}

#[test]
fn extent_bytes_round_trip() {
    let e = ext(0x01020304, 7, 0xFFFF_FFFF);
    let b = e.to_bytes();
    assert_eq!(&b[0..4], &[4, 3, 2, 1]);
    assert_eq!(Extent::from_bytes(&b), e);
}

#[test]
fn index_bytes_round_trip() {
    let e = IndexEntry { logical_start: 5, child_block: 900, _reserved: 3 };
    assert_eq!(IndexEntry::from_bytes(&e.to_bytes()), e);
}

#[test]
fn node_serialise_layout() {
    let n = leaf(&[ext(1, 2, 3)], 15);
    let b = n.serialise();
    assert_eq!(b.len(), 8 + 12);
    assert_eq!(&b[0..8], &[0x0A, 0xF3, 0, 0, 1, 0, 15, 0]);
    assert_eq!(&b[8..], &ext(1, 2, 3).to_bytes()[..]);
}

#[test]
fn node_read_back_from_block() {
    let n = leaf(&[ext(1, 2, 3), ext(10, 20, 5)], 339);
    let mut block = Block {
        id: 700,
        header: BlockHeader { lsn: 0, checksum: 0, flag: Flag::Clean },
        buf: vec![0u8; 4096],
    };
    write_external_block(&mut block, &n);
    let (b, m) = ExtentTreeNode::read_node_with_block(block).ok().unwrap();
    assert_eq!(b.id, 700);
    assert_eq!(m.entry_count, 2);
    assert_eq!(m.max_entries, 339);
    assert_eq!(extents_of(&m), vec![ext(1, 2, 3), ext(10, 20, 5)]);
}

#[test]
fn node_bad_magic_is_corrupted() {
    let block = Block {
        id: 700,
        header: BlockHeader { lsn: 0, checksum: 0, flag: Flag::Clean },
        buf: vec![0u8; 4096],
    };
    assert!(matches!(ExtentTreeNode::read_node(block), Err(FileError::CorruptedBlock)));
}

#[test]
fn node_too_many_entries_is_corrupted() {
    let mut n = leaf(&[], 400);
    n.entry_count = 0;
    let mut block = Block {
        id: 700,
        header: BlockHeader { lsn: 0, checksum: 0, flag: Flag::Clean },
        buf: vec![0u8; 4096],
    };
    write_external_block(&mut block, &n);
    assert!(matches!(ExtentTreeNode::read_node(block), Err(FileError::CorruptedBlock)));
}

#[test]
fn find_child_picks_last_key_not_above() {
    let n = internal(&[(0, 10), (100, 11), (200, 12)], 1, 15);
    assert_eq!(find_child(&n, 0), 0);
    assert_eq!(find_child(&n, 99), 0);
    assert_eq!(find_child(&n, 100), 1);
    assert_eq!(find_child(&n, 5000), 2);
    let m = internal(&[(50, 10), (100, 11)], 1, 15);
    assert_eq!(find_child(&m, 3), 0);
}

#[test]
fn min_entries_is_half() {
    assert_eq!(min_entries(339), 169);
    assert_eq!(min_entries(15), 7);
}

#[test]
fn delete_leaf_splits_an_extent() {
    let mut n = leaf(&[ext(0, 100, 10)], 15);
    let mut freed = Vec::new();
    let r = delete_leaf(&mut n, 3, 5, &mut freed);
    assert_eq!(extents_of(&n), vec![ext(0, 100, 3), ext(5, 105, 5)]);
    assert_eq!(n.entry_count, 2);
    assert_eq!(freed, vec![ext(3, 103, 2)]);
    assert_eq!(r, DeleteResult::Underflow);
}

#[test]
fn delete_leaf_trims_and_keeps() {
    let exts: Vec<Extent> = (0..10).map(|i| ext(i * 10, 1000 + i * 10, 10)).collect();
    let mut n = leaf(&exts, 15);
    let mut freed = Vec::new();
    let r = delete_leaf(&mut n, 15, 35, &mut freed);
    assert_eq!(freed, vec![ext(15, 1015, 5), ext(20, 1020, 10), ext(30, 1030, 5)]);
    let left = extents_of(&n);
    assert_eq!(left[1], ext(10, 1010, 5));
    assert_eq!(left[2], ext(35, 1035, 5));
    assert_eq!(left.len(), 9);
    assert_eq!(r, DeleteResult::Done);
}

#[test]
fn insert_leaf_merges_with_neighbours() {
    let mut store = NodeStore::new();
    let mut n = leaf(&[ext(0, 100, 5), ext(10, 110, 5)], 15);
    let mut bitmap = vec![0u8; 8];
    let mut freed = Vec::new();
    let r = insert_leaf(&mut store, &mut n, ext(5, 105, 5), 15, &mut bitmap, &mut freed);
    assert_eq!(r, Ok(InsertResult::Done { new_min: 0 }));
    assert_eq!(extents_of(&n), vec![ext(0, 100, 15)]);
    assert!(freed.is_empty());
}

#[test]
fn insert_leaf_does_not_merge_physically_apart() {
    let mut store = NodeStore::new();
    let mut n = leaf(&[ext(0, 100, 5)], 15);
    let mut bitmap = vec![0u8; 8];
    let mut freed = Vec::new();
    insert_leaf(&mut store, &mut n, ext(5, 300, 5), 15, &mut bitmap, &mut freed).unwrap();
    assert_eq!(extents_of(&n), vec![ext(0, 100, 5), ext(5, 300, 5)]);
}

#[test]
fn insert_leaf_overwrites_and_frees() {
    let mut store = NodeStore::new();
    let mut n = leaf(&[ext(0, 100, 10)], 15);
    let mut bitmap = vec![0u8; 8];
    let mut freed = Vec::new();
    insert_leaf(&mut store, &mut n, ext(2, 500, 3), 15, &mut bitmap, &mut freed).unwrap();
    assert_eq!(freed, vec![ext(2, 102, 3)]);
    assert_eq!(extents_of(&n), vec![ext(0, 100, 2), ext(2, 500, 3), ext(5, 105, 5)]);
}

#[test]
fn insert_leaf_splits_when_full() {
    let mut store = NodeStore::new();
    let exts: Vec<Extent> = (0..15).map(|i| ext(i * 10, 1000 + i * 10, 5)).collect();
    let mut n = leaf(&exts, 15);
    let mut bitmap = vec![0b0000_0111u8, 0];
    let mut freed = Vec::new();
    let r = insert_leaf(&mut store, &mut n, ext(155, 3000, 1), 15, &mut bitmap, &mut freed);
    assert_eq!(r, Ok(InsertResult::Split { key: 80, new_block: 3, new_min: 0 }));
    assert_eq!(extents_of(&n).len(), 8);
    let right = store.get(3).unwrap();
    assert_eq!(right.max_entries, 339);
    assert_eq!(right.entry_count, 8);
    assert_eq!(right.get_extent(7), ext(155, 3000, 1));
    assert_eq!(bitmap, vec![0b0000_1111, 0]);
}

#[test]
fn insert_leaf_split_without_free_block() {
    let mut store = NodeStore::new();
    let exts: Vec<Extent> = (0..15).map(|i| ext(i * 10, 1000 + i * 10, 5)).collect();
    let mut n = leaf(&exts, 15);
    let mut bitmap = vec![0xFFu8];
    let mut freed = Vec::new();
    let r = insert_leaf(&mut store, &mut n, ext(155, 3000, 1), 15, &mut bitmap, &mut freed);
    assert_eq!(r, Err(FileError::NoMoreBlocks));
}

fn two_level() -> (NodeStore, ExtentTreeNode) {
    let mut store = NodeStore::new();
    store.put(20, leaf(&[ext(0, 100, 4), ext(10, 200, 4)], 339));
    store.put(21, leaf(&[ext(50, 300, 4), ext(60, 400, 4)], 339));
    (store, internal(&[(0, 20), (50, 21)], 1, 15))
}

#[test]
fn lookup_descends_to_the_right_leaf() {
    let (store, root) = two_level();
    assert_eq!(lookup_extent(&store, &root, 12), Some(ext(10, 200, 4)));
    assert_eq!(lookup_extent(&store, &root, 61), Some(ext(60, 400, 4)));
    assert_eq!(lookup_extent(&store, &root, 30), None);
}

#[test]
fn range_lookup_collects_overlapping_extents() {
    let (store, root) = two_level();
    assert_eq!(range_lookup(&store, &root, 2, 52), vec![ext(0, 100, 4), ext(10, 200, 4), ext(50, 300, 4)]);
    assert_eq!(range_lookup(&store, &root, 0, u32::MAX).len(), 4);
    assert_eq!(range_lookup(&store, &root, 20, 40), vec![]);
}

#[test]
fn insert_extent_grows_the_root() {
    let mut store = NodeStore::new();
    let mut root = leaf(&[], 15);
    let mut bitmap = vec![0u8; 4];
    for i in 0..16u32 {
        let freed = insert_extent(&mut store, &mut root, ext(i * 10, 1000 + i * 10, 5), &mut bitmap).unwrap();
        assert!(freed.is_empty());
    }
    assert_eq!(root.depth, 1);
    assert_eq!(root.entry_count, 2);
    let all = range_lookup(&store, &root, 0, u32::MAX);
    assert_eq!(all.len(), 16);
    assert_eq!(all[15], ext(150, 1150, 5));
    assert_eq!(lookup_extent(&store, &root, 152), Some(ext(150, 1150, 5)));
    assert_eq!(find_free_inode(&bitmap), Some(2));
}

#[test]
fn root_split_needs_two_free_blocks() {
    let exts: Vec<Extent> = (0..15u32).map(|i| ext(i * 10, 1000 + i * 10, 5)).collect();
    let mut store = NodeStore::new();
    let mut root = leaf(&exts, 15);
    let mut bitmap = vec![0xffu8, 0xfe];
    let r = insert_extent(&mut store, &mut root, ext(150, 1150, 5), &mut bitmap);
    assert_eq!(r, Err(FileError::NoMoreBlocks));
    assert_eq!(find_free_inode(&bitmap), None);

    let mut store = NodeStore::new();
    let mut root = leaf(&exts, 15);
    let mut bitmap = vec![0xffu8, 0xfc];
    let r = insert_extent(&mut store, &mut root, ext(150, 1150, 5), &mut bitmap);
    assert_eq!(r, Ok(vec![]));
    assert_eq!(root.depth, 1);
    assert_eq!(find_free_inode(&bitmap), None);
}

#[test]
fn delete_extent_range_in_root_leaf() {
    let mut store = NodeStore::new();
    let mut root = leaf(&[ext(0, 100, 10), ext(10, 300, 10)], 15);
    let mut freed_blocks = Vec::new();
    let freed = delete_extent_range(&mut store, &mut root, 5, 15, &mut freed_blocks).unwrap();
    assert_eq!(freed, vec![ext(5, 105, 5), ext(10, 300, 5)]);
    assert_eq!(extents_of(&root), vec![ext(0, 100, 5), ext(15, 305, 5)]);
    assert!(freed_blocks.is_empty());
}

#[test]
fn delete_merges_and_collapses_root() {
    let (mut store, mut root) = two_level();
    let mut freed_blocks = Vec::new();
    let freed = delete_extent_range(&mut store, &mut root, 0, 20, &mut freed_blocks).unwrap();
    assert_eq!(freed, vec![ext(0, 100, 4), ext(10, 200, 4)]);
    assert_eq!(root.depth, 0);
    assert_eq!(extents_of(&root), vec![ext(50, 300, 4), ext(60, 400, 4)]);
    assert_eq!(freed_blocks, vec![21, 20]);
}

#[test]
fn insert_into_two_levels_overwrites_one_leaf() {
    let (mut store, mut root) = two_level();
    // Blocks 0..24 are in use, 20 and 21 among them.
    let mut bitmap = vec![0xFFu8, 0xFF, 0xFF, 0, 0, 0];
    let freed = insert_extent(&mut store, &mut root, ext(11, 900, 2), &mut bitmap).unwrap();
    assert_eq!(freed, vec![ext(11, 201, 2)]);
    assert_eq!(lookup_extent(&store, &root, 11), Some(ext(11, 900, 2)));
    assert_eq!(lookup_extent(&store, &root, 12), Some(ext(11, 900, 2)));
    assert_eq!(lookup_extent(&store, &root, 10), Some(ext(10, 200, 1)));
    assert_eq!(lookup_extent(&store, &root, 13), Some(ext(13, 203, 1)));
    assert_eq!(lookup_extent(&store, &root, 61), Some(ext(60, 400, 4)));
    assert_eq!(lookup_extent(&store, &root, 30), None);
    assert_eq!(bitmap, vec![0xFFu8, 0xFF, 0xFF, 0, 0, 0]);
}

#[test]
fn insert_grows_a_third_level_and_keeps_every_mapping() {
    let mut store = NodeStore::new();
    let mut root = leaf(&[], 15);
    let mut bitmap = vec![0u8; 64];
    let n: u32 = 3000;
    for i in 0..n {
        let freed = insert_extent(&mut store, &mut root, ext(i * 3, 100_000 + i * 7, 2), &mut bitmap).unwrap();
        assert!(freed.is_empty());
    }
    assert_eq!(root.depth, 2);
    for i in 0..n {
        assert_eq!(lookup_extent(&store, &root, i * 3 + 1), Some(ext(i * 3, 100_000 + i * 7, 2)));
        assert_eq!(lookup_extent(&store, &root, i * 3 + 2), None);
    }
    let all = range_lookup(&store, &root, 0, u32::MAX);
    assert_eq!(all.len(), n as usize);
    assert_eq!(all[0], ext(0, 100_000, 2));
    assert_eq!(all[(n - 1) as usize], ext((n - 1) * 3, 100_000 + (n - 1) * 7, 2));
}

#[test]
fn insert_over_a_range_then_lookups_see_the_new_blocks() {
    let mut store = NodeStore::new();
    let mut root = leaf(&[], 15);
    let mut bitmap = vec![0u8; 16];
    for i in 0..40u32 {
        insert_extent(&mut store, &mut root, ext(i * 10, 5000 + i * 10, 10), &mut bitmap).unwrap();
    }
    // The whole file was one run; rewrite blocks 95..105 elsewhere.
    let freed = insert_extent(&mut store, &mut root, ext(95, 9000, 10), &mut bitmap).unwrap();
    let total: u32 = freed.iter().map(|e| e.length).sum();
    assert_eq!(total, 10);
    for l in 95..105u32 {
        let e = lookup_extent(&store, &root, l).unwrap();
        assert_eq!(e.physical_start + (l - e.logical_start), 9000 + (l - 95));
    }
    for l in [0u32, 50, 94, 105, 399] {
        let e = lookup_extent(&store, &root, l).unwrap();
        assert_eq!(e.physical_start + (l - e.logical_start), 5000 + l);
    }
}

#[test]
fn delete_rebalances_and_keeps_other_mappings() {
    let mut store = NodeStore::new();
    let mut root = leaf(&[], 15);
    let mut bitmap = vec![0u8; 64];
    let n: u32 = 2000;
    for i in 0..n {
        insert_extent(&mut store, &mut root, ext(i * 3, 100_000 + i * 7, 2), &mut bitmap).unwrap();
    }
    assert_eq!(root.depth, 1);
    let mut freed_blocks = Vec::new();
    for i in 1000..1400u32 {
        let freed = delete_extent_range(&mut store, &mut root, i * 3, i * 3 + 2, &mut freed_blocks).unwrap();
        assert_eq!(freed, vec![ext(i * 3, 100_000 + i * 7, 2)]);
    }
    assert!(!freed_blocks.is_empty());
    assert!(tree_is_ok(&store, &root));
    for i in 0..n {
        let found = lookup_extent(&store, &root, i * 3);
        if (1000..1400).contains(&i) {
            assert_eq!(found, None);
        } else {
            assert_eq!(found, Some(ext(i * 3, 100_000 + i * 7, 2)));
        }
    }
    assert_eq!(range_lookup(&store, &root, 0, u32::MAX).len(), (n - 400) as usize);
}

#[test]
fn delete_part_of_an_extent_keeps_both_ends() {
    let mut store = NodeStore::new();
    let mut root = leaf(&[], 15);
    let mut bitmap = vec![0u8; 16];
    for i in 0..40u32 {
        insert_extent(&mut store, &mut root, ext(i * 10, 7000 + i * 20, 10), &mut bitmap).unwrap();
    }
    let mut freed_blocks = Vec::new();
    let freed = delete_extent_range(&mut store, &mut root, 123, 127, &mut freed_blocks).unwrap();
    assert_eq!(freed, vec![ext(123, 7243, 4)]);
    assert_eq!(lookup_extent(&store, &root, 122), Some(ext(120, 7240, 3)));
    assert_eq!(lookup_extent(&store, &root, 125), None);
    assert_eq!(lookup_extent(&store, &root, 127), Some(ext(127, 7247, 3)));
    assert_eq!(lookup_extent(&store, &root, 300), Some(ext(300, 7600, 10)));
}

#[test]
fn delete_under_a_root_with_one_child_collapses_it() {
    let mut store = NodeStore::new();
    store.put(5, leaf(&[ext(0, 100, 4), ext(10, 200, 4)], 339));
    let mut root = internal(&[(0, 5)], 1, 15);
    let mut freed_blocks = Vec::new();
    let freed = delete_extent_range(&mut store, &mut root, 0, 4, &mut freed_blocks).unwrap();
    assert_eq!(freed, vec![ext(0, 100, 4)]);
    assert_eq!(freed_blocks, vec![5]);
    assert_eq!(root.depth, 0);
    assert_eq!(root.max_entries, 15);
    assert_eq!(extents_of(&root), vec![ext(10, 200, 4)]);
}

#[test]
fn delete_underflow_borrows_from_the_right_sibling() {
    let left: Vec<Extent> = (0..169u32).map(|i| ext(i * 2, 1000 + i, 1)).collect();
    let right: Vec<Extent> = (0..200u32).map(|i| ext(400 + i * 2, 5000 + i, 1)).collect();
    let mut store = NodeStore::new();
    store.put(5, leaf(&left, 339));
    store.put(6, leaf(&right, 339));
    let mut root = internal(&[(0, 5), (400, 6)], 1, 15);
    let mut freed_blocks = Vec::new();
    let freed = delete_extent_range(&mut store, &mut root, 0, 1, &mut freed_blocks).unwrap();
    assert_eq!(freed, vec![ext(0, 1000, 1)]);
    assert!(freed_blocks.is_empty());
    let l = extents_of(&store.get(5).unwrap());
    let r = extents_of(&store.get(6).unwrap());
    assert_eq!(l.len(), 169);
    assert_eq!(l[168], ext(400, 5000, 1));
    assert_eq!(r.len(), 199);
    assert_eq!(root.get_index(1), IndexEntry { logical_start: 402, child_block: 6, _reserved: 0 });
}

#[test]
fn delete_underflow_merges_when_no_sibling_can_lend() {
    let left: Vec<Extent> = (0..169u32).map(|i| ext(i * 2, 1000 + i, 1)).collect();
    let right: Vec<Extent> = (0..169u32).map(|i| ext(400 + i * 2, 5000 + i, 1)).collect();
    let mut store = NodeStore::new();
    store.put(5, leaf(&left, 339));
    store.put(6, leaf(&right, 339));
    store.put(7, leaf(&[ext(1000, 9000, 1)], 339));
    let mut root = internal(&[(0, 5), (400, 6), (1000, 7)], 1, 15);
    let mut freed_blocks = Vec::new();
    delete_extent_range(&mut store, &mut root, 400, 401, &mut freed_blocks).unwrap();
    assert_eq!(freed_blocks, vec![6]);
    assert_eq!(root.entry_count, 2);
    assert_eq!(root.get_index(1), IndexEntry { logical_start: 1000, child_block: 7, _reserved: 0 });
    assert_eq!(extents_of(&store.get(5).unwrap()).len(), 169 + 168);
}

#[test]
fn insert_across_two_leaves_reports_what_it_overwrites() {
    let mut store = NodeStore::new();
    store.put(10, leaf(&[ext(0, 100, 1)], 339));
    store.put(11, leaf(&[ext(5, 200, 1)], 339));
    let mut root = internal(&[(0, 10), (5, 11)], 1, 15);
    let mut bitmap = vec![0xffu8, 0x0f];
    let freed = insert_extent(&mut store, &mut root, ext(3, 300, 4), &mut bitmap).unwrap();
    assert_eq!(freed, vec![ext(5, 200, 1)]);
    assert_eq!(lookup_extent(&store, &root, 0), Some(ext(0, 100, 1)));
    for l in 3..7u32 {
        let e = lookup_extent(&store, &root, l).unwrap();
        assert_eq!(e.physical_start + (l - e.logical_start), 300 + (l - 3));
    }
    assert_eq!(lookup_extent(&store, &root, 7), None);
    assert!(tree_is_ok(&store, &root));
}

#[test]
fn delete_across_leaves_removes_every_mapping_in_the_range() {
    let mut store = NodeStore::new();
    let mut root = leaf(&[], 15);
    let mut bitmap = vec![0u8; 64];
    for i in 0..2000u32 {
        insert_extent(&mut store, &mut root, ext(i * 3, 100_000 + i * 7, 2), &mut bitmap).unwrap();
    }
    let mut freed_blocks = Vec::new();
    let freed = delete_extent_range(&mut store, &mut root, 1000, 5000, &mut freed_blocks).unwrap();
    let expected: usize = (0..2000u32).filter(|i| i * 3 + 2 > 1000 && i * 3 < 5000).count();
    assert_eq!(freed.len(), expected);
    for l in 0..6000u32 {
        let mapped = lookup_extent(&store, &root, l).is_some();
        let was = l % 3 != 2;
        assert_eq!(mapped, was && !(1000..5000).contains(&l), "block {}", l);
    }
}
