use vstd::prelude::*;
use crate::bitmaps::{
    bit_count, bits, covered, extent_blocks, extents_within, find_free_inode, is_used, mark_block_free,
    mark_blocks_free, mark_blocks_used, mark_inode_free, mark_inode_used,
};
use crate::file_errors::FileError;
use crate::block::{header_bytes, zeros, write_bytes, Block, BlockHeader, Flag, SuperBlock};
use crate::constants::{
    BLOCK_BITMAP_START, BLOCK_HEADER_SIZE, BLOCK_SIZE, DATA_START, ENTRY_SIZE, INODE_BITMAP_START,
    INODE_MAP_START, INODE_SIZE, INODE_TABLE_BLOCKS, INODES_PER_BLOCK, MAGIC, NUM_BLOCKS,
    ROOT_INODE_NUM, ROOT_MAX_ENTRIES, TOTAL_INODES, TOTAL_SIZE, TREE_MAGIC,
};
use crate::extent_tree::{Extent, ExtentTreeNode};
use crate::inode::{inode_bytes, root_slots, root_slot_bytes, Inode};
use vstd::bytes::*;

verus! {

/// The header of a block that was never written.
pub open spec fn clean_header() -> BlockHeader {
    BlockHeader { lsn: 0, checksum: 0, flag: Flag::Clean }
}

/// A fresh block `id`: clean header, all bytes zero.
pub fn new_block(id: usize) -> (r: Block)
    ensures
        r.id == id,
        r.header == clean_header(),
        r.buf@ == zeros(BLOCK_SIZE as int),
{
    let header = BlockHeader { lsn: 0, checksum: 0, flag: Flag::Clean };
    let mut buf: Vec<u8> = Vec::new();
    crate::block::push_zeros(&mut buf, BLOCK_SIZE);
    assert(buf@ =~= zeros(BLOCK_SIZE as int));
    Block { header, id, buf }
}

/// The extent tree root of a new inode: an empty leaf whose 15 slots are zero.
pub fn empty_extent_root() -> (r: ExtentTreeNode)
    ensures
        r.magic == TREE_MAGIC,
        r.depth == 0,
        r.entry_count == 0,
        r.max_entries == ROOT_MAX_ENTRIES,
        r.entries@.len() == ROOT_MAX_ENTRIES,
        forall|k: int| 0 <= k < ROOT_MAX_ENTRIES ==> (#[trigger] r.entries@[k])@ == zeros(12),
{
    let mut entries: Vec<[u8; ENTRY_SIZE]> = Vec::new();
    let mut k: usize = 0;
    while k < ROOT_MAX_ENTRIES
        invariant
            k <= ROOT_MAX_ENTRIES,
            entries@.len() == k,
            forall|j: int| 0 <= j < k ==> (#[trigger] entries@[j])@ == zeros(12),
        decreases ROOT_MAX_ENTRIES - k,
    {
        let e: [u8; ENTRY_SIZE] = [0u8, 0u8, 0u8, 0u8, 0u8, 0u8, 0u8, 0u8, 0u8, 0u8, 0u8, 0u8];
        assert(e@ =~= zeros(12));
        entries.push(e);
        k = k + 1;
    }
    ExtentTreeNode {
        magic: TREE_MAGIC,
        depth: 0,
        entry_count: 0,
        max_entries: ROOT_MAX_ENTRIES as u16,
        entries,
    }
}

/// The superblock of a freshly made file system.
pub open spec fn initial_superblock() -> SuperBlock {
    SuperBlock {
        header: clean_header(),
        magic: MAGIC,
        version: 1,
        total_size: TOTAL_SIZE as u32,
        block_size: BLOCK_SIZE as u16,
        inode_size: INODE_SIZE as u16,
        block_count: NUM_BLOCKS as u32,
        inode_count: TOTAL_INODES as u32,
        free_blocks: (NUM_BLOCKS - DATA_START) as u32,
        free_inodes: (TOTAL_INODES - 1) as u32,
        inode_bitmap_start: INODE_BITMAP_START as u16,
        block_bitmap_start: BLOCK_BITMAP_START as u16,
        inode_map_start: INODE_MAP_START as u16,
        data_start: DATA_START as u16,
        state: 0,
        root_inode: ROOT_INODE_NUM as u32,
    }
}

/// The superblock of a freshly made file system: every block past the
/// metadata and every inode but the root's is free.
pub fn new_superblock() -> (r: SuperBlock)
    ensures
        r == initial_superblock(),
{
    SuperBlock {
        header: BlockHeader { lsn: 0, checksum: 0, flag: Flag::Clean },
        magic: MAGIC,
        version: 1,
        total_size: TOTAL_SIZE as u32,
        block_size: BLOCK_SIZE as u16,
        inode_size: INODE_SIZE as u16,
        block_count: NUM_BLOCKS as u32,
        inode_count: TOTAL_INODES as u32,
        free_blocks: (NUM_BLOCKS - DATA_START) as u32,
        free_inodes: (TOTAL_INODES - 1) as u32,
        inode_bitmap_start: INODE_BITMAP_START as u16,
        block_bitmap_start: BLOCK_BITMAP_START as u16,
        inode_map_start: INODE_MAP_START as u16,
        data_start: DATA_START as u16,
        state: 0,
        root_inode: ROOT_INODE_NUM as u32,
    }
}

/// The bytes of a new inode with the given mode and link count: every
/// other field is zero and its extent tree root is an empty leaf.
pub open spec fn fresh_inode_bytes(mode: u16, links: u16) -> Seq<u8> {
    spec_u16_to_le_bytes(mode) + spec_u16_to_le_bytes(0) + spec_u64_to_le_bytes(0)
        + spec_u64_to_le_bytes(0) + spec_u64_to_le_bytes(0) + spec_u64_to_le_bytes(0)
        + spec_u64_to_le_bytes(0) + spec_u16_to_le_bytes(0) + spec_u16_to_le_bytes(links)
        + spec_u64_to_le_bytes(0) + spec_u32_to_le_bytes(0) + spec_u16_to_le_bytes(TREE_MAGIC)
        + spec_u16_to_le_bytes(0) + spec_u16_to_le_bytes(0) + spec_u16_to_le_bytes(
        ROOT_MAX_ENTRIES as u16,
    ) + zeros(12 * ROOT_MAX_ENTRIES) + spec_u32_to_le_bytes(0) + zeros(4)
}

proof fn lemma_zero_slots(es: Seq<[u8; ENTRY_SIZE]>, n: int)
    requires
        0 <= n <= es.len(),
        forall|k: int| 0 <= k < es.len() ==> (#[trigger] es[k])@ == zeros(12),
    ensures
        root_slots(es, n) == zeros(12 * n),
    decreases n,
{
    if n > 0 {
        lemma_zero_slots(es, n - 1);
        assert(root_slot_bytes(es, n - 1) == zeros(12));
        assert(zeros(12 * (n - 1)) + zeros(12) =~= zeros(12 * n));
    }
}

fn fresh_inode(mode: u16, links: u16) -> (r: Inode)
    ensures
        inode_bytes(&r) == fresh_inode_bytes(mode, links),
{
    let r = Inode {
        i_mode: mode,
        i_uid: 0,
        i_size: 0,
        i_atime: 0,
        i_ctime: 0,
        i_mtime: 0,
        i_dtime: 0,
        i_gid: 0,
        i_links_count: links,
        i_blocks: 0,
        i_flags: 0,
        i_extents: empty_extent_root(),
        i_generation: 0,
        i_reserved: [0u8, 0u8, 0u8, 0u8],
    };
    proof {
        lemma_zero_slots(r.i_extents.entries@, ROOT_MAX_ENTRIES as int);
        assert(r.i_reserved@ =~= zeros(4));
    }
    r
}

/// An unused inode: every field zero and an empty extent tree root.
pub fn empty_inode() -> (r: Inode)
    ensures
        inode_bytes(&r) == fresh_inode_bytes(0, 0),
{
    fresh_inode(0, 0)
}

/// The root directory's inode: a directory (mode `0o40755`) with two links.
pub fn root_inode() -> (r: Inode)
    ensures
        inode_bytes(&r) == fresh_inode_bytes(0o40755, 2),
{
    fresh_inode(0o40755, 2)
}

/// The first `n` bytes of a bitmap whose first `used` entries are marked.
pub open spec fn prefix_bitmap_bits(n: int, used: int) -> Seq<bool> {
    Seq::new((n * 8) as nat, |i: int| i < used)
}

/// The inode bitmap block of a new file system: only the root inode is used.
pub fn inode_bitmap_block() -> (r: Block)
    ensures
        r.id == INODE_BITMAP_START,
        r.header == clean_header(),
        r.buf@.len() == BLOCK_SIZE,
        r.buf@.subrange(0, BLOCK_HEADER_SIZE as int) == header_bytes(clean_header()),
        bits(r.buf@.subrange(BLOCK_HEADER_SIZE as int, BLOCK_HEADER_SIZE + 1250)) == Seq::new(
            10000,
            |i: int| i == ROOT_INODE_NUM,
        ),
        forall|i: int| BLOCK_HEADER_SIZE + 1250 <= i < BLOCK_SIZE ==> #[trigger] r.buf@[i] == 0,
{
    let mut block = new_block(INODE_BITMAP_START);
    let mut bitmap_buf: Vec<u8> = Vec::new();
    crate::block::push_zeros(&mut bitmap_buf, (TOTAL_INODES + 7) / 8);
    proof {
        assert forall|i: int| 0 <= i < 10000 implies !#[trigger] bits(bitmap_buf@)[i] by {
            let b = bitmap_buf@[i / 8];
            assert(b == 0);
            let k = (i % 8) as u8;
            assert(0u8 & (1u8 << k) == 0u8) by (bit_vector);
        }
    }
    mark_inode_used(bitmap_buf.as_mut_slice(), ROOT_INODE_NUM);
    let ghost payload = bitmap_buf@;
    write_bytes(&mut block.buf, BLOCK_HEADER_SIZE, bitmap_buf.as_slice());
    block.serialise();
    proof {
        crate::block::law_header_round_trip(clean_header(), Seq::empty());
        assert(block.buf@.subrange(BLOCK_HEADER_SIZE as int, BLOCK_HEADER_SIZE + 1250) =~= payload);
        assert(bits(payload) =~= Seq::new(10000, |i: int| i == ROOT_INODE_NUM));
        assert(block.buf@.subrange(0, BLOCK_HEADER_SIZE as int) =~= header_bytes(clean_header()));
    }
    block
}

/// The block bitmap block of a new file system: the superblock, the two
/// bitmaps and the inode table are used, nothing else.
pub fn block_bitmap_block() -> (r: Block)
    ensures
        r.id == BLOCK_BITMAP_START,
        r.header == clean_header(),
        r.buf@.len() == BLOCK_SIZE,
        r.buf@.subrange(0, BLOCK_HEADER_SIZE as int) == header_bytes(clean_header()),
        bits(r.buf@.subrange(BLOCK_HEADER_SIZE as int, BLOCK_HEADER_SIZE + 84)) == prefix_bitmap_bits(
            84,
            DATA_START as int,
        ),
        forall|i: int| BLOCK_HEADER_SIZE + 84 <= i < BLOCK_SIZE ==> #[trigger] r.buf@[i] == 0,
{
    let mut block = new_block(BLOCK_BITMAP_START);
    let mut bitmap_buf: Vec<u8> = Vec::new();
    crate::block::push_zeros(&mut bitmap_buf, (DATA_START + 7) / 8);
    proof {
        assert forall|i: int| 0 <= i < 84 * 8 implies !#[trigger] bits(bitmap_buf@)[i] by {
            let b = bitmap_buf@[i / 8];
            assert(b == 0);
            let k = (i % 8) as u8;
            assert(0u8 & (1u8 << k) == 0u8) by (bit_vector);
        }
    }
    let used = vec![Extent { logical_start: 0, physical_start: 0, length: DATA_START as u32 }];
    mark_blocks_used(bitmap_buf.as_mut_slice(), used.as_slice());
    let ghost payload = bitmap_buf@;
    proof {
        assert forall|i: int| 0 <= i < 84 * 8 implies #[trigger] bits(payload)[i] == (i < DATA_START) by {
            assert(used@.drop_last() =~= Seq::<Extent>::empty());
            assert(!crate::bitmaps::covered(used@.drop_last(), i));
        }
        assert(bits(payload) =~= prefix_bitmap_bits(84, DATA_START as int));
    }
    write_bytes(&mut block.buf, BLOCK_HEADER_SIZE, bitmap_buf.as_slice());
    block.serialise();
    proof {
        crate::block::law_header_round_trip(clean_header(), Seq::empty());
        assert(block.buf@.subrange(BLOCK_HEADER_SIZE as int, BLOCK_HEADER_SIZE + 84) =~= payload);
        assert(block.buf@.subrange(0, BLOCK_HEADER_SIZE as int) =~= header_bytes(clean_header()));
    }
    block
}

/// The stored bytes of inode `inode_num` in a new file system.
pub open spec fn slot_image(inode_num: int) -> Seq<u8> {
    if inode_num == ROOT_INODE_NUM {
        fresh_inode_bytes(0o40755, 2)
    } else {
        fresh_inode_bytes(0, 0)
    }
}

/// How many inodes block `idx` of the inode table holds.
pub open spec fn inodes_in_table_block(idx: int) -> int {
    if idx == INODE_TABLE_BLOCKS - 1 {
        TOTAL_INODES - idx * INODES_PER_BLOCK
    } else {
        INODES_PER_BLOCK as int
    }
}

/// The first `n` inodes of block `idx` of a new inode table.
pub open spec fn table_slots(idx: int, n: int) -> Seq<u8>
    decreases n,
{
    if n <= 0 {
        Seq::empty()
    } else {
        table_slots(idx, n - 1) + slot_image(idx * INODES_PER_BLOCK + n - 1)
    }
}

/// Block `block_idx` of the inode table of a new file system: its inodes
/// are empty except the root directory's.
pub fn inode_table_block(block_idx: usize) -> (r: Block)
    requires
        block_idx < INODE_TABLE_BLOCKS,
    ensures
        r.id == INODE_MAP_START + block_idx,
        r.header == clean_header(),
        r.buf@ == header_bytes(clean_header()) + table_slots(
            block_idx as int,
            inodes_in_table_block(block_idx as int),
        ) + zeros(BLOCK_SIZE - BLOCK_HEADER_SIZE - INODE_SIZE * inodes_in_table_block(
            block_idx as int,
        )),
{
    let empty_bytes = empty_inode().serialise();
    let root_bytes = root_inode().serialise();
    let mut block = new_block(INODE_MAP_START + block_idx);
    block.serialise();
    proof {
        crate::block::law_header_round_trip(clean_header(), Seq::empty());
    }
    let inodes_in_this_block = if block_idx == INODE_TABLE_BLOCKS - 1 {
        TOTAL_INODES - block_idx * INODES_PER_BLOCK
    } else {
        INODES_PER_BLOCK
    };
    assert(block.buf@ =~= header_bytes(clean_header()) + table_slots(block_idx as int, 0) + zeros(
        BLOCK_SIZE - BLOCK_HEADER_SIZE,
    ));
    let mut slot: usize = 0;
    while slot < inodes_in_this_block
        invariant
            block_idx < INODE_TABLE_BLOCKS,
            inodes_in_this_block == inodes_in_table_block(block_idx as int),
            inodes_in_this_block <= INODES_PER_BLOCK,
            slot <= inodes_in_this_block,
            empty_bytes@ == fresh_inode_bytes(0, 0),
            root_bytes@ == fresh_inode_bytes(0o40755, 2),
            empty_bytes@.len() == INODE_SIZE,
            root_bytes@.len() == INODE_SIZE,
            header_bytes(clean_header()).len() == BLOCK_HEADER_SIZE,
            block.id == INODE_MAP_START + block_idx,
            block.header == clean_header(),
            block.buf@ == header_bytes(clean_header()) + table_slots(block_idx as int, slot as int)
                + zeros(BLOCK_SIZE - BLOCK_HEADER_SIZE - INODE_SIZE * slot),
        decreases inodes_in_this_block - slot,
    {
        let start = BLOCK_HEADER_SIZE + slot * INODE_SIZE;
        let inode_num = block_idx * INODES_PER_BLOCK + slot;
        let bytes = if inode_num == ROOT_INODE_NUM { &root_bytes } else { &empty_bytes };
        proof {
            lemma_table_slots_len(block_idx as int, slot as int);
        }
        write_bytes(&mut block.buf, start, bytes.as_slice());
        slot = slot + 1;
        proof {
            lemma_table_slots_len(block_idx as int, slot as int);
            assert(block.buf@ =~= header_bytes(clean_header()) + table_slots(block_idx as int, slot as int)
                + zeros(BLOCK_SIZE - BLOCK_HEADER_SIZE - INODE_SIZE * slot));
        }
    }
    block
}

proof fn lemma_table_slots_len(idx: int, n: int)
    requires
        0 <= n,
    ensures
        table_slots(idx, n).len() == INODE_SIZE * n,
    decreases n,
{
    if n > 0 {
        lemma_table_slots_len(idx, n - 1);
        lemma_auto_spec_u64_to_from_le_bytes();
        lemma_auto_spec_u32_to_from_le_bytes();
        lemma_auto_spec_u16_to_from_le_bytes();
    }
}

/// Where inode `inode` is stored: the block of the inode table and the
/// offset of its 256 bytes in that block.
pub fn inode_location(inode: usize) -> (r: (usize, usize))
    requires
        inode < TOTAL_INODES,
    ensures
        r.0 == INODE_MAP_START + inode / INODES_PER_BLOCK,
        r.1 == BLOCK_HEADER_SIZE + (inode % INODES_PER_BLOCK) * INODE_SIZE,
        r.1 + INODE_SIZE <= BLOCK_SIZE,
{
    (INODE_MAP_START + inode / INODES_PER_BLOCK, BLOCK_HEADER_SIZE + (inode % INODES_PER_BLOCK) * INODE_SIZE)
}

/// Takes the first free inode of the inode bitmap for a new file and marks
/// it used; there is none when every inode of the file system is used.
pub fn reserve_inode_number(bitmap: &mut [u8]) -> (r: Result<usize, FileError>)
    requires
        bit_count(old(bitmap)@) <= usize::MAX,
    ensures
        final(bitmap)@.len() == old(bitmap)@.len(),
        match r {
            Ok(i) => {
                &&& i < TOTAL_INODES
                &&& !is_used(old(bitmap)@, i as int)
                &&& forall|j: int| 0 <= j < i ==> is_used(old(bitmap)@, j)
                &&& bits(final(bitmap)@) == bits(old(bitmap)@).update(i as int, true)
            },
            Err(e) => {
                &&& e == FileError::NoInodes
                &&& final(bitmap)@ == old(bitmap)@
                &&& forall|j: int| 0 <= j < bit_count(old(bitmap)@) && j < TOTAL_INODES ==> is_used(old(bitmap)@, j)
            },
        },
{
    match find_free_inode(bitmap) {
        Some(i) => {
            if i >= TOTAL_INODES {
                return Err(FileError::NoInodes);
            }
            mark_inode_used(bitmap, i);
            Ok(i)
        },
        None => Err(FileError::NoInodes),
    }
}

/// A newly reserved inode: the given mode and owner, all three times
/// `now`, no links, size or blocks, and an empty extent tree root.
pub fn new_inode(mode: u16, uid: u16, gid: u16, now: u64) -> (r: Inode)
    ensures
        r.i_mode == mode,
        r.i_uid == uid,
        r.i_gid == gid,
        r.i_atime == now,
        r.i_ctime == now,
        r.i_mtime == now,
        r.i_dtime == 0,
        r.i_size == 0,
        r.i_links_count == 0,
        r.i_blocks == 0,
        r.i_flags == 0,
        r.i_generation == 0,
        r.i_reserved@ == zeros(4),
        r.i_extents.magic == TREE_MAGIC,
        r.i_extents.depth == 0,
        r.i_extents.entry_count == 0,
        r.i_extents.max_entries == ROOT_MAX_ENTRIES,
{
    let r = Inode {
        i_mode: mode,
        i_uid: uid,
        i_size: 0,
        i_atime: now,
        i_ctime: now,
        i_mtime: now,
        i_dtime: 0,
        i_gid: gid,
        i_links_count: 0,
        i_blocks: 0,
        i_flags: 0,
        i_extents: empty_extent_root(),
        i_generation: 0,
        i_reserved: [0u8, 0u8, 0u8, 0u8],
    };
    assert(r.i_reserved@ =~= zeros(4));
    r
}

/// Whether block `b` is one of `blocks`.
pub open spec fn listed(blocks: Seq<u32>, b: int) -> bool {
    exists|t: int| 0 <= t < blocks.len() && blocks[t] == b
}

/// The number of blocks of `exts`, counted extent by extent.
fn count_blocks(exts: &Vec<Extent>) -> (r: u64)
    requires
        exts@.len() <= u32::MAX,
    ensures
        r == extent_blocks(exts@).len(),
{
    let mut total: u64 = 0;
    let mut i: usize = 0;
    while i < exts.len()
        invariant
            i <= exts@.len(),
            exts@.len() <= u32::MAX,
            total == extent_blocks(exts@.take(i as int)).len(),
            total <= i * (u32::MAX as int),
        decreases exts@.len() - i,
    {
        assert(exts@.take(i + 1).drop_last() =~= exts@.take(i as int));
        assert(exts@.take(i + 1).last() == exts@[i as int]);
        assert(total + exts@[i as int].length <= (i + 1) * (u32::MAX as int)) by (nonlinear_arith)
            requires
                total <= i * (u32::MAX as int),
                exts@[i as int].length <= u32::MAX,
        ;
        assert((i + 1) * (u32::MAX as int) <= (u32::MAX as int) * (u32::MAX as int) + u32::MAX) by (nonlinear_arith)
            requires
                i < u32::MAX,
        ;
        total = total + exts[i].length as u64;
        i = i + 1;
    }
    assert(exts@.take(exts@.len() as int) =~= exts@);
    total
}

/// Gives back what a deleted file held: its inode is marked free in the
/// inode bitmap; the blocks of its data extents, and the tree blocks freed
/// with its extent tree, are marked free in the block bitmap; and the
/// superblock counts one more free inode and one more free block for each
/// block released.
pub fn release_inode(
    inode_bitmap: &mut Vec<u8>,
    block_bitmap: &mut Vec<u8>,
    sb: &mut SuperBlock,
    inode: usize,
    data: &Vec<Extent>,
    tree_blocks: &Vec<u32>,
)
    requires
        inode < bit_count(old(inode_bitmap)@),
        extents_within(data@, bit_count(old(block_bitmap)@)),
        forall|t: int| 0 <= t < tree_blocks@.len() ==> tree_blocks@[t] < bit_count(old(block_bitmap)@),
        data@.len() <= u32::MAX,
        old(sb).free_inodes < u32::MAX,
        old(sb).free_blocks + extent_blocks(data@).len() + tree_blocks@.len() <= u32::MAX,
    ensures
        final(inode_bitmap)@.len() == old(inode_bitmap)@.len(),
        bits(final(inode_bitmap)@) == bits(old(inode_bitmap)@).update(inode as int, false),
        final(block_bitmap)@.len() == old(block_bitmap)@.len(),
        bits(final(block_bitmap)@) == Seq::new(
            bits(old(block_bitmap)@).len(),
            |b: int| bits(old(block_bitmap)@)[b] && !covered(data@, b) && !listed(tree_blocks@, b),
        ),
        final(sb).free_inodes == old(sb).free_inodes + 1,
        final(sb).free_blocks == old(sb).free_blocks + extent_blocks(data@).len() + tree_blocks@.len(),
        final(sb).header == old(sb).header,
        final(sb).magic == old(sb).magic,
        final(sb).version == old(sb).version,
        final(sb).total_size == old(sb).total_size,
        final(sb).block_size == old(sb).block_size,
        final(sb).inode_size == old(sb).inode_size,
        final(sb).block_count == old(sb).block_count,
        final(sb).inode_count == old(sb).inode_count,
        final(sb).inode_bitmap_start == old(sb).inode_bitmap_start,
        final(sb).block_bitmap_start == old(sb).block_bitmap_start,
        final(sb).inode_map_start == old(sb).inode_map_start,
        final(sb).data_start == old(sb).data_start,
        final(sb).state == old(sb).state,
        final(sb).root_inode == old(sb).root_inode,
{
    mark_inode_free(inode_bitmap.as_mut_slice(), inode);
    mark_blocks_free(block_bitmap.as_mut_slice(), data.as_slice());
    let ghost mid = bits(block_bitmap@);
    let mut j: usize = 0;
    while j < tree_blocks.len()
        invariant
            j <= tree_blocks@.len(),
            block_bitmap@.len() == old(block_bitmap)@.len(),
            mid.len() == bits(old(block_bitmap)@).len(),
            forall|t: int| 0 <= t < tree_blocks@.len() ==> tree_blocks@[t] < bit_count(old(block_bitmap)@),
            bits(block_bitmap@) == Seq::new(mid.len(), |b: int| mid[b] && !listed(tree_blocks@.take(j as int), b)),
        decreases tree_blocks@.len() - j,
    {
        let ghost before = bits(block_bitmap@);
        mark_block_free(block_bitmap.as_mut_slice(), tree_blocks[j] as usize);
        proof {
            let tj = tree_blocks@.take(j + 1);
            assert forall|b: int| 0 <= b < mid.len() implies listed(tj, b) == (listed(
                tree_blocks@.take(j as int),
                b,
            ) || b == tree_blocks@[j as int]) by {
                if listed(tj, b) {
                    let t = choose|t: int| 0 <= t < tj.len() && tj[t] == b;
                    if t < j {
                        assert(tree_blocks@.take(j as int)[t] == b);
                    }
                }
                if listed(tree_blocks@.take(j as int), b) {
                    let t = choose|t: int| 0 <= t < j && tree_blocks@.take(j as int)[t] == b;
                    assert(tj[t] == b);
                }
                if b == tree_blocks@[j as int] {
                    assert(tj[j as int] == b);
                }
            }
            assert(bits(block_bitmap@) =~= Seq::new(
                mid.len(),
                |b: int| mid[b] && !listed(tree_blocks@.take(j + 1), b),
            ));
        }
        j = j + 1;
    }
    proof {
        assert(tree_blocks@.take(tree_blocks@.len() as int) =~= tree_blocks@);
        assert(bits(block_bitmap@) =~= Seq::new(
            bits(old(block_bitmap)@).len(),
            |b: int| bits(old(block_bitmap)@)[b] && !covered(data@, b) && !listed(tree_blocks@, b),
        ));
    }
    let n = count_blocks(data);
    sb.free_inodes = sb.free_inodes + 1;
    sb.free_blocks = sb.free_blocks + n as u32 + tree_blocks.len() as u32;
}

} // verus!
