use vstd::prelude::*;
use crate::extent_tree::Extent;

verus! {

/// Whether bit `k` (0 = least significant) of `byte` is set.
pub open spec fn bit_of(byte: u8, k: int) -> bool {
    byte & (1u8 << (k as u8)) != 0u8
}

/// Whether entry `i` of a bitmap (bit `i % 8` of byte `i / 8`) is marked used.
pub open spec fn is_used(bitmap: Seq<u8>, i: int) -> bool {
    bit_of(bitmap[i / 8], i % 8)
}

/// Number of entries a bitmap describes.
pub open spec fn bit_count(bitmap: Seq<u8>) -> int {
    (bitmap.len() * 8) as int
}

/// The bitmap read as one flag per entry.
pub open spec fn bits(bitmap: Seq<u8>) -> Seq<bool> {
    Seq::new((bitmap.len() * 8) as nat, |i: int| is_used(bitmap, i))
}

proof fn lemma_bit_of_mask(b: u8, k: u8)
    requires
        k < 8,
    ensures
        (b & (1u8 << k) == 0u8) == !bit_of(b, k as int),
{
}

proof fn lemma_full_byte(b: u8)
    ensures
        (b == 0xffu8) == (bit_of(b, 0) && bit_of(b, 1) && bit_of(b, 2) && bit_of(b, 3)
            && bit_of(b, 4) && bit_of(b, 5) && bit_of(b, 6) && bit_of(b, 7)),
{
    assert((b == 0xffu8) == (b & (1u8 << 0u8) != 0u8 && b & (1u8 << 1u8) != 0u8 && b & (1u8
        << 2u8) != 0u8 && b & (1u8 << 3u8) != 0u8 && b & (1u8 << 4u8) != 0u8 && b & (1u8 << 5u8)
        != 0u8 && b & (1u8 << 6u8) != 0u8 && b & (1u8 << 7u8) != 0u8)) by (bit_vector);
}

proof fn lemma_index_split(i: int, k: int)
    requires
        0 <= k < 8,
    ensures
        (i * 8 + k) / 8 == i,
        (i * 8 + k) % 8 == k,
{
    assert((i * 8 + k) / 8 == i && (i * 8 + k) % 8 == k) by (nonlinear_arith)
        requires
            0 <= k < 8,
    ;
}

/// Finds the first free inode: the lowest entry of `bitmap` whose bit is clear.
pub fn find_free_inode(bitmap: &[u8]) -> (r: Option<usize>)
    requires
        bitmap@.len() * 8 <= usize::MAX,
    ensures
        match r {
            Some(i) => {
                &&& i < bit_count(bitmap@)
                &&& !is_used(bitmap@, i as int)
                &&& forall|j: int| 0 <= j < i ==> is_used(bitmap@, j)
            },
            None => forall|j: int| 0 <= j < bit_count(bitmap@) ==> is_used(bitmap@, j),
        },
{
    let mut i: usize = 0;
    while i < bitmap.len()
        invariant
            i <= bitmap@.len(),
            bitmap@.len() * 8 <= usize::MAX,
            forall|j: int| 0 <= j < i * 8 ==> is_used(bitmap@, j),
        decreases bitmap@.len() - i,
    {
        let byte = bitmap[i];
        if byte == 0xFF {
            proof {
                lemma_full_byte(byte);
                assert forall|j: int| 0 <= j < (i + 1) * 8 implies is_used(bitmap@, j) by {
                    if j >= i * 8 {
                        lemma_index_split(i as int, j - i * 8);
                    }
                }
            }
            i = i + 1;
            continue;
        }
        let mut bit: u8 = 0;
        while bit < 8
            invariant
                i < bitmap@.len(),
                bit <= 8,
                byte == bitmap@[i as int],
                byte != 0xffu8,
                bitmap@.len() * 8 <= usize::MAX,
                forall|j: int| 0 <= j < i * 8 + bit ==> is_used(bitmap@, j),
            decreases 8 - bit,
        {
            proof {
                lemma_bit_of_mask(byte, bit);
                lemma_index_split(i as int, bit as int);
            }
            if byte & (1u8 << bit) == 0 {
                return Some(i * 8 + bit as usize);
            }
            bit = bit + 1;
        }
        proof {
            lemma_full_byte(byte);
            assert forall|k: int| 0 <= k < 8 implies bit_of(byte, k) by {
                lemma_index_split(i as int, k);
                assert(is_used(bitmap@, i * 8 + k));
            }
            assert(bit_of(byte, 0) && bit_of(byte, 1) && bit_of(byte, 2) && bit_of(byte, 3));
            assert(bit_of(byte, 4) && bit_of(byte, 5) && bit_of(byte, 6) && bit_of(byte, 7));
        }
        i = i + 1;
    }
    None
}


proof fn lemma_byte_set(x: u8, k: u8, m: u8)
    requires
        k < 8,
        m < 8,
    ensures
        bit_of(x | (1u8 << k), m as int) == (m == k || bit_of(x, m as int)),
{
    assert(((x | (1u8 << k)) & (1u8 << m) != 0u8) == (m == k || x & (1u8 << m) != 0u8))
        by (bit_vector)
        requires
            k < 8,
            m < 8,
    ;
}

proof fn lemma_byte_clear(x: u8, k: u8, m: u8)
    requires
        k < 8,
        m < 8,
    ensures
        bit_of(x & !(1u8 << k), m as int) == (m != k && bit_of(x, m as int)),
{
    assert(((x & !(1u8 << k)) & (1u8 << m) != 0u8) == (m != k && x & (1u8 << m) != 0u8))
        by (bit_vector)
        requires
            k < 8,
            m < 8,
    ;
}

proof fn lemma_same_byte(a: int, b: int)
    requires
        0 <= a,
        0 <= b,
        a / 8 == b / 8,
        a % 8 == b % 8,
    ensures
        a == b,
{
    assert(a == 8 * (a / 8) + a % 8 && b == 8 * (b / 8) + b % 8) by (nonlinear_arith)
        requires
            0 <= a,
            0 <= b,
    ;
}

/// Writing byte `block / 8` with bit `block % 8` set (`used`) or cleared
/// changes exactly entry `block` of the bitmap.
proof fn lemma_write_entry(bm: Seq<u8>, block: int, used: bool)
    requires
        0 <= block < bit_count(bm),
    ensures
        ({
            let k = (block % 8) as u8;
            let old_byte = bm[block / 8];
            let new_byte = if used { old_byte | (1u8 << k) } else { old_byte & !(1u8 << k) };
            bits(bm.update(block / 8, new_byte)) == bits(bm).update(block, used)
        }),
{
    let k = (block % 8) as u8;
    let old_byte = bm[block / 8];
    let new_byte = if used { old_byte | (1u8 << k) } else { old_byte & !(1u8 << k) };
    let nbm = bm.update(block / 8, new_byte);
    assert forall|b: int| 0 <= b < bit_count(bm) implies is_used(nbm, b) == (if b == block {
        used
    } else {
        is_used(bm, b)
    }) by {
        assert(0 <= b / 8 < bm.len()) by (nonlinear_arith)
            requires
                0 <= b < bm.len() * 8,
        ;
        assert(0 <= block / 8 < bm.len()) by (nonlinear_arith)
            requires
                0 <= block < bm.len() * 8,
        ;
        if b / 8 == block / 8 {
            if used {
                lemma_byte_set(old_byte, k, (b % 8) as u8);
            } else {
                lemma_byte_clear(old_byte, k, (b % 8) as u8);
            }
            if b % 8 == block % 8 {
                lemma_same_byte(b, block);
            }
        }
    }
    assert(bits(nbm) =~= bits(bm).update(block, used));
}

/// Marks inode `inode` used in the inode bitmap.
pub fn mark_inode_used(bitmap: &mut [u8], inode: usize)
    requires
        inode < bit_count(old(bitmap)@),
    ensures
        final(bitmap)@.len() == old(bitmap)@.len(),
        bits(final(bitmap)@) == bits(old(bitmap)@).update(inode as int, true),
{
    let byte_idx = inode / 8;
    let bit_idx = (inode % 8) as u8;
    proof {
        lemma_write_entry(bitmap@, inode as int, true);
    }
    bitmap[byte_idx] = bitmap[byte_idx] | (1u8 << bit_idx);
}

/// Marks inode `inode` free in the inode bitmap.
pub fn mark_inode_free(bitmap: &mut [u8], inode: usize)
    requires
        inode < bit_count(old(bitmap)@),
    ensures
        final(bitmap)@.len() == old(bitmap)@.len(),
        bits(final(bitmap)@) == bits(old(bitmap)@).update(inode as int, false),
{
    let byte_idx = inode / 8;
    let bit_idx = (inode % 8) as u8;
    proof {
        lemma_write_entry(bitmap@, inode as int, false);
    }
    bitmap[byte_idx] = bitmap[byte_idx] & !(1u8 << bit_idx);
}

/// Marks block `block` free in the block bitmap.
pub fn mark_block_free(bitmap: &mut [u8], block: usize)
    requires
        block < bit_count(old(bitmap)@),
    ensures
        final(bitmap)@.len() == old(bitmap)@.len(),
        bits(final(bitmap)@) == bits(old(bitmap)@).update(block as int, false),
{
    proof {
        lemma_write_entry(bitmap@, block as int, false);
    }
    bitmap[block / 8] = bitmap[block / 8] & !(1u8 << ((block % 8) as u8));
}

/// Whether block `b` lies in the physical range of extent `e`.
pub open spec fn in_extent(e: Extent, b: int) -> bool {
    e.physical_start <= b < e.physical_start + e.length
}

/// Whether block `b` lies in the physical range of one of `exts`.
pub open spec fn covered(exts: Seq<Extent>, b: int) -> bool
    decreases exts.len(),
{
    if exts.len() == 0 {
        false
    } else {
        covered(exts.drop_last(), b) || in_extent(exts.last(), b)
    }
}

/// Every block that an extent of `exts` holds lies inside the first `n`
/// blocks (an empty extent holds none, wherever it starts).
pub open spec fn extents_within(exts: Seq<Extent>, n: int) -> bool {
    forall|j: int| 0 <= j < exts.len() && exts[j].length > 0 ==> exts[j].physical_start + exts[j].length <= n
}

proof fn lemma_covered_take(exts: Seq<Extent>, e: int, b: int)
    requires
        0 <= e < exts.len(),
    ensures
        covered(exts.take(e + 1), b) == (covered(exts.take(e), b) || in_extent(exts[e], b)),
{
    assert(exts.take(e + 1).drop_last() =~= exts.take(e));
}

/// Marks every block of every extent used in the block bitmap.
pub fn mark_blocks_used(bitmap: &mut [u8], extents: &[Extent])
    requires
        extents_within(extents@, bit_count(old(bitmap)@)),
    ensures
        final(bitmap)@.len() == old(bitmap)@.len(),
        bits(final(bitmap)@) == Seq::new(
            bits(old(bitmap)@).len(),
            |b: int| bits(old(bitmap)@)[b] || covered(extents@, b),
        ),
{
    let ghost old_bits = bits(bitmap@);
    let mut e: usize = 0;
    while e < extents.len()
        invariant
            e <= extents@.len(),
            extents_within(extents@, bit_count(old(bitmap)@)),
            bitmap@.len() == old(bitmap)@.len(),
            old_bits == bits(old(bitmap)@),
            bits(bitmap@) == Seq::new(
                old_bits.len(),
                |b: int| old_bits[b] || covered(extents@.take(e as int), b),
            ),
        decreases extents@.len() - e,
    {
        let start = extents[e].physical_start as u64;
        let end = start + extents[e].length as u64;
        let mut block = start;
        while block < end
            invariant
                e < extents@.len(),
                start == extents@[e as int].physical_start,
                end == extents@[e as int].physical_start + extents@[e as int].length,
                start <= block <= end,
                start < end ==> end <= bit_count(bitmap@),
                bitmap@.len() == old(bitmap)@.len(),
                old_bits == bits(old(bitmap)@),
                bits(bitmap@) == Seq::new(
                    old_bits.len(),
                    |b: int| old_bits[b] || covered(extents@.take(e as int), b) || (start <= b < block),
                ),
            decreases end - block,
        {
            let byte_idx = (block / 8) as usize;
            let bit_idx = (block % 8) as u8;
            proof {
                lemma_write_entry(bitmap@, block as int, true);
            }
            let ghost prev = bits(bitmap@);
            bitmap[byte_idx] = bitmap[byte_idx] | (1u8 << bit_idx);
            block = block + 1;
            assert(bits(bitmap@) =~= Seq::new(
                old_bits.len(),
                |b: int| old_bits[b] || covered(extents@.take(e as int), b) || (start <= b < block),
            ));
        }
        proof {
            assert forall|b: int| 0 <= b < old_bits.len() implies covered(extents@.take(e + 1), b) == (
            covered(extents@.take(e as int), b) || (start <= b < end)) by {
                lemma_covered_take(extents@, e as int, b);
            }
        }
        e = e + 1;
        assert(bits(bitmap@) =~= Seq::new(
            old_bits.len(),
            |b: int| old_bits[b] || covered(extents@.take(e as int), b),
        ));
    }
    assert(extents@.take(extents@.len() as int) =~= extents@);
}

/// Marks every block of every extent free in the block bitmap.
pub fn mark_blocks_free(bitmap: &mut [u8], extents: &[Extent])
    requires
        extents_within(extents@, bit_count(old(bitmap)@)),
    ensures
        final(bitmap)@.len() == old(bitmap)@.len(),
        bits(final(bitmap)@) == Seq::new(
            bits(old(bitmap)@).len(),
            |b: int| bits(old(bitmap)@)[b] && !covered(extents@, b),
        ),
{
    let ghost old_bits = bits(bitmap@);
    let mut e: usize = 0;
    while e < extents.len()
        invariant
            e <= extents@.len(),
            extents_within(extents@, bit_count(old(bitmap)@)),
            bitmap@.len() == old(bitmap)@.len(),
            old_bits == bits(old(bitmap)@),
            bits(bitmap@) == Seq::new(
                old_bits.len(),
                |b: int| old_bits[b] && !covered(extents@.take(e as int), b),
            ),
        decreases extents@.len() - e,
    {
        let start = extents[e].physical_start as u64;
        let end = start + extents[e].length as u64;
        let mut block = start;
        while block < end
            invariant
                e < extents@.len(),
                start == extents@[e as int].physical_start,
                end == extents@[e as int].physical_start + extents@[e as int].length,
                start <= block <= end,
                start < end ==> end <= bit_count(bitmap@),
                bitmap@.len() == old(bitmap)@.len(),
                old_bits == bits(old(bitmap)@),
                bits(bitmap@) == Seq::new(
                    old_bits.len(),
                    |b: int| old_bits[b] && !covered(extents@.take(e as int), b) && !(start <= b < block),
                ),
            decreases end - block,
        {
            let byte_idx = (block / 8) as usize;
            let bit_idx = (block % 8) as u8;
            proof {
                lemma_write_entry(bitmap@, block as int, false);
            }
            bitmap[byte_idx] = bitmap[byte_idx] & !(1u8 << bit_idx);
            block = block + 1;
            assert(bits(bitmap@) =~= Seq::new(
                old_bits.len(),
                |b: int| old_bits[b] && !covered(extents@.take(e as int), b) && !(start <= b < block),
            ));
        }
        proof {
            assert forall|b: int| 0 <= b < old_bits.len() implies covered(extents@.take(e + 1), b) == (
            covered(extents@.take(e as int), b) || (start <= b < end)) by {
                lemma_covered_take(extents@, e as int, b);
            }
        }
        e = e + 1;
        assert(bits(bitmap@) =~= Seq::new(
            old_bits.len(),
            |b: int| old_bits[b] && !covered(extents@.take(e as int), b),
        ));
    }
    assert(extents@.take(extents@.len() as int) =~= extents@);
}

/// The free entries of `bitmap` below `n`, in increasing order.
pub open spec fn free_below(bitmap: Seq<u8>, n: int) -> Seq<int>
    decreases n,
{
    if n <= 0 {
        Seq::empty()
    } else if is_used(bitmap, n - 1) {
        free_below(bitmap, n - 1)
    } else {
        free_below(bitmap, n - 1).push(n - 1)
    }
}

/// All free entries of `bitmap`, in increasing order.
pub open spec fn free_entries(bitmap: Seq<u8>) -> Seq<int> {
    free_below(bitmap, bit_count(bitmap))
}

/// The `length` consecutive blocks that start at `start`.
pub open spec fn block_run(start: int, length: int) -> Seq<int> {
    Seq::new(length as nat, |k: int| start + k)
}

/// The physical blocks of `exts`, extent after extent.
pub open spec fn extent_blocks(exts: Seq<Extent>) -> Seq<int>
    decreases exts.len(),
{
    if exts.len() == 0 {
        Seq::empty()
    } else {
        extent_blocks(exts.drop_last()) + block_run(
            exts.last().physical_start as int,
            exts.last().length as int,
        )
    }
}

/// `exts` are maximal runs laid out in order: each is nonempty, each starts
/// logically where the blocks before it end, and a gap separates each from
/// the next one physically.
pub open spec fn runs_well_formed(exts: Seq<Extent>) -> bool {
    &&& forall|j: int| 0 <= j < exts.len() ==> #[trigger] exts[j].length > 0
    &&& forall|j: int|
        0 <= j < exts.len() ==> #[trigger] exts[j].logical_start == extent_blocks(
            exts.take(j),
        ).len()
    &&& forall|j: int, k: int|
        0 <= j < k < exts.len() ==> #[trigger] exts[j].physical_start + exts[j].length
            < #[trigger] exts[k].physical_start
}

proof fn lemma_free_below_len(bm: Seq<u8>, n: int)
    requires
        0 <= n,
    ensures
        free_below(bm, n).len() <= n,
    decreases n,
{
    if n > 0 {
        lemma_free_below_len(bm, n - 1);
    }
}

proof fn lemma_free_below_prefix(bm: Seq<u8>, n: int, m: int)
    requires
        0 <= n <= m,
    ensures
        free_below(bm, n).len() <= free_below(bm, m).len(),
        free_below(bm, m).take(free_below(bm, n).len() as int) == free_below(bm, n),
    decreases m - n,
{
    if n < m {
        lemma_free_below_prefix(bm, n, m - 1);
        assert(free_below(bm, m).take(free_below(bm, n).len() as int) =~= free_below(
            bm,
            m - 1,
        ).take(free_below(bm, n).len() as int));
    } else {
        assert(free_below(bm, m).take(free_below(bm, n).len() as int) =~= free_below(bm, n));
    }
}

proof fn lemma_extent_blocks_push(exts: Seq<Extent>, e: Extent)
    ensures
        extent_blocks(exts.push(e)) == extent_blocks(exts) + block_run(
            e.physical_start as int,
            e.length as int,
        ),
{
    assert(exts.push(e).drop_last() =~= exts);
}

/// The state of the scan in `find_blocks` just before entry `p`.
spec fn scan_state(
    bm: Seq<u8>,
    count: int,
    p: int,
    blocks: Seq<Extent>,
    logical_start: int,
    remaining: int,
    run_start: int,
    run_length: int,
) -> bool {
    &&& 0 <= p <= bit_count(bm)
    &&& bit_count(bm) <= u32::MAX
    &&& extent_blocks(blocks) + block_run(run_start, run_length) == free_below(bm, p)
    &&& run_length > 0 ==> run_start + run_length == p
    &&& 0 <= run_length
    &&& logical_start == extent_blocks(blocks).len()
    &&& remaining == count - extent_blocks(blocks).len()
    &&& run_length < remaining
    &&& runs_well_formed(blocks)
    &&& forall|j: int|
        0 <= j < blocks.len() ==> #[trigger] blocks[j].physical_start + blocks[j].length < p
    &&& blocks.len() > 0 && run_length > 0 ==> blocks.last().physical_start + blocks.last().length
        < run_start
}

proof fn lemma_scan_step(
    bm: Seq<u8>,
    count: int,
    p: int,
    blocks: Seq<Extent>,
    logical_start: int,
    remaining: int,
    run_start: int,
    run_length: int,
)
    requires
        scan_state(bm, count, p, blocks, logical_start, remaining, run_start, run_length),
        p < bit_count(bm),
    ensures
        !is_used(bm, p) ==> {
            let rs = if run_length == 0 { p } else { run_start };
            extent_blocks(blocks) + block_run(rs, run_length + 1) == free_below(bm, p + 1)
        },
        is_used(bm, p) && run_length > 0 ==> {
            let e = Extent {
                logical_start: logical_start as u32,
                physical_start: run_start as u32,
                length: run_length as u32,
            };
            scan_state(
                bm,
                count,
                p + 1,
                blocks.push(e),
                logical_start + run_length,
                remaining - run_length,
                run_start,
                0,
            )
        },
        is_used(bm, p) && run_length == 0 ==> scan_state(
            bm,
            count,
            p + 1,
            blocks,
            logical_start,
            remaining,
            run_start,
            0,
        ),
{
    lemma_free_below_len(bm, p);
    let rs = if run_length == 0 { p } else { run_start };
    if !is_used(bm, p) {
        assert(block_run(rs, run_length + 1) =~= block_run(run_start, run_length).push(p));
        assert(extent_blocks(blocks) + block_run(rs, run_length + 1) =~= (extent_blocks(blocks)
            + block_run(run_start, run_length)).push(p));
    } else if run_length > 0 {
        let e = Extent {
            logical_start: logical_start as u32,
            physical_start: run_start as u32,
            length: run_length as u32,
        };
        let nb = blocks.push(e);
        lemma_extent_blocks_push(blocks, e);
        assert(block_run(run_start, 0) =~= Seq::<int>::empty());
        assert(extent_blocks(nb) + block_run(run_start, 0) =~= extent_blocks(nb));
        assert(nb.take(blocks.len() as int) =~= blocks);
        assert forall|j: int| 0 <= j < nb.len() implies #[trigger] nb[j].logical_start
            == extent_blocks(nb.take(j)).len() by {
            if j < blocks.len() {
                assert(nb.take(j) =~= blocks.take(j));
            }
        }
        assert forall|j: int, k: int| 0 <= j < k < nb.len() implies #[trigger] nb[j].physical_start
            + nb[j].length < #[trigger] nb[k].physical_start by {
            if k == blocks.len() {
                assert(blocks[j].physical_start + blocks[j].length < p);
                if j < blocks.len() - 1 {
                    assert(blocks[j].physical_start + blocks[j].length < blocks.last().physical_start);
                }
            }
        }
    } else {
    }
}

/// Finds `count` free blocks, scanning the bitmap from its start and taking
/// the first `count` free ones, as maximal contiguous runs laid end to end in
/// the logical space from 0. Returns no extent when `count` is 0 or when the
/// bitmap has fewer than `count` free blocks.
pub fn find_blocks(bitmap: &[u8], count: usize) -> (r: Vec<Extent>)
    requires
        bit_count(bitmap@) <= u32::MAX,
    ensures
        count == 0 || free_entries(bitmap@).len() < count ==> r@.len() == 0,
        0 < count <= free_entries(bitmap@).len() ==> {
            &&& extent_blocks(r@) == free_entries(bitmap@).take(count as int)
            &&& runs_well_formed(r@)
        },
{
    if count == 0 {
        return Vec::new();
    }
    let mut blocks: Vec<Extent> = Vec::new();
    let mut logical_start: u32 = 0;
    let mut remaining = count;
    let mut run_start = 0usize;
    let mut run_length = 0usize;
    proof {
        assert(extent_blocks(blocks@) =~= Seq::<int>::empty());
        assert(block_run(0, 0) =~= Seq::<int>::empty());
        assert(extent_blocks(blocks@) + block_run(0, 0) =~= free_below(bitmap@, 0));
    }
    let mut i: usize = 0;
    while i < bitmap.len()
        invariant
            i <= bitmap@.len(),
            0 < count,
            scan_state(
                bitmap@,
                count as int,
                i * 8,
                blocks@,
                logical_start as int,
                remaining as int,
                run_start as int,
                run_length as int,
            ),
        decreases bitmap@.len() - i,
    {
        let byte = bitmap[i];
        let mut bit: u8 = 0;
        while bit < 8
            invariant
                i < bitmap@.len(),
                bit <= 8,
                byte == bitmap@[i as int],
                0 < count,
                scan_state(
                    bitmap@,
                    count as int,
                    i * 8 + bit,
                    blocks@,
                    logical_start as int,
                    remaining as int,
                    run_start as int,
                    run_length as int,
                ),
            decreases 8 - bit,
        {
            let absolute_block = i * 8 + bit as usize;
            proof {
                assert(i * 8 + 8 <= bitmap@.len() * 8) by (nonlinear_arith)
                    requires
                        i < bitmap@.len(),
                ;
                lemma_bit_of_mask(byte, bit);
                lemma_index_split(i as int, bit as int);
                lemma_scan_step(
                    bitmap@,
                    count as int,
                    absolute_block as int,
                    blocks@,
                    logical_start as int,
                    remaining as int,
                    run_start as int,
                    run_length as int,
                );
                lemma_free_below_len(bitmap@, absolute_block + 1);
            }
            if byte & (1u8 << bit) == 0 {
                if run_length == 0 {
                    run_start = absolute_block;
                }
                run_length += 1;
                if run_length == remaining {
                    let ghost old_blocks = blocks@;
                    let e = Extent {
                        logical_start,
                        physical_start: run_start as u32,
                        length: run_length as u32,
                    };
                    blocks.push(e);
                    proof {
                        let p = absolute_block + 1;
                        lemma_extent_blocks_push(old_blocks, e);
                        assert(blocks@.take(old_blocks.len() as int) =~= old_blocks);
                        assert forall|j: int| 0 <= j < blocks@.len() implies #[trigger] blocks@[j].logical_start
                            == extent_blocks(blocks@.take(j)).len() by {
                            if j < old_blocks.len() {
                                assert(blocks@.take(j) =~= old_blocks.take(j));
                            }
                        }
                        assert forall|j: int, k: int| 0 <= j < k < blocks@.len() implies #[trigger] blocks@[j].physical_start
                            + blocks@[j].length < #[trigger] blocks@[k].physical_start by {
                            if k == old_blocks.len() {
                                if j < old_blocks.len() - 1 {
                                    assert(old_blocks[j].physical_start + old_blocks[j].length
                                        < old_blocks.last().physical_start);
                                }
                            }
                        }
                        lemma_free_below_prefix(bitmap@, p, bit_count(bitmap@));
                    }
                    return blocks;
                }
            } else if run_length > 0 {
                blocks.push(
                    Extent {
                        logical_start,
                        physical_start: run_start as u32,
                        length: run_length as u32,
                    },
                );
                logical_start += run_length as u32;
                remaining -= run_length;
                run_length = 0;
            }
            bit = bit + 1;
        }
        i = i + 1;
    }
    if run_length > 0 {
        blocks.push(
            Extent {
                logical_start,
                physical_start: run_start as u32,
                length: run_length as u32,
            },
        );
        remaining -= run_length;
    }
    if remaining == 0 {
        blocks
    } else {
        Vec::new()
    }
}

proof fn lemma_free_below_members(bm: Seq<u8>, n: int, x: int)
    requires
        free_below(bm, n).contains(x),
    ensures
        0 <= x < n,
        !is_used(bm, x),
    decreases n,
{
    if n > 0 {
        if free_below(bm, n - 1).contains(x) {
            lemma_free_below_members(bm, n - 1, x);
        } else {
            assert(x == n - 1);
        }
    }
}

proof fn lemma_covered_is_member(exts: Seq<Extent>, b: int)
    ensures
        covered(exts, b) == extent_blocks(exts).contains(b),
    decreases exts.len(),
{
    if exts.len() > 0 {
        let last = exts.last();
        let run = block_run(last.physical_start as int, last.length as int);
        lemma_covered_is_member(exts.drop_last(), b);
        let front = extent_blocks(exts.drop_last());
        assert(extent_blocks(exts) == front + run);
        if in_extent(last, b) {
            assert((front + run)[front.len() + (b - last.physical_start)] == b);
        }
        if front.contains(b) {
            let k = choose|k: int| 0 <= k < front.len() && front[k] == b;
            assert((front + run)[k] == b);
        }
        if extent_blocks(exts).contains(b) {
            let k = choose|k: int| 0 <= k < (front + run).len() && (front + run)[k] == b;
            if k >= front.len() {
                assert(run[k - front.len()] == b);
            } else {
                assert(front[k] == b);
            }
        }
    }
}

/// Every block that `find_blocks` hands out was free in the bitmap it searched.
pub proof fn law_found_blocks_are_free(bitmap: Seq<u8>, count: int, found: Seq<Extent>, b: int)
    requires
        0 < count <= free_entries(bitmap).len(),
        extent_blocks(found) == free_entries(bitmap).take(count),
        covered(found, b),
    ensures
        0 <= b < bit_count(bitmap),
        !is_used(bitmap, b),
{
    lemma_covered_is_member(found, b);
    let k = choose|k: int| 0 <= k < extent_blocks(found).len() && extent_blocks(found)[k] == b;
    assert(free_entries(bitmap)[k] == b);
    lemma_free_below_members(bitmap, bit_count(bitmap), b);
}

/// Marking the blocks that `find_blocks` found used, then marking them free,
/// gives back the bitmap that was searched.
pub proof fn law_allocate_then_free_restores(bitmap: Seq<u8>, count: int, found: Seq<Extent>)
    requires
        0 < count <= free_entries(bitmap).len(),
        extent_blocks(found) == free_entries(bitmap).take(count),
    ensures
        Seq::new(
            bits(bitmap).len(),
            |b: int|
                Seq::new(bits(bitmap).len(), |c: int| bits(bitmap)[c] || covered(found, c))[b]
                    && !covered(found, b),
        ) == bits(bitmap),
{
    let marked = Seq::new(bits(bitmap).len(), |c: int| bits(bitmap)[c] || covered(found, c));
    assert forall|b: int| 0 <= b < bits(bitmap).len() implies (marked[b] && !covered(found, b))
        == bits(bitmap)[b] by {
        if covered(found, b) {
            law_found_blocks_are_free(bitmap, count, found, b);
        }
    }
    assert(Seq::new(bits(bitmap).len(), |b: int| marked[b] && !covered(found, b)) =~= bits(
        bitmap,
    ));
}

/// Marking a free inode used and then free again gives back the same bitmap.
pub proof fn law_inode_use_then_free_restores(bitmap: Seq<u8>, inode: int)
    requires
        0 <= inode < bit_count(bitmap),
        !is_used(bitmap, inode),
    ensures
        bits(bitmap).update(inode, true).update(inode, false) == bits(bitmap),
{
    assert(bits(bitmap).update(inode, true).update(inode, false) =~= bits(bitmap));
}

/// After the inode that `find_free_inode` returned is marked used, the next
/// search returns a later inode: the entries up to it are all used.
pub proof fn law_found_inode_then_used(bitmap: Seq<u8>, inode: int, after: Seq<u8>)
    requires
        0 <= inode < bit_count(bitmap),
        !is_used(bitmap, inode),
        forall|j: int| 0 <= j < inode ==> is_used(bitmap, j),
        after.len() == bitmap.len(),
        bits(after) == bits(bitmap).update(inode, true),
    ensures
        forall|j: int| 0 <= j <= inode ==> is_used(after, j),
        forall|j: int| inode < j < bit_count(bitmap) ==> is_used(after, j) == is_used(bitmap, j),
{
    assert forall|j: int| 0 <= j < bit_count(bitmap) implies is_used(after, j) == (if j == inode {
        true
    } else {
        is_used(bitmap, j)
    }) by {
        assert(bits(after)[j] == bits(bitmap).update(inode, true)[j]);
    }
}

/// Entry `k` of the free entries is a free entry of the bitmap.
pub proof fn lemma_free_entry_facts(bitmap: Seq<u8>, k: int)
    requires
        0 <= k < free_entries(bitmap).len(),
    ensures
        0 <= free_entries(bitmap)[k] < bit_count(bitmap),
        !is_used(bitmap, free_entries(bitmap)[k]),
{
    lemma_free_below_members(bitmap, bit_count(bitmap), free_entries(bitmap)[k]);
}

/// Marking free entry `b` used takes it, and only it, out of the free
/// entries below `n`.
proof fn lemma_free_below_take(x: Seq<u8>, y: Seq<u8>, b: int, n: int)
    requires
        x.len() == y.len(),
        0 <= b < bit_count(x),
        !is_used(x, b),
        bits(y) == bits(x).update(b, true),
        0 <= n <= bit_count(x),
    ensures
        free_below(y, n).len() == free_below(x, n).len() - (if b < n { 1int } else { 0int }),
    decreases n,
{
    if n > 0 {
        lemma_free_below_take(x, y, b, n - 1);
        assert(bits(y)[n - 1] == is_used(y, n - 1));
        assert(bits(x)[n - 1] == is_used(x, n - 1));
    }
}

/// Marking one free entry used leaves one free entry fewer.
pub proof fn lemma_take_free_entry(x: Seq<u8>, y: Seq<u8>, b: int)
    requires
        x.len() == y.len(),
        0 <= b < bit_count(x),
        !is_used(x, b),
        bits(y) == bits(x).update(b, true),
    ensures
        free_entries(y).len() + 1 == free_entries(x).len(),
{
    lemma_free_below_take(x, y, b, bit_count(x));
}

} // verus!
