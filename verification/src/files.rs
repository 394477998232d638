use vstd::prelude::*;
use crate::constants::{BLOCK_PAYLOAD_SIZE, O_CREAT, O_DIRECTORY, O_EXCL};
use crate::directories::{is_dir, mode_is_dir};
use crate::extent_tree::{all_fit, ext_end, extent_fits, maps_to, Extent};
use crate::bitmaps::{block_run, extent_blocks};
use crate::file_errors::FileError;

verus! {

/// An open file: its inode, the offset of the next read, and the flags it
/// was opened with.
pub struct File {
    inode: usize,
    offset: u32,
    flags: u32,
}

/// What opening a name that was looked up in its directory comes to.
#[derive(Clone, Copy, Debug, PartialEq, Eq, Structural)]
pub enum OpenStep {
    /// Open the existing inode; when `must_be_dir`, it has to be a directory.
    Existing { inode: usize, must_be_dir: bool },
    /// Create the file.
    Create,
}

/// How a read of an open file proceeds: which logical blocks to read,
/// where the bytes asked for start in them, how many there are, and where
/// the next read starts.
#[derive(Clone, Copy, Debug, PartialEq, Eq, Structural)]
pub struct ReadPlan {
    pub end_offset: u32,
    pub read_len: usize,
    pub start_block: u32,
    pub end_block: u32,
    pub clip_start: usize,
}

/// Decides how an open proceeds once the name has been looked up: an
/// existing name is refused with `O_CREAT | O_EXCL`, and must be a directory
/// with `O_DIRECTORY`; a missing name is created with `O_CREAT` and
/// otherwise not found.
pub fn open_step(existing: Option<usize>, flags: u32) -> (r: Result<OpenStep, FileError>)
    ensures
        match existing {
            Some(id) => if flags & O_CREAT != 0 && flags & O_EXCL != 0 {
                r == Err::<OpenStep, FileError>(FileError::NameExists)
            } else {
                r == Ok::<OpenStep, FileError>(
                    OpenStep::Existing { inode: id, must_be_dir: flags & O_DIRECTORY != 0 },
                )
            },
            None => if flags & O_CREAT == 0 {
                r == Err::<OpenStep, FileError>(FileError::NameNotFound)
            } else {
                r == Ok::<OpenStep, FileError>(OpenStep::Create)
            },
        },
{
    match existing {
        Some(id) => {
            if flags & O_CREAT != 0 && flags & O_EXCL != 0 {
                return Err(FileError::NameExists);
            }
            Ok(OpenStep::Existing { inode: id, must_be_dir: flags & O_DIRECTORY != 0 })
        },
        None => {
            if flags & O_CREAT == 0 {
                return Err(FileError::NameNotFound);
            }
            Ok(OpenStep::Create)
        },
    }
}

/// Whether an inode opened with `O_DIRECTORY` may be opened: it must be a
/// directory.
pub fn check_directory(mode: u16) -> (r: Result<(), FileError>)
    ensures
        r == if mode_is_dir(mode) {
            Ok::<(), FileError>(())
        } else {
            Err::<(), FileError>(FileError::NotDirectory)
        },
{
    if !is_dir(mode) {
        return Err(FileError::NotDirectory);
    }
    Ok(())
}

/// The physical blocks, in order, whose logical blocks lie in
/// `[start_block, end_block)`.
pub open spec fn blocks_in_range_spec(exts: Seq<Extent>, start_block: int, end_block: int) -> Seq<u32>
    decreases exts.len(),
{
    if exts.len() == 0 {
        Seq::empty()
    } else {
        let e = exts.last();
        blocks_in_range_spec(exts.drop_last(), start_block, end_block) + Seq::new(
            e.length as nat,
            |k: int| (e.physical_start + k) as u32,
        ).filter(|b: u32| start_block <= e.logical_start + (b - e.physical_start) < end_block)
    }
}

impl File {
    /// The file as opened: inode `inode`, reading from its start.
    pub fn opened(inode: usize, flags: u32) -> (r: Self)
        ensures
            r.inode_spec() == inode,
            r.offset_spec() == 0,
            r.flags_spec() == flags,
    {
        File { inode, offset: 0, flags }
    }

    pub closed spec fn inode_spec(&self) -> usize {
        self.inode
    }

    pub closed spec fn offset_spec(&self) -> u32 {
        self.offset
    }

    pub closed spec fn flags_spec(&self) -> u32 {
        self.flags
    }

    /// The file's inode.
    pub fn inode(&self) -> (r: usize)
        ensures
            r == self.inode_spec(),
    {
        self.inode
    }

    /// Where the next read starts.
    pub fn offset(&self) -> (r: u32)
        ensures
            r == self.offset_spec(),
    {
        self.offset
    }

    /// The flags the file was opened with.
    pub fn flags(&self) -> (r: u32)
        ensures
            r == self.flags_spec(),
    {
        self.flags
    }

    /// Plans a read of up to `length` bytes from the file's offset, given
    /// the inode's mode and size: a directory is refused; at or past the
    /// end nothing is read (`None`); otherwise the read stops at the end of
    /// the file.
    pub fn read_plan(&self, mode: u16, size: u64, length: usize) -> (r: Result<
        Option<ReadPlan>,
        FileError,
    >)
        requires
            self.offset_spec() + length <= u64::MAX,
            !mode_is_dir(mode) && self.offset_spec() < size ==> {
                let end = (if self.offset_spec() + length < size {
                    self.offset_spec() + length
                } else {
                    size as int
                }) as u32;
                &&& self.offset_spec() <= end
                &&& end + BLOCK_PAYLOAD_SIZE <= u32::MAX
            },
        ensures
            mode_is_dir(mode) ==> r == Err::<Option<ReadPlan>, FileError>(FileError::NotFile),
            !mode_is_dir(mode) && self.offset_spec() >= size ==> r == Ok::<
                Option<ReadPlan>,
                FileError,
            >(None),
            !mode_is_dir(mode) && self.offset_spec() < size ==> {
                let end = (if self.offset_spec() + length < size {
                    self.offset_spec() + length
                } else {
                    size as int
                }) as u32;
                let sb = self.offset_spec() as int / BLOCK_PAYLOAD_SIZE as int;
                r == Ok::<Option<ReadPlan>, FileError>(
                    Some(
                        ReadPlan {
                            end_offset: end,
                            read_len: (end - self.offset_spec()) as usize,
                            start_block: sb as u32,
                            end_block: ((end + BLOCK_PAYLOAD_SIZE - 1) / BLOCK_PAYLOAD_SIZE as int) as u32,
                            clip_start: (self.offset_spec() - sb * BLOCK_PAYLOAD_SIZE) as usize,
                        },
                    ),
                )
            },
    {
        if is_dir(mode) {
            return Err(FileError::NotFile);
        }
        if (self.offset as u64) >= size {
            return Ok(None);
        }
        let payload_size: u32 = 4082;
        assert(payload_size == BLOCK_PAYLOAD_SIZE);
        let want = self.offset as u64 + length as u64;
        let m = if want < size { want } else { size };
        let end_offset = m as u32;
        assert(end_offset == (if self.offset_spec() + length < size {
            self.offset_spec() + length
        } else {
            size as int
        }) as u32);
        assert(end_offset + BLOCK_PAYLOAD_SIZE <= u32::MAX);
        let read_len = (end_offset - self.offset) as usize;
        let start_block = self.offset / payload_size;
        let end_block = (end_offset + payload_size - 1) / payload_size;
        let clip_start = (self.offset - start_block * payload_size) as usize;
        Ok(Some(ReadPlan { end_offset, read_len, start_block, end_block, clip_start }))
    }

    /// Finishes a read: the planned bytes of `buf` (the payloads of the
    /// blocks read, in order), after which the file's offset moves to the
    /// end of the read.
    pub fn finish_read(&mut self, buf: &[u8], plan: &ReadPlan) -> (r: Vec<u8>)
        requires
            plan.clip_start + plan.read_len <= buf@.len(),
        ensures
            r@ == buf@.subrange(plan.clip_start as int, plan.clip_start + plan.read_len),
            final(self).offset_spec() == plan.end_offset,
            final(self).inode_spec() == old(self).inode_spec(),
            final(self).flags_spec() == old(self).flags_spec(),
    {
        let mut r: Vec<u8> = Vec::new();
        let mut k: usize = 0;
        while k < plan.read_len
            invariant
                k <= plan.read_len,
                plan.clip_start + plan.read_len <= buf@.len(),
                r@ == buf@.subrange(plan.clip_start as int, plan.clip_start + k),
            decreases plan.read_len - k,
        {
            assert(plan.clip_start + k < buf.len());
            r.push(buf[plan.clip_start + k]);
            k = k + 1;
            assert(r@ =~= buf@.subrange(plan.clip_start as int, plan.clip_start + k));
        }
        self.offset = plan.end_offset;
        r
    }
}

/// The physical blocks of `extents`, in order, whose logical blocks lie in
/// `[start_block, end_block)`.
pub fn blocks_in_range(extents: &Vec<Extent>, start_block: u32, end_block: u32) -> (r: Vec<u32>)
    requires
        all_fit(extents@),
    ensures
        r@ == blocks_in_range_spec(extents@, start_block as int, end_block as int),
{
    let mut r: Vec<u32> = Vec::new();
    let mut e: usize = 0;
    while e < extents.len()
        invariant
            e <= extents@.len(),
            all_fit(extents@),
            r@ == blocks_in_range_spec(extents@.take(e as int), start_block as int, end_block as int),
        decreases extents@.len() - e,
    {
        let ext = extents[e];
        assert(extent_fits(extents@[e as int]));
        let ghost run = Seq::new(ext.length as nat, |k: int| (ext.physical_start + k) as u32);
        let ghost pred = |b: u32| start_block <= ext.logical_start + (b - ext.physical_start) < end_block;
        let ghost base = r@;
        let mut i: u32 = 0;
        while i < ext.length
            invariant
                i <= ext.length,
                extent_fits(ext),
                run == Seq::new(ext.length as nat, |k: int| (ext.physical_start + k) as u32),
                pred == (|b: u32| start_block <= ext.logical_start + (b - ext.physical_start) < end_block),
                r@ == base + run.take(i as int).filter(pred),
            decreases ext.length - i,
        {
            let block_num = ext.physical_start + i;
            let logical_block = ext.logical_start + i;
            proof {
                reveal(Seq::filter);
                assert(run.take(i + 1).drop_last() =~= run.take(i as int));
                assert(run.take(i + 1).last() == block_num);
            }
            if logical_block >= start_block && logical_block < end_block {
                r.push(block_num);
            }
            i = i + 1;
            assert(r@ =~= base + run.take(i as int).filter(pred));
        }
        assert(run.take(ext.length as int) =~= run);
        assert(extents@.take(e + 1).drop_last() =~= extents@.take(e as int));
        e = e + 1;
    }
    assert(extents@.take(extents@.len() as int) =~= extents@);
    r
}

/// All physical blocks of `extents`, extent after extent.
pub fn extent_block_list(extents: &Vec<Extent>) -> (r: Vec<u32>)
    requires
        all_fit(extents@),
    ensures
        r@.map_values(|b: u32| b as int) == extent_blocks(extents@),
{
    let mut r: Vec<u32> = Vec::new();
    let mut e: usize = 0;
    while e < extents.len()
        invariant
            e <= extents@.len(),
            all_fit(extents@),
            r@.map_values(|b: u32| b as int) == extent_blocks(extents@.take(e as int)),
        decreases extents@.len() - e,
    {
        let ext = extents[e];
        assert(extent_fits(extents@[e as int]));
        let ghost base = r@.map_values(|b: u32| b as int);
        let mut i: u32 = 0;
        while i < ext.length
            invariant
                i <= ext.length,
                extent_fits(ext),
                r@.map_values(|b: u32| b as int) == base + block_run(ext.physical_start as int, i as int),
            decreases ext.length - i,
        {
            let ghost prev = r@;
            r.push(ext.physical_start + i);
            assert(r@.map_values(|b: u32| b as int) =~= prev.map_values(|b: u32| b as int).push(
                ext.physical_start + i,
            ));
            assert(block_run(ext.physical_start as int, i + 1) =~= block_run(ext.physical_start as int, i as int).push(ext.physical_start + i));
            i = i + 1;
        }
        assert(extents@.take(e + 1).drop_last() =~= extents@.take(e as int));
        e = e + 1;
    }
    assert(extents@.take(extents@.len() as int) =~= extents@);
    r
}

/// Block `k` of extent `e` is logical block in `[s, t)`, stored in `p`.
spec fn kth_in_range(e: Extent, k: int, s: int, t: int, p: u32) -> bool {
    0 <= k < e.length && s <= e.logical_start + k < t && e.physical_start + k == p
}

/// Some extent of `exts` maps logical block `l`, in `[s, t)`, to `p`.
pub open spec fn maps_in_range(exts: Seq<Extent>, l: int, p: int, s: int, t: int) -> bool {
    maps_to(exts, l, p) && s <= l < t
}

/// A physical block is among the blocks a read of logical blocks `[s, t)`
/// picks exactly when some extent maps a logical block of that range to it.
pub proof fn law_blocks_in_range_are_mapped(exts: Seq<Extent>, s: int, t: int, p: u32)
    requires
        all_fit(exts),
    ensures
        blocks_in_range_spec(exts, s, t).contains(p) == exists|l: int| #[trigger] maps_in_range(exts, l, p as int, s, t),
    decreases exts.len(),
{
    if exts.len() == 0 {
        assert(!blocks_in_range_spec(exts, s, t).contains(p));
        assert forall|l: int| !#[trigger] maps_in_range(exts, l, p as int, s, t) by {}
    } else {
        let front = exts.drop_last();
        let e = exts.last();
        assert(all_fit(front)) by {
            assert forall|j: int| 0 <= j < front.len() implies #[trigger] extent_fits(front[j]) by {
                assert(front[j] == exts[j]);
            }
        }
        assert(extent_fits(e)) by {
            assert(e == exts[exts.len() - 1]);
        }
        law_blocks_in_range_are_mapped(front, s, t, p);
        let run = Seq::new(e.length as nat, |k: int| (e.physical_start + k) as u32);
        let pred = |b: u32| s <= e.logical_start + (b - e.physical_start) < t;
        let fr = blocks_in_range_spec(front, s, t);
        let rf = run.filter(pred);
        let all = blocks_in_range_spec(exts, s, t);
        assert(all == fr + rf);
        assert(exts == front.push(e));
        // Membership in the last extent's part.
        let in_last = exists|k: int| #[trigger] kth_in_range(e, k, s, t, p);
        assert(rf.contains(p) == in_last) by {
            if rf.contains(p) {
                let i = choose|i: int| 0 <= i < rf.len() && rf[i] == p;
                run.lemma_filter_pred(pred, i);
                run.lemma_filter_contains_rev(pred, p);
                let k = choose|k: int| 0 <= k < run.len() && run[k] == p;
                assert(pred(rf[i]));
                assert(e.physical_start + k <= u32::MAX);
                assert(run[k] as int == e.physical_start + k);
                assert(kth_in_range(e, k, s, t, p));
            }
            if in_last {
                let k = choose|k: int| #[trigger] kth_in_range(e, k, s, t, p);
                assert(run[k] == p);
                assert(pred(run[k]));
                run.lemma_filter_contains(pred, k);
            }
        }
        assert(all.contains(p) == (fr.contains(p) || rf.contains(p))) by {
            if all.contains(p) {
                let i = choose|i: int| 0 <= i < all.len() && all[i] == p;
                if i < fr.len() {
                    assert(fr[i] == p);
                } else {
                    assert(rf[i - fr.len()] == p);
                }
            }
            if fr.contains(p) {
                let i = choose|i: int| 0 <= i < fr.len() && fr[i] == p;
                assert(all[i] == p);
            }
            if rf.contains(p) {
                let i = choose|i: int| 0 <= i < rf.len() && rf[i] == p;
                assert(all[fr.len() + i] == p);
            }
        }
        assert forall|l: int| #[trigger] maps_in_range(exts, l, p as int, s, t) == (maps_in_range(front, l, p as int, s, t) || (
            s <= l < t && e.logical_start <= l < e.logical_start + e.length && p == e.physical_start + (l - e.logical_start))) by {
            if maps_to(exts, l, p as int) {
                let j = choose|j: int|
                    0 <= j < exts.len() && #[trigger] exts[j].logical_start <= l < ext_end(exts[j]) && p
                        == exts[j].physical_start + (l - exts[j].logical_start);
                if j < front.len() {
                    assert(front[j] == exts[j]);
                }
            }
            if maps_to(front, l, p as int) {
                let j = choose|j: int|
                    0 <= j < front.len() && #[trigger] front[j].logical_start <= l < ext_end(front[j]) && p
                        == front[j].physical_start + (l - front[j].logical_start);
                assert(exts[j] == front[j]);
            }
            if e.logical_start <= l < e.logical_start + e.length && p == e.physical_start + (l - e.logical_start) {
                assert(exts[exts.len() - 1] == e);
            }
        }
        if in_last {
            let k = choose|k: int| #[trigger] kth_in_range(e, k, s, t, p);
            assert(maps_in_range(exts, e.logical_start + k, p as int, s, t));
        }
        if exists|l: int| #[trigger] maps_in_range(exts, l, p as int, s, t) {
            let l = choose|l: int| #[trigger] maps_in_range(exts, l, p as int, s, t);
            if !maps_in_range(front, l, p as int, s, t) {
                assert(kth_in_range(e, l - e.logical_start, s, t, p));
                assert(in_last);
            } else {
                assert(exists|l: int| #[trigger] maps_in_range(front, l, p as int, s, t));
            }
            assert(all.contains(p));
        }
        if exists|l: int| #[trigger] maps_in_range(front, l, p as int, s, t) {
            let l = choose|l: int| #[trigger] maps_in_range(front, l, p as int, s, t);
            assert(maps_in_range(exts, l, p as int, s, t));
        }
        if all.contains(p) {
            if fr.contains(p) {
                let l = choose|l: int| #[trigger] maps_in_range(front, l, p as int, s, t);
                assert(maps_in_range(exts, l, p as int, s, t));
            } else {
                assert(in_last);
                let k = choose|k: int| #[trigger] kth_in_range(e, k, s, t, p);
                assert(maps_in_range(exts, e.logical_start + k, p as int, s, t));
            }
        }
    }
}

} // verus!
