use vstd::prelude::*;
use vstd::bytes::*;
use vstd::slice::slice_subrange;
use crate::block::{append_bytes, le_u16_at, le_u32_at, le_u64_at, push_zeros, zeros};
use crate::constants::{ENTRY_SIZE, INODE_SIZE, ROOT_MAX_ENTRIES, TREE_MAGIC};
use crate::extent_tree::ExtentTreeNode;
use crate::file_errors::FileError;

verus! {

broadcast use vstd::seq_lib::group_seq_properties;

/// An on-disk inode: ownership, size, times, and the root of the file's
/// extent tree.
pub struct Inode {
    pub i_mode: u16,
    pub i_uid: u16,
    pub i_size: u64,
    pub i_atime: u64,
    pub i_ctime: u64,
    pub i_mtime: u64,
    pub i_dtime: u64,
    pub i_gid: u16,
    pub i_links_count: u16,
    pub i_blocks: u64,
    pub i_flags: u32,
    pub i_extents: ExtentTreeNode,
    pub i_generation: u32,
    pub i_reserved: [u8; 4],
}

/// The bytes of root entry slot `k`: the entry when there is one, else zeros.
pub open spec fn root_slot_bytes(es: Seq<[u8; ENTRY_SIZE]>, k: int) -> Seq<u8> {
    if k < es.len() {
        es[k]@
    } else {
        zeros(12)
    }
}

/// The first `n` root entry slots, one after the other.
pub open spec fn root_slots(es: Seq<[u8; ENTRY_SIZE]>, n: int) -> Seq<u8>
    decreases n,
{
    if n <= 0 {
        Seq::empty()
    } else {
        root_slots(es, n - 1) + root_slot_bytes(es, n - 1)
    }
}

/// The 256 bytes an inode is stored as. The root of the extent tree always
/// takes its 15 slots; slots beyond its entries are zero.
pub open spec fn inode_bytes(n: &Inode) -> Seq<u8> {
    spec_u16_to_le_bytes(n.i_mode) + spec_u16_to_le_bytes(n.i_uid) + spec_u64_to_le_bytes(n.i_size)
        + spec_u64_to_le_bytes(n.i_atime) + spec_u64_to_le_bytes(n.i_ctime) + spec_u64_to_le_bytes(
        n.i_mtime,
    ) + spec_u64_to_le_bytes(n.i_dtime) + spec_u16_to_le_bytes(n.i_gid) + spec_u16_to_le_bytes(
        n.i_links_count,
    ) + spec_u64_to_le_bytes(n.i_blocks) + spec_u32_to_le_bytes(n.i_flags) + spec_u16_to_le_bytes(
        n.i_extents.magic,
    ) + spec_u16_to_le_bytes(n.i_extents.depth) + spec_u16_to_le_bytes(n.i_extents.entry_count)
        + spec_u16_to_le_bytes(n.i_extents.max_entries) + root_slots(
        n.i_extents.entries@,
        ROOT_MAX_ENTRIES as int,
    ) + spec_u32_to_le_bytes(n.i_generation) + n.i_reserved@
}

/// The stored inode's tree root has the right magic number and at most as
/// many entries as its capacity and as the inode holds.
pub open spec fn inode_header_ok(b: Seq<u8>) -> bool {
    &&& le_u16_at(b, 60) == TREE_MAGIC
    &&& le_u16_at(b, 64) <= le_u16_at(b, 66)
    &&& le_u16_at(b, 64) <= ROOT_MAX_ENTRIES
}

/// `n` is the inode stored in `b`.
pub open spec fn is_stored_inode(b: Seq<u8>, n: &Inode) -> bool {
    &&& n.i_mode == le_u16_at(b, 0)
    &&& n.i_uid == le_u16_at(b, 2)
    &&& n.i_size == le_u64_at(b, 4)
    &&& n.i_atime == le_u64_at(b, 12)
    &&& n.i_ctime == le_u64_at(b, 20)
    &&& n.i_mtime == le_u64_at(b, 28)
    &&& n.i_dtime == le_u64_at(b, 36)
    &&& n.i_gid == le_u16_at(b, 44)
    &&& n.i_links_count == le_u16_at(b, 46)
    &&& n.i_blocks == le_u64_at(b, 48)
    &&& n.i_flags == le_u32_at(b, 56)
    &&& n.i_extents.magic == le_u16_at(b, 60)
    &&& n.i_extents.depth == le_u16_at(b, 62)
    &&& n.i_extents.entry_count == le_u16_at(b, 64)
    &&& n.i_extents.max_entries == le_u16_at(b, 66)
    &&& n.i_extents.entries@.len() == n.i_extents.entry_count
    &&& forall|k: int|
        0 <= k < n.i_extents.entries@.len() ==> (#[trigger] n.i_extents.entries@[k])@
            == b.subrange(68 + 12 * k, 80 + 12 * k)
    &&& n.i_generation == le_u32_at(b, 248)
    &&& n.i_reserved@ == b.subrange(252, 256)
}

proof fn lemma_root_slots(es: Seq<[u8; ENTRY_SIZE]>, n: int)
    requires
        0 <= n,
    ensures
        root_slots(es, n).len() == 12 * n,
        forall|k: int|
            0 <= k < n ==> #[trigger] root_slots(es, n).subrange(12 * k, 12 * k + 12)
                == root_slot_bytes(es, k),
    decreases n,
{
    if n > 0 {
        lemma_root_slots(es, n - 1);
        let front = root_slots(es, n - 1);
        let all = root_slots(es, n);
        assert forall|k: int| 0 <= k < n implies #[trigger] all.subrange(12 * k, 12 * k + 12)
            == root_slot_bytes(es, k) by {
            if k < n - 1 {
                assert(front.subrange(12 * k, 12 * k + 12) == root_slot_bytes(es, k));
                assert(all.subrange(12 * k, 12 * k + 12) =~= front.subrange(12 * k, 12 * k + 12));
            } else {
                assert(all.subrange(12 * k, 12 * k + 12) =~= root_slot_bytes(es, k));
            }
        }
    }
}

impl Inode {
    /// Reads the inode stored in the first 256 bytes of `buf`. A tree root
    /// with the wrong magic number, or with more entries than its capacity
    /// or than an inode holds, is corruption.
    pub fn deserialise(buf: &[u8]) -> (r: Result<Self, FileError>)
        requires
            INODE_SIZE <= buf@.len(),
        ensures
            match r {
                Ok(n) => inode_header_ok(buf@) && is_stored_inode(buf@, &n),
                Err(e) => !inode_header_ok(buf@) && e == FileError::CorruptedINode,
            },
    {
        let i_mode = u16_from_le_bytes(slice_subrange(buf, 0, 2));
        let i_uid = u16_from_le_bytes(slice_subrange(buf, 2, 4));
        let i_size = u64_from_le_bytes(slice_subrange(buf, 4, 12));
        let i_atime = u64_from_le_bytes(slice_subrange(buf, 12, 20));
        let i_ctime = u64_from_le_bytes(slice_subrange(buf, 20, 28));
        let i_mtime = u64_from_le_bytes(slice_subrange(buf, 28, 36));
        let i_dtime = u64_from_le_bytes(slice_subrange(buf, 36, 44));
        let i_gid = u16_from_le_bytes(slice_subrange(buf, 44, 46));
        let i_links_count = u16_from_le_bytes(slice_subrange(buf, 46, 48));
        let i_blocks = u64_from_le_bytes(slice_subrange(buf, 48, 56));
        let i_flags = u32_from_le_bytes(slice_subrange(buf, 56, 60));
        let magic = u16_from_le_bytes(slice_subrange(buf, 60, 62));
        if magic != TREE_MAGIC {
            return Err(FileError::CorruptedINode);
        }
        let depth = u16_from_le_bytes(slice_subrange(buf, 62, 64));
        let entry_count = u16_from_le_bytes(slice_subrange(buf, 64, 66));
        let max_entries = u16_from_le_bytes(slice_subrange(buf, 66, 68));
        if entry_count > max_entries || entry_count as usize > ROOT_MAX_ENTRIES {
            return Err(FileError::CorruptedINode);
        }
        let mut entries: Vec<[u8; ENTRY_SIZE]> = Vec::new();
        let mut offset: usize = 68;
        let mut k: usize = 0;
        while k < entry_count as usize
            invariant
                INODE_SIZE <= buf@.len(),
                entry_count <= ROOT_MAX_ENTRIES,
                k <= entry_count,
                offset == 68 + 12 * k,
                entries@.len() == k,
                forall|j: int|
                    0 <= j < k ==> (#[trigger] entries@[j])@ == buf@.subrange(
                        68 + 12 * j,
                        80 + 12 * j,
                    ),
            decreases entry_count - k,
        {
            let e = [
                buf[offset],
                buf[offset + 1],
                buf[offset + 2],
                buf[offset + 3],
                buf[offset + 4],
                buf[offset + 5],
                buf[offset + 6],
                buf[offset + 7],
                buf[offset + 8],
                buf[offset + 9],
                buf[offset + 10],
                buf[offset + 11],
            ];
            assert(e@ =~= buf@.subrange(68 + 12 * k, 80 + 12 * k));
            entries.push(e);
            offset += ENTRY_SIZE;
            k = k + 1;
        }
        let i_extents = ExtentTreeNode { magic, depth, entry_count, max_entries, entries };
        let i_generation = u32_from_le_bytes(slice_subrange(buf, 248, 252));
        let i_reserved = [buf[252], buf[253], buf[254], buf[255]];
        assert(i_reserved@ =~= buf@.subrange(252, 256));
        Ok(
            Self {
                i_mode,
                i_uid,
                i_size,
                i_atime,
                i_ctime,
                i_mtime,
                i_dtime,
                i_gid,
                i_links_count,
                i_blocks,
                i_flags,
                i_extents,
                i_generation,
                i_reserved,
            },
        )
    }

    /// The 256 bytes the inode is stored as.
    pub fn serialise(&self) -> (r: Vec<u8>)
        ensures
            r@ == inode_bytes(self),
            r@.len() == INODE_SIZE,
    {
        proof {
            lemma_auto_spec_u64_to_from_le_bytes();
            lemma_auto_spec_u32_to_from_le_bytes();
            lemma_auto_spec_u16_to_from_le_bytes();
        }
        let mut buf = u16_to_le_bytes(self.i_mode);
        append_bytes(&mut buf, u16_to_le_bytes(self.i_uid));
        append_bytes(&mut buf, u64_to_le_bytes(self.i_size));
        append_bytes(&mut buf, u64_to_le_bytes(self.i_atime));
        append_bytes(&mut buf, u64_to_le_bytes(self.i_ctime));
        append_bytes(&mut buf, u64_to_le_bytes(self.i_mtime));
        append_bytes(&mut buf, u64_to_le_bytes(self.i_dtime));
        append_bytes(&mut buf, u16_to_le_bytes(self.i_gid));
        append_bytes(&mut buf, u16_to_le_bytes(self.i_links_count));
        append_bytes(&mut buf, u64_to_le_bytes(self.i_blocks));
        append_bytes(&mut buf, u32_to_le_bytes(self.i_flags));
        append_bytes(&mut buf, u16_to_le_bytes(self.i_extents.magic));
        append_bytes(&mut buf, u16_to_le_bytes(self.i_extents.depth));
        append_bytes(&mut buf, u16_to_le_bytes(self.i_extents.entry_count));
        append_bytes(&mut buf, u16_to_le_bytes(self.i_extents.max_entries));
        let ghost head = buf@;
        assert(head.len() == 68);
        let mut i: usize = 0;
        while i < ROOT_MAX_ENTRIES
            invariant
                i <= ROOT_MAX_ENTRIES,
                head.len() == 68,
                buf@ == head + root_slots(self.i_extents.entries@, i as int),
            decreases ROOT_MAX_ENTRIES - i,
        {
            proof {
                lemma_root_slots(self.i_extents.entries@, i as int);
            }
            if i < self.i_extents.entries.len() {
                let mut e: Vec<u8> = Vec::new();
                let mut k: usize = 0;
                while k < ENTRY_SIZE
                    invariant
                        k <= ENTRY_SIZE,
                        i < self.i_extents.entries@.len(),
                        e@ == self.i_extents.entries@[i as int]@.take(k as int),
                    decreases ENTRY_SIZE - k,
                {
                    e.push(self.i_extents.entries[i][k]);
                    k = k + 1;
                    assert(e@ =~= self.i_extents.entries@[i as int]@.take(k as int));
                }
                assert(self.i_extents.entries@[i as int]@.take(12) =~= self.i_extents.entries@[i as int]@);
                append_bytes(&mut buf, e);
            } else {
                push_zeros(&mut buf, ENTRY_SIZE);
            }
            i = i + 1;
            assert(buf@ =~= head + root_slots(self.i_extents.entries@, i as int));
        }
        proof {
            lemma_root_slots(self.i_extents.entries@, ROOT_MAX_ENTRIES as int);
        }
        append_bytes(&mut buf, u32_to_le_bytes(self.i_generation));
        let mut reserved: Vec<u8> = Vec::new();
        reserved.push(self.i_reserved[0]);
        reserved.push(self.i_reserved[1]);
        reserved.push(self.i_reserved[2]);
        reserved.push(self.i_reserved[3]);
        assert(reserved@ =~= self.i_reserved@);
        append_bytes(&mut buf, reserved);
        assert(buf@ =~= inode_bytes(self));
        buf
    }
}

/// Reading back a stored inode gives the inode, when its tree root has the
/// right magic number and holds as many entries as it counts, no more than
/// its capacity and no more than an inode holds.
pub proof fn law_inode_round_trip(n: &Inode)
    requires
        n.i_extents.magic == TREE_MAGIC,
        n.i_extents.entries@.len() == n.i_extents.entry_count,
        n.i_extents.entry_count <= n.i_extents.max_entries,
        n.i_extents.entry_count <= ROOT_MAX_ENTRIES,
    ensures
        inode_bytes(n).len() == INODE_SIZE,
        inode_header_ok(inode_bytes(n)),
        is_stored_inode(inode_bytes(n), n),
{
    lemma_auto_spec_u64_to_from_le_bytes();
    lemma_auto_spec_u32_to_from_le_bytes();
    lemma_auto_spec_u16_to_from_le_bytes();
    lemma_root_slots(n.i_extents.entries@, ROOT_MAX_ENTRIES as int);
    let b = inode_bytes(n);
    assert(b.subrange(0, 2) =~= spec_u16_to_le_bytes(n.i_mode));
    assert(b.subrange(2, 4) =~= spec_u16_to_le_bytes(n.i_uid));
    assert(b.subrange(4, 12) =~= spec_u64_to_le_bytes(n.i_size));
    assert(b.subrange(12, 20) =~= spec_u64_to_le_bytes(n.i_atime));
    assert(b.subrange(20, 28) =~= spec_u64_to_le_bytes(n.i_ctime));
    assert(b.subrange(28, 36) =~= spec_u64_to_le_bytes(n.i_mtime));
    assert(b.subrange(36, 44) =~= spec_u64_to_le_bytes(n.i_dtime));
    assert(b.subrange(44, 46) =~= spec_u16_to_le_bytes(n.i_gid));
    assert(b.subrange(46, 48) =~= spec_u16_to_le_bytes(n.i_links_count));
    assert(b.subrange(48, 56) =~= spec_u64_to_le_bytes(n.i_blocks));
    assert(b.subrange(56, 60) =~= spec_u32_to_le_bytes(n.i_flags));
    assert(b.subrange(60, 62) =~= spec_u16_to_le_bytes(n.i_extents.magic));
    assert(b.subrange(62, 64) =~= spec_u16_to_le_bytes(n.i_extents.depth));
    assert(b.subrange(64, 66) =~= spec_u16_to_le_bytes(n.i_extents.entry_count));
    assert(b.subrange(66, 68) =~= spec_u16_to_le_bytes(n.i_extents.max_entries));
    let slots = root_slots(n.i_extents.entries@, ROOT_MAX_ENTRIES as int);
    assert(b.subrange(68, 248) =~= slots);
    assert forall|k: int| 0 <= k < n.i_extents.entries@.len() implies (
    #[trigger] n.i_extents.entries@[k])@ == b.subrange(68 + 12 * k, 80 + 12 * k) by {
        assert(slots.subrange(12 * k, 12 * k + 12) == root_slot_bytes(n.i_extents.entries@, k));
        assert(b.subrange(68 + 12 * k, 80 + 12 * k) =~= slots.subrange(12 * k, 12 * k + 12));
    }
    assert(b.subrange(248, 252) =~= spec_u32_to_le_bytes(n.i_generation));
    assert(b.subrange(252, 256) =~= n.i_reserved@);
}

/// Byte `k` of two sequences that agree on `[o, o + w)`, for `k` in it.
proof fn lemma_byte_of_range(x: Seq<u8>, y: Seq<u8>, o: int, w: int, k: int)
    requires
        0 <= o <= k < o + w <= x.len(),
        o + w <= y.len(),
        x.subrange(o, o + w) == y.subrange(o, o + w),
    ensures
        x[k] == y[k],
{
    assert(x.subrange(o, o + w)[k - o] == x[k]);
    assert(y.subrange(o, o + w)[k - o] == y[k]);
    assert(x.subrange(o, o + w)[k - o] == y.subrange(o, o + w)[k - o]);
}

/// The root entry slot that byte `j` of the slot area lies in.
proof fn lemma_slot_of(j: int)
    requires
        68 <= j,
    ensures
        0 <= (j - 68) / 12,
        68 + 12 * ((j - 68) / 12) <= j < 80 + 12 * ((j - 68) / 12),
{
    let x = j - 68;
    assert(x == 12 * (x / 12) + x % 12 && 0 <= x % 12 < 12) by (nonlinear_arith)
        requires
            0 <= x,
    ;
}

/// Reading an inode looks only at its fields, at the slots of the entries
/// its tree root counts, and at its last eight bytes: two buffers that
/// agree there read back alike, whatever the unused slots hold.
pub proof fn law_inode_reads_only_used_bytes(b1: Seq<u8>, b2: Seq<u8>, n: &Inode)
    requires
        INODE_SIZE <= b1.len(),
        INODE_SIZE <= b2.len(),
        le_u16_at(b1, 64) <= ROOT_MAX_ENTRIES,
        forall|k: int| 0 <= k < 68 + 12 * le_u16_at(b1, 64) ==> b1[k] == b2[k],
        forall|k: int| 248 <= k < 256 ==> b1[k] == b2[k],
    ensures
        inode_header_ok(b1) == inode_header_ok(b2),
        is_stored_inode(b1, n) == is_stored_inode(b2, n),
{
    let c = le_u16_at(b1, 64);
    assert(b1.subrange(0, 68) =~= b2.subrange(0, 68));
    assert(b1.subrange(248, 256) =~= b2.subrange(248, 256));
    assert(b1.subrange(252, 256) =~= b2.subrange(252, 256));
    assert(b1.subrange(0, 2) =~= b2.subrange(0, 2));
    assert(b1.subrange(2, 4) =~= b2.subrange(2, 4));
    assert(b1.subrange(4, 12) =~= b2.subrange(4, 12));
    assert(b1.subrange(12, 20) =~= b2.subrange(12, 20));
    assert(b1.subrange(20, 28) =~= b2.subrange(20, 28));
    assert(b1.subrange(28, 36) =~= b2.subrange(28, 36));
    assert(b1.subrange(36, 44) =~= b2.subrange(36, 44));
    assert(b1.subrange(44, 46) =~= b2.subrange(44, 46));
    assert(b1.subrange(46, 48) =~= b2.subrange(46, 48));
    assert(b1.subrange(48, 56) =~= b2.subrange(48, 56));
    assert(b1.subrange(56, 60) =~= b2.subrange(56, 60));
    assert(b1.subrange(60, 62) =~= b2.subrange(60, 62));
    assert(b1.subrange(62, 64) =~= b2.subrange(62, 64));
    assert(b1.subrange(64, 66) =~= b2.subrange(64, 66));
    assert(b1.subrange(66, 68) =~= b2.subrange(66, 68));
    assert(b1.subrange(248, 252) =~= b2.subrange(248, 252));
    assert forall|k: int| 0 <= k < c implies #[trigger] b1.subrange(68 + 12 * k, 80 + 12 * k) == b2.subrange(
        68 + 12 * k,
        80 + 12 * k,
    ) by {
        assert(b1.subrange(68 + 12 * k, 80 + 12 * k) =~= b2.subrange(68 + 12 * k, 80 + 12 * k));
    }
}

/// Storing an inode read from `b` gives back the bytes it was read from:
/// its fields, the slots of its counted entries and its last eight bytes;
/// the unused slots of its tree root come back zeroed.
pub proof fn law_inode_stores_what_was_read(b: Seq<u8>, n: &Inode)
    requires
        INODE_SIZE <= b.len(),
        inode_header_ok(b),
        is_stored_inode(b, n),
    ensures
        inode_bytes(n).len() == INODE_SIZE,
        forall|k: int| 0 <= k < 68 + 12 * n.i_extents.entry_count ==> inode_bytes(n)[k] == b[k],
        forall|k: int| 68 + 12 * n.i_extents.entry_count <= k < 248 ==> inode_bytes(n)[k] == 0,
        forall|k: int| 248 <= k < 256 ==> inode_bytes(n)[k] == b[k],
{
    lemma_auto_spec_u64_to_from_le_bytes();
    lemma_auto_spec_u32_to_from_le_bytes();
    lemma_auto_spec_u16_to_from_le_bytes();
    let es = n.i_extents.entries@;
    let c = n.i_extents.entry_count as int;
    lemma_root_slots(es, ROOT_MAX_ENTRIES as int);
    let ib = inode_bytes(n);
    assert(ib.subrange(0, 2) =~= spec_u16_to_le_bytes(n.i_mode));
    assert(ib.subrange(0, 2) == b.subrange(0, 2));
    assert(ib.subrange(2, 4) =~= spec_u16_to_le_bytes(n.i_uid));
    assert(ib.subrange(2, 4) == b.subrange(2, 4));
    assert(ib.subrange(4, 12) =~= spec_u64_to_le_bytes(n.i_size));
    assert(ib.subrange(4, 12) == b.subrange(4, 12));
    assert(ib.subrange(12, 20) =~= spec_u64_to_le_bytes(n.i_atime));
    assert(ib.subrange(12, 20) == b.subrange(12, 20));
    assert(ib.subrange(20, 28) =~= spec_u64_to_le_bytes(n.i_ctime));
    assert(ib.subrange(20, 28) == b.subrange(20, 28));
    assert(ib.subrange(28, 36) =~= spec_u64_to_le_bytes(n.i_mtime));
    assert(ib.subrange(28, 36) == b.subrange(28, 36));
    assert(ib.subrange(36, 44) =~= spec_u64_to_le_bytes(n.i_dtime));
    assert(ib.subrange(36, 44) == b.subrange(36, 44));
    assert(ib.subrange(44, 46) =~= spec_u16_to_le_bytes(n.i_gid));
    assert(ib.subrange(44, 46) == b.subrange(44, 46));
    assert(ib.subrange(46, 48) =~= spec_u16_to_le_bytes(n.i_links_count));
    assert(ib.subrange(46, 48) == b.subrange(46, 48));
    assert(ib.subrange(48, 56) =~= spec_u64_to_le_bytes(n.i_blocks));
    assert(ib.subrange(48, 56) == b.subrange(48, 56));
    assert(ib.subrange(56, 60) =~= spec_u32_to_le_bytes(n.i_flags));
    assert(ib.subrange(56, 60) == b.subrange(56, 60));
    assert(ib.subrange(60, 62) =~= spec_u16_to_le_bytes(n.i_extents.magic));
    assert(ib.subrange(60, 62) == b.subrange(60, 62));
    assert(ib.subrange(62, 64) =~= spec_u16_to_le_bytes(n.i_extents.depth));
    assert(ib.subrange(62, 64) == b.subrange(62, 64));
    assert(ib.subrange(64, 66) =~= spec_u16_to_le_bytes(n.i_extents.entry_count));
    assert(ib.subrange(64, 66) == b.subrange(64, 66));
    assert(ib.subrange(66, 68) =~= spec_u16_to_le_bytes(n.i_extents.max_entries));
    assert(ib.subrange(66, 68) == b.subrange(66, 68));
    let slots = root_slots(es, ROOT_MAX_ENTRIES as int);
    assert(ib.subrange(68, 248) =~= slots);
    assert(ib.subrange(248, 252) =~= spec_u32_to_le_bytes(n.i_generation));
    assert(ib.subrange(248, 252) == b.subrange(248, 252));
    assert(ib.subrange(252, 256) =~= n.i_reserved@);
    assert forall|j: int| 0 <= j < 68 implies ib[j] == b[j] by {
        if j < 2 {
            lemma_byte_of_range(ib, b, 0, 2, j);
        } else if j < 4 {
            lemma_byte_of_range(ib, b, 2, 2, j);
        } else if j < 12 {
            lemma_byte_of_range(ib, b, 4, 8, j);
        } else if j < 20 {
            lemma_byte_of_range(ib, b, 12, 8, j);
        } else if j < 28 {
            lemma_byte_of_range(ib, b, 20, 8, j);
        } else if j < 36 {
            lemma_byte_of_range(ib, b, 28, 8, j);
        } else if j < 44 {
            lemma_byte_of_range(ib, b, 36, 8, j);
        } else if j < 46 {
            lemma_byte_of_range(ib, b, 44, 2, j);
        } else if j < 48 {
            lemma_byte_of_range(ib, b, 46, 2, j);
        } else if j < 56 {
            lemma_byte_of_range(ib, b, 48, 8, j);
        } else if j < 60 {
            lemma_byte_of_range(ib, b, 56, 4, j);
        } else if j < 62 {
            lemma_byte_of_range(ib, b, 60, 2, j);
        } else if j < 64 {
            lemma_byte_of_range(ib, b, 62, 2, j);
        } else if j < 66 {
            lemma_byte_of_range(ib, b, 64, 2, j);
        } else if j < 68 {
            lemma_byte_of_range(ib, b, 66, 2, j);
        }
    }
    assert forall|j: int| 68 <= j < 248 implies ib[j] == (if j < 68 + 12 * c { b[j] } else { 0u8 }) by {
        lemma_slot_of(j);
        let k = (j - 68) / 12;
        assert(k < 15);
        assert(slots.subrange(12 * k, 12 * k + 12) == root_slot_bytes(es, k));
        assert(ib.subrange(68 + 12 * k, 80 + 12 * k) =~= slots.subrange(12 * k, 12 * k + 12));
        assert(ib[j] == ib.subrange(68 + 12 * k, 80 + 12 * k)[j - 68 - 12 * k]);
        if k < c {
            assert(es[k]@ == b.subrange(68 + 12 * k, 80 + 12 * k));
            assert(b[j] == b.subrange(68 + 12 * k, 80 + 12 * k)[j - 68 - 12 * k]);
        } else {
            assert(12 * c <= 12 * k);
        }
    }
    assert forall|j: int| 248 <= j < 256 implies ib[j] == b[j] by {
        if j < 252 {
            lemma_byte_of_range(ib, b, 248, 4, j);
        } else {
            assert(ib.subrange(252, 256)[j - 252] == b.subrange(252, 256)[j - 252]);
        }
    }
}

} // verus!
