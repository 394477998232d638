use vstd::prelude::*;
use vstd::bytes::*;
use vstd::slice::slice_subrange;
use crate::constants::{BLOCK_HEADER_SIZE, BLOCK_SIZE, MAGIC};
use crate::file_errors::FileError;

verus! {

broadcast use vstd::seq_lib::group_seq_properties;

/// The state recorded in a block's header.
#[derive(Clone, Copy, Debug, PartialEq, Eq, Structural)]
pub enum Flag {
    Clean,
    Dirty,
    Recoverable,
    Irrecoverable,
}

/// The header at the start of every block: log sequence number, checksum and flag.
#[derive(Clone, Copy, Debug, PartialEq, Eq, Structural)]
pub struct BlockHeader {
    pub lsn: u64,
    pub checksum: u32,
    pub flag: Flag,
}

/// The number a flag is stored as.
pub open spec fn flag_code(f: Flag) -> u16 {
    match f {
        Flag::Clean => 0,
        Flag::Dirty => 1,
        Flag::Recoverable => 2,
        Flag::Irrecoverable => 3,
    }
}

/// The flag a stored number stands for, if any.
pub open spec fn flag_of_code(c: u16) -> Option<Flag> {
    if c == 0 {
        Some(Flag::Clean)
    } else if c == 1 {
        Some(Flag::Dirty)
    } else if c == 2 {
        Some(Flag::Recoverable)
    } else if c == 3 {
        Some(Flag::Irrecoverable)
    } else {
        None
    }
}

/// The little-endian `u16` stored at `off`.
pub open spec fn le_u16_at(b: Seq<u8>, off: int) -> u16 {
    spec_u16_from_le_bytes(b.subrange(off, off + 2))
}

/// The little-endian `u32` stored at `off`.
pub open spec fn le_u32_at(b: Seq<u8>, off: int) -> u32 {
    spec_u32_from_le_bytes(b.subrange(off, off + 4))
}

/// The little-endian `u64` stored at `off`.
pub open spec fn le_u64_at(b: Seq<u8>, off: int) -> u64 {
    spec_u64_from_le_bytes(b.subrange(off, off + 8))
}

/// The 14 bytes a block header is stored as.
pub open spec fn header_bytes(h: BlockHeader) -> Seq<u8> {
    spec_u64_to_le_bytes(h.lsn) + spec_u32_to_le_bytes(h.checksum) + spec_u16_to_le_bytes(
        flag_code(h.flag),
    )
}

/// The header stored at the start of `b`; a flag number above 3 is corruption.
pub open spec fn parse_header(b: Seq<u8>) -> Result<BlockHeader, FileError> {
    match flag_of_code(le_u16_at(b, 12)) {
        Some(flag) => Ok(BlockHeader { lsn: le_u64_at(b, 0), checksum: le_u32_at(b, 8), flag }),
        None => Err(FileError::CorruptedBlock),
    }
}

/// Overwrites `dst[at .. at + src.len()]` with `src`.
pub fn write_bytes(dst: &mut Vec<u8>, at: usize, src: &[u8])
    requires
        at + src@.len() <= old(dst)@.len(),
    ensures
        final(dst)@ == old(dst)@.subrange(0, at as int) + src@ + old(dst)@.subrange(
            at + src@.len(),
            old(dst)@.len() as int,
        ),
{
    let mut k: usize = 0;
    while k < src.len()
        invariant
            at + src@.len() <= old(dst)@.len(),
            k <= src@.len(),
            dst@.len() == old(dst)@.len(),
            dst@ == old(dst)@.subrange(0, at as int) + src@.subrange(0, k as int) + old(
                dst,
            )@.subrange(at + k, old(dst)@.len() as int),
        decreases src@.len() - k,
    {
        assert(at + k < dst.len());
        dst[at + k] = src[k];
        k = k + 1;
        assert(dst@ =~= old(dst)@.subrange(0, at as int) + src@.subrange(0, k as int) + old(
            dst,
        )@.subrange(at + k, old(dst)@.len() as int));
    }
    assert(src@.subrange(0, src@.len() as int) =~= src@);
}

impl BlockHeader {
    /// Reads the header stored in the first 14 bytes of `block`.
    pub fn deserialise(block: &[u8]) -> (r: Result<Self, FileError>)
        requires
            BLOCK_HEADER_SIZE <= block@.len(),
        ensures
            r == parse_header(block@),
    {
        let lsn = u64_from_le_bytes(slice_subrange(block, 0, 8));
        let checksum = u32_from_le_bytes(slice_subrange(block, 8, 12));
        let flag = match u16_from_le_bytes(slice_subrange(block, 12, 14)) {
            0 => Flag::Clean,
            1 => Flag::Dirty,
            2 => Flag::Recoverable,
            3 => Flag::Irrecoverable,
            _ => return Err(FileError::CorruptedBlock),
        };
        Ok(Self { lsn, checksum, flag })
    }

    /// The 14 bytes the header is stored as.
    pub fn serialise(&self) -> (r: Vec<u8>)
        ensures
            r@ == header_bytes(*self),
            r@.len() == BLOCK_HEADER_SIZE,
    {
        let mut buf = u64_to_le_bytes(self.lsn);
        let mut checksum_bytes = u32_to_le_bytes(self.checksum);
        let flag: u16 = match self.flag {
            Flag::Clean => 0,
            Flag::Dirty => 1,
            Flag::Recoverable => 2,
            Flag::Irrecoverable => 3,
        };
        let mut flag_bytes = u16_to_le_bytes(flag);
        buf.append(&mut checksum_bytes);
        buf.append(&mut flag_bytes);
        buf
    }
}

/// Reading back a stored header, whatever bytes follow it, gives the header.
pub proof fn law_header_round_trip(h: BlockHeader, rest: Seq<u8>)
    ensures
        header_bytes(h).len() == BLOCK_HEADER_SIZE,
        parse_header(header_bytes(h) + rest) == Ok::<BlockHeader, FileError>(h),
{
    lemma_auto_spec_u64_to_from_le_bytes();
    lemma_auto_spec_u32_to_from_le_bytes();
    lemma_auto_spec_u16_to_from_le_bytes();
    let b = header_bytes(h) + rest;
    assert(b.subrange(0, 8) =~= spec_u64_to_le_bytes(h.lsn));
    assert(b.subrange(8, 12) =~= spec_u32_to_le_bytes(h.checksum));
    assert(b.subrange(12, 14) =~= spec_u16_to_le_bytes(flag_code(h.flag)));
}

/// The superblock: the file system's geometry and counters, stored in block 0.
#[derive(Clone, Copy, Debug, PartialEq, Eq, Structural)]
pub struct SuperBlock {
    pub header: BlockHeader,
    pub magic: u32,
    pub version: u32,
    pub total_size: u32,
    pub block_size: u16,
    pub inode_size: u16,
    pub block_count: u32,
    pub inode_count: u32,
    pub free_blocks: u32,
    pub free_inodes: u32,
    pub inode_bitmap_start: u16,
    pub block_bitmap_start: u16,
    pub inode_map_start: u16,
    pub data_start: u16,
    pub state: u8,
    pub root_inode: u32,
}

/// Bytes of block 0 that the superblock's fields take.
pub const SUPERBLOCK_BYTES: usize = 59;

/// The bytes the superblock's fields are stored as, in order.
pub open spec fn superblock_bytes(sb: SuperBlock) -> Seq<u8> {
    header_bytes(sb.header) + spec_u32_to_le_bytes(sb.magic) + spec_u32_to_le_bytes(sb.version)
        + spec_u32_to_le_bytes(sb.total_size) + spec_u16_to_le_bytes(sb.block_size)
        + spec_u16_to_le_bytes(sb.inode_size) + spec_u32_to_le_bytes(sb.block_count)
        + spec_u32_to_le_bytes(sb.inode_count) + spec_u32_to_le_bytes(sb.free_blocks)
        + spec_u32_to_le_bytes(sb.free_inodes) + spec_u16_to_le_bytes(sb.inode_bitmap_start)
        + spec_u16_to_le_bytes(sb.block_bitmap_start) + spec_u16_to_le_bytes(sb.inode_map_start)
        + spec_u16_to_le_bytes(sb.data_start) + seq![sb.state] + spec_u32_to_le_bytes(
        sb.root_inode,
    )
}

/// The superblock stored at the start of `b`: a corrupt header, or a magic
/// number other than `MAGIC`, is corruption.
pub open spec fn parse_superblock(b: Seq<u8>) -> Result<SuperBlock, FileError> {
    match parse_header(b) {
        Err(e) => Err(e),
        Ok(header) => if le_u32_at(b, 14) != MAGIC {
            Err(FileError::CorruptedBlock)
        } else {
            Ok(
                SuperBlock {
                    header,
                    magic: le_u32_at(b, 14),
                    version: le_u32_at(b, 18),
                    total_size: le_u32_at(b, 22),
                    block_size: le_u16_at(b, 26),
                    inode_size: le_u16_at(b, 28),
                    block_count: le_u32_at(b, 30),
                    inode_count: le_u32_at(b, 34),
                    free_blocks: le_u32_at(b, 38),
                    free_inodes: le_u32_at(b, 42),
                    inode_bitmap_start: le_u16_at(b, 46),
                    block_bitmap_start: le_u16_at(b, 48),
                    inode_map_start: le_u16_at(b, 50),
                    data_start: le_u16_at(b, 52),
                    state: b[54],
                    root_inode: le_u32_at(b, 55),
                },
            )
        },
    }
}

/// `n` zero bytes.
pub open spec fn zeros(n: int) -> Seq<u8> {
    Seq::new(n as nat, |i: int| 0u8)
}

/// Appends `n` zero bytes.
pub fn push_zeros(buf: &mut Vec<u8>, n: usize)
    requires
        old(buf)@.len() + n <= usize::MAX,
    ensures
        final(buf)@ == old(buf)@ + zeros(n as int),
{
    let mut k: usize = 0;
    while k < n
        invariant
            k <= n,
            old(buf)@.len() + n <= usize::MAX,
            buf@ == old(buf)@ + zeros(k as int),
        decreases n - k,
    {
        buf.push(0u8);
        k = k + 1;
        assert(buf@ =~= old(buf)@ + zeros(k as int));
    }
}

/// Appends `src` to `buf`.
pub fn append_bytes(buf: &mut Vec<u8>, src: Vec<u8>)
    ensures
        final(buf)@ == old(buf)@ + src@,
{
    let mut src = src;
    buf.append(&mut src);
}

impl SuperBlock {
    /// Reads the superblock from the bytes of block 0.
    pub fn deserialise(block: &[u8]) -> (r: Result<Self, FileError>)
        requires
            SUPERBLOCK_BYTES <= block@.len(),
        ensures
            r == parse_superblock(block@),
    {
        let header = BlockHeader::deserialise(block)?;
        let magic = u32_from_le_bytes(slice_subrange(block, 14, 18));
        if magic != MAGIC {
            return Err(FileError::CorruptedBlock);
        }
        let version = u32_from_le_bytes(slice_subrange(block, 18, 22));
        let total_size = u32_from_le_bytes(slice_subrange(block, 22, 26));
        let block_size = u16_from_le_bytes(slice_subrange(block, 26, 28));
        let inode_size = u16_from_le_bytes(slice_subrange(block, 28, 30));
        let block_count = u32_from_le_bytes(slice_subrange(block, 30, 34));
        let inode_count = u32_from_le_bytes(slice_subrange(block, 34, 38));
        let free_blocks = u32_from_le_bytes(slice_subrange(block, 38, 42));
        let free_inodes = u32_from_le_bytes(slice_subrange(block, 42, 46));
        let inode_bitmap_start = u16_from_le_bytes(slice_subrange(block, 46, 48));
        let block_bitmap_start = u16_from_le_bytes(slice_subrange(block, 48, 50));
        let inode_map_start = u16_from_le_bytes(slice_subrange(block, 50, 52));
        let data_start = u16_from_le_bytes(slice_subrange(block, 52, 54));
        let state = block[54];
        let root_inode = u32_from_le_bytes(slice_subrange(block, 55, 59));
        Ok(
            Self {
                header,
                magic,
                version,
                total_size,
                block_size,
                inode_size,
                block_count,
                inode_count,
                free_blocks,
                free_inodes,
                inode_bitmap_start,
                block_bitmap_start,
                inode_map_start,
                data_start,
                state,
                root_inode,
            },
        )
    }

    /// The whole block 0: the superblock's fields followed by zeros.
    pub fn serialise(&self) -> (r: Vec<u8>)
        ensures
            r@ == superblock_bytes(*self) + zeros(BLOCK_SIZE - SUPERBLOCK_BYTES),
            r@.len() == BLOCK_SIZE,
    {
        proof {
            lemma_auto_spec_u64_to_from_le_bytes();
            lemma_auto_spec_u32_to_from_le_bytes();
            lemma_auto_spec_u16_to_from_le_bytes();
        }
        let mut block = self.header.serialise();
        append_bytes(&mut block, u32_to_le_bytes(self.magic));
        append_bytes(&mut block, u32_to_le_bytes(self.version));
        append_bytes(&mut block, u32_to_le_bytes(self.total_size));
        append_bytes(&mut block, u16_to_le_bytes(self.block_size));
        append_bytes(&mut block, u16_to_le_bytes(self.inode_size));
        append_bytes(&mut block, u32_to_le_bytes(self.block_count));
        append_bytes(&mut block, u32_to_le_bytes(self.inode_count));
        append_bytes(&mut block, u32_to_le_bytes(self.free_blocks));
        append_bytes(&mut block, u32_to_le_bytes(self.free_inodes));
        append_bytes(&mut block, u16_to_le_bytes(self.inode_bitmap_start));
        append_bytes(&mut block, u16_to_le_bytes(self.block_bitmap_start));
        append_bytes(&mut block, u16_to_le_bytes(self.inode_map_start));
        append_bytes(&mut block, u16_to_le_bytes(self.data_start));
        block.push(self.state);
        append_bytes(&mut block, u32_to_le_bytes(self.root_inode));
        assert(block@ =~= superblock_bytes(*self));
        push_zeros(&mut block, BLOCK_SIZE - SUPERBLOCK_BYTES);
        block
    }
}

/// Reading back a stored superblock gives the superblock, when its magic
/// number is `MAGIC`.
pub proof fn law_superblock_round_trip(sb: SuperBlock, rest: Seq<u8>)
    requires
        sb.magic == MAGIC,
    ensures
        superblock_bytes(sb).len() == SUPERBLOCK_BYTES,
        parse_superblock(superblock_bytes(sb) + rest) == Ok::<SuperBlock, FileError>(sb),
{
    lemma_auto_spec_u64_to_from_le_bytes();
    lemma_auto_spec_u32_to_from_le_bytes();
    lemma_auto_spec_u16_to_from_le_bytes();
    let b = superblock_bytes(sb) + rest;
    law_header_round_trip(sb.header, b.subrange(14, b.len() as int));
    assert(b =~= header_bytes(sb.header) + b.subrange(14, b.len() as int));
    assert(b.subrange(14, 18) =~= spec_u32_to_le_bytes(sb.magic));
    assert(b.subrange(18, 22) =~= spec_u32_to_le_bytes(sb.version));
    assert(b.subrange(22, 26) =~= spec_u32_to_le_bytes(sb.total_size));
    assert(b.subrange(26, 28) =~= spec_u16_to_le_bytes(sb.block_size));
    assert(b.subrange(28, 30) =~= spec_u16_to_le_bytes(sb.inode_size));
    assert(b.subrange(30, 34) =~= spec_u32_to_le_bytes(sb.block_count));
    assert(b.subrange(34, 38) =~= spec_u32_to_le_bytes(sb.inode_count));
    assert(b.subrange(38, 42) =~= spec_u32_to_le_bytes(sb.free_blocks));
    assert(b.subrange(42, 46) =~= spec_u32_to_le_bytes(sb.free_inodes));
    assert(b.subrange(46, 48) =~= spec_u16_to_le_bytes(sb.inode_bitmap_start));
    assert(b.subrange(48, 50) =~= spec_u16_to_le_bytes(sb.block_bitmap_start));
    assert(b.subrange(50, 52) =~= spec_u16_to_le_bytes(sb.inode_map_start));
    assert(b.subrange(52, 54) =~= spec_u16_to_le_bytes(sb.data_start));
    assert(b[54] == sb.state);
    assert(b.subrange(55, 59) =~= spec_u32_to_le_bytes(sb.root_inode));
}

/// A block read from the disk: its number, its parsed header and all its bytes.
pub struct Block {
    pub id: usize,
    pub header: BlockHeader,
    pub buf: Vec<u8>,
}

impl Block {
    /// Stamps the block's header into the first 14 bytes of its buffer.
    pub fn serialise(&mut self)
        requires
            BLOCK_HEADER_SIZE <= old(self).buf@.len(),
        ensures
            final(self).id == old(self).id,
            final(self).header == old(self).header,
            final(self).buf@ == header_bytes(old(self).header) + old(self).buf@.subrange(
                BLOCK_HEADER_SIZE as int,
                old(self).buf@.len() as int,
            ),
    {
        let header_bytes = self.header.serialise();
        write_bytes(&mut self.buf, 0, header_bytes.as_slice());
        assert(old(self).buf@.subrange(0, 0) + header_bytes@ =~= header_bytes@);
    }

    /// Builds block `id` from the bytes read for it: block 0 is the
    /// superblock and cannot be read as a block; a corrupt header is refused.
    pub fn deserialise(id: usize, buf: Vec<u8>) -> (r: Result<Self, FileError>)
        requires
            BLOCK_HEADER_SIZE <= buf@.len(),
        ensures
            id == 0 ==> r == Err::<Self, FileError>(FileError::ReadError),
            id != 0 ==> match parse_header(buf@) {
                Ok(h) => r matches Ok(b) && b.id == id && b.header == h && b.buf@ == buf@,
                Err(e) => r == Err::<Self, FileError>(e),
            },
    {
        if id == 0 {
            return Err(FileError::ReadError);
        }
        let header = BlockHeader::deserialise(buf.as_slice())?;
        Ok(Self { id, header, buf })
    }
}

} // verus!
