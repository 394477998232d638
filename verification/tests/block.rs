use filesystem::block::{Block, BlockHeader, Flag, SuperBlock};
use filesystem::file_errors::FileError;

fn header(lsn: u64, checksum: u32, flag: Flag) -> BlockHeader {
    BlockHeader { lsn, checksum, flag }
}

fn superblock() -> SuperBlock {
    SuperBlock {
        header: header(7, 9, Flag::Dirty),
        magic: 69420,
        version: 1,
        total_size: 52428800,
        block_size: 4096,
        inode_size: 256,
        block_count: 12800,
        inode_count: 10000,
        free_blocks: 12130,
        free_inodes: 9999,
        inode_bitmap_start: 1,
        block_bitmap_start: 2,
        inode_map_start: 3,
        data_start: 670,
        state: 1,
        root_inode: 0,
    }
}

#[test]
fn header_serialise_layout() {
    let bytes = header(0x0102030405060708, 0x0A0B0C0D, Flag::Recoverable).serialise();
    assert_eq!(bytes, vec![8, 7, 6, 5, 4, 3, 2, 1, 0x0D, 0x0C, 0x0B, 0x0A, 2, 0]);
}

#[test]
fn header_round_trip() {
    for flag in [Flag::Clean, Flag::Dirty, Flag::Recoverable, Flag::Irrecoverable] {
        let h = header(42, 77, flag);
        let mut bytes = h.serialise();
        bytes.extend_from_slice(&[0xAA; 10]);
        assert_eq!(BlockHeader::deserialise(&bytes), Ok(h));
    }
}

#[test]
fn header_bad_flag_is_corrupted() {
    let mut bytes = header(1, 2, Flag::Clean).serialise();
    bytes[12] = 4;
    assert_eq!(BlockHeader::deserialise(&bytes), Err(FileError::CorruptedBlock));
}

#[test]
fn superblock_round_trip() {
    let sb = superblock();
    let bytes = sb.serialise();
    assert_eq!(bytes.len(), 4096);
    assert!(bytes[59..].iter().all(|&b| b == 0));
    assert_eq!(SuperBlock::deserialise(&bytes), Ok(sb));
}

#[test]
fn superblock_field_offsets() {
    let bytes = superblock().serialise();
    assert_eq!(&bytes[14..18], &69420u32.to_le_bytes());
    assert_eq!(&bytes[52..54], &670u16.to_le_bytes());
    assert_eq!(bytes[54], 1);
}

#[test]
fn superblock_bad_magic_is_corrupted() {
    let mut bytes = superblock().serialise();
    bytes[14] ^= 1;
    assert_eq!(SuperBlock::deserialise(&bytes), Err(FileError::CorruptedBlock));
}

#[test]
fn superblock_bad_header_is_corrupted() {
    let mut bytes = superblock().serialise();
    bytes[12] = 9;
    assert_eq!(SuperBlock::deserialise(&bytes), Err(FileError::CorruptedBlock));
}

#[test]
fn block_zero_cannot_be_read_as_block() {
    assert!(matches!(Block::deserialise(0, vec![0u8; 4096]), Err(FileError::ReadError)));
}

#[test]
fn block_deserialise_keeps_bytes() {
    let mut buf = header(3, 4, Flag::Dirty).serialise();
    buf.resize(4096, 5);
    let block = Block::deserialise(12, buf.clone()).ok().unwrap();
    assert_eq!(block.id, 12);
    assert_eq!(block.header, header(3, 4, Flag::Dirty));
    assert_eq!(block.buf, buf);
}

#[test]
fn block_deserialise_bad_flag() {
    let mut buf = vec![0u8; 4096];
    buf[12] = 200;
    assert!(matches!(Block::deserialise(5, buf), Err(FileError::CorruptedBlock)));
}

#[test]
fn block_serialise_stamps_header() {
    let mut block = Block { id: 4, header: header(1, 2, Flag::Irrecoverable), buf: vec![9u8; 20] };
    block.serialise();
    assert_eq!(&block.buf[..14], &header(1, 2, Flag::Irrecoverable).serialise()[..]);
    assert_eq!(&block.buf[14..], &[9u8; 6]);
}
