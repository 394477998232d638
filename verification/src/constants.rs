use vstd::prelude::*;

verus! {

/// Size in bytes of every block on the disk.
pub const BLOCK_SIZE: usize = 4096;

/// Number of blocks on the disk.
pub const NUM_BLOCKS: usize = 12800;

/// Bytes taken by the header at the start of every block.
pub const BLOCK_HEADER_SIZE: usize = 14;

/// Bytes of a block that follow its header.
pub const BLOCK_PAYLOAD_SIZE: usize = 4082;

/// Size in bytes of one on-disk inode.
pub const INODE_SIZE: usize = 256;

/// Number of inodes of the file system.
pub const TOTAL_INODES: usize = 10000;

/// Inodes stored in one block of the inode table.
pub const INODES_PER_BLOCK: usize = 15;

/// Blocks of the inode table.
pub const INODE_TABLE_BLOCKS: usize = 667;

/// The superblock's magic number.
pub const MAGIC: u32 = 69420;

/// First block of the inode bitmap.
pub const INODE_BITMAP_START: usize = 1;

/// First block of the block bitmap.
pub const BLOCK_BITMAP_START: usize = 2;

/// First block of the inode table.
pub const INODE_MAP_START: usize = 3;

/// First data block (everything before it is metadata).
pub const DATA_START: usize = 670;

/// Size in bytes of the whole disk.
pub const TOTAL_SIZE: usize = 52428800;

/// Inode number of the root directory.
pub const ROOT_INODE_NUM: usize = 0;

/// Magic number of every extent tree node.
pub const TREE_MAGIC: u16 = 0xF30A;

/// Size in bytes of one extent or index entry.
pub const ENTRY_SIZE: usize = 12;

/// Size in bytes of an extent tree node's header.
pub const NODE_HEADER_SIZE: usize = 8;

/// Entries of the extent tree root that lives inside an inode.
pub const ROOT_MAX_ENTRIES: usize = 15;

/// Entries of an extent tree node that lives in its own block.
pub const BLOCK_MAX_ENTRIES: usize = 339;

/// Bytes of an inode outside its extent tree root.
pub const NON_EXTENT_FIELDS_SIZE: usize = 68;

/// Longest accepted directory entry name.
pub const MAX_NAME_LEN: usize = 255;

/// File type bits of a mode.
pub const S_IFMT: u16 = 0o170000;

/// Mode type of a directory.
pub const S_IFDIR: u16 = 0o040000;

/// Mode type of a regular file.
pub const S_IFREG: u16 = 0o100000;

pub const S_IRWXU: u16 = 0o700;
pub const S_IRUSR: u16 = 0o400;
pub const S_IWUSR: u16 = 0o200;
pub const S_IXUSR: u16 = 0o100;
pub const S_IRWXG: u16 = 0o070;
pub const S_IRGRP: u16 = 0o040;
pub const S_IWGRP: u16 = 0o020;
pub const S_IXGRP: u16 = 0o010;
pub const S_IRWXO: u16 = 0o007;
pub const S_IROTH: u16 = 0o004;
pub const S_IWOTH: u16 = 0o002;
pub const S_IXOTH: u16 = 0o001;

/// Open flag: create the file when it does not exist.
pub const O_CREAT: u32 = 0o100;

/// Open flag: with `O_CREAT`, fail when the file exists.
pub const O_EXCL: u32 = 0o200;

/// Open flag: the name must be a directory.
pub const O_DIRECTORY: u32 = 0o200000;

} // verus!
