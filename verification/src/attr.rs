//! The attributes that entries advertise.

use vstd::prelude::*;

verus! {

/// The identifier of the root directory.
pub const ROOT_INO: u64 = 1;

/// The block size that attributes advertise.
pub const BLOCK_SIZE: u32 = 512;

/// How long attributes may be cached, in seconds.
pub const ATTR_TTL_SECS: u64 = 3600;

/// The mode bits of a directory.
pub const DIR_PERM: u16 = 0o555;

/// The mode bits of a regular file.
pub const FILE_PERM: u16 = 0o444;

/// What an entry is to the kernel.
#[derive(Debug, Clone, Copy, PartialEq, Eq, Structural)]
pub enum FileKind {
    Directory,
    RegularFile,
}

/// The attributes of an entry. All timestamps are the epoch; owner, group
/// and device are zero.
#[derive(Debug, Clone, Copy, PartialEq, Eq, Structural)]
pub struct FileAttr {
    pub ino: u64,
    pub size: u64,
    pub blocks: u64,
    pub kind: FileKind,
    pub perm: u16,
    pub nlink: u32,
    pub blksize: u32,
}

/// The attributes of a directory: mode `0555`, two links, no size.
pub open spec fn dir_attr(ino: u64) -> FileAttr {
    FileAttr {
        ino,
        size: 0,
        blocks: 0,
        kind: FileKind::Directory,
        perm: DIR_PERM,
        nlink: 2,
        blksize: BLOCK_SIZE,
    }
}

/// The number of blocks that hold `size` bytes: the size divided by the
/// block size, rounded up.
pub open spec fn block_count(size: u64) -> u64 {
    if size % (BLOCK_SIZE as u64) == 0 {
        size / (BLOCK_SIZE as u64)
    } else {
        (size / (BLOCK_SIZE as u64) + 1) as u64
    }
}

/// The attributes of a regular file of `size` bytes: mode `0444`, one link.
pub open spec fn file_attr(ino: u64, size: u64) -> FileAttr {
    FileAttr {
        ino,
        size,
        blocks: block_count(size),
        kind: FileKind::RegularFile,
        perm: FILE_PERM,
        nlink: 1,
        blksize: BLOCK_SIZE,
    }
}

/// The block count is the least number of blocks that hold the size.
pub proof fn lemma_block_count(size: u64)
    ensures
        block_count(size) * BLOCK_SIZE >= size,
        size > 0 ==> (block_count(size) - 1) * BLOCK_SIZE < size,
        size == 0 ==> block_count(size) == 0,
{
}

/// The attributes of the directory `ino`.
pub fn make_dir_attr(ino: u64) -> (r: FileAttr)
    ensures
        r == dir_attr(ino),
{
    FileAttr {
        ino,
        size: 0,
        blocks: 0,
        kind: FileKind::Directory,
        perm: DIR_PERM,
        nlink: 2,
        blksize: BLOCK_SIZE,
    }
}

/// The attributes of the regular file `ino` of `size` bytes.
pub fn make_file_attr(ino: u64, size: u64) -> (r: FileAttr)
    ensures
        r == file_attr(ino, size),
{
    let whole = size / (BLOCK_SIZE as u64);
    let blocks = if size % (BLOCK_SIZE as u64) == 0 {
        whole
    } else {
        whole + 1
    };
    FileAttr {
        ino,
        size,
        blocks,
        kind: FileKind::RegularFile,
        perm: FILE_PERM,
        nlink: 1,
        blksize: BLOCK_SIZE,
    }
}

} // verus!
