use vstd::prelude::*;

use super::Ext2Error;
use crate::le::{le_u16, le_u32, load_u16, load_u32};

verus! {

/// Bytes in a filesystem block of the supported profile.
pub const BLOCK_BYTES: usize = 4096;
/// Bytes in the superblock.
pub const SUPERBLOCK_BYTES: usize = 1024;
/// Bytes in a block group descriptor.
pub const GROUP_DESCRIPTOR_BYTES: usize = 32;

pub const SUPERBLOCK_INODES_COUNT: usize = 0;
pub const SUPERBLOCK_BLOCKS_COUNT: usize = 4;
pub const SUPERBLOCK_FIRST_DATA_BLOCK: usize = 20;
pub const SUPERBLOCK_LOG_BLOCK_SIZE: usize = 24;
pub const SUPERBLOCK_LOG_FRAGMENT_SIZE: usize = 28;
pub const SUPERBLOCK_BLOCKS_PER_GROUP: usize = 32;
pub const SUPERBLOCK_FRAGMENTS_PER_GROUP: usize = 36;
pub const SUPERBLOCK_INODES_PER_GROUP: usize = 40;
pub const SUPERBLOCK_MAGIC: usize = 56;
pub const SUPERBLOCK_STATE: usize = 58;
pub const SUPERBLOCK_REVISION_LEVEL: usize = 76;
pub const SUPERBLOCK_INODE_SIZE: usize = 88;
pub const SUPERBLOCK_FEATURE_COMPAT: usize = 92;
pub const SUPERBLOCK_FEATURE_INCOMPAT: usize = 96;
pub const SUPERBLOCK_FEATURE_RO_COMPAT: usize = 100;

pub const GROUP_DESCRIPTOR_BLOCK_BITMAP: usize = 0;
pub const GROUP_DESCRIPTOR_INODE_BITMAP: usize = 4;
pub const GROUP_DESCRIPTOR_INODE_TABLE: usize = 8;

/// The little-endian 16-bit field at `offset`, or corrupt metadata if it is cut off.
pub open spec fn field_u16(b: Seq<u8>, offset: int, field: &'static str) -> Result<u16, Ext2Error> {
    if offset + 2 <= b.len() {
        Ok(le_u16(b, offset))
    } else {
        Err(Ext2Error::CorruptMetadata { field })
    }
}

/// The little-endian 32-bit field at `offset`, or corrupt metadata if it is cut off.
pub open spec fn field_u32(b: Seq<u8>, offset: int, field: &'static str) -> Result<u32, Ext2Error> {
    if offset + 4 <= b.len() {
        Ok(le_u32(b, offset))
    } else {
        Err(Ext2Error::CorruptMetadata { field })
    }
}

/// Reads the little-endian 16-bit field at `offset`.
pub fn u16(bytes: &[u8], offset: usize, field: &'static str) -> (r: Result<u16, Ext2Error>)
    requires
        offset + 2 <= usize::MAX,
    ensures
        r == field_u16(bytes@, offset as int, field),
{
    if offset + 2 > bytes.len() {
        return Err(Ext2Error::CorruptMetadata { field });
    }
    Ok(load_u16(bytes, offset))
}

/// Reads the little-endian 32-bit field at `offset`.
pub fn u32(bytes: &[u8], offset: usize, field: &'static str) -> (r: Result<u32, Ext2Error>)
    requires
        offset + 4 <= usize::MAX,
    ensures
        r == field_u32(bytes@, offset as int, field),
{
    if offset + 4 > bytes.len() {
        return Err(Ext2Error::CorruptMetadata { field });
    }
    Ok(load_u32(bytes, offset))
}

} // verus!
