use vstd::prelude::*;

use super::on_disk::{self, BLOCK_BYTES, SUPERBLOCK_BYTES, field_u16, field_u32};
use super::{Ext2Error, MountMode};
use crate::block::{BlockDevice, BlockGeometry, DeviceRequest, extends, requests_since};

verus! {

/// The only logical sector size supported.
pub const SECTOR_BYTES: u32 = 512;
pub const SECTORS_PER_BLOCK: u64 = 8;
pub const EXT2_SUPER_MAGIC: u16 = 0xef53;
pub const EXT2_DYNAMIC_REV: u32 = 1;
pub const EXT2_VALID_FS: u16 = 1;
pub const EXT2_FEATURE_INCOMPAT_FILETYPE: u32 = 2;
/// Blocks in the single block group of the supported profile.
pub const PROFILE_BLOCKS: u32 = 32_768;
/// Inodes in the single block group of the supported profile.
pub const PROFILE_INODES: u32 = 4_096;
/// Bytes per inode in the supported profile.
pub const PROFILE_INODE_BYTES: u16 = 256;
/// Sectors the device must have at least.
pub const PROFILE_SECTORS: u64 = 262_144;
/// Blocks taken by the inode table of the supported profile.
pub const INODE_TABLE_BLOCKS: u32 = 256;

/// Where the block group's metadata lies, in blocks.
#[derive(Clone, Copy, Debug)]
pub struct Geometry {
    pub block_bitmap: u32,
    pub inode_bitmap: u32,
    pub inode_table: u32,
    pub inode_table_blocks: u32,
}

/// The metadata lies inside the group, after the superblock and descriptor blocks, and
/// no two pieces of it overlap.
pub open spec fn geometry_wf(g: Geometry) -> bool {
    &&& g.inode_table_blocks == INODE_TABLE_BLOCKS
    &&& 2 <= g.block_bitmap < PROFILE_BLOCKS
    &&& 2 <= g.inode_bitmap < PROFILE_BLOCKS
    &&& 2 <= g.inode_table
    &&& g.inode_table + INODE_TABLE_BLOCKS <= PROFILE_BLOCKS
    &&& g.block_bitmap != g.inode_bitmap
    &&& !(g.inode_table <= g.block_bitmap < g.inode_table + INODE_TABLE_BLOCKS)
    &&& !(g.inode_table <= g.inode_bitmap < g.inode_table + INODE_TABLE_BLOCKS)
}

/// The first failure of two checks done in order.
pub open spec fn chain(first: Result<(), Ext2Error>, rest: Result<(), Ext2Error>) -> Result<
    (),
    Ext2Error,
> {
    match first {
        Err(e) => Err(e),
        Ok(_) => rest,
    }
}

pub open spec fn profile_check_u16(b: Seq<u8>, offset: int, expected: u16, field: &'static str) -> Result<
    (),
    Ext2Error,
> {
    match field_u16(b, offset, field) {
        Err(e) => Err(e),
        Ok(v) => if v != expected {
            Err(Ext2Error::UnsupportedProfile { field })
        } else {
            Ok(())
        },
    }
}

pub open spec fn profile_check_u32(b: Seq<u8>, offset: int, expected: u32, field: &'static str) -> Result<
    (),
    Ext2Error,
> {
    match field_u32(b, offset, field) {
        Err(e) => Err(e),
        Ok(v) => if v != expected {
            Err(Ext2Error::UnsupportedProfile { field })
        } else {
            Ok(())
        },
    }
}

pub open spec fn feature_check(b: Seq<u8>, offset: int, expected: u32, field: &'static str) -> Result<
    (),
    Ext2Error,
> {
    match field_u32(b, offset, field) {
        Err(e) => Err(e),
        Ok(v) => if v != expected {
            Err(Ext2Error::UnsupportedFeature { field, bits: v ^ expected })
        } else {
            Ok(())
        },
    }
}

pub open spec fn state_check(b: Seq<u8>, mode: MountMode) -> Result<(), Ext2Error> {
    if mode == MountMode::ReadWrite {
        match field_u16(b, 58, "state") {
            Err(e) => Err(e),
            Ok(s) => if s != EXT2_VALID_FS {
                Err(Ext2Error::MountRequiresCleanFilesystem)
            } else {
                Ok(())
            },
        }
    } else {
        Ok(())
    }
}

/// The outcome of checking a superblock against the supported profile, in field order.
pub open spec fn superblock_result(b: Seq<u8>, mode: MountMode) -> Result<(), Ext2Error> {
    chain(
        profile_check_u16(b, 56, EXT2_SUPER_MAGIC, "magic"),
        chain(
            profile_check_u32(b, 76, EXT2_DYNAMIC_REV, "revision"),
            chain(
                profile_check_u32(b, 24, 2, "log_block_size"),
                chain(
                    profile_check_u32(b, 28, 2, "log_fragment_size"),
                    chain(
                        profile_check_u32(b, 4, PROFILE_BLOCKS, "blocks_count"),
                        chain(
                            profile_check_u32(b, 0, PROFILE_INODES, "inodes_count"),
                            chain(
                                profile_check_u32(b, 32, PROFILE_BLOCKS, "blocks_per_group"),
                                chain(
                                    profile_check_u32(b, 36, PROFILE_BLOCKS, "fragments_per_group"),
                                    chain(
                                        profile_check_u32(b, 40, PROFILE_INODES, "inodes_per_group"),
                                        chain(
                                            profile_check_u16(b, 88, PROFILE_INODE_BYTES, "inode_size"),
                                            chain(
                                                profile_check_u32(b, 20, 0, "first_data_block"),
                                                chain(
                                                    feature_check(b, 92, 0, "compatible"),
                                                    chain(
                                                        feature_check(
                                                            b,
                                                            96,
                                                            EXT2_FEATURE_INCOMPAT_FILETYPE,
                                                            "incompatible",
                                                        ),
                                                        chain(
                                                            feature_check(b, 100, 0, "read_only_compatible"),
                                                            state_check(b, mode),
                                                        ),
                                                    ),
                                                ),
                                            ),
                                        ),
                                    ),
                                ),
                            ),
                        ),
                    ),
                ),
            ),
        ),
    )
}

/// The outcome of checking a group descriptor block.
pub open spec fn group_descriptor_result(b: Seq<u8>) -> Result<(u32, u32, u32), Ext2Error> {
    match field_u32(b, 0, "block_bitmap") {
        Err(e) => Err(e),
        Ok(block_bitmap) => match field_u32(b, 4, "inode_bitmap") {
            Err(e) => Err(e),
            Ok(inode_bitmap) => match field_u32(b, 8, "inode_table") {
                Err(e) => Err(e),
                Ok(inode_table) => {
                    let end = inode_table + INODE_TABLE_BLOCKS;
                    if end > u32::MAX {
                        Err(Ext2Error::CorruptMetadata { field: "inode_table" })
                    } else if block_bitmap >= PROFILE_BLOCKS || inode_bitmap >= PROFILE_BLOCKS
                        || inode_table >= PROFILE_BLOCKS || end > PROFILE_BLOCKS {
                        Err(Ext2Error::CorruptMetadata { field: "group_metadata" })
                    } else if block_bitmap < 2 || inode_bitmap < 2 || inode_table < 2 || block_bitmap
                        == inode_bitmap || (inode_table <= block_bitmap < end) || (inode_table
                        <= inode_bitmap < end) {
                        Err(Ext2Error::CorruptMetadata { field: "group_metadata" })
                    } else {
                        Ok((block_bitmap, inode_bitmap, inode_table))
                    }
                },
            },
        },
    }
}

/// An accepted group descriptor locates the block bitmap, the inode bitmap and the inode
/// table at the little-endian 32-bit words at bytes 0, 4 and 8 of the block.
pub proof fn lemma_group_descriptor_fields(b: Seq<u8>)
    ensures
        group_descriptor_result(b) matches Ok((block_bitmap, inode_bitmap, inode_table)) ==> {
            &&& b.len() >= 12
            &&& block_bitmap == b[0] as int + b[1] as int * 0x100 + b[2] as int * 0x1_0000
                + b[3] as int * 0x100_0000
            &&& inode_bitmap == b[4] as int + b[5] as int * 0x100 + b[6] as int * 0x1_0000
                + b[7] as int * 0x100_0000
            &&& inode_table == b[8] as int + b[9] as int * 0x100 + b[10] as int * 0x1_0000
                + b[11] as int * 0x100_0000
        },
{
    if group_descriptor_result(b) is Ok {
        assert(b.len() >= 12);
    }
}

/// Whether `value` lies in `[start, end)`.
pub fn range_contains(start: u32, end: u32, value: u32) -> (r: bool)
    ensures
        r == (start <= value < end),
{
    start <= value && value < end
}

/// Requires the 16-bit field at `offset` to hold `expected`.
pub fn require_u16(bytes: &[u8], offset: usize, expected: u16, field: &'static str) -> (r: Result<
    (),
    Ext2Error,
>)
    requires
        offset + 2 <= usize::MAX,
    ensures
        r == profile_check_u16(bytes@, offset as int, expected, field),
{
    if on_disk::u16(bytes, offset, field)? != expected {
        return Err(Ext2Error::UnsupportedProfile { field });
    }
    Ok(())
}

/// Requires the 32-bit field at `offset` to hold `expected`.
pub fn require_u32(bytes: &[u8], offset: usize, expected: u32, field: &'static str) -> (r: Result<
    (),
    Ext2Error,
>)
    requires
        offset + 4 <= usize::MAX,
    ensures
        r == profile_check_u32(bytes@, offset as int, expected, field),
{
    if on_disk::u32(bytes, offset, field)? != expected {
        return Err(Ext2Error::UnsupportedProfile { field });
    }
    Ok(())
}

/// Requires the feature word at `offset` to be exactly `expected`, reporting the differing bits.
pub fn require_feature(bytes: &[u8], offset: usize, expected: u32, field: &'static str) -> (r:
    Result<(), Ext2Error>)
    requires
        offset + 4 <= usize::MAX,
    ensures
        r == feature_check(bytes@, offset as int, expected, field),
{
    let actual = on_disk::u32(bytes, offset, field)?;
    if actual != expected {
        return Err(Ext2Error::UnsupportedFeature { field, bits: actual ^ expected });
    }
    Ok(())
}

/// Checks the superblock against the supported single-group profile; a read-write mount
/// also requires the filesystem to be marked clean.
pub fn validate_superblock(bytes: &[u8], mode: MountMode) -> (r: Result<(), Ext2Error>)
    ensures
        r == superblock_result(bytes@, mode),
{
    require_u16(bytes, on_disk::SUPERBLOCK_MAGIC, EXT2_SUPER_MAGIC, "magic")?;
    require_u32(bytes, on_disk::SUPERBLOCK_REVISION_LEVEL, EXT2_DYNAMIC_REV, "revision")?;
    require_u32(bytes, on_disk::SUPERBLOCK_LOG_BLOCK_SIZE, 2, "log_block_size")?;
    require_u32(bytes, on_disk::SUPERBLOCK_LOG_FRAGMENT_SIZE, 2, "log_fragment_size")?;
    require_u32(bytes, on_disk::SUPERBLOCK_BLOCKS_COUNT, PROFILE_BLOCKS, "blocks_count")?;
    require_u32(bytes, on_disk::SUPERBLOCK_INODES_COUNT, PROFILE_INODES, "inodes_count")?;
    require_u32(bytes, on_disk::SUPERBLOCK_BLOCKS_PER_GROUP, PROFILE_BLOCKS, "blocks_per_group")?;
    require_u32(
        bytes,
        on_disk::SUPERBLOCK_FRAGMENTS_PER_GROUP,
        PROFILE_BLOCKS,
        "fragments_per_group",
    )?;
    require_u32(bytes, on_disk::SUPERBLOCK_INODES_PER_GROUP, PROFILE_INODES, "inodes_per_group")?;
    require_u16(bytes, on_disk::SUPERBLOCK_INODE_SIZE, PROFILE_INODE_BYTES, "inode_size")?;
    require_u32(bytes, on_disk::SUPERBLOCK_FIRST_DATA_BLOCK, 0, "first_data_block")?;
    require_feature(bytes, on_disk::SUPERBLOCK_FEATURE_COMPAT, 0, "compatible")?;
    require_feature(
        bytes,
        on_disk::SUPERBLOCK_FEATURE_INCOMPAT,
        EXT2_FEATURE_INCOMPAT_FILETYPE,
        "incompatible",
    )?;
    require_feature(bytes, on_disk::SUPERBLOCK_FEATURE_RO_COMPAT, 0, "read_only_compatible")?;
    if mode == MountMode::ReadWrite {
        let state = on_disk::u16(bytes, on_disk::SUPERBLOCK_STATE, "state")?;
        if state != EXT2_VALID_FS {
            return Err(Ext2Error::MountRequiresCleanFilesystem);
        }
    }
    Ok(())
}

/// Checks the single group descriptor and returns where the group's metadata lies.
pub fn validate_group_descriptor(bytes: &[u8]) -> (r: Result<Geometry, Ext2Error>)
    ensures
        match group_descriptor_result(bytes@) {
            Err(e) => r == Err::<Geometry, Ext2Error>(e),
            Ok((b, i, t)) => r matches Ok(g) && g.block_bitmap == b && g.inode_bitmap == i
                && g.inode_table == t && geometry_wf(g),
        },
{
    let block_bitmap = on_disk::u32(bytes, on_disk::GROUP_DESCRIPTOR_BLOCK_BITMAP, "block_bitmap")?;
    let inode_bitmap = on_disk::u32(bytes, on_disk::GROUP_DESCRIPTOR_INODE_BITMAP, "inode_bitmap")?;
    let inode_table = on_disk::u32(bytes, on_disk::GROUP_DESCRIPTOR_INODE_TABLE, "inode_table")?;
    let block_bytes = BLOCK_BYTES as u32;
    assert(block_bytes == 4096);
    let inode_bytes = PROFILE_INODE_BYTES as u32;
    assert(PROFILE_INODES * inode_bytes == 1048576) by (nonlinear_arith)
        requires
            inode_bytes == 256,
            PROFILE_INODES == 4096,
    ;
    let inode_table_blocks = (PROFILE_INODES * inode_bytes) / block_bytes;
    assert(inode_table_blocks == INODE_TABLE_BLOCKS);
    let inode_table_end = match inode_table.checked_add(inode_table_blocks) {
        Some(end) => end,
        None => return Err(Ext2Error::CorruptMetadata { field: "inode_table" }),
    };
    if block_bitmap >= PROFILE_BLOCKS || inode_bitmap >= PROFILE_BLOCKS || inode_table
        >= PROFILE_BLOCKS || inode_table_end > PROFILE_BLOCKS {
        return Err(Ext2Error::CorruptMetadata { field: "group_metadata" });
    }
    let metadata_end: u32 = 2;
    if block_bitmap < metadata_end || inode_bitmap < metadata_end || inode_table < metadata_end
        || block_bitmap == inode_bitmap || range_contains(inode_table, inode_table_end, block_bitmap)
        || range_contains(inode_table, inode_table_end, inode_bitmap) {
        return Err(Ext2Error::CorruptMetadata { field: "group_metadata" });
    }
    Ok(Geometry { block_bitmap, inode_bitmap, inode_table, inode_table_blocks })
}

/// Reads whole sectors, reporting device failures as ext2 errors.
pub fn read_sectors<D: BlockDevice>(device: &mut D, first_lba: u64, bytes: &mut [u8]) -> (r: Result<
    (),
    Ext2Error,
>)
    ensures
        final(bytes)@.len() == old(bytes)@.len(),
        final(device).geometry_view() == old(device).geometry_view(),
        exists|result: Result<(), crate::block::BlockError>|
            {
                &&& final(device).requests() == old(device).requests().push(
                    DeviceRequest::Read { lba: first_lba, data: final(bytes)@, result },
                )
                &&& r == match result {
                    Ok(()) => Ok::<(), Ext2Error>(()),
                    Err(e) => Err(Ext2Error::Block(e)),
                }
            },
{
    match device.read_sectors(first_lba, bytes) {
        Ok(()) => Ok(()),
        Err(e) => Err(Ext2Error::Block(e)),
    }
}

/// The group descriptor block read by `request` and what mounting then gives.
pub open spec fn descriptor_read(request: DeviceRequest, r: Result<Geometry, Ext2Error>) -> bool {
    &&& request matches DeviceRequest::Read { lba, data, result }
    &&& lba == SECTORS_PER_BLOCK
    &&& data.len() == 4096
    &&& match result {
        Err(e) => r == Err::<Geometry, Ext2Error>(Ext2Error::Block(e)),
        Ok(_) => match group_descriptor_result(data) {
            Err(e) => r == Err::<Geometry, Ext2Error>(e),
            Ok((b, i, t)) => r matches Ok(g) && g.block_bitmap == b && g.inode_bitmap == i
                && g.inode_table == t && geometry_wf(g),
        },
    }
}

/// What mounting gives when the device answered `requests`: only reads, first the
/// superblock (1024 bytes at sector 2), then, if it is accepted, the group descriptor block
/// (4096 bytes at sector 8).
pub open spec fn mount_read(requests: Seq<DeviceRequest>, mode: MountMode, r: Result<
    Geometry,
    Ext2Error,
>) -> bool {
    &&& 1 <= requests.len() <= 2
    &&& requests[0] matches DeviceRequest::Read { lba, data, result }
    &&& lba == 2
    &&& data.len() == 1024
    &&& match result {
        Err(e) => requests.len() == 1 && r == Err::<Geometry, Ext2Error>(Ext2Error::Block(e)),
        Ok(_) => match superblock_result(data, mode) {
            Err(e) => requests.len() == 1 && r == Err::<Geometry, Ext2Error>(e),
            Ok(_) => requests.len() == 2 && descriptor_read(requests[1], r),
        },
    }
}

/// Validates the filesystem on `device` for mounting and returns its group geometry.
///
/// The device must have 512-byte sectors and hold the whole fixed profile; the superblock
/// (sectors 2..4) and the group descriptor block (block 1) are then read and checked.
pub fn mount<D: BlockDevice>(device: &mut D, mode: MountMode) -> (r: Result<Geometry, Ext2Error>)
    ensures
        final(device).geometry_view() == old(device).geometry_view(),
        old(device).geometry_view().logical_sector_size != SECTOR_BYTES ==> r == Err::<
            Geometry,
            Ext2Error,
        >(
            Ext2Error::UnsupportedSector {
                sector_size: old(device).geometry_view().logical_sector_size,
            },
        ),
        old(device).geometry_view().logical_sector_size != SECTOR_BYTES ==> *final(device) == *old(
            device,
        ),
        old(device).geometry_view().logical_sector_size == SECTOR_BYTES && old(
            device,
        ).geometry_view().sector_count < PROFILE_SECTORS ==> r == Err::<Geometry, Ext2Error>(
            Ext2Error::UnsupportedProfile { field: "device_length" },
        ) && *final(device) == *old(device),
        old(device).geometry_view().logical_sector_size == SECTOR_BYTES && old(
            device,
        ).geometry_view().sector_count >= PROFILE_SECTORS ==> extends(
            final(device).requests(),
            old(device).requests(),
        ) && mount_read(requests_since(final(device).requests(), old(device).requests()), mode, r),
        r matches Ok(g) ==> geometry_wf(g),
{
    let device_geometry: BlockGeometry = device.geometry();
    if device_geometry.logical_sector_size != SECTOR_BYTES {
        return Err(Ext2Error::UnsupportedSector { sector_size: device_geometry.logical_sector_size });
    }
    if device_geometry.sector_count < PROFILE_SECTORS {
        return Err(Ext2Error::UnsupportedProfile { field: "device_length" });
    }
    let ghost before = device.requests();
    let mut superblock = [0u8; 1024];
    let read = read_sectors(device, 2, &mut superblock);
    let ghost first = device.requests();
    proof {
        assert(requests_since(first, before) =~= seq![first.last()]);
        assert(first.subrange(0, before.len() as int) =~= before);
    }
    match read {
        Ok(()) => {},
        Err(e) => return Err(e),
    }
    match validate_superblock(&superblock, mode) {
        Ok(()) => {},
        Err(e) => return Err(e),
    }
    let mut descriptor_block = [0u8; 4096];
    let read = read_sectors(device, SECTORS_PER_BLOCK, &mut descriptor_block);
    let ghost second = device.requests();
    proof {
        assert(requests_since(second, before) =~= seq![first.last(), second.last()]);
        assert(second.subrange(0, before.len() as int) =~= before);
    }
    match read {
        Ok(()) => {},
        Err(e) => return Err(e),
    }
    validate_group_descriptor(&descriptor_block)
}

} // verus!
