use vstd::prelude::*;

pub mod on_disk;
mod validate;

pub use validate::{
    Geometry, chain, descriptor_read, feature_check, mount_read, group_descriptor_result, mount, profile_check_u16,
    profile_check_u32, range_contains, read_sectors, require_feature, require_u16, require_u32,
    superblock_result, validate_group_descriptor, validate_superblock, geometry_wf,
    EXT2_SUPER_MAGIC, PROFILE_BLOCKS, PROFILE_INODES, PROFILE_INODE_BYTES, PROFILE_SECTORS,
    SECTOR_BYTES,
};

use crate::block::{BlockDevice, BlockError, DeviceRequest, extends, requests_since};

verus! {

/// Whether a filesystem is mounted for reading only or for reading and writing.
#[derive(Clone, Copy, Debug, PartialEq, Eq, Structural)]
pub enum MountMode {
    ReadOnly,
    ReadWrite,
}

/// Why an ext2 operation failed.
#[derive(Clone, Copy, Debug, PartialEq, Eq)]
pub enum Ext2Error {
    Block(BlockError),
    UnsupportedSector { sector_size: u32 },
    UnsupportedProfile { field: &'static str },
    UnsupportedFeature { field: &'static str, bits: u32 },
    MountRequiresCleanFilesystem,
    CorruptMetadata { field: &'static str },
    InvalidNode,
    WrongNodeKind,
    NotFound,
    UnsupportedFile,
    SparseFile,
    AllocationFailure,
}

/// A mounted ext2 filesystem of the supported single-group profile.
pub struct Ext2<D> {
    device: D,
    mode: MountMode,
    geometry: Geometry,
}

impl<D> Ext2<D> {
    /// The device the filesystem lives on.
    pub closed spec fn device_view(&self) -> D {
        self.device
    }

    /// The mode it was mounted in.
    pub closed spec fn mode_view(&self) -> MountMode {
        self.mode
    }

    /// The validated locations of the block group's metadata.
    pub closed spec fn geometry_view(&self) -> Geometry {
        self.geometry
    }
}

impl<D: BlockDevice> Ext2<D> {
    /// Mounts the filesystem on `device` after validating its superblock and group
    /// descriptor against the supported profile.
    pub fn mount(device: D, mode: MountMode) -> (r: Result<Self, Ext2Error>)
        ensures
            device.geometry_view().logical_sector_size != SECTOR_BYTES ==> r == Err::<
                Self,
                Ext2Error,
            >(
                Ext2Error::UnsupportedSector {
                    sector_size: device.geometry_view().logical_sector_size,
                },
            ),
            device.geometry_view().logical_sector_size == SECTOR_BYTES
                && device.geometry_view().sector_count < PROFILE_SECTORS ==> r == Err::<
                Self,
                Ext2Error,
            >(Ext2Error::UnsupportedProfile { field: "device_length" }),
            r matches Ok(fs) ==> fs.mode_view() == mode && geometry_wf(fs.geometry_view())
                && fs.device_view().geometry_view() == device.geometry_view(),
            device.geometry_view().logical_sector_size == SECTOR_BYTES
                && device.geometry_view().sector_count >= PROFILE_SECTORS ==> exists|
                log: Seq<DeviceRequest>,
                g: Result<Geometry, Ext2Error>,
            |
                {
                    &&& extends(log, device.requests())
                    &&& mount_read(requests_since(log, device.requests()), mode, g)
                    &&& match g {
                        Err(e) => r == Err::<Self, Ext2Error>(e),
                        Ok(geometry) => r matches Ok(fs) && fs.geometry_view() == geometry
                            && fs.device_view().requests() == log,
                    }
                },
    {
        let mut device = device;
        let geometry = mount(&mut device, mode);
        let ghost log = device.requests();
        match geometry {
            Ok(geometry) => Ok(Self { device, mode, geometry }),
            Err(e) => Err(e),
        }
    }
}

} // verus!
