use relay::{
    block::{BlockDevice, BlockError, BlockGeometry},
    ext2::{Ext2, Ext2Error, MountMode},
    fs::Name,
};

#[test]
fn name_accepts_only_nonempty_printable_ascii_path_components() {
    assert_eq!(Name::new(b"README.txt").unwrap().as_bytes(), b"README.txt");
    assert!(Name::new(b"").is_err());
    assert!(Name::new(b"a/b").is_err());
    assert!(Name::new(b"a\0b").is_err());
    assert!(Name::new(&[0x7f]).is_err());
    assert!(Name::new(&[b'a'; 256]).is_err());
    assert!(Name::new(b".").is_err());
    assert!(Name::new(b"..").is_err());
}

#[test]
fn mount_rejects_non_512_byte_sectors_without_reading() {
    let mut device = WrongSectorDevice { reads: 0 };

    assert!(matches!(
        Ext2::mount(&mut device, MountMode::ReadOnly),
        Err(Ext2Error::UnsupportedSector { sector_size: 4096 }),
    ));
    assert_eq!(device.reads, 0);
}

struct WrongSectorDevice {
    reads: usize,
}

impl BlockDevice for &mut WrongSectorDevice {
    fn geometry_view(&self) -> BlockGeometry {
        self.geometry()
    }

    fn requests(&self) -> vstd::seq::Seq<relay::block::DeviceRequest> {
        unreachable!("the request log is a specification view")
    }

    fn geometry(&self) -> BlockGeometry {
        BlockGeometry {
            logical_sector_size: 4096,
            sector_count: 32_768,
        }
    }

    fn read_sectors(&mut self, _first_lba: u64, _dst: &mut [u8]) -> Result<(), BlockError> {
        self.reads += 1;
        Ok(())
    }

    fn write_sectors(&mut self, _first_lba: u64, _src: &[u8]) -> Result<(), BlockError> {
        unreachable!("mount must not write")
    }

    fn flush(&mut self) -> Result<(), BlockError> {
        unreachable!("mount must not flush")
    }
}

// A hand-built image of the controlled profile: 32768 blocks of 4 KiB, 4096 inodes of
// 256 bytes in one block group. Only the superblock and the group descriptor are stored;
// every other sector reads as zeros.
const SUPERBLOCK_OFFSET: usize = 1024;
const GROUP_DESCRIPTOR_OFFSET: usize = 4096;
const PROFILE_SECTORS: u64 = 262_144;

#[derive(Clone, Copy)]
enum FeatureField {
    Compatible,
    Incompatible,
    ReadOnlyCompatible,
}

impl FeatureField {
    const ALL: [Self; 3] = [
        Self::Compatible,
        Self::Incompatible,
        Self::ReadOnlyCompatible,
    ];

    fn offset(self) -> usize {
        match self {
            Self::Compatible => 92,
            Self::Incompatible => 96,
            Self::ReadOnlyCompatible => 100,
        }
    }

    fn approved_mask(self) -> u32 {
        match self {
            Self::Incompatible => 2,
            Self::Compatible | Self::ReadOnlyCompatible => 0,
        }
    }
}

fn unsupported_feature_bits(field: FeatureField) -> Vec<u32> {
    (0..32)
        .map(|index| 1_u32 << index)
        .filter(|bit| !field.approved_mask() & bit != 0)
        .collect()
}

struct Ext2Fixture {
    bytes: Vec<u8>,
}

fn profile_image() -> Ext2Fixture {
    let mut image = Ext2Fixture {
        bytes: vec![0; 8192],
    };
    image.set_inode_count(4_096);
    image.set_block_count(32_768);
    image.set_first_data_block(0);
    image.set_log_block_size(2);
    image.set_log_fragment_size(2);
    image.set_blocks_per_group(32_768);
    image.set_fragments_per_group(32_768);
    image.set_inodes_per_group(4_096);
    image.set_magic(0xef53);
    image.set_superblock_u16(58, 1);
    image.set_revision(1);
    image.set_inode_size(256);
    image.set_feature(FeatureField::Compatible, 0);
    image.set_feature(FeatureField::Incompatible, 2);
    image.set_feature(FeatureField::ReadOnlyCompatible, 0);
    image.set_block_bitmap_block(2);
    image.set_inode_bitmap_block(3);
    image.set_inode_table_block(4);
    image
}

impl Ext2Fixture {
    fn open(&self) -> ProfileDevice {
        ProfileDevice {
            prefix: self.bytes.clone(),
            sector_count: PROFILE_SECTORS,
            writes: 0,
            flushes: 0,
        }
    }

    fn mark_dirty(&mut self) {
        self.set_superblock_u16(58, 0);
    }

    fn mark_error(&mut self) {
        self.set_superblock_u16(58, 2);
    }

    fn set_magic(&mut self, value: u16) {
        self.set_superblock_u16(56, value);
    }

    fn set_revision(&mut self, value: u32) {
        self.set_superblock_u32(76, value);
    }

    fn set_log_block_size(&mut self, value: u32) {
        self.set_superblock_u32(24, value);
    }

    fn set_log_fragment_size(&mut self, value: u32) {
        self.set_superblock_u32(28, value);
    }

    fn set_inode_size(&mut self, value: u16) {
        self.set_superblock_u16(88, value);
    }

    fn set_block_count(&mut self, value: u32) {
        self.set_superblock_u32(4, value);
    }

    fn set_inode_count(&mut self, value: u32) {
        self.set_superblock_u32(0, value);
    }

    fn set_blocks_per_group(&mut self, value: u32) {
        self.set_superblock_u32(32, value);
    }

    fn set_fragments_per_group(&mut self, value: u32) {
        self.set_superblock_u32(36, value);
    }

    fn set_inodes_per_group(&mut self, value: u32) {
        self.set_superblock_u32(40, value);
    }

    fn set_first_data_block(&mut self, value: u32) {
        self.set_superblock_u32(20, value);
    }

    fn set_feature(&mut self, field: FeatureField, value: u32) {
        self.set_superblock_u32(field.offset(), value);
    }

    fn set_block_bitmap_block(&mut self, value: u32) {
        self.set_group_descriptor_u32(0, value);
    }

    fn set_inode_bitmap_block(&mut self, value: u32) {
        self.set_group_descriptor_u32(4, value);
    }

    fn set_inode_table_block(&mut self, value: u32) {
        self.set_group_descriptor_u32(8, value);
    }

    fn set_superblock_u16(&mut self, offset: usize, value: u16) {
        let at = SUPERBLOCK_OFFSET + offset;
        self.bytes[at..at + 2].copy_from_slice(&value.to_le_bytes());
    }

    fn set_superblock_u32(&mut self, offset: usize, value: u32) {
        let at = SUPERBLOCK_OFFSET + offset;
        self.bytes[at..at + 4].copy_from_slice(&value.to_le_bytes());
    }

    fn set_group_descriptor_u32(&mut self, offset: usize, value: u32) {
        let at = GROUP_DESCRIPTOR_OFFSET + offset;
        self.bytes[at..at + 4].copy_from_slice(&value.to_le_bytes());
    }
}

struct ProfileDevice {
    prefix: Vec<u8>,
    sector_count: u64,
    writes: usize,
    flushes: usize,
}

impl BlockDevice for ProfileDevice {
    fn geometry_view(&self) -> BlockGeometry {
        self.geometry()
    }

    fn requests(&self) -> vstd::seq::Seq<relay::block::DeviceRequest> {
        unreachable!("the request log is a specification view")
    }

    fn geometry(&self) -> BlockGeometry {
        BlockGeometry {
            logical_sector_size: 512,
            sector_count: self.sector_count,
        }
    }

    fn read_sectors(&mut self, first_lba: u64, dst: &mut [u8]) -> Result<(), BlockError> {
        if dst.is_empty() || dst.len() % 512 != 0 {
            return Err(BlockError::InvalidRequest);
        }
        let start = first_lba as usize * 512;
        for (index, byte) in dst.iter_mut().enumerate() {
            *byte = self.prefix.get(start + index).copied().unwrap_or(0);
        }
        Ok(())
    }

    fn write_sectors(&mut self, _first_lba: u64, _src: &[u8]) -> Result<(), BlockError> {
        self.writes += 1;
        Err(BlockError::ReadOnly)
    }

    fn flush(&mut self) -> Result<(), BlockError> {
        self.flushes += 1;
        Ok(())
    }
}

#[test]
fn mount_accepts_the_controlled_ext2_profile() {
    let image = profile_image();

    assert!(Ext2::mount(image.open(), MountMode::ReadOnly).is_ok());
}

#[test]
fn mount_rejects_any_unapproved_feature_bit() {
    for field in FeatureField::ALL {
        for bit in unsupported_feature_bits(field) {
            let mut image = profile_image();
            image.set_feature(field, field.approved_mask() | bit);
            assert!(matches!(
                Ext2::mount(image.open(), MountMode::ReadOnly),
                Err(Ext2Error::UnsupportedFeature { .. }),
            ));
        }
    }
}

#[test]
fn mount_rejects_a_missing_required_filetype_feature() {
    let mut image = profile_image();
    image.set_feature(FeatureField::Incompatible, 0);

    assert!(matches!(
        Ext2::mount(image.open(), MountMode::ReadOnly),
        Err(Ext2Error::UnsupportedFeature { .. }),
    ));
}

#[test]
fn read_write_mount_rejects_dirty_or_error_marked_filesystems() {
    for mutation in [Ext2Fixture::mark_dirty, Ext2Fixture::mark_error] {
        let mut image = profile_image();
        mutation(&mut image);
        assert!(matches!(
            Ext2::mount(image.open(), MountMode::ReadWrite),
            Err(Ext2Error::MountRequiresCleanFilesystem),
        ));
    }
}

#[test]
fn read_only_mount_allows_dirty_filesystems() {
    let mut image = profile_image();
    image.mark_dirty();

    assert!(Ext2::mount(image.open(), MountMode::ReadOnly).is_ok());
}

#[test]
fn mount_rejects_group_metadata_outside_the_only_block_group() {
    let mut image = profile_image();
    image.set_inode_table_block(32_768);

    assert!(matches!(
        Ext2::mount(image.open(), MountMode::ReadOnly),
        Err(Ext2Error::CorruptMetadata { .. }),
    ));
}

#[test]
fn mount_rejects_invalid_profile_fields() {
    let mutations: &[fn(&mut Ext2Fixture)] = &[
        |image| image.set_magic(0),
        |image| image.set_revision(0),
        |image| image.set_log_block_size(1),
        |image| image.set_log_fragment_size(1),
        |image| image.set_inode_size(128),
        |image| image.set_block_count(32_767),
        |image| image.set_inode_count(4_095),
        |image| image.set_blocks_per_group(32_767),
        |image| image.set_fragments_per_group(32_767),
        |image| image.set_inodes_per_group(4_095),
        |image| image.set_first_data_block(1),
    ];
    for mutation in mutations {
        let mut image = profile_image();
        mutation(&mut image);
        assert!(matches!(
            Ext2::mount(image.open(), MountMode::ReadOnly),
            Err(Ext2Error::UnsupportedProfile { .. }),
        ));
    }
}

#[test]
fn mount_rejects_invalid_bitmap_locations_and_metadata_overlap() {
    for mutation in [
        |image: &mut Ext2Fixture| image.set_block_bitmap_block(32_768),
        |image: &mut Ext2Fixture| image.set_inode_bitmap_block(32_768),
        |image: &mut Ext2Fixture| image.set_inode_table_block(1),
    ] {
        let mut image = profile_image();
        mutation(&mut image);
        assert!(matches!(
            Ext2::mount(image.open(), MountMode::ReadOnly),
            Err(Ext2Error::CorruptMetadata { .. }),
        ));
    }
}

#[test]
fn mount_rejects_a_device_shorter_than_the_fixed_profile() {
    let image = profile_image();
    let mut device = image.open();
    device.sector_count -= 1;

    assert!(matches!(
        Ext2::mount(device, MountMode::ReadOnly),
        Err(Ext2Error::UnsupportedProfile {
            field: "device_length"
        }),
    ));
}

#[test]
fn mount_never_writes_or_flushes_the_device() {
    let image = profile_image();
    let mut device = image.open();

    assert!(Ext2::mount(&mut device, MountMode::ReadWrite).is_ok());
    assert_eq!(device.writes, 0);
    assert_eq!(device.flushes, 0);
}

impl BlockDevice for &mut ProfileDevice {
    fn geometry_view(&self) -> BlockGeometry {
        self.geometry()
    }

    fn requests(&self) -> vstd::seq::Seq<relay::block::DeviceRequest> {
        unreachable!("the request log is a specification view")
    }

    fn geometry(&self) -> BlockGeometry {
        (**self).geometry()
    }

    fn read_sectors(&mut self, first_lba: u64, dst: &mut [u8]) -> Result<(), BlockError> {
        (**self).read_sectors(first_lba, dst)
    }

    fn write_sectors(&mut self, first_lba: u64, src: &[u8]) -> Result<(), BlockError> {
        (**self).write_sectors(first_lba, src)
    }

    fn flush(&mut self) -> Result<(), BlockError> {
        (**self).flush()
    }
}
