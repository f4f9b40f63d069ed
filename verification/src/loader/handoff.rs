use vstd::prelude::*;

use crate::abi::{
    BOOT_ABI_VERSION, BOOT_INFO_MAGIC, BootInfo, FramebufferInfo, GptGuid, MemoryMap,
};
use super::memory::{FirmwareDescriptor, PHYSICAL_MEMORY_OFFSET, descriptor_end};

verus! {

/// Pages of the stack the kernel starts on.
pub const STACK_PAGES: usize = 16;

/// Size in bytes of the hand-off record.
pub const BOOT_INFO_SIZE: u32 = 120;

#[derive(Clone, Copy, Debug, PartialEq, Eq, Structural)]
pub enum HandoffError {
    Files,
    Config,
    Elf,
    Memory,
    Paging,
    Graphics,
    Acpi,
}

/// Pixel layouts the firmware's graphics output can report.
#[derive(Clone, Copy, Debug, PartialEq, Eq, Structural)]
pub enum GopPixelFormat {
    Rgb,
    Bgr,
    Bitmask,
    BltOnly,
}

/// The hand-off description of the firmware framebuffer: four bytes per pixel, the pixel
/// layout as code 0 (RGB), 1 (BGR) or 2 (masks); a framebuffer without a linear layout, or
/// dimensions that do not fit 32 bits, are refused.
pub fn framebuffer_record(
    physical_base: u64,
    size: usize,
    width: usize,
    height: usize,
    stride: usize,
    format: GopPixelFormat,
) -> (r: Result<FramebufferInfo, HandoffError>)
    ensures
        r is Ok <==> (format != GopPixelFormat::BltOnly && width <= u32::MAX && height
            <= u32::MAX && stride <= u32::MAX),
        r matches Ok(info) ==> {
            &&& info.physical_base == physical_base
            &&& info.byte_len == size
            &&& info.width == width
            &&& info.height == height
            &&& info.stride_pixels == stride
            &&& info.bytes_per_pixel == 4
            &&& info.pixel_format == match format {
                GopPixelFormat::Rgb => 0u32,
                GopPixelFormat::Bgr => 1u32,
                _ => 2u32,
            }
            &&& info.red_mask == 0 && info.green_mask == 0 && info.blue_mask == 0
                && info.reserved_mask == 0
        },
        r is Err ==> r == Err::<FramebufferInfo, HandoffError>(HandoffError::Graphics),
{
    let pixel_format: u32 = match format {
        GopPixelFormat::Rgb => 0,
        GopPixelFormat::Bgr => 1,
        GopPixelFormat::Bitmask => 2,
        GopPixelFormat::BltOnly => return Err(HandoffError::Graphics),
    };
    if width > u32::MAX as usize || height > u32::MAX as usize || stride > u32::MAX as usize {
        return Err(HandoffError::Graphics);
    }
    Ok(
        FramebufferInfo {
            physical_base,
            byte_len: size as u64,
            width: width as u32,
            height: height as u32,
            stride_pixels: stride as u32,
            bytes_per_pixel: 4,
            pixel_format,
            red_mask: 0,
            green_mask: 0,
            blue_mask: 0,
            reserved_mask: 0,
        },
    )
}

/// Which ACPI table a firmware configuration entry announces.
#[derive(Clone, Copy, Debug, PartialEq, Eq, Structural)]
pub enum ConfigTableKind {
    Acpi2,
    Acpi1,
    Other,
}

/// Position of the first entry of `kind` among the first `n` entries, scanning in order.
pub open spec fn first_index(entries: Seq<(ConfigTableKind, u64)>, kind: ConfigTableKind, n: int) -> Option<
    int,
>
    decreases n,
{
    if n <= 0 {
        None
    } else {
        match first_index(entries, kind, n - 1) {
            Some(i) => Some(i),
            None => if entries[n - 1].0 == kind {
                Some(n - 1)
            } else {
                None
            },
        }
    }
}

/// The RSDP address of the firmware configuration tables: the first ACPI 2.0 entry's, or
/// failing that the first ACPI 1.0 entry's; refused when there is neither or the address
/// is zero.
pub open spec fn rsdp_spec(entries: Seq<(ConfigTableKind, u64)>) -> Result<u64, HandoffError> {
    let chosen = match first_index(entries, ConfigTableKind::Acpi2, entries.len() as int) {
        Some(i) => Some(i),
        None => first_index(entries, ConfigTableKind::Acpi1, entries.len() as int),
    };
    match chosen {
        Some(i) => if entries[i].1 != 0 {
            Ok(entries[i].1)
        } else {
            Err(HandoffError::Acpi)
        },
        None => Err(HandoffError::Acpi),
    }
}

fn find_kind(entries: &[(ConfigTableKind, u64)], kind: ConfigTableKind) -> (r: Option<usize>)
    ensures
        match r {
            Some(i) => i < entries@.len() && first_index(entries@, kind, entries@.len() as int)
                == Some(i as int),
            None => first_index(entries@, kind, entries@.len() as int) == None::<int>,
        },
{
    let mut i: usize = 0;
    while i < entries.len()
        invariant
            i <= entries@.len(),
            first_index(entries@, kind, i as int) == None::<int>,
        decreases entries@.len() - i,
    {
        if entries[i].0 == kind {
            proof {
                lemma_first_index_stable(entries@, kind, i + 1, entries@.len() as int);
            }
            return Some(i);
        }
        i = i + 1;
    }
    None
}

proof fn lemma_first_index_stable(
    entries: Seq<(ConfigTableKind, u64)>,
    kind: ConfigTableKind,
    n: int,
    m: int,
)
    requires
        0 <= n <= m,
        first_index(entries, kind, n) is Some,
    ensures
        first_index(entries, kind, m) == first_index(entries, kind, n),
    decreases m - n,
{
    if n < m {
        lemma_first_index_stable(entries, kind, n, m - 1);
    }
}

/// Picks the ACPI RSDP address from the firmware configuration tables.
pub fn select_rsdp(entries: &[(ConfigTableKind, u64)]) -> (r: Result<u64, HandoffError>)
    ensures
        r == rsdp_spec(entries@),
{
    let chosen = match find_kind(entries, ConfigTableKind::Acpi2) {
        Some(i) => Some(i),
        None => find_kind(entries, ConfigTableKind::Acpi1),
    };
    match chosen {
        Some(i) => {
            let address = entries[i].1;
            if address != 0 {
                Ok(address)
            } else {
                Err(HandoffError::Acpi)
            }
        },
        None => Err(HandoffError::Acpi),
    }
}

/// The loader image's start and length, refused when either is zero or its end does not
/// fit 64 bits.
pub fn image_range(start: u64, len: u64) -> (r: Result<(u64, u64), HandoffError>)
    ensures
        (start != 0 && len != 0 && start + len <= u64::MAX) ==> r == Ok::<
            (u64, u64),
            HandoffError,
        >((start, len)),
        !(start != 0 && len != 0 && start + len <= u64::MAX) ==> r == Err::<
            (u64, u64),
            HandoffError,
        >(HandoffError::Paging),
{
    if start == 0 || len == 0 || start.checked_add(len).is_none() {
        return Err(HandoffError::Paging);
    }
    Ok((start, len))
}

/// End of the RAM a firmware descriptor covers, refused when it does not fit 64 bits.
pub fn descriptor_range_end(descriptor: FirmwareDescriptor) -> (r: Result<u64, HandoffError>)
    ensures
        (descriptor.page_count * 4096 <= u64::MAX && descriptor_end(descriptor) <= u64::MAX)
            ==> r == Ok::<u64, HandoffError>(descriptor_end(descriptor) as u64),
        !(descriptor.page_count * 4096 <= u64::MAX && descriptor_end(descriptor) <= u64::MAX)
            ==> r == Err::<u64, HandoffError>(HandoffError::Memory),
{
    let length = match descriptor.page_count.checked_mul(4096) {
        Some(length) => length,
        None => return Err(HandoffError::Memory),
    };
    match descriptor.phys_start.checked_add(length) {
        Some(end) => Ok(end),
        None => Err(HandoffError::Memory),
    }
}

/// Whether the RAM a descriptor covers ends within 64 bits.
pub open spec fn descriptor_fits(d: FirmwareDescriptor) -> bool {
    d.page_count * 4096 <= u64::MAX && descriptor_end(d) <= u64::MAX
}

/// Start and end of the RAM of each conventional descriptor, in order.
pub open spec fn usable_ranges(descriptors: Seq<FirmwareDescriptor>) -> Seq<(u64, u64)>
    decreases descriptors.len(),
{
    if descriptors.len() == 0 {
        Seq::empty()
    } else {
        let rest = usable_ranges(descriptors.drop_last());
        let d = descriptors.last();
        if d.conventional {
            rest.push((d.phys_start, descriptor_end(d) as u64))
        } else {
            rest
        }
    }
}

/// The RAM ranges to map for the kernel: each conventional descriptor's start and end, in
/// order; refused when one of them ends beyond 64 bits.
pub fn usable_ram_ranges(descriptors: &[FirmwareDescriptor]) -> (r: Result<
    Vec<(u64, u64)>,
    HandoffError,
>)
    ensures
        (forall|i: int|
            0 <= i < descriptors@.len() && (#[trigger] descriptors@[i]).conventional
                ==> descriptor_fits(descriptors@[i])) ==> (r matches Ok(v) && v@ == usable_ranges(
            descriptors@,
        )),
        !(forall|i: int|
            0 <= i < descriptors@.len() && (#[trigger] descriptors@[i]).conventional
                ==> descriptor_fits(descriptors@[i])) ==> r == Err::<Vec<(u64, u64)>, HandoffError>(
            HandoffError::Memory,
        ),
{
    let mut ranges: Vec<(u64, u64)> = Vec::new();
    let mut i: usize = 0;
    while i < descriptors.len()
        invariant
            i <= descriptors@.len(),
            ranges@ == usable_ranges(descriptors@.subrange(0, i as int)),
            forall|j: int|
                0 <= j < i && (#[trigger] descriptors@[j]).conventional ==> descriptor_fits(
                    descriptors@[j],
                ),
        decreases descriptors@.len() - i,
    {
        let d = descriptors[i];
        assert(descriptors@.subrange(0, i + 1).drop_last() =~= descriptors@.subrange(0, i as int));
        if d.conventional {
            let end = match descriptor_range_end(d) {
                Ok(end) => end,
                Err(e) => return Err(e),
            };
            ranges.push((d.phys_start, end));
        }
        i += 1;
    }
    assert(descriptors@.subrange(0, descriptors@.len() as int) =~= descriptors@);
    Ok(ranges)
}

/// The hand-off record for the kernel.
pub fn boot_info_record(
    framebuffer: FramebufferInfo,
    root_partition_guid: GptGuid,
    acpi_rsdp_phys: u64,
    entries_address: u64,
    entry_count: u64,
) -> (r: BootInfo)
    ensures
        r.magic == BOOT_INFO_MAGIC,
        r.abi_version == BOOT_ABI_VERSION,
        r.struct_size == BOOT_INFO_SIZE,
        r.memory_map.entries_address == entries_address,
        r.memory_map.entry_count == entry_count,
        r.framebuffer == framebuffer,
        r.root_partition_guid == root_partition_guid,
        r.physical_memory_offset == PHYSICAL_MEMORY_OFFSET,
        r.acpi_rsdp_phys == acpi_rsdp_phys,
{
    BootInfo {
        magic: BOOT_INFO_MAGIC,
        abi_version: BOOT_ABI_VERSION,
        struct_size: BOOT_INFO_SIZE,
        memory_map: MemoryMap { entries_address, entry_count },
        framebuffer,
        root_partition_guid,
        physical_memory_offset: PHYSICAL_MEMORY_OFFSET,
        acpi_rsdp_phys,
    }
}

} // verus!
