use core::str::FromStr;

use relay::abi::{BOOT_ABI_VERSION, BOOT_INFO_MAGIC, GptGuid, MemoryRegion};
use relay::loader::files::{FileError, MAX_FILE_BYTES, accept_chunk};
use relay::loader::handoff::{
    ConfigTableKind, GopPixelFormat, HandoffError, boot_info_record, descriptor_range_end,
    framebuffer_record, image_range, select_rsdp, usable_ram_ranges,
};
use relay::loader::memory::{
    Allocation, FirmwareDescriptor, MemoryError, PHYSICAL_MEMORY_OFFSET, allocation_byte_len,
    check_transition_len, normalize_memory_map, pages_for_bytes, segment_layout,
};

#[test]
fn file_chunks_accumulate_until_an_empty_read() {
    let mut contents = Vec::new();
    assert_eq!(accept_chunk(&mut contents, b"abc"), Ok(false));
    assert_eq!(accept_chunk(&mut contents, b"de"), Ok(false));
    assert_eq!(accept_chunk(&mut contents, b""), Ok(true));
    assert_eq!(contents, b"abcde");
}

#[test]
fn file_chunks_past_the_limit_are_refused() {
    let mut contents = vec![0u8; MAX_FILE_BYTES - 1];
    assert_eq!(accept_chunk(&mut contents, b"xy"), Err(FileError::TooLarge));
    assert_eq!(contents.len(), MAX_FILE_BYTES - 1);
    assert_eq!(accept_chunk(&mut contents, b"x"), Ok(false));
    assert_eq!(contents.len(), MAX_FILE_BYTES);
}

#[test]
fn framebuffer_record_describes_linear_framebuffers_only() {
    let info = framebuffer_record(0xc000_0000, 0x30_0000, 1024, 768, 1024, GopPixelFormat::Bgr)
        .unwrap();
    assert_eq!(info.physical_base, 0xc000_0000);
    assert_eq!(info.byte_len, 0x30_0000);
    assert_eq!(info.width, 1024);
    assert_eq!(info.height, 768);
    assert_eq!(info.stride_pixels, 1024);
    assert_eq!(info.bytes_per_pixel, 4);
    assert_eq!(info.pixel_format, 1);
    assert_eq!(
        framebuffer_record(0, 0, 1, 1, 1, GopPixelFormat::BltOnly).err(),
        Some(HandoffError::Graphics)
    );
}

#[test]
fn rsdp_prefers_acpi2_then_acpi1_and_rejects_zero() {
    let entries = [
        (ConfigTableKind::Other, 0x10),
        (ConfigTableKind::Acpi1, 0x20),
        (ConfigTableKind::Acpi2, 0x30),
        (ConfigTableKind::Acpi2, 0x40),
    ];
    assert_eq!(select_rsdp(&entries), Ok(0x30));
    assert_eq!(select_rsdp(&entries[..2]), Ok(0x20));
    assert_eq!(select_rsdp(&entries[..1]), Err(HandoffError::Acpi));
    assert_eq!(
        select_rsdp(&[(ConfigTableKind::Acpi2, 0), (ConfigTableKind::Acpi1, 0x20)]),
        Err(HandoffError::Acpi)
    );
}

#[test]
fn loaded_image_range_must_be_nonempty_and_representable() {
    assert_eq!(image_range(0x1000, 0x2000), Ok((0x1000, 0x2000)));
    assert_eq!(image_range(0, 0x2000), Err(HandoffError::Paging));
    assert_eq!(image_range(0x1000, 0), Err(HandoffError::Paging));
    assert_eq!(image_range(u64::MAX, 1), Err(HandoffError::Paging));
}

#[test]
fn descriptor_end_is_checked() {
    let descriptor = FirmwareDescriptor {
        phys_start: 0x10_0000,
        page_count: 16,
        conventional: true,
    };
    assert_eq!(descriptor_range_end(descriptor), Ok(0x11_0000));
    let huge = FirmwareDescriptor {
        phys_start: 0x1000,
        page_count: u64::MAX / 4096,
        conventional: true,
    };
    assert_eq!(descriptor_range_end(huge), Err(HandoffError::Memory));
}

#[test]
fn boot_info_record_carries_the_abi_constants() {
    let guid = GptGuid::from_str("52454c41-5900-4000-8000-000000000003").unwrap();
    let framebuffer = framebuffer_record(0, 0, 1, 1, 1, GopPixelFormat::Rgb).unwrap();
    let info = boot_info_record(framebuffer, guid, 0xe0000, 0x5000, 3);
    assert_eq!(info.magic, BOOT_INFO_MAGIC);
    assert_eq!(info.abi_version, BOOT_ABI_VERSION);
    assert_eq!(info.struct_size as usize, core::mem::size_of::<relay::abi::BootInfo>());
    assert_eq!(info.memory_map.entries_address, 0x5000);
    assert_eq!(info.memory_map.entry_count, 3);
    assert_eq!(info.root_partition_guid, guid);
    assert_eq!(info.physical_memory_offset, PHYSICAL_MEMORY_OFFSET);
    assert_eq!(info.acpi_rsdp_phys, 0xe0000);
}

#[test]
fn segment_layout_rounds_to_whole_pages() {
    let layout = segment_layout(0xffff_8000_0000_1234, 0x2000).unwrap();
    assert_eq!(layout.page_virtual_start, 0xffff_8000_0000_1000);
    assert_eq!(layout.page_offset, 0x234);
    assert_eq!(layout.pages, 3);
    assert_eq!(pages_for_bytes(0), Ok(0));
    assert_eq!(pages_for_bytes(4097), Ok(2));
    assert_eq!(pages_for_bytes(usize::MAX), Err(MemoryError::AddressOverflow));
}

#[test]
fn allocations_are_nonempty_and_representable() {
    assert_eq!(allocation_byte_len(2), Ok(8192));
    assert_eq!(allocation_byte_len(0), Err(MemoryError::AddressOverflow));
    assert_eq!(allocation_byte_len(usize::MAX), Err(MemoryError::AddressOverflow));
    let allocation = Allocation {
        physical_start: 0x20_0000,
        pages: 16,
    };
    assert_eq!(allocation.byte_len(), Ok(0x1_0000));
    assert_eq!(allocation.end(), Ok(0x21_0000));
    let wrapping = Allocation {
        physical_start: u64::MAX - 0xfff,
        pages: 1,
    };
    assert_eq!(wrapping.end(), Err(MemoryError::AddressOverflow));
    assert_eq!(check_transition_len(4096), Ok(()));
    assert_eq!(check_transition_len(4097), Err(MemoryError::TransitionTooLarge));
}

#[test]
fn sorted_map_with_too_many_entries_is_refused() {
    let descriptor = FirmwareDescriptor {
        phys_start: 0,
        page_count: 0,
        conventional: false,
    };
    let descriptors = vec![descriptor; 513];
    let mut regions: Vec<MemoryRegion> = (0..512)
        .map(|_| MemoryRegion {
            start: 7,
            end: 7,
            kind: 7,
            reserved: 7,
        })
        .collect();
    assert_eq!(
        normalize_memory_map(&descriptors, &mut regions),
        Err(MemoryError::TooManyRegions)
    );
    let overflowing = [FirmwareDescriptor {
        phys_start: u64::MAX,
        page_count: 1,
        conventional: true,
    }];
    assert_eq!(
        normalize_memory_map(&overflowing, &mut regions),
        Err(MemoryError::DescriptorArithmetic)
    );
    let sorted = [FirmwareDescriptor {
        phys_start: 0x1000,
        page_count: 2,
        conventional: true,
    }];
    assert_eq!(normalize_memory_map(&sorted, &mut regions), Ok(1));
    assert_eq!(regions[0].start, 0x1000);
    assert_eq!(regions[0].end, 0x3000);
    assert_eq!(regions[0].reserved, 0);
    assert_eq!(regions[1].start, 7);
}

#[test]
fn usable_ram_ranges_keep_conventional_descriptors_in_order() {
    let descriptors = [
        FirmwareDescriptor { phys_start: 0x1000, page_count: 2, conventional: true },
        FirmwareDescriptor { phys_start: 0x8000, page_count: 4, conventional: false },
        FirmwareDescriptor { phys_start: 0x10_0000, page_count: 16, conventional: true },
    ];
    assert_eq!(
        usable_ram_ranges(&descriptors),
        Ok(vec![(0x1000, 0x3000), (0x10_0000, 0x11_0000)])
    );
    let overflowing = [
        FirmwareDescriptor { phys_start: 0x1000, page_count: 2, conventional: true },
        FirmwareDescriptor { phys_start: u64::MAX - 0xfff, page_count: 2, conventional: true },
    ];
    assert_eq!(usable_ram_ranges(&overflowing), Err(HandoffError::Memory));
    let ignored = [FirmwareDescriptor { phys_start: u64::MAX - 0xfff, page_count: 2, conventional: false }];
    assert_eq!(usable_ram_ranges(&ignored), Ok(vec![]));
}
