use relay::loader::paging::{
    NO_EXECUTE, PAGE_SIZE_2M, PRESENT, PageTables, PagingError, bar_mapping_range,
};
use relay::loader::{PagingDepth, SegmentFlags, TransitionPage};
use relay::loader::memory::Allocation;

const ADDRESS_MASK: u64 = 0x000f_ffff_ffff_f000;

fn assert_executable_identity_leaf(entry: u64, physical_start: u64, huge: bool) {
    assert_ne!(entry & PRESENT, 0);
    assert_eq!(entry & NO_EXECUTE, 0);
    assert_eq!(entry & PAGE_SIZE_2M != 0, huge);
    assert_eq!(
        entry & ADDRESS_MASK,
        if huge {
            physical_start & !(2 * 1024 * 1024 - 1)
        } else {
            physical_start
        }
    );
}

#[test]
fn bar_mapping_covers_an_unaligned_physical_range() {
    assert_eq!(bar_mapping_range(0x1234, 0x2000), Ok((0x1000, 3, 0x234)));
}

#[test]
fn bar_mapping_rejects_physical_range_outside_the_direct_map() {
    assert_eq!(
        bar_mapping_range(0x8000_0000_0000, 1),
        Err(PagingError::AddressOverflow)
    );
}

#[test]
fn fresh_transition_page_creates_an_executable_4k_leaf_in_each_depth() {
    for depth in [PagingDepth::FourLevel, PagingDepth::FiveLevel] {
        let mut tables = PageTables::new(depth).unwrap();
        let page = TransitionPage {
            physical_start: 0x1_0020_0000,
        };
        tables.map_transition_page(page).unwrap();
        assert_executable_identity_leaf(
            tables.transition_leaf_entry(page.physical_start).unwrap(),
            page.physical_start,
            false,
        );
    }
}

#[test]
fn bootstrap_identity_map_preserves_a_prior_transition_page_in_each_depth() {
    for depth in [PagingDepth::FourLevel, PagingDepth::FiveLevel] {
        let mut tables = PageTables::new(depth).unwrap();
        let page = TransitionPage {
            physical_start: 0x0020_1000,
        };
        tables.map_transition_page(page).unwrap();
        tables.map_identity_first_4g().unwrap();
        assert_executable_identity_leaf(
            tables.transition_leaf_entry(page.physical_start).unwrap(),
            page.physical_start,
            false,
        );
        assert_executable_identity_leaf(
            tables
                .transition_leaf_entry(page.physical_start + 0x1000)
                .unwrap(),
            page.physical_start + 0x1000,
            false,
        );
    }
}

#[test]
fn transition_page_accepts_an_executable_bootstrap_huge_leaf_in_each_depth() {
    for depth in [PagingDepth::FourLevel, PagingDepth::FiveLevel] {
        let mut tables = PageTables::new(depth).unwrap();
        tables.map_identity_first_4g().unwrap();
        let page = TransitionPage {
            physical_start: 0x0020_1000,
        };
        tables.map_transition_page(page).unwrap();
        assert_executable_identity_leaf(
            tables.transition_leaf_entry(page.physical_start).unwrap(),
            page.physical_start,
            true,
        );
    }
}

#[test]
fn real_four_level_tables_reject_a_noncanonical_transition_page() {
    let mut tables = PageTables::new(PagingDepth::FourLevel).unwrap();
    assert_eq!(
        tables.map_transition_page(TransitionPage {
            physical_start: 0x0001_0000_0000_0000,
        }),
        Err(PagingError::AddressOverflow)
    );
}

#[test]
fn kernel_segment_pages_translate_to_consecutive_frames() {
    let mut tables = PageTables::new(PagingDepth::FourLevel).unwrap();
    let virtual_start = 0xffff_8000_0010_0000;
    let physical_start = 0x0040_0000;
    tables
        .map_kernel_segment(
            virtual_start,
            physical_start,
            3,
            SegmentFlags::read() | SegmentFlags::execute(),
        )
        .unwrap();
    for page in 0..3u64 {
        assert_eq!(
            tables.transition_leaf_entry(virtual_start + page * 0x1000),
            Some((physical_start + page * 0x1000) | PRESENT)
        );
    }
    assert_eq!(tables.transition_leaf_entry(virtual_start + 3 * 0x1000), None);

    tables
        .map_kernel_segment(0xffff_8000_0020_0000, 0x0080_0000, 1, SegmentFlags::read() | SegmentFlags::write())
        .unwrap();
    assert_eq!(
        tables.transition_leaf_entry(0xffff_8000_0020_0000),
        Some(0x0080_0000 | PRESENT | 0x2 | NO_EXECUTE)
    );
    assert_eq!(
        tables.map_kernel_segment(virtual_start, physical_start, 1, SegmentFlags::read()),
        Err(PagingError::AlreadyMapped)
    );
}

#[test]
fn pci_bars_get_consecutive_uncached_windows() {
    let mut tables = PageTables::new(PagingDepth::FourLevel).unwrap();
    let first = tables.map_pci_bar(0xfebf_1234, 0x2000).unwrap();
    assert_eq!(first, 0xffff_c000_0000_0234);
    let second = tables.map_pci_bar(0xfec0_0000, 0x10).unwrap();
    assert_eq!(second, 0xffff_c000_0000_3000);
    assert_eq!(
        tables.transition_leaf_entry(0xffff_c000_0000_2000),
        Some(0xfebf_3000 | PRESENT | 0x2 | 0x8 | 0x10 | NO_EXECUTE)
    );
}

#[test]
fn placed_tables_point_at_their_pages() {
    let mut tables = PageTables::new(PagingDepth::FourLevel).unwrap();
    tables
        .map_framebuffer(0x8000_0000, 0x1000)
        .unwrap();
    let count = tables.table_count();
    assert_eq!(count, 4);
    let placement: Vec<u64> = (0..count as u64).map(|table| 0x10_0000 + table * 0x1000).collect();
    let images = tables.table_images(&placement).unwrap();
    assert_eq!(images.len(), 4 * 512);
    let pointers: Vec<u64> = images[..512]
        .iter()
        .copied()
        .filter(|entry| entry & PRESENT != 0)
        .collect();
    assert_eq!(pointers, vec![0x10_1000 | PRESENT | 0x2]);
    assert!(tables.table_images(&placement[..3]).is_err());
    assert!(tables.table_images(&[0x10_0001, 0x10_1000, 0x10_2000, 0x10_3000]).is_err());
}

#[test]
fn allocation_above_the_bootstrap_range_is_identity_mapped_as_data() {
    let mut tables = PageTables::new(PagingDepth::FourLevel).unwrap();
    let allocation = Allocation { physical_start: 0x1_0000_0000 - 0x1000, pages: 3 };
    tables.map_identity_allocation(allocation).unwrap();
    assert_eq!(tables.transition_leaf_entry(0x1_0000_0000 - 0x1000), None);
    for page in 0..2u64 {
        let address = 0x1_0000_0000 + page * 0x1000;
        assert_eq!(
            tables.transition_leaf_entry(address),
            Some(address | PRESENT | 0x2 | NO_EXECUTE)
        );
    }
    assert_eq!(tables.transition_leaf_entry(0x1_0000_0000 + 2 * 0x1000), None);
}

#[test]
fn usable_ram_uses_large_pages_for_whole_blocks_and_small_pages_at_the_edges() {
    let offset = relay::loader::memory::PHYSICAL_MEMORY_OFFSET;
    let data = PRESENT | 0x2 | NO_EXECUTE;
    let mut tables = PageTables::new(PagingDepth::FourLevel).unwrap();
    tables.map_usable_ram(0x3f_f000, 0x80_1000).unwrap();
    assert_eq!(tables.transition_leaf_entry(offset + 0x3f_f000), Some(0x3f_f000 | data));
    assert_eq!(
        tables.transition_leaf_entry(offset + 0x40_3000),
        Some(0x40_0000 | data | PAGE_SIZE_2M)
    );
    assert_eq!(
        tables.transition_leaf_entry(offset + 0x7f_f000),
        Some(0x60_0000 | data | PAGE_SIZE_2M)
    );
    assert_eq!(tables.transition_leaf_entry(offset + 0x80_0000), Some(0x80_0000 | data));
    assert_eq!(tables.transition_leaf_entry(offset + 0x80_1000), None);
}

#[test]
fn execution_range_above_the_bootstrap_range_is_identity_mapped_writable() {
    let mut tables = PageTables::new(PagingDepth::FourLevel).unwrap();
    tables.map_identity_execution_range(0x1_0000_0010, 0x1ff0).unwrap();
    assert_eq!(tables.transition_leaf_entry(0x1_0000_0000), Some(0x1_0000_0000 | PRESENT | 0x2));
    assert_eq!(tables.transition_leaf_entry(0x1_0000_1000), Some(0x1_0000_1000 | PRESENT | 0x2));
    assert_eq!(tables.transition_leaf_entry(0x1_0000_2000), None);
    assert_eq!(tables.transition_leaf_entry(0xffff_f000), None);
}
