use relay::abi::MemoryRegion;
use relay::loader::memory::{
    FirmwareDescriptor, FirmwareMap, MAX_MEMORY_REGIONS, MEMORY_REGION_RESERVED,
    MEMORY_REGION_USABLE, MemoryError, normalize_final_map,
};

fn region_slots() -> Vec<MemoryRegion> {
    (0..MAX_MEMORY_REGIONS)
        .map(|_| MemoryRegion {
            start: 0,
            end: 0,
            kind: 0,
            reserved: 0,
        })
        .collect()
}
use relay::loader::post_ebs::{FinalMap, sort_final_map};

struct CountingMap {
    len: usize,
    sorts: usize,
}

impl FinalMap for CountingMap {
    fn entry_count(&self) -> usize {
        self.len
    }

    fn sorted_from(&self, earlier: Self) -> bool {
        self.len == earlier.len
    }

    fn len(&self) -> usize {
        self.len
    }

    fn sort(&mut self) {
        self.sorts += 1;
    }
}

#[test]
fn capacity_guard_rejects_the_map_without_sorting() {
    let mut map = CountingMap { len: 513, sorts: 0 };

    assert_eq!(sort_final_map(&mut map, 512), Err(()));
    assert_eq!(map.sorts, 0);
}

#[test]
fn accepted_map_is_sorted_exactly_once() {
    let mut map = CountingMap { len: 512, sorts: 0 };

    assert_eq!(sort_final_map(&mut map, 512), Ok(()));
    assert_eq!(map.sorts, 1);
}

fn descriptor(conventional: bool, phys_start: u64, page_count: u64) -> FirmwareDescriptor {
    FirmwareDescriptor {
        phys_start,
        page_count,
        conventional,
    }
}

#[test]
fn unordered_disjoint_map_normalizes_to_sorted_abi_regions() {
    let mut descriptors = [
        descriptor(true, 0x9000, 2),
        descriptor(false, 0x2000, 1),
        descriptor(true, 0x5000, 3),
    ];
    let mut map = FirmwareMap {
        descriptors: &mut descriptors,
    };
    let mut regions = region_slots();

    let entry_count = normalize_final_map(&mut map, &mut regions).unwrap();

    assert_eq!(entry_count, 3);
    assert_eq!(regions[0].start, 0x2000);
    assert_eq!(regions[0].end, 0x3000);
    assert_eq!(regions[0].kind, MEMORY_REGION_RESERVED);
    assert_eq!(regions[1].start, 0x5000);
    assert_eq!(regions[1].end, 0x8000);
    assert_eq!(regions[1].kind, MEMORY_REGION_USABLE);
    assert_eq!(regions[2].start, 0x9000);
    assert_eq!(regions[2].end, 0xb000);
    assert_eq!(regions[2].kind, MEMORY_REGION_USABLE);
}

#[test]
fn unordered_nonadjacent_overlap_is_rejected_after_sorting() {
    let mut descriptors = [
        descriptor(false, 0x5000, 1),
        descriptor(true, 0x9000, 1),
        descriptor(false, 0x1000, 1),
        descriptor(true, 0x4000, 2),
    ];
    let mut map = FirmwareMap {
        descriptors: &mut descriptors,
    };
    let mut regions = region_slots();

    assert_eq!(
        normalize_final_map(&mut map, &mut regions),
        Err(MemoryError::UnsortedOrOverlapping)
    );
}
