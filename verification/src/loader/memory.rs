use vstd::prelude::*;

use crate::abi::MemoryRegion;
use super::elf::SegmentFlags;
use super::post_ebs::{FinalMap, sort_final_map};

verus! {

pub const PAGE_SIZE: u64 = 4096;

/// Virtual address at which the kernel sees all physical memory.
pub const PHYSICAL_MEMORY_OFFSET: u64 = 0xffff_8000_0000_0000;

/// Hand-off region kind for memory the kernel must leave alone.
pub const MEMORY_REGION_RESERVED: u32 = 0;

/// Hand-off region kind for memory the kernel may allocate from.
pub const MEMORY_REGION_USABLE: u32 = 1;

/// How many regions the hand-off record has room for.
pub const MAX_MEMORY_REGIONS: usize = 512;

#[derive(Clone, Copy, Debug, PartialEq, Eq, Structural)]
pub enum MemoryError {
    AddressOverflow,
    Allocation,
    TooManyRegions,
    UnsortedOrOverlapping,
    DescriptorArithmetic,
    SegmentOutOfBounds,
    TransitionTooLarge,
}

/// A run of whole pages obtained from the firmware.
#[derive(Clone, Copy, Debug, PartialEq, Eq, Structural)]
pub struct Allocation {
    pub physical_start: u64,
    pub pages: usize,
}

impl Allocation {
    /// Size of the run in bytes, if it fits a `usize`.
    pub fn byte_len(self) -> (r: Result<usize, MemoryError>)
        ensures
            self.pages * 4096 <= usize::MAX ==> r == Ok::<usize, MemoryError>(
                (self.pages * 4096) as usize,
            ),
            self.pages * 4096 > usize::MAX ==> r == Err::<usize, MemoryError>(
                MemoryError::AddressOverflow,
            ),
    {
        match self.pages.checked_mul(PAGE_SIZE as usize) {
            Some(bytes) => Ok(bytes),
            None => Err(MemoryError::AddressOverflow),
        }
    }

    /// First physical address after the run.
    pub fn end(self) -> (r: Result<u64, MemoryError>)
        ensures
            (self.pages * 4096 <= usize::MAX && self.physical_start + self.pages * 4096
                <= u64::MAX) ==> r == Ok::<u64, MemoryError>(
                (self.physical_start + self.pages * 4096) as u64,
            ),
            !(self.pages * 4096 <= usize::MAX && self.physical_start + self.pages * 4096
                <= u64::MAX) ==> r == Err::<u64, MemoryError>(MemoryError::AddressOverflow),
    {
        let byte_len = match self.byte_len() {
            Ok(bytes) => bytes,
            Err(e) => return Err(e),
        };
        match self.physical_start.checked_add(byte_len as u64) {
            Some(end) => Ok(end),
            None => Err(MemoryError::AddressOverflow),
        }
    }
}

/// The transition code must fit the single page it is copied to.
pub fn check_transition_len(len: usize) -> (r: Result<(), MemoryError>)
    ensures
        len > PAGE_SIZE ==> r == Err::<(), MemoryError>(MemoryError::TransitionTooLarge),
        len <= PAGE_SIZE ==> r == Ok::<(), MemoryError>(()),
{
    if len > PAGE_SIZE as usize {
        return Err(MemoryError::TransitionTooLarge);
    }
    Ok(())
}

/// Number of whole pages that cover `bytes` bytes.
pub fn pages_for_bytes(bytes: usize) -> (r: Result<usize, MemoryError>)
    ensures
        bytes + 4095 <= usize::MAX ==> r == Ok::<usize, MemoryError>(
            ((bytes + 4095) / 4096) as usize,
        ),
        bytes + 4095 > usize::MAX ==> r == Err::<usize, MemoryError>(MemoryError::AddressOverflow),
{
    match bytes.checked_add(PAGE_SIZE as usize - 1) {
        Some(padded) => Ok(padded / PAGE_SIZE as usize),
        None => Err(MemoryError::AddressOverflow),
    }
}

/// Byte length of a zero-filled allocation of `pages` pages; an empty request, or one whose
/// length does not fit a `usize`, is refused before the firmware is asked.
pub fn allocation_byte_len(pages: usize) -> (r: Result<usize, MemoryError>)
    ensures
        (pages != 0 && pages * 4096 <= usize::MAX) ==> r == Ok::<usize, MemoryError>(
            (pages * 4096) as usize,
        ),
        !(pages != 0 && pages * 4096 <= usize::MAX) ==> r == Err::<usize, MemoryError>(
            MemoryError::AddressOverflow,
        ),
{
    if pages == 0 {
        return Err(MemoryError::AddressOverflow);
    }
    match pages.checked_mul(PAGE_SIZE as usize) {
        Some(bytes) => Ok(bytes),
        None => Err(MemoryError::AddressOverflow),
    }
}

/// Where a loadable segment's pages start and how many it needs.
#[derive(Clone, Copy, Debug, PartialEq, Eq, Structural)]
pub struct SegmentLayout {
    pub page_virtual_start: u64,
    pub page_offset: usize,
    pub pages: usize,
}

pub open spec fn segment_layout_spec(virtual_start: u64, memory_len: u64) -> Result<
    SegmentLayout,
    MemoryError,
> {
    let offset = virtual_start % 4096;
    if memory_len > usize::MAX || offset + memory_len + 4095 > usize::MAX {
        Err(MemoryError::AddressOverflow)
    } else {
        Ok(
            SegmentLayout {
                page_virtual_start: (virtual_start - offset) as u64,
                page_offset: offset as usize,
                pages: ((offset + memory_len + 4095) / 4096) as usize,
            },
        )
    }
}

/// Page-granular placement of a segment that starts at `virtual_start` and spans
/// `memory_len` bytes: the page it starts in, its offset there, and the page count.
pub fn segment_layout(virtual_start: u64, memory_len: u64) -> (r: Result<
    SegmentLayout,
    MemoryError,
>)
    ensures
        r == segment_layout_spec(virtual_start, memory_len),
{
    let page_virtual_start = virtual_start & !(PAGE_SIZE - 1);
    assert(virtual_start & !4095u64 == (virtual_start - virtual_start % 4096) as u64) by (bit_vector);
    let offset = virtual_start - page_virtual_start;
    let page_offset = offset as usize;
    if memory_len > usize::MAX as u64 {
        return Err(MemoryError::AddressOverflow);
    }
    let length = memory_len as usize;
    let bytes = match page_offset.checked_add(length) {
        Some(bytes) => bytes,
        None => return Err(MemoryError::AddressOverflow),
    };
    let pages = match pages_for_bytes(bytes) {
        Ok(pages) => pages,
        Err(e) => return Err(e),
    };
    Ok(SegmentLayout { page_virtual_start, page_offset, pages })
}

/// A segment copied into freshly allocated pages.
pub struct LoadedSegment {
    pub virtual_start: u64,
    pub physical_start: u64,
    pub page_virtual_start: u64,
    pub pages: usize,
    pub flags: SegmentFlags,
}

/// The kernel once all its segments are in memory.
pub struct LoadedKernel {
    pub entry: u64,
    pub segments: Vec<LoadedSegment>,
}

/// One descriptor of the firmware memory map, reduced to what the hand-off needs.
#[derive(Clone, Copy, Debug, PartialEq, Eq, Structural)]
pub struct FirmwareDescriptor {
    pub phys_start: u64,
    pub page_count: u64,
    /// Whether the firmware marked the range as conventional (free) memory.
    pub conventional: bool,
}

/// The firmware's final memory map, held in memory the caller provides (nothing can be
/// allocated once the firmware's boot services have exited).
pub struct FirmwareMap<'a> {
    pub descriptors: &'a mut [FirmwareDescriptor],
}

/// `p` is a rearrangement of the indices `0..n`.
pub open spec fn permutes(p: Seq<int>, n: int) -> bool {
    &&& p.len() == n
    &&& forall|k: int| 0 <= k < n ==> 0 <= #[trigger] p[k] < n
    &&& forall|k1: int, k2: int| 0 <= k1 < n && 0 <= k2 < n && k1 != k2 ==> p[k1] != p[k2]
}

/// `a` holds the descriptors of `b`, each once, in some order.
pub open spec fn rearranges(a: Seq<FirmwareDescriptor>, b: Seq<FirmwareDescriptor>) -> bool {
    &&& a.len() == b.len()
    &&& exists|p: Seq<int>|
        permutes(p, a.len() as int) && (forall|k: int| 0 <= k < a.len() ==> a[k] == b[#[trigger] p[k]])
}

/// Descriptors in ascending order of their start address.
pub open spec fn sorted_by_start(a: Seq<FirmwareDescriptor>) -> bool {
    forall|i: int, j: int| 0 <= i < j < a.len() ==> a[i].phys_start <= a[j].phys_start
}

impl FinalMap for FirmwareMap<'_> {
    open spec fn entry_count(&self) -> usize {
        self.descriptors@.len() as usize
    }

    open spec fn sorted_from(&self, earlier: Self) -> bool {
        sorted_by_start(self.descriptors@) && rearranges(self.descriptors@, earlier.descriptors@)
    }

    fn len(&self) -> (r: usize) {
        self.descriptors.len()
    }

    /// Sorts the descriptors by start address, in place.
    fn sort(&mut self) {
        let ghost initial = self.descriptors@;
        let ghost mut perm: Seq<int> = Seq::new(initial.len(), |k: int| k);
        let n = self.descriptors.len();
        let mut i: usize = 0;
        while i < n
            invariant
                self.descriptors.len() == n,
                initial.len() == n,
                i <= n,
                permutes(perm, n as int),
                forall|k: int| 0 <= k < n ==> self.descriptors@[k] == initial[#[trigger] perm[k]],
                forall|a: int, b: int|
                    0 <= a < b < i ==> self.descriptors@[a].phys_start
                        <= self.descriptors@[b].phys_start,
            decreases n - i,
        {
            let mut j: usize = i;
            while j > 0 && self.descriptors[j - 1].phys_start > self.descriptors[j].phys_start
                invariant
                    self.descriptors.len() == n,
                    initial.len() == n,
                    j <= i < n,
                    permutes(perm, n as int),
                    forall|k: int|
                        0 <= k < n ==> self.descriptors@[k] == initial[#[trigger] perm[k]],
                    forall|a: int, b: int|
                        0 <= a < b <= i && a != j && b != j ==> self.descriptors@[a].phys_start
                            <= self.descriptors@[b].phys_start,
                    forall|b: int|
                        j < b <= i ==> self.descriptors@[j as int].phys_start
                            < #[trigger] self.descriptors@[b].phys_start,
                decreases j,
            {
                let upper = self.descriptors[j];
                let lower = self.descriptors[j - 1];
                self.descriptors[j] = lower;
                self.descriptors[j - 1] = upper;
                proof {
                    let pj = perm[j as int];
                    let pl = perm[j - 1];
                    perm = perm.update(j as int, pl).update(j - 1, pj);
                }
                j = j - 1;
            }
            i = i + 1;
        }
        assert(permutes(perm, n as int));
        assert(forall|k: int| 0 <= k < n ==> self.descriptors@[k] == initial[#[trigger] perm[k]]);
    }
}

/// End of the range a descriptor covers, in unbounded arithmetic.
pub open spec fn descriptor_end(d: FirmwareDescriptor) -> int {
    d.phys_start + d.page_count * 4096
}

pub open spec fn region_of(d: FirmwareDescriptor) -> MemoryRegion {
    MemoryRegion {
        start: d.phys_start,
        end: descriptor_end(d) as u64,
        kind: if d.conventional {
            MEMORY_REGION_USABLE
        } else {
            MEMORY_REGION_RESERVED
        },
        reserved: 0,
    }
}

/// Hand-off regions of the first `n` descriptors, or the first error met among them.
pub open spec fn regions_prefix(ds: Seq<FirmwareDescriptor>, n: nat) -> Result<
    Seq<MemoryRegion>,
    MemoryError,
>
    decreases n,
{
    if n == 0 {
        Ok(Seq::empty())
    } else {
        match regions_prefix(ds, (n - 1) as nat) {
            Err(e) => Err(e),
            Ok(prev) => {
                let d = ds[n - 1];
                if d.page_count * 4096 > u64::MAX || descriptor_end(d) > u64::MAX {
                    Err(MemoryError::DescriptorArithmetic)
                } else if n >= 2 && d.phys_start < descriptor_end(ds[n - 2]) {
                    Err(MemoryError::UnsortedOrOverlapping)
                } else {
                    Ok(prev.push(region_of(d)))
                }
            },
        }
    }
}

/// Hand-off regions of a firmware map: refused when it holds more than the record has room
/// for, when a descriptor's end does not fit 64 bits, or when one starts before the
/// previous one ends.
pub open spec fn normalized_regions(ds: Seq<FirmwareDescriptor>) -> Result<
    Seq<MemoryRegion>,
    MemoryError,
> {
    if ds.len() > MAX_MEMORY_REGIONS {
        Err(MemoryError::TooManyRegions)
    } else {
        regions_prefix(ds, ds.len())
    }
}

proof fn lemma_regions_prefix_len(ds: Seq<FirmwareDescriptor>, n: nat)
    ensures
        regions_prefix(ds, n) is Ok ==> regions_prefix(ds, n)->Ok_0.len() == n,
    decreases n,
{
    if n > 0 {
        lemma_regions_prefix_len(ds, (n - 1) as nat);
    }
}

/// Writes the hand-off regions of a map that is already sorted into `regions`, in order, and
/// gives their count; slots past the count are left as they were.
pub fn normalize_memory_map(
    descriptors: &[FirmwareDescriptor],
    regions: &mut [MemoryRegion],
) -> (r: Result<usize, MemoryError>)
    requires
        old(regions)@.len() >= MAX_MEMORY_REGIONS,
    ensures
        final(regions)@.len() == old(regions)@.len(),
        match r {
            Ok(count) => {
                &&& count == descriptors@.len()
                &&& normalized_regions(descriptors@) == Ok::<Seq<MemoryRegion>, MemoryError>(
                    final(regions)@.subrange(0, count as int),
                )
                &&& final(regions)@.subrange(count as int, final(regions)@.len() as int) == old(
                    regions,
                )@.subrange(count as int, old(regions)@.len() as int)
            },
            Err(e) => normalized_regions(descriptors@) == Err::<Seq<MemoryRegion>, MemoryError>(e),
        },
{
    let count = descriptors.len();
    if count > MAX_MEMORY_REGIONS {
        return Err(MemoryError::TooManyRegions);
    }
    let ghost initial = regions@;
    assert(regions@.subrange(0, 0) =~= Seq::<MemoryRegion>::empty());
    assert(regions@.subrange(0, regions@.len() as int) =~= initial);
    let mut previous_end: u64 = 0;
    let mut index: usize = 0;
    while index < count
        invariant
            initial == old(regions)@,
            count == descriptors@.len(),
            count <= MAX_MEMORY_REGIONS,
            regions@.len() == initial.len(),
            initial.len() >= MAX_MEMORY_REGIONS,
            index <= count,
            regions_prefix(descriptors@, index as nat) == Ok::<Seq<MemoryRegion>, MemoryError>(
                regions@.subrange(0, index as int),
            ),
            regions@.subrange(index as int, regions@.len() as int) == initial.subrange(
                index as int,
                initial.len() as int,
            ),
            index == 0 ==> previous_end == 0,
            index > 0 ==> previous_end == descriptor_end(descriptors@[index - 1]),
        decreases count - index,
    {
        let descriptor = descriptors[index];
        let length = match descriptor.page_count.checked_mul(PAGE_SIZE) {
            Some(length) => length,
            None => {
                proof {
                    lemma_error_persists(descriptors@, (index + 1) as nat, count as nat);
                }
                return Err(MemoryError::DescriptorArithmetic);
            },
        };
        let end = match descriptor.phys_start.checked_add(length) {
            Some(end) => end,
            None => {
                proof {
                    lemma_error_persists(descriptors@, (index + 1) as nat, count as nat);
                }
                return Err(MemoryError::DescriptorArithmetic);
            },
        };
        if descriptor.phys_start < previous_end {
            proof {
                lemma_error_persists(descriptors@, (index + 1) as nat, count as nat);
            }
            return Err(MemoryError::UnsortedOrOverlapping);
        }
        previous_end = end;
        let kind = if descriptor.conventional {
            MEMORY_REGION_USABLE
        } else {
            MEMORY_REGION_RESERVED
        };
        let ghost before = regions@;
        regions[index] = MemoryRegion { start: descriptor.phys_start, end, kind, reserved: 0 };
        proof {
            assert(regions@.subrange(0, index + 1) =~= before.subrange(0, index as int).push(
                regions@[index as int],
            ));
            assert(regions@.subrange(index + 1, regions@.len() as int) =~= before.subrange(
                index + 1,
                before.len() as int,
            ));
            assert forall|k: int| index + 1 <= k < before.len() implies before[k] == initial[k] by {
                assert(before.subrange(index as int, before.len() as int)[k - index]
                    == initial.subrange(index as int, initial.len() as int)[k - index]);
            }
            assert(before.subrange(index + 1, before.len() as int) =~= initial.subrange(
                index + 1,
                initial.len() as int,
            ));
        }
        index = index + 1;
    }
    Ok(count)
}

/// Regions in ascending order that do not overlap, each reserved or usable.
pub open spec fn regions_ordered(regions: Seq<MemoryRegion>) -> bool {
    &&& forall|i: int| 0 <= i < regions.len() ==> (#[trigger] regions[i]).start <= regions[i].end
    &&& forall|i: int|
        0 <= i < regions.len() ==> (#[trigger] regions[i]).kind == MEMORY_REGION_RESERVED
            || regions[i].kind == MEMORY_REGION_USABLE
    &&& forall|i: int, j: int|
        0 <= i < j < regions.len() ==> (#[trigger] regions[i]).end <= (#[trigger] regions[j]).start
}

proof fn lemma_prefix_ordered(ds: Seq<FirmwareDescriptor>, n: nat)
    requires
        n <= ds.len(),
    ensures
        regions_prefix(ds, n) matches Ok(regions) ==> regions.len() == n && regions_ordered(
            regions,
        ) && (n > 0 ==> regions[n - 1].end == descriptor_end(ds[n - 1])),
    decreases n,
{
    if n > 0 {
        lemma_prefix_ordered(ds, (n - 1) as nat);
    }
}

/// The hand-off regions of an accepted firmware map are one per descriptor, in ascending
/// order, pairwise disjoint, and each reserved or usable.
pub proof fn lemma_normalized_regions_ordered(ds: Seq<FirmwareDescriptor>)
    ensures
        normalized_regions(ds) matches Ok(regions) ==> regions.len() == ds.len()
            && regions_ordered(regions),
{
    lemma_prefix_ordered(ds, ds.len());
}

/// A descriptor's size and end fit 64 bits.
pub open spec fn descriptor_in_range(d: FirmwareDescriptor) -> bool {
    d.page_count * 4096 <= u64::MAX && d.phys_start + d.page_count * 4096 <= u64::MAX
}

/// The first `n` descriptors fit 64 bits and each starts at or after the end of the one
/// before it; touching is allowed.
pub open spec fn in_order(ds: Seq<FirmwareDescriptor>, n: int) -> bool {
    &&& forall|i: int| 0 <= i < n ==> descriptor_in_range(#[trigger] ds[i])
    &&& forall|i: int|
        1 <= i < n ==> #[trigger] ds[i].phys_start >= ds[i - 1].phys_start + ds[i - 1].page_count
            * 4096
}

proof fn lemma_prefix_accepts(ds: Seq<FirmwareDescriptor>, n: nat)
    requires
        n <= ds.len(),
    ensures
        regions_prefix(ds, n) is Ok <==> in_order(ds, n as int),
        regions_prefix(ds, n) matches Ok(regions) ==> forall|i: int|
            0 <= i < n ==> {
                let d = ds[i];
                &&& (#[trigger] regions[i]).start == d.phys_start
                &&& regions[i].end == d.phys_start + d.page_count * 4096
                &&& (regions[i].kind == MEMORY_REGION_USABLE <==> d.conventional)
                &&& (regions[i].kind == MEMORY_REGION_RESERVED <==> !d.conventional)
            },
    decreases n,
{
    if n > 0 {
        lemma_prefix_accepts(ds, (n - 1) as nat);
        lemma_regions_prefix_len(ds, (n - 1) as nat);
        if in_order(ds, n as int) {
            assert(in_order(ds, n - 1));
            assert(descriptor_in_range(ds[n - 1]));
            if n >= 2 {
                assert(ds[n - 1].phys_start >= ds[n - 2].phys_start + ds[n - 2].page_count * 4096);
            }
        }
        if regions_prefix(ds, n) is Ok {
            assert forall|i: int| 0 <= i < n implies descriptor_in_range(#[trigger] ds[i]) by {
                if i < n - 1 {
                    assert(in_order(ds, n - 1));
                }
            }
            assert forall|i: int| 1 <= i < n implies #[trigger] ds[i].phys_start >= ds[i - 1].phys_start
                + ds[i - 1].page_count * 4096 by {
                if i < n - 1 {
                    assert(in_order(ds, n - 1));
                }
            }
        }
    }
}

/// A firmware map that fits the record is accepted exactly when every descriptor fits 64
/// bits and none starts before the previous one ends (descriptors may touch); each region
/// then covers its descriptor's pages, usable exactly when the descriptor is conventional.
pub proof fn lemma_sorted_map_accepted(ds: Seq<FirmwareDescriptor>)
    requires
        ds.len() <= MAX_MEMORY_REGIONS,
    ensures
        normalized_regions(ds) is Ok <==> in_order(ds, ds.len() as int),
        normalized_regions(ds) matches Ok(regions) ==> regions.len() == ds.len() && forall|i: int|
            0 <= i < ds.len() ==> {
                let d = ds[i];
                &&& (#[trigger] regions[i]).start == d.phys_start
                &&& regions[i].end == d.phys_start + d.page_count * 4096
                &&& (regions[i].kind == MEMORY_REGION_USABLE <==> d.conventional)
            },
{
    lemma_prefix_accepts(ds, ds.len());
    lemma_regions_prefix_len(ds, ds.len());
}

/// Once a prefix of the map is refused, every longer prefix is refused with the same error.
proof fn lemma_error_persists(ds: Seq<FirmwareDescriptor>, n: nat, m: nat)
    requires
        n <= m,
        regions_prefix(ds, n) is Err,
    ensures
        regions_prefix(ds, m) == regions_prefix(ds, n),
    decreases m - n,
{
    if n < m {
        lemma_error_persists(ds, n, (m - 1) as nat);
    }
}

/// Sorts the final firmware map and writes its hand-off regions into `regions`; a map
/// with more descriptors than the record has room for is refused untouched.
pub fn normalize_final_map(map: &mut FirmwareMap, regions: &mut [MemoryRegion]) -> (r: Result<
    usize,
    MemoryError,
>)
    requires
        old(regions)@.len() >= MAX_MEMORY_REGIONS,
    ensures
        final(regions)@.len() == old(regions)@.len(),
        old(map).descriptors@.len() > MAX_MEMORY_REGIONS ==> r == Err::<usize, MemoryError>(
            MemoryError::TooManyRegions,
        ) && final(map).descriptors@ == old(map).descriptors@ && final(regions)@ == old(
            regions,
        )@,
        old(map).descriptors@.len() <= MAX_MEMORY_REGIONS ==> sorted_by_start(
            final(map).descriptors@,
        ) && rearranges(final(map).descriptors@, old(map).descriptors@),
        match r {
            Ok(count) => {
                &&& count == final(map).descriptors@.len()
                &&& normalized_regions(final(map).descriptors@) == Ok::<
                    Seq<MemoryRegion>,
                    MemoryError,
                >(final(regions)@.subrange(0, count as int))
            },
            Err(e) => normalized_regions(final(map).descriptors@) == Err::<
                Seq<MemoryRegion>,
                MemoryError,
            >(e),
        },
{
    let _count = map.descriptors.len();
    match sort_final_map(map, MAX_MEMORY_REGIONS) {
        Ok(()) => {},
        Err(()) => return Err(MemoryError::TooManyRegions),
    }
    normalize_memory_map(map.descriptors, regions)
}

} // verus!
