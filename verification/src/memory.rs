use vstd::prelude::*;

verus! {

/// Size of a physical frame.
pub const PAGE_SIZE: u64 = 4096;

/// Whether a physical region may be handed out.
#[derive(Clone, Copy, Debug, PartialEq, Eq, Structural)]
pub enum RegionKind {
    Usable,
    Reserved,
}

/// A physical memory region `[start, end)`.
#[derive(Clone, Copy, Debug, PartialEq, Eq, Structural)]
pub struct MemoryRegion {
    pub start: u64,
    pub end: u64,
    pub kind: RegionKind,
}

impl MemoryRegion {
    pub fn new(start: u64, end: u64, kind: RegionKind) -> (r: Self)
        ensures
            r == (MemoryRegion { start, end, kind }),
    {
        Self { start, end, kind }
    }
}

/// A physical range `[start, end)` that must never be handed out.
#[derive(Clone, Copy, Debug, PartialEq, Eq, Structural)]
pub struct ReservedRange {
    pub start: u64,
    pub end: u64,
}

impl ReservedRange {
    pub fn new(start: u64, end: u64) -> (r: Self)
        ensures
            r == (ReservedRange { start, end }),
    {
        Self { start, end }
    }
}

/// Why a memory map was rejected.
#[derive(Clone, Copy, Debug, PartialEq, Eq, Structural)]
pub enum MemoryError {
    InvalidRange,
    OverlappingRegion,
}

/// A nonempty range whose ends are both page aligned.
pub open spec fn range_valid(start: u64, end: u64) -> bool {
    start < end && start % PAGE_SIZE == 0 && end % PAGE_SIZE == 0
}

/// The first problem among the first `n` regions, checked in order.
pub open spec fn region_error(rs: Seq<MemoryRegion>, n: int) -> Option<MemoryError>
    decreases n,
{
    if n <= 0 {
        None
    } else {
        match region_error(rs, n - 1) {
            Some(e) => Some(e),
            None => if !range_valid(rs[n - 1].start, rs[n - 1].end) {
                Some(MemoryError::InvalidRange)
            } else if n >= 2 && rs[n - 1].start < rs[n - 2].end {
                Some(MemoryError::OverlappingRegion)
            } else {
                None
            },
        }
    }
}

/// Whether some of the first `n` reserved ranges is invalid.
pub open spec fn reserved_error(rv: Seq<ReservedRange>, n: int) -> bool
    decreases n,
{
    if n <= 0 {
        false
    } else {
        reserved_error(rv, n - 1) || !range_valid(rv[n - 1].start, rv[n - 1].end)
    }
}

/// Regions are valid and listed in increasing, non-overlapping order.
pub open spec fn regions_ok(rs: Seq<MemoryRegion>) -> bool {
    &&& forall|i: int| 0 <= i < rs.len() ==> range_valid(#[trigger] rs[i].start, rs[i].end)
    &&& forall|i: int| 1 <= i < rs.len() ==> #[trigger] rs[i].start >= rs[i - 1].end
}

/// Whether `frame` lies in a reserved range.
pub open spec fn is_reserved(rv: Seq<ReservedRange>, frame: u64) -> bool {
    exists|k: int| 0 <= k < rv.len() && #[trigger] rv[k].start <= frame && frame < rv[k].end
}

/// The frames an allocator positioned at region `idx` and address `next` hands out, in order.
pub open spec fn frames_from(rs: Seq<MemoryRegion>, rv: Seq<ReservedRange>, idx: int, next: u64) -> Seq<
    u64,
>
    decreases rs.len() - idx, (if 0 <= idx < rs.len() && next < rs[idx].end {
        rs[idx].end - next
    } else {
        0
    }),
{
    if idx < 0 || idx >= rs.len() {
        Seq::empty()
    } else if rs[idx].kind != RegionKind::Usable || next >= rs[idx].end {
        frames_from(rs, rv, idx + 1, if idx + 1 < rs.len() { rs[idx + 1].start } else { 0 })
    } else if next + PAGE_SIZE > u64::MAX {
        Seq::empty()
    } else {
        let rest = frames_from(rs, rv, idx, (next + PAGE_SIZE) as u64);
        if is_reserved(rv, next) {
            rest
        } else {
            seq![next] + rest
        }
    }
}

/// Hands out the page frames of usable regions in address order, skipping reserved ranges.
pub struct FrameAllocator<'a> {
    regions: &'a [MemoryRegion],
    reserved: &'a [ReservedRange],
    region_index: usize,
    next: u64,
}

/// The position `(idx, next)` is inside region `idx` on a page boundary, or past the end.
pub open spec fn position_ok(rs: Seq<MemoryRegion>, idx: int, next: u64) -> bool {
    &&& 0 <= idx <= rs.len()
    &&& idx < rs.len() ==> rs[idx].start <= next <= rs[idx].end && next % PAGE_SIZE == 0
}

impl<'a> FrameAllocator<'a> {
    pub closed spec fn regions_view(&self) -> Seq<MemoryRegion> {
        self.regions@
    }

    pub closed spec fn reserved_view(&self) -> Seq<ReservedRange> {
        self.reserved@
    }

    /// The frames this allocator will still hand out, in order.
    pub closed spec fn pending_frames(&self) -> Seq<u64> {
        frames_from(self.regions@, self.reserved@, self.region_index as int, self.next)
    }

    /// The regions are well formed and the cursor lies inside them.
    pub closed spec fn wf(&self) -> bool {
        &&& regions_ok(self.regions@)
        &&& position_ok(self.regions@, self.region_index as int, self.next)
    }

    /// Starts an allocator over `regions` (sorted, disjoint, page aligned) that never hands
    /// out a frame inside one of `reserved`.
    pub fn new(regions: &'a [MemoryRegion], reserved: &'a [ReservedRange]) -> (r: Result<
        Self,
        MemoryError,
    >)
        ensures
            match region_error(regions@, regions@.len() as int) {
                Some(e) => r == Err::<Self, MemoryError>(e),
                None => if reserved_error(reserved@, reserved@.len() as int) {
                    r == Err::<Self, MemoryError>(MemoryError::InvalidRange)
                } else {
                    r matches Ok(a) && a.wf() && a.regions_view() == regions@ && a.reserved_view()
                        == reserved@ && a.pending_frames() == frames_from(
                        regions@,
                        reserved@,
                        0,
                        if regions@.len() > 0 {
                            regions@[0].start
                        } else {
                            0
                        },
                    )
                },
            },
    {
        let mut previous_end: u64 = 0;
        let mut i: usize = 0;
        while i < regions.len()
            invariant
                i <= regions@.len(),
                region_error(regions@, i as int) is None,
                i > 0 ==> previous_end == regions@[i - 1].end,
                i == 0 ==> previous_end == 0,
            decreases regions@.len() - i,
        {
            let region = regions[i];
            if !(region.start < region.end && region.start % PAGE_SIZE == 0 && region.end % PAGE_SIZE
                == 0) {
                proof {
                    lemma_region_error_sticky(regions@, i + 1, regions@.len() as int);
                }
                return Err(MemoryError::InvalidRange);
            }
            validate_range(region.start, region.end)?;
            if region.start < previous_end {
                proof {
                    lemma_region_error_sticky(regions@, i + 1, regions@.len() as int);
                }
                return Err(MemoryError::OverlappingRegion);
            }
            previous_end = region.end;
            i += 1;
        }
        let mut k: usize = 0;
        while k < reserved.len()
            invariant
                k <= reserved@.len(),
                region_error(regions@, regions@.len() as int) is None,
                !reserved_error(reserved@, k as int),
            decreases reserved@.len() - k,
        {
            let range = reserved[k];
            if validate_range(range.start, range.end).is_err() {
                proof {
                    lemma_reserved_error_sticky(reserved@, k + 1, reserved@.len() as int);
                }
                return Err(MemoryError::InvalidRange);
            }
            k += 1;
        }
        proof {
            lemma_regions_ok(regions@, regions@.len() as int);
        }
        let next = if regions.len() > 0 {
            regions[0].start
        } else {
            0
        };
        Ok(Self { regions, reserved, region_index: 0, next })
    }

    /// Hands out the next free frame, or `None` once every usable region is used up.
    pub fn allocate_frame(&mut self) -> (r: Option<u64>)
        requires
            old(self).wf(),
        ensures
            final(self).wf(),
            final(self).regions_view() == old(self).regions_view(),
            final(self).reserved_view() == old(self).reserved_view(),
            old(self).pending_frames().len() == 0 ==> r is None && final(self).pending_frames()
                == old(self).pending_frames(),
            old(self).pending_frames().len() > 0 ==> r == Some(old(self).pending_frames()[0])
                && final(self).pending_frames() == old(self).pending_frames().drop_first(),
    {
        let ghost target = self.pending_frames();
        loop
            invariant
                self.wf(),
                self.regions@ == old(self).regions@,
                self.reserved@ == old(self).reserved@,
                target == old(self).pending_frames(),
                frames_from(self.regions@, self.reserved@, self.region_index as int, self.next)
                    == target,
            decreases self.regions@.len() - self.region_index, (if self.region_index
                < self.regions@.len() && self.next < self.regions@[self.region_index as int].end {
                self.regions@[self.region_index as int].end - self.next
            } else {
                0
            }),
        {
            if self.region_index >= self.regions.len() {
                return None;
            }
            let region = self.regions[self.region_index];
            if region.kind != RegionKind::Usable || self.next >= region.end {
                self.region_index += 1;
                self.next = if self.region_index < self.regions.len() {
                    self.regions[self.region_index].start
                } else {
                    0
                };
                continue;
            }
            proof {
                lemma_aligned_step(self.next, region.end);
            }
            let frame = self.next;
            self.next = self.next + PAGE_SIZE;
            if self.reserved_contains(frame) {
                continue;
            }
            return Some(frame);
        }
    }

    fn reserved_contains(&self, frame: u64) -> (r: bool)
        ensures
            r == is_reserved(self.reserved@, frame),
    {
        let mut k: usize = 0;
        while k < self.reserved.len()
            invariant
                k <= self.reserved@.len(),
                forall|j: int|
                    0 <= j < k ==> !(#[trigger] self.reserved@[j].start <= frame && frame
                        < self.reserved@[j].end),
            decreases self.reserved@.len() - k,
        {
            let range = self.reserved[k];
            if frame >= range.start && frame < range.end {
                assert(self.reserved@[k as int].start <= frame && frame < self.reserved@[k as int].end);
                return true;
            }
            k += 1;
        }
        false
    }
}

/// Requires a nonempty, page-aligned range.
pub fn validate_range(start: u64, end: u64) -> (r: Result<(), MemoryError>)
    ensures
        range_valid(start, end) ==> r == Ok::<(), MemoryError>(()),
        !range_valid(start, end) ==> r == Err::<(), MemoryError>(MemoryError::InvalidRange),
{
    if start >= end || start % PAGE_SIZE != 0 || end % PAGE_SIZE != 0 {
        return Err(MemoryError::InvalidRange);
    }
    Ok(())
}

/// An aligned address below an aligned end is at least a page below it.
pub proof fn lemma_aligned_step(next: u64, end: u64)
    requires
        next % PAGE_SIZE == 0,
        end % PAGE_SIZE == 0,
        next < end,
    ensures
        next + PAGE_SIZE <= end,
{
}

pub proof fn lemma_region_error_sticky(rs: Seq<MemoryRegion>, n: int, m: int)
    requires
        0 <= n <= m,
        region_error(rs, n) is Some,
    ensures
        region_error(rs, m) == region_error(rs, n),
    decreases m - n,
{
    if n < m {
        lemma_region_error_sticky(rs, n, m - 1);
    }
}

pub proof fn lemma_reserved_error_sticky(rv: Seq<ReservedRange>, n: int, m: int)
    requires
        0 <= n <= m,
        reserved_error(rv, n),
    ensures
        reserved_error(rv, m),
    decreases m - n,
{
    if n < m {
        lemma_reserved_error_sticky(rv, n, m - 1);
    }
}

/// Regions that pass the checks of `new` are well formed.
pub proof fn lemma_regions_ok(rs: Seq<MemoryRegion>, n: int)
    requires
        0 <= n <= rs.len(),
        region_error(rs, n) is None,
    ensures
        forall|i: int| 0 <= i < n ==> range_valid(#[trigger] rs[i].start, rs[i].end),
        forall|i: int| 1 <= i < n ==> #[trigger] rs[i].start >= rs[i - 1].end,
    decreases n,
{
    if n > 0 {
        lemma_regions_ok(rs, n - 1);
    }
}

/// Whether `frame` is a whole page inside a usable region.
pub open spec fn in_usable_region(rs: Seq<MemoryRegion>, frame: u64) -> bool {
    exists|i: int|
        0 <= i < rs.len() && (#[trigger] rs[i]).kind == RegionKind::Usable && rs[i].start <= frame
            && frame + PAGE_SIZE <= rs[i].end
}

proof fn lemma_frames_from(rs: Seq<MemoryRegion>, rv: Seq<ReservedRange>, idx: int, next: u64)
    requires
        regions_ok(rs),
        position_ok(rs, idx, next),
    ensures
        ({
            let fs = frames_from(rs, rv, idx, next);
            &&& forall|j: int| 0 <= j < fs.len() ==> #[trigger] fs[j] % PAGE_SIZE == 0
            &&& forall|j: int| 0 <= j < fs.len() ==> !is_reserved(rv, #[trigger] fs[j])
            &&& forall|j: int| 0 <= j < fs.len() ==> in_usable_region(rs, #[trigger] fs[j])
            &&& idx < rs.len() ==> forall|j: int| 0 <= j < fs.len() ==> #[trigger] fs[j] >= next
            &&& forall|i: int, j: int| 0 <= i < j < fs.len() ==> fs[i] < fs[j]
        }),
    decreases rs.len() - idx, (if 0 <= idx < rs.len() && next < rs[idx].end {
        rs[idx].end - next
    } else {
        0
    }),
{
    if idx < 0 || idx >= rs.len() {
    } else if rs[idx].kind != RegionKind::Usable || next >= rs[idx].end {
        let n2: u64 = if idx + 1 < rs.len() { rs[idx + 1].start } else { 0 };
        lemma_frames_from(rs, rv, idx + 1, n2);
        assert(frames_from(rs, rv, idx, next) == frames_from(rs, rv, idx + 1, n2));
        if idx + 1 < rs.len() {
            assert(rs[idx + 1].start >= rs[idx].end);
        }
    } else {
        lemma_aligned_step(next, rs[idx].end);
        let next2 = (next + PAGE_SIZE) as u64;
        lemma_frames_from(rs, rv, idx, next2);
        let rest = frames_from(rs, rv, idx, next2);
        let fs = frames_from(rs, rv, idx, next);
        if !is_reserved(rv, next) {
            assert(fs == seq![next] + rest);
            assert(in_usable_region(rs, next)) by {
                assert(rs[idx].kind == RegionKind::Usable);
            }
            assert forall|j: int| 0 <= j < fs.len() implies in_usable_region(rs, #[trigger] fs[j]) by {
                if j > 0 {
                    assert(fs[j] == rest[j - 1]);
                }
            }
            assert forall|j: int| 0 <= j < fs.len() implies !is_reserved(rv, #[trigger] fs[j]) by {
                if j > 0 {
                    assert(fs[j] == rest[j - 1]);
                }
            }
            assert forall|j: int| 0 <= j < fs.len() implies #[trigger] fs[j] % PAGE_SIZE == 0 by {
                if j > 0 {
                    assert(fs[j] == rest[j - 1]);
                }
            }
            assert forall|j: int| 0 <= j < fs.len() implies #[trigger] fs[j] >= next by {
                if j > 0 {
                    assert(fs[j] == rest[j - 1]);
                }
            }
            assert forall|i: int, j: int| 0 <= i < j < fs.len() implies fs[i] < fs[j] by {
                assert(fs[j] == rest[j - 1]);
                if i > 0 {
                    assert(fs[i] == rest[i - 1]);
                }
            }
        } else {
            assert(fs == rest);
        }
    }
}

/// Every frame an allocator will hand out is a page-aligned page of a usable region that
/// lies outside every reserved range.
pub proof fn lemma_pending_frames_sound(a: &FrameAllocator)
    requires
        a.wf(),
    ensures
        forall|j: int|
            0 <= j < a.pending_frames().len() ==> {
                let f = #[trigger] a.pending_frames()[j];
                &&& f % PAGE_SIZE == 0
                &&& in_usable_region(a.regions_view(), f)
                &&& !is_reserved(a.reserved_view(), f)
            },
{
    lemma_frames_from(a.regions@, a.reserved@, a.region_index as int, a.next);
}

/// The frames an allocator will hand out are strictly increasing, so no frame is handed
/// out twice.
pub proof fn lemma_pending_frames_increasing(a: &FrameAllocator)
    requires
        a.wf(),
    ensures
        forall|i: int, j: int|
            0 <= i < j < a.pending_frames().len() ==> a.pending_frames()[i]
                < a.pending_frames()[j],
{
    lemma_frames_from(a.regions@, a.reserved@, a.region_index as int, a.next);
}

/// A page-aligned page of a usable region at or after the cursor, outside the reserved
/// ranges, is among the frames still to be handed out.
proof fn lemma_frame_listed(
    rs: Seq<MemoryRegion>,
    rv: Seq<ReservedRange>,
    idx: int,
    next: u64,
    i: int,
    frame: u64,
)
    requires
        regions_ok(rs),
        position_ok(rs, idx, next),
        idx <= i < rs.len(),
        rs[i].kind == RegionKind::Usable,
        rs[i].start <= frame < rs[i].end,
        frame % PAGE_SIZE == 0,
        !is_reserved(rv, frame),
        i == idx ==> next <= frame,
    ensures
        frames_from(rs, rv, idx, next).contains(frame),
    decreases rs.len() - idx, (if 0 <= idx < rs.len() && next < rs[idx].end {
        rs[idx].end - next
    } else {
        0
    }),
{
    if rs[idx].kind != RegionKind::Usable || next >= rs[idx].end {
        let n2: u64 = if idx + 1 < rs.len() { rs[idx + 1].start } else { 0 };
        assert(range_valid(rs[i].start, rs[i].end));
        if idx + 1 < rs.len() {
            assert(range_valid(rs[idx + 1].start, rs[idx + 1].end));
        }
        lemma_frame_listed(rs, rv, idx + 1, n2, i, frame);
    } else {
        lemma_aligned_step(next, rs[idx].end);
        let next2 = (next + PAGE_SIZE) as u64;
        let rest = frames_from(rs, rv, idx, next2);
        let fs = frames_from(rs, rv, idx, next);
        if i == idx && frame == next {
            assert(fs == seq![next] + rest);
            assert(fs[0] == frame);
        } else {
            lemma_frame_listed(rs, rv, idx, next2, i, frame);
            let k = choose|k: int| 0 <= k < rest.len() && rest[k] == frame;
            if is_reserved(rv, next) {
                assert(fs == rest);
            } else {
                assert(fs == seq![next] + rest);
                assert(fs[k + 1] == frame);
            }
        }
    }
}

/// A fresh allocator over well-formed regions hands out every page-aligned page of a usable
/// region that lies outside every reserved range.
pub proof fn lemma_fresh_allocator_complete(
    rs: Seq<MemoryRegion>,
    rv: Seq<ReservedRange>,
    i: int,
    frame: u64,
)
    requires
        regions_ok(rs),
        0 <= i < rs.len(),
        rs[i].kind == RegionKind::Usable,
        rs[i].start <= frame < rs[i].end,
        frame % PAGE_SIZE == 0,
        !is_reserved(rv, frame),
    ensures
        frames_from(rs, rv, 0, rs[0].start).contains(frame),
{
    assert(range_valid(rs[0].start, rs[0].end));
    lemma_frame_listed(rs, rv, 0, rs[0].start, i, frame);
}

} // verus!
