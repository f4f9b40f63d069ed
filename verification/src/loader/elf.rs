use vstd::prelude::*;
use vstd::std_specs::ops::BitOrSpec;

use super::error::ElfLoadError;
use crate::le::{le_u16, le_u32, le_u64, load_u16, load_u32, load_u64};

verus! {

pub const ELF_PF_X: u32 = 1;
pub const ELF_PF_W: u32 = 2;
pub const ELF_PF_R: u32 = 4;

pub const ELF_HEADER_SIZE: usize = 64;
pub const PROGRAM_HEADER_SIZE: usize = 56;
pub const PROGRAM_TYPE_LOAD: u32 = 1;
pub const PROGRAM_TYPE_DYNAMIC: u32 = 2;
pub const SEGMENT_ALIGNMENT: u64 = 4096;
pub const HIGH_HALF_START: u64 = 0xffff_8000_0000_0000;
pub const DYNAMIC_ENTRY_SIZE: usize = 16;

/// The permission bits of a loadable segment.
#[derive(Clone, Copy, Debug, PartialEq, Eq, Structural)]
pub struct SegmentFlags(u32);

impl SegmentFlags {
    /// The readable permission alone.
    pub fn read() -> (r: Self)
        ensures
            r.bits_view() == ELF_PF_R,
    {
        Self(ELF_PF_R)
    }

    /// The writable permission alone.
    pub fn write() -> (r: Self)
        ensures
            r.bits_view() == ELF_PF_W,
    {
        Self(ELF_PF_W)
    }

    /// The executable permission alone.
    pub fn execute() -> (r: Self)
        ensures
            r.bits_view() == ELF_PF_X,
    {
        Self(ELF_PF_X)
    }

    /// The raw ELF `p_flags` bits.
    pub closed spec fn bits_view(self) -> u32 {
        self.0
    }

    /// Whether every bit of `other` is set.
    pub fn contains(self, other: Self) -> (r: bool)
        ensures
            r == (self.bits_view() & other.bits_view() == other.bits_view()),
    {
        self.0 & other.0 == other.0
    }
}

impl core::ops::BitOr for SegmentFlags {
    type Output = Self;

    fn bitor(self, rhs: Self) -> (r: Self)
        ensures
            r.bits_view() == self.bits_view() | rhs.bits_view(),
    {
        Self(self.0 | rhs.0)
    }
}

impl vstd::std_specs::ops::BitOrSpecImpl for SegmentFlags {
    open spec fn obeys_bitor_spec() -> bool {
        true
    }

    open spec fn bitor_req(self, rhs: Self) -> bool {
        true
    }

    closed spec fn bitor_spec(self, rhs: Self) -> Self {
        Self(self.0 | rhs.0)
    }
}

impl SegmentFlags {
    /// The union of two permission sets holds the bits of both.
    pub proof fn lemma_union_bits(a: Self, b: Self)
        ensures
            a.bitor_spec(b).bits_view() == a.bits_view() | b.bits_view(),
    {
    }
}

/// The placement of a kernel image: its entry point and its loadable segments in file order.
#[derive(Clone, Debug, PartialEq, Eq)]
pub struct LoadPlan {
    pub entry: u64,
    pub segments: Vec<LoadSegment>,
}

/// One loadable segment: where its file bytes are and where it goes in memory.
#[derive(Debug, PartialEq, Eq)]
pub struct LoadSegment {
    pub file_range: core::ops::Range<usize>,
    pub virtual_start: u64,
    pub memory_len: u64,
    pub flags: SegmentFlags,
}

impl Clone for LoadSegment {
    fn clone(&self) -> (r: Self)
        ensures
            r == *self,
    {
        LoadSegment {
            file_range: core::ops::Range { start: self.file_range.start, end: self.file_range.end },
            virtual_start: self.virtual_start,
            memory_len: self.memory_len,
            flags: self.flags,
        }
    }
}

/// The values a loadable segment is made of.
pub struct SegmentFields {
    pub file_start: usize,
    pub file_end: usize,
    pub virtual_start: u64,
    pub memory_len: u64,
    pub flags: u32,
}

pub open spec fn segment_matches(s: LoadSegment, f: SegmentFields) -> bool {
    &&& s.file_range.start == f.file_start
    &&& s.file_range.end == f.file_end
    &&& s.virtual_start == f.virtual_start
    &&& s.memory_len == f.memory_len
    &&& s.flags.bits_view() == f.flags
}

#[verifier::opaque]
/// The outcome of adding the `PT_LOAD` header `ph` after the segments `segs`, for an image of
/// `image_len` bytes.
pub open spec fn load_check(image_len: nat, ph: Seq<u8>, segs: Seq<SegmentFields>) -> Result<
    SegmentFields,
    ElfLoadError,
> {
    let raw_flags = le_u32(ph, 4);
    let file_offset = le_u64(ph, 8);
    let virtual_start = le_u64(ph, 16);
    let file_len = le_u64(ph, 32);
    let memory_len = le_u64(ph, 40);
    let file_end = file_offset + file_len;
    let virtual_end = virtual_start + memory_len;
    if raw_flags & !(ELF_PF_R | ELF_PF_W | ELF_PF_X) != 0 {
        Err(ElfLoadError::InvalidSegmentFlags)
    } else if raw_flags & ELF_PF_W == ELF_PF_W && raw_flags & ELF_PF_X == ELF_PF_X {
        Err(ElfLoadError::WritableExecutable)
    } else if file_len > memory_len {
        Err(ElfLoadError::FileSizeExceedsMemorySize)
    } else if le_u64(ph, 48) != SEGMENT_ALIGNMENT {
        Err(ElfLoadError::InvalidSegmentAlignment)
    } else if file_offset % SEGMENT_ALIGNMENT != virtual_start % SEGMENT_ALIGNMENT {
        Err(ElfLoadError::OffsetNotPageCongruent)
    } else if virtual_start < HIGH_HALF_START {
        Err(ElfLoadError::NotHighHalf)
    } else if file_offset > usize::MAX || file_len > usize::MAX || file_end > usize::MAX {
        Err(ElfLoadError::IntegerOverflow)
    } else if file_end > image_len {
        Err(ElfLoadError::SegmentOutOfBounds)
    } else if virtual_end > u64::MAX {
        Err(ElfLoadError::IntegerOverflow)
    } else if exists|i: int|
        0 <= i < segs.len() && overlaps_segment(#[trigger] segs[i], virtual_start, virtual_end) {
        Err(ElfLoadError::OverlappingSegments)
    } else {
        Ok(
            SegmentFields {
                file_start: file_offset as usize,
                file_end: file_end as usize,
                virtual_start,
                memory_len,
                flags: raw_flags,
            },
        )
    }
}

pub open spec fn overlaps_segment(s: SegmentFields, start: u64, end: int) -> bool {
    start < s.virtual_start + s.memory_len && s.virtual_start < end
}

/// Whether a dynamic tag asks for relocation processing the loader does not perform.
pub open spec fn is_relocation_tag(tag: u64) -> bool {
    tag == 2 || tag == 7 || tag == 8 || tag == 9 || tag == 17 || tag == 18 || tag == 19 || tag
        == 23 || tag == 35 || tag == 36 || tag == 37
}

/// The outcome of scanning the dynamic entries `i..n` of the table at `off`.
pub open spec fn dynamic_scan(b: Seq<u8>, off: int, n: int, i: int) -> Result<(), ElfLoadError>
    decreases n - i,
{
    if i >= n {
        Err(ElfLoadError::InvalidDynamicTable)
    } else {
        let tag = le_u64(b, off + i * 16);
        if tag == 0 {
            Ok(())
        } else if is_relocation_tag(tag) {
            Err(ElfLoadError::DynamicRelocations)
        } else {
            dynamic_scan(b, off, n, i + 1)
        }
    }
}

/// The outcome of checking the `PT_DYNAMIC` header `ph` of the image `b`.
#[verifier::opaque]
pub open spec fn dynamic_check(b: Seq<u8>, ph: Seq<u8>) -> Result<(), ElfLoadError> {
    let file_offset = le_u64(ph, 8);
    let file_len = le_u64(ph, 32);
    if file_offset > usize::MAX || file_len > usize::MAX {
        Err(ElfLoadError::IntegerOverflow)
    } else if file_len % 16 != 0 {
        Err(ElfLoadError::InvalidDynamicTable)
    } else if file_offset + file_len > usize::MAX {
        Err(ElfLoadError::IntegerOverflow)
    } else if file_offset + file_len > b.len() {
        Err(ElfLoadError::InvalidDynamicTable)
    } else {
        dynamic_scan(b, file_offset as int, (file_len / 16) as int, 0)
    }
}

/// The program header `index` of the table at `phoff`.
pub open spec fn program_header(b: Seq<u8>, phoff: int, index: int) -> Seq<u8> {
    b.subrange(phoff + index * 56, phoff + index * 56 + 56)
}

/// The segments collected from the first `n` program headers, or the first error.
pub open spec fn program_scan(b: Seq<u8>, phoff: int, n: nat) -> Result<
    Seq<SegmentFields>,
    ElfLoadError,
>
    decreases n,
{
    if n == 0 {
        Ok(Seq::empty())
    } else {
        match program_scan(b, phoff, (n - 1) as nat) {
            Err(e) => Err(e),
            Ok(segs) => {
                let ph = program_header(b, phoff, n - 1);
                if le_u32(ph, 0) == PROGRAM_TYPE_LOAD {
                    match load_check(b.len(), ph, segs) {
                        Ok(f) => Ok(segs.push(f)),
                        Err(e) => Err(e),
                    }
                } else if le_u32(ph, 0) == PROGRAM_TYPE_DYNAMIC {
                    match dynamic_check(b, ph) {
                        Ok(_) => Ok(segs),
                        Err(e) => Err(e),
                    }
                } else {
                    Ok(segs)
                }
            },
        }
    }
}

/// Whether `entry` lies in an executable segment.
pub open spec fn entry_covered(segs: Seq<SegmentFields>, entry: u64) -> bool {
    exists|i: int|
        0 <= i < segs.len() && #[trigger] segs[i].flags & ELF_PF_X == ELF_PF_X && segs[i].virtual_start
            <= entry < segs[i].virtual_start + segs[i].memory_len
}

/// Why the fixed part of the ELF header `b` is rejected, if it is.
pub open spec fn header_check(b: Seq<u8>) -> Result<(), ElfLoadError> {
    if b.len() < 64 {
        Err(ElfLoadError::Truncated)
    } else if b[0] != 0x7f || b[1] != 0x45 || b[2] != 0x4c || b[3] != 0x46 {
        Err(ElfLoadError::InvalidMagic)
    } else if b[4] != 2 {
        Err(ElfLoadError::UnsupportedClass)
    } else if b[5] != 1 {
        Err(ElfLoadError::UnsupportedEndianness)
    } else if b[6] != 1 || le_u32(b, 20) != 1 {
        Err(ElfLoadError::UnsupportedVersion)
    } else if exists|i: int| 7 <= i < 16 && #[trigger] b[i] != 0 {
        Err(ElfLoadError::UnsupportedAbi)
    } else if le_u16(b, 16) != 2 {
        Err(ElfLoadError::UnsupportedType)
    } else if le_u16(b, 18) != 62 {
        Err(ElfLoadError::UnsupportedMachine)
    } else if le_u16(b, 52) != 64 {
        Err(ElfLoadError::InvalidHeaderSize)
    } else if le_u16(b, 54) != 56 {
        Err(ElfLoadError::InvalidProgramHeaderSize)
    } else {
        Ok(())
    }
}

/// Why the image `b` is rejected, or the segments it loads.
pub open spec fn plan_result(b: Seq<u8>) -> Result<Seq<SegmentFields>, ElfLoadError> {
    let phoff = le_u64(b, 32);
    let phnum = le_u16(b, 56);
    if header_check(b) is Err {
        Err(header_check(b)->Err_0)
    } else if phoff > usize::MAX || phoff + phnum * 56 > usize::MAX {
        Err(ElfLoadError::IntegerOverflow)
    } else if phoff + phnum * 56 > b.len() {
        Err(ElfLoadError::ProgramHeaderTableOutOfBounds)
    } else {
        match program_scan(b, phoff as int, phnum as nat) {
            Err(e) => Err(e),
            Ok(segs) => if entry_covered(segs, le_u64(b, 24)) {
                Ok(segs)
            } else {
                Err(ElfLoadError::EntryOutsideExecutableSegment)
            },
        }
    }
}

/// The little-endian 16-bit value at `offset`.
pub fn read_u16(bytes: &[u8], offset: usize) -> (r: Result<u16, ElfLoadError>)
    ensures
        offset + 2 > usize::MAX ==> r == Err::<u16, ElfLoadError>(ElfLoadError::IntegerOverflow),
        offset + 2 <= usize::MAX && offset + 2 > bytes@.len() ==> r == Err::<u16, ElfLoadError>(
            ElfLoadError::Truncated,
        ),
        offset + 2 <= bytes@.len() ==> r == Ok::<u16, ElfLoadError>(le_u16(bytes@, offset as int)),
{
    let _len = bytes.len();
    let end = match offset.checked_add(2) {
        Some(end) => end,
        None => return Err(ElfLoadError::IntegerOverflow),
    };
    if end > bytes.len() {
        return Err(ElfLoadError::Truncated);
    }
    Ok(load_u16(bytes, offset))
}

/// The little-endian 32-bit value at `offset`.
pub fn read_u32(bytes: &[u8], offset: usize) -> (r: Result<u32, ElfLoadError>)
    ensures
        offset + 4 > usize::MAX ==> r == Err::<u32, ElfLoadError>(ElfLoadError::IntegerOverflow),
        offset + 4 <= usize::MAX && offset + 4 > bytes@.len() ==> r == Err::<u32, ElfLoadError>(
            ElfLoadError::Truncated,
        ),
        offset + 4 <= bytes@.len() ==> r == Ok::<u32, ElfLoadError>(le_u32(bytes@, offset as int)),
{
    let _len = bytes.len();
    let end = match offset.checked_add(4) {
        Some(end) => end,
        None => return Err(ElfLoadError::IntegerOverflow),
    };
    if end > bytes.len() {
        return Err(ElfLoadError::Truncated);
    }
    Ok(load_u32(bytes, offset))
}

/// The little-endian 64-bit value at `offset`.
pub fn read_u64(bytes: &[u8], offset: usize) -> (r: Result<u64, ElfLoadError>)
    ensures
        offset + 8 > usize::MAX ==> r == Err::<u64, ElfLoadError>(ElfLoadError::IntegerOverflow),
        offset + 8 <= usize::MAX && offset + 8 > bytes@.len() ==> r == Err::<u64, ElfLoadError>(
            ElfLoadError::Truncated,
        ),
        offset + 8 <= bytes@.len() ==> r == Ok::<u64, ElfLoadError>(le_u64(bytes@, offset as int)),
{
    let _len = bytes.len();
    let end = match offset.checked_add(8) {
        Some(end) => end,
        None => return Err(ElfLoadError::IntegerOverflow),
    };
    if end > bytes.len() {
        return Err(ElfLoadError::Truncated);
    }
    Ok(load_u64(bytes, offset))
}

/// Checks a `PT_LOAD` header and, if it is acceptable, appends its segment.
pub fn add_load_segment(
    bytes: &[u8],
    program_header: &[u8],
    segments: &mut Vec<LoadSegment>,
) -> (r: Result<(), ElfLoadError>)
    requires
        program_header@.len() == 56,
        forall|i: int|
            0 <= i < old(segments)@.len() ==> (#[trigger] old(segments)@[i]).virtual_start
                + old(segments)@[i].memory_len <= u64::MAX,
    ensures
        forall|segs: Seq<SegmentFields>|
            #![trigger load_check(bytes@.len(), program_header@, segs)]
            segs.len() == old(segments)@.len() && (forall|i: int|
                0 <= i < segs.len() ==> segment_matches(
                    #[trigger] old(segments)@[i],
                    segs[i],
                )) ==> match load_check(bytes@.len(), program_header@, segs) {
                Err(e) => r == Err::<(), ElfLoadError>(e) && final(segments)@ == old(segments)@,
                Ok(f) => r is Ok && final(segments)@.len() == old(segments)@.len() + 1
                    && final(segments)@.subrange(0, old(segments)@.len() as int) == old(segments)@
                    && segment_matches(final(segments)@.last(), f),
            },
{
    proof {
        reveal(load_check);
    }
    let raw_flags = load_u32(program_header, 4);
    if raw_flags & !(ELF_PF_R | ELF_PF_W | ELF_PF_X) != 0 {
        return Err(ElfLoadError::InvalidSegmentFlags);
    }
    let flags = SegmentFlags(raw_flags);
    if flags.contains(SegmentFlags::write()) && flags.contains(SegmentFlags::execute()) {
        return Err(ElfLoadError::WritableExecutable);
    }
    let file_offset = load_u64(program_header, 8);
    let virtual_start = load_u64(program_header, 16);
    let file_len = load_u64(program_header, 32);
    let memory_len = load_u64(program_header, 40);
    if file_len > memory_len {
        return Err(ElfLoadError::FileSizeExceedsMemorySize);
    }
    if load_u64(program_header, 48) != SEGMENT_ALIGNMENT {
        return Err(ElfLoadError::InvalidSegmentAlignment);
    }
    if file_offset % SEGMENT_ALIGNMENT != virtual_start % SEGMENT_ALIGNMENT {
        return Err(ElfLoadError::OffsetNotPageCongruent);
    }
    if virtual_start < HIGH_HALF_START {
        return Err(ElfLoadError::NotHighHalf);
    }
    if file_offset > usize::MAX as u64 || file_len > usize::MAX as u64 {
        return Err(ElfLoadError::IntegerOverflow);
    }
    let file_start = file_offset as usize;
    let file_length = file_len as usize;
    let file_end = match file_start.checked_add(file_length) {
        Some(end) => end,
        None => return Err(ElfLoadError::IntegerOverflow),
    };
    if file_end > bytes.len() {
        return Err(ElfLoadError::SegmentOutOfBounds);
    }
    let virtual_end = match virtual_start.checked_add(memory_len) {
        Some(end) => end,
        None => return Err(ElfLoadError::IntegerOverflow),
    };
    if overlaps_any(segments, virtual_start, virtual_end) {
        proof {
            let k = choose|k: int|
                0 <= k < segments@.len() && overlaps_loaded(
                    #[trigger] segments@[k],
                    virtual_start,
                    virtual_end as int,
                );
            assert forall|segs: Seq<SegmentFields>|
                segs.len() == segments@.len() && (forall|j: int|
                    0 <= j < segs.len() ==> segment_matches(#[trigger] segments@[j], segs[j]))
                implies load_check(bytes@.len(), program_header@, segs)
                == Err::<SegmentFields, ElfLoadError>(ElfLoadError::OverlappingSegments) by {
                reveal(load_check);
                assert(segment_matches(segments@[k], segs[k]));
                assert(overlaps_segment(segs[k], virtual_start, virtual_end as int));
            }
        }
        return Err(ElfLoadError::OverlappingSegments);
    }
    let segment = LoadSegment {
        file_range: core::ops::Range { start: file_start, end: file_end },
        virtual_start,
        memory_len,
        flags,
    };
    let ghost old_segments = segments@;
    segments.push(segment);
    proof {
        assert(segments@.subrange(0, old_segments.len() as int) =~= old_segments);
        assert forall|segs: Seq<SegmentFields>|
            segs.len() == old_segments.len() && (forall|k: int|
                0 <= k < segs.len() ==> segment_matches(#[trigger] old_segments[k], segs[k]))
            implies !(exists|k: int|
            0 <= k < segs.len() && overlaps_segment(
                #[trigger] segs[k],
                virtual_start,
                virtual_end as int,
            )) by {
            if exists|k: int|
                0 <= k < segs.len() && overlaps_segment(
                    #[trigger] segs[k],
                    virtual_start,
                    virtual_end as int,
                ) {
                let k = choose|k: int|
                    0 <= k < segs.len() && overlaps_segment(
                        #[trigger] segs[k],
                        virtual_start,
                        virtual_end as int,
                    );
                assert(segment_matches(old_segments[k], segs[k]));
            }
        }
    }
    Ok(())
}

pub open spec fn overlaps_loaded(s: LoadSegment, start: u64, end: int) -> bool {
    start < s.virtual_start + s.memory_len && s.virtual_start < end
}

/// Whether a new segment `[start, end)` would overlap one already planned.
fn overlaps_any(segments: &Vec<LoadSegment>, start: u64, end: u64) -> (r: bool)
    requires
        forall|k: int|
            0 <= k < segments@.len() ==> (#[trigger] segments@[k]).virtual_start
                + segments@[k].memory_len <= u64::MAX,
    ensures
        r == exists|k: int|
            0 <= k < segments@.len() && overlaps_loaded(#[trigger] segments@[k], start, end as int),
{
    let mut i: usize = 0;
    while i < segments.len()
        invariant
            i <= segments@.len(),
            forall|k: int|
                0 <= k < segments@.len() ==> (#[trigger] segments@[k]).virtual_start
                    + segments@[k].memory_len <= u64::MAX,
            forall|k: int| 0 <= k < i ==> !overlaps_loaded(#[trigger] segments@[k], start, end as int),
        decreases segments@.len() - i,
    {
        let segment_end = segments[i].virtual_start + segments[i].memory_len;
        if start < segment_end && segments[i].virtual_start < end {
            assert(overlaps_loaded(segments@[i as int], start, end as int));
            return true;
        }
        i += 1;
    }
    false
}

/// Checks that a `PT_DYNAMIC` table is terminated and asks for no relocations.
pub fn validate_dynamic_table(bytes: &[u8], program_header: &[u8]) -> (r: Result<
    (),
    ElfLoadError,
>)
    requires
        program_header@.len() == 56,
    ensures
        r == dynamic_check(bytes@, program_header@),
{
    proof {
        reveal(dynamic_check);
    }
    let raw_offset = load_u64(program_header, 8);
    if raw_offset > usize::MAX as u64 {
        return Err(ElfLoadError::IntegerOverflow);
    }
    let raw_len = load_u64(program_header, 32);
    if raw_len > usize::MAX as u64 {
        return Err(ElfLoadError::IntegerOverflow);
    }
    let file_offset = raw_offset as usize;
    let file_len = raw_len as usize;
    if file_len % DYNAMIC_ENTRY_SIZE != 0 {
        return Err(ElfLoadError::InvalidDynamicTable);
    }
    let file_end = match file_offset.checked_add(file_len) {
        Some(end) => end,
        None => return Err(ElfLoadError::IntegerOverflow),
    };
    if file_end > bytes.len() {
        return Err(ElfLoadError::InvalidDynamicTable);
    }
    let count = file_len / DYNAMIC_ENTRY_SIZE;
    let mut i: usize = 0;
    while i < count
        invariant
            i <= count,
            count == file_len / 16,
            file_len % 16 == 0,
            file_offset + file_len <= bytes@.len(),
            file_offset + file_len <= usize::MAX,
            dynamic_check(bytes@, program_header@) == dynamic_scan(
                bytes@,
                file_offset as int,
                count as int,
                i as int,
            ),
        decreases count - i,
    {
        assert(i * 16 + 16 <= file_len) by (nonlinear_arith)
            requires
                i < count,
                count == file_len / 16,
                file_len % 16 == 0,
        ;
        let tag = load_u64(bytes, file_offset + i * DYNAMIC_ENTRY_SIZE);
        if tag == 0 {
            return Ok(());
        }
        if tag == 2 || tag == 7 || tag == 8 || tag == 9 || tag == 17 || tag == 18 || tag == 19
            || tag == 23 || tag == 35 || tag == 36 || tag == 37 {
            return Err(ElfLoadError::DynamicRelocations);
        }
        i += 1;
    }
    Err(ElfLoadError::InvalidDynamicTable)
}

/// Checks the fixed part of the ELF header.
pub fn check_elf_header(bytes: &[u8]) -> (r: Result<(), ElfLoadError>)
    ensures
        r == header_check(bytes@),
{
    if bytes.len() < ELF_HEADER_SIZE {
        return Err(ElfLoadError::Truncated);
    }
    let b = bytes;
    if b[0] != 0x7f || b[1] != 0x45 || b[2] != 0x4c || b[3] != 0x46 {
        return Err(ElfLoadError::InvalidMagic);
    }
    if b[4] != 2 {
        return Err(ElfLoadError::UnsupportedClass);
    }
    if b[5] != 1 {
        return Err(ElfLoadError::UnsupportedEndianness);
    }
    if b[6] != 1 || read_u32(b, 20)? != 1 {
        return Err(ElfLoadError::UnsupportedVersion);
    }
    let mut k: usize = 7;
    while k < 16
        invariant
            7 <= k <= 16,
            b@ == bytes@,
            b@.len() >= 64,
            b@[0] == 0x7f && b@[1] == 0x45 && b@[2] == 0x4c && b@[3] == 0x46,
            b@[4] == 2 && b@[5] == 1 && b@[6] == 1 && le_u32(b@, 20) == 1,
            forall|i: int| 7 <= i < k ==> b@[i] == 0,
        decreases 16 - k,
    {
        if b[k] != 0 {
            assert(b@[k as int] != 0);
            return Err(ElfLoadError::UnsupportedAbi);
        }
        k += 1;
    }
    if read_u16(b, 16)? != 2 {
        return Err(ElfLoadError::UnsupportedType);
    }
    if read_u16(b, 18)? != 62 {
        return Err(ElfLoadError::UnsupportedMachine);
    }
    if read_u16(b, 52)? != 64 {
        return Err(ElfLoadError::InvalidHeaderSize);
    }
    if read_u16(b, 54)? != 56 {
        return Err(ElfLoadError::InvalidProgramHeaderSize);
    }
    Ok(())
}

/// Runs the load and dynamic checks over the `phnum` program headers at `phoff`.
pub fn scan_program_headers(bytes: &[u8], phoff: usize, phnum: usize) -> (r: Result<
    Vec<LoadSegment>,
    ElfLoadError,
>)
    requires
        phoff + phnum * 56 <= bytes@.len(),
    ensures
        match program_scan(bytes@, phoff as int, phnum as nat) {
            Err(e) => r == Err::<Vec<LoadSegment>, ElfLoadError>(e),
            Ok(segs) => r matches Ok(segments) && segments@.len() == segs.len() && forall|i: int|
                0 <= i < segs.len() ==> segment_matches(#[trigger] segments@[i], segs[i]),
        },
{
    let b = bytes;
    let _len = b.len();
    let mut segments: Vec<LoadSegment> = Vec::new();
    let ghost mut segs: Seq<SegmentFields> = Seq::empty();
    let mut index: usize = 0;
    while index < phnum
        invariant
            index <= phnum,
            b@ == bytes@,
            phoff + phnum * 56 <= b@.len(),
            b@.len() <= usize::MAX,
            program_scan(b@, phoff as int, index as nat) == Ok::<
                Seq<SegmentFields>,
                ElfLoadError,
            >(segs),
            segments@.len() == segs.len(),
            forall|i: int| 0 <= i < segs.len() ==> segment_matches(#[trigger] segments@[i], segs[i]),
            forall|i: int|
                0 <= i < segments@.len() ==> (#[trigger] segments@[i]).virtual_start
                    + segments@[i].memory_len <= u64::MAX,
        decreases phnum - index,
    {
        assert(index * 56 + 56 <= phnum * 56) by (nonlinear_arith)
            requires
                index < phnum,
        ;
        let start = phoff + index * PROGRAM_HEADER_SIZE;
        let header = vstd::slice::slice_subrange(b, start, start + PROGRAM_HEADER_SIZE);
        assert(header@ == program_header(b@, phoff as int, index as int));
        let kind = load_u32(header, 0);
        if kind == PROGRAM_TYPE_LOAD {
            let ghost before = segments@;
            match add_load_segment(b, header, &mut segments) {
                Ok(()) => {},
                Err(e) => {
                    proof {
                        assert(load_check(b@.len(), header@, segs) == Err::<SegmentFields, ElfLoadError>(e));
                        assert(program_scan(b@, phoff as int, (index + 1) as nat) == Err::<
                            Seq<SegmentFields>,
                            ElfLoadError,
                        >(e));
                        lemma_program_scan_error_sticky(
                            b@,
                            phoff as int,
                            (index + 1) as nat,
                            phnum as nat,
                        );
                    }
                    return Err(e);
                },
            }
            proof {
                reveal(load_check);
                let f = load_check(b@.len(), header@, segs)->Ok_0;
                assert(segment_matches(segments@.last(), f));
                assert forall|i: int| 0 <= i < segs.len() implies segments@[i] == before[i] by {
                    assert(segments@.subrange(0, before.len() as int)[i] == segments@[i]);
                }
                let new_segs = segs.push(f);
                assert(program_scan(b@, phoff as int, (index + 1) as nat) == Ok::<
                    Seq<SegmentFields>,
                    ElfLoadError,
                >(new_segs));
                assert forall|i: int| 0 <= i < new_segs.len() implies segment_matches(
                    #[trigger] segments@[i],
                    new_segs[i],
                ) by {
                    if i < segs.len() {
                        assert(segments@[i] == before[i]);
                    } else {
                        assert(segments@[i] == segments@.last());
                    }
                }
                assert forall|i: int| 0 <= i < segments@.len() implies (#[trigger] segments@[i]).virtual_start
                    + segments@[i].memory_len <= u64::MAX by {
                    if i < segs.len() {
                        assert(segments@[i] == before[i]);
                    }
                }
                segs = new_segs;
            }
        } else if kind == PROGRAM_TYPE_DYNAMIC {
            match validate_dynamic_table(b, header) {
                Ok(()) => {},
                Err(e) => {
                    proof {
                        assert(dynamic_check(b@, header@) == Err::<(), ElfLoadError>(e));
                        assert(program_scan(b@, phoff as int, (index + 1) as nat) == Err::<
                            Seq<SegmentFields>,
                            ElfLoadError,
                        >(e));
                        lemma_program_scan_error_sticky(
                            b@,
                            phoff as int,
                            (index + 1) as nat,
                            phnum as nat,
                        );
                    }
                    return Err(e);
                },
            }
        }
        index += 1;
    }
    Ok(segments)
}

/// Whether `entry` lies in one of the executable segments.
pub fn entry_in_executable_segment(segments: &Vec<LoadSegment>, entry: u64, segs: Ghost<
    Seq<SegmentFields>,
>) -> (r: bool)
    requires
        segments@.len() == segs@.len(),
        forall|j: int| 0 <= j < segs@.len() ==> segment_matches(#[trigger] segments@[j], segs@[j]),
        forall|j: int|
            0 <= j < segs@.len() ==> (#[trigger] segs@[j]).virtual_start + segs@[j].memory_len
                <= u64::MAX,
    ensures
        r == entry_covered(segs@, entry),
{
    let ghost segs = segs@;
    let mut covered = false;
    let mut i: usize = 0;
    while i < segments.len()
        invariant
            i <= segments@.len(),
            segments@.len() == segs.len(),
            forall|j: int| 0 <= j < segs.len() ==> segment_matches(#[trigger] segments@[j], segs[j]),
            forall|j: int|
                0 <= j < segs.len() ==> (#[trigger] segs[j]).virtual_start + segs[j].memory_len
                    <= u64::MAX,
            covered <==> exists|j: int|
                0 <= j < i && #[trigger] segs[j].flags & ELF_PF_X == ELF_PF_X
                    && segs[j].virtual_start <= entry < segs[j].virtual_start + segs[j].memory_len,
        decreases segments@.len() - i,
    {
        let segment = &segments[i];
        assert(segment_matches(segments@[i as int], segs[i as int]));
        if segment.flags.contains(SegmentFlags::execute()) {
            let end = segment.virtual_start + segment.memory_len;
            if segment.virtual_start <= entry && entry < end {
                covered = true;
            }
        }
        i += 1;
    }
    covered
}

/// Validates a kernel ELF image and computes where each loadable segment goes.
///
/// The image must be a little-endian x86-64 System V executable whose loadable segments
/// are page-aligned, lie in the higher half, are not both writable and executable, do not
/// overlap, and need no dynamic relocation; the entry point must be in an executable one.
pub fn parse_load_plan(bytes: &[u8]) -> (r: Result<LoadPlan, ElfLoadError>)
    ensures
        match plan_result(bytes@) {
            Err(e) => r == Err::<LoadPlan, ElfLoadError>(e),
            Ok(segs) => r matches Ok(plan) && plan.entry == le_u64(bytes@, 24)
                && plan.segments@.len() == segs.len() && forall|i: int|
                0 <= i < segs.len() ==> segment_matches(#[trigger] plan.segments@[i], segs[i]),
        },
{
    check_elf_header(bytes)?;
    let b = bytes;
    let entry = load_u64(b, 24);
    let raw_phoff = load_u64(b, 32);
    if raw_phoff > usize::MAX as u64 {
        return Err(ElfLoadError::IntegerOverflow);
    }
    let phoff = raw_phoff as usize;
    let phnum = load_u16(b, 56) as usize;
    let phlen = match phnum.checked_mul(PROGRAM_HEADER_SIZE) {
        Some(len) => len,
        None => return Err(ElfLoadError::IntegerOverflow),
    };
    let phend = match phoff.checked_add(phlen) {
        Some(end) => end,
        None => return Err(ElfLoadError::IntegerOverflow),
    };
    if phend > b.len() {
        return Err(ElfLoadError::ProgramHeaderTableOutOfBounds);
    }
    let segments = scan_program_headers(b, phoff, phnum)?;
    let ghost segs = program_scan(b@, phoff as int, phnum as nat)->Ok_0;
    proof {
        lemma_program_scan_bounded(b@, phoff as int, phnum as nat);
    }
    if !entry_in_executable_segment(&segments, entry, Ghost(segs)) {
        return Err(ElfLoadError::EntryOutsideExecutableSegment);
    }
    Ok(LoadPlan { entry, segments })
}

/// A segment an accepted plan may hold: in the high half, not both writable and executable,
/// with its file bytes inside an image of `image_len` bytes.
pub open spec fn segment_safe(f: SegmentFields, image_len: nat) -> bool {
    &&& f.virtual_start >= HIGH_HALF_START
    &&& !(f.flags & ELF_PF_W == ELF_PF_W && f.flags & ELF_PF_X == ELF_PF_X)
    &&& f.file_start <= f.file_end <= image_len
}

/// No two of the segments share a virtual address.
pub open spec fn segments_disjoint(segs: Seq<SegmentFields>) -> bool {
    forall|i: int, j: int|
        0 <= i < j < segs.len() ==> !overlaps_segment(
            #[trigger] segs[i],
            (#[trigger] segs[j]).virtual_start,
            segs[j].virtual_start + segs[j].memory_len,
        )
}

proof fn lemma_scan_safe(b: Seq<u8>, phoff: int, n: nat)
    ensures
        program_scan(b, phoff, n) matches Ok(segs) ==> segments_disjoint(segs) && forall|i: int|
            0 <= i < segs.len() ==> segment_safe(#[trigger] segs[i], b.len()),
    decreases n,
{
    reveal(load_check);
    if n > 0 {
        lemma_scan_safe(b, phoff, (n - 1) as nat);
    }
}

/// Every segment of an accepted plan is loaded in the high half, is not both writable and
/// executable, takes its file bytes from inside the image, and overlaps no other segment;
/// the entry point lies in an executable segment.
pub proof fn lemma_accepted_plan_is_safe(b: Seq<u8>)
    ensures
        plan_result(b) matches Ok(segs) ==> {
            &&& entry_covered(segs, le_u64(b, 24))
            &&& segments_disjoint(segs)
            &&& forall|i: int| 0 <= i < segs.len() ==> segment_safe(#[trigger] segs[i], b.len())
        },
{
    lemma_scan_safe(b, le_u64(b, 32) as int, le_u16(b, 56) as nat);
}

/// Every segment collected by a scan ends inside the 64-bit address space.
pub proof fn lemma_program_scan_bounded(b: Seq<u8>, phoff: int, n: nat)
    ensures
        program_scan(b, phoff, n) matches Ok(segs) ==> forall|j: int|
            0 <= j < segs.len() ==> (#[trigger] segs[j]).virtual_start + segs[j].memory_len
                <= u64::MAX,
    decreases n,
{
    reveal(load_check);
    if n > 0 {
        lemma_program_scan_bounded(b, phoff, (n - 1) as nat);
    }
}

/// Once a program header is rejected, every longer scan reports that error.
pub proof fn lemma_program_scan_error_sticky(b: Seq<u8>, phoff: int, n: nat, m: nat)
    requires
        n <= m,
        program_scan(b, phoff, n) is Err,
    ensures
        program_scan(b, phoff, m) == program_scan(b, phoff, n),
    decreases m - n,
{
    if n < m {
        lemma_program_scan_error_sticky(b, phoff, n, (m - 1) as nat);
    }
}

} // verus!
