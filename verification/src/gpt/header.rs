use vstd::prelude::*;

use super::checksum::{crc32, crc32_iso_hdlc};
use super::{GptCopyError, GptEntry, GptTable};
use crate::abi::{GptGuid, gpt_byte_order};
use crate::block::PartitionRange;
use crate::le::{le_u32, le_u64, load_u32, load_u64};

verus! {

/// The smallest header size the specification allows.
pub const HEADER_SIZE_MIN: u32 = 92;

/// GPT revision 1.0.
pub const REVISION_1_0: u32 = 0x0001_0000;

/// The largest entry array accepted: 128 entries of 128 bytes.
pub const MAX_STANDARD_ENTRY_ARRAY_BYTES: u64 = 16384;

/// The fields of a validated header that locate and check the entry array.
pub struct GptHeader {
    pub disk_guid: GptGuid,
    pub first_usable_lba: u64,
    pub last_usable_lba: u64,
    pub entries_lba: u64,
    pub entry_count: u32,
    pub entry_size: u32,
    pub entry_bytes: u64,
    pub entry_sectors: u64,
    pub entries_crc: u32,
}

/// Whether `[a, b)` and `[c, d)` share a sector.
pub open spec fn spans_overlap(a: int, b: int, c: int, d: int) -> bool {
    a < d && c < b
}

/// The GUID stored in GPT byte order at `off`, in canonical order.
pub open spec fn le_guid(b: Seq<u8>, off: int) -> Seq<u8> {
    gpt_byte_order(b.subrange(off, off + 16))
}

/// The header bytes the header checksum covers: the first `size` bytes with the checksum
/// field itself read as zero.
pub open spec fn crc_input(h: Seq<u8>, size: nat) -> Seq<u8> {
    Seq::new(size, |i: int| if 16 <= i < 20 { 0u8 } else { h[i] })
}

pub open spec fn gpt_signature() -> Seq<u8> {
    seq![0x45u8, 0x46, 0x49, 0x20, 0x50, 0x41, 0x52, 0x54]
}

/// Why the header `h`, read from `header_lba` of a disk of `sc` sectors, is rejected;
/// `None` when it is accepted.
pub open spec fn header_result(h: Seq<u8>, sc: u64, header_lba: u64, alternate: u64) -> Option<
    GptCopyError,
> {
    let revision = le_u32(h, 8);
    let header_size = le_u32(h, 12);
    let current = le_u64(h, 24);
    let alt = le_u64(h, 32);
    let first = le_u64(h, 40);
    let last = le_u64(h, 48);
    let usable_end = last + 1;
    let entries_lba = le_u64(h, 72);
    let count = le_u32(h, 80);
    let size = le_u32(h, 84);
    let entry_bytes = count * size;
    let entry_sectors = (entry_bytes + 511) / 512;
    let entries_end = entries_lba + entry_sectors;
    if h.subrange(0, 8) != gpt_signature() {
        Some(GptCopyError::Signature)
    } else if revision != REVISION_1_0 {
        Some(GptCopyError::Revision(revision))
    } else if header_size < HEADER_SIZE_MIN || header_size > 512 {
        Some(GptCopyError::HeaderSize(header_size))
    } else if crc32_iso_hdlc(crc_input(h, header_size as nat)) != le_u32(h, 16) {
        Some(GptCopyError::HeaderCrc)
    } else if current != header_lba {
        Some(GptCopyError::CurrentLba { expected: header_lba, actual: current })
    } else if alt != alternate {
        Some(GptCopyError::AlternateLba { expected: alternate, actual: alt })
    } else if last == u64::MAX || first > last || last >= sc || spans_overlap(
        first as int,
        usable_end,
        1,
        2,
    ) || spans_overlap(first as int, usable_end, sc - 1, sc as int) {
        Some(GptCopyError::UsableRange { first_lba: first, last_lba: last })
    } else if count == 0 {
        Some(GptCopyError::EntryCount)
    } else if size < 128 {
        Some(GptCopyError::EntrySize(size))
    } else if entry_bytes > MAX_STANDARD_ENTRY_ARRAY_BYTES {
        Some(GptCopyError::EntryArrayTooLarge { byte_len: entry_bytes as u64 })
    } else if entries_end > u64::MAX || entries_lba >= sc || entries_end > sc || spans_overlap(
        entries_lba as int,
        entries_end,
        1,
        2,
    ) || spans_overlap(entries_lba as int, entries_end, sc - 1, sc as int) || spans_overlap(
        entries_lba as int,
        entries_end,
        first as int,
        usable_end,
    ) {
        Some(
            GptCopyError::EntryArrayRange {
                first_lba: entries_lba,
                sector_count: entry_sectors as u64,
            },
        )
    } else {
        None
    }
}

/// The fields of an accepted header, decoded from `h`.
pub open spec fn header_decoded(hdr: GptHeader, h: Seq<u8>) -> bool {
    &&& hdr.disk_guid.0@ == le_guid(h, 56)
    &&& hdr.first_usable_lba == le_u64(h, 40)
    &&& hdr.last_usable_lba == le_u64(h, 48)
    &&& hdr.entries_lba == le_u64(h, 72)
    &&& hdr.entry_count == le_u32(h, 80)
    &&& hdr.entry_size == le_u32(h, 84)
    &&& hdr.entries_crc == le_u32(h, 88)
    &&& hdr.entry_bytes == hdr.entry_count * hdr.entry_size
    &&& hdr.entry_sectors == (hdr.entry_bytes + 511) / 512
}

/// What every accepted header satisfies on a disk of `sc` sectors.
pub open spec fn header_wf(hdr: GptHeader, sc: u64) -> bool {
    &&& hdr.first_usable_lba <= hdr.last_usable_lba < sc
    &&& !spans_overlap(hdr.first_usable_lba as int, hdr.last_usable_lba + 1, 1, 2)
    &&& !spans_overlap(hdr.first_usable_lba as int, hdr.last_usable_lba + 1, sc - 1, sc as int)
    &&& hdr.entry_count >= 1
    &&& hdr.entry_size >= 128
    &&& hdr.entry_bytes == hdr.entry_count * hdr.entry_size
    &&& hdr.entry_bytes <= MAX_STANDARD_ENTRY_ARRAY_BYTES
    &&& hdr.entry_sectors == (hdr.entry_bytes + 511) / 512
    &&& hdr.entries_lba + hdr.entry_sectors <= sc
}

/// What happens to the entry slot `index` of the array `buf`.
pub enum EntryOutcome {
    Unused,
    Invalid(GptCopyError),
    Used,
}

pub open spec fn entry_at(hdr: GptHeader, buf: Seq<u8>, index: int) -> EntryOutcome {
    let off = index * hdr.entry_size;
    let first = le_u64(buf, off + 32);
    let last = le_u64(buf, off + 40);
    if buf.subrange(off, off + 16) == Seq::new(16, |i: int| 0u8) {
        EntryOutcome::Unused
    } else if first > last || first < hdr.first_usable_lba || last > hdr.last_usable_lba {
        EntryOutcome::Invalid(
            GptCopyError::EntryRange { index: index as u32, first_lba: first, last_lba: last },
        )
    } else {
        EntryOutcome::Used
    }
}

/// The slots among the first `n` that hold used entries, or the first invalid one's error.
pub open spec fn used_slots(hdr: GptHeader, buf: Seq<u8>, n: nat) -> Result<
    Seq<int>,
    GptCopyError,
>
    decreases n,
{
    if n == 0 {
        Ok(Seq::empty())
    } else {
        match used_slots(hdr, buf, (n - 1) as nat) {
            Err(e) => Err(e),
            Ok(s) => match entry_at(hdr, buf, n - 1) {
                EntryOutcome::Unused => Ok(s),
                EntryOutcome::Invalid(e) => Err(e),
                EntryOutcome::Used => Ok(s.push(n - 1)),
            },
        }
    }
}

/// The outcome of checking the entry array `buf` against its header.
pub open spec fn entries_result(hdr: GptHeader, buf: Seq<u8>) -> Result<Seq<int>, GptCopyError> {
    if crc32_iso_hdlc(buf.subrange(0, hdr.entry_bytes as int)) != hdr.entries_crc {
        Err(GptCopyError::EntryCrc)
    } else {
        used_slots(hdr, buf, hdr.entry_count as nat)
    }
}

/// The entry stored in slot `index`, decoded.
pub open spec fn entry_decoded(e: GptEntry, hdr: GptHeader, buf: Seq<u8>, index: int) -> bool {
    let off = index * hdr.entry_size;
    &&& e.type_guid.0@ == le_guid(buf, off)
    &&& e.unique_guid.0@ == le_guid(buf, off + 16)
    &&& e.range.first_lba == le_u64(buf, off + 32)
    &&& e.range.sector_count == le_u64(buf, off + 40) - le_u64(buf, off + 32) + 1
}

/// Whether `[first_start, first_end)` and `[second_start, second_end)` overlap.
pub fn ranges_overlap(first_start: u64, first_end: u64, second_start: u64, second_end: u64) -> (r:
    bool)
    ensures
        r == spans_overlap(first_start as int, first_end as int, second_start as int, second_end as int),
{
    first_start < second_end && second_start < first_end
}

/// The little-endian 32-bit value at `offset`, or `HeaderSize(0)` past the end.
pub fn read_u32(bytes: &[u8], offset: usize) -> (r: Result<u32, GptCopyError>)
    requires
        offset + 4 <= usize::MAX,
    ensures
        offset + 4 <= bytes@.len() ==> r == Ok::<u32, GptCopyError>(le_u32(bytes@, offset as int)),
        offset + 4 > bytes@.len() ==> r == Err::<u32, GptCopyError>(GptCopyError::HeaderSize(0)),
{
    if offset + 4 > bytes.len() {
        return Err(GptCopyError::HeaderSize(0));
    }
    Ok(load_u32(bytes, offset))
}

/// The little-endian 64-bit value at `offset`, or `HeaderSize(0)` past the end.
pub fn read_u64(bytes: &[u8], offset: usize) -> (r: Result<u64, GptCopyError>)
    requires
        offset + 8 <= usize::MAX,
    ensures
        offset + 8 <= bytes@.len() ==> r == Ok::<u64, GptCopyError>(le_u64(bytes@, offset as int)),
        offset + 8 > bytes@.len() ==> r == Err::<u64, GptCopyError>(GptCopyError::HeaderSize(0)),
{
    if offset + 8 > bytes.len() {
        return Err(GptCopyError::HeaderSize(0));
    }
    Ok(load_u64(bytes, offset))
}

/// The GUID stored in GPT byte order at `offset`, or `HeaderSize(0)` past the end.
pub fn read_guid(bytes: &[u8], offset: usize) -> (r: Result<GptGuid, GptCopyError>)
    requires
        offset + 16 <= usize::MAX,
    ensures
        offset + 16 <= bytes@.len() ==> (r matches Ok(g) && g.0@ == le_guid(bytes@, offset as int)),
        offset + 16 > bytes@.len() ==> r == Err::<GptGuid, GptCopyError>(GptCopyError::HeaderSize(0)),
{
    if offset + 16 > bytes.len() {
        return Err(GptCopyError::HeaderSize(0));
    }
    let mut raw = [0u8; 16];
    let mut i: usize = 0;
    while i < 16
        invariant
            i <= 16,
            offset + 16 <= bytes@.len(),
            offset + 16 <= usize::MAX,
            forall|j: int| 0 <= j < i ==> raw@[j] == bytes@[offset + j],
        decreases 16 - i,
    {
        raw[i] = bytes[offset + i];
        i += 1;
    }
    assert(raw@ =~= bytes@.subrange(offset as int, offset + 16));
    Ok(GptGuid::from_gpt_bytes(raw))
}

fn has_signature(header: &[u8]) -> (r: bool)
    requires
        header@.len() >= 8,
    ensures
        r == (header@.subrange(0, 8) == gpt_signature()),
{
    let ok = header[0] == 0x45 && header[1] == 0x46 && header[2] == 0x49 && header[3] == 0x20
        && header[4] == 0x50 && header[5] == 0x41 && header[6] == 0x52 && header[7] == 0x54;
    if ok {
        assert(header@.subrange(0, 8) =~= gpt_signature());
    } else {
        assert(header@.subrange(0, 8) != gpt_signature()) by {
            if header@.subrange(0, 8) == gpt_signature() {
                assert(header@.subrange(0, 8)[0] == header@[0]);
                assert(header@.subrange(0, 8)[1] == header@[1]);
                assert(header@.subrange(0, 8)[2] == header@[2]);
                assert(header@.subrange(0, 8)[3] == header@[3]);
                assert(header@.subrange(0, 8)[4] == header@[4]);
                assert(header@.subrange(0, 8)[5] == header@[5]);
                assert(header@.subrange(0, 8)[6] == header@[6]);
                assert(header@.subrange(0, 8)[7] == header@[7]);
            }
        }
    }
    ok
}

/// Validates a GPT header sector read from `header_lba` of a disk of `sector_count` sectors.
pub fn parse_header(
    header: &[u8],
    sector_count: u64,
    header_lba: u64,
    expected_alternate_lba: u64,
) -> (r: Result<GptHeader, GptCopyError>)
    requires
        header@.len() == 512,
    ensures
        match header_result(header@, sector_count, header_lba, expected_alternate_lba) {
            Some(e) => r == Err::<GptHeader, GptCopyError>(e),
            None => r matches Ok(hdr) && header_decoded(hdr, header@) && header_wf(
                hdr,
                sector_count,
            ),
        },
{
    let h = header;
    if !has_signature(h) {
        return Err(GptCopyError::Signature);
    }
    let revision = read_u32(h, 8)?;
    if revision != REVISION_1_0 {
        return Err(GptCopyError::Revision(revision));
    }
    let header_size = read_u32(h, 12)?;
    if header_size < HEADER_SIZE_MIN || header_size > 512 {
        return Err(GptCopyError::HeaderSize(header_size));
    }
    let stored_header_crc = read_u32(h, 16)?;
    let mut crc_header: Vec<u8> = Vec::new();
    let mut i: usize = 0;
    while i < header_size as usize
        invariant
            i <= header_size <= 512,
            h@.len() == 512,
            crc_header@.len() == i,
            forall|j: int| 0 <= j < i ==> crc_header@[j] == (if 16 <= j < 20 { 0u8 } else { h@[j] }),
        decreases header_size - i,
    {
        if 16 <= i && i < 20 {
            crc_header.push(0u8);
        } else {
            crc_header.push(h[i]);
        }
        i += 1;
    }
    assert(crc_header@ =~= crc_input(h@, header_size as nat));
    if crc32(crc_header.as_slice()) != stored_header_crc {
        return Err(GptCopyError::HeaderCrc);
    }
    let current_lba = read_u64(h, 24)?;
    if current_lba != header_lba {
        return Err(GptCopyError::CurrentLba { expected: header_lba, actual: current_lba });
    }
    let alternate_lba = read_u64(h, 32)?;
    if alternate_lba != expected_alternate_lba {
        return Err(
            GptCopyError::AlternateLba { expected: expected_alternate_lba, actual: alternate_lba },
        );
    }
    let first_usable_lba = read_u64(h, 40)?;
    let last_usable_lba = read_u64(h, 48)?;
    let usable_end = match last_usable_lba.checked_add(1) {
        Some(end) => end,
        None => {
            return Err(
                GptCopyError::UsableRange { first_lba: first_usable_lba, last_lba: last_usable_lba },
            )
        },
    };
    if first_usable_lba > last_usable_lba || last_usable_lba >= sector_count || ranges_overlap(
        first_usable_lba,
        usable_end,
        1,
        2,
    ) || ranges_overlap(first_usable_lba, usable_end, sector_count - 1, sector_count) {
        return Err(
            GptCopyError::UsableRange { first_lba: first_usable_lba, last_lba: last_usable_lba },
        );
    }
    let disk_guid = read_guid(h, 56)?;
    let entries_lba = read_u64(h, 72)?;
    let entry_count = read_u32(h, 80)?;
    if entry_count == 0 {
        return Err(GptCopyError::EntryCount);
    }
    let entry_size = read_u32(h, 84)?;
    if entry_size < 128 {
        return Err(GptCopyError::EntrySize(entry_size));
    }
    assert((entry_count as u64) * (entry_size as u64) <= u64::MAX) by (nonlinear_arith)
        requires
            entry_count <= u32::MAX,
            entry_size <= u32::MAX,
    ;
    let entry_bytes = (entry_count as u64) * (entry_size as u64);
    if entry_bytes > MAX_STANDARD_ENTRY_ARRAY_BYTES {
        return Err(GptCopyError::EntryArrayTooLarge { byte_len: entry_bytes });
    }
    let entry_sectors = (entry_bytes + 511) / 512;
    let entries_end = match entries_lba.checked_add(entry_sectors) {
        Some(end) => end,
        None => {
            return Err(
                GptCopyError::EntryArrayRange { first_lba: entries_lba, sector_count: entry_sectors },
            )
        },
    };
    if entries_lba >= sector_count || entries_end > sector_count || ranges_overlap(
        entries_lba,
        entries_end,
        1,
        2,
    ) || ranges_overlap(entries_lba, entries_end, sector_count - 1, sector_count)
        || ranges_overlap(entries_lba, entries_end, first_usable_lba, usable_end) {
        return Err(
            GptCopyError::EntryArrayRange { first_lba: entries_lba, sector_count: entry_sectors },
        );
    }
    let entries_crc = read_u32(h, 88)?;
    Ok(
        GptHeader {
            disk_guid,
            first_usable_lba,
            last_usable_lba,
            entries_lba,
            entry_count,
            entry_size,
            entry_bytes,
            entry_sectors,
            entries_crc,
        },
    )
}

/// The facts about an accepted header that the entry parser relies on.
pub open spec fn header_layout(hdr: GptHeader) -> bool {
    &&& hdr.first_usable_lba <= hdr.last_usable_lba < u64::MAX
    &&& hdr.entry_count >= 1
    &&& hdr.entry_size >= 128
    &&& hdr.entry_bytes == hdr.entry_count * hdr.entry_size
    &&& hdr.entry_bytes <= MAX_STANDARD_ENTRY_ARRAY_BYTES
    &&& hdr.entry_sectors == (hdr.entry_bytes + 511) / 512
}

/// Checks the entry array `buf` (the whole sectors read for it) against its header and
/// collects the used entries in slot order.
pub fn parse_entries(header: &GptHeader, buf: &[u8]) -> (r: Result<GptTable, GptCopyError>)
    requires
        header_layout(*header),
        buf@.len() == header.entry_sectors * 512,
    ensures
        match entries_result(*header, buf@) {
            Err(e) => r == Err::<GptTable, GptCopyError>(e),
            Ok(slots) => r matches Ok(t) && {
                &&& t.disk_guid == header.disk_guid
                &&& t.first_usable_lba == header.first_usable_lba
                &&& t.last_usable_lba == header.last_usable_lba
                &&& t.entry_count == header.entry_count
                &&& t.entry_size == header.entry_size
                &&& t.entries@.len() == slots.len()
                &&& forall|j: int|
                    0 <= j < slots.len() ==> entry_decoded(
                        #[trigger] t.entries@[j],
                        *header,
                        buf@,
                        slots[j],
                    )
                &&& forall|j: int|
                    0 <= j < slots.len() ==> super::valid_entry(
                        #[trigger] t.entries@[j],
                        header.first_usable_lba,
                        header.last_usable_lba,
                    )
            },
        },
{
    let hdr = header;
    let entry_byte_len = hdr.entry_bytes as usize;
    let checked = vstd::slice::slice_subrange(buf, 0, entry_byte_len);
    if crc32(checked) != hdr.entries_crc {
        return Err(GptCopyError::EntryCrc);
    }
    let mut entries: Vec<GptEntry> = Vec::new();
    let ghost mut slots: Seq<int> = Seq::empty();
    let mut index: u32 = 0;
    while index < hdr.entry_count
        invariant
            header_layout(*hdr),
            *hdr == *header,
            buf@.len() == hdr.entry_sectors * 512,
            index <= hdr.entry_count,
            crc32_iso_hdlc(buf@.subrange(0, hdr.entry_bytes as int)) == hdr.entries_crc,
            used_slots(*hdr, buf@, index as nat) == Ok::<Seq<int>, GptCopyError>(slots),
            entries@.len() == slots.len(),
            forall|j: int|
                0 <= j < slots.len() ==> entry_decoded(#[trigger] entries@[j], *hdr, buf@, slots[j]),
            forall|j: int|
                0 <= j < slots.len() ==> super::valid_entry(
                    #[trigger] entries@[j],
                    hdr.first_usable_lba,
                    hdr.last_usable_lba,
                ),
        decreases hdr.entry_count - index,
    {
        assert(index * hdr.entry_size + hdr.entry_size <= hdr.entry_count * hdr.entry_size)
            by (nonlinear_arith)
            requires
                index < hdr.entry_count,
        ;
        assert(hdr.entry_bytes <= hdr.entry_sectors * 512);
        let offset = (index as usize) * (hdr.entry_size as usize);
        let type_guid = read_guid(buf, offset)?;
        let ghost off = offset as int;
        if type_guid.is_zero() {
            proof {
                lemma_gpt_order_zero(buf@.subrange(off, off + 16), type_guid.0@);
                assert(entry_at(*hdr, buf@, index as int) == EntryOutcome::Unused);
            }
            index += 1;
            continue;
        }
        proof {
            lemma_gpt_order_nonzero(buf@.subrange(off, off + 16), type_guid.0@);
        }
        let first_lba = read_u64(buf, offset + 32)?;
        let last_lba = read_u64(buf, offset + 40)?;
        if first_lba > last_lba || first_lba < hdr.first_usable_lba || last_lba
            > hdr.last_usable_lba {
            proof {
                assert(entry_at(*hdr, buf@, index as int) == EntryOutcome::Invalid(
                    GptCopyError::EntryRange { index, first_lba, last_lba },
                ));
                assert(used_slots(*hdr, buf@, (index + 1) as nat) == Err::<Seq<int>, GptCopyError>(
                    GptCopyError::EntryRange { index, first_lba, last_lba },
                ));
                lemma_used_slots_error_sticky(*hdr, buf@, (index + 1) as nat, hdr.entry_count as nat);
            }
            return Err(GptCopyError::EntryRange { index, first_lba, last_lba });
        }
        let sector_count = last_lba - first_lba + 1;
        let unique_guid = read_guid(buf, offset + 16)?;
        let entry = GptEntry {
            type_guid,
            unique_guid,
            range: PartitionRange { first_lba, sector_count },
        };
        entries.push(entry);
        proof {
            slots = slots.push(index as int);
        }
        index += 1;
    }
    Ok(
        GptTable {
            disk_guid: hdr.disk_guid,
            first_usable_lba: hdr.first_usable_lba,
            last_usable_lba: hdr.last_usable_lba,
            entry_count: hdr.entry_count,
            entry_size: hdr.entry_size,
            entries,
        },
    )
}

/// Once a slot is invalid, every longer scan reports that slot's error.
pub proof fn lemma_used_slots_error_sticky(hdr: GptHeader, buf: Seq<u8>, n: nat, m: nat)
    requires
        n <= m,
        used_slots(hdr, buf, n) is Err,
    ensures
        used_slots(hdr, buf, m) == used_slots(hdr, buf, n),
    decreases m - n,
{
    if n < m {
        lemma_used_slots_error_sticky(hdr, buf, n, (m - 1) as nat);
    }
}

/// A GUID is all zero exactly when its on-disk bytes are.
proof fn lemma_gpt_order_zero(raw: Seq<u8>, g: Seq<u8>)
    requires
        raw.len() == 16,
        g == gpt_byte_order(raw),
        g == Seq::new(16, |i: int| 0u8),
    ensures
        raw == Seq::new(16, |i: int| 0u8),
{
    crate::abi::lemma_gpt_byte_order_involution(raw);
    assert(gpt_byte_order(Seq::new(16, |i: int| 0u8)) =~= Seq::new(16, |i: int| 0u8));
}

proof fn lemma_gpt_order_nonzero(raw: Seq<u8>, g: Seq<u8>)
    requires
        raw.len() == 16,
        g == gpt_byte_order(raw),
        g != Seq::new(16, |i: int| 0u8),
    ensures
        raw != Seq::new(16, |i: int| 0u8),
{
    assert(gpt_byte_order(Seq::new(16, |i: int| 0u8)) =~= Seq::new(16, |i: int| 0u8));
}

} // verus!
