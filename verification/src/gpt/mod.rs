use vstd::prelude::*;

mod checksum;
mod header;

pub use checksum::crc32_iso_hdlc;
pub use header::{
    GptHeader, crc_input, entry_at, entry_decoded, entries_result, header_decoded, header_layout,
    header_result,
    le_guid, parse_entries, parse_header, read_guid, read_u32, read_u64, ranges_overlap,
    spans_overlap, EntryOutcome,
};

use crate::abi::GptGuid;
use crate::block::{
    BlockDevice, BlockError, BlockGeometry, DeviceRequest, PartitionDevice, PartitionRange, extends,
    requests_since,
};

verus! {

/// The only logical sector size a GPT disk may have here.
pub const SECTOR_SIZE: u32 = 512;

/// Which of the two GPT copies.
#[derive(Clone, Copy, Debug, PartialEq, Eq, Structural)]
pub enum GptCopy {
    Primary,
    Backup,
}

/// Whether both GPT copies were valid.
#[derive(Clone, Copy, Debug, PartialEq, Eq, Structural)]
pub enum GptHealth {
    Redundant,
    Degraded { invalid_copy: GptCopy },
}

/// The partition chosen by unique GUID, opened as a device, and how healthy the table was.
pub struct SelectedPartition<D> {
    pub device: PartitionDevice<D>,
    pub health: GptHealth,
}

/// Why one GPT copy was rejected.
#[derive(Clone, Copy, Debug, PartialEq, Eq, Structural)]
pub enum GptCopyError {
    Device(BlockError),
    Signature,
    Revision(u32),
    HeaderSize(u32),
    HeaderCrc,
    CurrentLba { expected: u64, actual: u64 },
    AlternateLba { expected: u64, actual: u64 },
    UsableRange { first_lba: u64, last_lba: u64 },
    EntryCount,
    EntrySize(u32),
    EntryByteLength { count: u32, size: u32 },
    EntryArrayTooLarge { byte_len: u64 },
    EntryArrayRange { first_lba: u64, sector_count: u64 },
    EntryAllocation { byte_len: u64 },
    EntryCrc,
    EntryRange { index: u32, first_lba: u64, last_lba: u64 },
}

/// Why no partition was selected.
#[derive(Clone, Copy, Debug, PartialEq, Eq, Structural)]
pub enum GptError {
    UnsupportedSectorSize(u32),
    Device(BlockError),
    BothCopiesInvalid { primary: GptCopyError, backup: GptCopyError },
    ConflictingCopies,
    GuidNotFound,
    DuplicateGuid,
}

/// One used partition entry.
pub struct GptEntry {
    pub type_guid: GptGuid,
    pub unique_guid: GptGuid,
    pub range: PartitionRange,
}

/// A validated copy of the partition table.
pub struct GptTable {
    pub disk_guid: GptGuid,
    pub first_usable_lba: u64,
    pub last_usable_lba: u64,
    pub entry_count: u32,
    pub entry_size: u32,
    pub entries: Vec<GptEntry>,
}

/// Whether two tables describe the same disk layout.
pub open spec fn tables_match(a: &GptTable, b: &GptTable) -> bool {
    &&& a.disk_guid == b.disk_guid
    &&& a.first_usable_lba == b.first_usable_lba
    &&& a.last_usable_lba == b.last_usable_lba
    &&& a.entry_count == b.entry_count
    &&& a.entry_size == b.entry_size
    &&& a.entries@ == b.entries@
}

/// Facts that hold of every table that `parse_copy` accepts on a disk of `sector_count` sectors.
pub open spec fn valid_table(t: &GptTable, sector_count: u64) -> bool {
    &&& t.first_usable_lba <= t.last_usable_lba < sector_count
    &&& !spans_overlap(t.first_usable_lba as int, t.last_usable_lba + 1, 1, 2)
    &&& !spans_overlap(
        t.first_usable_lba as int,
        t.last_usable_lba + 1,
        sector_count - 1,
        sector_count as int,
    )
    &&& t.entry_count > 0
    &&& t.entry_size >= 128
    &&& forall|i: int|
        0 <= i < t.entries@.len() ==> valid_entry(#[trigger] t.entries@[i], t.first_usable_lba,
            t.last_usable_lba)
}

/// A used entry whose sectors lie inside the usable range.
pub open spec fn valid_entry(e: GptEntry, first_usable: u64, last_usable: u64) -> bool {
    &&& e.type_guid.0@ != Seq::new(16, |i: int| 0u8)
    &&& e.range.sector_count >= 1
    &&& first_usable <= e.range.first_lba
    &&& e.range.first_lba + e.range.sector_count - 1 <= last_usable
}

/// How many entries carry the unique GUID `target`.
pub open spec fn count_guid(entries: Seq<GptEntry>, target: Seq<u8>) -> nat
    decreases entries.len(),
{
    if entries.len() == 0 {
        0
    } else {
        count_guid(entries.drop_last(), target) + (if entries.last().unique_guid.0@ == target {
            1nat
        } else {
            0
        })
    }
}

/// The range of the first entry that carries the unique GUID `target`.
pub open spec fn first_with_guid(entries: Seq<GptEntry>, target: Seq<u8>) -> PartitionRange
    decreases entries.len(),
{
    if entries.len() == 0 {
        PartitionRange { first_lba: 0, sector_count: 0 }
    } else if count_guid(entries.drop_last(), target) == 0 {
        entries.last().range
    } else {
        first_with_guid(entries.drop_last(), target)
    }
}

/// The partition a table names for `target`: exactly one entry must carry it.
pub open spec fn lookup_result(entries: Seq<GptEntry>, target: Seq<u8>) -> Result<
    PartitionRange,
    GptError,
> {
    let n = count_guid(entries, target);
    if n == 0 {
        Err(GptError::GuidNotFound)
    } else if n > 1 {
        Err(GptError::DuplicateGuid)
    } else {
        Ok(first_with_guid(entries, target))
    }
}

/// Which table to use, given the outcome for each copy.
pub open spec fn choice_result(
    primary: Result<GptTable, GptCopyError>,
    backup: Result<GptTable, GptCopyError>,
) -> Result<GptHealth, GptError> {
    match (primary, backup) {
        (Ok(p), Ok(b)) => if tables_match(&p, &b) {
            Ok(GptHealth::Redundant)
        } else {
            Err(GptError::ConflictingCopies)
        },
        (Ok(_), Err(_)) => Ok(GptHealth::Degraded { invalid_copy: GptCopy::Backup }),
        (Err(_), Ok(_)) => Ok(GptHealth::Degraded { invalid_copy: GptCopy::Primary }),
        (Err(p), Err(b)) => Err(GptError::BothCopiesInvalid { primary: p, backup: b }),
    }
}

/// The table that the choice keeps: the primary one unless only the backup is valid.
pub open spec fn chosen_table(
    primary: Result<GptTable, GptCopyError>,
    backup: Result<GptTable, GptCopyError>,
) -> GptTable
    recommends
        primary is Ok || backup is Ok,
{
    match primary {
        Ok(p) => p,
        Err(_) => backup->Ok_0,
    }
}

/// GUIDs with the same bytes are the same value.
pub proof fn lemma_guid_eq(a: GptGuid, b: GptGuid)
    ensures
        (a.0@ == b.0@) == (a == b),
{
    if a.0@ == b.0@ {
        assert(a.0 =~= b.0);
    }
}

impl GptEntry {
    fn same_as(&self, other: &Self) -> (r: bool)
        ensures
            r == (*self == *other),
    {
        proof {
            lemma_guid_eq(self.type_guid, other.type_guid);
            lemma_guid_eq(self.unique_guid, other.unique_guid);
        }
        self.type_guid.same_as(&other.type_guid) && self.unique_guid.same_as(&other.unique_guid)
            && self.range == other.range
    }
}

impl GptTable {
    /// Whether both copies describe the same disk and the same entries.
    pub fn matches(&self, other: &Self) -> (r: bool)
        ensures
            r == tables_match(self, other),
    {
        proof {
            lemma_guid_eq(self.disk_guid, other.disk_guid);
        }
        if !(self.disk_guid.same_as(&other.disk_guid)
            && self.first_usable_lba == other.first_usable_lba
            && self.last_usable_lba == other.last_usable_lba
            && self.entry_count == other.entry_count && self.entry_size == other.entry_size) {
            return false;
        }
        if self.entries.len() != other.entries.len() {
            return false;
        }
        let mut i: usize = 0;
        while i < self.entries.len()
            invariant
                i <= self.entries@.len(),
                self.entries@.len() == other.entries@.len(),
                forall|j: int| 0 <= j < i ==> self.entries@[j] == other.entries@[j],
            decreases self.entries@.len() - i,
        {
            if !self.entries[i].same_as(&other.entries[i]) {
                return false;
            }
            i += 1;
        }
        assert(self.entries@ =~= other.entries@);
        true
    }
}

/// Finds the single entry of `entries` that carries `target`.
pub fn lookup_unique_guid(entries: &Vec<GptEntry>, target: &GptGuid) -> (r: Result<
    PartitionRange,
    GptError,
>)
    ensures
        r == lookup_result(entries@, target.0@),
{
    let mut selected: Option<PartitionRange> = None;
    let mut i: usize = 0;
    while i < entries.len()
        invariant
            i <= entries@.len(),
            count_guid(entries@.subrange(0, i as int), target.0@) <= 1,
            selected is None <==> count_guid(entries@.subrange(0, i as int), target.0@) == 0,
            selected matches Some(range) ==> range == first_with_guid(
                entries@.subrange(0, i as int),
                target.0@,
            ),
        decreases entries@.len() - i,
    {
        let ghost prefix = entries@.subrange(0, i as int);
        let ghost next = entries@.subrange(0, i + 1);
        assert(next.drop_last() =~= prefix);
        if entries[i].unique_guid.same_as(target) {
            if selected.is_some() {
                proof {
                    lemma_count_guid_prefix(entries@, target.0@, (i + 1) as int);
                }
                return Err(GptError::DuplicateGuid);
            }
            selected = Some(entries[i].range);
        }
        i += 1;
    }
    assert(entries@.subrange(0, entries@.len() as int) =~= entries@);
    match selected {
        Some(range) => Ok(range),
        None => Err(GptError::GuidNotFound),
    }
}

/// Counting matches over a longer prefix never finds fewer.
pub proof fn lemma_count_guid_prefix(entries: Seq<GptEntry>, target: Seq<u8>, n: int)
    requires
        0 <= n <= entries.len(),
    ensures
        count_guid(entries.subrange(0, n), target) <= count_guid(entries, target),
    decreases entries.len() - n,
{
    if n < entries.len() {
        lemma_count_guid_prefix(entries, target, n + 1);
        assert(entries.subrange(0, n + 1).drop_last() =~= entries.subrange(0, n));
    } else {
        assert(entries.subrange(0, n) =~= entries);
    }
}

/// Decides between the two copies and then looks `target` up in the chosen table.
pub fn select_partition(
    primary: Result<GptTable, GptCopyError>,
    backup: Result<GptTable, GptCopyError>,
    target: &GptGuid,
) -> (r: Result<(PartitionRange, GptHealth), GptError>)
    ensures
        match choice_result(primary, backup) {
            Err(e) => r == Err::<(PartitionRange, GptHealth), GptError>(e),
            Ok(health) => match lookup_result(chosen_table(primary, backup).entries@, target.0@) {
                Err(e) => r == Err::<(PartitionRange, GptHealth), GptError>(e),
                Ok(range) => r == Ok::<(PartitionRange, GptHealth), GptError>((range, health)),
            },
        },
{
    let (table, health) = match (primary, backup) {
        (Ok(p), Ok(b)) => {
            if p.matches(&b) {
                (p, GptHealth::Redundant)
            } else {
                return Err(GptError::ConflictingCopies);
            }
        },
        (Ok(p), Err(_)) => (p, GptHealth::Degraded { invalid_copy: GptCopy::Backup }),
        (Err(_), Ok(b)) => (b, GptHealth::Degraded { invalid_copy: GptCopy::Primary }),
        (Err(p), Err(b)) => {
            return Err(GptError::BothCopiesInvalid { primary: p, backup: b });
        },
    };
    let range = lookup_unique_guid(&table.entries, target)?;
    Ok((range, health))
}

/// The table decoded from the entry array `buf` of the accepted header `hdr`: its used
/// slots in order, each decoded, or why the array is refused.
pub open spec fn table_read(hdr: GptHeader, buf: Seq<u8>, r: Result<GptTable, GptCopyError>) -> bool {
    match entries_result(hdr, buf) {
        Err(e) => r == Err::<GptTable, GptCopyError>(e),
        Ok(slots) => r matches Ok(t) && {
            &&& t.disk_guid == hdr.disk_guid
            &&& t.first_usable_lba == hdr.first_usable_lba
            &&& t.last_usable_lba == hdr.last_usable_lba
            &&& t.entry_count == hdr.entry_count
            &&& t.entry_size == hdr.entry_size
            &&& t.entries@.len() == slots.len()
            &&& forall|j: int|
                0 <= j < slots.len() ==> entry_decoded(#[trigger] t.entries@[j], hdr, buf, slots[j])
        },
    }
}

/// What follows an accepted header `hdr`: no request when the entry buffer cannot be
/// allocated, else one read of the whole entry sectors at the header's entry LBA.
pub open spec fn entries_read(
    hdr: GptHeader,
    requests: Seq<DeviceRequest>,
    r: Result<GptTable, GptCopyError>,
) -> bool {
    if requests.len() == 0 {
        r == Err::<GptTable, GptCopyError>(
            GptCopyError::EntryAllocation { byte_len: hdr.entry_bytes },
        )
    } else {
        &&& requests.len() == 1
        &&& requests[0] matches DeviceRequest::Read { lba, data, result }
        &&& lba == hdr.entries_lba
        &&& data.len() == hdr.entry_sectors * 512
        &&& match result {
            Err(e) => r == Err::<GptTable, GptCopyError>(GptCopyError::Device(e)),
            Ok(_) => table_read(hdr, data, r),
        }
    }
}

/// What reading one GPT copy gives when the device answered `requests`: only reads, first
/// the 512-byte header sector at `header_lba`, then, once the header is accepted, its entry
/// array; the result is what the header and entry rules give on the bytes read.
pub open spec fn copy_read(
    requests: Seq<DeviceRequest>,
    sector_count: u64,
    header_lba: u64,
    alternate: u64,
    r: Result<GptTable, GptCopyError>,
) -> bool {
    &&& 1 <= requests.len() <= 2
    &&& requests[0] matches DeviceRequest::Read { lba, data, result }
    &&& lba == header_lba
    &&& data.len() == 512
    &&& match result {
        Err(e) => requests.len() == 1 && r == Err::<GptTable, GptCopyError>(GptCopyError::Device(e)),
        Ok(_) => match header_result(data, sector_count, header_lba, alternate) {
            Some(e) => requests.len() == 1 && r == Err::<GptTable, GptCopyError>(e),
            None => exists|hdr: GptHeader|
                header_decoded(hdr, data) && entries_read(hdr, requests.drop_first(), r),
        },
    }
}

/// The partition and health that the two copies give for `target`.
pub open spec fn selection(
    primary: Result<GptTable, GptCopyError>,
    backup: Result<GptTable, GptCopyError>,
    target: Seq<u8>,
) -> Result<(PartitionRange, GptHealth), GptError> {
    match choice_result(primary, backup) {
        Err(e) => Err(e),
        Ok(health) => match lookup_result(chosen_table(primary, backup).entries@, target) {
            Err(e) => Err(e),
            Ok(range) => Ok((range, health)),
        },
    }
}

/// The health reported says which copies were read as valid: redundant when both were,
/// degraded naming the other copy when one was, and both refusals when neither was.
pub proof fn lemma_health_names_valid_copies(
    primary: Result<GptTable, GptCopyError>,
    backup: Result<GptTable, GptCopyError>,
    target: Seq<u8>,
)
    ensures
        selection(primary, backup, target) matches Ok((_, health)) ==> {
            &&& (health == GptHealth::Redundant <==> primary is Ok && backup is Ok)
            &&& (health == (GptHealth::Degraded { invalid_copy: GptCopy::Backup }) <==> primary is Ok
                && backup is Err)
            &&& (health == (GptHealth::Degraded { invalid_copy: GptCopy::Primary })
                <==> primary is Err && backup is Ok)
        },
        primary is Err && backup is Err ==> selection(primary, backup, target) == Err::<
            (PartitionRange, GptHealth),
            GptError,
        >(GptError::BothCopiesInvalid { primary: primary->Err_0, backup: backup->Err_0 }),
        primary is Ok && backup is Ok && !tables_match(&primary->Ok_0, &backup->Ok_0)
            ==> selection(primary, backup, target) == Err::<(PartitionRange, GptHealth), GptError>(
            GptError::ConflictingCopies,
        ),
{
}

/// What the search for `target` gives when a disk of `sector_count` sectors answered
/// `requests`: the primary copy (header at sector 1) is read first, then the backup (header
/// at the last sector), and the result is the selection over the two.
pub open spec fn search_read(
    requests: Seq<DeviceRequest>,
    sector_count: u64,
    target: Seq<u8>,
    r: Result<(PartitionRange, GptHealth), GptError>,
) -> bool {
    exists|k: int, primary: Result<GptTable, GptCopyError>, backup: Result<GptTable, GptCopyError>|
        {
            &&& 0 <= k <= requests.len()
            &&& copy_read(
                requests.subrange(0, k),
                sector_count,
                1,
                (sector_count - 1) as u64,
                primary,
            )
            &&& copy_read(
                requests.subrange(k, requests.len() as int),
                sector_count,
                (sector_count - 1) as u64,
                1,
                backup,
            )
            &&& r == selection(primary, backup, target)
        }
}

/// Reads and validates the GPT copy whose header is at `header_lba`.
pub fn parse_copy<D: BlockDevice>(
    device: &mut D,
    geometry: BlockGeometry,
    header_lba: u64,
    expected_alternate_lba: u64,
) -> (r: Result<GptTable, GptCopyError>)
    requires
        geometry.sector_count >= 1,
    ensures
        final(device).geometry_view() == old(device).geometry_view(),
        extends(final(device).requests(), old(device).requests()),
        copy_read(
            requests_since(final(device).requests(), old(device).requests()),
            geometry.sector_count,
            header_lba,
            expected_alternate_lba,
            r,
        ),
        r matches Ok(t) ==> valid_table(&t, geometry.sector_count),
{
    let ghost before = device.requests();
    let mut header = [0u8; 512];
    let read = device.read_sectors(header_lba, &mut header);
    let ghost first = device.requests();
    proof {
        assert(requests_since(first, before) =~= seq![first.last()]);
        assert(first.subrange(0, before.len() as int) =~= before);
    }
    match read {
        Ok(()) => {},
        Err(e) => return Err(GptCopyError::Device(e)),
    }
    let parsed = match parse_header(&header, geometry.sector_count, header_lba, expected_alternate_lba) {
        Ok(p) => p,
        Err(e) => return Err(e),
    };
    let rounded = (parsed.entry_sectors * 512) as usize;
    let mut entry_buffer: Vec<u8> = Vec::new();
    match entry_buffer.try_reserve(rounded) {
        Ok(()) => {},
        Err(_) => {
            proof {
                assert(requests_since(first, before).drop_first() =~= Seq::<DeviceRequest>::empty());
                assert(header_decoded(parsed, header@));
            }
            return Err(GptCopyError::EntryAllocation { byte_len: parsed.entry_bytes });
        },
    }
    entry_buffer.resize(rounded, 0u8);
    let read = device.read_sectors(parsed.entries_lba, entry_buffer.as_mut_slice());
    let ghost second = device.requests();
    proof {
        assert(requests_since(second, before) =~= seq![first.last(), second.last()]);
        assert(requests_since(second, before).drop_first() =~= seq![second.last()]);
        assert(second.subrange(0, before.len() as int) =~= before);
        assert(header_decoded(parsed, header@));
    }
    match read {
        Ok(()) => {},
        Err(e) => return Err(GptCopyError::Device(e)),
    }
    assert(entry_buffer@.len() == parsed.entry_sectors * 512);
    let table = parse_entries(&parsed, entry_buffer.as_slice());
    assert(table matches Ok(t) ==> valid_table(&t, geometry.sector_count));
    table
}

/// Reads both GPT copies of `device` and picks the partition that carries `target`.
///
/// A device without 512-byte sectors, or without sectors, is refused before any request.
pub fn locate_partition<D: BlockDevice>(device: &mut D, target: &GptGuid) -> (r: Result<
    (PartitionRange, GptHealth),
    GptError,
>)
    ensures
        final(device).geometry_view() == old(device).geometry_view(),
        old(device).geometry_view().logical_sector_size != SECTOR_SIZE ==> r == Err::<
            (PartitionRange, GptHealth),
            GptError,
        >(GptError::UnsupportedSectorSize(old(device).geometry_view().logical_sector_size))
            && *final(device) == *old(device),
        old(device).geometry_view().logical_sector_size == SECTOR_SIZE && old(
            device,
        ).geometry_view().sector_count == 0 ==> r == Err::<(PartitionRange, GptHealth), GptError>(
            GptError::BothCopiesInvalid {
                primary: GptCopyError::CurrentLba { expected: 1, actual: 0 },
                backup: GptCopyError::CurrentLba { expected: 0, actual: 0 },
            },
        ) && *final(device) == *old(device),
        old(device).geometry_view().logical_sector_size == SECTOR_SIZE && old(
            device,
        ).geometry_view().sector_count >= 1 ==> extends(
            final(device).requests(),
            old(device).requests(),
        ) && search_read(
            requests_since(final(device).requests(), old(device).requests()),
            old(device).geometry_view().sector_count,
            target.0@,
            r,
        ),
        r matches Ok((range, _)) ==> {
            &&& range.sector_count >= 1
            &&& !spans_overlap(range.first_lba as int, range.first_lba + range.sector_count, 1, 2)
            &&& range.first_lba + range.sector_count <= old(device).geometry_view().sector_count
                - 1
        },
{
    let geometry = device.geometry();
    if geometry.logical_sector_size != SECTOR_SIZE {
        return Err(GptError::UnsupportedSectorSize(geometry.logical_sector_size));
    }
    if geometry.sector_count == 0 {
        return Err(
            GptError::BothCopiesInvalid {
                primary: GptCopyError::CurrentLba { expected: 1, actual: 0 },
                backup: GptCopyError::CurrentLba { expected: 0, actual: 0 },
            },
        );
    }
    let ghost before = device.requests();
    let backup_lba = geometry.sector_count - 1;
    let primary = parse_copy(device, geometry, 1, backup_lba);
    let ghost middle = device.requests();
    let backup = parse_copy(device, geometry, backup_lba, 1);
    let ghost after = device.requests();
    proof {
        let k = middle.len() - before.len();
        let all = requests_since(after, before);
        assert(all.subrange(0, k) =~= requests_since(middle, before));
        assert(all.subrange(k, all.len() as int) =~= requests_since(after, middle));
        assert(after.subrange(0, before.len() as int) =~= middle.subrange(0, before.len() as int));
    }
    let ghost chosen = chosen_table(primary, backup);
    proof {
        if primary is Ok || backup is Ok {
            assert(valid_table(&chosen, geometry.sector_count));
        }
    }
    let result = select_partition(primary, backup, target);
    proof {
        assert(result == selection(primary, backup, target.0@));
        if primary is Ok || backup is Ok {
            lemma_lookup_in_table(
                chosen.entries@,
                target.0@,
                chosen.first_usable_lba,
                chosen.last_usable_lba,
            );
        }
    }
    result
}

/// Finds the partition whose unique GUID is `target` on a GPT disk with 512-byte sectors.
///
/// Both header copies are read; if both are valid they must agree, if one is valid the
/// result is marked degraded, and exactly one entry may carry `target`. The partition is
/// opened on the device, which holds every request the search made.
pub fn find_partition_by_unique_guid<D: BlockDevice>(device: D, target: GptGuid) -> (r: Result<
    SelectedPartition<D>,
    GptError,
>)
    ensures
        device.geometry_view().logical_sector_size != SECTOR_SIZE ==> r == Err::<
            SelectedPartition<D>,
            GptError,
        >(GptError::UnsupportedSectorSize(device.geometry_view().logical_sector_size)),
        device.geometry_view().logical_sector_size == SECTOR_SIZE
            && device.geometry_view().sector_count == 0 ==> r == Err::<
            SelectedPartition<D>,
            GptError,
        >(
            GptError::BothCopiesInvalid {
                primary: GptCopyError::CurrentLba { expected: 1, actual: 0 },
                backup: GptCopyError::CurrentLba { expected: 0, actual: 0 },
            },
        ),
        device.geometry_view().logical_sector_size == SECTOR_SIZE
            && device.geometry_view().sector_count >= 1 ==> exists|
            log: Seq<DeviceRequest>,
            found: Result<(PartitionRange, GptHealth), GptError>,
        |
            {
                &&& extends(log, device.requests())
                &&& search_read(
                    requests_since(log, device.requests()),
                    device.geometry_view().sector_count,
                    target.0@,
                    found,
                )
                &&& match found {
                    Err(e) => r == Err::<SelectedPartition<D>, GptError>(e),
                    Ok((range, health)) => r matches Ok(s) && s.health == health
                        && s.device.range_view() == range && s.device.inner_view().requests()
                        == log && s.device.requests() == Seq::<DeviceRequest>::empty(),
                }
            },
        r matches Ok(s) ==> {
            &&& s.device.inner_view().geometry_view() == device.geometry_view()
            &&& s.device.partition_geometry() == (BlockGeometry {
                logical_sector_size: SECTOR_SIZE,
                sector_count: s.device.range_view().sector_count,
            })
            &&& s.device.range_view().sector_count >= 1
            &&& !spans_overlap(
                s.device.range_view().first_lba as int,
                s.device.range_view().first_lba + s.device.range_view().sector_count,
                1,
                2,
            )
            &&& s.device.range_view().first_lba + s.device.range_view().sector_count
                <= device.geometry_view().sector_count - 1
        },
{
    let mut device = device;
    let found = locate_partition(&mut device, &target);
    let ghost log = device.requests();
    let (range, health) = match found {
        Ok(found) => found,
        Err(e) => return Err(e),
    };
    match PartitionDevice::new(device, range) {
        Ok(device) => Ok(SelectedPartition { device, health }),
        Err(e) => Err(GptError::Device(e)),
    }
}

/// A range found by `lookup_result` is one of the entries, so it inherits their bounds.
pub proof fn lemma_lookup_in_table(
    entries: Seq<GptEntry>,
    target: Seq<u8>,
    first_usable: u64,
    last_usable: u64,
)
    requires
        forall|i: int|
            0 <= i < entries.len() ==> valid_entry(#[trigger] entries[i], first_usable, last_usable),
    ensures
        count_guid(entries, target) >= 1 ==> exists|i: int|
            0 <= i < entries.len() && (#[trigger] entries[i]).range == first_with_guid(
                entries,
                target,
            ),
    decreases entries.len(),
{
    if entries.len() > 0 {
        let prefix = entries.drop_last();
        lemma_lookup_in_table(prefix, target, first_usable, last_usable);
        if count_guid(prefix, target) >= 1 {
            let i = choose|i: int|
                0 <= i < prefix.len() && (#[trigger] prefix[i]).range == first_with_guid(
                    prefix,
                    target,
                );
            assert(entries[i] == prefix[i]);
        } else {
            assert(entries[entries.len() - 1] == entries.last());
        }
    }
}

} // verus!
