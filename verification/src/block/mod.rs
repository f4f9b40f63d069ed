use vstd::prelude::*;

mod partition;

pub use partition::{PartitionDevice, PartitionRange, partition_check};

verus! {

/// The addressable shape of a block device.
#[derive(Clone, Copy, Debug, PartialEq, Eq, Structural)]
pub struct BlockGeometry {
    pub logical_sector_size: u32,
    pub sector_count: u64,
}

/// Why a block request failed.
#[derive(Clone, Copy, Debug, PartialEq, Eq, Structural)]
pub enum BlockError {
    InvalidRequest,
    OutOfRange,
    ShortTransfer,
    Timeout,
    Transport,
    ReadOnly,
    Flush,
}

/// A sector-addressed storage device.
///
/// A device keeps its geometry across requests, and a transfer never changes the length
/// of the caller's buffer.
pub trait BlockDevice {
    /// The geometry that `geometry` reports.
    spec fn geometry_view(&self) -> BlockGeometry;

    /// Every request the device has received so far, oldest first, with its answer.
    spec fn requests(&self) -> Seq<DeviceRequest>;

    fn geometry(&self) -> (g: BlockGeometry)
        ensures
            g == self.geometry_view(),
    ;

    fn read_sectors(&mut self, first_lba: u64, dst: &mut [u8]) -> (r: Result<(), BlockError>)
        ensures
            final(dst)@.len() == old(dst)@.len(),
            final(self).geometry_view() == old(self).geometry_view(),
            final(self).requests() == old(self).requests().push(
                DeviceRequest::Read { lba: first_lba, data: final(dst)@, result: r },
            ),
    ;

    fn write_sectors(&mut self, first_lba: u64, src: &[u8]) -> (r: Result<(), BlockError>)
        ensures
            final(self).geometry_view() == old(self).geometry_view(),
            final(self).requests() == old(self).requests().push(
                DeviceRequest::Write { lba: first_lba, data: src@, result: r },
            ),
    ;

    fn flush(&mut self) -> (r: Result<(), BlockError>)
        ensures
            final(self).geometry_view() == old(self).geometry_view(),
            final(self).requests() == old(self).requests().push(
                DeviceRequest::Flush { result: r },
            ),
    ;
}

/// One request a device received and how it answered: for a read, the bytes it left in
/// the caller's buffer; for a write, the bytes it was given.
pub enum DeviceRequest {
    Read { lba: u64, data: Seq<u8>, result: Result<(), BlockError> },
    Write { lba: u64, data: Seq<u8>, result: Result<(), BlockError> },
    Flush { result: Result<(), BlockError> },
}

/// The requests made after the first `before` ones.
pub open spec fn requests_since(log: Seq<DeviceRequest>, before: Seq<DeviceRequest>) -> Seq<
    DeviceRequest,
> {
    log.subrange(before.len() as int, log.len() as int)
}

/// `log` begins with `before`: a device's history only grows.
pub open spec fn extends(log: Seq<DeviceRequest>, before: Seq<DeviceRequest>) -> bool {
    &&& before.len() <= log.len()
    &&& log.subrange(0, before.len() as int) == before
}

/// The outcome of checking a transfer of `bytes` bytes starting at `first_lba`.
pub open spec fn request_check(g: BlockGeometry, first_lba: u64, bytes: nat) -> Result<
    (),
    BlockError,
> {
    if g.logical_sector_size == 0 || bytes == 0 || bytes % (g.logical_sector_size as nat) != 0 {
        Err(BlockError::InvalidRequest)
    } else if first_lba + bytes / (g.logical_sector_size as nat) > g.sector_count {
        Err(BlockError::OutOfRange)
    } else {
        Ok(())
    }
}

/// Checks that a transfer is a whole, nonzero number of sectors inside the device.
pub fn validate_request(geometry: BlockGeometry, first_lba: u64, bytes: usize) -> (r: Result<
    (),
    BlockError,
>)
    ensures
        r == request_check(geometry, first_lba, bytes as nat),
{
    let sector_size = geometry.logical_sector_size as usize;
    if sector_size == 0 || bytes == 0 || bytes % sector_size != 0 {
        return Err(BlockError::InvalidRequest);
    }
    let count = (bytes / sector_size) as u64;
    let end_lba = match first_lba.checked_add(count) {
        Some(end) => end,
        None => return Err(BlockError::OutOfRange),
    };
    if end_lba > geometry.sector_count {
        return Err(BlockError::OutOfRange);
    }
    Ok(())
}

} // verus!
