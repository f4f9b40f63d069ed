use vstd::prelude::*;

use super::{BlockDevice, BlockError, BlockGeometry, DeviceRequest, request_check, validate_request};

verus! {

/// A contiguous run of sectors on an underlying device.
#[derive(Clone, Copy, Debug, PartialEq, Eq, Structural)]
pub struct PartitionRange {
    pub first_lba: u64,
    pub sector_count: u64,
}

/// A device that exposes one partition of an inner device, addressed from zero.
pub struct PartitionDevice<D> {
    inner: D,
    range: PartitionRange,
    geometry: BlockGeometry,
    log: Ghost<Seq<DeviceRequest>>,
}

/// The outcome of opening `range` on a device of geometry `g`.
pub open spec fn partition_check(g: BlockGeometry, range: PartitionRange) -> Result<(), BlockError> {
    if range.sector_count == 0 || g.logical_sector_size == 0 {
        Err(BlockError::InvalidRequest)
    } else if range.first_lba + range.sector_count > g.sector_count {
        Err(BlockError::OutOfRange)
    } else {
        Ok(())
    }
}

impl<D> PartitionDevice<D> {
    /// The wrapped device.
    pub closed spec fn inner_view(&self) -> D {
        self.inner
    }

    /// The inner sectors this partition covers.
    pub closed spec fn range_view(&self) -> PartitionRange {
        self.range
    }

    /// The geometry this partition reports.
    pub closed spec fn partition_geometry(&self) -> BlockGeometry {
        self.geometry
    }

    /// The requests made to the partition itself.
    pub closed spec fn partition_requests(&self) -> Seq<DeviceRequest> {
        self.log@
    }
}

impl<D: BlockDevice> PartitionDevice<D> {
    /// Opens `range` of `inner` as a device of its own, refusing empty or out-of-device ranges.
    pub fn new(inner: D, range: PartitionRange) -> (r: Result<Self, BlockError>)
        ensures
            match partition_check(inner.geometry_view(), range) {
                Err(e) => r == Err::<Self, BlockError>(e),
                Ok(_) => r matches Ok(p) && p.inner_view() == inner && p.range_view() == range
                    && p.partition_geometry() == (BlockGeometry {
                    logical_sector_size: inner.geometry_view().logical_sector_size,
                    sector_count: range.sector_count,
                }) && p.partition_requests() == Seq::<DeviceRequest>::empty(),
            },
    {
        let inner_geometry = inner.geometry();
        if range.sector_count == 0 || inner_geometry.logical_sector_size == 0 {
            return Err(BlockError::InvalidRequest);
        }
        let end_lba = match range.first_lba.checked_add(range.sector_count) {
            Some(end) => end,
            None => return Err(BlockError::OutOfRange),
        };
        if end_lba > inner_geometry.sector_count {
            return Err(BlockError::OutOfRange);
        }
        Ok(Self {
            inner,
            range,
            geometry: BlockGeometry {
                logical_sector_size: inner_geometry.logical_sector_size,
                sector_count: range.sector_count,
            },
            log: Ghost(Seq::empty()),
        })
    }

    /// The wrapped device.
    pub fn inner(&self) -> (r: &D)
        ensures
            *r == self.inner_view(),
    {
        &self.inner
    }

    /// The wrapped device, mutably.
    pub fn inner_mut(&mut self) -> (r: &mut D)
        ensures
            *r == old(self).inner_view(),
            final(self).inner_view() == *final(r),
            final(self).range_view() == old(self).range_view(),
            final(self).partition_geometry() == old(self).partition_geometry(),
            final(self).partition_requests() == old(self).partition_requests(),
    {
        &mut self.inner
    }

    /// Gives back the wrapped device.
    pub fn into_inner(self) -> (r: D)
        ensures
            r == self.inner_view(),
    {
        self.inner
    }
}

impl<D: BlockDevice> BlockDevice for PartitionDevice<D> {
    open spec fn geometry_view(&self) -> BlockGeometry {
        self.partition_geometry()
    }

    open spec fn requests(&self) -> Seq<DeviceRequest> {
        self.partition_requests()
    }

    fn geometry(&self) -> (g: BlockGeometry) {
        self.geometry
    }

    /// Reads whole sectors relative to the partition start; requests that are not whole
    /// sectors or leave the partition fail before the inner device is touched, and the rest
    /// go to the inner device at the partition's first sector plus `first_lba`, whose answer
    /// is returned as it is.
    fn read_sectors(&mut self, first_lba: u64, dst: &mut [u8]) -> (r: Result<(), BlockError>)
        ensures
            final(self).range_view() == old(self).range_view(),
            final(self).partition_geometry() == old(self).partition_geometry(),
            final(self).inner_view().geometry_view() == old(self).inner_view().geometry_view(),
            match request_check(old(self).partition_geometry(), first_lba, old(dst)@.len()) {
                Err(e) => r == Err::<(), BlockError>(e) && final(self).inner_view() == old(
                    self,
                ).inner_view() && final(dst)@ == old(dst)@,
                Ok(_) => if old(self).range_view().first_lba + first_lba > u64::MAX {
                    r == Err::<(), BlockError>(BlockError::OutOfRange) && final(self).inner_view()
                        == old(self).inner_view() && final(dst)@ == old(dst)@
                } else {
                    final(self).inner_view().requests() == old(self).inner_view().requests().push(
                        DeviceRequest::Read {
                            lba: (old(self).range_view().first_lba + first_lba) as u64,
                            data: final(dst)@,
                            result: r,
                        },
                    )
                },
            },
    {
        let result = self.read_inner(first_lba, dst);
        self.log = Ghost(self.log@.push(DeviceRequest::Read { lba: first_lba, data: dst@, result }));
        result
    }

    /// Writes whole sectors relative to the partition start; requests that are not whole
    /// sectors or leave the partition fail before the inner device is touched, and the rest
    /// go to the inner device at the partition's first sector plus `first_lba`, whose answer
    /// is returned as it is.
    fn write_sectors(&mut self, first_lba: u64, src: &[u8]) -> (r: Result<(), BlockError>)
        ensures
            final(self).range_view() == old(self).range_view(),
            final(self).partition_geometry() == old(self).partition_geometry(),
            final(self).inner_view().geometry_view() == old(self).inner_view().geometry_view(),
            match request_check(old(self).partition_geometry(), first_lba, src@.len()) {
                Err(e) => r == Err::<(), BlockError>(e) && final(self).inner_view() == old(
                    self,
                ).inner_view(),
                Ok(_) => if old(self).range_view().first_lba + first_lba > u64::MAX {
                    r == Err::<(), BlockError>(BlockError::OutOfRange) && final(self).inner_view()
                        == old(self).inner_view()
                } else {
                    final(self).inner_view().requests() == old(self).inner_view().requests().push(
                        DeviceRequest::Write {
                            lba: (old(self).range_view().first_lba + first_lba) as u64,
                            data: src@,
                            result: r,
                        },
                    )
                },
            },
    {
        let result = self.write_inner(first_lba, src);
        self.log = Ghost(self.log@.push(DeviceRequest::Write { lba: first_lba, data: src@, result }));
        result
    }

    /// Flushes the inner device and returns its answer.
    fn flush(&mut self) -> (r: Result<(), BlockError>)
        ensures
            final(self).range_view() == old(self).range_view(),
            final(self).partition_geometry() == old(self).partition_geometry(),
            final(self).inner_view().requests() == old(self).inner_view().requests().push(
                DeviceRequest::Flush { result: r },
            ),
    {
        let result = self.inner.flush();
        self.log = Ghost(self.log@.push(DeviceRequest::Flush { result }));
        result
    }
}

impl<D: BlockDevice> PartitionDevice<D> {
    fn read_inner(&mut self, first_lba: u64, dst: &mut [u8]) -> (r: Result<(), BlockError>)
        ensures
            final(self).range == old(self).range,
            final(self).geometry == old(self).geometry,
            final(self).log == old(self).log,
            final(dst)@.len() == old(dst)@.len(),
            final(self).inner.geometry_view() == old(self).inner.geometry_view(),
            match request_check(old(self).geometry, first_lba, old(dst)@.len()) {
                Err(e) => r == Err::<(), BlockError>(e) && final(self).inner == old(self).inner
                    && final(dst)@ == old(dst)@,
                Ok(_) => if old(self).range.first_lba + first_lba > u64::MAX {
                    r == Err::<(), BlockError>(BlockError::OutOfRange) && final(self).inner
                        == old(self).inner && final(dst)@ == old(dst)@
                } else {
                    final(self).inner.requests() == old(self).inner.requests().push(
                        DeviceRequest::Read {
                            lba: (old(self).range.first_lba + first_lba) as u64,
                            data: final(dst)@,
                            result: r,
                        },
                    )
                },
            },
    {
        validate_request(self.geometry, first_lba, dst.len())?;
        let inner_lba = match self.range.first_lba.checked_add(first_lba) {
            Some(lba) => lba,
            None => return Err(BlockError::OutOfRange),
        };
        self.inner.read_sectors(inner_lba, dst)
    }

    fn write_inner(&mut self, first_lba: u64, src: &[u8]) -> (r: Result<(), BlockError>)
        ensures
            final(self).range == old(self).range,
            final(self).geometry == old(self).geometry,
            final(self).log == old(self).log,
            final(self).inner.geometry_view() == old(self).inner.geometry_view(),
            match request_check(old(self).geometry, first_lba, src@.len()) {
                Err(e) => r == Err::<(), BlockError>(e) && final(self).inner == old(self).inner,
                Ok(_) => if old(self).range.first_lba + first_lba > u64::MAX {
                    r == Err::<(), BlockError>(BlockError::OutOfRange) && final(self).inner
                        == old(self).inner
                } else {
                    final(self).inner.requests() == old(self).inner.requests().push(
                        DeviceRequest::Write {
                            lba: (old(self).range.first_lba + first_lba) as u64,
                            data: src@,
                            result: r,
                        },
                    )
                },
            },
    {
        validate_request(self.geometry, first_lba, src.len())?;
        let inner_lba = match self.range.first_lba.checked_add(first_lba) {
            Some(lba) => lba,
            None => return Err(BlockError::OutOfRange),
        };
        self.inner.write_sectors(inner_lba, src)
    }
}

} // verus!
