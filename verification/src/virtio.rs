//! VirtIO block devices.

use vstd::prelude::*;

verus! {

/// Size in bytes of one sector.
pub const VIRTIO_SECTOR_SIZE: usize = 512;

/// Errors returned by block devices.
#[derive(Clone, Copy, Debug, PartialEq, Eq, Structural)]
pub enum VirtioError {
    /// The probed transport is not a VirtIO block device.
    NotBlockDevice,
    /// The selected queue is smaller than the driver requires.
    QueueTooSmall,
    /// The device did not advertise support for modern VirtIO version 1.
    MissingVersion1,
    /// The device rejected the negotiated driver feature set.
    FeatureNegotiationFailed,
    /// The in-memory virtqueue layout could not be constructed.
    QueueCreationFailed,
    /// The caller supplied a buffer whose length is not a whole number of sectors.
    InvalidBufferLength,
    /// The device did not complete a request before the polling limit expired.
    RequestTimeout,
    /// The device returned an unexpected descriptor head in the used ring.
    UnexpectedUsedId(u32),
    /// The device completed a block request with a non-zero status byte.
    BlockRequestFailed(u8),
    /// The sectors lie outside the image that backs the device.
    IoFailure,
}

/// Minimal block-device abstraction used by the partition and filesystem
/// parsers.
///
/// A device holds a medium that reading does not change. Each read either
/// delivers bytes of the medium, whose size in bytes fits into 64 bits, or
/// reports an error; `faults` is the list of the errors reported so far.
///
/// A device outside of verified code cannot define these three. For it they are
/// some function of the device that is not known: they stand for what is on the
/// disk, the capacity that the device announces, and the errors that it has
/// returned. Whoever writes such a device has to see to it that its functions do
/// what is stated here; no proof covers that.
pub trait BlockDevice {
    /// Contents of the device.
    open spec fn medium(&self) -> Seq<u8> {
        let unknown: spec_fn(&Self) -> Seq<u8> = arbitrary();
        unknown(self)
    }

    /// Number of sectors that the device announces.
    open spec fn sectors(&self) -> u64 {
        let unknown: spec_fn(&Self) -> u64 = arbitrary();
        unknown(self)
    }

    /// Errors reported so far.
    open spec fn faults(&self) -> Seq<VirtioError> {
        let unknown: spec_fn(&Self) -> Seq<VirtioError> = arbitrary();
        unknown(self)
    }

    /// Returns the total number of 512-byte sectors exposed by the device.
    fn sector_count(&self) -> (count: u64)
        ensures
            count == self.sectors(),
    ;

    /// Reads one or more contiguous 512-byte sectors into `buffer`, whose length
    /// must be a non-zero multiple of `VIRTIO_SECTOR_SIZE`.
    fn read_blocks(&mut self, sector: u64, buffer: &mut [u8]) -> (outcome: Result<(), VirtioError>)
        ensures
            final(self).medium() == old(self).medium(),
            final(self).sectors() == old(self).sectors(),
            final(buffer)@.len() == old(buffer)@.len(),
            match outcome {
                Ok(()) => final(self).faults() == old(self).faults() && sector * 512
                    + old(buffer)@.len() <= old(self).medium().len() <= u64::MAX
                    && final(buffer)@ == old(self).medium().subrange(
                    sector * 512,
                    sector * 512 + old(buffer)@.len(),
                ),
                Err(error) => final(self).faults() == old(self).faults().push(error),
            },
    ;
}

/// The bytes of one sector.
pub open spec fn sector_at(medium: Seq<u8>, sector: int) -> Seq<u8> {
    medium.subrange(sector * 512, sector * 512 + 512)
}

/// Reads the 512 bytes of one sector.
pub fn read_sector<D: BlockDevice>(device: &mut D, sector: u64) -> (outcome: Result<
    [u8; 512],
    VirtioError,
>)
    ensures
        final(device).medium() == old(device).medium(),
        final(device).sectors() == old(device).sectors(),
        match outcome {
            Ok(bytes) => final(device).faults() == old(device).faults() && sector * 512 + 512
                <= old(device).medium().len() <= u64::MAX && bytes@ == sector_at(
                old(device).medium(),
                sector as int,
            ),
            Err(error) => final(device).faults() == old(device).faults().push(error),
        },
{
    let mut bytes: [u8; 512] = [0u8; 512];
    match device.read_blocks(sector, &mut bytes) {
        Ok(()) => Ok(bytes),
        Err(error) => Err(error),
    }
}

} // verus!
