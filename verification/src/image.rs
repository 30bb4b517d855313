//! Block device over a disk image held in memory.

use vstd::prelude::*;
use crate::virtio::{BlockDevice, VirtioError};

verus! {

/// Block device that reads sectors from one disk image.
pub struct FileBlockDevice {
    image: Vec<u8>,
    faults: Ghost<Seq<VirtioError>>,
}

impl FileBlockDevice {
    /// Makes a device of an image, or nothing where the image is empty or is not
    /// made of whole sectors.
    pub fn open(image: Vec<u8>) -> (device: Option<Self>)
        ensures
            device is Some <==> image@.len() > 0 && image@.len() % 512 == 0,
            device matches Some(open) ==> open.medium() == image@ && open.faults().len() == 0
                && open.sectors() == image@.len() / 512,
    {
        if image.len() == 0 || image.len() % 512 != 0 {
            return None;
        }
        Some(FileBlockDevice { image, faults: Ghost(Seq::empty()) })
    }
}

/// Whether a read of `length` bytes is answered with data: a whole number of
/// sectors, at least one, all of them on the medium.
pub open spec fn readable(medium: Seq<u8>, sector: u64, length: nat) -> bool {
    length > 0 && length % 512 == 0 && sector * 512 + length <= medium.len()
}

impl BlockDevice for FileBlockDevice {
    closed spec fn medium(&self) -> Seq<u8> {
        self.image@
    }

    closed spec fn sectors(&self) -> u64 {
        (self.image@.len() / 512) as u64
    }

    closed spec fn faults(&self) -> Seq<VirtioError> {
        self.faults@
    }

    fn sector_count(&self) -> (count: u64) {
        (self.image.len() / 512) as u64
    }

    fn read_blocks(&mut self, sector: u64, buffer: &mut [u8]) -> (outcome: Result<(), VirtioError>)
        ensures
            outcome is Ok <==> readable(old(self).medium(), sector, old(buffer)@.len()),
            outcome == Err::<(), VirtioError>(VirtioError::InvalidBufferLength) <==> old(
                buffer,
            )@.len() == 0 || old(buffer)@.len() % 512 != 0,
            outcome is Err ==> outcome == Err::<(), VirtioError>(VirtioError::InvalidBufferLength)
                || outcome == Err::<(), VirtioError>(VirtioError::IoFailure),
    {
        let length = buffer.len();
        if length == 0 || length % 512 != 0 {
            self.faults = Ghost(self.faults@.push(VirtioError::InvalidBufferLength));
            return Err(VirtioError::InvalidBufferLength);
        }
        if sector > self.image.len() as u64 / 512 || length > self.image.len() - sector as usize
            * 512 {
            self.faults = Ghost(self.faults@.push(VirtioError::IoFailure));
            return Err(VirtioError::IoFailure);
        }
        let start = sector as usize * 512;
        let mut index: usize = 0;
        while index < length
            invariant
                length == buffer@.len(),
                index <= length,
                start + length <= self.image.len(),
                forall|i: int| 0 <= i < index ==> buffer@[i] == self.image@[start + i],
            decreases length - index,
        {
            buffer[index] = self.image[start + index];
            index += 1;
        }
        assert(buffer@ =~= self.image@.subrange(start as int, start + length));
        Ok(())
    }
}

} // verus!
