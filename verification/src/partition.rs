//! Partition table abstractions.
//!
//! A minimal interface for enumerating partitions without coupling callers to
//! one on-disk partition-table format.

use vstd::prelude::*;
use vstd::string::*;
use crate::virtio::VirtioError;

verus! {

/// Describes one partition entry exposed by a partition table.
pub trait PartitionEntry: Sized {
    /// Whether the entry describes an allocated partition.
    spec fn present(&self) -> bool;

    /// First logical block of the partition.
    spec fn first(&self) -> u64;

    /// Last logical block of the partition.
    spec fn last(&self) -> u64;

    /// Whether the partition is marked bootable.
    spec fn marked_bootable(&self) -> bool;

    /// Whether the partition is an EFI system partition.
    spec fn efi_system(&self) -> bool;

    /// Printable label.
    spec fn label_text(&self) -> Seq<u8>;

    /// Printable partition type.
    spec fn type_text(&self) -> Seq<u8>;

    /// Returns `true` when this entry describes an allocated partition.
    fn is_present(&self) -> (answer: bool)
        ensures
            answer == self.present(),
    ;

    /// Returns the first logical block address owned by the partition.
    fn first_lba(&self) -> (lba: u64)
        ensures
            lba == self.first(),
    ;

    /// Returns the last logical block address owned by the partition.
    fn last_lba(&self) -> (lba: u64)
        ensures
            lba == self.last(),
    ;

    /// Returns the number of sectors covered by the partition.
    fn sector_count(&self) -> (count: u64)
        requires
            self.first() <= self.last(),
            self.last() - self.first() < u64::MAX,
        ensures
            count == self.last() - self.first() + 1,
    {
        self.last_lba() - self.first_lba() + 1
    }

    /// Returns `true` when the partition is marked bootable.
    fn bootable(&self) -> (answer: bool)
        ensures
            answer == self.marked_bootable(),
    ;

    /// Returns `true` when the partition is an EFI system partition.
    fn is_efi_system_partition(&self) -> (answer: bool)
        ensures
            answer == self.efi_system(),
    ;

    /// Formats the partition label into the provided scratch buffer.
    fn label<'a>(&self, buffer: &'a mut [u8; 72]) -> (text: &'a str)
        ensures
            text.spec_bytes() == self.label_text(),
    ;

    /// Formats the partition type into the provided scratch buffer.
    fn partition_type<'a>(&self, buffer: &'a mut [u8; 36]) -> (text: &'a str)
        ensures
            text.spec_bytes() == self.type_text(),
    ;
}

/// Enumerates partitions from one on-disk partition-table format.
pub trait PartitionTable {
    /// Concrete partition entry type yielded by this table.
    type Entry: PartitionEntry;

    /// Whether the table can be read from.
    spec fn well_formed(&self) -> bool;

    /// Number of slots of the table.
    spec fn slots(&self) -> u32;

    /// Whether slot `index` of the table holds `entry`.
    spec fn slot_holds(&self, index: u32, entry: Self::Entry) -> bool;

    /// Errors that the device under the table reported so far.
    spec fn device_faults(&self) -> Seq<VirtioError>;

    /// Returns the total number of table slots that may contain partitions.
    fn partition_count(&self) -> (count: u32)
        ensures
            count == self.slots(),
    ;

    /// Reads one partition-table entry by zero-based index. There is none past
    /// the last slot, and none where the device fails.
    fn partition(&mut self, index: u32) -> (entry: Option<Self::Entry>)
        requires
            old(self).well_formed(),
        ensures
            final(self).well_formed(),
            final(self).slots() == old(self).slots(),
            forall|i: u32, e: Self::Entry|
                final(self).slot_holds(i, e) == old(self).slot_holds(i, e),
            match entry {
                Some(read) => index < old(self).slots() && old(self).slot_holds(index, read)
                    && final(self).device_faults() == old(self).device_faults(),
                None => index >= old(self).slots() || final(self).device_faults().len() > old(
                    self,
                ).device_faults().len(),
            },
    ;
}

} // verus!
