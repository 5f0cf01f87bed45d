use vstd::prelude::*;

verus! {

/// Identifies another partition, either relative to the partition being
/// resolved (by position in the order the specs were added) or by number.
#[derive(Clone, Copy, PartialEq, Eq, Debug, Structural)]
pub enum PartRef {
    /// N partitions before this one; 0 is the current partition.
    Previous(u32),
    /// N partitions after this one; 0 is the one immediately after.
    Next(u32),
    /// The partition whose number is N (numbers start at 0).
    Exact(u32),
}

/// Where a partition edge is located.
#[derive(Clone, Copy, PartialEq, Eq, Debug, Structural)]
pub enum LocSpec {
    /// At the end of a partition.
    AtEndOf(PartRef),
    /// At the start of a partition.
    AtStartOf(PartRef),
    /// At this byte offset from the start of the device.
    AtByte(u64),
}

/// Which index a partition occupies.
#[derive(Clone, Copy, PartialEq, Eq, Debug, Structural)]
pub enum NumSpec {
    Exact(u32),
    /// One greater than the referenced partition's number.
    AfterPart(PartRef),
    /// One less than the referenced partition's number.
    BeforePart(PartRef),
}

/// One requirement on a partition.
#[derive(Clone, Copy, PartialEq, Eq, Debug, Structural)]
pub enum PartSpec {
    Number(NumSpec),
    Start(LocSpec),
    End(LocSpec),
    IsBootable,
}

/// The constraints describing one requested partition; all of them apply.
#[derive(Clone, Debug)]
pub struct MbrPartSpec {
    pub specs: Vec<PartSpec>,
}

impl MbrPartSpec {
    /// Some constraint of the spec marks the partition bootable.
    pub open spec fn spec_bootable(&self) -> bool {
        exists|k: int| 0 <= k < self.specs@.len() && (#[trigger] self.specs@[k]) is IsBootable
    }

    pub fn new(specs: Vec<PartSpec>) -> (r: Self)
        ensures
            r.specs@ == specs@,
    {
        MbrPartSpec { specs }
    }

    pub fn is_bootable(&self) -> (r: bool)
        ensures
            r == self.spec_bootable(),
    {
        let mut i: usize = 0;
        while i < self.specs.len()
            invariant
                i <= self.specs@.len(),
                forall|k: int| 0 <= k < i ==> !(#[trigger] self.specs@[k] is IsBootable),
            decreases self.specs@.len() - i,
        {
            if let PartSpec::IsBootable = self.specs[i] {
                return true;
            }
            i += 1;
        }
        false
    }
}

/// A resolved partition occupying the bytes `[start, end)` of the device.
#[derive(Clone, Copy, PartialEq, Eq, Debug, Structural)]
pub struct MbrPhysPart {
    pub number: u32,
    pub start: u64,
    pub end: u64,
    pub bootable: bool,
}

impl MbrPhysPart {
    pub fn new(number: u32, start: u64, end: u64, bootable: bool) -> (r: Self)
        ensures
            r == (MbrPhysPart { number, start, end, bootable }),
    {
        MbrPhysPart { number, start, end, bootable }
    }

    /// Partitions 0 to 3 live in the primary slots of the table.
    pub fn is_primary(&self) -> (r: bool)
        ensures
            r == (self.number < 4),
    {
        self.number < 4
    }

    pub fn is_extended(&self) -> (r: bool)
        ensures
            r == (self.number >= 4),
    {
        !self.is_primary()
    }
}

/// Why a builder cannot be turned into a sector.
#[derive(Clone, Copy, PartialEq, Eq, Debug, Structural)]
pub enum MbrBuilderError {
    /// Bootcode longer than the space left to it (carries its length).
    BootcodeOversized(usize),
    /// Second bootcode part longer than 222 bytes (carries its length).
    Bootcode2Oversized(usize),
    /// Bootcode reaches into the original-physical-drive field.
    OriginalPhysDriveOverlapped,
    /// Bootcode or second bootcode part reaches into the disk signature.
    DiskSigOverlapped,
    /// Bootcode reaches into the second bootcode part (both lengths).
    BootCodeOverlapped(usize, usize),
    /// Two or more partitions are marked bootable.
    MoreThan1Bootable,
    /// The spec at this position has a reference that cannot be resolved.
    UnresolvedReference(usize),
    /// The resolved partition at this position breaks one of its constraints.
    ConstraintConflict(usize),
    /// The partition at this position is empty, unaligned or off the device.
    OutOfBounds(usize),
    /// The partition at this position has a number beyond the primary slots.
    NotPrimary(usize),
    /// The partitions at these positions have the same number.
    DuplicateNumber(usize, usize),
    /// The partitions at these positions overlap.
    Overlap(usize, usize),
}

} // verus!
