//! Address ranges, host mappings and the errors of the mapping manager.

use vstd::prelude::*;

verus! {

/// A half-open interval `[start, end)` of guest physical addresses.
#[derive(Clone, Copy, Debug, PartialEq, Eq, Structural)]
pub struct GuestRange {
    pub start: u64,
    pub end: u64,
}

impl GuestRange {
    /// A range is well formed when it is not empty.
    pub open spec fn wf(self) -> bool {
        self.start < self.end
    }

    pub open spec fn contains_spec(self, addr: int) -> bool {
        self.start <= addr < self.end
    }

    pub open spec fn overlaps_spec(self, other: GuestRange) -> bool {
        self.start < other.end && other.start < self.end
    }

    pub open spec fn len_spec(self) -> int {
        self.end - self.start
    }

    /// Builds `[start, end)`; degenerate (empty or inverted) ranges are refused.
    pub fn new(start: u64, end: u64) -> (r: Option<GuestRange>)
        ensures
            r is Some <==> start < end,
            r is Some ==> r->0 == (GuestRange { start, end }),
    {
        if start < end {
            Some(GuestRange { start, end })
        } else {
            None
        }
    }

    pub fn contains(&self, addr: u64) -> (r: bool)
        ensures
            r == self.contains_spec(addr as int),
    {
        self.start <= addr && addr < self.end
    }

    pub fn overlaps(&self, other: &GuestRange) -> (r: bool)
        ensures
            r == self.overlaps_spec(*other),
    {
        self.start < other.end && other.start < self.end
    }

    pub fn len(&self) -> (r: u64)
        requires
            self.wf(),
        ensures
            r == self.len_spec(),
    {
        self.end - self.start
    }
}

/// Where a backing object was mapped into the host address space:
/// `len` bytes starting at host virtual address `base`.
#[derive(Clone, Copy, Debug, PartialEq, Eq, Structural)]
pub struct HostMapping {
    pub base: u64,
    pub len: u64,
}

impl HostMapping {
    /// The whole mapping lies inside the host address space.
    pub open spec fn wf(self) -> bool {
        self.base + self.len <= u64::MAX
    }

    /// `len` bytes at `offset` into the object lie inside this mapping.
    pub open spec fn covers(self, offset: int, len: int) -> bool {
        offset + len <= self.len
    }

    pub open spec fn contains_va(self, va: int) -> bool {
        self.base <= va < self.base + self.len
    }
}

/// What a structural change or a lookup can fail with.
#[derive(Clone, Copy, Debug, PartialEq, Eq, Structural)]
pub enum MappingError {
    /// The range intersects a range that is already mapped.
    OverlapConflict,
    /// No mapping matches the request.
    NotMapped,
    /// The backing object could not be opened, or does not hold the
    /// requested sub-range.
    BackingUnavailable,
}

} // verus!
