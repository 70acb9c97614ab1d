//! Byte ranges into the content blob. A range is the only framing the
//! blob has: records carry no in-band length prefix.

use vstd::prelude::*;

verus! {

pub type Offset = u64;

/// A contiguous region of the content blob.
#[derive(Debug, Clone, Copy, PartialEq, Eq, Structural)]
pub struct Range {
    pub start: Offset,
    pub len: u32,
}

impl View for Range {
    type V = (u64, u32);

    open spec fn view(&self) -> (u64, u32) {
        (self.start, self.len)
    }
}

impl Range {
    pub fn new(start: Offset, len: u32) -> (r: Self)
        ensures
            r@ == (start, len),
    {
        Range { start, len }
    }
}

/// The range of one line record within the blob.
#[derive(Debug, Clone, Copy, PartialEq, Eq, Structural)]
pub struct FileLineRange(pub Range);

/// The range of one file record within the blob.
#[derive(Debug, Clone, Copy, PartialEq, Eq, Structural)]
pub struct FileRange(pub Range);

/// The range of one n-gram posting within the blob.
#[derive(Debug, Clone, Copy, PartialEq, Eq, Structural)]
pub struct NgramRange(pub Range);

impl View for FileLineRange {
    type V = (u64, u32);

    open spec fn view(&self) -> (u64, u32) {
        self.0@
    }
}

impl View for FileRange {
    type V = (u64, u32);

    open spec fn view(&self) -> (u64, u32) {
        self.0@
    }
}

impl View for NgramRange {
    type V = (u64, u32);

    open spec fn view(&self) -> (u64, u32) {
        self.0@
    }
}

} // verus!
