//! The error kinds the core surfaces.

use vstd::prelude::*;

verus! {

/// Everything that can go wrong inside the core.
#[derive(Debug, Clone, Copy, PartialEq, Eq, Structural)]
pub enum IgrepError {
    /// A path or an id was registered twice; indicates a caller bug.
    AlreadyExists,
    /// The query pattern did not parse as a regular expression.
    BadPattern,
    /// A stored record did not decode, or a referenced record is missing.
    CorruptIndex,
    /// The compressor or decompressor reported a failure.
    IoError,
}

impl IgrepError {
    /// A short description, for callers that print errors.
    pub fn message(&self) -> (r: &'static str)
        ensures
            match self {
                IgrepError::AlreadyExists => r@ == "already exists"@,
                IgrepError::BadPattern => r@ == "bad pattern"@,
                IgrepError::CorruptIndex => r@ == "corrupt index"@,
                IgrepError::IoError => r@ == "io error"@,
            },
    {
        match self {
            IgrepError::AlreadyExists => "already exists",
            IgrepError::BadPattern => "bad pattern",
            IgrepError::CorruptIndex => "corrupt index",
            IgrepError::IoError => "io error",
        }
    }
}

} // verus!
