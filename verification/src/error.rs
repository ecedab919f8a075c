//! The error type shared by every part of the library.

use vstd::prelude::*;

verus! {

#[verifier::external_type_specification]
#[verifier::external_body]
pub struct ExIoError(std::io::Error);

/// Everything that can go wrong while reading, parsing or carving a disk.
#[derive(Debug)]
pub enum RecoveryError {
    Io(std::io::Error),
    BufferOutOfBounds { offset: usize, required: usize, available: usize },
    InvalidSignature { expected: String, found: String },
    CorruptedPartition(String),
    CrcMismatch { expected: u32, computed: u32 },
    BadSector { lba: u64, count: u64 },
    NtfsError(String),
    FixupFailed { sector_index: usize, expected: u16, actual: u16 },
    CarverError(String),
    Other(String),
}

pub type Result<T> = core::result::Result<T, RecoveryError>;

/// The out-of-bounds error with the given fields.
pub open spec fn out_of_bounds(offset: usize, required: usize, available: usize) -> RecoveryError {
    RecoveryError::BufferOutOfBounds { offset, required, available }
}

} // verus!
