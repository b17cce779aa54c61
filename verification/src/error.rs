//! The error kinds that the engine reports.

use vstd::prelude::*;

verus! {

/// Why an operation of the engine failed.
#[derive(Debug, Clone, Copy, PartialEq, Eq, Structural)]
pub enum Error {
    /// The device failed an I/O request.
    DeviceIo,
    /// A key, a value or a compression tag could not be encoded or decoded.
    Codec,
    /// The magic of an on-disk structure is not the expected one.
    IntegrityMagic { expected: u64, got: u64 },
    /// The checksum stored with an entry does not match its bytes.
    IntegrityChecksum { expected: u64, got: u64 },
    /// A task queue was full.
    ChannelFull,
    /// A task queue had no receiver left.
    ChannelClosed,
    /// The configuration breaks a precondition of opening the store.
    Configuration,
}

} // verus!
