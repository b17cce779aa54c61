//! What a flusher is handed and what it reports: an admitted entry on its way
//! into a region.

use crate::catalog::Sequence;
use crate::compress::Compression;
use crate::error::Error;
use crate::region::{RegionId, RegionView};
use vstd::prelude::*;

verus! {

/// An admitted entry that waits to be written into a region.
#[derive(Debug)]
pub struct Entry {
    pub sequence: Sequence,
    pub key: Vec<u8>,
    pub value: Vec<u8>,
    pub compression: Compression,
}

/// What an `Entry` stands for.
pub struct EntryView {
    pub sequence: Sequence,
    pub key: Seq<u8>,
    pub value: Seq<u8>,
    pub compression: Compression,
}

impl View for Entry {
    type V = EntryView;

    open spec fn view(&self) -> EntryView {
        EntryView {
            sequence: self.sequence,
            key: self.key@,
            value: self.value@,
            compression: self.compression,
        }
    }
}

/// What a flusher made of an entry.
#[derive(Debug, Clone, Copy, PartialEq, Eq, Structural)]
pub enum Flush {
    /// The entry was written at `view`. `moved` says whether the catalog now
    /// points there: it does not where the key has left the catalog or holds
    /// another admission.
    Written { view: RegionView, moved: bool },
    /// The entry did not fit in the flusher's region. The region is full and
    /// has to be written to the device and sealed before the entry is tried again.
    Seal { region_id: RegionId },
    /// The flusher has no region and no clean region is to be had: the entry
    /// has to wait for a reclaim.
    Wait,
    /// The entry is skipped: it could not be framed, or no region can hold it.
    Skipped(Error),
}

} // verus!
