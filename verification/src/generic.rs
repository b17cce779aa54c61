//! The store: the catalog, the regions and the sequence of admissions, and
//! the steps that inserts, lookups, flushes, reclaims and recovery take on them.
//!
//! The store does no I/O itself. Where a step needs the device, it says what
//! is to be read or written, and a later step takes the outcome.

use crate::catalog::{spec_insert, spec_migrate, spec_without_region};
use crate::catalog::{Catalog, Index, IndexView, Item, ItemView, Sequence};
use crate::compress::Compression;
use crate::entry::lemma_entry_round_trip;
use crate::entry::{read_entry, serialize_entry, spec_read_entry, spec_serialize_entry};
use crate::error::Error;
use crate::reclaimer::ReclaimTask;
use crate::recovery::{spec_scan, spec_valid_region, RegionEntryIter};
use crate::flusher::{Entry, EntryView, Flush};
use crate::judge::MAX_JUDGES;
use crate::region::{spec_reads, IoRead, Region, RegionId, RegionView};
use crate::region_manager::{Append, EvictionConfig, ManagerState, Phase, Read, RegionManager};
use crate::writer::{GenericStoreWriter, Notice, Terminal, WriterState};
use vstd::prelude::*;
use vstd::slice::slice_to_vec;

verus! {

/// The geometry of the device.
#[derive(Debug, Clone, Copy, PartialEq, Eq, Structural)]
pub struct DeviceConfig {
    /// The number of regions.
    pub regions: usize,
    /// The size of a region.
    pub region_size: usize,
    /// What every offset and length on the device is a multiple of.
    pub align: usize,
    /// The largest request that the device serves.
    pub io_size: usize,
}

/// How a store is set up.
#[derive(Debug, Clone, Copy, PartialEq, Eq, Structural)]
pub struct GenericStoreConfig {
    /// The order in which sealed regions are evicted.
    pub eviction_config: EvictionConfig,
    pub device_config: DeviceConfig,
    /// The catalog has `2^catalog_bits` shards.
    pub catalog_bits: usize,
    /// The number of admission policies.
    pub admissions: usize,
    /// The number of reinsertion policies.
    pub reinsertions: usize,
    /// The number of flushers.
    pub flushers: usize,
    /// The number of reclaimers.
    pub reclaimers: usize,
    /// Regions are reclaimed while fewer clean regions than this are left.
    pub clean_region_threshold: usize,
    /// How many regions are recovered at a time.
    pub recover_concurrency: usize,
    /// The compression of entries whose writer sets none.
    pub compression: Compression,
}

impl GenericStoreConfig {
    /// What a store can be opened with: a geometry that a device may have, two
    /// regions for every flusher, a threshold that keeps every reclaimer
    /// busy, a catalog that fits in memory, and no more admission policies
    /// than a mask has bits.
    pub open spec fn valid(self) -> bool {
        &&& Region::geometry_ok(
            self.device_config.region_size,
            self.device_config.align,
            self.device_config.io_size,
        )
        &&& self.device_config.regions <= u32::MAX
        &&& self.device_config.regions >= 2 * self.flushers
        &&& self.clean_region_threshold >= self.reclaimers
        &&& self.catalog_bits < 32
        &&& self.admissions <= MAX_JUDGES
    }

    /// Whether a store can be opened with this configuration.
    pub fn check(&self) -> (ok: bool)
        ensures
            ok == self.valid(),
    {
        Region::check_geometry(
            self.device_config.region_size,
            self.device_config.align,
            self.device_config.io_size,
        ) && self.device_config.regions <= u32::MAX as usize && self.flushers
            <= self.device_config.regions / 2 && self.clean_region_threshold >= self.reclaimers
            && self.catalog_bits < 32 && self.admissions <= MAX_JUDGES
    }
}

/// What finishing a writer came to.
#[derive(Debug)]
pub enum Applied {
    /// The entry is in the catalog and goes to the flusher `flusher`.
    Inserted { notices: Vec<Notice>, flusher: usize, entry: Entry },
    /// The admission policies turned the entry down.
    Rejected { notices: Vec<Notice> },
    /// The entry was admitted, but the store takes no entry any more.
    Failed { error: Error, notices: Vec<Notice> },
}

/// What an `Applied` stands for.
pub enum AppliedView {
    Inserted { notices: Seq<Notice>, flusher: usize, entry: EntryView },
    Rejected { notices: Seq<Notice> },
    Failed { error: Error, notices: Seq<Notice> },
}

impl View for Applied {
    type V = AppliedView;

    open spec fn view(&self) -> AppliedView {
        match self {
            Applied::Inserted { notices, flusher, entry } => AppliedView::Inserted {
                notices: notices@,
                flusher: *flusher,
                entry: entry@,
            },
            Applied::Rejected { notices } => AppliedView::Rejected { notices: notices@ },
            Applied::Failed { error, notices } => AppliedView::Failed {
                error: *error,
                notices: notices@,
            },
        }
    }
}

/// What a lookup came to.
#[derive(Debug)]
pub enum Lookup {
    /// The store has no value for the key.
    Miss,
    /// The value of the key.
    Hit(Vec<u8>),
    /// The entry of the key did not read back. It has left the catalog.
    Failed(Error),
    /// The entry is on the device: `view.len` bytes of the region
    /// `view.region_id` from `view.offset` on are to be read by the requests
    /// `reads`, and the lookup completed with their outcome.
    Read { view: RegionView, reads: Vec<IoRead> },
}

/// What a `Lookup` stands for.
pub enum LookupView {
    Miss,
    Hit(Seq<u8>),
    Failed(Error),
    Read { view: RegionView, reads: Seq<IoRead> },
}

impl View for Lookup {
    type V = LookupView;

    open spec fn view(&self) -> LookupView {
        match self {
            Lookup::Miss => LookupView::Miss,
            Lookup::Hit(value) => LookupView::Hit(value@),
            Lookup::Failed(error) => LookupView::Failed(*error),
            Lookup::Read { view, reads } => LookupView::Read { view: *view, reads: reads@ },
        }
    }
}

/// The views of what a completed lookup returns.
pub open spec fn found_view(r: Result<Option<Vec<u8>>, Error>) -> Result<Option<Seq<u8>>, Error> {
    match r {
        Ok(Some(value)) => Ok(Some(value@)),
        Ok(None) => Ok(None),
        Err(e) => Err(e),
    }
}

/// What carrying out a reclaim task came to.
#[derive(Debug)]
pub enum Reclaim {
    /// The region is clean again. `taken` are the entries that it held, each
    /// with the place it had: they have left the catalog. On the device the
    /// first `wipe` bytes of the region are to be overwritten with zeros, so
    /// that a later recovery finds no valid region there.
    Done { taken: Vec<(Vec<u8>, Item)>, wipe: usize },
    /// The region cannot be reclaimed now: it is not sealed, or somebody
    /// still reads it. Nothing has changed.
    Busy,
}

/// Whether `taken` are the entries that a catalog holds in the region
/// `region_id`: each of them once, with its item, and no other.
pub open spec fn spec_taken(
    catalog: Map<Seq<u8>, ItemView>,
    region_id: RegionId,
    taken: Seq<(Vec<u8>, Item)>,
) -> bool {
    &&& forall|j: int|
        0 <= j < taken.len() ==> {
            &&& catalog.contains_key((#[trigger] taken[j]).0@)
            &&& catalog[taken[j].0@] == taken[j].1@
            &&& taken[j].1@.index.points_to(region_id)
        }
    &&& forall|key: Seq<u8>|
        catalog.contains_key(key) && catalog[key].index.points_to(region_id) ==> exists|j: int|
            0 <= j < taken.len() && (#[trigger] taken[j]).0@ == key
    &&& forall|i: int, j: int|
        0 <= i < taken.len() && 0 <= j < taken.len() && i != j ==> (#[trigger] taken[i]).0@ != (
        #[trigger] taken[j]).0@
}

/// Whether `r` is what the reclaim of the region `region_id` gives back on
/// the store `before`: done exactly where the region can be reclaimed, with
/// the entries that the catalog held in it and the length of its header block.
pub open spec fn spec_reclaim_gives(before: StoreState, region_id: RegionId, r: Reclaim) -> bool {
    match r {
        Reclaim::Done { taken, wipe } => {
            &&& before.can_reclaim(region_id)
            &&& wipe == before.manager.align
            &&& spec_taken(before.catalog, region_id, taken@)
        },
        Reclaim::Busy => !before.can_reclaim(region_id),
    }
}

/// The catalog after `items` were inserted one after the other.
pub open spec fn spec_insert_all(
    catalog: Map<Seq<u8>, ItemView>,
    items: Seq<(Seq<u8>, ItemView)>,
) -> Map<Seq<u8>, ItemView>
    decreases items.len(),
{
    if items.len() == 0 {
        catalog
    } else {
        spec_insert(spec_insert_all(catalog, items.drop_last()), items.last().0, items.last().1)
    }
}

/// The greatest sequence among `items`, 0 where there is none.
pub open spec fn spec_max_sequence(items: Seq<(Seq<u8>, ItemView)>) -> Sequence
    decreases items.len(),
{
    if items.len() == 0 {
        0
    } else if items.last().1.sequence > spec_max_sequence(items.drop_last()) {
        items.last().1.sequence
    } else {
        spec_max_sequence(items.drop_last())
    }
}

/// Whether `item` can be the item of an entry of the region `id` as it is now:
/// it lies in the region, in its current generation, and within its bounds.
pub open spec fn spec_recoverable(manager: ManagerState, id: RegionId, item: ItemView) -> bool {
    item.index matches IndexView::Region { view } && view.region_id == id && spec_view_ok(
        manager,
        view,
    )
}

/// Those of `items` that can be items of entries of the region `id`, in order.
pub open spec fn spec_keep(
    items: Seq<(Seq<u8>, ItemView)>,
    manager: ManagerState,
    id: RegionId,
) -> Seq<(Seq<u8>, ItemView)>
    decreases items.len(),
{
    if items.len() == 0 {
        Seq::empty()
    } else if spec_recoverable(manager, id, items.last().1) {
        spec_keep(items.drop_last(), manager, id).push(items.last())
    } else {
        spec_keep(items.drop_last(), manager, id)
    }
}

/// The views of keys with their items.
pub open spec fn items_view(items: Seq<(Vec<u8>, Item)>) -> Seq<(Seq<u8>, ItemView)> {
    Seq::new(items.len(), |i: int| (items[i].0@, items[i].1@))
}

/// The views of what a scan has found, if there was one.
pub open spec fn scanned_view(scanned: Option<Vec<(Vec<u8>, Item)>>) -> Option<
    Seq<(Seq<u8>, ItemView)>,
> {
    match scanned {
        Some(items) => Some(items_view(items@)),
        None => None,
    }
}

/// The views of the scans of all regions.
pub open spec fn scans_view(scans: Seq<Option<Vec<(Vec<u8>, Item)>>>) -> Seq<
    Option<Seq<(Seq<u8>, ItemView)>>,
> {
    Seq::new(scans.len(), |i: int| scanned_view(scans[i]))
}

/// What a store is at one moment.
pub struct StoreState {
    pub config: GenericStoreConfig,
    /// The sequence of the next admission.
    pub sequence: Sequence,
    pub catalog: Map<Seq<u8>, ItemView>,
    pub manager: ManagerState,
    /// The active region of every flusher, where it has one.
    pub flushers: Seq<Option<RegionId>>,
    /// The greatest sequence that recovery has seen or a writer has pinned.
    pub recovered_sequence: Sequence,
    /// The number of regions that recovery found valid.
    pub recovered_regions: usize,
    /// Whether a write to the device has failed.
    pub degraded: bool,
    /// Whether the store has been closed.
    pub closed: bool,
}

/// The number of flushers that have a region.
pub open spec fn spec_busy(flushers: Seq<Option<RegionId>>) -> nat
    decreases flushers.len(),
{
    if flushers.len() == 0 {
        0
    } else {
        spec_busy(flushers.drop_last()) + if flushers.last() is Some {
            1nat
        } else {
            0nat
        }
    }
}

/// A flusher that takes or gives up a region is counted in or out.
pub proof fn lemma_busy_update(flushers: Seq<Option<RegionId>>, f: int, to: Option<RegionId>)
    requires
        0 <= f < flushers.len(),
    ensures
        spec_busy(flushers.update(f, to)) + (if flushers[f] is Some {
            1nat
        } else {
            0nat
        }) == spec_busy(flushers) + (if to is Some {
            1nat
        } else {
            0nat
        }),
    decreases flushers.len(),
{
    let after = flushers.update(f, to);
    if f == flushers.len() - 1 {
        assert(after.drop_last() =~= flushers.drop_last());
    } else {
        assert(after.drop_last() =~= flushers.drop_last().update(f, to));
        lemma_busy_update(flushers.drop_last(), f, to);
    }
}

/// No more flushers have a region than there are flushers, and none has where
/// all are without.
pub proof fn lemma_busy_bounds(flushers: Seq<Option<RegionId>>)
    ensures
        spec_busy(flushers) <= flushers.len(),
        (forall|f: int| 0 <= f < flushers.len() ==> flushers[f] is None) ==> spec_busy(flushers)
            == 0,
    decreases flushers.len(),
{
    if flushers.len() > 0 {
        lemma_busy_bounds(flushers.drop_last());
        if forall|f: int| 0 <= f < flushers.len() ==> flushers[f] is None {
            let rest = flushers.drop_last();
            assert forall|f: int| 0 <= f < rest.len() implies rest[f] is None by {
                assert(rest[f] == flushers[f]);
            }
        }
    }
}

/// Whether `view` is a range of the current generation of one of the regions.
pub open spec fn spec_view_ok(manager: ManagerState, view: RegionView) -> bool {
    &&& view.region_id < manager.regions.len()
    &&& view.version == manager.regions[view.region_id as int].version
    &&& view.offset + view.len <= manager.region_size
}

/// Every sequence in the catalog is known to the store: it was minted, and
/// lies below the next to be minted, or it was recovered or pinned, and does
/// not exceed the greatest of those.
pub open spec fn spec_sequences_known(
    catalog: Map<Seq<u8>, ItemView>,
    sequence: Sequence,
    recovered_sequence: Sequence,
) -> bool {
    forall|key: Seq<u8>| #[trigger]
        catalog.contains_key(key) ==> catalog[key].sequence < sequence || catalog[key].sequence
            <= recovered_sequence
}

/// Every entry of the catalog that is stored in a region is stored in the
/// current generation of that region.
pub open spec fn spec_consistent(catalog: Map<Seq<u8>, ItemView>, manager: ManagerState) -> bool {
    forall|key: Seq<u8>| #[trigger]
        catalog.contains_key(key) ==> match catalog[key].index {
            IndexView::Region { view } => spec_view_ok(manager, view),
            IndexView::Inflight { .. } => true,
        }
}

impl StoreState {
    /// The state with another catalog.
    pub open spec fn with_catalog(self, catalog: Map<Seq<u8>, ItemView>) -> StoreState {
        StoreState { catalog, ..self }
    }

    /// The state with another state of the regions.
    pub open spec fn with_manager(self, manager: ManagerState) -> StoreState {
        StoreState { manager, ..self }
    }

    /// The sequence that the entry of a writer gets: the one that is pinned,
    /// or else the next of the store.
    pub open spec fn sequence_for(self, writer: WriterState) -> Sequence {
        match writer.sequence {
            Some(sequence) => sequence,
            None => self.sequence,
        }
    }

    /// Why an admitted entry is not taken, if it is not: the store is closed,
    /// a write to the device has failed, or there is no flusher.
    pub open spec fn refusal(self) -> Option<Error> {
        if self.closed {
            Some(Error::ChannelClosed)
        } else if self.degraded {
            Some(Error::DeviceIo)
        } else if self.config.flushers == 0 {
            Some(Error::ChannelClosed)
        } else {
            None
        }
    }

    /// What finishing a judged writer with `value` makes of the store and
    /// gives back. An entry that is turned down, or not taken, leaves the
    /// store as it is, and every policy is told of the drop. An entry that is
    /// taken gets its sequence, goes into the catalog as in flight, and is
    /// handed to the flusher that its sequence selects; every policy is told
    /// of the insert, with what it had judged itself. A pinned sequence
    /// counts as a recovered one.
    pub open spec fn apply(self, writer: WriterState, value: Seq<u8>) -> (StoreState, AppliedView) {
        if !writer.admitted() {
            (self, AppliedView::Rejected { notices: writer.owed(Terminal::Dropped) })
        } else if self.refusal() is Some {
            (
                self,
                AppliedView::Failed {
                    error: self.refusal()->Some_0,
                    notices: writer.owed(Terminal::Dropped),
                },
            )
        } else {
            let sequence = self.sequence_for(writer);
            (
                StoreState {
                    sequence: if writer.sequence is None {
                        (self.sequence + 1) as Sequence
                    } else {
                        self.sequence
                    },
                    catalog: spec_insert(
                        self.catalog,
                        writer.key,
                        ItemView {
                            sequence,
                            index: IndexView::Inflight { key: writer.key, value },
                        },
                    ),
                    recovered_sequence: if writer.sequence is Some && sequence
                        > self.recovered_sequence {
                        sequence
                    } else {
                        self.recovered_sequence
                    },
                    ..self
                },
                AppliedView::Inserted {
                    notices: writer.owed(Terminal::Inserted),
                    flusher: (sequence % (self.config.flushers as u64)) as usize,
                    entry: EntryView {
                        sequence,
                        key: writer.key,
                        value,
                        compression: writer.compression,
                    },
                },
            )
        }
    }

    /// What loading the entry of `key` at `view` makes of the store and gives
    /// back. A view that is no range of a region, or not of the region's
    /// current generation, is a miss, and the key leaves the catalog. The
    /// region is told of the access. An active region serves the entry from
    /// its buffer: it is a hit where the entry reads back, and a failure that
    /// takes the key out of the catalog where not. For any other region the
    /// entry has to be read from the device, and the region counts a reader.
    pub open spec fn load(self, key: Seq<u8>, view: RegionView) -> (StoreState, LookupView) {
        if view.region_id >= self.manager.regions.len() || view.offset + view.len
            > self.manager.region_size {
            (self.with_catalog(self.catalog.remove(key)), LookupView::Miss)
        } else {
            let manager = self.manager.accessed(view.region_id);
            let region = manager.regions[view.region_id as int];
            let accessed = self.with_manager(manager);
            if view.version != 0 && view.version != region.version {
                (accessed.with_catalog(self.catalog.remove(key)), LookupView::Miss)
            } else {
                match region.buffer {
                    Some(buffer) => match spec_read_entry(
                        buffer.subrange(view.offset as int, view.offset + view.len),
                    ) {
                        Ok(kv) => (accessed, LookupView::Hit(kv.1)),
                        Err(e) => (
                            accessed.with_catalog(self.catalog.remove(key)),
                            LookupView::Failed(e),
                        ),
                    },
                    None => (
                        self.with_manager(manager.reader_joined(view.region_id)),
                        LookupView::Read {
                            view,
                            reads: spec_reads(
                                view.offset as int,
                                view.offset + view.len,
                                self.manager.io_size as int,
                            ),
                        },
                    ),
                }
            }
        }
    }

    /// What a lookup of `key` makes of the store and gives back: a miss for a
    /// key that the catalog lacks, the value in memory for an entry in
    /// flight, and what loading gives for an entry in a region.
    pub open spec fn lookup(self, key: Seq<u8>) -> (StoreState, LookupView) {
        if !self.catalog.contains_key(key) {
            (self, LookupView::Miss)
        } else {
            match self.catalog[key].index {
                IndexView::Inflight { key: _, value } => (self, LookupView::Hit(value)),
                IndexView::Region { view } => self.load(key, view),
            }
        }
    }

    /// What completing the read of the entry of `key` in the region `id`
    /// makes of the store and gives back: the reader leaves the region; the
    /// value is returned where the device gave all the bytes and the entry
    /// reads back; otherwise the key leaves the catalog, with no value after a
    /// short read and with the error after a failure.
    pub open spec fn complete_lookup(
        self,
        key: Seq<u8>,
        id: RegionId,
        data: Result<Option<Seq<u8>>, Error>,
    ) -> (StoreState, Result<Option<Seq<u8>>, Error>) {
        let left = self.with_manager(self.manager.reader_left(id));
        let dropped = left.with_catalog(self.catalog.remove(key));
        match data {
            Err(e) => (dropped, Err(e)),
            Ok(None) => (dropped, Ok(None)),
            Ok(Some(bytes)) => match spec_read_entry(bytes) {
                Ok(kv) => (left, Ok(Some(kv.1))),
                Err(e) => (dropped, Err(e)),
            },
        }
    }

    /// What a flusher makes of an entry, and of the store. An entry that
    /// cannot be framed, or that no region can hold between its header block
    /// and its footer block, is skipped. A flusher without a region takes the
    /// next clean one, and waits where there is none. The entry is appended
    /// to the flusher's region where it fits, and the catalog moves the
    /// admission there; where it does not fit, the region is filled up and
    /// has to be sealed first.
    pub open spec fn flush(self, flusher: int, entry: EntryView) -> (StoreState, Flush) {
        match spec_serialize_entry(
            entry.key,
            entry.value,
            entry.sequence,
            entry.compression,
            self.manager.align as int,
        ) {
            Err(e) => (self, Flush::Skipped(e)),
            Ok(image) => if image.len() + 2 * self.manager.align > self.manager.region_size {
                (self, Flush::Skipped(Error::Codec))
            } else if self.flushers[flusher] is None && self.manager.clean.len() == 0 {
                (self, Flush::Wait)
            } else {
                let armed = self.armed(flusher);
                let id = armed.flushers[flusher]->Some_0;
                let region = armed.manager.regions[id as int];
                if region.len + image.len() + self.manager.align <= region.capacity {
                    let view = RegionView {
                        region_id: id,
                        offset: region.len as u32,
                        len: image.len() as u32,
                        version: region.version,
                    };
                    (
                        StoreState {
                            manager: armed.manager.with_region(
                                id as int,
                                RegionManager::spec_appended(region, self.manager.align, image),
                            ),
                            catalog: spec_migrate(self.catalog, entry.key, entry.sequence, view),
                            ..armed
                        },
                        Flush::Written {
                            view,
                            moved: self.catalog.contains_key(entry.key)
                                && self.catalog[entry.key].sequence == entry.sequence,
                        },
                    )
                } else {
                    (
                        armed.with_manager(
                            armed.manager.with_region(
                                id as int,
                                RegionManager::spec_filled(region, self.manager.align),
                            ),
                        ),
                        Flush::Seal { region_id: id },
                    )
                }
            },
        }
    }

    /// The state once the flusher has a region: the one it has, or else the
    /// next clean region, made active.
    pub open spec fn armed(self, flusher: int) -> StoreState {
        if self.flushers[flusher] is Some {
            self
        } else {
            StoreState {
                manager: self.manager.activated(),
                flushers: self.flushers.update(flusher, Some(self.manager.clean[0])),
                ..self
            }
        }
    }

    /// What sealing the region of a flusher makes of the store, and whether
    /// it is done: the region is sealed and the flusher is without a region,
    /// unless it had none or its region still has a physical reader.
    pub open spec fn sealed(self, flusher: int) -> (StoreState, bool) {
        match self.flushers[flusher] {
            Some(id) => if RegionManager::can_seal(self.manager, id) {
                (
                    StoreState {
                        manager: self.manager.sealed(id),
                        flushers: self.flushers.update(flusher, None),
                        ..self
                    },
                    true,
                )
            } else {
                (self, false)
            },
            None => (self, false),
        }
    }

    /// The reclaim that is due, if one is: while fewer clean regions are left
    /// than the threshold asks for, the next victim of the eviction order.
    pub open spec fn reclaim_task(self) -> Option<ReclaimTask> {
        if self.manager.clean.len() < self.config.clean_region_threshold {
            match self.manager.victim() {
                Some(region_id) => Some(ReclaimTask { region_id }),
                None => None,
            }
        } else {
            None
        }
    }

    /// Whether the reclaim of the region `id` can be carried out now.
    pub open spec fn can_reclaim(self, id: RegionId) -> bool {
        id < self.manager.regions.len() && RegionManager::can_reclaim(self.manager, id)
    }

    /// The store after the region `id` was reclaimed: the region is clean in
    /// its next version, and the catalog has lost what was stored in it.
    pub open spec fn reclaimed(self, id: RegionId) -> StoreState {
        StoreState {
            manager: self.manager.reclaimed(id),
            catalog: spec_without_region(self.catalog, id),
            ..self
        }
    }

    /// What recovering the region `id` from its image makes of the store, and
    /// the greatest sequence found in it. A region that is not pending is
    /// left alone. A region whose image does not start with the region magic
    /// is clean. Every entry of a valid region goes into the catalog, where
    /// the greater sequence wins, and the region joins the eviction order.
    pub open spec fn recover_region(self, id: RegionId, image: Seq<u8>) -> (
        StoreState,
        Option<Sequence>,
    ) {
        if self.manager.phases[id as int] != Phase::Pending {
            (self, None)
        } else if !spec_valid_region(image) {
            (self.with_manager(self.manager.released(id)), None)
        } else {
            let items = spec_scan(
                image,
                self.manager.align as int,
                self.manager.align as int,
                id,
                self.manager.regions[id as int].version,
            );
            let max = spec_max_sequence(items);
            (
                StoreState {
                    catalog: spec_insert_all(self.catalog, items),
                    manager: self.manager.pushed(id),
                    recovered_sequence: if max > self.recovered_sequence {
                        max
                    } else {
                        self.recovered_sequence
                    },
                    recovered_regions: (self.recovered_regions + 1) as usize,
                    ..self
                },
                Some(max),
            )
        }
    }

    /// What taking in the outcome of a scan of the region `id` makes of the
    /// store, and the greatest sequence taken in. A region that is not
    /// pending is left alone. Without a scan, because the region did not
    /// start with the region magic, the region is clean. Of the items of a
    /// scan those go into the catalog that can be items of the region, where
    /// the greater sequence wins, and the region joins the eviction order.
    pub open spec fn recover_scanned(
        self,
        id: RegionId,
        scanned: Option<Seq<(Seq<u8>, ItemView)>>,
    ) -> (StoreState, Option<Sequence>) {
        if self.manager.phases[id as int] != Phase::Pending {
            (self, None)
        } else {
            match scanned {
                None => (self.with_manager(self.manager.released(id)), None),
                Some(items) => {
                    let kept = spec_keep(items, self.manager, id);
                    let max = spec_max_sequence(kept);
                    (
                        StoreState {
                            catalog: spec_insert_all(self.catalog, kept),
                            manager: self.manager.pushed(id),
                            recovered_sequence: if max > self.recovered_sequence {
                                max
                            } else {
                                self.recovered_sequence
                            },
                            recovered_regions: (self.recovered_regions + 1) as usize,
                            ..self
                        },
                        Some(max),
                    )
                },
            }
        }
    }

    /// The store after the scans of the first `n` regions were taken in, one
    /// region after the other.
    pub open spec fn recover_upto(
        self,
        scans: Seq<Option<Seq<(Seq<u8>, ItemView)>>>,
        n: nat,
    ) -> StoreState
        decreases n,
    {
        if n == 0 {
            self
        } else {
            self.recover_upto(scans, (n - 1) as nat).recover_scanned(
                (n - 1) as RegionId,
                scans[n - 1],
            ).0
        }
    }

    /// The store after recovery: the scans of all regions are taken in, and
    /// the next sequence lies behind all that was recovered.
    pub open spec fn recover_all(self, scans: Seq<Option<Seq<(Seq<u8>, ItemView)>>>) -> StoreState {
        self.recover_upto(scans, scans.len()).recovered()
    }

    /// The store in the middle of a recovery that began at `self`, once the
    /// items `done` are in the catalog.
    pub open spec fn recovering(self, done: Seq<(Seq<u8>, ItemView)>) -> StoreState {
        StoreState {
            catalog: spec_insert_all(self.catalog, done),
            recovered_sequence: if spec_max_sequence(done) > self.recovered_sequence {
                spec_max_sequence(done)
            } else {
                self.recovered_sequence
            },
            ..self
        }
    }

    /// The store once recovery is over: the next admission gets a sequence
    /// behind every sequence that was recovered.
    pub open spec fn recovered(self) -> StoreState {
        StoreState {
            sequence: if self.sequence > self.recovered_sequence {
                self.sequence
            } else if self.recovered_sequence < u64::MAX {
                (self.recovered_sequence + 1) as Sequence
            } else {
                u64::MAX
            },
            ..self
        }
    }

    pub open spec fn wf(self) -> bool {
        &&& self.config.valid()
        &&& self.recovered_regions + self.manager.pending <= self.manager.regions.len()
        &&& self.manager.wf()
        &&& self.manager.regions.len() == self.config.device_config.regions
        &&& self.manager.region_size == self.config.device_config.region_size
        &&& self.manager.align == self.config.device_config.align
        &&& self.manager.io_size == self.config.device_config.io_size
        &&& self.manager.policy == self.config.eviction_config
        &&& spec_consistent(self.catalog, self.manager)
        &&& spec_sequences_known(self.catalog, self.sequence, self.recovered_sequence)
        &&& self.flushers.len() == self.config.flushers
        &&& self.manager.active == spec_busy(self.flushers)
        &&& forall|f: int|
            0 <= f < self.flushers.len() ==> match #[trigger] self.flushers[f] {
                Some(id) => id < self.manager.regions.len() && self.manager.phases[id as int]
                    == Phase::Active,
                None => true,
            }
        &&& forall|f: int, g: int|
            0 <= f < self.flushers.len() && 0 <= g < self.flushers.len() && f != g && (
            #[trigger] self.flushers[f]) is Some ==> self.flushers[f] != #[trigger] self.flushers[g]
    }
}

/// The store.
#[derive(Debug)]
pub struct GenericStore {
    config: GenericStoreConfig,
    sequence: Sequence,
    catalog: Catalog,
    region_manager: RegionManager,
    flushers: Vec<Option<RegionId>>,
    recovered_sequence: Sequence,
    recovered_regions: usize,
    degraded: bool,
    closed: bool,
}

impl View for GenericStore {
    type V = StoreState;

    closed spec fn view(&self) -> StoreState {
        StoreState {
            config: self.config,
            sequence: self.sequence,
            catalog: self.catalog@,
            manager: self.region_manager@,
            flushers: self.flushers@,
            recovered_sequence: self.recovered_sequence,
            recovered_regions: self.recovered_regions,
            degraded: self.degraded,
            closed: self.closed,
        }
    }
}

impl GenericStore {
    /// The parts of the store are valid in themselves.
    pub closed spec fn inv(&self) -> bool {
        self.catalog.wf() && self.region_manager.inv()
    }

    pub open spec fn wf(&self) -> bool {
        self.inv() && self@.wf()
    }

    /// Sets a store up on a device of the configured geometry. No region has
    /// been recovered yet: the catalog is empty and every region is pending.
    /// A configuration that is not valid is refused.
    pub fn open(config: GenericStoreConfig) -> (r: Result<GenericStore, Error>)
        ensures
            match r {
                Ok(store) => {
                    &&& config.valid()
                    &&& store.wf()
                    &&& store@.config == config
                    &&& store@.sequence == 0
                    &&& store@.catalog == Map::<Seq<u8>, ItemView>::empty()
                    &&& store@.flushers == Seq::new(config.flushers as nat, |f: int| None::<RegionId>)
                    &&& store@.manager.pending == config.device_config.regions
                    &&& forall|id: int|
                        0 <= id < config.device_config.regions ==> {
                            &&& #[trigger] store@.manager.phases[id] == Phase::Pending
                            &&& store@.manager.regions[id].version == 1
                            &&& store@.manager.regions[id].physical_readers == 0
                        }
                    &&& store@.manager.hits == Seq::new(
                        config.device_config.regions as nat,
                        |i: int| 0u64,
                    )
                    &&& store@.manager.clean.len() == 0
                    &&& store@.manager.eviction.len() == 0
                    &&& store@.manager.active == 0
                    &&& store@.recovered_sequence == 0
                    &&& store@.recovered_regions == 0
                    &&& !store@.degraded
                    &&& !store@.closed
                },
                Err(e) => !config.valid() && e == Error::Configuration,
            },
    {
        if !config.check() {
            return Err(Error::Configuration);
        }
        let device = config.device_config;
        let region_manager = RegionManager::new(
            device.regions,
            device.region_size,
            device.align,
            device.io_size,
            config.eviction_config,
        );
        let catalog = Catalog::new(config.catalog_bits);
        let mut flushers: Vec<Option<RegionId>> = Vec::new();
        let mut f: usize = 0;
        while f < config.flushers
            invariant
                f <= config.flushers,
                flushers@ == Seq::new(f as nat, |g: int| None::<RegionId>),
            decreases config.flushers - f,
        {
            flushers.push(None);
            f += 1;
            proof {
                assert(flushers@ =~= Seq::new(f as nat, |g: int| None::<RegionId>));
            }
        }
        proof {
            lemma_busy_bounds(flushers@);
        }
        Ok(
            GenericStore {
                config,
                sequence: 0,
                catalog,
                region_manager,
                flushers,
                recovered_sequence: 0,
                recovered_regions: 0,
                degraded: false,
                closed: false,
            },
        )
    }

    /// Whether every region has been recovered.
    pub fn is_ready(&self) -> (ready: bool)
        ensures
            ready == self@.manager.ready(),
    {
        self.region_manager.pending_regions() == 0
    }

    /// The sequence of the next admission.
    pub fn sequence(&self) -> (sequence: Sequence)
        ensures
            sequence == self@.sequence,
    {
        self.sequence
    }

    pub fn config(&self) -> (config: &GenericStoreConfig)
        ensures
            *config == self@.config,
    {
        &self.config
    }

    pub fn catalog(&self) -> (catalog: &Catalog)
        ensures
            catalog.wf() == self.inv_catalog(),
            catalog@ == self@.catalog,
    {
        &self.catalog
    }

    /// Whether the catalog is valid in itself.
    pub closed spec fn inv_catalog(&self) -> bool {
        self.catalog.wf()
    }

    pub fn region_manager(&self) -> (manager: &RegionManager)
        ensures
            manager@ == self@.manager,
            self.wf() ==> manager.wf(),
    {
        &self.region_manager
    }

    /// Whether a write to the device has failed.
    pub fn is_degraded(&self) -> (degraded: bool)
        ensures
            degraded == self@.degraded,
    {
        self.degraded
    }

    /// Records that a write to the device has failed: from now on no entry is admitted.
    pub fn degrade(&mut self)
        ensures
            final(self)@ == (StoreState { degraded: true, ..old(self)@ }),
            old(self).wf() ==> final(self).wf(),
    {
        self.degraded = true;
    }

    /// A writer for `key`, to be judged by the admission policies of the store.
    pub fn writer(&self, key: Vec<u8>, weight: usize) -> (writer: GenericStoreWriter)
        requires
            self.wf(),
        ensures
            writer.wf(),
            writer@ == (WriterState {
                key: key@,
                weight,
                sequence: None,
                judges: Seq::new(self@.config.admissions as nat, |i: int| false),
                mask: u64::MAX,
                is_judged: false,
                is_skippable: false,
                compression: self@.config.compression,
            }),
    {
        GenericStoreWriter::new(key, weight, self.config.admissions, self.config.compression)
    }

    /// Whether the catalog has an entry for `key`.
    pub fn contains(&self, key: &[u8]) -> (found: bool)
        requires
            self.wf(),
        ensures
            found == self@.catalog.contains_key(key@),
    {
        self.catalog.lookup(key).is_some()
    }

    /// Takes the entry of `key` out of the catalog, and says whether there was one.
    pub fn remove(&mut self, key: &[u8]) -> (removed: bool)
        requires
            old(self).wf(),
        ensures
            final(self).wf(),
            removed == old(self)@.catalog.contains_key(key@),
            final(self)@ == (StoreState {
                catalog: old(self)@.catalog.remove(key@),
                ..old(self)@
            }),
    {
        self.catalog.remove(key).is_some()
    }

    /// Empties the catalog.
    pub fn clear(&mut self)
        requires
            old(self).wf(),
        ensures
            final(self).wf(),
            final(self)@ == (StoreState {
                catalog: Map::<Seq<u8>, ItemView>::empty(),
                ..old(self)@
            }),
    {
        self.catalog.clear();
    }

    /// Finishes a writer with the value of its entry. The writer is judged
    /// first, by the verdicts that the admission policies give on its key, as
    /// far as it has not been judged before.
    pub fn apply_writer(&mut self, writer: GenericStoreWriter, verdicts: &[bool], value: Vec<u8>) -> (r:
        Applied)
        requires
            old(self).wf(),
            writer.wf(),
            writer@.sequence is None ==> old(self)@.sequence < u64::MAX,
        ensures
            final(self).wf(),
            (final(self)@, r@) == old(self)@.apply(writer@.judged(verdicts@), value@),
    {
        let mut writer = writer;
        if !writer.judge(verdicts) {
            let (_, notices) = writer.conclude(Terminal::Dropped);
            return Applied::Rejected { notices };
        }
        let refusal = if self.closed {
            Some(Error::ChannelClosed)
        } else if self.degraded {
            Some(Error::DeviceIo)
        } else if self.config.flushers == 0 {
            Some(Error::ChannelClosed)
        } else {
            None
        };
        if let Some(error) = refusal {
            let (_, notices) = writer.conclude(Terminal::Dropped);
            return Applied::Failed { error, notices };
        }
        let sequence = match writer.sequence() {
            Some(sequence) => {
                if sequence > self.recovered_sequence {
                    self.recovered_sequence = sequence;
                }
                sequence
            },
            None => {
                let sequence = self.sequence;
                self.sequence = self.sequence + 1;
                sequence
            },
        };
        let compression = writer.compression();
        let (key, notices) = writer.conclude(Terminal::Inserted);
        let item = Item::new(
            sequence,
            Index::Inflight {
                key: slice_to_vec(key.as_slice()),
                value: slice_to_vec(value.as_slice()),
            },
        );
        self.catalog.insert(slice_to_vec(key.as_slice()), item);
        let flusher = (sequence % (self.config.flushers as u64)) as usize;
        Applied::Inserted { notices, flusher, entry: Entry { sequence, key, value, compression } }
    }

    /// Loads the entry of `key` from where `view` says it is.
    pub fn load(&mut self, key: &[u8], view: &RegionView) -> (r: Lookup)
        requires
            old(self).wf(),
            view.region_id < old(self)@.manager.regions.len() ==> old(
                self,
            )@.manager.regions[view.region_id as int].physical_readers < usize::MAX,
        ensures
            final(self).wf(),
            (final(self)@, r@) == old(self)@.load(key@, *view),
    {
        let id = view.region_id;
        let start = view.offset as usize;
        if id as usize >= self.region_manager.regions() || view.len as usize
            > self.region_manager.region_size() || start > self.region_manager.region_size()
            - view.len as usize {
            self.catalog.remove(key);
            return Lookup::Miss;
        }
        let end = start + view.len as usize;
        self.region_manager.record_access(id);
        match self.region_manager.read(id, start, end, view.version) {
            Read::Absent => {
                self.catalog.remove(key);
                Lookup::Miss
            },
            Read::Bytes(bytes) => match read_entry(bytes.as_slice()) {
                Ok((_, value)) => Lookup::Hit(value),
                Err(e) => {
                    self.catalog.remove(key);
                    Lookup::Failed(e)
                },
            },
            Read::Physical(reads) => Lookup::Read { view: *view, reads },
        }
    }

    /// Looks `key` up.
    pub fn lookup(&mut self, key: &[u8]) -> (r: Lookup)
        requires
            old(self).wf(),
            forall|id: int|
                0 <= id < old(self)@.manager.regions.len() ==> (#[trigger] old(
                    self,
                )@.manager.regions[id]).physical_readers < usize::MAX,
        ensures
            final(self).wf(),
            (final(self)@, r@) == old(self)@.lookup(key@),
    {
        match self.catalog.lookup(key) {
            None => Lookup::Miss,
            Some(item) => {
                let (_, index) = item.consume();
                match index {
                    Index::Inflight { key: _, value } => Lookup::Hit(value),
                    Index::Region { view } => self.load(key, &view),
                }
            },
        }
    }

    /// Completes the lookup of `key` whose entry was to be read from the
    /// region `id`, with what the device gave: the bytes where every request
    /// was served in full, `None` where one came back short, or its error.
    pub fn complete_lookup(
        &mut self,
        key: &[u8],
        id: RegionId,
        data: Result<Option<Vec<u8>>, Error>,
    ) -> (r: Result<Option<Vec<u8>>, Error>)
        requires
            old(self).wf(),
            id < old(self)@.manager.regions.len(),
        ensures
            final(self).wf(),
            (final(self)@, found_view(r)) == old(self)@.complete_lookup(key@, id, found_view(data)),
    {
        match data {
            Err(e) => {
                self.region_manager.complete_read(id, None);
                self.catalog.remove(key);
                Err(e)
            },
            Ok(None) => {
                self.region_manager.complete_read(id, None);
                self.catalog.remove(key);
                Ok(None)
            },
            Ok(Some(bytes)) => {
                let parsed = read_entry(bytes.as_slice());
                self.region_manager.complete_read(id, Some(bytes));
                match parsed {
                    Ok((_, value)) => Ok(Some(value)),
                    Err(e) => {
                        self.catalog.remove(key);
                        Err(e)
                    },
                }
            },
        }
    }

    /// Lets the flusher `flusher` handle `entry`.
    pub fn flush(&mut self, flusher: usize, entry: &Entry) -> (r: Flush)
        requires
            old(self).wf(),
            flusher < old(self)@.flushers.len(),
        ensures
            final(self).wf(),
            (final(self)@, r) == old(self)@.flush(flusher as int, entry@),
    {
        let align = self.region_manager.align();
        let region_size = self.region_manager.region_size();
        let image = match serialize_entry(
            entry.key.as_slice(),
            entry.value.as_slice(),
            entry.sequence,
            entry.compression,
            align,
        ) {
            Ok(image) => image,
            Err(e) => return Flush::Skipped(e),
        };
        let room = region_size - align;
        if room < align || image.len() > room - align {
            return Flush::Skipped(Error::Codec);
        }
        let id = match self.flushers[flusher] {
            Some(id) => id,
            None => match self.region_manager.activate() {
                Some(id) => {
                    proof {
                        lemma_busy_update(self.flushers@, flusher as int, Some(id));
                    }
                    self.flushers.set(flusher, Some(id));
                    id
                },
                None => return Flush::Wait,
            },
        };
        let ghost armed = self@;
        assert(armed == old(self)@.armed(flusher as int));
        assert(armed.wf()) by {
            assert forall|g: int| 0 <= g < armed.flushers.len() implies match (
            #[trigger] armed.flushers[g]) {
                Some(r) => r < armed.manager.regions.len() && armed.manager.phases[r as int]
                    == Phase::Active,
                None => true,
            } by {
                if g != flusher {
                    assert(armed.flushers[g] == old(self)@.flushers[g]);
                }
            }
        }
        match self.region_manager.append(id, image.as_slice()) {
            Append::Written { offset, version } => {
                let view = RegionView {
                    region_id: id,
                    offset: offset as u32,
                    len: image.len() as u32,
                    version,
                };
                let moved = self.catalog.migrate(entry.key.as_slice(), entry.sequence, view);
                Flush::Written { view, moved }
            },
            Append::Full => Flush::Seal { region_id: id },
        }
    }

    /// Seals the region of the flusher `flusher`, once its buffer has been
    /// written to the device.
    pub fn sealed(&mut self, flusher: usize) -> (done: bool)
        requires
            old(self).wf(),
            flusher < old(self)@.flushers.len(),
        ensures
            final(self).wf(),
            (final(self)@, done) == old(self)@.sealed(flusher as int),
    {
        match self.flushers[flusher] {
            Some(id) => {
                if self.region_manager.seal(id) {
                    proof {
                        lemma_busy_update(self.flushers@, flusher as int, None);
                    }
                    self.flushers.set(flusher, None);
                    true
                } else {
                    false
                }
            },
            None => false,
        }
    }

    /// The region that the flusher `flusher` writes to, if it has one.
    pub fn flusher_region(&self, flusher: usize) -> (region: Option<RegionId>)
        requires
            flusher < self@.flushers.len(),
        ensures
            region == self@.flushers[flusher as int],
    {
        self.flushers[flusher]
    }

    /// Ends the work of the flusher `flusher`: the region it writes to, if it
    /// has one, is filled up, and has to be written to the device and sealed.
    pub fn finish_flusher(&mut self, flusher: usize) -> (region: Option<RegionId>)
        requires
            old(self).wf(),
            flusher < old(self)@.flushers.len(),
        ensures
            final(self).wf(),
            region == old(self)@.flushers[flusher as int],
            final(self)@ == match region {
                Some(id) => old(self)@.with_manager(
                    old(self)@.manager.with_region(
                        id as int,
                        RegionManager::spec_filled(
                            old(self)@.manager.regions[id as int],
                            old(self)@.manager.align,
                        ),
                    ),
                ),
                None => old(self)@,
            },
    {
        match self.flushers[flusher] {
            Some(id) => {
                self.region_manager.fill(id);
                Some(id)
            },
            None => None,
        }
    }

    /// Closes the store: from now on no entry is admitted.
    pub fn close(&mut self)
        ensures
            final(self)@ == (StoreState { closed: true, ..old(self)@ }),
            old(self).wf() ==> final(self).wf(),
    {
        self.closed = true;
    }

    /// The reclaim that is due, if one is.
    pub fn reclaim_task(&self) -> (task: Option<ReclaimTask>)
        requires
            self.wf(),
        ensures
            task == self@.reclaim_task(),
    {
        if self.region_manager.clean_regions() < self.config.clean_region_threshold {
            match self.region_manager.next_victim() {
                Some(region_id) => Some(ReclaimTask { region_id }),
                None => None,
            }
        } else {
            None
        }
    }

    /// Carries out a reclaim task. The region is reclaimed only when it is
    /// sealed and nobody uses it; then it moves on to its next version, its
    /// entries leave the catalog, and it joins the queue of clean regions.
    pub fn reclaim(&mut self, task: &ReclaimTask) -> (r: Reclaim)
        requires
            old(self).wf(),
        ensures
            final(self).wf(),
            r is Done == old(self)@.can_reclaim(task.region_id),
            final(self)@ == if old(self)@.can_reclaim(task.region_id) {
                old(self)@.reclaimed(task.region_id)
            } else {
                old(self)@
            },
            spec_reclaim_gives(old(self)@, task.region_id, r),
    {
        let id = task.region_id;
        if id as usize >= self.region_manager.regions() {
            return Reclaim::Busy;
        }
        if !self.region_manager.reclaim(id) {
            return Reclaim::Busy;
        }
        let taken = self.catalog.take_region(id);
        Reclaim::Done { taken, wipe: self.region_manager.align() }
    }

    /// Recovers the region `id` from `image`, the bytes of the whole region
    /// as the device holds them.
    pub fn recover_region(&mut self, id: RegionId, image: Vec<u8>) -> (max: Option<Sequence>)
        requires
            old(self).wf(),
            id < old(self)@.manager.regions.len(),
            image@.len() == old(self)@.manager.region_size,
        ensures
            final(self).wf(),
            (final(self)@, max) == old(self)@.recover_region(id, image@),
    {
        if !matches!(self.region_manager.phase(id), Phase::Pending) {
            return None;
        }
        let ghost start = self@;
        let mut iter = match RegionEntryIter::open(self.region_manager.region(id), image) {
            Some(iter) => iter,
            None => {
                self.region_manager.release_clean(id);
                return None;
            },
        };
        let ghost all = iter.rest();
        let ghost mut done: Seq<(Seq<u8>, ItemView)> = Seq::empty();
        let mut sequence: Sequence = 0;
        loop
            invariant
                self.wf(),
                iter.wf(),
                self@ == start.recovering(done),
                start == old(self)@,
                id < start.manager.regions.len(),
                start.manager.phases[id as int] == Phase::Pending,
                iter.image() == image@,
                iter.image().len() == start.manager.region_size,
                iter.spec_align() == start.manager.align,
                iter.region_id() == id,
                iter.version() == start.manager.regions[id as int].version,
                all == done + iter.rest(),
                sequence == spec_max_sequence(done),
            ensures
                all == done,
                self.wf(),
                self@ == start.recovering(done),
                sequence == spec_max_sequence(done),
            decreases iter.image().len() - iter.spec_cursor(),
        {
            let ghost cursor = iter.spec_cursor();
            let ghost before = self@.catalog;
            match iter.next() {
                Some((key, item)) => {
                    if *item.sequence() > sequence {
                        sequence = *item.sequence();
                    }
                    if *item.sequence() > self.recovered_sequence {
                        self.recovered_sequence = *item.sequence();
                    }
                    let ghost pair = (key@, item@);
                    proof {
                        assert((done.push(pair)).drop_last() =~= done);
                        assert(done + (seq![pair] + iter.rest()) =~= done.push(pair) + iter.rest());
                    }
                    self.catalog.insert(key, item);
                    proof {
                        done = done.push(pair);
                        assert(spec_sequences_known(
                            self@.catalog,
                            self@.sequence,
                            self@.recovered_sequence,
                        )) by {
                            assert forall|k: Seq<u8>| #[trigger]
                                self@.catalog.contains_key(k) implies self@.catalog[k].sequence
                                < self@.sequence || self@.catalog[k].sequence
                                <= self@.recovered_sequence by {
                                if k != pair.0 {
                                    assert(before.contains_key(k));
                                } else if self@.catalog[k] != pair.1 {
                                    assert(before.contains_key(k));
                                }
                            }
                        }
                        assert(spec_consistent(self@.catalog, self@.manager)) by {
                            assert forall|k: Seq<u8>| #[trigger]
                                self@.catalog.contains_key(k) implies match self@.catalog[k].index {
                                IndexView::Region { view } => spec_view_ok(self@.manager, view),
                                IndexView::Inflight { .. } => true,
                            } by {
                                if k != pair.0 {
                                    assert(before.contains_key(k));
                                } else if self@.catalog[k] != pair.1 {
                                    assert(before.contains_key(k));
                                }
                            }
                        }
                    }
                },
                None => {
                    proof {
                        assert(done + Seq::<(Seq<u8>, ItemView)>::empty() =~= done);
                    }
                    break ;
                },
            }
        }
        self.region_manager.eviction_push(id);
        self.recovered_regions = self.recovered_regions + 1;
        Some(sequence)
    }

    /// Takes in what a scan of the region `id`, block by block, has found:
    /// `None` where the region did not start with the region magic, and the
    /// entries in the order of the scan otherwise.
    pub fn recover_scanned(&mut self, id: RegionId, scanned: &Option<Vec<(Vec<u8>, Item)>>) -> (max:
        Option<Sequence>)
        requires
            old(self).wf(),
            id < old(self)@.manager.regions.len(),
        ensures
            final(self).wf(),
            (final(self)@, max) == old(self)@.recover_scanned(id, scanned_view(*scanned)),
    {
        if !matches!(self.region_manager.phase(id), Phase::Pending) {
            return None;
        }
        let items = match scanned {
            Some(items) => items,
            None => {
                self.region_manager.release_clean(id);
                return None;
            },
        };
        let ghost start = self@;
        let ghost all = items_view(items@);
        let version = self.region_manager.region(id).version();
        let region_size = self.region_manager.region_size();
        let mut sequence: Sequence = 0;
        let mut i: usize = 0;
        while i < items.len()
            invariant
                i <= items@.len(),
                self.wf(),
                start == old(self)@,
                all == items_view(items@),
                id < start.manager.regions.len(),
                version == start.manager.regions[id as int].version,
                region_size == start.manager.region_size,
                self@ == start.recovering(spec_keep(all.take(i as int), start.manager, id)),
                sequence == spec_max_sequence(spec_keep(all.take(i as int), start.manager, id)),
            decreases items@.len() - i,
        {
            let item = &items[i].1;
            let fits = match item.index() {
                Index::Region { view } => view.region_id == id && view.version == version
                    && view.len as usize <= region_size && view.offset as usize <= region_size
                    - view.len as usize,
                Index::Inflight { .. } => false,
            };
            proof {
                assert(all.take(i + 1).drop_last() =~= all.take(i as int));
                assert(all.take(i + 1).last() == (items@[i as int].0@, items@[i as int].1@));
            }
            if fits {
                if *item.sequence() > sequence {
                    sequence = *item.sequence();
                }
                if *item.sequence() > self.recovered_sequence {
                    self.recovered_sequence = *item.sequence();
                }
                let ghost before = self@.catalog;
                let ghost kept = spec_keep(all.take(i as int), start.manager, id);
                let ghost pair = (items@[i as int].0@, items@[i as int].1@);
                proof {
                    assert(kept.push(pair).drop_last() =~= kept);
                }
                self.catalog.insert(slice_to_vec(items[i].0.as_slice()), item.duplicate());
                proof {
                    assert(spec_sequences_known(
                        self@.catalog,
                        self@.sequence,
                        self@.recovered_sequence,
                    )) by {
                        assert forall|k: Seq<u8>| #[trigger]
                            self@.catalog.contains_key(k) implies self@.catalog[k].sequence
                            < self@.sequence || self@.catalog[k].sequence
                            <= self@.recovered_sequence by {
                            if k != pair.0 {
                                assert(before.contains_key(k));
                            } else if self@.catalog[k] != pair.1 {
                                assert(before.contains_key(k));
                            }
                        }
                    }
                    assert(spec_consistent(self@.catalog, self@.manager)) by {
                        assert forall|k: Seq<u8>| #[trigger]
                            self@.catalog.contains_key(k) implies match self@.catalog[k].index {
                            IndexView::Region { view } => spec_view_ok(self@.manager, view),
                            IndexView::Inflight { .. } => true,
                        } by {
                            if k != pair.0 {
                                assert(before.contains_key(k));
                            } else if self@.catalog[k] != pair.1 {
                                assert(before.contains_key(k));
                            }
                        }
                    }
                }
            }
            i += 1;
        }
        proof {
            assert(all.take(i as int) =~= all);
        }
        self.region_manager.eviction_push(id);
        self.recovered_regions = self.recovered_regions + 1;
        Some(sequence)
    }

    /// Recovers the store from the scans of all its regions, `scans[id]` being
    /// what the scan of the region `id` has found, and ends recovery. The
    /// greatest sequence that was recovered is returned. Afterwards every
    /// region is clean or sealed, and the next sequence lies above every
    /// sequence in the catalog.
    pub fn recover_all(&mut self, scans: &Vec<Option<Vec<(Vec<u8>, Item)>>>) -> (sequence: Sequence)
        requires
            old(self).wf(),
            scans@.len() == old(self)@.manager.regions.len(),
        ensures
            final(self).wf(),
            final(self)@ == old(self)@.recover_all(scans_view(scans@)),
            sequence == final(self)@.recovered_sequence,
            final(self)@.manager.ready(),
            sequence < u64::MAX ==> final(self)@.sequence > sequence,
    {
        let ghost start = self@;
        let ghost all = scans_view(scans@);
        let regions = self.region_manager.regions();
        let mut id: usize = 0;
        while id < regions
            invariant
                id <= regions,
                regions == scans@.len(),
                regions == start.manager.regions.len(),
                regions == self@.manager.regions.len(),
                self.wf(),
                start == old(self)@,
                all == scans_view(scans@),
                self@ == start.recover_upto(all, id as nat),
                forall|j: int| 0 <= j < id ==> #[trigger] self@.manager.phases[j] != Phase::Pending,
            decreases regions - id,
        {
            let ghost before = self@;
            self.recover_scanned(id as RegionId, &scans[id]);
            proof {
                assert(all[id as int] == scanned_view(scans@[id as int]));
                assert forall|j: int| 0 <= j < id + 1 implies #[trigger] self@.manager.phases[j]
                    != Phase::Pending by {
                    if j < id {
                        assert(before.manager.phases[j] != Phase::Pending);
                    }
                }
            }
            id += 1;
        }
        proof {
            crate::region_manager::lemma_count_none(self@.manager.phases, Phase::Pending);
        }
        self.recover()
    }

    /// Whether recovery found every region valid, so that no region is clean:
    /// then those who wait for a clean region have to be woken up, for a
    /// reclaim to give them one.
    pub fn all_recovered(&self) -> (all: bool)
        ensures
            all == (self@.recovered_regions == self@.manager.regions.len()),
    {
        self.recovered_regions == self.region_manager.regions()
    }

    /// The number of regions that recovery found valid.
    pub fn recovered_regions(&self) -> (n: usize)
        ensures
            n == self@.recovered_regions,
    {
        self.recovered_regions
    }

    /// Ends recovery: the next admission gets the sequence behind the
    /// greatest that was recovered, which is returned.
    pub fn recover(&mut self) -> (sequence: Sequence)
        ensures
            final(self)@ == old(self)@.recovered(),
            sequence == old(self)@.recovered_sequence,
            old(self).wf() ==> final(self).wf(),
    {
        if self.sequence <= self.recovered_sequence {
            self.sequence = if self.recovered_sequence < u64::MAX {
                self.recovered_sequence + 1
            } else {
                u64::MAX
            };
        }
        self.recovered_sequence
    }
}

/// Sequences grow from one admission to the next: of two entries that are
/// admitted one after the other, neither with a pinned sequence, the second
/// gets the greater sequence.
pub proof fn lemma_sequence_increases(
    store: StoreState,
    first: WriterState,
    first_value: Seq<u8>,
    second: WriterState,
    second_value: Seq<u8>,
)
    requires
        store.sequence < u64::MAX,
        first.sequence is None,
        second.sequence is None,
        store.apply(first, first_value).1 is Inserted,
        store.apply(first, first_value).0.apply(second, second_value).1 is Inserted,
    ensures
        store.apply(first, first_value).1->Inserted_entry.sequence < store.apply(
            first,
            first_value,
        ).0.apply(second, second_value).1->Inserted_entry.sequence,
        store.apply(first, first_value).0.sequence > store.sequence,
{
}

/// Whatever becomes of a writer that is finished, every admission policy is
/// told exactly once how the entry ended: of the insert where the entry was
/// taken, of the drop where it was not, and each time what the policy itself
/// had judged.
pub proof fn lemma_one_terminal_each(
    store: StoreState,
    before: WriterState,
    verdicts: Seq<bool>,
    value: Seq<u8>,
    policy: int,
)
    requires
        0 <= policy < before.judges.len() <= usize::MAX,
    ensures
        ({
            let writer = before.judged(verdicts);
            let notices = match store.apply(writer, value).1 {
                AppliedView::Inserted { notices, .. } => notices,
                AppliedView::Rejected { notices } => notices,
                AppliedView::Failed { notices, .. } => notices,
            };
            let terminal = if store.apply(writer, value).1 is Inserted {
                Terminal::Inserted
            } else {
                Terminal::Dropped
            };
            &&& notices.len() == writer.judges.len()
            &&& notices[policy] == (Notice {
                policy: policy as usize,
                terminal,
                judge: writer.judges[policy],
            })
            &&& forall|i: int|
                0 <= i < notices.len() && (#[trigger] notices[i]).policy == policy ==> i == policy
        }),
{
}

/// An entry that the policies admit goes into a store that takes entries:
/// it is inserted, every policy is told of the insert, exactly once and with
/// what it had judged itself, and no policy is told of a drop.
pub proof fn lemma_admitted_is_inserted(
    store: StoreState,
    before: WriterState,
    verdicts: Seq<bool>,
    value: Seq<u8>,
)
    requires
        before.judged(verdicts).admitted(),
        store.refusal() is None,
        before.judges.len() <= usize::MAX,
    ensures
        ({
            let writer = before.judged(verdicts);
            &&& store.apply(writer, value).1 matches AppliedView::Inserted { notices, flusher, entry }
            &&& notices.len() == writer.judges.len()
            &&& forall|i: int|
                0 <= i < notices.len() ==> #[trigger] notices[i] == (Notice {
                    policy: i as usize,
                    terminal: Terminal::Inserted,
                    judge: writer.judges[i],
                })
            &&& entry.key == before.key
            &&& entry.value == value
            &&& entry.sequence == store.sequence_for(before)
            &&& store.apply(writer, value).0.catalog.contains_key(before.key)
        }),
{
}

/// A forced entry is inserted and found, whatever the policies judge: where
/// the writer is forced and the store takes entries, the entry is inserted,
/// every policy is told of the insert with its own verdict, be it against,
/// and, the admission being the latest for its key, a lookup gives the value.
pub proof fn lemma_forced_entry_is_inserted_and_found(
    store: StoreState,
    before: WriterState,
    verdicts: Seq<bool>,
    value: Seq<u8>,
    policy: int,
)
    requires
        before.mask == 0,
        !before.is_judged,
        store.refusal() is None,
        0 <= policy < before.judges.len() <= usize::MAX,
        store.catalog.contains_key(before.key) ==> store.catalog[before.key].sequence
            < store.sequence_for(before),
    ensures
        ({
            let writer = before.judged(verdicts);
            &&& store.apply(writer, value).1 matches AppliedView::Inserted { notices, flusher, entry }
            &&& notices[policy] == (Notice {
                policy: policy as usize,
                terminal: Terminal::Inserted,
                judge: policy < verdicts.len() && verdicts[policy],
            })
            &&& store.apply(writer, value).0.lookup(before.key).1 == LookupView::Hit(value)
        }),
{
    crate::judge::lemma_empty_mask_admits(before.judged(verdicts).judges);
}

/// Every flusher writes to one region at most, and to a region of its own:
/// no more regions are active than there are flushers, and so no more than
/// half the regions.
pub proof fn lemma_active_regions_have_flushers(store: StoreState)
    requires
        store.wf(),
    ensures
        store.manager.active <= store.config.flushers,
        2 * store.manager.active <= store.manager.regions.len(),
{
    lemma_busy_bounds(store.flushers);
}

/// A region is reclaimed only when nobody uses it and no flusher writes to
/// it: it is sealed, without a buffer, and has neither writers nor readers.
pub proof fn lemma_reclaim_is_exclusive(store: StoreState, id: RegionId)
    requires
        store.wf(),
        store.can_reclaim(id),
    ensures
        store.manager.phases[id as int] == Phase::Sealed,
        store.manager.regions[id as int].buffer is None,
        store.manager.regions[id as int].writers == 0,
        store.manager.regions[id as int].buffered_readers == 0,
        store.manager.regions[id as int].physical_readers == 0,
        forall|f: int| 0 <= f < store.flushers.len() ==> store.flushers[f] != Some(id),
{
    assert(store.manager.regions[id as int].wf());
    assert forall|f: int| 0 <= f < store.flushers.len() implies store.flushers[f] != Some(id) by {
        if store.flushers[f] == Some(id) {
            assert(store.manager.phases[id as int] == Phase::Active);
        }
    }
}

/// A reclaim moves one region from the sealed to the clean ones and leaves
/// the count of the regions as it is: the region joins the queue of clean
/// regions once, at its end, in its next version, the catalog loses what it
/// held in the region and nothing else, and every entry that is left still
/// carries the version of its region.
pub proof fn lemma_reclaim_keeps_count(store: StoreState, id: RegionId, key: Seq<u8>)
    requires
        store.wf(),
        store.can_reclaim(id),
    ensures
        ({
            let before = store.manager;
            let after = store.reclaimed(id).manager;
            &&& after.clean == before.clean.push(id)
            &&& !before.clean.contains(id)
            &&& after.eviction.len() == before.eviction.len() - 1
            &&& !after.eviction.contains(id)
            &&& after.active == before.active
            &&& after.clean.len() + after.active + after.eviction.len() == before.clean.len()
                + before.active + before.eviction.len()
            &&& after.regions[id as int].version == before.regions[id as int].version + 1
            &&& store.reclaimed(id).catalog.contains_key(key) <==> store.catalog.contains_key(key)
                && !store.catalog[key].index.points_to(id)
            &&& store.reclaimed(id).catalog.contains_key(key) ==> store.reclaimed(id).catalog[key]
                == store.catalog[key] && match store.catalog[key].index {
                IndexView::Region { view } => view.version
                    == after.regions[view.region_id as int].version,
                IndexView::Inflight { .. } => true,
            }
        }),
{
    let order = store.manager.eviction;
    let at = order.index_of(id);
    crate::region_manager::lemma_removed_no_duplicates(order, at);
    if store.manager.clean.contains(id) {
        let i = choose|i: int| 0 <= i < store.manager.clean.len() && store.manager.clean[i] == id;
        assert(store.manager.phases[store.manager.clean[i] as int] == Phase::Clean);
    }
    assert(store.manager.regions[id as int].wf());
}

/// Every entry of the catalog that is stored in a region carries the version
/// that the region has now.
pub proof fn lemma_views_are_current(store: StoreState, key: Seq<u8>)
    requires
        store.wf(),
        store.catalog.contains_key(key),
        store.catalog[key].index is Region,
    ensures
        store.catalog[key].index->Region_view.region_id < store.manager.regions.len(),
        store.catalog[key].index->Region_view.version
            == store.manager.regions[store.catalog[key].index->Region_view.region_id as int].version,
{
}

/// Once recovery is over every sequence in the catalog lies below the next
/// that is minted: where the next sequence lies above every recovered and
/// every pinned one, it lies above every sequence in the catalog.
pub proof fn lemma_sequences_are_below(store: StoreState, key: Seq<u8>)
    requires
        store.wf(),
        store.sequence > store.recovered_sequence,
        store.catalog.contains_key(key),
    ensures
        store.catalog[key].sequence < store.sequence,
{
}

/// The end of recovery puts the next sequence behind all that was recovered:
/// it is one above the greatest recovered sequence where no greater one was
/// minted yet, and so above every sequence in the catalog.
pub proof fn lemma_recovery_sets_sequence(store: StoreState, key: Seq<u8>)
    requires
        store.wf(),
        store.recovered_sequence < u64::MAX,
    ensures
        store.recovered().sequence > store.recovered_sequence,
        store.sequence <= store.recovered_sequence ==> store.recovered().sequence
            == store.recovered_sequence + 1,
        store.recovered().sequence >= store.sequence,
        store.catalog.contains_key(key) ==> store.catalog[key].sequence
            < store.recovered().sequence,
{
}

/// The latest admission is the one that is found: in a store whose next
/// sequence lies above every recovered and every pinned one, an entry that
/// is inserted with a minted sequence gets a sequence above every sequence in
/// the catalog, and a lookup of its key gives its value, whatever the catalog
/// held for the key before.
pub proof fn lemma_latest_admission_is_found(
    store: StoreState,
    writer: WriterState,
    value: Seq<u8>,
    key: Seq<u8>,
)
    requires
        store.wf(),
        store.recovered_sequence < store.sequence < u64::MAX,
        writer.sequence is None,
        store.apply(writer, value).1 is Inserted,
    ensures
        store.catalog.contains_key(key) ==> store.catalog[key].sequence < store.apply(
            writer,
            value,
        ).1->Inserted_entry.sequence,
        store.apply(writer, value).0.lookup(writer.key) == (
            store.apply(writer, value).0,
            LookupView::Hit(value),
        ),
        store.apply(writer, value).0.sequence > store.apply(
            writer,
            value,
        ).0.recovered_sequence,
{
    if store.catalog.contains_key(writer.key) {
        lemma_sequences_are_below(store, writer.key);
    }
    lemma_lookup_after_insert(store, writer, value);
}

/// An entry is found as soon as it is admitted: where the admission is the
/// latest that the catalog knows for its key, a lookup of the key gives the
/// admitted value, out of memory, and changes nothing.
pub proof fn lemma_lookup_after_insert(store: StoreState, writer: WriterState, value: Seq<u8>)
    requires
        store.apply(writer, value).1 is Inserted,
        store.catalog.contains_key(writer.key) ==> store.catalog[writer.key].sequence
            < store.sequence_for(writer),
    ensures
        store.apply(writer, value).0.lookup(writer.key) == (
            store.apply(writer, value).0,
            LookupView::Hit(value),
        ),
{
}

/// An entry is found once it is flushed: where a flusher has written an entry
/// and the catalog has moved the admission there, a lookup of the key gives
/// the value back, read out of the buffer of the region, provided that
/// decoding inverts encoding on that value.
pub proof fn lemma_lookup_after_flush(store: StoreState, flusher: int, entry: EntryView)
    requires
        store.wf(),
        0 <= flusher < store.flushers.len(),
        store.flush(flusher, entry).1 matches Flush::Written { view, moved } && moved,
        entry.compression.round_trips(entry.value),
    ensures
        store.flush(flusher, entry).0.lookup(entry.key).1 == LookupView::Hit(entry.value),
{
    let align = store.manager.align as int;
    let image = spec_serialize_entry(
        entry.key,
        entry.value,
        entry.sequence,
        entry.compression,
        align,
    )->Ok_0;
    lemma_entry_round_trip(entry.key, entry.value, entry.sequence, entry.compression, align);
    let armed = store.armed(flusher);
    let id = armed.flushers[flusher]->Some_0;
    let region = armed.manager.regions[id as int];
    let after = store.flush(flusher, entry).0;
    let view = store.flush(flusher, entry).1->Written_view;
    assert(id < store.manager.regions.len());
    assert(armed.manager.regions.len() == store.manager.regions.len());
    assert(region.buffer is Some && region.buffer->Some_0.len() == region.capacity
        && region.capacity == store.manager.region_size) by {
        crate::code::lemma_u64_be_round_trip(crate::region::REGION_MAGIC, Seq::empty());
        if store.flushers[flusher] is Some {
            assert(store.manager.regions[id as int].wf());
            assert(store.manager.phases[id as int] == Phase::Active);
        } else {
            assert(id == store.manager.clean[0]);
            assert(store.manager.regions[id as int].wf());
            let block = crate::region::spec_header_block(align);
            assert(block.len() == align);
            assert(region.buffer->Some_0 == crate::code::overwrite(
                crate::code::zeros(store.manager.region_size as nat),
                0,
                block,
            ));
        }
    }
    assert(region.len + image.len() + align <= region.capacity);
    let stored = RegionManager::spec_appended(region, store.manager.align, image);
    assert(after.manager.regions[id as int] == stored);
    assert(after.manager.accessed(id).regions[id as int] == stored);
    assert(stored.buffer->Some_0.subrange(view.offset as int, view.offset + view.len) =~= image);
    assert(after.catalog[entry.key].index == IndexView::Region { view });
}

/// A flusher writes in the order in which it is handed entries: of two
/// entries that one flusher writes one after the other into the same region,
/// the second lies behind the first.
pub proof fn lemma_flusher_keeps_order(
    store: StoreState,
    flusher: int,
    first: EntryView,
    second: EntryView,
)
    requires
        store.wf(),
        0 <= flusher < store.flushers.len(),
        store.flush(flusher, first).1 is Written,
        store.flush(flusher, first).0.flush(flusher, second).1 is Written,
    ensures
        ({
            let a = store.flush(flusher, first).1->Written_view;
            let b = store.flush(flusher, first).0.flush(flusher, second).1->Written_view;
            &&& a.region_id == b.region_id
            &&& a.version == b.version
            &&& a.offset + a.len <= b.offset
        }),
{
    let align = store.manager.align as int;
    let armed = store.armed(flusher);
    let id = armed.flushers[flusher]->Some_0;
    let region = armed.manager.regions[id as int];
    let after = store.flush(flusher, first).0;
    assert(after.flushers[flusher] == Some(id));
    assert(id < store.manager.regions.len());
    assert(store.manager.regions[id as int].wf());
    assert(region.capacity == store.manager.region_size);
    assert(after.armed(flusher) == after);
}

/// An entry is found once its region is sealed: where a flusher has written
/// an entry, the catalog has moved the admission there, and the region is
/// sealed, a lookup of the key asks for the bytes of the entry, and completes
/// with the value where the device gives back what the buffer of the region
/// held there, provided that decoding inverts encoding on the value.
pub proof fn lemma_lookup_after_seal(store: StoreState, flusher: int, entry: EntryView)
    requires
        store.wf(),
        0 <= flusher < store.flushers.len(),
        store.flush(flusher, entry).1 matches Flush::Written { view, moved } && moved,
        store.flush(flusher, entry).0.sealed(flusher).1,
        entry.compression.round_trips(entry.value),
    ensures
        ({
            let written = store.flush(flusher, entry).0;
            let view = store.flush(flusher, entry).1->Written_view;
            let bytes = written.manager.regions[view.region_id as int].buffer->Some_0.subrange(
                view.offset as int,
                view.offset + view.len,
            );
            let sealed = written.sealed(flusher).0;
            &&& sealed.lookup(entry.key).1 matches LookupView::Read { view: asked, reads }
                && asked == view && reads == spec_reads(
                view.offset as int,
                view.offset + view.len,
                store.manager.io_size as int,
            )
            &&& sealed.lookup(entry.key).0.complete_lookup(
                entry.key,
                view.region_id,
                Ok(Some(bytes)),
            ).1 == Ok::<Option<Seq<u8>>, Error>(Some(entry.value))
        }),
{
    let align = store.manager.align as int;
    let image = spec_serialize_entry(
        entry.key,
        entry.value,
        entry.sequence,
        entry.compression,
        align,
    )->Ok_0;
    lemma_entry_round_trip(entry.key, entry.value, entry.sequence, entry.compression, align);
    lemma_lookup_after_flush(store, flusher, entry);
    let armed = store.armed(flusher);
    let id = armed.flushers[flusher]->Some_0;
    let region = armed.manager.regions[id as int];
    let written = store.flush(flusher, entry).0;
    let view = store.flush(flusher, entry).1->Written_view;
    crate::code::lemma_u64_be_round_trip(crate::region::REGION_MAGIC, Seq::empty());
    assert(store.manager.regions[id as int].wf());
    assert(region.buffer is Some && region.buffer->Some_0.len() == region.capacity) by {
        if store.flushers[flusher] is None {
            assert(id == store.manager.clean[0]);
            assert(crate::region::spec_header_block(align).len() == align);
        } else {
            assert(store.manager.phases[id as int] == Phase::Active);
        }
    }
    let stored = RegionManager::spec_appended(region, store.manager.align, image);
    assert(written.manager.regions[id as int] == stored);
    assert(stored.buffer->Some_0.subrange(view.offset as int, view.offset + view.len) =~= image);
    let sealed = written.sealed(flusher).0;
    assert(written.flushers[flusher] == Some(id));
    assert(sealed.catalog[entry.key].index == IndexView::Region { view });
    assert(sealed.manager.regions[id as int].buffer is None);
    assert(sealed.manager.accessed(id).regions[id as int].buffer is None);
}

/// Once a region is reclaimed, what pointed into its old generation is gone:
/// a load with a view of that generation is a miss, whatever the region holds
/// by then, and takes the key out of the catalog.
pub proof fn lemma_reclaim_hides_old_views(
    store: StoreState,
    id: RegionId,
    key: Seq<u8>,
    view: RegionView,
)
    requires
        store.wf(),
        store.can_reclaim(id),
        view.region_id == id,
        view.version == store.manager.regions[id as int].version,
    ensures
        store.reclaimed(id).load(key, view).1 == LookupView::Miss,
        !store.reclaimed(id).load(key, view).0.catalog.contains_key(key),
        forall|k: Seq<u8>| #[trigger]
            store.reclaimed(id).catalog.contains_key(k) ==> !store.reclaimed(
                id,
            ).catalog[k].index.points_to(id),
{
    assert(store.manager.regions[id as int].wf());
}

/// A region whose image does not start with the region magic is clean after
/// recovery: it waits at the end of the queue of clean regions, and the
/// catalog has got nothing from it.
pub proof fn lemma_bad_magic_is_clean(store: StoreState, id: RegionId, image: Seq<u8>)
    requires
        store.wf(),
        id < store.manager.regions.len(),
        store.manager.phases[id as int] == Phase::Pending,
        !spec_valid_region(image),
    ensures
        store.recover_region(id, image).1 is None,
        store.recover_region(id, image).0.catalog == store.catalog,
        store.recover_region(id, image).0.manager.phases[id as int] == Phase::Clean,
        store.recover_region(id, image).0.manager.clean.last() == id,
{
}

/// What was written is recovered: where the image of a pending region is
/// the region header block, well-framed entries one behind the other, and a
/// rest at whose start no entry is found, recovery puts exactly those entries
/// into the catalog, each at the place where it lies, and the region joins
/// the eviction order.
pub proof fn lemma_recover_written(
    store: StoreState,
    id: RegionId,
    entries: Seq<crate::recovery::Written>,
    tail: Seq<u8>,
)
    requires
        store.wf(),
        id < store.manager.regions.len(),
        store.manager.phases[id as int] == Phase::Pending,
        forall|i: int| 0 <= i < entries.len() ==> (#[trigger] entries[i]).well_framed(),
        tail.len() > 0,
        crate::recovery::spec_next(
            crate::region::spec_header_block(store.manager.align as int)
                + crate::recovery::spec_layout(entries, store.manager.align as int) + tail,
            store.manager.align as int,
            store.manager.align + crate::recovery::spec_layout(
                entries,
                store.manager.align as int,
            ).len(),
        ) is None,
    ensures
        ({
            let align = store.manager.align as int;
            let image = crate::region::spec_header_block(align) + crate::recovery::spec_layout(
                entries,
                align,
            ) + tail;
            let items = crate::recovery::spec_items(
                entries,
                align,
                align,
                id,
                store.manager.regions[id as int].version,
            );
            &&& store.recover_region(id, image).0.catalog == spec_insert_all(store.catalog, items)
            &&& store.recover_region(id, image).1 == Some(spec_max_sequence(items))
            &&& store.recover_region(id, image).0.manager.phases[id as int] == Phase::Sealed
        }),
{
    let align = store.manager.align as int;
    let head = crate::region::spec_header_block(align);
    let layout = crate::recovery::spec_layout(entries, align);
    let image = head + layout + tail;
    crate::code::lemma_u64_be_round_trip(crate::region::REGION_MAGIC, Seq::empty());
    assert(head.len() == align);
    assert(image.subrange(0, crate::region::REGION_HEADER_LEN as int) =~= crate::code::u64_be(
        crate::region::REGION_MAGIC,
    ));
    assert(spec_valid_region(image));
    crate::recovery::lemma_scan_layout(
        entries,
        align,
        head,
        tail,
        id,
        store.manager.regions[id as int].version,
    );
}

/// Keeping what can be items of a region goes piece by piece.
pub proof fn lemma_keep_concat(
    a: Seq<(Seq<u8>, ItemView)>,
    b: Seq<(Seq<u8>, ItemView)>,
    manager: ManagerState,
    id: RegionId,
)
    ensures
        spec_keep(a + b, manager, id) == spec_keep(a, manager, id) + spec_keep(b, manager, id),
    decreases b.len(),
{
    if b.len() == 0 {
        assert(a + b =~= a);
        assert(spec_keep(a, manager, id) + spec_keep(b, manager, id) =~= spec_keep(a, manager, id));
    } else {
        assert((a + b).drop_last() =~= a + b.drop_last());
        assert((a + b).last() == b.last());
        lemma_keep_concat(a, b.drop_last(), manager, id);
        assert(spec_keep(a + b, manager, id) =~= spec_keep(a, manager, id) + spec_keep(
            b,
            manager,
            id,
        ));
    }
}

/// Every item that the scan of an image of a region finds can be an item of
/// that region: none is left out when the outcome of the scan is taken in.
pub proof fn lemma_scan_is_kept(
    image: Seq<u8>,
    align: int,
    cursor: int,
    manager: ManagerState,
    id: RegionId,
)
    requires
        align > 0,
        id < manager.regions.len(),
        image.len() == manager.region_size,
        manager.region_size <= u32::MAX,
    ensures
        spec_keep(
            spec_scan(image, align, cursor, id, manager.regions[id as int].version),
            manager,
            id,
        ) == spec_scan(image, align, cursor, id, manager.regions[id as int].version),
    decreases image.len() - cursor,
{
    let version = manager.regions[id as int].version;
    match crate::recovery::spec_next(image, align, cursor) {
        None => {},
        Some((header, key)) => {
            let len = crate::entry::spec_entry_len(
                align,
                header.key_len as int,
                header.value_len as int,
            );
            if len > 0 {
                let first = seq![
                    (key, crate::recovery::spec_item(header, align, cursor, id, version)),
                ];
                let rest = spec_scan(image, align, cursor + len, id, version);
                lemma_scan_is_kept(image, align, cursor + len, manager, id);
                lemma_keep_concat(first, rest, manager, id);
                let item = crate::recovery::spec_item(header, align, cursor, id, version);
                assert(0 <= cursor && cursor + len <= image.len());
                assert(spec_recoverable(manager, id, item));
                assert(first.last() == (key, item));
                assert(first.drop_last() =~= Seq::<(Seq<u8>, ItemView)>::empty());
                assert(spec_keep(first.drop_last(), manager, id) =~= Seq::<
                    (Seq<u8>, ItemView),
                >::empty());
                assert(spec_keep(first, manager, id) =~= first);
            }
        },
    }
}

/// Whether a region is recovered from its whole image or from what a scan
/// block by block has found comes to the same, where the scan has found what
/// the image holds.
pub proof fn lemma_scanned_agrees(store: StoreState, id: RegionId, image: Seq<u8>)
    requires
        store.wf(),
        id < store.manager.regions.len(),
        image.len() == store.manager.region_size,
    ensures
        store.recover_region(id, image) == store.recover_scanned(
            id,
            if spec_valid_region(image) {
                Some(
                    spec_scan(
                        image,
                        store.manager.align as int,
                        store.manager.align as int,
                        id,
                        store.manager.regions[id as int].version,
                    ),
                )
            } else {
                None
            },
        ),
{
    lemma_scan_is_kept(
        image,
        store.manager.align as int,
        store.manager.align as int,
        store.manager,
        id,
    );
}

} // verus!
