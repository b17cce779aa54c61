//! From the buffer of a region to the catalog of a store that is opened
//! later: what a flusher appends to a region is what recovery finds in its image.

use crate::catalog::Sequence;
use crate::code::{lemma_u64_be_round_trip, overwrite, u32_from_be, u64_from_be, zeros};
use crate::compress::Compression;
use crate::entry::{spec_header, spec_serialize_entry};
use crate::entry::{EntryHeader, ENTRY_HEADER_LEN};
use crate::flusher::{EntryView, Flush};
use crate::generic::{lemma_recover_written, spec_insert_all, spec_max_sequence, StoreState};
use crate::recovery::{spec_items, spec_layout, spec_next, spec_valid_region, Written};
use crate::region::{spec_header_block, RegionId, RegionState, REGION_HEADER_LEN, REGION_MAGIC};
use crate::region_manager::{ManagerState, Phase, RegionManager};
use vstd::prelude::*;

verus! {

/// Whether the buffer of an active region holds, behind its header block,
/// exactly the entries `entries`, one behind the other, up to where the next
/// allocation starts.
pub open spec fn holds_layout(region: RegionState, entries: Seq<Written>, align: int) -> bool {
    &&& region.buffer matches Some(buffer)
    &&& buffer.len() == region.capacity
    &&& region.len <= region.capacity
    &&& region.len == align + spec_layout(entries, align).len()
    &&& buffer.subrange(0, region.len as int) == spec_header_block(align) + spec_layout(
        entries,
        align,
    )
}

/// The entry that is written for a key and a value, as it lies in a region.
pub open spec fn spec_written(
    key: Seq<u8>,
    value: Seq<u8>,
    sequence: Sequence,
    compression: Compression,
) -> Written {
    let stored = compression.spec_encode(value)->Ok_0;
    Written { header: spec_header(key, stored, sequence, compression), stored, key }
}

/// What is framed for a key and a value is a well-framed entry, provided the
/// key is not empty.
pub proof fn lemma_serialized_is_written(
    key: Seq<u8>,
    value: Seq<u8>,
    sequence: Sequence,
    compression: Compression,
    align: int,
)
    requires
        key.len() > 0,
        spec_serialize_entry(key, value, sequence, compression, align) is Ok,
    ensures
        spec_written(key, value, sequence, compression).well_framed(),
        spec_written(key, value, sequence, compression).frame(align) == spec_serialize_entry(
            key,
            value,
            sequence,
            compression,
            align,
        )->Ok_0,
{
}

/// Entries laid out behind others lie behind their bytes.
pub proof fn lemma_layout_push(entries: Seq<Written>, entry: Written, align: int)
    ensures
        spec_layout(entries.push(entry), align) == spec_layout(entries, align) + entry.frame(align),
    decreases entries.len(),
{
    let pushed = entries.push(entry);
    if entries.len() == 0 {
        assert(pushed.skip(1) =~= Seq::<Written>::empty());
        assert(spec_layout(pushed.skip(1), align) =~= Seq::<u8>::empty());
        assert(spec_layout(pushed, align) =~= entry.frame(align));
        assert(spec_layout(entries, align) + entry.frame(align) =~= entry.frame(align));
    } else {
        assert(pushed.skip(1) =~= entries.skip(1).push(entry));
        lemma_layout_push(entries.skip(1), entry, align);
        assert(pushed[0] == entries[0]);
        assert(spec_layout(pushed, align) =~= spec_layout(entries, align) + entry.frame(align));
    }
}

/// A region that has just been made active holds no entry yet.
pub proof fn lemma_fresh_region_holds_nothing(manager: ManagerState)
    requires
        manager.wf(),
        manager.clean.len() > 0,
    ensures
        holds_layout(
            manager.activated().regions[manager.clean[0] as int],
            Seq::empty(),
            manager.align as int,
        ),
{
    let id = manager.clean[0];
    let align = manager.align as int;
    let block = spec_header_block(align);
    lemma_u64_be_round_trip(REGION_MAGIC, Seq::empty());
    assert(block.len() == align);
    assert(manager.regions[id as int].wf());
    let region = manager.activated().regions[id as int];
    let buffer = overwrite(zeros(manager.region_size as nat), 0, block);
    assert(region.buffer == Some(buffer));
    assert(buffer.subrange(0, align) =~= block + spec_layout(Seq::empty(), align));
}

/// An entry that is appended to a region lies behind the entries that the
/// region holds already.
pub proof fn lemma_append_extends_layout(
    region: RegionState,
    entries: Seq<Written>,
    entry: Written,
    align: usize,
)
    requires
        holds_layout(region, entries, align as int),
        region.len + entry.frame(align as int).len() + align <= region.capacity,
    ensures
        holds_layout(
            RegionManager::spec_appended(region, align, entry.frame(align as int)),
            entries.push(entry),
            align as int,
        ),
{
    let frame = entry.frame(align as int);
    let after = RegionManager::spec_appended(region, align, frame);
    lemma_layout_push(entries, entry, align as int);
    let before = region.buffer->Some_0;
    let buffer = after.buffer->Some_0;
    assert(buffer == overwrite(before, region.len as int, frame));
    assert(after.len == region.len + frame.len());
    assert(buffer.len() == region.capacity);
    assert(buffer.subrange(0, after.len as int) =~= before.subrange(0, region.len as int) + frame);
    assert(spec_header_block(align as int) + spec_layout(entries, align as int) + frame
        =~= spec_header_block(align as int) + (spec_layout(entries, align as int) + frame));
}

/// A flusher that takes a clean region starts from a region that holds no
/// entry: where the flusher has no region and its step neither skips the entry
/// nor waits, the region it takes holds nothing behind its header block.
pub proof fn lemma_flush_starts_layout(store: StoreState, flusher: int, entry: EntryView)
    requires
        store.wf(),
        0 <= flusher < store.flushers.len(),
        store.flushers[flusher] is None,
        store.flush(flusher, entry).1 is Written || store.flush(flusher, entry).1 is Seal,
    ensures
        store.manager.clean.len() > 0,
        store.armed(flusher).flushers[flusher] == Some(store.manager.clean[0]),
        holds_layout(
            store.armed(flusher).manager.regions[store.manager.clean[0] as int],
            Seq::empty(),
            store.manager.align as int,
        ),
{
    lemma_fresh_region_holds_nothing(store.manager);
}

/// A step of a flusher keeps what the active regions hold. Where the region
/// `id` holds exactly the entries `entries`: a step of the flusher that writes
/// to it, if it writes the entry, lays the entry behind them, and if it finds
/// the region full, fills the region up; a step of any other flusher, and a
/// step that skips its entry or waits, leaves the region as it is.
pub proof fn lemma_flush_keeps_layout(
    store: StoreState,
    flusher: int,
    entry: EntryView,
    id: RegionId,
    entries: Seq<Written>,
)
    requires
        store.wf(),
        0 <= flusher < store.flushers.len(),
        id < store.manager.regions.len(),
        holds_layout(
            store.armed(flusher).manager.regions[id as int],
            entries,
            store.manager.align as int,
        ),
        store.armed(flusher).manager.phases[id as int] == Phase::Active,
    ensures
        ({
            let align = store.manager.align;
            let armed = store.armed(flusher);
            let before = armed.manager.regions[id as int];
            let after = store.flush(flusher, entry).0.manager.regions[id as int];
            let written = spec_written(entry.key, entry.value, entry.sequence, entry.compression);
            match store.flush(flusher, entry).1 {
                Flush::Written { view, moved } => if view.region_id == id {
                    &&& armed.flushers[flusher] == Some(id)
                    &&& view.offset == before.len
                    &&& view.len == written.frame(align as int).len()
                    &&& written.frame(align as int) == spec_serialize_entry(
                        entry.key,
                        entry.value,
                        entry.sequence,
                        entry.compression,
                        align as int,
                    )->Ok_0
                    &&& holds_layout(after, entries.push(written), align as int)
                    &&& entry.key.len() > 0 ==> written.well_framed()
                } else {
                    after == before
                },
                Flush::Seal { region_id } => if region_id == id {
                    after == RegionManager::spec_filled(before, align)
                } else {
                    after == before
                },
                Flush::Wait => after == store.manager.regions[id as int],
                Flush::Skipped(_) => after == store.manager.regions[id as int],
            }
        }),
{
    let align = store.manager.align;
    let armed = store.armed(flusher);
    let before = armed.manager.regions[id as int];
    let written = spec_written(entry.key, entry.value, entry.sequence, entry.compression);
    match store.flush(flusher, entry).1 {
        Flush::Written { view, moved } => {
            let own = armed.flushers[flusher]->Some_0;
            assert(view.region_id == own);
            if own == id {
                if entry.key.len() > 0 {
                    lemma_serialized_is_written(
                        entry.key,
                        entry.value,
                        entry.sequence,
                        entry.compression,
                        align as int,
                    );
                }
                assert(before.wf()) by {
                    assert(store.manager.regions[id as int].wf());
                }
                lemma_append_extends_layout(before, entries, written, align);
            } else {
                assert(own < armed.manager.regions.len());
            }
        },
        Flush::Seal { region_id } => {},
        Flush::Wait => {},
        Flush::Skipped(_) => {},
    }
}

/// No entry starts where only zeros follow.
pub proof fn lemma_zeros_hold_no_entry(head: Seq<u8>, n: nat, align: int)
    requires
        align >= ENTRY_HEADER_LEN,
    ensures
        spec_next(head + zeros(n), align, head.len() as int) is None,
{
    let image = head + zeros(n);
    let cursor = head.len() as int;
    if cursor + align < image.len() {
        let bytes = image.subrange(cursor, cursor + ENTRY_HEADER_LEN);
        let last = bytes.subrange(24, 28);
        assert(last[0] == 0 && last[1] == 0 && last[2] == 0 && last[3] == 0);
        reveal(u32_from_be);
        assert(u32_from_be(last) == 0);
        assert(EntryHeader::spec_read(bytes) is Err);
    }
}

/// What was flushed is recovered. Where the buffer of a region held exactly
/// the entries `entries` when it was filled up and written out, and a store
/// recovers a pending region from that image, the catalog gets exactly those
/// entries, each with its key, its sequence and the place where it lies, and
/// the region is sealed.
pub proof fn lemma_flushed_region_is_recovered(
    store: StoreState,
    id: RegionId,
    region: RegionState,
    entries: Seq<Written>,
)
    requires
        store.wf(),
        id < store.manager.regions.len(),
        store.manager.phases[id as int] == Phase::Pending,
        region.capacity == store.manager.region_size,
        holds_layout(region, entries, store.manager.align as int),
        region.len + store.manager.align <= region.capacity,
        forall|i: int| 0 <= i < entries.len() ==> (#[trigger] entries[i]).well_framed(),
    ensures
        ({
            let image = RegionManager::spec_filled(region, store.manager.align).buffer->Some_0;
            let items = spec_items(
                entries,
                store.manager.align as int,
                store.manager.align as int,
                id,
                store.manager.regions[id as int].version,
            );
            &&& store.recover_region(id, image).0.catalog == spec_insert_all(store.catalog, items)
            &&& store.recover_region(id, image).1 == Some(spec_max_sequence(items))
            &&& store.recover_region(id, image).0.manager.phases[id as int] == Phase::Sealed
        }),
{
    let align = store.manager.align as int;
    let head = spec_header_block(align);
    let layout = spec_layout(entries, align);
    let tail = zeros((region.capacity - region.len) as nat);
    let image = RegionManager::spec_filled(region, store.manager.align).buffer->Some_0;
    let before = region.buffer->Some_0;
    assert(image == overwrite(before, region.len as int, tail));
    assert(image =~= head + layout + tail);
    lemma_zeros_hold_no_entry(head + layout, (region.capacity - region.len) as nat, align);
    lemma_recover_written(store, id, entries, tail);
}

/// What was reclaimed does not come back: a region whose first bytes were
/// overwritten with zeros on the device, as a reclaim asks, holds no valid
/// header, so that recovery finds the region clean and takes nothing from it,
/// whatever entries still lie behind the header block.
pub proof fn lemma_wiped_region_is_clean(store: StoreState, id: RegionId, image: Seq<u8>, wipe: nat)
    requires
        store.wf(),
        id < store.manager.regions.len(),
        store.manager.phases[id as int] == Phase::Pending,
        REGION_HEADER_LEN <= wipe <= image.len(),
    ensures
        !spec_valid_region(overwrite(image, 0, zeros(wipe))),
        store.recover_region(id, overwrite(image, 0, zeros(wipe))).1 is None,
        store.recover_region(id, overwrite(image, 0, zeros(wipe))).0.catalog == store.catalog,
        store.recover_region(id, overwrite(image, 0, zeros(wipe))).0.manager.phases[id as int]
            == Phase::Clean,
{
    let wiped = overwrite(image, 0, zeros(wipe));
    let head = wiped.subrange(0, REGION_HEADER_LEN as int);
    assert(forall|i: int| 0 <= i < 8 ==> head[i] == 0);
    let hi = head.subrange(0, 4);
    let lo = head.subrange(4, 8);
    assert(hi[0] == 0 && hi[1] == 0 && hi[2] == 0 && hi[3] == 0);
    assert(lo[0] == 0 && lo[1] == 0 && lo[2] == 0 && lo[3] == 0);
    reveal(u32_from_be);
    assert(u32_from_be(hi) == 0 && u32_from_be(lo) == 0);
    assert(u64_from_be(head) == 0);
}

} // verus!
