//! The regions of the device with their place in the life cycle: waiting for
//! recovery, clean, active under a flusher, or sealed and queued for eviction.

use crate::code::{append_zeros, overwrite, zeros};
use crate::compress::opt_view;
use crate::region::{spec_header_block, spec_reads};
use crate::region::{AllocateResult, IoRead, Load, Region, RegionId, RegionState, Version};
use vstd::prelude::*;

verus! {

/// Where a region stands in its life cycle.
#[derive(Debug, Clone, Copy, PartialEq, Eq, Structural)]
pub enum Phase {
    /// The region has not been looked at since the store was opened.
    Pending,
    /// The region holds nothing and waits in the queue of clean regions.
    Clean,
    /// The region has a dirty buffer and takes appends.
    Active,
    /// The region is on the device only and waits in the eviction order.
    Sealed,
}

/// The order in which sealed regions are evicted.
#[derive(Debug, Clone, Copy, PartialEq, Eq, Structural)]
pub enum EvictionConfig {
    /// The region that was sealed first is evicted first.
    Fifo,
    /// The region that was read least recently is evicted first.
    Lru,
    /// The region that was read least often since it was last clean is
    /// evicted first, and of several such the one that was sealed first.
    Lfu,
}

/// What an append to an active region came to.
#[derive(Debug, Clone, Copy, PartialEq, Eq, Structural)]
pub enum Append {
    /// The bytes were written at `offset` of the generation `version`.
    Written { offset: usize, version: Version },
    /// The bytes did not fit: the rest of the region was filled with zeros,
    /// and the region is ready to be written out and sealed.
    Full,
}

/// What reading a range of a region came to.
#[derive(Debug)]
pub enum Read {
    /// The region has moved on from the expected version.
    Absent,
    /// The bytes, out of the dirty buffer.
    Bytes(Vec<u8>),
    /// The bytes have to come from the device, by these requests in order.
    /// The region counts a physical reader until the read is completed.
    Physical(Vec<IoRead>),
}

/// What the regions and their queues are at one moment.
pub struct ManagerState {
    pub regions: Seq<RegionState>,
    pub phases: Seq<Phase>,
    /// The clean regions, the next to be handed out first.
    pub clean: Seq<RegionId>,
    /// The sealed regions, the next victim first.
    pub eviction: Seq<RegionId>,
    /// The number of active regions.
    pub active: usize,
    /// The number of regions that wait for recovery.
    pub pending: usize,
    pub region_size: usize,
    pub align: usize,
    pub io_size: usize,
    pub policy: EvictionConfig,
    /// How often every region was read since it was last clean.
    pub hits: Seq<u64>,
}

/// The first of the regions in `order` that has the fewest hits.
pub open spec fn spec_least_hit(order: Seq<RegionId>, hits: Seq<u64>) -> RegionId
    decreases order.len(),
{
    if order.len() <= 1 {
        order[0]
    } else {
        let best = spec_least_hit(order.drop_last(), hits);
        if hits[order.last() as int] < hits[best as int] {
            order.last()
        } else {
            best
        }
    }
}

impl ManagerState {
    /// Every region is in one phase; the clean queue holds clean regions and
    /// the eviction order sealed ones, each once; exactly the active regions
    /// have a buffer; and the counts of the phases add up to the number of regions.
    pub open spec fn wf(self) -> bool {
        &&& self.regions.len() == self.phases.len()
        &&& self.regions.len() == self.hits.len()
        &&& Region::geometry_ok(self.region_size, self.align, self.io_size)
        &&& forall|id: int|
            0 <= id < self.regions.len() ==> {
                &&& (#[trigger] self.regions[id]).wf()
                &&& self.regions[id].capacity == self.region_size
                &&& self.regions[id].writers == 0
                &&& self.regions[id].buffered_readers == 0
                &&& self.regions[id].version >= 1
                &&& (self.phases[id] == Phase::Active) == (self.regions[id].buffer is Some)
            }
        &&& forall|i: int|
            0 <= i < self.clean.len() ==> (#[trigger] self.clean[i]) < self.regions.len()
                && self.phases[self.clean[i] as int] == Phase::Clean
        &&& forall|i: int|
            0 <= i < self.eviction.len() ==> (#[trigger] self.eviction[i]) < self.regions.len()
                && self.phases[self.eviction[i] as int] == Phase::Sealed
        &&& self.clean.no_duplicates()
        &&& self.eviction.no_duplicates()
        &&& self.clean.len() + self.active + self.eviction.len() + self.pending
            == self.regions.len()
        &&& self.active == spec_count(self.phases, Phase::Active)
        &&& self.pending == spec_count(self.phases, Phase::Pending)
    }

    /// The state with the region `id` in another state.
    pub open spec fn with_region(self, id: int, region: RegionState) -> ManagerState {
        ManagerState { regions: self.regions.update(id, region), ..self }
    }

    /// The state after the region `id` was read: under LRU a sealed region
    /// moves to the end of the eviction order; otherwise nothing changes.
    pub open spec fn accessed(self, id: RegionId) -> ManagerState {
        ManagerState {
            eviction: if self.policy == EvictionConfig::Lru && self.eviction.contains(id) {
                self.eviction.remove(self.eviction.index_of(id)).push(id)
            } else {
                self.eviction
            },
            hits: if id < self.hits.len() && self.hits[id as int] < u64::MAX {
                self.hits.update(id as int, (self.hits[id as int] + 1) as u64)
            } else {
                self.hits
            },
            ..self
        }
    }

    /// The sealed region that is evicted next, if there is one: under LFU the
    /// first of those that were read least often, otherwise the first in the
    /// eviction order.
    pub open spec fn victim(self) -> Option<RegionId> {
        if self.eviction.len() == 0 {
            None
        } else if self.policy == EvictionConfig::Lfu {
            Some(spec_least_hit(self.eviction, self.hits))
        } else {
            Some(self.eviction[0])
        }
    }

    /// The state with one physical reader less on the region `id`.
    pub open spec fn reader_left(self, id: RegionId) -> ManagerState {
        self.with_region(
            id as int,
            RegionState {
                physical_readers: if self.regions[id as int].physical_readers > 0 {
                    (self.regions[id as int].physical_readers - 1) as usize
                } else {
                    0
                },
                ..self.regions[id as int]
            },
        )
    }

    /// The state with one physical reader more on the region `id`.
    pub open spec fn reader_joined(self, id: RegionId) -> ManagerState {
        self.with_region(
            id as int,
            RegionState {
                physical_readers: (self.regions[id as int].physical_readers + 1) as usize,
                ..self.regions[id as int]
            },
        )
    }

    /// The state after the pending region `id` was found to hold nothing
    /// valid: it is clean and waits at the end of the queue of clean regions.
    pub open spec fn released(self, id: RegionId) -> ManagerState {
        ManagerState {
            phases: self.phases.update(id as int, Phase::Clean),
            clean: self.clean.push(id),
            pending: (self.pending - 1) as usize,
            ..self
        }
    }

    /// The state after the pending region `id` was found valid: it is sealed
    /// and waits at the end of the eviction order.
    pub open spec fn pushed(self, id: RegionId) -> ManagerState {
        ManagerState {
            phases: self.phases.update(id as int, Phase::Sealed),
            eviction: self.eviction.push(id),
            pending: (self.pending - 1) as usize,
            ..self
        }
    }

    /// The state after the first clean region was made active: it has left
    /// the queue and has a buffer of zeros with the region header in its
    /// first block, and allocation starts behind that block.
    pub open spec fn activated(self) -> ManagerState {
        let id = self.clean[0];
        ManagerState {
            regions: self.regions.update(
                id as int,
                RegionState {
                    buffer: Some(
                        overwrite(
                            zeros(self.region_size as nat),
                            0,
                            spec_header_block(self.align as int),
                        ),
                    ),
                    len: self.align,
                    ..self.regions[id as int]
                },
            ),
            phases: self.phases.update(id as int, Phase::Active),
            clean: self.clean.remove(0),
            active: (self.active + 1) as usize,
            ..self
        }
    }

    /// The state after the active region `id` was sealed: its buffer is
    /// detached, and it waits at the end of the eviction order.
    pub open spec fn sealed(self, id: RegionId) -> ManagerState {
        ManagerState {
            regions: self.regions.update(id as int, self.regions[id as int].with_buffer(None)),
            phases: self.phases.update(id as int, Phase::Sealed),
            eviction: self.eviction.push(id),
            active: (self.active - 1) as usize,
            ..self
        }
    }

    /// The state after the sealed region `id` was reclaimed: it has left the
    /// eviction order, has moved on to its next version, and waits at the end
    /// of the queue of clean regions.
    pub open spec fn reclaimed(self, id: RegionId) -> ManagerState {
        ManagerState {
            regions: self.regions.update(
                id as int,
                RegionState {
                    version: (self.regions[id as int].version + 1) as Version,
                    ..self.regions[id as int]
                },
            ),
            phases: self.phases.update(id as int, Phase::Clean),
            eviction: self.eviction.remove(self.eviction.index_of(id)),
            clean: self.clean.push(id),
            hits: self.hits.update(id as int, 0),
            ..self
        }
    }

    /// Whether every region has been recovered.
    pub open spec fn ready(self) -> bool {
        self.pending == 0
    }
}

/// Once every region has been recovered, the clean, the active and the sealed
/// regions together are all the regions there are.
pub proof fn lemma_regions_accounted(state: ManagerState)
    requires
        state.wf(),
        state.ready(),
    ensures
        state.clean.len() + state.active + state.eviction.len() == state.regions.len(),
{
}

/// The number of regions that stand in `phase`.
pub open spec fn spec_count(phases: Seq<Phase>, phase: Phase) -> nat
    decreases phases.len(),
{
    if phases.len() == 0 {
        0
    } else {
        spec_count(phases.drop_last(), phase) + if phases.last() == phase {
            1nat
        } else {
            0nat
        }
    }
}

/// Moving one region to another phase takes one from the count of the phase
/// it leaves and adds one to the count of the phase it enters.
pub proof fn lemma_count_update(phases: Seq<Phase>, id: int, to: Phase, phase: Phase)
    requires
        0 <= id < phases.len(),
    ensures
        spec_count(phases.update(id, to), phase) + (if phases[id] == phase {
            1nat
        } else {
            0nat
        }) == spec_count(phases, phase) + (if to == phase {
            1nat
        } else {
            0nat
        }),
    decreases phases.len(),
{
    let after = phases.update(id, to);
    if id == phases.len() - 1 {
        assert(after.drop_last() =~= phases.drop_last());
    } else {
        assert(after.drop_last() =~= phases.drop_last().update(id, to));
        lemma_count_update(phases.drop_last(), id, to, phase);
    }
}

/// Where every region waits for recovery, all of them are counted as
/// pending and none as active.
pub proof fn lemma_count_pending(phases: Seq<Phase>)
    requires
        forall|i: int| 0 <= i < phases.len() ==> #[trigger] phases[i] == Phase::Pending,
    ensures
        spec_count(phases, Phase::Pending) == phases.len(),
        spec_count(phases, Phase::Active) == 0,
    decreases phases.len(),
{
    if phases.len() > 0 {
        lemma_count_pending(phases.drop_last());
    }
}

/// A phase that no region stands in counts nothing.
pub proof fn lemma_count_none(phases: Seq<Phase>, phase: Phase)
    requires
        forall|i: int| 0 <= i < phases.len() ==> #[trigger] phases[i] != phase,
    ensures
        spec_count(phases, phase) == 0,
    decreases phases.len(),
{
    if phases.len() > 0 {
        lemma_count_none(phases.drop_last(), phase);
    }
}

/// A region that stands in a phase is counted in it.
pub proof fn lemma_count_positive(phases: Seq<Phase>, id: int)
    requires
        0 <= id < phases.len(),
    ensures
        spec_count(phases, phases[id]) > 0,
    decreases phases.len(),
{
    if id < phases.len() - 1 {
        lemma_count_positive(phases.drop_last(), id);
    }
}

/// The regions of the device, the queue of clean regions and the eviction order.
#[derive(Debug)]
pub struct RegionManager {
    regions: Vec<Region>,
    phases: Vec<Phase>,
    clean: Vec<RegionId>,
    eviction: Vec<RegionId>,
    active: usize,
    pending: usize,
    region_size: usize,
    align: usize,
    io_size: usize,
    policy: EvictionConfig,
    hits: Vec<u64>,
}

impl View for RegionManager {
    type V = ManagerState;

    closed spec fn view(&self) -> ManagerState {
        ManagerState {
            regions: Seq::new(self.regions@.len(), |i: int| self.regions@[i].state()),
            phases: self.phases@,
            clean: self.clean@,
            eviction: self.eviction@,
            active: self.active,
            pending: self.pending,
            region_size: self.region_size,
            align: self.align,
            io_size: self.io_size,
            policy: self.policy,
            hits: self.hits@,
        }
    }
}

impl RegionManager {
    /// Every region knows its own number and the geometry of the device.
    pub closed spec fn inv(&self) -> bool {
        &&& self.regions@.len() <= u32::MAX
        &&& forall|id: int|
            0 <= id < self.regions@.len() ==> {
                &&& (#[trigger] self.regions@[id]).spec_id() == id
                &&& self.regions@[id].spec_align() == self.align
                &&& self.regions@[id].spec_io_size() == self.io_size
            }
    }

    pub open spec fn wf(&self) -> bool {
        self.inv() && self@.wf()
    }

    /// The manager of `regions` regions, none of them recovered yet.
    pub fn new(
        regions: usize,
        region_size: usize,
        align: usize,
        io_size: usize,
        policy: EvictionConfig,
    ) -> (manager: Self)
        requires
            regions <= u32::MAX,
            Region::geometry_ok(region_size, align, io_size),
        ensures
            manager.wf(),
            manager@.regions.len() == regions,
            forall|id: int| 0 <= id < regions ==> #[trigger] manager@.phases[id] == Phase::Pending,
            forall|id: int|
                0 <= id < regions ==> (#[trigger] manager@.regions[id]).version == 1
                    && manager@.regions[id].physical_readers == 0,
            manager@.clean.len() == 0,
            manager@.eviction.len() == 0,
            manager@.active == 0,
            manager@.pending == regions,
            manager@.region_size == region_size,
            manager@.align == align,
            manager@.io_size == io_size,
            manager@.policy == policy,
            manager@.hits == Seq::new(regions as nat, |i: int| 0u64),
    {
        let mut list: Vec<Region> = Vec::new();
        let mut phases: Vec<Phase> = Vec::new();
        let mut hits: Vec<u64> = Vec::new();
        let mut id: usize = 0;
        while id < regions
            invariant
                id <= regions <= u32::MAX,
                Region::geometry_ok(region_size, align, io_size),
                list@.len() == id,
                phases@.len() == id,
                hits@ == Seq::new(id as nat, |i: int| 0u64),
                forall|i: int|
                    0 <= i < id ==> {
                        &&& (#[trigger] list@[i]).wf()
                        &&& list@[i].spec_id() == i
                        &&& list@[i].spec_align() == align
                        &&& list@[i].spec_io_size() == io_size
                        &&& list@[i].state() == (RegionState {
                            version: 1,
                            buffer: None,
                            len: 0,
                            capacity: region_size,
                            writers: 0,
                            buffered_readers: 0,
                            physical_readers: 0,
                        })
                    },
                forall|i: int| 0 <= i < id ==> #[trigger] phases@[i] == Phase::Pending,
            decreases regions - id,
        {
            list.push(Region::new(id as RegionId, region_size, align, io_size));
            phases.push(Phase::Pending);
            hits.push(0);
            id += 1;
            proof {
                assert(hits@ =~= Seq::new(id as nat, |i: int| 0u64));
            }
        }
        proof {
            lemma_count_pending(phases@);
        }
        RegionManager {
            regions: list,
            phases,
            clean: Vec::new(),
            eviction: Vec::new(),
            active: 0,
            pending: regions,
            region_size,
            align,
            io_size,
            policy,
            hits,
        }
    }

    /// The number of regions.
    pub fn regions(&self) -> (n: usize)
        ensures
            n == self@.regions.len(),
    {
        self.regions.len()
    }

    /// The region `id`.
    pub fn region(&self, id: RegionId) -> (region: &Region)
        requires
            self.wf(),
            id < self@.regions.len(),
        ensures
            region.wf(),
            region.state() == self@.regions[id as int],
            region.spec_id() == id,
            region.spec_align() == self@.align,
            region.spec_io_size() == self@.io_size,
    {
        &self.regions[id as usize]
    }

    /// Where the region `id` stands in its life cycle.
    pub fn phase(&self, id: RegionId) -> (phase: Phase)
        requires
            self.wf(),
            id < self@.regions.len(),
        ensures
            phase == self@.phases[id as int],
    {
        self.phases[id as usize]
    }

    pub fn region_size(&self) -> (n: usize)
        ensures
            n == self@.region_size,
    {
        self.region_size
    }

    pub fn align(&self) -> (n: usize)
        ensures
            n == self@.align,
    {
        self.align
    }

    pub fn io_size(&self) -> (n: usize)
        ensures
            n == self@.io_size,
    {
        self.io_size
    }

    /// The number of clean regions.
    pub fn clean_regions(&self) -> (n: usize)
        ensures
            n == self@.clean.len(),
    {
        self.clean.len()
    }

    /// The number of active regions.
    pub fn active_regions(&self) -> (n: usize)
        ensures
            n == self@.active,
    {
        self.active
    }

    /// The number of sealed regions.
    pub fn sealed_regions(&self) -> (n: usize)
        ensures
            n == self@.eviction.len(),
    {
        self.eviction.len()
    }

    /// The number of regions that wait for recovery.
    pub fn pending_regions(&self) -> (n: usize)
        ensures
            n == self@.pending,
    {
        self.pending
    }

    /// The sealed region that is evicted next, if there is one.
    pub fn next_victim(&self) -> (victim: Option<RegionId>)
        requires
            self.wf(),
        ensures
            victim == self@.victim(),
            victim matches Some(id) ==> self@.eviction.contains(id),
    {
        if self.eviction.len() == 0 {
            return None;
        }
        let mut best = self.eviction[0];
        if matches!(self.policy, EvictionConfig::Lfu) {
            let mut i: usize = 1;
            assert(self.eviction@.take(1) =~= seq![self.eviction@[0]]);
            while i < self.eviction.len()
                invariant
                    self.wf(),
                    1 <= i <= self.eviction@.len(),
                    best == spec_least_hit(self.eviction@.take(i as int), self.hits@),
                    self.eviction@.contains(best),
                decreases self.eviction@.len() - i,
            {
                let id = self.eviction[i];
                proof {
                    assert(self.eviction@.take(i + 1).drop_last() =~= self.eviction@.take(i as int));
                    assert(self.eviction@.take(i + 1).last() == id);
                    let at = self.eviction@.index_of(best);
                    assert(self@.eviction[at] == best);
                    assert(self@.eviction[i as int] == id);
                }
                if self.hits[id as usize] < self.hits[best as usize] {
                    best = id;
                }
                i += 1;
            }
            assert(self.eviction@.take(i as int) =~= self.eviction@);
        }
        Some(best)
    }

    /// Whether the region `id` stands in the eviction order, and where.
    fn position(list: &Vec<RegionId>, id: RegionId) -> (at: Option<usize>)
        ensures
            match at {
                Some(i) => i < list@.len() && list@[i as int] == id,
                None => !list@.contains(id),
            },
    {
        let mut i: usize = 0;
        while i < list.len()
            invariant
                i <= list@.len(),
                forall|j: int| 0 <= j < i ==> list@[j] != id,
            decreases list@.len() - i,
        {
            if list[i] == id {
                return Some(i);
            }
            i += 1;
        }
        None
    }

    /// Hands a region that turned out to hold nothing valid to the queue of
    /// clean regions. Only a region that waits for recovery is taken.
    pub fn release_clean(&mut self, id: RegionId) -> (done: bool)
        requires
            old(self).wf(),
            id < old(self)@.regions.len(),
        ensures
            final(self).wf(),
            done == (old(self)@.phases[id as int] == Phase::Pending),
            done ==> final(self)@ == old(self)@.released(id),
            !done ==> final(self)@ == old(self)@,
    {
        if !matches!(self.phases[id as usize], Phase::Pending) {
            return false;
        }
        proof {
            lemma_count_positive(self.phases@, id as int);
            lemma_count_update(self.phases@, id as int, Phase::Clean, Phase::Pending);
            lemma_count_update(self.phases@, id as int, Phase::Clean, Phase::Active);
        }
        self.phases.set(id as usize, Phase::Clean);
        self.clean.push(id);
        self.pending = self.pending - 1;
        proof {
            assert(self@.regions =~= old(self)@.regions);
            lemma_pushed_no_duplicates(old(self)@.clean, id);
        }
        true
    }

    /// Puts a region that holds valid entries at the end of the eviction
    /// order. Only a region that waits for recovery is taken.
    pub fn eviction_push(&mut self, id: RegionId) -> (done: bool)
        requires
            old(self).wf(),
            id < old(self)@.regions.len(),
        ensures
            final(self).wf(),
            done == (old(self)@.phases[id as int] == Phase::Pending),
            done ==> final(self)@ == old(self)@.pushed(id),
            !done ==> final(self)@ == old(self)@,
    {
        if !matches!(self.phases[id as usize], Phase::Pending) {
            return false;
        }
        proof {
            lemma_count_positive(self.phases@, id as int);
            lemma_count_update(self.phases@, id as int, Phase::Sealed, Phase::Pending);
            lemma_count_update(self.phases@, id as int, Phase::Sealed, Phase::Active);
        }
        self.phases.set(id as usize, Phase::Sealed);
        self.eviction.push(id);
        self.pending = self.pending - 1;
        proof {
            assert(self@.regions =~= old(self)@.regions);
            lemma_pushed_no_duplicates(old(self)@.eviction, id);
        }
        true
    }

    /// Tells the eviction order that the region `id` was read. Under LRU a
    /// sealed region moves to the end of the order; otherwise nothing changes.
    pub fn record_access(&mut self, id: RegionId)
        requires
            old(self).wf(),
        ensures
            final(self).wf(),
            final(self)@ == old(self)@.accessed(id),
    {
        if (id as usize) < self.hits.len() {
            let n = self.hits[id as usize];
            if n < u64::MAX {
                self.hits.set(id as usize, n + 1);
            }
        }
        proof {
            assert(self@.regions =~= old(self)@.regions);
        }
        match self.policy {
            EvictionConfig::Fifo => {},
            EvictionConfig::Lfu => {},
            EvictionConfig::Lru => {
                match Self::position(&self.eviction, id) {
                    Some(i) => {
                        let ghost order = self.eviction@;
                        proof {
                            assert(order.contains(id));
                            let j = order.index_of(id);
                            assert(j == i);
                            lemma_removed_no_duplicates(order, i as int);
                            lemma_pushed_no_duplicates(order.remove(i as int), id);
                        }
                        self.eviction.remove(i);
                        self.eviction.push(id);
                        proof {
                            assert(self@.regions =~= old(self)@.regions);
                            assert forall|k: int| 0 <= k < self@.eviction.len() implies (
                            #[trigger] self@.eviction[k]) < self@.regions.len()
                                && self@.phases[self@.eviction[k] as int] == Phase::Sealed by {
                                if k < order.len() - 1 {
                                    let k0 = if k < i {
                                        k
                                    } else {
                                        k + 1
                                    };
                                    assert(self@.eviction[k] == order[k0]);
                                } else {
                                    assert(self@.eviction[k] == order[i as int]);
                                }
                            }
                        }
                    },
                    None => {
                        proof {
                            assert(self@.regions =~= old(self)@.regions);
                        }
                    },
                }
            },
        }
    }

    /// Takes the next clean region, gives it a fresh buffer of zeros with the
    /// region header in its first block, and makes it active. There is none
    /// to take where the queue of clean regions is empty.
    pub fn activate(&mut self) -> (r: Option<RegionId>)
        requires
            old(self).wf(),
        ensures
            final(self).wf(),
            match r {
                None => old(self)@.clean.len() == 0 && final(self)@ == old(self)@,
                Some(id) => {
                    &&& old(self)@.clean.len() > 0
                    &&& id == old(self)@.clean[0]
                    &&& id < old(self)@.regions.len()
                    &&& final(self)@ == old(self)@.activated()
                },
            },
    {
        if self.clean.len() == 0 {
            return None;
        }
        let id = self.clean.remove(0);
        let ghost before = self@;
        proof {
            assert(id == old(self)@.clean[0]);
            lemma_removed_no_duplicates(old(self)@.clean, 0);
            lemma_count_update(self.phases@, id as int, Phase::Active, Phase::Pending);
            lemma_count_update(self.phases@, id as int, Phase::Active, Phase::Active);
            assert(old(self)@.regions[id as int].wf());
        }
        let mut buffer: Vec<u8> = Vec::new();
        append_zeros(&mut buffer, self.region_size);
        assert(buffer@ =~= zeros(self.region_size as nat));
        self.regions[id as usize].attach_buffer(buffer);
        self.phases.set(id as usize, Phase::Active);
        self.active = self.active + 1;
        proof {
            let state = self.regions@[id as int].state();
            assert(self@.regions =~= old(self)@.regions.update(id as int, state));
            assert forall|k: int| 0 <= k < self@.clean.len() implies (#[trigger] self@.clean[k])
                < self@.regions.len() && self@.phases[self@.clean[k] as int] == Phase::Clean by {
                assert(self@.clean[k] == old(self)@.clean[k + 1]);
            }
        }
        Some(id)
    }

    /// What an append of `bytes` makes of an active region: the bytes behind
    /// what is there where they fit in front of the footer, and a region that
    /// is filled up where they do not.
    pub open spec fn spec_appended(region: RegionState, align: usize, bytes: Seq<u8>) -> RegionState {
        if region.len + bytes.len() + align <= region.capacity {
            RegionState {
                buffer: Some(overwrite(region.buffer->Some_0, region.len as int, bytes)),
                len: (region.len + bytes.len()) as usize,
                ..region
            }
        } else {
            Self::spec_filled(region, align)
        }
    }

    /// A region that is filled up: its buffer holds zeros from where its
    /// entries end up to the end of the footer block, and nothing more can be
    /// allocated. A region that was full already keeps its buffer.
    pub open spec fn spec_filled(region: RegionState, align: usize) -> RegionState {
        if region.len + align <= region.capacity {
            RegionState {
                buffer: Some(
                    overwrite(
                        region.buffer->Some_0,
                        region.len as int,
                        zeros((region.capacity - region.len) as nat),
                    ),
                ),
                len: region.capacity,
                ..region
            }
        } else {
            RegionState { len: region.capacity, ..region }
        }
    }

    /// Fills the active region `id` up. What lies between the entries and the
    /// footer block is allocated and zeroed as padding; then the region is
    /// asked for more than it can hold, which makes it full and hands out the
    /// footer block, and that is zeroed too.
    fn fill_up(&mut self, id: RegionId)
        requires
            old(self).wf(),
            id < old(self)@.regions.len(),
            old(self)@.phases[id as int] == Phase::Active,
        ensures
            final(self).wf(),
            final(self)@ == old(self)@.with_region(
                id as int,
                Self::spec_filled(old(self)@.regions[id as int], old(self)@.align),
            ),
    {
        let ghost region = self@.regions[id as int];
        assert(region.wf());
        let ghost before = region.buffer->Some_0;
        let len = self.regions[id as usize].len();
        let room = self.region_size - len;
        let footer_free = room >= self.align;
        if footer_free && room > self.align {
            match self.regions[id as usize].allocate(room - self.align) {
                AllocateResult::Allocated(slice) => {
                    let written = self.regions[id as usize].zero(&slice);
                    assert(written);
                    self.regions[id as usize].release_write(slice);
                },
                AllocateResult::Full { .. } => vstd::pervasive::unreached(),
                AllocateResult::Unavailable => vstd::pervasive::unreached(),
            }
        }
        match self.regions[id as usize].allocate(self.region_size) {
            AllocateResult::Full { slice, remain } => {
                if footer_free {
                    let written = self.regions[id as usize].zero(&slice);
                    assert(written);
                }
                self.regions[id as usize].release_write(slice);
            },
            AllocateResult::Allocated(_) => vstd::pervasive::unreached(),
            AllocateResult::Unavailable => vstd::pervasive::unreached(),
        }
        proof {
            let state = self.regions@[id as int].state();
            if footer_free {
                assert(state.buffer->Some_0 =~= overwrite(
                    before,
                    len as int,
                    zeros((region.capacity - len) as nat),
                ));
            }
            assert(state == Self::spec_filled(region, self.align));
            assert(self@.regions =~= old(self)@.regions.update(id as int, state));
        }
    }

    /// Appends `bytes` to the active region `id`. Where they do not fit in
    /// front of the footer block, nothing of them is written: the rest of the
    /// region is filled with zeros, and the region is full.
    pub fn append(&mut self, id: RegionId, bytes: &[u8]) -> (r: Append)
        requires
            old(self).wf(),
            id < old(self)@.regions.len(),
            old(self)@.phases[id as int] == Phase::Active,
        ensures
            final(self).wf(),
            final(self)@ == old(self)@.with_region(
                id as int,
                Self::spec_appended(old(self)@.regions[id as int], old(self)@.align, bytes@),
            ),
            r == if old(self)@.regions[id as int].len + bytes@.len() + old(self)@.align <= old(
                self,
            )@.regions[id as int].capacity {
                Append::Written {
                    offset: old(self)@.regions[id as int].len,
                    version: old(self)@.regions[id as int].version,
                }
            } else {
                Append::Full
            },
    {
        let ghost region = self@.regions[id as int];
        assert(region.wf());
        let size = bytes.len();
        let room = self.region_size - self.regions[id as usize].len();
        if room < self.align || size > room - self.align {
            self.fill_up(id);
            return Append::Full;
        }
        let result = match self.regions[id as usize].allocate(size) {
            AllocateResult::Allocated(slice) => {
                let offset = slice.offset();
                let version = slice.version();
                let written = self.regions[id as usize].write(&slice, bytes);
                assert(written);
                self.regions[id as usize].release_write(slice);
                Append::Written { offset, version }
            },
            AllocateResult::Full { .. } => vstd::pervasive::unreached(),
            AllocateResult::Unavailable => vstd::pervasive::unreached(),
        };
        proof {
            let state = self.regions@[id as int].state();
            assert(state == Self::spec_appended(region, self.align, bytes@));
            assert(self@.regions =~= old(self)@.regions.update(id as int, state));
        }
        result
    }

    /// Fills what is left of the active region `id` with zeros, so that it can
    /// be written out and sealed as it is.
    pub fn fill(&mut self, id: RegionId)
        requires
            old(self).wf(),
            id < old(self)@.regions.len(),
            old(self)@.phases[id as int] == Phase::Active,
        ensures
            final(self).wf(),
            final(self)@ == old(self)@.with_region(
                id as int,
                Self::spec_filled(old(self)@.regions[id as int], old(self)@.align),
            ),
    {
        self.fill_up(id)
    }

    /// Whether the active region `id` can be sealed now: it has no physical reader.
    pub open spec fn can_seal(state: ManagerState, id: RegionId) -> bool {
        &&& state.phases[id as int] == Phase::Active
        &&& state.regions[id as int].physical_readers == 0
    }

    /// Seals the active region `id`, once its buffer has been written to the
    /// device: the buffer is detached and the region joins the end of the
    /// eviction order. Nothing happens while the region is not active or has
    /// a physical reader.
    pub fn seal(&mut self, id: RegionId) -> (done: bool)
        requires
            old(self).wf(),
            id < old(self)@.regions.len(),
        ensures
            final(self).wf(),
            done == Self::can_seal(old(self)@, id),
            done ==> final(self)@ == old(self)@.sealed(id),
            !done ==> final(self)@ == old(self)@,
    {
        let ghost region = self@.regions[id as int];
        assert(region.wf());
        if !matches!(self.phases[id as usize], Phase::Active) || !self.regions[id as usize].exclusive(
            false,
            false,
            false,
        ) {
            return false;
        }
        proof {
            lemma_count_positive(self.phases@, id as int);
            lemma_count_update(self.phases@, id as int, Phase::Sealed, Phase::Pending);
            lemma_count_update(self.phases@, id as int, Phase::Sealed, Phase::Active);
            lemma_pushed_no_duplicates(self@.eviction, id);
        }
        let _ = self.regions[id as usize].detach_buffer();
        self.phases.set(id as usize, Phase::Sealed);
        self.eviction.push(id);
        self.active = self.active - 1;
        proof {
            let state = self.regions@[id as int].state();
            assert(self@.regions =~= old(self)@.regions.update(id as int, state));
        }
        true
    }

    /// Whether the region `id` can be reclaimed now: it is sealed, it waits in
    /// the eviction order, nobody uses it, and it has a next version.
    pub open spec fn can_reclaim(state: ManagerState, id: RegionId) -> bool {
        &&& state.phases[id as int] == Phase::Sealed
        &&& state.eviction.contains(id)
        &&& state.regions[id as int].physical_readers == 0
        &&& state.regions[id as int].version < u32::MAX
    }

    /// Reclaims the sealed region `id`: it leaves the eviction order, moves on
    /// to its next version, and joins the end of the queue of clean regions.
    /// Nothing happens while the region cannot be reclaimed.
    pub fn reclaim(&mut self, id: RegionId) -> (done: bool)
        requires
            old(self).wf(),
            id < old(self)@.regions.len(),
        ensures
            final(self).wf(),
            done == Self::can_reclaim(old(self)@, id),
            done ==> final(self)@ == old(self)@.reclaimed(id),
            !done ==> final(self)@ == old(self)@,
    {
        let ghost region = self@.regions[id as int];
        assert(region.wf());
        if !matches!(self.phases[id as usize], Phase::Sealed) || !self.regions[id as usize].exclusive(
            false,
            false,
            false,
        ) || self.regions[id as usize].version() == u32::MAX {
            return false;
        }
        let at = match Self::position(&self.eviction, id) {
            Some(at) => at,
            None => return false,
        };
        let ghost order = self.eviction@;
        proof {
            assert(order.contains(id));
            assert(order.index_of(id) == at);
            lemma_removed_no_duplicates(order, at as int);
            lemma_pushed_no_duplicates(self@.clean, id);
            lemma_count_update(self.phases@, id as int, Phase::Clean, Phase::Pending);
            lemma_count_update(self.phases@, id as int, Phase::Clean, Phase::Active);
        }
        self.eviction.remove(at);
        let _ = self.regions[id as usize].advance();
        self.phases.set(id as usize, Phase::Clean);
        self.clean.push(id);
        self.hits.set(id as usize, 0);
        proof {
            let state = self.regions@[id as int].state();
            assert(self@.regions =~= old(self)@.regions.update(id as int, state));
            assert forall|k: int| 0 <= k < self@.eviction.len() implies (
            #[trigger] self@.eviction[k]) < self@.regions.len()
                && self@.phases[self@.eviction[k] as int] == Phase::Sealed by {
                let k0 = if k < at {
                    k
                } else {
                    k + 1
                };
                assert(self@.eviction[k] == order[k0]);
                assert(order[k0] != id);
            }
        }
        true
    }

    /// Reads the range from `start` to `end` of the region `id` for a reader
    /// that expects `version`. An active region serves the read from its
    /// buffer at once; for another, the bytes have to come from the device,
    /// and the region counts a physical reader until the read is completed.
    pub fn read(&mut self, id: RegionId, start: usize, end: usize, version: Version) -> (r: Read)
        requires
            old(self).wf(),
            id < old(self)@.regions.len(),
            start <= end <= old(self)@.region_size,
            old(self)@.regions[id as int].physical_readers < usize::MAX,
        ensures
            final(self).wf(),
            match r {
                Read::Absent => {
                    &&& version != 0
                    &&& version != old(self)@.regions[id as int].version
                    &&& final(self)@ == old(self)@
                },
                Read::Bytes(bytes) => {
                    &&& version == 0 || version == old(self)@.regions[id as int].version
                    &&& old(self)@.regions[id as int].buffer is Some
                    &&& bytes@ == old(self)@.regions[id as int].buffer->Some_0.subrange(
                        start as int,
                        end as int,
                    )
                    &&& final(self)@ == old(self)@
                },
                Read::Physical(reads) => {
                    &&& version == 0 || version == old(self)@.regions[id as int].version
                    &&& old(self)@.regions[id as int].buffer is None
                    &&& reads@ == spec_reads(start as int, end as int, old(self)@.io_size as int)
                    &&& final(self)@ == old(self)@.reader_joined(id)
                },
            },
    {
        let ghost region = self@.regions[id as int];
        assert(region.wf());
        let result = match self.regions[id as usize].load(start, end, version) {
            Load::Absent => Read::Absent,
            Load::Buffered(slice) => Read::Bytes(self.regions[id as usize].take_read(slice)),
            Load::Physical(reads) => Read::Physical(reads),
        };
        proof {
            let state = self.regions@[id as int].state();
            assert(self@.regions =~= old(self)@.regions.update(id as int, state));
            assert(old(self)@.regions.update(id as int, region) =~= old(self)@.regions);
        }
        result
    }

    /// Ends a physical read of the region `id` with what the device gave:
    /// `Some` of the bytes where every request was served in full, `None`
    /// where one came back short. The region counts one physical reader less.
    pub fn complete_read(&mut self, id: RegionId, data: Option<Vec<u8>>) -> (r: Option<Vec<u8>>)
        requires
            old(self).wf(),
            id < old(self)@.regions.len(),
        ensures
            final(self).wf(),
            opt_view(r) == opt_view(data),
            final(self)@ == old(self)@.reader_left(id),
    {
        let ghost region = self@.regions[id as int];
        assert(region.wf());
        let result = match self.regions[id as usize].complete_read(data) {
            Some(slice) => Some(self.regions[id as usize].take_read(slice)),
            None => None,
        };
        proof {
            let state = self.regions@[id as int].state();
            assert(self@.regions =~= old(self)@.regions.update(id as int, state));
        }
        result
    }
}

/// A list without duplicates has none after an element that it lacks is added.
pub proof fn lemma_pushed_no_duplicates(list: Seq<RegionId>, id: RegionId)
    requires
        list.no_duplicates(),
        !list.contains(id),
    ensures
        list.push(id).no_duplicates(),
{
    let after = list.push(id);
    assert forall|i: int, j: int| 0 <= i < after.len() && 0 <= j < after.len() && i != j implies
        after[i] != after[j] by {
        if i < list.len() && j < list.len() {
        } else if i < list.len() {
            assert(list.contains(list[i]));
        } else {
            assert(list.contains(list[j]));
        }
    }
}

/// A list without duplicates has none after an element is taken out, and the
/// element is gone from it.
pub proof fn lemma_removed_no_duplicates(list: Seq<RegionId>, at: int)
    requires
        list.no_duplicates(),
        0 <= at < list.len(),
    ensures
        list.remove(at).no_duplicates(),
        !list.remove(at).contains(list[at]),
{
    let after = list.remove(at);
    assert forall|i: int, j: int| 0 <= i < after.len() && 0 <= j < after.len() && i != j implies
        after[i] != after[j] by {
        let i0 = if i < at {
            i
        } else {
            i + 1
        };
        let j0 = if j < at {
            j
        } else {
            j + 1
        };
        assert(after[i] == list[i0] && after[j] == list[j0]);
    }
    if after.contains(list[at]) {
        let i = choose|i: int| 0 <= i < after.len() && after[i] == list[at];
        let i0 = if i < at {
            i
        } else {
            i + 1
        };
        assert(after[i] == list[i0]);
    }
}

} // verus!
