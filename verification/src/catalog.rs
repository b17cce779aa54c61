//! The in-memory index: for every key the latest admission, which is either
//! still in flight or stored in a region.

use crate::checksum::{checksum, xxh64};
use crate::code::bytes_eq;
use crate::region::{RegionId, RegionView};
use vstd::prelude::*;
use vstd::slice::slice_to_vec;

verus! {

/// The tag of an admission. Later admissions have greater sequences.
pub type Sequence = u64;

/// Where the value of a key is to be found.
#[derive(Debug)]
pub enum Index {
    /// The value is in memory only, waiting to be flushed.
    Inflight { key: Vec<u8>, value: Vec<u8> },
    /// The entry is stored in a region.
    Region { view: RegionView },
}

/// What an `Index` stands for.
pub enum IndexView {
    Inflight { key: Seq<u8>, value: Seq<u8> },
    Region { view: RegionView },
}

impl View for Index {
    type V = IndexView;

    open spec fn view(&self) -> IndexView {
        match self {
            Index::Inflight { key, value } => IndexView::Inflight { key: key@, value: value@ },
            Index::Region { view } => IndexView::Region { view: *view },
        }
    }
}

impl IndexView {
    /// Whether the value is stored in the region `region_id`.
    pub open spec fn points_to(self, region_id: RegionId) -> bool {
        self matches IndexView::Region { view } && view.region_id == region_id
    }
}

impl Index {
    /// A copy of this index.
    pub fn duplicate(&self) -> (copy: Index)
        ensures
            copy@ == self@,
    {
        match self {
            Index::Inflight { key, value } => Index::Inflight {
                key: slice_to_vec(key.as_slice()),
                value: slice_to_vec(value.as_slice()),
            },
            Index::Region { view } => Index::Region { view: *view },
        }
    }

    /// Whether the value is stored in the region `region_id`.
    pub fn points_to(&self, region_id: RegionId) -> (points: bool)
        ensures
            points == self@.points_to(region_id),
    {
        match self {
            Index::Inflight { .. } => false,
            Index::Region { view } => view.region_id == region_id,
        }
    }
}

/// What the catalog holds for a key.
#[derive(Debug)]
pub struct Item {
    sequence: Sequence,
    index: Index,
}

/// What an `Item` stands for.
pub struct ItemView {
    pub sequence: Sequence,
    pub index: IndexView,
}

impl View for Item {
    type V = ItemView;

    closed spec fn view(&self) -> ItemView {
        ItemView { sequence: self.sequence, index: self.index@ }
    }
}

impl Item {
    pub fn new(sequence: Sequence, index: Index) -> (item: Item)
        ensures
            item@ == (ItemView { sequence, index: index@ }),
    {
        Item { sequence, index }
    }

    pub fn sequence(&self) -> (sequence: &Sequence)
        ensures
            *sequence == self@.sequence,
    {
        &self.sequence
    }

    pub fn index(&self) -> (index: &Index)
        ensures
            index@ == self@.index,
    {
        &self.index
    }

    /// Takes the item apart.
    pub fn consume(self) -> (parts: (Sequence, Index))
        ensures
            parts.0 == self@.sequence,
            parts.1@ == self@.index,
    {
        (self.sequence, self.index)
    }

    /// A copy of this item.
    pub fn duplicate(&self) -> (copy: Item)
        ensures
            copy@ == self@,
    {
        Item { sequence: self.sequence, index: self.index.duplicate() }
    }
}

/// A key with its item, as a shard keeps it.
#[derive(Debug)]
struct Slot {
    key: Vec<u8>,
    item: Item,
}

/// The shard that a key belongs to: its XXH64 digest modulo the number of shards.
pub open spec fn spec_shard(key: Seq<u8>, shards: int) -> int {
    xxh64(key) as int % shards
}

/// No key occurs twice.
spec fn unique(slots: Seq<Slot>) -> bool {
    forall|i: int, j: int|
        0 <= i < slots.len() && 0 <= j < slots.len() && i != j ==> (#[trigger] slots[i]).key@ != (
        #[trigger] slots[j]).key@
}

/// Every key belongs to the shard `shard`.
spec fn homed(slots: Seq<Slot>, shard: int, shards: int) -> bool {
    forall|i: int| 0 <= i < slots.len() ==> spec_shard((#[trigger] slots[i]).key@, shards) == shard
}

/// Whether `key` has a slot.
spec fn holds(slots: Seq<Slot>, key: Seq<u8>) -> bool {
    exists|i: int| 0 <= i < slots.len() && (#[trigger] slots[i]).key@ == key
}

/// The item in the slot of `key`.
spec fn item_of(slots: Seq<Slot>, key: Seq<u8>) -> ItemView {
    let i = choose|i: int| 0 <= i < slots.len() && (#[trigger] slots[i]).key@ == key;
    slots[i].item@
}

proof fn lemma_item_at(slots: Seq<Slot>, key: Seq<u8>, i: int)
    requires
        unique(slots),
        0 <= i < slots.len(),
        slots[i].key@ == key,
    ensures
        holds(slots, key),
        item_of(slots, key) == slots[i].item@,
{
    let j = choose|j: int| 0 <= j < slots.len() && (#[trigger] slots[j]).key@ == key;
    assert(j == i);
}

proof fn lemma_holds_witness(slots: Seq<Slot>, key: Seq<u8>) -> (i: int)
    requires
        holds(slots, key),
    ensures
        0 <= i < slots.len(),
        slots[i].key@ == key,
{
    choose|i: int| 0 <= i < slots.len() && (#[trigger] slots[i]).key@ == key
}

proof fn lemma_slots_update(slots: Seq<Slot>, i: int, slot: Slot, shard: int, shards: int)
    requires
        unique(slots),
        homed(slots, shard, shards),
        0 <= i < slots.len(),
        slot.key@ == slots[i].key@,
    ensures
        unique(slots.update(i, slot)),
        homed(slots.update(i, slot), shard, shards),
        forall|k: Seq<u8>| holds(slots.update(i, slot), k) == holds(slots, k),
        forall|k: Seq<u8>|
            holds(slots, k) ==> #[trigger] item_of(slots.update(i, slot), k) == if k == slot.key@ {
                slot.item@
            } else {
                item_of(slots, k)
            },
{
    let new = slots.update(i, slot);
    assert forall|k: Seq<u8>| holds(new, k) == holds(slots, k) by {
        if holds(slots, k) {
            let j = lemma_holds_witness(slots, k);
            assert(new[j].key@ == k);
        }
        if holds(new, k) {
            let j = lemma_holds_witness(new, k);
            assert(slots[j].key@ == k);
        }
    }
    assert forall|k: Seq<u8>| holds(slots, k) implies #[trigger] item_of(new, k) == if k
        == slot.key@ {
        slot.item@
    } else {
        item_of(slots, k)
    } by {
        let j = lemma_holds_witness(slots, k);
        assert(new[j].key@ == k);
        lemma_item_at(new, k, j);
        lemma_item_at(slots, k, j);
    }
}

proof fn lemma_slots_push(slots: Seq<Slot>, slot: Slot, shard: int, shards: int)
    requires
        unique(slots),
        homed(slots, shard, shards),
        !holds(slots, slot.key@),
        spec_shard(slot.key@, shards) == shard,
    ensures
        unique(slots.push(slot)),
        homed(slots.push(slot), shard, shards),
        forall|k: Seq<u8>| holds(slots.push(slot), k) == (holds(slots, k) || k == slot.key@),
        forall|k: Seq<u8>|
            holds(slots.push(slot), k) ==> #[trigger] item_of(slots.push(slot), k) == if k
                == slot.key@ {
                slot.item@
            } else {
                item_of(slots, k)
            },
{
    let new = slots.push(slot);
    assert(unique(new)) by {
        assert forall|i: int, j: int|
            0 <= i < new.len() && 0 <= j < new.len() && i != j implies (#[trigger] new[i]).key@ != (
            #[trigger] new[j]).key@ by {
            if i < slots.len() && j < slots.len() {
                assert(slots[i].key@ != slots[j].key@);
            } else if i < slots.len() {
                assert(slots[i].key@ != slot.key@);
            } else {
                assert(slots[j].key@ != slot.key@);
            }
        }
    }
    assert forall|k: Seq<u8>| holds(new, k) == (holds(slots, k) || k == slot.key@) by {
        if holds(slots, k) {
            let j = lemma_holds_witness(slots, k);
            assert(new[j].key@ == k);
        }
        if k == slot.key@ {
            assert(new[slots.len() as int].key@ == k);
        }
        if holds(new, k) {
            let j = lemma_holds_witness(new, k);
            if j < slots.len() {
                assert(slots[j].key@ == k);
            }
        }
    }
    assert forall|k: Seq<u8>| holds(new, k) implies #[trigger] item_of(new, k) == if k
        == slot.key@ {
        slot.item@
    } else {
        item_of(slots, k)
    } by {
        let j = lemma_holds_witness(new, k);
        lemma_item_at(new, k, j);
        if j < slots.len() {
            assert(slots[j].key@ == k);
            lemma_item_at(slots, k, j);
        }
    }
}

proof fn lemma_slots_remove(slots: Seq<Slot>, i: int, shard: int, shards: int)
    requires
        unique(slots),
        homed(slots, shard, shards),
        0 <= i < slots.len(),
    ensures
        unique(slots.remove(i)),
        homed(slots.remove(i), shard, shards),
        forall|k: Seq<u8>| holds(slots.remove(i), k) == (holds(slots, k) && k != slots[i].key@),
        forall|k: Seq<u8>|
            holds(slots.remove(i), k) ==> #[trigger] item_of(slots.remove(i), k) == item_of(
                slots,
                k,
            ),
{
    let new = slots.remove(i);
    assert forall|a: int| 0 <= a < new.len() implies #[trigger] new[a] == slots[if a < i {
        a
    } else {
        a + 1
    }] by {}
    assert(unique(new)) by {
        assert forall|a: int, b: int|
            0 <= a < new.len() && 0 <= b < new.len() && a != b implies (#[trigger] new[a]).key@ != (
            #[trigger] new[b]).key@ by {
            let a0 = if a < i {
                a
            } else {
                a + 1
            };
            let b0 = if b < i {
                b
            } else {
                b + 1
            };
            assert(slots[a0].key@ != slots[b0].key@);
        }
    }
    assert(homed(new, shard, shards)) by {
        assert forall|a: int| 0 <= a < new.len() implies spec_shard(
            (#[trigger] new[a]).key@,
            shards,
        ) == shard by {
            let a0 = if a < i {
                a
            } else {
                a + 1
            };
            assert(spec_shard(slots[a0].key@, shards) == shard);
        }
    }
    assert forall|k: Seq<u8>| holds(new, k) == (holds(slots, k) && k != slots[i].key@) by {
        if holds(slots, k) && k != slots[i].key@ {
            let j = lemma_holds_witness(slots, k);
            let j0 = if j < i {
                j
            } else {
                j - 1
            };
            assert(new[j0].key@ == k);
        }
        if holds(new, k) {
            let j = lemma_holds_witness(new, k);
            let j0 = if j < i {
                j
            } else {
                j + 1
            };
            assert(slots[j0].key@ == k);
            assert(slots[j0].key@ != slots[i].key@);
        }
    }
    assert forall|k: Seq<u8>| holds(new, k) implies #[trigger] item_of(new, k) == item_of(
        slots,
        k,
    ) by {
        let j = lemma_holds_witness(new, k);
        let j0 = if j < i {
            j
        } else {
            j + 1
        };
        lemma_item_at(new, k, j);
        assert(slots[j0].key@ == k);
        lemma_item_at(slots, k, j0);
    }
}

/// The sharded map from keys to items.
#[derive(Debug)]
pub struct Catalog {
    shards: Vec<Vec<Slot>>,
}

/// What inserting `item` under `key` makes of a catalog: the item takes the
/// place of what is there only with a greater sequence.
pub open spec fn spec_insert(
    map: Map<Seq<u8>, ItemView>,
    key: Seq<u8>,
    item: ItemView,
) -> Map<Seq<u8>, ItemView> {
    if map.contains_key(key) && map[key].sequence >= item.sequence {
        map
    } else {
        map.insert(key, item)
    }
}

/// What moving the admission `sequence` of `key` to `view` makes of a catalog:
/// the view takes the place of the item of that admission. Nothing changes
/// where the key has left the catalog or holds another admission.
pub open spec fn spec_migrate(
    map: Map<Seq<u8>, ItemView>,
    key: Seq<u8>,
    sequence: Sequence,
    view: RegionView,
) -> Map<Seq<u8>, ItemView> {
    if map.contains_key(key) && map[key].sequence == sequence {
        map.insert(key, ItemView { sequence, index: IndexView::Region { view } })
    } else {
        map
    }
}

/// A catalog without the entries that are stored in the region `region_id`.
pub open spec fn spec_without_region(map: Map<Seq<u8>, ItemView>, region_id: RegionId) -> Map<
    Seq<u8>,
    ItemView,
> {
    Map::new(
        |key: Seq<u8>| map.contains_key(key) && !map[key].index.points_to(region_id),
        |key: Seq<u8>| map[key],
    )
}

impl View for Catalog {
    type V = Map<Seq<u8>, ItemView>;

    closed spec fn view(&self) -> Map<Seq<u8>, ItemView> {
        Map::new(
            |key: Seq<u8>| holds(self.home(key), key),
            |key: Seq<u8>| item_of(self.home(key), key),
        )
    }
}

impl Catalog {
    /// The number of shards.
    pub closed spec fn shards(&self) -> nat {
        self.shards@.len()
    }

    /// The slots of the shard that `key` belongs to.
    closed spec fn home(&self, key: Seq<u8>) -> Seq<Slot> {
        self.shards@[spec_shard(key, self.shards@.len() as int)]@
    }

    /// Every key is kept once, in the shard it belongs to.
    pub closed spec fn wf(&self) -> bool {
        &&& self.shards@.len() > 0
        &&& forall|s: int|
            0 <= s < self.shards@.len() ==> unique((#[trigger] self.shards@[s])@) && homed(
                self.shards@[s]@,
                s,
                self.shards@.len() as int,
            )
    }

    /// An empty catalog of `2^bits` shards.
    pub fn new(bits: usize) -> (catalog: Catalog)
        requires
            bits < 32,
        ensures
            catalog.wf(),
            catalog@ == Map::<Seq<u8>, ItemView>::empty(),
            catalog.shards() == vstd::arithmetic::power2::pow2(bits as nat),
    {
        let mut shards: Vec<Vec<Slot>> = Vec::new();
        shards.push(Vec::new());
        let mut i: usize = 0;
        proof {
            vstd::arithmetic::power2::lemma2_to64();
        }
        while i < bits
            invariant
                i <= bits < 32,
                shards@.len() == vstd::arithmetic::power2::pow2(i as nat),
                shards@.len() <= 0x8000_0000,
                forall|s: int| 0 <= s < shards@.len() ==> (#[trigger] shards@[s])@.len() == 0,
            decreases bits - i,
        {
            proof {
                vstd::arithmetic::power2::lemma_pow2_unfold((i + 1) as nat);
                vstd::arithmetic::power2::lemma_pow2_strictly_increases(i as nat, 31);
                vstd::arithmetic::power2::lemma2_to64();
            }
            let n = shards.len();
            let mut j: usize = 0;
            while j < n
                invariant
                    j <= n,
                    n <= 0x4000_0000,
                    shards@.len() == n + j,
                    forall|s: int| 0 <= s < shards@.len() ==> (#[trigger] shards@[s])@.len() == 0,
                decreases n - j,
            {
                shards.push(Vec::new());
                j += 1;
            }
            i += 1;
        }
        let catalog = Catalog { shards };
        proof {
            assert forall|s: int| 0 <= s < catalog.shards@.len() implies unique(
                (#[trigger] catalog.shards@[s])@,
            ) && homed(catalog.shards@[s]@, s, catalog.shards@.len() as int) by {}
            assert forall|key: Seq<u8>| !holds(catalog.home(key), key) by {
                let n = catalog.shards@.len() as int;
                assert(0 <= spec_shard(key, n) < n);
            }
            assert(catalog@ =~= Map::<Seq<u8>, ItemView>::empty());
        }
        catalog
    }

    /// The shard that `key` belongs to.
    fn shard_of(&self, key: &[u8]) -> (s: usize)
        requires
            self.wf(),
        ensures
            s == spec_shard(key@, self.shards@.len() as int),
            s < self.shards@.len(),
    {
        let n = self.shards.len() as u64;
        (checksum(key) % n) as usize
    }

    /// The slot of `key` among `slots`.
    fn find(slots: &Vec<Slot>, key: &[u8]) -> (at: Option<usize>)
        ensures
            match at {
                Some(i) => i < slots@.len() && slots@[i as int].key@ == key@,
                None => !holds(slots@, key@),
            },
    {
        let mut i: usize = 0;
        while i < slots.len()
            invariant
                i <= slots@.len(),
                forall|j: int| 0 <= j < i ==> (#[trigger] slots@[j]).key@ != key@,
            decreases slots@.len() - i,
        {
            if bytes_eq(slots[i].key.as_slice(), key) {
                return Some(i);
            }
            i += 1;
        }
        None
    }

    /// The item of `key`, where the catalog has one.
    pub fn lookup(&self, key: &[u8]) -> (item: Option<Item>)
        requires
            self.wf(),
        ensures
            match item {
                Some(item) => self@.contains_key(key@) && self@[key@] == item@,
                None => !self@.contains_key(key@),
            },
    {
        let s = self.shard_of(key);
        match Self::find(&self.shards[s], key) {
            Some(i) => {
                proof {
                    lemma_item_at(self.shards@[s as int]@, key@, i as int);
                }
                Some(self.shards[s][i].item.duplicate())
            },
            None => None,
        }
    }

    /// Where one shard has changed in the slot of one key only, the catalog
    /// has changed in the entry of that key only.
    proof fn lemma_shard_changed(
        before: Catalog,
        after: Catalog,
        s: int,
        key: Seq<u8>,
        item: Option<ItemView>,
    )
        requires
            before.wf(),
            after.shards@.len() == before.shards@.len(),
            0 <= s < before.shards@.len(),
            spec_shard(key, before.shards@.len() as int) == s,
            forall|t: int|
                0 <= t < before.shards@.len() && t != s ==> #[trigger] after.shards@[t]
                    == before.shards@[t],
            unique(after.shards@[s]@),
            homed(after.shards@[s]@, s, before.shards@.len() as int),
            forall|k: Seq<u8>|
                k != key ==> holds(after.shards@[s]@, k) == holds(before.shards@[s]@, k),
            forall|k: Seq<u8>|
                k != key && holds(before.shards@[s]@, k) ==> #[trigger] item_of(
                    after.shards@[s]@,
                    k,
                ) == item_of(before.shards@[s]@, k),
            match item {
                Some(item) => holds(after.shards@[s]@, key) && item_of(after.shards@[s]@, key)
                    == item,
                None => !holds(after.shards@[s]@, key),
            },
        ensures
            after.wf(),
            after@ == match item {
                Some(item) => before@.insert(key, item),
                None => before@.remove(key),
            },
    {
        let n = before.shards@.len() as int;
        assert forall|t: int| 0 <= t < after.shards@.len() implies unique(
            (#[trigger] after.shards@[t])@,
        ) && homed(after.shards@[t]@, t, after.shards@.len() as int) by {
            if t != s {
                assert(after.shards@[t] == before.shards@[t]);
                assert(unique(before.shards@[t]@));
            }
        }
        let expected = match item {
            Some(item) => before@.insert(key, item),
            None => before@.remove(key),
        };
        assert forall|k: Seq<u8>| #[trigger]
            after@.contains_key(k) == expected.contains_key(k) && (after@.contains_key(k)
                ==> after@[k] == expected[k]) by {
            let t = spec_shard(k, n);
            assert(0 <= t < n);
            if t != s {
                assert(after.shards@[t] == before.shards@[t]);
                assert(k != key);
            } else if k != key {
                assert(holds(after.shards@[s]@, k) == holds(before.shards@[s]@, k));
                if holds(before.shards@[s]@, k) {
                    assert(item_of(after.shards@[s]@, k) == item_of(before.shards@[s]@, k));
                }
            }
        }
        assert(after@ =~= expected);
    }

    /// Puts `item` in the catalog under `key`. Where the catalog has an item
    /// for the key already, the new one takes its place only with a greater
    /// sequence, and is dropped otherwise.
    pub fn insert(&mut self, key: Vec<u8>, item: Item)
        requires
            old(self).wf(),
        ensures
            final(self).wf(),
            final(self).shards() == old(self).shards(),
            final(self)@ == spec_insert(old(self)@, key@, item@),
    {
        let s = self.shard_of(key.as_slice());
        let ghost before = *self;
        let ghost slots = self.shards@[s as int]@;
        let ghost n = self.shards@.len() as int;
        match Self::find(&self.shards[s], key.as_slice()) {
            Some(i) => {
                proof {
                    lemma_item_at(slots, key@, i as int);
                }
                if self.shards[s][i].item.sequence < item.sequence {
                    let slot = Slot { key, item };
                    self.shards[s].set(i, slot);
                    proof {
                        lemma_slots_update(slots, i as int, slot, s as int, n);
                        lemma_item_at(self.shards@[s as int]@, key@, i as int);
                        Self::lemma_shard_changed(before, *self, s as int, key@, Some(item@));
                    }
                } else {
                    proof {
                        assert(self@.contains_key(key@));
                    }
                }
            },
            None => {
                let slot = Slot { key, item };
                self.shards[s].push(slot);
                proof {
                    lemma_slots_push(slots, slot, s as int, n);
                    Self::lemma_shard_changed(before, *self, s as int, key@, Some(item@));
                }
            },
        }
    }

    /// Moves the admission `sequence` of `key` to `view`. Nothing changes
    /// where the key has left the catalog or holds another admission.
    pub fn migrate(&mut self, key: &[u8], sequence: Sequence, view: RegionView) -> (moved: bool)
        requires
            old(self).wf(),
        ensures
            final(self).wf(),
            final(self).shards() == old(self).shards(),
            final(self)@ == spec_migrate(old(self)@, key@, sequence, view),
            moved == (old(self)@.contains_key(key@) && old(self)@[key@].sequence == sequence),
    {
        let s = self.shard_of(key);
        let ghost before = *self;
        let ghost slots = self.shards@[s as int]@;
        let ghost n = self.shards@.len() as int;
        match Self::find(&self.shards[s], key) {
            Some(i) => {
                proof {
                    lemma_item_at(slots, key@, i as int);
                }
                if self.shards[s][i].item.sequence == sequence {
                    let item = Item::new(sequence, Index::Region { view });
                    let slot = Slot { key: slice_to_vec(key), item };
                    self.shards[s].set(i, slot);
                    proof {
                        lemma_slots_update(slots, i as int, slot, s as int, n);
                        lemma_item_at(self.shards@[s as int]@, key@, i as int);
                        Self::lemma_shard_changed(before, *self, s as int, key@, Some(item@));
                    }
                    true
                } else {
                    false
                }
            },
            None => false,
        }
    }

    /// Takes the item of `key` out of the catalog.
    pub fn remove(&mut self, key: &[u8]) -> (item: Option<Item>)
        requires
            old(self).wf(),
        ensures
            final(self).wf(),
            final(self).shards() == old(self).shards(),
            final(self)@ == old(self)@.remove(key@),
            match item {
                Some(item) => old(self)@.contains_key(key@) && old(self)@[key@] == item@,
                None => !old(self)@.contains_key(key@),
            },
    {
        let s = self.shard_of(key);
        let ghost before = *self;
        let ghost slots = self.shards@[s as int]@;
        let ghost n = self.shards@.len() as int;
        match Self::find(&self.shards[s], key) {
            Some(i) => {
                proof {
                    lemma_item_at(slots, key@, i as int);
                }
                let slot = self.shards[s].remove(i);
                proof {
                    lemma_slots_remove(slots, i as int, s as int, n);
                    Self::lemma_shard_changed(before, *self, s as int, key@, None);
                }
                Some(slot.item)
            },
            None => {
                proof {
                    assert(self@.remove(key@) =~= self@);
                }
                None
            },
        }
    }

    /// Empties the catalog.
    pub fn clear(&mut self)
        requires
            old(self).wf(),
        ensures
            final(self).wf(),
            final(self).shards() == old(self).shards(),
            final(self)@ == Map::<Seq<u8>, ItemView>::empty(),
    {
        let n = self.shards.len();
        let mut s: usize = 0;
        while s < n
            invariant
                s <= n,
                n == self.shards@.len(),
                n > 0,
                forall|t: int| 0 <= t < s ==> (#[trigger] self.shards@[t])@.len() == 0,
                forall|t: int|
                    s <= t < n ==> unique((#[trigger] self.shards@[t])@) && homed(
                        self.shards@[t]@,
                        t,
                        n as int,
                    ),
            decreases n - s,
        {
            self.shards[s].clear();
            s += 1;
        }
        proof {
            assert forall|t: int| 0 <= t < self.shards@.len() implies unique(
                (#[trigger] self.shards@[t])@,
            ) && homed(self.shards@[t]@, t, self.shards@.len() as int) by {}
            assert forall|key: Seq<u8>| !holds(self.home(key), key) by {
                assert(0 <= spec_shard(key, n as int) < n);
            }
            assert(self@ =~= Map::<Seq<u8>, ItemView>::empty());
        }
    }

    /// No slot of the shards before `s`, nor of the first `i` slots of shard
    /// `s`, is stored in the region `region_id`.
    spec fn swept(&self, region_id: RegionId, s: int, i: int) -> bool {
        &&& forall|t: int, j: int|
            0 <= t < s && 0 <= j < self.shards@[t]@.len() ==> !(
            #[trigger] self.shards@[t]@[j]).item@.index.points_to(region_id)
        &&& s < self.shards@.len() ==> forall|j: int|
            0 <= j < i ==> !(#[trigger] self.shards@[s]@[j]).item@.index.points_to(region_id)
    }

    /// Takes out of the catalog every entry that is stored in the region
    /// `region_id`, and returns them, each key once.
    pub fn take_region(&mut self, region_id: RegionId) -> (taken: Vec<(Vec<u8>, Item)>)
        requires
            old(self).wf(),
        ensures
            final(self).wf(),
            final(self).shards() == old(self).shards(),
            final(self)@ == spec_without_region(old(self)@, region_id),
            forall|j: int|
                0 <= j < taken@.len() ==> {
                    &&& old(self)@.contains_key((#[trigger] taken@[j]).0@)
                    &&& old(self)@[taken@[j].0@] == taken@[j].1@
                    &&& taken@[j].1@.index.points_to(region_id)
                },
            forall|key: Seq<u8>|
                old(self)@.contains_key(key) && old(self)@[key].index.points_to(region_id)
                    ==> exists|j: int| 0 <= j < taken@.len() && (#[trigger] taken@[j]).0@ == key,
            forall|i: int, j: int|
                0 <= i < taken@.len() && 0 <= j < taken@.len() && i != j ==> (
                #[trigger] taken@[i]).0@ != (#[trigger] taken@[j]).0@,
    {
        let mut taken: Vec<(Vec<u8>, Item)> = Vec::new();
        let n = self.shards.len();
        let ghost orig = self@;
        let mut s: usize = 0;
        while s < n
            invariant
                s <= n,
                n == self.shards@.len(),
                n == old(self).shards@.len(),
                self.wf(),
                orig == old(self)@,
                self.swept(region_id, s as int, 0),
                forall|k: Seq<u8>| #[trigger]
                    self@.contains_key(k) ==> orig.contains_key(k) && self@[k] == orig[k],
                forall|k: Seq<u8>|
                    orig.contains_key(k) && !self@.contains_key(k) ==> exists|j: int|
                        0 <= j < taken@.len() && (#[trigger] taken@[j]).0@ == k,
                forall|j: int|
                    0 <= j < taken@.len() ==> {
                        &&& orig.contains_key((#[trigger] taken@[j]).0@)
                        &&& orig[taken@[j].0@] == taken@[j].1@
                        &&& taken@[j].1@.index.points_to(region_id)
                        &&& !self@.contains_key(taken@[j].0@)
                    },
                forall|i: int, j: int|
                    0 <= i < taken@.len() && 0 <= j < taken@.len() && i != j ==> (
                    #[trigger] taken@[i]).0@ != (#[trigger] taken@[j]).0@,
            decreases n - s,
        {
            let mut i: usize = 0;
            while i < self.shards[s].len()
                invariant
                    s < n,
                    n == self.shards@.len(),
                    n == old(self).shards@.len(),
                    i <= self.shards@[s as int]@.len(),
                    self.wf(),
                    orig == old(self)@,
                    self.swept(region_id, s as int, i as int),
                    forall|k: Seq<u8>| #[trigger]
                        self@.contains_key(k) ==> orig.contains_key(k) && self@[k] == orig[k],
                    forall|k: Seq<u8>|
                        orig.contains_key(k) && !self@.contains_key(k) ==> exists|j: int|
                            0 <= j < taken@.len() && (#[trigger] taken@[j]).0@ == k,
                    forall|j: int|
                        0 <= j < taken@.len() ==> {
                            &&& orig.contains_key((#[trigger] taken@[j]).0@)
                            &&& orig[taken@[j].0@] == taken@[j].1@
                            &&& taken@[j].1@.index.points_to(region_id)
                            &&& !self@.contains_key(taken@[j].0@)
                        },
                    forall|i: int, j: int|
                        0 <= i < taken@.len() && 0 <= j < taken@.len() && i != j ==> (
                        #[trigger] taken@[i]).0@ != (#[trigger] taken@[j]).0@,
                decreases self.shards@[s as int]@.len() - i,
            {
                if self.shards[s][i].item.index.points_to(region_id) {
                    let ghost before = *self;
                    let ghost slots = self.shards@[s as int]@;
                    let ghost was = taken@;
                    let slot = self.shards[s].remove(i);
                    let ghost key = slot.key@;
                    proof {
                        assert(slot == slots[i as int]);
                        lemma_item_at(slots, key, i as int);
                        lemma_slots_remove(slots, i as int, s as int, n as int);
                        assert(spec_shard(key, n as int) == s);
                        Self::lemma_shard_changed(before, *self, s as int, key, None);
                        assert(before@.contains_key(key) && before@[key] == slot.item@);
                    }
                    taken.push((slot.key, slot.item));
                    proof {
                        let last = was.len() as int;
                        assert(taken@[last].0@ == key);
                        assert forall|j: int| 0 <= j < taken@.len() implies {
                            &&& orig.contains_key((#[trigger] taken@[j]).0@)
                            &&& orig[taken@[j].0@] == taken@[j].1@
                            &&& taken@[j].1@.index.points_to(region_id)
                            &&& !self@.contains_key(taken@[j].0@)
                        } by {
                            if j < last {
                                assert(taken@[j] == was[j]);
                            }
                        }
                        assert forall|a: int, b: int|
                            0 <= a < taken@.len() && 0 <= b < taken@.len() && a != b implies (
                        #[trigger] taken@[a]).0@ != (#[trigger] taken@[b]).0@ by {
                            if a < last {
                                assert(taken@[a] == was[a]);
                            }
                            if b < last {
                                assert(taken@[b] == was[b]);
                            }
                        }
                        assert forall|k: Seq<u8>|
                            orig.contains_key(k) && !self@.contains_key(k) implies exists|j: int|
                            0 <= j < taken@.len() && (#[trigger] taken@[j]).0@ == k by {
                            if k == key {
                                assert(taken@[last].0@ == k);
                            } else {
                                assert(!before@.contains_key(k));
                                let j = choose|j: int|
                                    0 <= j < was.len() && (#[trigger] was[j]).0@ == k;
                                assert(taken@[j] == was[j]);
                            }
                        }
                        assert(self.swept(region_id, s as int, i as int)) by {
                            assert forall|t: int, j: int|
                                0 <= t < s && 0 <= j < self.shards@[t]@.len() implies !(
                            #[trigger] self.shards@[t]@[j]).item@.index.points_to(region_id) by {
                                assert(self.shards@[t] == before.shards@[t]);
                            }
                            assert forall|j: int| 0 <= j < i implies !(
                            #[trigger] self.shards@[s as int]@[j]).item@.index.points_to(
                                region_id,
                            ) by {
                                assert(self.shards@[s as int]@[j] == slots[j]);
                            }
                        }
                    }
                } else {
                    i += 1;
                }
            }
            s += 1;
            proof {
                assert(self.swept(region_id, s as int, 0)) by {
                    assert forall|t: int, j: int|
                        0 <= t < s && 0 <= j < self.shards@[t]@.len() implies !(
                    #[trigger] self.shards@[t]@[j]).item@.index.points_to(region_id) by {}
                }
            }
        }
        proof {
            assert forall|k: Seq<u8>| self@.contains_key(k) implies !self@[k].index.points_to(
                region_id,
            ) by {
                let t = spec_shard(k, n as int);
                assert(0 <= t < n);
                let j = lemma_holds_witness(self.shards@[t]@, k);
                lemma_item_at(self.shards@[t]@, k, j);
                assert(!self.shards@[t]@[j].item@.index.points_to(region_id));
            }
            assert forall|k: Seq<u8>|
                orig.contains_key(k) && !orig[k].index.points_to(
                    region_id,
                ) implies self@.contains_key(k) by {
                if !self@.contains_key(k) {
                    let j = choose|j: int| 0 <= j < taken@.len() && (#[trigger] taken@[j]).0@ == k;
                    assert(taken@[j].1@.index.points_to(region_id));
                }
            }
            assert(self@ =~= spec_without_region(orig, region_id));
            assert forall|key: Seq<u8>|
                orig.contains_key(key) && orig[key].index.points_to(region_id) implies exists|
                j: int,
            | 0 <= j < taken@.len() && (#[trigger] taken@[j]).0@ == key by {
                if self@.contains_key(key) {
                    assert(self@[key] == orig[key]);
                }
            }
        }
        taken
    }
}

/// The latest admission wins, in whatever order two flushes of one key land:
/// where the catalog holds the later of two admissions of a key, moving both
/// to their regions leaves the key at the view of the later one.
pub proof fn lemma_last_write_wins(
    map: Map<Seq<u8>, ItemView>,
    key: Seq<u8>,
    first: Sequence,
    second: Sequence,
    first_view: RegionView,
    second_view: RegionView,
)
    requires
        first < second,
        map.contains_key(key),
        map[key].sequence == second,
    ensures
        spec_migrate(spec_migrate(map, key, first, first_view), key, second, second_view)[key]
            == (ItemView { sequence: second, index: IndexView::Region { view: second_view } }),
        spec_migrate(spec_migrate(map, key, second, second_view), key, first, first_view)[key]
            == (ItemView { sequence: second, index: IndexView::Region { view: second_view } }),
        spec_migrate(spec_migrate(map, key, first, first_view), key, second, second_view)
            == spec_migrate(spec_migrate(map, key, second, second_view), key, first, first_view),
{
}

/// Of two items for one key the one with the greater sequence stays, in
/// whatever order they are inserted.
pub proof fn lemma_insert_order(
    map: Map<Seq<u8>, ItemView>,
    key: Seq<u8>,
    a: ItemView,
    b: ItemView,
)
    requires
        a.sequence < b.sequence,
    ensures
        spec_insert(spec_insert(map, key, a), key, b) == spec_insert(
            spec_insert(map, key, b),
            key,
            a,
        ),
        spec_insert(spec_insert(map, key, a), key, b).contains_key(key),
        spec_insert(spec_insert(map, key, a), key, b)[key].sequence >= b.sequence,
        !(map.contains_key(key) && map[key].sequence >= b.sequence) ==> spec_insert(
            spec_insert(map, key, a),
            key,
            b,
        )[key] == b,
{
    assert(spec_insert(spec_insert(map, key, a), key, b) =~= spec_insert(
        spec_insert(map, key, b),
        key,
        a,
    ));
}

} // verus!
