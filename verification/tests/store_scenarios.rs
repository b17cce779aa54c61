use std::collections::{BTreeSet, VecDeque};

use foyer_storage::catalog::{Index, Item};
use foyer_storage::compress::Compression;
use foyer_storage::error::Error;
use foyer_storage::flusher::{Entry, Flush};
use foyer_storage::generic::{Applied, DeviceConfig, GenericStore, GenericStoreConfig, Lookup, Reclaim};
use foyer_storage::reclaimer::ReclaimTask;
use foyer_storage::region::RegionView;
use foyer_storage::region_manager::{EvictionConfig, Phase};
use foyer_storage::writer::{Notice, Terminal};

const KB: usize = 1024;
const MB: usize = 1024 * 1024;

fn config(regions: usize, region_size: usize, align: usize, io_size: usize) -> GenericStoreConfig {
    GenericStoreConfig {
        eviction_config: EvictionConfig::Fifo,
        device_config: DeviceConfig { regions, region_size, align, io_size },
        catalog_bits: 1,
        admissions: 1,
        reinsertions: 1,
        flushers: 1,
        reclaimers: 1,
        clean_region_threshold: 1,
        recover_concurrency: 2,
        compression: Compression::Off,
    }
}

fn key_of(k: u64) -> Vec<u8> {
    k.to_be_bytes().to_vec()
}

/// A store with a device in memory, flushers and a reclaimer that run when
/// they are pumped, and a recorder of which keys should still be found.
struct Harness {
    store: GenericStore,
    device: Vec<Vec<u8>>,
    queues: Vec<VecDeque<Entry>>,
    remains: BTreeSet<Vec<u8>>,
    notices: Vec<Notice>,
}

impl Harness {
    fn open(config: GenericStoreConfig, device: Vec<Vec<u8>>) -> Harness {
        let mut store = GenericStore::open(config).unwrap();
        for (id, image) in device.iter().enumerate() {
            store.recover_region(id as u32, image.clone());
        }
        store.recover();
        assert!(store.is_ready());
        Harness {
            store,
            device,
            queues: (0..config.flushers).map(|_| VecDeque::new()).collect(),
            remains: BTreeSet::new(),
            notices: Vec::new(),
        }
    }

    fn fresh(config: GenericStoreConfig) -> Harness {
        let device = vec![vec![0u8; config.device_config.region_size]; config.device_config.regions];
        Harness::open(config, device)
    }

    fn submit(&mut self, applied: Applied) -> bool {
        match applied {
            Applied::Inserted { notices, flusher, entry } => {
                self.notices.extend(notices);
                self.remains.insert(entry.key.clone());
                self.queues[flusher].push_back(entry);
                true
            }
            Applied::Rejected { notices } => {
                self.notices.extend(notices);
                false
            }
            Applied::Failed { notices, .. } => {
                self.notices.extend(notices);
                false
            }
        }
    }

    fn insert(&mut self, key: u64, value: Vec<u8>) -> bool {
        let verdicts = vec![true; self.store.config().admissions];
        let applied = self.store.insert(key_of(key), value, &verdicts);
        let inserted = self.submit(applied);
        self.pump();
        inserted
    }

    fn write_region(&mut self, id: u32) {
        let region = self.store.region_manager().region(id);
        self.device[id as usize] = region.buffer().unwrap().to_vec();
    }

    fn reclaim(&mut self) -> bool {
        let mut reclaimed = false;
        while let Some(task) = self.store.reclaim_task() {
            match self.store.reclaim(&task) {
                Reclaim::Done { taken, wipe } => {
                    for (key, _) in taken {
                        self.remains.remove(&key);
                    }
                    self.device[task.region_id as usize][..wipe].fill(0);
                    reclaimed = true;
                }
                Reclaim::Busy => break,
            }
        }
        reclaimed
    }

    fn flush_one(&mut self, flusher: usize) -> bool {
        let Some(entry) = self.queues[flusher].pop_front() else {
            return false;
        };
        loop {
            self.reclaim();
            match self.store.flush(flusher, &entry) {
                Flush::Written { .. } | Flush::Skipped(_) => return true,
                Flush::Seal { region_id } => {
                    self.write_region(region_id);
                    assert!(self.store.sealed(flusher));
                }
                Flush::Wait => {
                    assert!(self.reclaim(), "no clean region and nothing to reclaim");
                }
            }
        }
    }

    fn pump(&mut self) {
        for flusher in 0..self.queues.len() {
            while self.flush_one(flusher) {}
        }
        self.reclaim();
    }

    fn close(&mut self) {
        self.store.close();
        self.pump();
        for flusher in 0..self.queues.len() {
            if let Some(id) = self.store.finish_flusher(flusher) {
                self.write_region(id);
                assert!(self.store.sealed(flusher));
            }
        }
    }

    fn lookup(&mut self, key: u64) -> Result<Option<Vec<u8>>, Error> {
        let key = key_of(key);
        match self.store.lookup(&key) {
            Lookup::Miss => Ok(None),
            Lookup::Hit(value) => Ok(Some(value)),
            Lookup::Failed(e) => Err(e),
            Lookup::Read { view, reads } => {
                let mut buf = Vec::new();
                for read in reads {
                    let region = &self.device[view.region_id as usize];
                    buf.extend_from_slice(&region[read.offset..read.offset + read.len]);
                }
                assert_eq!(buf.len(), view.len as usize);
                self.store.complete_lookup(&key, view.region_id, Ok(Some(buf)))
            }
        }
    }

    fn counts(&self) -> (usize, usize, usize) {
        let manager = self.store.region_manager();
        (manager.clean_regions(), manager.active_regions(), manager.sealed_regions())
    }
}

#[test]
fn insert_lookup_remove() {
    let mut h = Harness::fresh(config(4, 4 * MB, 4 * KB, 4 * KB));
    assert!(h.insert(42, vec![0xAB; MB]));
    assert_eq!(h.lookup(42), Ok(Some(vec![0xAB; MB])));
    assert!(h.store.remove(&key_of(42)));
    assert_eq!(h.lookup(42), Ok(None));
    assert!(!h.store.remove(&key_of(42)));
}

#[test]
fn lookup_of_inflight_entry_hits_before_any_flush() {
    let mut h = Harness::fresh(config(4, 64 * KB, 4 * KB, 4 * KB));
    let applied = h.store.insert(key_of(1), vec![7; 100], &[true]);
    assert!(h.submit(applied));
    // Nothing has been flushed yet.
    assert_eq!(h.counts(), (4, 0, 0));
    assert_eq!(h.lookup(1), Ok(Some(vec![7; 100])));
    h.pump();
    assert_eq!(h.counts(), (3, 1, 0));
    assert_eq!(h.lookup(1), Ok(Some(vec![7; 100])));
}

#[test]
fn fill_and_flush() {
    let mut h = Harness::fresh(config(4, 4 * MB, 4 * KB, 4 * KB));
    for i in 0..21u64 {
        assert!(h.insert(i, vec![i as u8; MB]));
        let (clean, active, sealed) = h.counts();
        assert_eq!(clean + active + sealed, 4);
    }
    h.close();
    // The oldest entries have been evicted.
    assert!(!h.remains.contains(&key_of(0)));
    assert!(h.remains.contains(&key_of(20)));
    for i in 0..21u64 {
        if h.remains.contains(&key_of(i)) {
            assert_eq!(h.lookup(i).unwrap().unwrap(), vec![i as u8; MB]);
        } else {
            assert!(h.lookup(i).unwrap().is_none());
        }
    }
}

#[test]
fn test_recovery() {
    let mut first = Harness::fresh(config(4, 4 * MB, 4 * KB, 4 * KB));
    for i in 0..21u64 {
        first.insert(i, vec![i as u8; 1 * MB]);
    }
    first.close();
    let remains = first.remains.clone();
    for i in 0..21u64 {
        if remains.contains(&key_of(i)) {
            assert_eq!(first.lookup(i).unwrap().unwrap(), vec![i as u8; 1 * MB]);
        } else {
            assert!(first.lookup(i).unwrap().is_none());
        }
    }
    let device = first.device;

    let mut reopened = config(4, 4 * MB, 4096, 4096 * KB);
    reopened.admissions = 0;
    reopened.reinsertions = 0;
    reopened.reclaimers = 0;
    let mut second = Harness::open(reopened, device);
    // The region that was reclaimed last holds nothing valid any more.
    assert_eq!(second.store.recovered_regions(), 3);
    assert_eq!(second.counts(), (1, 0, 3));
    for i in 0..21u64 {
        if remains.contains(&key_of(i)) {
            assert_eq!(second.lookup(i).unwrap().unwrap(), vec![i as u8; 1 * MB]);
        } else {
            assert!(second.lookup(i).unwrap().is_none());
        }
    }
    // The next admission is tagged behind every recovered one.
    assert_eq!(second.store.sequence(), 22);
    second.close();
}

#[test]
fn recovery_prefers_the_latest_admission_of_a_key() {
    let mut first = Harness::fresh(config(4, 64 * KB, 4 * KB, 4 * KB));
    first.insert(5, vec![1; 30 * KB]);
    first.insert(6, vec![2; 30 * KB]);
    first.insert(5, vec![3; 30 * KB]);
    first.close();
    let mut second = Harness::open(config(4, 64 * KB, 4 * KB, 4 * KB), first.device);
    assert_eq!(second.lookup(5), Ok(Some(vec![3; 30 * KB])));
    assert_eq!(second.lookup(6), Ok(Some(vec![2; 30 * KB])));
}

#[test]
fn version_reuse_safety() {
    let mut h = Harness::fresh(config(4, 64 * KB, 4 * KB, 4 * KB));
    h.insert(9, vec![9; 40 * KB]);
    // The next entry does not fit behind the first: the region is sealed.
    h.insert(10, vec![10; 40 * KB]);
    let key = key_of(9);
    let item = h.store.catalog().lookup(&key).unwrap();
    let view = match item.index() {
        Index::Region { view } => *view,
        Index::Inflight { .. } => panic!("the entry is flushed"),
    };
    assert_eq!(h.store.region_manager().phase(view.region_id), Phase::Sealed);
    assert_eq!(view.version, h.store.region_manager().region(view.region_id).version());
    // The lookup stalls here, and the region is reclaimed meanwhile.
    let task = ReclaimTask { region_id: view.region_id };
    assert!(matches!(h.store.reclaim(&task), Reclaim::Done { .. }));
    assert_eq!(h.store.region_manager().region(view.region_id).version(), view.version + 1);
    assert!(matches!(h.store.load(&key, &view), Lookup::Miss));
    assert!(!h.store.contains(&key));
    assert_eq!(h.lookup(9), Ok(None));
}

#[test]
fn reader_keeps_a_region_from_reclaim() {
    let mut h = Harness::fresh(config(4, 64 * KB, 4 * KB, 4 * KB));
    h.insert(9, vec![9; 40 * KB]);
    h.insert(10, vec![10; 40 * KB]);
    let key = key_of(9);
    let Lookup::Read { view, reads } = h.store.lookup(&key) else {
        panic!("the entry is on the device");
    };
    assert_eq!(reads.len(), (view.len as usize + 4 * KB - 1) / (4 * KB));
    let task = ReclaimTask { region_id: view.region_id };
    assert!(matches!(h.store.reclaim(&task), Reclaim::Busy));
    let start = view.offset as usize;
    let bytes = h.device[view.region_id as usize][start..start + view.len as usize].to_vec();
    assert_eq!(
        h.store.complete_lookup(&key, view.region_id, Ok(Some(bytes))),
        Ok(Some(vec![9; 40 * KB]))
    );
    assert!(matches!(h.store.reclaim(&task), Reclaim::Done { .. }));
}

#[test]
fn admission_force() {
    let mut h = Harness::fresh(config(4, 64 * KB, 4 * KB, 4 * KB));
    // A policy that judges false.
    let verdicts = [false];

    let writer = h.store.writer(key_of(1), 10);
    let applied = writer.finish(&mut h.store, &verdicts, vec![1; 2]);
    match applied {
        Applied::Rejected { notices } => {
            assert_eq!(notices, vec![Notice { policy: 0, terminal: Terminal::Dropped, judge: false }]);
        }
        other => panic!("{:?}", other),
    }
    assert!(!h.store.contains(&key_of(1)));

    let mut writer = h.store.writer(key_of(1), 10);
    writer.force();
    let applied = writer.finish(&mut h.store, &verdicts, vec![1; 2]);
    match &applied {
        Applied::Inserted { notices, .. } => {
            assert_eq!(
                notices,
                &vec![Notice { policy: 0, terminal: Terminal::Inserted, judge: false }]
            );
        }
        other => panic!("{:?}", other),
    }
    assert!(h.submit(applied));
    h.pump();
    assert_eq!(h.lookup(1), Ok(Some(vec![1; 2])));
}

#[test]
fn parallel_flushers_preserve_last_write_wins() {
    let mut cfg = config(4, 64 * KB, 4 * KB, 4 * KB);
    cfg.flushers = 2;
    let mut h = Harness::fresh(cfg);
    let first = h.store.insert(key_of(7), vec![1; 100], &[true]);
    let second = h.store.insert(key_of(7), vec![2; 100], &[true]);
    let (s1, f1) = match &first {
        Applied::Inserted { entry, flusher, .. } => (entry.sequence, *flusher),
        other => panic!("{:?}", other),
    };
    let (s2, f2) = match &second {
        Applied::Inserted { entry, flusher, .. } => (entry.sequence, *flusher),
        other => panic!("{:?}", other),
    };
    assert!(s1 < s2);
    // The sequence selects the flusher.
    assert_eq!((f1, f2), ((s1 % 2) as usize, (s2 % 2) as usize));
    assert_ne!(f1, f2);
    h.submit(first);
    h.submit(second);
    // The later admission lands first.
    assert!(h.flush_one(f2));
    let landed = h.store.catalog().lookup(&key_of(7)).unwrap();
    assert_eq!(*landed.sequence(), s2);
    assert!(h.flush_one(f1));
    let item: Item = h.store.catalog().lookup(&key_of(7)).unwrap();
    assert_eq!(*item.sequence(), s2);
    match (landed.index(), item.index()) {
        (Index::Region { view: before }, Index::Region { view: after }) => assert_eq!(before, after),
        other => panic!("{:?}", other),
    }
    assert_eq!(h.lookup(7), Ok(Some(vec![2; 100])));
}

#[test]
fn sequences_increase_across_admissions() {
    let mut h = Harness::fresh(config(4, 64 * KB, 4 * KB, 4 * KB));
    let mut last = None;
    for i in 0..10u64 {
        let before = h.store.sequence();
        let applied = h.store.insert(key_of(i), vec![0; 10], &[true]);
        let Applied::Inserted { entry, .. } = &applied else {
            panic!("{:?}", applied);
        };
        assert_eq!(entry.sequence, before);
        assert_eq!(h.store.sequence(), before + 1);
        if let Some(last) = last {
            assert!(entry.sequence > last);
        }
        last = Some(entry.sequence);
        h.submit(applied);
    }
}

#[test]
fn rejected_entry_changes_nothing_and_tells_every_policy() {
    let mut cfg = config(4, 64 * KB, 4 * KB, 4 * KB);
    cfg.admissions = 3;
    let mut h = Harness::fresh(cfg);
    let before = h.store.sequence();
    let applied = h.store.insert(key_of(1), vec![1; 10], &[true, false, true]);
    match applied {
        Applied::Rejected { notices } => assert_eq!(
            notices,
            vec![
                Notice { policy: 0, terminal: Terminal::Dropped, judge: true },
                Notice { policy: 1, terminal: Terminal::Dropped, judge: false },
                Notice { policy: 2, terminal: Terminal::Dropped, judge: true },
            ]
        ),
        other => panic!("{:?}", other),
    }
    assert_eq!(h.store.sequence(), before);
    assert!(!h.store.contains(&key_of(1)));
}

#[test]
fn configuration_is_checked_at_open() {
    let ok = config(4, 64 * KB, 4 * KB, 4 * KB);
    assert!(GenericStore::open(ok).is_ok());

    let mut too_many_flushers = ok;
    too_many_flushers.flushers = 3;
    assert_eq!(GenericStore::open(too_many_flushers).err(), Some(Error::Configuration));

    let mut low_threshold = ok;
    low_threshold.reclaimers = 2;
    assert_eq!(GenericStore::open(low_threshold).err(), Some(Error::Configuration));

    let unaligned = config(4, 64 * KB + 1, 4 * KB, 4 * KB);
    assert_eq!(GenericStore::open(unaligned).err(), Some(Error::Configuration));

    let no_io = config(4, 64 * KB, 4 * KB, 0);
    assert_eq!(GenericStore::open(no_io).err(), Some(Error::Configuration));

    let mut many_policies = ok;
    many_policies.admissions = 65;
    assert_eq!(GenericStore::open(many_policies).err(), Some(Error::Configuration));

    let mut wide_catalog = ok;
    wide_catalog.catalog_bits = 32;
    assert_eq!(GenericStore::open(wide_catalog).err(), Some(Error::Configuration));
}

#[test]
fn degraded_and_closed_stores_take_no_entry() {
    let mut h = Harness::fresh(config(4, 64 * KB, 4 * KB, 4 * KB));
    h.store.degrade();
    assert!(h.store.is_degraded());
    match h.store.insert(key_of(1), vec![1], &[true]) {
        Applied::Failed { error, notices } => {
            assert_eq!(error, Error::DeviceIo);
            assert_eq!(notices, vec![Notice { policy: 0, terminal: Terminal::Dropped, judge: true }]);
        }
        other => panic!("{:?}", other),
    }
    let mut h = Harness::fresh(config(4, 64 * KB, 4 * KB, 4 * KB));
    h.store.close();
    match h.store.insert(key_of(1), vec![1], &[true]) {
        Applied::Failed { error, .. } => assert_eq!(error, Error::ChannelClosed),
        other => panic!("{:?}", other),
    }
    let mut no_flusher = config(4, 64 * KB, 4 * KB, 4 * KB);
    no_flusher.flushers = 0;
    let mut store = GenericStore::open(no_flusher).unwrap();
    match store.insert(key_of(1), vec![1], &[true]) {
        Applied::Failed { error, .. } => assert_eq!(error, Error::ChannelClosed),
        other => panic!("{:?}", other),
    }
}

#[test]
fn failed_device_read_drops_the_entry() {
    let mut h = Harness::fresh(config(4, 64 * KB, 4 * KB, 4 * KB));
    h.insert(9, vec![9; 40 * KB]);
    h.insert(10, vec![10; 40 * KB]);
    let key = key_of(9);
    let Lookup::Read { view, .. } = h.store.lookup(&key) else {
        panic!("the entry is on the device");
    };
    assert_eq!(
        h.store.complete_lookup(&key, view.region_id, Err(Error::DeviceIo)),
        Err(Error::DeviceIo)
    );
    assert!(!h.store.contains(&key));
    assert_eq!(h.store.region_manager().region(view.region_id).inner().physical_readers(), 0);
}

#[test]
fn short_device_read_is_a_miss() {
    let mut h = Harness::fresh(config(4, 64 * KB, 4 * KB, 4 * KB));
    h.insert(9, vec![9; 40 * KB]);
    h.insert(10, vec![10; 40 * KB]);
    let key = key_of(9);
    let Lookup::Read { view, .. } = h.store.lookup(&key) else {
        panic!("the entry is on the device");
    };
    assert_eq!(h.store.complete_lookup(&key, view.region_id, Ok(None)), Ok(None));
    assert!(!h.store.contains(&key));
}

#[test]
fn corrupted_entry_on_device_fails_the_lookup_and_leaves_the_catalog() {
    let mut h = Harness::fresh(config(4, 64 * KB, 4 * KB, 4 * KB));
    h.insert(9, vec![9; 40 * KB]);
    h.insert(10, vec![10; 40 * KB]);
    let key = key_of(9);
    let view: RegionView = match h.store.catalog().lookup(&key).unwrap().index() {
        Index::Region { view } => *view,
        Index::Inflight { .. } => panic!("the entry is flushed"),
    };
    h.device[view.region_id as usize][view.offset as usize + 100] ^= 0xff;
    assert!(matches!(h.lookup(9), Err(Error::IntegrityChecksum { .. })));
    assert_eq!(h.lookup(9), Ok(None));
}

#[test]
fn entry_too_large_for_a_region_is_skipped() {
    let mut h = Harness::fresh(config(4, 64 * KB, 4 * KB, 4 * KB));
    let applied = h.store.insert(key_of(1), vec![1; 64 * KB], &[true]);
    let Applied::Inserted { entry, flusher, .. } = applied else {
        panic!("admitted");
    };
    assert_eq!(h.store.flush(flusher, &entry), Flush::Skipped(Error::Codec));
    // An entry that takes all the room between header block and footer block fits.
    let value = vec![2; 64 * KB - 2 * 4 * KB - 28 - 8];
    let applied = h.store.insert(key_of(2), value.clone(), &[true]);
    let Applied::Inserted { entry, flusher, .. } = applied else {
        panic!("admitted");
    };
    assert!(matches!(h.store.flush(flusher, &entry), Flush::Written { .. }));
    assert_eq!(h.lookup(2), Ok(Some(value)));
    assert_eq!(h.store.region_manager().region(0).len(), 64 * KB - 4 * KB);
}

#[test]
fn clear_empties_the_catalog() {
    let mut h = Harness::fresh(config(4, 64 * KB, 4 * KB, 4 * KB));
    h.insert(1, vec![1; 10]);
    h.insert(2, vec![2; 10]);
    h.store.clear();
    assert_eq!(h.lookup(1), Ok(None));
    assert_eq!(h.lookup(2), Ok(None));
}

#[test]
fn compressed_entries_are_stored_and_found() {
    for compression in [Compression::Zstd, Compression::Lz4] {
        let mut cfg = config(4, 64 * KB, 4 * KB, 4 * KB);
        cfg.compression = compression;
        let mut h = Harness::fresh(cfg);
        // 200 KiB of zeros do not fit in a region unless they are compressed.
        assert!(h.insert(1, vec![0; 200 * KB]));
        assert_eq!(h.lookup(1), Ok(Some(vec![0; 200 * KB])));
        h.close();
        assert_eq!(h.lookup(1), Ok(Some(vec![0; 200 * KB])));
        let mut again = Harness::open(cfg, h.device);
        assert_eq!(again.lookup(1), Ok(Some(vec![0; 200 * KB])));
    }
}

#[test]
fn lru_and_lfu_choose_their_victims() {
    for (policy, expected) in [
        (EvictionConfig::Fifo, 0u32),
        (EvictionConfig::Lru, 1u32),
        (EvictionConfig::Lfu, 1u32),
    ] {
        let mut cfg = config(4, 64 * KB, 4 * KB, 4 * KB);
        cfg.eviction_config = policy;
        cfg.clean_region_threshold = 2;
        cfg.reclaimers = 0;
        let mut store = GenericStore::open(cfg).unwrap();
        // Regions 0 and 1 hold something valid, the others do not.
        let mut valid = vec![0u8; 64 * KB];
        valid[..8].copy_from_slice(&0x1997_0327u64.to_be_bytes());
        assert_eq!(store.recover_region(0, valid.clone()), Some(0));
        assert_eq!(store.recover_region(1, valid), Some(0));
        assert_eq!(store.recover_region(2, vec![0u8; 64 * KB]), None);
        assert_eq!(store.recover_region(3, vec![0u8; 64 * KB]), None);
        assert_eq!(store.reclaim_task(), None);
        // A view into region 0 is read, and one flusher takes a clean region.
        let view = RegionView { region_id: 0, offset: 4096, len: 4096, version: 1 };
        assert!(matches!(store.load(&key_of(1), &view), Lookup::Read { .. }));
        let applied = store.insert(key_of(2), vec![2; 10], &[true]);
        let Applied::Inserted { entry, flusher, .. } = applied else {
            panic!("admitted");
        };
        assert!(matches!(store.flush(flusher, &entry), Flush::Written { .. }));
        assert_eq!(store.reclaim_task(), Some(ReclaimTask { region_id: expected }));
    }
}

#[test]
fn removed_key_stays_removed_when_its_entry_is_flushed() {
    let mut h = Harness::fresh(config(4, 64 * KB, 4 * KB, 4 * KB));
    let applied = h.store.insert(key_of(3), vec![3; 100], &[true]);
    let Applied::Inserted { entry, flusher, .. } = applied else {
        panic!("admitted");
    };
    assert!(h.store.remove(&key_of(3)));
    match h.store.flush(flusher, &entry) {
        Flush::Written { moved, .. } => assert!(!moved),
        other => panic!("{:?}", other),
    }
    assert_eq!(h.lookup(3), Ok(None));
}

#[test]
fn reinsertion_needs_every_policy_and_mints_a_new_sequence() {
    let mut h = Harness::fresh(config(4, 64 * KB, 4 * KB, 4 * KB));
    let before = h.store.sequence();
    assert!(h.store.reinsert(key_of(1), vec![1; 10], &[true, false], &[true]).is_none());
    assert_eq!(h.store.sequence(), before);
    match h.store.reinsert(key_of(1), vec![1; 10], &[true, true], &[true]) {
        Some(Applied::Inserted { entry, .. }) => assert_eq!(entry.sequence, before),
        other => panic!("{:?}", other),
    }
    assert_eq!(h.store.sequence(), before + 1);
    assert!(matches!(
        h.store.reinsert(key_of(2), vec![1; 10], &[], &[false]),
        Some(Applied::Rejected { .. })
    ));
}

#[test]
fn store_knows_whether_every_region_was_valid() {
    let cfg = config(2, 64 * KB, 4 * KB, 4 * KB);
    let mut valid = vec![0u8; 64 * KB];
    valid[..8].copy_from_slice(&0x1997_0327u64.to_be_bytes());
    let all = Harness::open(cfg, vec![valid.clone(), valid.clone()]);
    assert!(all.store.all_recovered());
    assert_eq!(all.counts(), (0, 0, 2));
    let some = Harness::open(cfg, vec![valid, vec![0u8; 64 * KB]]);
    assert!(!some.store.all_recovered());
    assert_eq!(some.counts(), (1, 0, 1));
}

#[test]
fn pinned_sequence_counts_as_recovered() {
    let mut h = Harness::fresh(config(4, 64 * KB, 4 * KB, 4 * KB));
    assert_eq!(h.store.sequence(), 1);
    let mut writer = h.store.writer(key_of(1), 10);
    writer.set_sequence(40);
    let applied = writer.finish(&mut h.store, &[true], vec![1; 2]);
    match &applied {
        Applied::Inserted { entry, flusher, .. } => {
            assert_eq!(entry.sequence, 40);
            assert_eq!(*flusher, 0);
        }
        other => panic!("{:?}", other),
    }
    // No sequence was minted.
    assert_eq!(h.store.sequence(), 1);
    // The end of recovery puts the next sequence behind the pinned one.
    assert_eq!(h.store.recover(), 40);
    assert_eq!(h.store.sequence(), 41);
    assert!(h.insert(1, vec![2; 2]));
    assert_eq!(h.lookup(1), Ok(Some(vec![2; 2])));
}
