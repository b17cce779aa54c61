use foyer_storage::compress::Compression;
use foyer_storage::error::Error;
use foyer_storage::generic::{Applied, DeviceConfig, GenericStoreConfig, Lookup};
use foyer_storage::region_manager::{Append, EvictionConfig, Phase, Read, RegionManager};
use foyer_storage::storage::{weight, ForceStorageWriter, StorageWriter};
use foyer_storage::store::{Store, StoreConfig, StoreWriter};
use foyer_storage::writer::{Notice, Terminal};

fn config() -> GenericStoreConfig {
    GenericStoreConfig {
        eviction_config: EvictionConfig::Fifo,
        device_config: DeviceConfig { regions: 4, region_size: 8192, align: 512, io_size: 512 },
        catalog_bits: 0,
        admissions: 1,
        reinsertions: 0,
        flushers: 1,
        reclaimers: 0,
        clean_region_threshold: 0,
        recover_concurrency: 1,
        compression: Compression::Off,
    }
}

#[test]
fn no_store_keeps_nothing() {
    let mut store = Store::open(StoreConfig::Noop).unwrap();
    assert!(store.as_generic().is_none());
    let mut writer = store.writer(b"k".to_vec(), 2);
    assert!(matches!(writer, StoreWriter::Noop));
    writer.set_force();
    assert!(!writer.judge(&[true]));
    match store.finish(writer, &[true], b"v".to_vec()) {
        Applied::Rejected { notices } => assert!(notices.is_empty()),
        other => panic!("{:?}", other),
    }
    assert!(!store.contains(b"k"));
    assert!(matches!(store.lookup(b"k"), Lookup::Miss));
    assert!(!store.remove(b"k"));
    store.clear();
    store.close();
}

#[test]
fn store_of_each_eviction_order() {
    for (wrapped, order) in [
        (StoreConfig::LruFsStoreConfig { config: config() }, EvictionConfig::Lru),
        (StoreConfig::LfuFsStoreConfig { config: config() }, EvictionConfig::Lfu),
        (StoreConfig::FifoFsStoreConfig { config: config() }, EvictionConfig::Fifo),
    ] {
        let mut store = Store::open(wrapped).unwrap();
        assert_eq!(store.as_generic().unwrap().config().eviction_config, order);
        let mut writer = store.writer(b"k".to_vec(), 2);
        assert!(!writer.judge(&[false]));
        writer.set_force();
        assert!(writer.judge(&[true]));
        match store.finish(writer, &[true], b"v".to_vec()) {
            Applied::Inserted { notices, flusher, entry } => {
                assert_eq!(
                    notices,
                    vec![Notice { policy: 0, terminal: Terminal::Inserted, judge: false }]
                );
                assert_eq!(flusher, 0);
                assert_eq!((entry.key, entry.value), (b"k".to_vec(), b"v".to_vec()));
            }
            other => panic!("{:?}", other),
        }
        assert!(store.contains(b"k"));
        match store.lookup(b"k") {
            Lookup::Hit(value) => assert_eq!(value, b"v"),
            other => panic!("{:?}", other),
        }
        assert!(store.remove(b"k"));
        store.clear();
        store.close();
        let writer = store.writer(b"k".to_vec(), 2);
        assert!(matches!(
            store.finish(writer, &[true], b"v".to_vec()),
            Applied::Failed { error: Error::ChannelClosed, .. }
        ));
    }
}

#[test]
fn config_names_its_eviction_order() {
    let mut lru = config();
    lru.eviction_config = EvictionConfig::Lru;
    assert!(matches!(StoreConfig::from(lru), StoreConfig::LruFsStoreConfig { .. }));
    assert!(matches!(StoreConfig::from(config()), StoreConfig::FifoFsStoreConfig { .. }));
    let mut bad = config();
    bad.flushers = 9;
    assert_eq!(Store::open(StoreConfig::from(bad)).err(), Some(Error::Configuration));
}

#[test]
fn inserts_made_of_writer_and_finish() {
    let mut store = foyer_storage::generic::GenericStore::open(config()).unwrap();
    assert_eq!(weight(b"key", b"value"), 8);

    assert!(store.insert_if_not_exists(b"a".to_vec(), b"1".to_vec(), &[true]).is_some());
    assert!(store.insert_if_not_exists(b"a".to_vec(), b"2".to_vec(), &[true]).is_none());

    assert!(matches!(
        store.insert(b"b".to_vec(), b"1".to_vec(), &[false]),
        Applied::Rejected { .. }
    ));
    assert!(matches!(
        store.insert_force(b"b".to_vec(), b"1".to_vec(), &[false]),
        Applied::Inserted { .. }
    ));

    // A value is fetched only for an entry that is admitted.
    let mut fetched = false;
    let applied = store.insert_with(
        b"c".to_vec(),
        || {
            fetched = true;
            Some(b"3".to_vec())
        },
        4,
        &[false],
    );
    assert!(matches!(applied, Applied::Rejected { .. }));
    assert!(!fetched);
    let applied = store.insert_with(b"c".to_vec(), || Some(b"3".to_vec()), 4, &[true]);
    assert!(matches!(applied, Applied::Inserted { .. }));
    // A value that cannot be fetched drops the entry.
    match store.insert_with(b"d".to_vec(), || None, 4, &[true]) {
        Applied::Rejected { notices } => assert_eq!(
            notices,
            vec![Notice { policy: 0, terminal: Terminal::Dropped, judge: true }]
        ),
        other => panic!("{:?}", other),
    }
    assert!(matches!(
        store.insert_force_with(b"e".to_vec(), || Some(b"5".to_vec()), 4, &[false]),
        Applied::Inserted { .. }
    ));
    assert!(store.insert_if_not_exists_with(b"e".to_vec(), || Some(b"6".to_vec()), 4, &[true]).is_none());
    assert!(store.insert_if_not_exists_with(b"f".to_vec(), || Some(b"6".to_vec()), 4, &[true]).is_some());
    for (key, found) in [("a", true), ("b", true), ("c", true), ("d", false), ("e", true), ("f", true)] {
        assert_eq!(store.contains(key.as_bytes()), found, "{}", key);
    }
}

#[test]
fn regions_move_through_their_phases() {
    let mut manager = RegionManager::new(3, 8192, 512, 512, EvictionConfig::Lru);
    let counts = |m: &RegionManager| {
        (m.pending_regions(), m.clean_regions(), m.active_regions(), m.sealed_regions())
    };
    assert_eq!(manager.regions(), 3);
    assert_eq!((manager.region_size(), manager.align(), manager.io_size()), (8192, 512, 512));
    assert_eq!(counts(&manager), (3, 0, 0, 0));
    assert_eq!(manager.activate(), None);
    assert!(manager.release_clean(0));
    assert!(!manager.release_clean(0));
    assert!(manager.eviction_push(1));
    assert!(!manager.eviction_push(0));
    assert!(manager.release_clean(2));
    assert_eq!(counts(&manager), (0, 2, 0, 1));
    assert_eq!(manager.next_victim(), Some(1));

    assert_eq!(manager.activate(), Some(0));
    assert_eq!(manager.phase(0), Phase::Active);
    assert_eq!(counts(&manager), (0, 1, 1, 1));
    assert_eq!(manager.append(0, &[1; 512]), Append::Written { offset: 512, version: 1 });
    match manager.read(0, 512, 514, 1) {
        Read::Bytes(bytes) => assert_eq!(bytes, vec![1, 1]),
        other => panic!("{:?}", other),
    }
    assert!(matches!(manager.read(0, 512, 514, 9), Read::Absent));
    assert_eq!(manager.append(0, &[2; 8192]), Append::Full);
    assert_eq!(manager.region(0).len(), 8192);
    assert!(manager.region(0).buffer().unwrap()[1024..].iter().all(|b| *b == 0));
    // Only an active region is sealed, only a sealed one reclaimed.
    assert!(!manager.seal(1));
    assert!(!manager.reclaim(0));
    assert!(manager.seal(0));
    assert_eq!(counts(&manager), (0, 1, 0, 2));
    assert_eq!(manager.next_victim(), Some(1));
    // Under LRU a read moves a region to the end of the order.
    manager.record_access(1);
    assert_eq!(manager.next_victim(), Some(0));
    // A physical reader keeps the region from being reclaimed.
    assert!(matches!(manager.read(0, 0, 512, 0), Read::Physical(_)));
    assert!(!manager.reclaim(0));
    assert_eq!(manager.complete_read(0, Some(vec![1, 2])), Some(vec![1, 2]));
    assert!(manager.reclaim(0));
    assert_eq!(manager.region(0).version(), 2);
    assert_eq!(manager.phase(0), Phase::Clean);
    assert_eq!(counts(&manager), (0, 2, 0, 1));
    assert_eq!(manager.activate(), Some(2));
    manager.fill(2);
    assert_eq!(manager.region(2).len(), 8192);
}
