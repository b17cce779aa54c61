use foyer_storage::catalog::Index;
use foyer_storage::compress::Compression;
use foyer_storage::entry::serialize_entry;
use foyer_storage::generic::{DeviceConfig, GenericStore, GenericStoreConfig};
use foyer_storage::catalog::Item;
use foyer_storage::recovery::{RegionEntryIter, RegionScanner, Scanned};
use foyer_storage::region::IoRead;
use foyer_storage::region::{Region, RegionView};
use foyer_storage::region_manager::{EvictionConfig, Phase};

const ALIGN: usize = 512;
const SIZE: usize = 16 * ALIGN;

/// The image of a region that holds `entries`, laid out as a flusher does.
fn image_of(entries: &[(&[u8], &[u8], u64, Compression)]) -> Vec<u8> {
    let mut image = vec![0u8; ALIGN];
    image[..8].copy_from_slice(&0x1997_0327u64.to_be_bytes());
    for (key, value, sequence, compression) in entries {
        image.extend(serialize_entry(key, value, *sequence, *compression, ALIGN).unwrap());
    }
    assert!(image.len() + ALIGN <= SIZE);
    image.resize(SIZE, 0);
    image
}

fn region() -> Region {
    Region::new(2, SIZE, ALIGN, ALIGN)
}

fn config() -> GenericStoreConfig {
    GenericStoreConfig {
        eviction_config: EvictionConfig::Fifo,
        device_config: DeviceConfig { regions: 4, region_size: SIZE, align: ALIGN, io_size: ALIGN },
        catalog_bits: 2,
        admissions: 0,
        reinsertions: 0,
        flushers: 1,
        reclaimers: 0,
        clean_region_threshold: 1,
        recover_concurrency: 1,
        compression: Compression::Off,
    }
}

#[test]
fn wrong_magic_gives_no_iterator() {
    assert!(RegionEntryIter::open(&region(), vec![0u8; SIZE]).is_none());
    let mut image = image_of(&[(b"k", b"v", 1, Compression::Off)]);
    image[7] ^= 1;
    assert!(RegionEntryIter::open(&region(), image).is_none());
}

#[test]
fn entries_come_back_in_order_with_their_places() {
    let big = vec![5u8; 700];
    let image = image_of(&[
        (b"a", b"1", 10, Compression::Off),
        (b"bb", &big, 11, Compression::Off),
        (b"ccc", &big, 12, Compression::Zstd),
    ]);
    let mut iter = RegionEntryIter::open(&region(), image).unwrap();
    assert_eq!(iter.cursor(), ALIGN);
    let expected: [(&[u8], u64, u32, u32); 3] =
        [(b"a", 10, 512, 512), (b"bb", 11, 1024, 1024), (b"ccc", 12, 2048, 512)];
    for (key, sequence, offset, len) in expected {
        let (found, item) = iter.next().unwrap();
        assert_eq!(found, key);
        assert_eq!(*item.sequence(), sequence);
        match item.index() {
            Index::Region { view } => {
                assert_eq!(*view, RegionView { region_id: 2, offset, len, version: 1 })
            }
            Index::Inflight { .. } => panic!("on the device"),
        }
    }
    assert!(iter.next().is_none());
    assert_eq!(iter.cursor(), 2560);
    // The iterator stays at its end.
    assert!(iter.next().is_none());
}

#[test]
fn keys_and_values_come_back() {
    let big = vec![5u8; 700];
    let image = image_of(&[
        (b"a", b"1", 10, Compression::Lz4),
        (b"bb", &big, 11, Compression::Off),
    ]);
    let mut iter = RegionEntryIter::open(&region(), image).unwrap();
    assert_eq!(iter.next_kv(), Some((b"a".to_vec(), b"1".to_vec())));
    assert_eq!(iter.next_kv(), Some((b"bb".to_vec(), big)));
    assert_eq!(iter.next_kv(), None);
}

#[test]
fn corrupted_header_ends_the_scan_and_keeps_what_came_before() {
    let mut image = image_of(&[
        (b"a", b"1", 10, Compression::Off),
        (b"b", b"2", 11, Compression::Off),
        (b"c", b"3", 12, Compression::Off),
    ]);
    // The magic of the second header is damaged.
    image[2 * ALIGN + 24] ^= 0xff;
    let mut iter = RegionEntryIter::open(&region(), image.clone()).unwrap();
    assert_eq!(iter.next().unwrap().0, b"a");
    assert!(iter.next().is_none());

    let mut store = GenericStore::open(config()).unwrap();
    assert_eq!(store.recover_region(2, image), Some(10));
    assert!(store.contains(b"a"));
    assert!(!store.contains(b"b"));
    assert!(!store.contains(b"c"));
    assert_eq!(store.region_manager().phase(2), Phase::Sealed);
}

#[test]
fn damaged_value_moves_the_iterator_on_but_yields_nothing() {
    let mut image = image_of(&[
        (b"a", b"1", 10, Compression::Off),
        (b"b", b"2", 11, Compression::Off),
    ]);
    image[ALIGN + 28] ^= 0xff;
    let mut iter = RegionEntryIter::open(&region(), image).unwrap();
    assert_eq!(iter.next_kv(), None);
    assert_eq!(iter.cursor(), 2 * ALIGN);
    assert_eq!(iter.next_kv(), Some((b"b".to_vec(), b"2".to_vec())));
}

#[test]
fn empty_key_and_overlong_entry_end_the_scan() {
    let image = image_of(&[(b"", b"1", 10, Compression::Off), (b"b", b"2", 11, Compression::Off)]);
    let mut iter = RegionEntryIter::open(&region(), image).unwrap();
    assert!(iter.next().is_none());

    let mut image = image_of(&[(b"a", b"1", 10, Compression::Off)]);
    // The header claims a value that reaches beyond the region.
    image[ALIGN + 4..ALIGN + 8].copy_from_slice(&(SIZE as u32).to_be_bytes());
    let mut iter = RegionEntryIter::open(&region(), image).unwrap();
    assert!(iter.next().is_none());
}

#[test]
fn entry_in_the_last_block_before_the_footer_is_found() {
    let value = vec![1u8; SIZE - 2 * ALIGN - 28 - 1];
    let image = image_of(&[(b"k", &value, 4, Compression::Off)]);
    let mut iter = RegionEntryIter::open(&region(), image).unwrap();
    assert_eq!(iter.next_kv(), Some((b"k".to_vec(), value)));
    assert_eq!(iter.cursor(), SIZE - ALIGN);
    assert!(iter.next().is_none());
}

#[test]
fn recovery_sorts_regions_into_clean_and_sealed() {
    let mut store = GenericStore::open(config()).unwrap();
    assert!(!store.is_ready());
    assert_eq!(store.region_manager().pending_regions(), 4);
    let image = image_of(&[(b"a", b"1", 10, Compression::Off), (b"b", b"2", 30, Compression::Off)]);
    assert_eq!(store.recover_region(0, vec![0; SIZE]), None);
    assert_eq!(store.recover_region(1, image.clone()), Some(30));
    // A region is recovered once.
    assert_eq!(store.recover_region(1, image), None);
    assert_eq!(store.recover_region(2, image_of(&[])), Some(0));
    assert_eq!(
        store.recover_region(3, image_of(&[(b"a", b"old", 5, Compression::Off)])),
        Some(5)
    );
    assert!(store.is_ready());
    let manager = store.region_manager();
    assert_eq!(manager.phase(0), Phase::Clean);
    assert_eq!(manager.phase(1), Phase::Sealed);
    assert_eq!(manager.phase(2), Phase::Sealed);
    assert_eq!(manager.phase(3), Phase::Sealed);
    assert_eq!(
        (manager.clean_regions(), manager.active_regions(), manager.sealed_regions()),
        (1, 0, 3)
    );
    assert_eq!(manager.next_victim(), Some(1));
    assert_eq!(store.recovered_regions(), 3);
    // The later admission of "a" has won, whichever region was scanned first.
    let item = store.catalog().lookup(b"a").unwrap();
    assert_eq!(*item.sequence(), 10);
    assert!(item.index().points_to(1));
    assert_eq!(store.sequence(), 0);
    assert_eq!(store.recover(), 30);
    assert_eq!(store.sequence(), 31);
}

/// Scans an image block by block, reading only what the scanner asks for.
fn scan_by_blocks(image: &[u8]) -> Option<(Vec<(Vec<u8>, Item)>, Vec<IoRead>)> {
    let mut scanner = RegionScanner::open(&region(), &image[..ALIGN])?;
    let mut items = vec![];
    let mut reads = vec![];
    while let Some(read) = scanner.header_block() {
        assert_eq!(read, IoRead { offset: scanner.cursor(), len: ALIGN });
        reads.push(read);
        match scanner.next(&image[read.offset..read.offset + read.len]) {
            Scanned::End => break,
            Scanned::Entry(key, item) => items.push((key, item)),
            Scanned::Key { header, read, from, to } => {
                reads.push(read);
                let bytes = &image[read.offset..read.offset + read.len];
                items.push(scanner.next_key(&header, bytes, from, to).unwrap());
            }
        }
    }
    Some((items, reads))
}

#[test]
fn scan_by_blocks_finds_what_the_image_holds() {
    let big = vec![5u8; 700];
    let long_key = vec![9u8; 600];
    let image = image_of(&[
        (b"a", b"1", 10, Compression::Off),
        (b"bb", &big, 11, Compression::Off),
        (&long_key, b"v", 12, Compression::Off),
        (b"ccc", &big, 13, Compression::Zstd),
    ]);
    let (items, reads) = scan_by_blocks(&image).unwrap();
    let mut iter = RegionEntryIter::open(&region(), image.clone()).unwrap();
    for (key, item) in &items {
        let (expected_key, expected) = iter.next().unwrap();
        assert_eq!(key, &expected_key);
        assert_eq!(item.sequence(), expected.sequence());
        match (item.index(), expected.index()) {
            (Index::Region { view: a }, Index::Region { view: b }) => assert_eq!(a, b),
            other => panic!("{:?}", other),
        }
    }
    assert!(iter.next().is_none());
    assert_eq!(items.len(), 4);
    // A key within the header block costs no read; one beyond it costs one
    // read of the blocks that cover it.
    assert_eq!(
        reads,
        vec![
            IoRead { offset: 512, len: 512 },
            IoRead { offset: 1024, len: 512 },
            // 28 bytes of header and 700 of value: the key lies in the second block.
            IoRead { offset: 1536, len: 512 },
            IoRead { offset: 2048, len: 512 },
            // 28 bytes of header, 1 of value, 600 of key: the key covers two blocks.
            IoRead { offset: 2048, len: 1024 },
            IoRead { offset: 3072, len: 512 },
            IoRead { offset: 3584, len: 512 },
        ]
    );
}

#[test]
fn scanner_refuses_wrong_magic_and_bytes_that_hold_no_key() {
    assert!(scan_by_blocks(&vec![0u8; SIZE]).is_none());
    let long_key = vec![9u8; 600];
    let image = image_of(&[(&long_key, b"v", 12, Compression::Off)]);
    let mut scanner = RegionScanner::open(&region(), &image[..ALIGN]).unwrap();
    let Scanned::Key { header, read, from, to } = scanner.next(&image[512..1024]) else {
        panic!("the key reaches beyond the block");
    };
    assert_eq!((read, from, to), (IoRead { offset: 512, len: 1024 }, 29, 629));
    let bytes = &image[512..1536];
    assert!(scanner.next_key(&header, &bytes[..600], from, to).is_none());
    assert!(scanner.next_key(&header, bytes, from, to - 1).is_none());
    assert_eq!(scanner.cursor(), 512);
    let (key, _) = scanner.next_key(&header, bytes, from, to).unwrap();
    assert_eq!(key, long_key);
    assert_eq!(scanner.cursor(), 512 + 1024);
}

#[test]
fn store_takes_in_what_a_scan_has_found() {
    let image = image_of(&[(b"a", b"1", 10, Compression::Off), (b"b", b"2", 30, Compression::Off)]);
    let (mut items, _) = scan_by_blocks(&image).unwrap();
    // Items that cannot be items of the region are left out.
    let stray = RegionEntryIter::open(&Region::new(3, SIZE, ALIGN, ALIGN), image.clone())
        .unwrap()
        .next()
        .unwrap();
    items.push((b"stray".to_vec(), stray.1));
    items.push((b"inflight".to_vec(), Item::new(99, Index::Inflight {
        key: b"inflight".to_vec(),
        value: b"v".to_vec(),
    })));
    let mut by_scan = GenericStore::open(config()).unwrap();
    assert_eq!(by_scan.recover_scanned(2, &Some(items)), Some(30));
    assert_eq!(by_scan.recover_scanned(2, &None), None);
    assert_eq!(by_scan.recover_scanned(0, &None), None);
    let mut by_image = GenericStore::open(config()).unwrap();
    assert_eq!(by_image.recover_region(2, image), Some(30));
    assert_eq!(by_image.recover_region(0, vec![0; SIZE]), None);
    for store in [&by_scan, &by_image] {
        assert!(store.contains(b"a") && store.contains(b"b"));
        assert!(!store.contains(b"stray") && !store.contains(b"inflight"));
        assert_eq!(store.region_manager().phase(2), Phase::Sealed);
        assert_eq!(store.region_manager().phase(0), Phase::Clean);
        assert_eq!(store.recovered_regions(), 1);
    }
}

#[test]
fn recovery_of_all_regions_ends_ready_with_the_next_sequence() {
    let first = image_of(&[(b"a", b"1", 10, Compression::Off), (b"b", b"2", 30, Compression::Off)]);
    let second = image_of(&[(b"a", b"new", 31, Compression::Off)]);
    let scans = vec![
        None,
        scan_by_blocks(&first).map(|(items, _)| {
            // The scan of region 1 is to carry the number of region 1.
            items
                .into_iter()
                .map(|(key, item)| match item.index() {
                    Index::Region { view } => {
                        let view = RegionView { region_id: 1, ..*view };
                        (key, Item::new(*item.sequence(), Index::Region { view }))
                    }
                    Index::Inflight { .. } => panic!("on the device"),
                })
                .collect()
        }),
        scan_by_blocks(&second).map(|(items, _)| items),
        None,
    ];
    let mut store = GenericStore::open(config()).unwrap();
    assert_eq!(store.recover_all(&scans), 31);
    assert!(store.is_ready());
    assert!(!store.all_recovered());
    assert_eq!(store.recovered_regions(), 2);
    assert_eq!(store.sequence(), 32);
    let manager = store.region_manager();
    assert_eq!(
        (manager.clean_regions(), manager.active_regions(), manager.sealed_regions()),
        (2, 0, 2)
    );
    let item = store.catalog().lookup(b"a").unwrap();
    assert_eq!(*item.sequence(), 31);
    assert!(item.index().points_to(2));
    assert!(store.catalog().lookup(b"b").unwrap().index().points_to(1));
}
