use foyer_storage::catalog::{Catalog, Index, Item};
use foyer_storage::region::RegionView;

fn inflight(sequence: u64, key: &[u8], value: &[u8]) -> Item {
    Item::new(sequence, Index::Inflight { key: key.to_vec(), value: value.to_vec() })
}

fn stored(sequence: u64, region_id: u32) -> Item {
    Item::new(
        sequence,
        Index::Region { view: RegionView { region_id, offset: 4096, len: 4096, version: 1 } },
    )
}

fn value_of(item: &Item) -> Vec<u8> {
    match item.index() {
        Index::Inflight { value, .. } => value.clone(),
        Index::Region { .. } => panic!("in a region"),
    }
}

#[test]
fn insert_then_lookup_then_remove() {
    let mut catalog = Catalog::new(2);
    assert!(catalog.lookup(b"k").is_none());
    catalog.insert(b"k".to_vec(), inflight(1, b"k", b"v"));
    let item = catalog.lookup(b"k").unwrap();
    assert_eq!(*item.sequence(), 1);
    assert_eq!(value_of(&item), b"v");
    let (sequence, index) = catalog.remove(b"k").unwrap().consume();
    assert_eq!(sequence, 1);
    assert!(matches!(index, Index::Inflight { .. }));
    assert!(catalog.lookup(b"k").is_none());
    assert!(catalog.remove(b"k").is_none());
}

#[test]
fn only_a_greater_sequence_supersedes() {
    let mut catalog = Catalog::new(0);
    catalog.insert(b"k".to_vec(), inflight(5, b"k", b"five"));
    catalog.insert(b"k".to_vec(), inflight(4, b"k", b"four"));
    assert_eq!(value_of(&catalog.lookup(b"k").unwrap()), b"five");
    catalog.insert(b"k".to_vec(), inflight(5, b"k", b"again"));
    assert_eq!(value_of(&catalog.lookup(b"k").unwrap()), b"five");
    catalog.insert(b"k".to_vec(), inflight(6, b"k", b"six"));
    assert_eq!(value_of(&catalog.lookup(b"k").unwrap()), b"six");
}

#[test]
fn migrate_moves_the_same_admission_only() {
    let mut catalog = Catalog::new(1);
    let view = RegionView { region_id: 2, offset: 8192, len: 4096, version: 3 };
    // A key that has left the catalog is not brought back.
    assert!(!catalog.migrate(b"k", 1, view));
    assert!(catalog.lookup(b"k").is_none());
    catalog.insert(b"k".to_vec(), inflight(7, b"k", b"v"));
    // An earlier admission does not take the place of a later one.
    assert!(!catalog.migrate(b"k", 6, view));
    // Nor does an admission that the catalog never held.
    assert!(!catalog.migrate(b"k", 8, view));
    assert!(matches!(catalog.lookup(b"k").unwrap().index(), Index::Inflight { .. }));
    assert!(catalog.migrate(b"k", 7, view));
    let item = catalog.lookup(b"k").unwrap();
    assert_eq!(*item.sequence(), 7);
    match item.index() {
        Index::Region { view: found } => assert_eq!(*found, view),
        Index::Inflight { .. } => panic!("moved"),
    }
}

#[test]
fn take_region_takes_exactly_its_entries() {
    let mut catalog = Catalog::new(3);
    for k in 0..100u32 {
        let key = k.to_be_bytes().to_vec();
        let item = if k % 3 == 0 {
            inflight(k as u64, &key, b"v")
        } else {
            stored(k as u64, k % 3)
        };
        catalog.insert(key, item);
    }
    let mut taken: Vec<u32> = catalog
        .take_region(1)
        .into_iter()
        .map(|(key, item)| {
            assert!(item.index().points_to(1));
            u32::from_be_bytes(key.try_into().unwrap())
        })
        .collect();
    taken.sort();
    assert_eq!(taken, (0..100).filter(|k| k % 3 == 1).collect::<Vec<u32>>());
    for k in 0..100u32 {
        assert_eq!(catalog.lookup(&k.to_be_bytes()).is_some(), k % 3 != 1);
    }
    assert!(catalog.take_region(1).is_empty());
}

#[test]
fn clear_removes_everything() {
    let mut catalog = Catalog::new(4);
    for k in 0..50u32 {
        catalog.insert(k.to_be_bytes().to_vec(), stored(k as u64, 0));
    }
    catalog.clear();
    for k in 0..50u32 {
        assert!(catalog.lookup(&k.to_be_bytes()).is_none());
    }
    catalog.insert(b"k".to_vec(), stored(1, 0));
    assert!(catalog.lookup(b"k").is_some());
}

#[test]
fn duplicate_keeps_item() {
    let item = inflight(3, b"key", b"value");
    let copy = item.duplicate();
    assert_eq!(*copy.sequence(), 3);
    assert_eq!(value_of(&copy), b"value");
    assert!(!copy.index().points_to(0));
    assert!(stored(1, 4).index().duplicate().points_to(4));
}
