use foyer_storage::compress::Compression;
use foyer_storage::judge::{bit, Judges};
use foyer_storage::storage::{ForceStorageWriter, StorageWriter};
use foyer_storage::writer::{notices, GenericStoreWriter, Notice, Terminal};

#[test]
fn bits_of_a_mask() {
    assert!(bit(0b101, 0));
    assert!(!bit(0b101, 1));
    assert!(bit(0b101, 2));
    assert!(bit(1 << 63, 63));
    assert!(!bit(0, 63));
}

#[test]
fn every_heeded_policy_must_admit() {
    let mut judges = Judges::new(3);
    assert_eq!(judges.size(), 3);
    assert!(!judges.judge());
    judges.set(0, true);
    judges.set(2, true);
    assert!(!judges.judge());
    assert!(judges.get(0) && !judges.get(1) && judges.get(2));
    // Policy 1 is not heeded.
    judges.set_mask(0b101);
    assert!(judges.judge());
    judges.set_mask(0b010);
    assert!(!judges.judge());
    judges.set(1, true);
    assert!(judges.judge());
    // Bits beyond the policies do not count.
    judges.set_mask(u64::MAX);
    assert!(judges.judge());
}

#[test]
fn no_policy_admits_everything() {
    assert!(Judges::new(0).judge());
    let mut all = Judges::new(64);
    for i in 0..64 {
        all.set(i, true);
    }
    assert!(all.judge());
    all.set(63, false);
    assert!(!all.judge());
}

#[test]
fn notices_name_every_policy_once() {
    let mut judges = Judges::new(3);
    judges.set(1, true);
    assert_eq!(
        notices(&judges, Terminal::Inserted),
        vec![
            Notice { policy: 0, terminal: Terminal::Inserted, judge: false },
            Notice { policy: 1, terminal: Terminal::Inserted, judge: true },
            Notice { policy: 2, terminal: Terminal::Inserted, judge: false },
        ]
    );
}

#[test]
fn writer_remembers_its_first_judgement() {
    let mut writer = GenericStoreWriter::new(b"key".to_vec(), 11, 2, Compression::Zstd);
    assert_eq!(writer.key(), &b"key".to_vec());
    assert_eq!(writer.weight(), 11);
    assert_eq!(writer.policies(), 2);
    assert_eq!(writer.compression(), Compression::Zstd);
    assert_eq!(writer.sequence(), None);
    assert!(!writer.is_judged());
    assert!(!writer.is_skippable());
    assert!(writer.judge(&[true, true]));
    assert!(writer.is_judged());
    // Later verdicts are left aside.
    assert!(writer.judge(&[false, false]));
    let dropped = writer.abandon();
    assert!(!dropped.filtered);
    assert_eq!(
        dropped.notices,
        vec![
            Notice { policy: 0, terminal: Terminal::Dropped, judge: true },
            Notice { policy: 1, terminal: Terminal::Dropped, judge: true },
        ]
    );
}

#[test]
fn missing_verdict_counts_as_against() {
    let mut writer = GenericStoreWriter::new(b"key".to_vec(), 11, 2, Compression::Off);
    assert!(!writer.judge(&[true]));
    let dropped = writer.abandon();
    assert!(dropped.filtered);
    assert_eq!(
        dropped.notices,
        vec![
            Notice { policy: 0, terminal: Terminal::Dropped, judge: true },
            Notice { policy: 1, terminal: Terminal::Dropped, judge: false },
        ]
    );
}

#[test]
fn writer_that_never_judged_still_owes_every_policy_the_drop() {
    let writer = GenericStoreWriter::new(b"key".to_vec(), 11, 2, Compression::Off);
    let dropped = writer.abandon();
    assert_eq!(
        dropped.notices,
        vec![
            Notice { policy: 0, terminal: Terminal::Dropped, judge: false },
            Notice { policy: 1, terminal: Terminal::Dropped, judge: false },
        ]
    );
    // The entry was given up, not turned down.
    assert!(!dropped.filtered);
}

#[test]
fn setters_set() {
    let mut writer = GenericStoreWriter::new(b"key".to_vec(), 11, 1, Compression::Off);
    writer.set_compression(Compression::Lz4);
    writer.set_sequence(99);
    writer.set_skippable();
    assert_eq!(writer.compression(), Compression::Lz4);
    assert_eq!(writer.sequence(), Some(99));
    assert!(writer.is_skippable());
    let (key, owed) = writer.conclude(Terminal::Inserted);
    assert_eq!(key, b"key");
    assert_eq!(owed, vec![Notice { policy: 0, terminal: Terminal::Inserted, judge: false }]);
}

#[test]
fn mask_and_force_override_the_policies() {
    let mut writer = GenericStoreWriter::new(b"key".to_vec(), 11, 2, Compression::Off);
    writer.set_judge_mask(0b01);
    assert!(writer.judge(&[true, false]));
    writer.set_judge_mask(0b10);
    assert!(!writer.judge(&[]));
    writer.force();
    assert!(writer.judge(&[]));

    let mut forced = GenericStoreWriter::new(b"key".to_vec(), 11, 2, Compression::Off);
    ForceStorageWriter::set_force(&mut forced);
    assert!(StorageWriter::judge(&mut forced, &[false, false]));
}
