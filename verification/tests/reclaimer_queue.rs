use foyer_storage::compress::Compression;
use foyer_storage::entry::serialize_entry;
use foyer_storage::error::Error;
use foyer_storage::generic::{DeviceConfig, GenericStore, GenericStoreConfig, Reclaim};
use foyer_storage::reclaimer::{ReclaimTask, Reclaimer, Runner};
use foyer_storage::region_manager::{EvictionConfig, Phase};
use foyer_storage::reinsertion::{all_accept, RatedJudgement, RatedTicketReinsertionPolicy};

fn task(region_id: u32) -> ReclaimTask {
    ReclaimTask { region_id }
}

#[test]
fn no_runner_no_submission() {
    let mut reclaimer = Reclaimer::new(2);
    assert_eq!(reclaimer.runners(), 2);
    assert_eq!(reclaimer.submit(task(1)), Err(Error::ChannelClosed));
    assert_eq!(reclaimer.try_submit(task(1)), Err(Error::ChannelClosed));
    assert_eq!(reclaimer.take(0), None);
}

#[test]
fn tasks_go_to_the_runners_in_turn() {
    let mut reclaimer = Reclaimer::new(2);
    reclaimer.run();
    assert_eq!(reclaimer.submit(task(10)), Ok(0));
    assert_eq!(reclaimer.submit(task(11)), Ok(1));
    // Both queues hold a task now: the next task waits for runner 0.
    assert_eq!(reclaimer.submit(task(12)), Ok(0));
    assert_eq!(reclaimer.next_task(0), Some(task(10)));
    assert_eq!(reclaimer.take(1), Some(task(11)));
    assert_eq!(reclaimer.take(1), None);
    assert_eq!(reclaimer.submit(task(13)), Ok(1));
    assert_eq!(reclaimer.take(0), Some(task(10)));
    assert_eq!(reclaimer.take(0), Some(task(12)));
    assert_eq!(reclaimer.take(0), None);
    assert_eq!(reclaimer.take(1), Some(task(13)));
    assert_eq!(reclaimer.take(2), None);
}

#[test]
fn try_submit_keeps_the_turn_when_the_queue_is_full() {
    let mut reclaimer = Reclaimer::new(2);
    reclaimer.run();
    assert_eq!(reclaimer.try_submit(task(10)), Ok(0));
    assert_eq!(reclaimer.try_submit(task(11)), Ok(1));
    assert_eq!(reclaimer.try_submit(task(12)), Err(Error::ChannelFull));
    assert_eq!(reclaimer.take(1), Some(task(11)));
    // Runner 0 is still the one whose turn it is, and still busy.
    assert_eq!(reclaimer.try_submit(task(12)), Err(Error::ChannelFull));
    assert_eq!(reclaimer.take(0), Some(task(10)));
    assert_eq!(reclaimer.try_submit(task(12)), Ok(0));
}

#[test]
fn stopped_runner_takes_no_task_and_keeps_the_turn() {
    let mut reclaimer = Reclaimer::new(2);
    reclaimer.run();
    assert_eq!(reclaimer.submit(task(10)), Ok(0));
    assert_eq!(reclaimer.submit(task(11)), Ok(1));
    reclaimer.stop(0);
    // What was on its way to the runner is lost.
    assert_eq!(reclaimer.take(0), None);
    assert_eq!(reclaimer.submit(task(12)), Err(Error::ChannelClosed));
    assert_eq!(reclaimer.try_submit(task(12)), Err(Error::ChannelClosed));
    // Nothing was handed over, so it is still the turn of runner 0.
    assert_eq!(reclaimer.submit(task(12)), Err(Error::ChannelClosed));
    assert_eq!(reclaimer.take(1), Some(task(11)));
    reclaimer.stop(7);
}

#[test]
fn every_start_adds_runners() {
    let mut reclaimer = Reclaimer::new(1);
    reclaimer.run();
    reclaimer.run();
    assert_eq!(reclaimer.submit(task(1)), Ok(0));
    assert_eq!(reclaimer.submit(task(2)), Ok(1));
}

#[test]
fn runner_reclaims_the_region_of_its_task() {
    let config = GenericStoreConfig {
        eviction_config: EvictionConfig::Fifo,
        device_config: DeviceConfig { regions: 2, region_size: 8192, align: 512, io_size: 512 },
        catalog_bits: 0,
        admissions: 0,
        reinsertions: 0,
        flushers: 1,
        reclaimers: 1,
        clean_region_threshold: 1,
        recover_concurrency: 1,
        compression: Compression::Off,
    };
    let mut store = GenericStore::open(config).unwrap();
    let mut image = vec![0u8; 512];
    image[..8].copy_from_slice(&0x1997_0327u64.to_be_bytes());
    image.extend(serialize_entry(b"k", b"v", 3, Compression::Off, 512).unwrap());
    image.resize(8192, 0);
    assert_eq!(store.recover_region(0, image), Some(3));
    assert_eq!(store.recover_region(1, vec![0; 8192]), None);
    assert!(store.contains(b"k"));

    let mut reclaimer = Reclaimer::new(1);
    reclaimer.run();
    let runner = Runner { runner: 0 };
    assert!(runner.run(&mut reclaimer, &mut store).is_none());

    // A region that is not sealed cannot be reclaimed: the task stays in line.
    assert_eq!(reclaimer.submit(task(1)), Ok(0));
    assert!(matches!(runner.run(&mut reclaimer, &mut store), Some(Reclaim::Busy)));
    assert_eq!(reclaimer.take(0), Some(task(1)));

    assert_eq!(reclaimer.submit(task(0)), Ok(0));
    match runner.run(&mut reclaimer, &mut store) {
        Some(Reclaim::Done { taken, wipe }) => {
            assert_eq!(wipe, 512);
            assert_eq!(taken.len(), 1);
            assert_eq!(taken[0].0, b"k");
            assert!(taken[0].1.index().points_to(0));
        }
        other => panic!("{:?}", other),
    }
    assert_eq!(reclaimer.next_task(0), None);
    assert!(!store.contains(b"k"));
    let manager = store.region_manager();
    assert_eq!(manager.region(0).version(), 2);
    assert_eq!(manager.phase(0), Phase::Clean);
    assert_eq!(manager.clean_regions() + manager.active_regions() + manager.sealed_regions(), 2);
}

#[test]
fn reinsertion_needs_every_policy() {
    assert!(all_accept(&[]));
    assert!(all_accept(&[true, true]));
    assert!(!all_accept(&[true, false, true]));
}

#[test]
fn rated_ticket_charges_what_was_reinserted_since() {
    let mut policy = RatedTicketReinsertionPolicy::new(1024);
    assert_eq!(policy.rate(), 1024);
    assert_eq!(policy.judge(true, 0), RatedJudgement { accept: true, charge: 0 });
    assert_eq!(policy.judge(true, 100), RatedJudgement { accept: true, charge: 100 });
    assert_eq!(policy.judge(false, 100), RatedJudgement { accept: false, charge: 0 });
    assert_eq!(policy.judge(false, 250), RatedJudgement { accept: false, charge: 150 });
    // A count that fell back charges nothing.
    assert_eq!(policy.judge(true, 10), RatedJudgement { accept: true, charge: 0 });
    assert_eq!(policy.judge(true, 251), RatedJudgement { accept: true, charge: 1 });
}
