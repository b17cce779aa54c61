use foyer_storage::region::{
    plan_reads, AllocateResult, IoRead, Load, ReadSlice, Region, RegionHeader, RegionInner,
    RegionView, REGION_MAGIC,
};

const ALIGN: usize = 4096;
const SIZE: usize = 4 * ALIGN;

fn active() -> Region {
    let mut region = Region::new(3, SIZE, ALIGN, ALIGN);
    region.attach_buffer(vec![0xee; SIZE]);
    region
}

#[test]
fn region_header_is_big_endian_magic() {
    let mut buf = [0xffu8; 12];
    RegionHeader { magic: REGION_MAGIC }.write(&mut buf);
    assert_eq!(buf, [0, 0, 0, 0, 0x19, 0x97, 0x03, 0x27, 0xff, 0xff, 0xff, 0xff]);
    assert_eq!(RegionHeader::read(&buf), RegionHeader { magic: 0x1997_0327 });
    assert_eq!(RegionHeader::read(&[1, 2, 3, 4, 5, 6, 7, 8]).magic, 0x0102_0304_0506_0708);
}

#[test]
fn new_region_is_clean_at_its_first_version() {
    let region = Region::new(7, SIZE, ALIGN, 512);
    assert_eq!(region.id(), 7);
    assert_eq!(region.version(), 1);
    assert_eq!(region.align(), ALIGN);
    assert_eq!(region.io_size(), 512);
    assert_eq!(region.region_size(), SIZE);
    assert_eq!(region.len(), 0);
    assert!(!region.has_buffer());
    assert!(region.buffer().is_none());
    assert!(region.exclusive(false, false, false));
}

#[test]
fn allocate_without_buffer_is_unavailable() {
    let mut region = Region::new(3, SIZE, ALIGN, ALIGN);
    assert!(matches!(region.allocate(10), AllocateResult::Unavailable));
    assert_eq!(region.inner().writers(), 0);
}

#[test]
fn attach_writes_the_header_block() {
    let region = active();
    let buffer = region.buffer().unwrap();
    assert_eq!(&buffer[..8], &[0, 0, 0, 0, 0x19, 0x97, 0x03, 0x27][..]);
    assert!(buffer[8..ALIGN].iter().all(|b| *b == 0));
    assert!(buffer[ALIGN..].iter().all(|b| *b == 0xee));
    assert_eq!(region.len(), ALIGN);
    assert!(region.has_buffer());
}

#[test]
fn entry_that_fills_the_region_exactly() {
    let mut region = active();
    // Header block, entry and footer block make up the region.
    let slice = region.allocate(SIZE - 2 * ALIGN).unwrap();
    assert_eq!(slice.region_id(), 3);
    assert_eq!(slice.version(), 1);
    assert_eq!(slice.offset(), ALIGN);
    assert_eq!(slice.start(), ALIGN);
    assert_eq!(slice.len(), SIZE - 2 * ALIGN);
    assert!(!slice.is_empty());
    assert_eq!(region.len(), SIZE - ALIGN);
    assert_eq!(region.inner().writers(), 1);
    region.release_write(slice);
    assert_eq!(region.inner().writers(), 0);
    // Nothing more fits, not even one byte.
    match region.allocate(1) {
        AllocateResult::Full { slice, remain } => {
            assert_eq!(remain, ALIGN);
            assert_eq!(slice.offset(), SIZE - ALIGN);
            assert_eq!(slice.start(), SIZE - ALIGN);
            assert_eq!(slice.len(), ALIGN);
        }
        other => panic!("{:?}", other),
    }
    assert_eq!(region.len(), SIZE);
}

#[test]
fn full_region_hands_out_its_footer_block() {
    const MB4: usize = 4 * 1024 * 1024;
    let mut region = Region::new(0, MB4, 4096, 4096);
    region.attach_buffer(vec![0; MB4]);
    for offset in [4096, 1056768, 2109440] {
        let slice = region.allocate(1052672).unwrap();
        assert_eq!(slice.offset(), offset);
        assert_eq!(slice.len(), 1052672);
        region.release_write(slice);
    }
    match region.allocate(1052672) {
        AllocateResult::Full { slice, remain } => {
            assert_eq!(remain, 1032192);
            assert_eq!(slice.len(), 4096);
            assert_eq!(slice.offset(), 3162112);
            assert_eq!(slice.start(), MB4 - 4096);
            assert_eq!(slice.version(), 1);
            // The slice is the footer block: what is written through it lands there.
            assert!(region.write(&slice, &[7; 4096]));
            assert!(!region.write(&slice, &[7; 4097]));
            region.release_write(slice);
        }
        other => panic!("{:?}", other),
    }
    assert_eq!(region.len(), MB4);
    let buffer = region.buffer().unwrap();
    assert!(buffer[3162112..MB4 - 4096].iter().all(|b| *b == 0));
    assert!(buffer[MB4 - 4096..].iter().all(|b| *b == 7));
}

#[test]
fn entry_that_crosses_the_footer_is_full() {
    let mut region = active();
    match region.allocate(SIZE - 2 * ALIGN + 1) {
        AllocateResult::Full { slice, remain } => {
            assert_eq!(remain, SIZE - ALIGN);
            assert_eq!(slice.offset(), ALIGN);
            assert_eq!(slice.start(), SIZE - ALIGN);
            assert_eq!(slice.len(), ALIGN);
            // Allocation writes nothing; zeroing the slice zeroes the footer only.
            assert!(region.buffer().unwrap()[ALIGN..].iter().all(|b| *b == 0xee));
            assert!(region.zero(&slice));
            region.release_write(slice);
        }
        other => panic!("{:?}", other),
    }
    assert_eq!(region.len(), SIZE);
    assert!(region.buffer().unwrap()[ALIGN..SIZE - ALIGN].iter().all(|b| *b == 0xee));
    assert!(region.buffer().unwrap()[SIZE - ALIGN..].iter().all(|b| *b == 0));
    // A full region stays full, and still hands out its footer block.
    match region.allocate(0) {
        AllocateResult::Full { slice, remain } => {
            assert_eq!(remain, 0);
            assert_eq!(slice.offset(), SIZE);
            assert_eq!(slice.start(), SIZE - ALIGN);
            assert_eq!(slice.len(), ALIGN);
        }
        other => panic!("{:?}", other),
    }
}

#[test]
fn entry_of_region_size_minus_one_block_never_fits() {
    let mut region = active();
    assert!(matches!(region.allocate(SIZE - ALIGN), AllocateResult::Full { .. }));
}

#[test]
fn huge_request_does_not_overflow() {
    let mut region = active();
    assert!(matches!(region.allocate(usize::MAX), AllocateResult::Full { .. }));
}

#[test]
fn written_bytes_are_read_back_from_the_buffer() {
    let mut region = active();
    let slice = region.allocate(ALIGN).unwrap();
    assert!(region.write(&slice, b"hello"));
    // More than the slice holds is not written.
    assert!(!region.write(&slice, &vec![1u8; ALIGN + 1]));
    let offset = slice.offset();
    region.release_write(slice);
    match region.load(offset, offset + 5, region.version()) {
        Load::Buffered(read) => {
            assert!(matches!(read, ReadSlice::Slice { .. }));
            assert_eq!(read.as_slice(), b"hello");
            assert_eq!(read.len(), 5);
            assert!(!read.is_empty());
            assert_eq!(region.inner().buffered_readers(), 1);
            assert!(!region.exclusive(true, false, true));
            assert!(region.exclusive(false, true, false));
            region.release_read(read);
            assert_eq!(region.inner().buffered_readers(), 0);
        }
        other => panic!("{:?}", other),
    }
}

#[test]
fn slice_of_another_generation_is_not_written() {
    let mut region = active();
    let slice = region.allocate(16).unwrap();
    let buf = region.detach_buffer();
    region.release_write(slice);
    assert_eq!(region.advance(), 1);
    assert_eq!(region.version(), 2);
    region.attach_buffer(buf);
    let stale = {
        let mut other = active();
        other.allocate(16).unwrap()
    };
    assert_eq!(stale.version(), 1);
    assert!(!region.write(&stale, b"x"));
    assert!(!region.zero(&stale));
}

#[test]
fn load_checks_the_version() {
    let mut region = active();
    assert!(matches!(region.load(0, 8, 2), Load::Absent));
    assert_eq!(region.inner().buffered_readers(), 0);
    // Version 0 matches any version.
    match region.load(0, 8, 0) {
        Load::Buffered(read) => assert_eq!(region.take_read(read), vec![0, 0, 0, 0, 0x19, 0x97, 0x03, 0x27]),
        other => panic!("{:?}", other),
    }
    assert!(matches!(region.load_range(0, 8), Load::Buffered(_)));
}

#[test]
fn physical_read_is_split_by_io_size() {
    let mut region = Region::new(0, SIZE, ALIGN, 4096);
    match region.load(4096, 4096 + 10_000, 1) {
        Load::Physical(reads) => assert_eq!(
            reads,
            vec![
                IoRead { offset: 4096, len: 4096 },
                IoRead { offset: 8192, len: 4096 },
                IoRead { offset: 12288, len: 1808 },
            ]
        ),
        other => panic!("{:?}", other),
    }
    assert_eq!(region.inner().physical_readers(), 1);
    assert!(!region.exclusive(true, true, false));
    // A short read gives no slice, and the reader is gone.
    assert!(region.complete_read(None).is_none());
    assert_eq!(region.inner().physical_readers(), 0);

    assert!(matches!(region.load(0, 8, 1), Load::Physical(_)));
    let read = region.complete_read(Some(vec![1, 2, 3])).unwrap();
    assert!(matches!(read, ReadSlice::Owned { .. }));
    assert_eq!(region.inner().physical_readers(), 1);
    assert_eq!(read.as_slice(), &[1, 2, 3]);
    region.release_read(read);
    assert_eq!(region.inner().physical_readers(), 0);
}

#[test]
fn read_plans_cover_the_range_exactly() {
    assert_eq!(plan_reads(0, 0, 512), vec![]);
    assert_eq!(plan_reads(10, 11, 512), vec![IoRead { offset: 10, len: 1 }]);
    assert_eq!(
        plan_reads(0, 1024, 512),
        vec![IoRead { offset: 0, len: 512 }, IoRead { offset: 512, len: 512 }]
    );
    let reads = plan_reads(100, 100 + 4 * 1024 * 1024, 4096);
    assert_eq!(reads.len(), 1024);
    assert_eq!(reads[1023], IoRead { offset: 100 + 1023 * 4096, len: 4096 });
}

#[test]
fn exclusive_heeds_what_is_tolerated() {
    let mut region = active();
    let slice = region.allocate(8).unwrap();
    assert!(!region.exclusive(false, false, false));
    assert!(!region.exclusive(false, true, true));
    assert!(region.exclusive(true, false, false));
    region.release_write(slice);
    assert!(region.exclusive(false, false, false));
}

#[test]
fn view_carries_the_current_version() {
    let mut region = Region::new(5, SIZE, ALIGN, ALIGN);
    assert_eq!(
        region.view(4096, 8192),
        RegionView { region_id: 5, offset: 4096, len: 8192, version: 1 }
    );
    region.advance();
    let view = region.view(0, 1);
    assert_eq!((view.id(), view.offset(), view.len(), view.version()), (5, 0, 1, 2));
}

#[test]
fn region_inner_attaches_and_detaches() {
    let mut inner = RegionInner::new(16);
    assert!(!inner.has_buffer());
    assert_eq!((inner.writers(), inner.buffered_readers(), inner.physical_readers()), (0, 0, 0));
    inner.attach_buffer(vec![5; 16]);
    assert!(inner.has_buffer());
    assert_eq!(inner.detach_buffer(), vec![5; 16]);
    assert!(!inner.has_buffer());
}

#[test]
fn geometry_is_checked() {
    assert!(Region::check_geometry(SIZE, ALIGN, 1));
    assert!(!Region::check_geometry(SIZE, 16, 1));
    assert!(!Region::check_geometry(SIZE, ALIGN, 0));
    assert!(!Region::check_geometry(SIZE + 1, ALIGN, 1));
    assert!(!Region::check_geometry(0, ALIGN, 1));
}
