use foyer_storage::compress::Compression;
use foyer_storage::entry::{read_entry, serialize_entry, EntryHeader};
use foyer_storage::error::Error;

#[test]
fn header_round_trip() {
    let header = EntryHeader {
        key_len: 8,
        value_len: 1024,
        sequence: 0x0102_0304_0506_0708,
        checksum: 0xdead_beef_cafe_f00d,
        compression: Compression::Lz4,
    };
    let mut buf = vec![0xffu8; 32];
    header.write(&mut buf);
    assert_eq!(
        &buf[..],
        &[
            0, 0, 0, 8, 0, 0, 4, 0, 1, 2, 3, 4, 5, 6, 7, 8, 0xde, 0xad, 0xbe, 0xef, 0xca, 0xfe,
            0xf0, 0x0d, 0x97, 0x03, 0x27, 0x02, 0xff, 0xff, 0xff, 0xff
        ][..]
    );
    assert_eq!(EntryHeader::read(&buf), Ok(header));
}

#[test]
fn entry_round_trip_each_compression() {
    for compression in [Compression::Off, Compression::Zstd, Compression::Lz4] {
        let key = 42u64.to_be_bytes().to_vec();
        let value: Vec<u8> = (0..10_000u32).map(|i| (i % 7) as u8).collect();
        let image = serialize_entry(&key, &value, 7, compression, 4096).unwrap();
        assert_eq!(image.len() % 4096, 0);
        assert_eq!(read_entry(&image), Ok((key, value)));
    }
}

#[test]
fn corrupted_entry_is_refused() {
    let image = serialize_entry(b"key", b"value", 1, Compression::Off, 512).unwrap();
    let mut bad = image.clone();
    bad[30] ^= 1;
    assert!(matches!(read_entry(&bad), Err(Error::IntegrityChecksum { .. })));
    let mut bad = image.clone();
    bad[24] = 0;
    assert!(matches!(read_entry(&bad), Err(Error::IntegrityMagic { .. })));
    let mut bad = image;
    bad[27] = 9;
    assert_eq!(read_entry(&bad), Err(Error::Codec));
}
