use foyer_storage::bits::{align_down, align_up, checked_align_up};
use foyer_storage::checksum::checksum;
use foyer_storage::code::{append, append_zeros, bytes_eq, copy_range, write_at, zero_at};
use foyer_storage::compress::Compression;
use foyer_storage::entry::{entry_len, frame_entry, split_entry, EntryHeader};
use foyer_storage::error::Error;

#[test]
fn alignment_rounds_to_multiples() {
    assert_eq!(align_up(4096, 0), 0);
    assert_eq!(align_up(4096, 1), 4096);
    assert_eq!(align_up(4096, 4096), 4096);
    assert_eq!(align_up(4096, 4097), 8192);
    assert_eq!(align_up(3, 10), 12);
    assert_eq!(align_down(4096, 4095), 0);
    assert_eq!(align_down(4096, 4096), 4096);
    assert_eq!(align_down(4096, 8191), 4096);
    assert_eq!(align_down(3, 10), 9);
    assert_eq!(checked_align_up(4096, usize::MAX), None);
    assert_eq!(checked_align_up(4096, usize::MAX - 4095), Some(usize::MAX - 4095));
    assert_eq!(checked_align_up(1, usize::MAX), Some(usize::MAX));
}

#[test]
fn entry_length_counts_header_value_and_key() {
    assert_eq!(entry_len(4096, 8, 1024 * 1024), Some(1024 * 1024 + 4096));
    assert_eq!(entry_len(4096, 0, 4096 - 28), Some(4096));
    assert_eq!(entry_len(4096, 1, 4096 - 28), Some(8192));
    assert_eq!(entry_len(512, 0, 0), Some(512));
    assert_eq!(entry_len(4096, usize::MAX, 1), None);
}

#[test]
fn checksum_is_xxh64_with_seed_zero() {
    assert_eq!(checksum(b""), 0xEF46_DB37_51D8_E999);
    assert_eq!(checksum(b"a"), 0xD24E_C4F1_A98C_6E5B);
    assert_ne!(checksum(b"ab"), checksum(b"ba"));
}

#[test]
fn compression_tags() {
    assert_eq!(Compression::Off.to_u8(), 0);
    assert_eq!(Compression::Zstd.to_u8(), 1);
    assert_eq!(Compression::Lz4.to_u8(), 2);
    assert_eq!(Compression::try_from(0), Ok(Compression::Off));
    assert_eq!(Compression::try_from(1), Ok(Compression::Zstd));
    assert_eq!(Compression::try_from(2), Ok(Compression::Lz4));
    assert_eq!(Compression::try_from(3), Err(Error::Codec));
    assert_eq!(Compression::try_from(255), Err(Error::Codec));
}

#[test]
fn codecs_compress_and_invert() {
    let value = vec![7u8; 100_000];
    assert_eq!(Compression::Off.encode(&value), Ok(value.clone()));
    assert_eq!(Compression::Off.decode(&value), Ok(value.clone()));
    for compression in [Compression::Zstd, Compression::Lz4] {
        let stored = compression.encode(&value).unwrap();
        assert!(stored.len() < 1000);
        assert_ne!(stored, value);
        assert_eq!(compression.decode(&stored), Ok(value.clone()));
        assert_eq!(compression.encode(&value).unwrap(), stored);
    }
    // The two codecs write different frames.
    assert_ne!(Compression::Zstd.encode(&value), Compression::Lz4.encode(&value));
    assert_eq!(&Compression::Zstd.encode(b"").unwrap()[..4], &[0x28, 0xb5, 0x2f, 0xfd][..]);
    assert_eq!(&Compression::Lz4.encode(b"").unwrap()[..4], &[0x04, 0x22, 0x4d, 0x18][..]);
}

#[test]
fn codecs_refuse_what_is_no_frame() {
    assert_eq!(Compression::Zstd.decode(b"not a frame at all"), Err(Error::Codec));
    assert_eq!(Compression::Lz4.decode(b"not a frame at all"), Err(Error::Codec));
}

#[test]
fn framing_lays_out_header_value_key_and_padding() {
    let header = EntryHeader {
        key_len: 3,
        value_len: 5,
        sequence: 9,
        checksum: 1,
        compression: Compression::Off,
    };
    let image = frame_entry(&header, b"value", b"key", 64);
    assert_eq!(image.len(), 64);
    assert_eq!(&image[28..33], b"value");
    assert_eq!(&image[33..36], b"key");
    assert!(image[36..].iter().all(|b| *b == 0));
    assert_eq!(split_entry(&image), Ok((header, b"value".to_vec(), b"key".to_vec())));
    assert_eq!(split_entry(&image[..35]), Err(Error::Codec));
    assert_eq!(split_entry(&image[..20]), Err(Error::Codec));
}

#[test]
fn stored_checksum_covers_value_then_key() {
    let image =
        foyer_storage::entry::serialize_entry(b"key", b"value", 3, Compression::Off, 64).unwrap();
    let header = EntryHeader::read(&image).unwrap();
    assert_eq!(header.checksum, checksum(b"valuekey"));
    assert_eq!(header.key_len, 3);
    assert_eq!(header.value_len, 5);
    assert_eq!(header.sequence, 3);
    assert_eq!(EntryHeader::serialized_len(), 28);
}

#[test]
fn byte_helpers() {
    let mut v = vec![1u8, 2];
    append(&mut v, &[3, 4]);
    append_zeros(&mut v, 2);
    assert_eq!(v, vec![1, 2, 3, 4, 0, 0]);
    write_at(&mut v, 4, &[9, 9]);
    zero_at(&mut v, 0, 2);
    assert_eq!(v, vec![0, 0, 3, 4, 9, 9]);
    assert_eq!(copy_range(&v, 2, 5), vec![3, 4, 9]);
    assert!(bytes_eq(&v, &[0, 0, 3, 4, 9, 9]));
    assert!(!bytes_eq(&v, &[0, 0, 3, 4, 9]));
    assert!(!bytes_eq(&v, &[0, 0, 3, 4, 9, 8]));
    assert!(bytes_eq(&[], &[]));
}
