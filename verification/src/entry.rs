//! The framing of an entry on disk: a fixed header, the stored value, the key,
//! and zero padding up to the device's alignment.

use crate::bits::{checked_align_up, lemma_align_up, spec_align_up};
use crate::checksum::{checksum, xxh64};
use crate::code::{append, append_zeros, copy_range, zeros};
use crate::code::{copy_over, put_u32, put_u64, read_u32, read_u64};
use crate::code::{u32_be, u32_from_be, u64_be, u64_from_be};
use crate::code::{lemma_u32_be_round_trip, lemma_u64_be_round_trip};
use crate::compress::{lemma_tag_round_trip, result_view, Compression};
use crate::error::Error;
use vstd::prelude::*;

verus! {

/// The magic of an entry header: the high 24 bits of its last field.
pub const ENTRY_MAGIC: u32 = 0x9703_2700;

/// Selects the magic in the last field of an entry header.
pub const ENTRY_MAGIC_MASK: u32 = 0xFFFF_FF00;

/// The size of an entry header on disk.
pub const ENTRY_HEADER_LEN: usize = 28;

/// The fixed-size record in front of every entry.
#[derive(Debug, Clone, Copy, PartialEq, Eq, Structural)]
pub struct EntryHeader {
    pub key_len: u32,
    pub value_len: u32,
    pub sequence: u64,
    pub checksum: u64,
    pub compression: Compression,
}

/// The last field of a header: the magic with the compression tag below it.
pub open spec fn magic_and_compression(compression: Compression) -> u32 {
    (ENTRY_MAGIC + compression.tag()) as u32
}

impl EntryHeader {
    /// The 28 bytes of this header on disk.
    pub open spec fn bytes(self) -> Seq<u8> {
        u32_be(self.key_len) + u32_be(self.value_len) + u64_be(self.sequence) + u64_be(
            self.checksum,
        ) + u32_be(magic_and_compression(self.compression))
    }

    /// The header that the first 28 bytes of `buf` hold, or why they hold none.
    pub open spec fn spec_read(buf: Seq<u8>) -> Result<EntryHeader, Error> {
        let v = u32_from_be(buf.subrange(24, 28));
        if v / 0x100 != ENTRY_MAGIC / 0x100 {
            Err(Error::IntegrityMagic { expected: ENTRY_MAGIC as u64, got: (v - v % 0x100) as u64 })
        } else {
            match Compression::spec_try_from((v % 0x100) as u8) {
                Err(e) => Err(e),
                Ok(compression) => Ok(
                    EntryHeader {
                        key_len: u32_from_be(buf.subrange(0, 4)),
                        value_len: u32_from_be(buf.subrange(4, 8)),
                        sequence: u64_from_be(buf.subrange(8, 16)),
                        checksum: u64_from_be(buf.subrange(16, 24)),
                        compression,
                    },
                ),
            }
        }
    }

    pub fn serialized_len() -> (len: usize)
        ensures
            len == ENTRY_HEADER_LEN,
    {
        4 + 4 + 8 + 8 + 4
    }

    /// Writes the header over the first 28 bytes of `buf`.
    pub fn write(&self, buf: &mut [u8])
        requires
            old(buf)@.len() >= ENTRY_HEADER_LEN,
        ensures
            final(buf)@ == self.bytes() + old(buf)@.subrange(
                ENTRY_HEADER_LEN as int,
                old(buf)@.len() as int,
            ),
    {
        let mut bytes: Vec<u8> = Vec::new();
        put_u32(&mut bytes, self.key_len);
        put_u32(&mut bytes, self.value_len);
        put_u64(&mut bytes, self.sequence);
        put_u64(&mut bytes, self.checksum);
        let tag = self.compression.to_u8();
        let v = ENTRY_MAGIC | tag as u32;
        assert(v == ENTRY_MAGIC + tag) by (bit_vector)
            requires
                v == ENTRY_MAGIC | tag as u32,
        ;
        put_u32(&mut bytes, v);
        proof {
            lemma_header_round_trip(*self, Seq::empty());
            assert(bytes@ =~= self.bytes());
        }
        copy_over(buf, bytes.as_slice());
    }

    /// Reads a header from the first 28 bytes of `buf`. The magic is checked
    /// first, the compression tag after it.
    pub fn read(buf: &[u8]) -> (r: Result<EntryHeader, Error>)
        requires
            buf@.len() >= ENTRY_HEADER_LEN,
        ensures
            r == Self::spec_read(buf@),
    {
        let key_len = read_u32(buf, 0);
        let value_len = read_u32(buf, 4);
        let sequence = read_u64(buf, 8);
        let checksum = read_u64(buf, 16);
        let v = read_u32(buf, 24);
        let magic = v & ENTRY_MAGIC_MASK;
        assert(magic == v - v % 0x100 && (magic == ENTRY_MAGIC <==> v / 0x100 == ENTRY_MAGIC
            / 0x100)) by (bit_vector)
            requires
                magic == v & ENTRY_MAGIC_MASK,
        ;
        if magic != ENTRY_MAGIC {
            return Err(Error::IntegrityMagic { expected: ENTRY_MAGIC as u64, got: magic as u64 });
        }
        let tag = (v & 0xFF) as u8;
        assert(v & 0xFF == v % 0x100) by (bit_vector);
        let compression = Compression::try_from(tag)?;
        Ok(EntryHeader { key_len, value_len, sequence, checksum, compression })
    }
}

/// Reading the bytes of a header gives that header back, whatever follows them.
pub proof fn lemma_header_round_trip(header: EntryHeader, rest: Seq<u8>)
    ensures
        header.bytes().len() == ENTRY_HEADER_LEN,
        EntryHeader::spec_read(header.bytes() + rest) == Ok::<EntryHeader, Error>(header),
{
    let b = header.bytes() + rest;
    let m = magic_and_compression(header.compression);
    lemma_tag_round_trip(header.compression);
    lemma_u32_be_round_trip(header.key_len, Seq::empty());
    lemma_u32_be_round_trip(header.value_len, Seq::empty());
    lemma_u32_be_round_trip(m, Seq::empty());
    lemma_u64_be_round_trip(header.sequence, Seq::empty());
    lemma_u64_be_round_trip(header.checksum, Seq::empty());
    assert(b.subrange(0, 4) =~= u32_be(header.key_len));
    assert(b.subrange(4, 8) =~= u32_be(header.value_len));
    assert(b.subrange(8, 16) =~= u64_be(header.sequence));
    assert(b.subrange(16, 24) =~= u64_be(header.checksum));
    assert(b.subrange(24, 28) =~= u32_be(m));
    assert(m / 0x100 == ENTRY_MAGIC / 0x100);
    assert(m % 0x100 == header.compression.tag());
}

/// The length of an entry on disk: header, stored value and key, rounded up
/// to the alignment.
pub open spec fn spec_entry_len(align: int, key_len: int, stored_len: int) -> int {
    spec_align_up(align, ENTRY_HEADER_LEN + stored_len + key_len)
}

/// The header of the entry that holds `key` with the stored bytes `stored`.
pub open spec fn spec_header(
    key: Seq<u8>,
    stored: Seq<u8>,
    sequence: u64,
    compression: Compression,
) -> EntryHeader {
    EntryHeader {
        key_len: key.len() as u32,
        value_len: stored.len() as u32,
        sequence,
        checksum: xxh64(stored + key),
        compression,
    }
}

/// An entry on disk: the header, the stored value, the key, and zeros up to
/// the next multiple of `align`.
pub open spec fn spec_frame(header: EntryHeader, stored: Seq<u8>, key: Seq<u8>, align: int) -> Seq<
    u8,
> {
    let body = header.bytes() + stored + key;
    body + zeros((spec_align_up(align, body.len() as int) - body.len()) as nat)
}

/// The entry that is written for `key` and `value`, or why none is written:
/// the codec failed, a length does not fit its header field, or the entry's
/// length does not fit in memory.
pub open spec fn spec_serialize_entry(
    key: Seq<u8>,
    value: Seq<u8>,
    sequence: u64,
    compression: Compression,
    align: int,
) -> Result<Seq<u8>, Error> {
    match compression.spec_encode(value) {
        Err(e) => Err(e),
        Ok(stored) => if key.len() > u32::MAX || stored.len() > u32::MAX || spec_entry_len(
            align,
            key.len() as int,
            stored.len() as int,
        ) > usize::MAX {
            Err(Error::Codec)
        } else {
            Ok(spec_frame(spec_header(key, stored, sequence, compression), stored, key, align))
        },
    }
}

/// The header, the stored value and the key that `buf` starts with, or why it
/// starts with no entry: it is shorter than a header, the header is refused,
/// or the lengths in the header reach beyond `buf`.
pub open spec fn spec_split_entry(buf: Seq<u8>) -> Result<(EntryHeader, Seq<u8>, Seq<u8>), Error> {
    if buf.len() < ENTRY_HEADER_LEN {
        Err(Error::Codec)
    } else {
        match EntryHeader::spec_read(buf) {
            Err(e) => Err(e),
            Ok(header) => {
                let value_end = ENTRY_HEADER_LEN + header.value_len;
                let key_end = value_end + header.key_len;
                if key_end > buf.len() {
                    Err(Error::Codec)
                } else {
                    Ok((header, buf.subrange(ENTRY_HEADER_LEN as int, value_end), buf.subrange(
                        value_end,
                        key_end,
                    )))
                }
            },
        }
    }
}

/// What is made of an entry once its value is decoded and its checksum taken:
/// a failure to decode comes first, a wrong checksum second.
pub open spec fn spec_check_entry(
    header: EntryHeader,
    sum: u64,
    key: Seq<u8>,
    value: Result<Seq<u8>, Error>,
) -> Result<(Seq<u8>, Seq<u8>), Error> {
    match value {
        Err(e) => Err(e),
        Ok(value) => if sum != header.checksum {
            Err(Error::IntegrityChecksum { expected: header.checksum, got: sum })
        } else {
            Ok((key, value))
        },
    }
}

/// The key and the value of the entry that `buf` starts with, or why it yields none.
pub open spec fn spec_read_entry(buf: Seq<u8>) -> Result<(Seq<u8>, Seq<u8>), Error> {
    match spec_split_entry(buf) {
        Err(e) => Err(e),
        Ok((header, stored, key)) => spec_check_entry(
            header,
            xxh64(stored + key),
            key,
            header.compression.spec_decode(stored),
        ),
    }
}

/// The views of a key and a value, or the error in their place.
pub open spec fn pair_view(r: Result<(Vec<u8>, Vec<u8>), Error>) -> Result<
    (Seq<u8>, Seq<u8>),
    Error,
> {
    match r {
        Ok((key, value)) => Ok((key@, value@)),
        Err(e) => Err(e),
    }
}

/// The views of a split entry, or the error in its place.
pub open spec fn split_view(r: Result<(EntryHeader, Vec<u8>, Vec<u8>), Error>) -> Result<
    (EntryHeader, Seq<u8>, Seq<u8>),
    Error,
> {
    match r {
        Ok((header, stored, key)) => Ok((header, stored@, key@)),
        Err(e) => Err(e),
    }
}

/// The length on disk of an entry with a key of `key_len` bytes and
/// `stored_len` stored value bytes, or `None` where it does not fit in `usize`.
pub fn entry_len(align: usize, key_len: usize, stored_len: usize) -> (len: Option<usize>)
    requires
        align > 0,
    ensures
        match len {
            Some(len) => len == spec_entry_len(align as int, key_len as int, stored_len as int),
            None => spec_entry_len(align as int, key_len as int, stored_len as int) > usize::MAX,
        },
{
    proof {
        lemma_align_up(align as int, ENTRY_HEADER_LEN + stored_len + key_len);
    }
    let with_value = match ENTRY_HEADER_LEN.checked_add(stored_len) {
        Some(n) => n,
        None => return None,
    };
    match with_value.checked_add(key_len) {
        Some(unpadded) => checked_align_up(align, unpadded),
        None => None,
    }
}

/// Lays an entry out: the header, the stored value, the key and the padding.
pub fn frame_entry(header: &EntryHeader, stored: &[u8], key: &[u8], align: usize) -> (image: Vec<
    u8,
>)
    requires
        align > 0,
        spec_entry_len(align as int, key@.len() as int, stored@.len() as int) <= usize::MAX,
    ensures
        image@ == spec_frame(*header, stored@, key@, align as int),
        image@.len() == spec_entry_len(align as int, key@.len() as int, stored@.len() as int),
{
    proof {
        lemma_align_up(align as int, ENTRY_HEADER_LEN + stored@.len() + key@.len());
        lemma_header_round_trip(*header, Seq::empty());
    }
    let unpadded: usize = ENTRY_HEADER_LEN + stored.len() + key.len();
    let total = match checked_align_up(align, unpadded) {
        Some(total) => total,
        None => unpadded,
    };
    let mut image: Vec<u8> = Vec::new();
    append_zeros(&mut image, ENTRY_HEADER_LEN);
    header.write(image.as_mut_slice());
    assert(image@ =~= header.bytes());
    append(&mut image, stored);
    append(&mut image, key);
    append_zeros(&mut image, total - unpadded);
    image
}

/// Frames `key` and `value` as an entry: the value goes through the codec of
/// `compression`, and the checksum is taken over the stored value and the key.
pub fn serialize_entry(
    key: &[u8],
    value: &[u8],
    sequence: u64,
    compression: Compression,
    align: usize,
) -> (r: Result<Vec<u8>, Error>)
    requires
        align > 0,
    ensures
        result_view(r) == spec_serialize_entry(key@, value@, sequence, compression, align as int),
{
    let stored = compression.encode(value)?;
    if key.len() > u32::MAX as usize || stored.len() > u32::MAX as usize {
        return Err(Error::Codec);
    }
    if entry_len(align, key.len(), stored.len()).is_none() {
        return Err(Error::Codec);
    }
    let mut body: Vec<u8> = Vec::new();
    append(&mut body, stored.as_slice());
    append(&mut body, key);
    assert(body@ =~= stored@ + key@);
    let header = EntryHeader {
        key_len: key.len() as u32,
        value_len: stored.len() as u32,
        sequence,
        checksum: checksum(body.as_slice()),
        compression,
    };
    Ok(frame_entry(&header, stored.as_slice(), key, align))
}

/// Splits the entry that `buf` starts with into header, stored value and key.
pub fn split_entry(buf: &[u8]) -> (r: Result<(EntryHeader, Vec<u8>, Vec<u8>), Error>)
    ensures
        split_view(r) == spec_split_entry(buf@),
        match r {
            Ok((header, stored, key)) => {
                &&& stored@.len() == header.value_len
                &&& key@.len() == header.key_len
                &&& ENTRY_HEADER_LEN + stored@.len() + key@.len() <= buf@.len()
            },
            Err(_) => true,
        },
{
    if buf.len() < ENTRY_HEADER_LEN {
        return Err(Error::Codec);
    }
    let header = EntryHeader::read(buf)?;
    let room = buf.len() - ENTRY_HEADER_LEN;
    if header.value_len as usize > room || header.key_len as usize > room
        - header.value_len as usize {
        return Err(Error::Codec);
    }
    let value_end = ENTRY_HEADER_LEN + header.value_len as usize;
    let key_end = value_end + header.key_len as usize;
    let stored = copy_range(buf, ENTRY_HEADER_LEN, value_end);
    let key = copy_range(buf, value_end, key_end);
    Ok((header, stored, key))
}

/// Decides on an entry from its header, the checksum taken over its stored
/// value and key, and what decoding the stored value gave.
pub fn check_entry(header: &EntryHeader, sum: u64, key: Vec<u8>, value: Result<Vec<u8>, Error>) -> (r:
    Result<(Vec<u8>, Vec<u8>), Error>)
    ensures
        pair_view(r) == spec_check_entry(*header, sum, key@, result_view(value)),
{
    let value = value?;
    if sum != header.checksum {
        return Err(Error::IntegrityChecksum { expected: header.checksum, got: sum });
    }
    Ok((key, value))
}

/// Reads the key and the value of the entry that `buf` starts with. The header
/// is checked first, then the value is decoded, then the checksum is compared.
pub fn read_entry(buf: &[u8]) -> (r: Result<(Vec<u8>, Vec<u8>), Error>)
    ensures
        pair_view(r) == spec_read_entry(buf@),
{
    let total = buf.len();
    match split_entry(buf) {
        Err(e) => Err(e),
        Ok((header, stored, key)) => {
            assert(ENTRY_HEADER_LEN + stored@.len() + key@.len() <= total);
            assert(spec_split_entry(buf@) == Ok::<(EntryHeader, Seq<u8>, Seq<u8>), Error>(
                (header, stored@, key@),
            ));
            let value = header.compression.decode(stored.as_slice());
            let key_end = ENTRY_HEADER_LEN + stored.len() + key.len();
            let sum = checksum(vstd::slice::slice_subrange(buf, ENTRY_HEADER_LEN, key_end));
            assert(buf@.subrange(ENTRY_HEADER_LEN as int, key_end as int) =~= stored@ + key@);
            check_entry(&header, sum, key, value)
        },
    }
}

/// A framed entry splits into the parts it was framed from, whatever follows it.
pub proof fn lemma_frame_splits(
    header: EntryHeader,
    stored: Seq<u8>,
    key: Seq<u8>,
    align: int,
    rest: Seq<u8>,
)
    requires
        align > 0,
        header.value_len == stored.len(),
        header.key_len == key.len(),
    ensures
        spec_frame(header, stored, key, align).len() == spec_entry_len(
            align,
            key.len() as int,
            stored.len() as int,
        ),
        spec_split_entry(spec_frame(header, stored, key, align) + rest) == Ok::<
            (EntryHeader, Seq<u8>, Seq<u8>),
            Error,
        >((header, stored, key)),
{
    let image = spec_frame(header, stored, key, align);
    let body = header.bytes() + stored + key;
    lemma_header_round_trip(header, Seq::empty());
    lemma_align_up(align, body.len() as int);
    let buf = image + rest;
    let tail = stored + key + zeros((image.len() - body.len()) as nat) + rest;
    assert(buf =~= header.bytes() + tail);
    lemma_header_round_trip(header, tail);
    let value_end = ENTRY_HEADER_LEN + header.value_len;
    let key_end = value_end + header.key_len;
    assert(buf.subrange(ENTRY_HEADER_LEN as int, value_end) =~= stored);
    assert(buf.subrange(value_end, key_end) =~= key);
}

/// What was framed reads back: where an entry is written for a key and a
/// value, and decoding inverts encoding on that value, reading the entry gives
/// the key and the value. Without compression that holds of every value.
pub proof fn lemma_entry_round_trip(
    key: Seq<u8>,
    value: Seq<u8>,
    sequence: u64,
    compression: Compression,
    align: int,
)
    requires
        align > 0,
        spec_serialize_entry(key, value, sequence, compression, align) is Ok,
        compression.round_trips(value),
    ensures
        spec_read_entry(spec_serialize_entry(key, value, sequence, compression, align)->Ok_0)
            == Ok::<(Seq<u8>, Seq<u8>), Error>((key, value)),
{
    let stored = compression.spec_encode(value)->Ok_0;
    let header = spec_header(key, stored, sequence, compression);
    let image = spec_frame(header, stored, key, align);
    assert(spec_serialize_entry(key, value, sequence, compression, align) == Ok::<
        Seq<u8>,
        Error,
    >(image));
    lemma_frame_splits(header, stored, key, align, Seq::empty());
    assert(image + Seq::<u8>::empty() =~= image);
    assert(spec_split_entry(image) == Ok::<(EntryHeader, Seq<u8>, Seq<u8>), Error>(
        (header, stored, key),
    ));
}

/// Without compression an entry is written for every key and value whose
/// lengths fit, and it reads back as that key and that value.
pub proof fn lemma_entry_round_trip_uncompressed(
    key: Seq<u8>,
    value: Seq<u8>,
    sequence: u64,
    align: int,
)
    requires
        align > 0,
        key.len() <= u32::MAX,
        value.len() <= u32::MAX,
        spec_entry_len(align, key.len() as int, value.len() as int) <= usize::MAX,
    ensures
        spec_serialize_entry(key, value, sequence, Compression::Off, align) is Ok,
        spec_read_entry(spec_serialize_entry(key, value, sequence, Compression::Off, align)->Ok_0)
            == Ok::<(Seq<u8>, Seq<u8>), Error>((key, value)),
{
    lemma_entry_round_trip(key, value, sequence, Compression::Off, align);
}

} // verus!
