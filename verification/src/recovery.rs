//! Reading the entries of a region back: what the catalog is rebuilt from
//! when the store is opened. A region is walked either on its whole image or
//! block by block, where only the header blocks and the blocks of the keys
//! are read; both ways find the same entries.

use crate::bits::{align_down, checked_align_up, lemma_align_down, lemma_align_up};
use crate::bits::{lemma_align_up_le_multiple, spec_align_down, spec_align_up};
use crate::catalog::{Index, IndexView, Item, ItemView};
use crate::code::{copy_range, u64_from_be};
use crate::entry::{entry_len, read_entry, spec_entry_len, spec_read_entry};
use crate::entry::{lemma_frame_splits, lemma_header_round_trip, spec_frame};
use crate::entry::{EntryHeader, ENTRY_HEADER_LEN};
use crate::region::{IoRead, Region, RegionHeader, RegionId, RegionView, Version};
use crate::region::{REGION_HEADER_LEN, REGION_MAGIC};
use vstd::prelude::*;
use vstd::slice::slice_subrange;

verus! {

/// Whether an image starts with the header of a valid region.
pub open spec fn spec_valid_region(image: Seq<u8>) -> bool {
    image.len() >= REGION_HEADER_LEN && u64_from_be(image.subrange(0, REGION_HEADER_LEN as int))
        == REGION_MAGIC
}

/// The entry that starts at `cursor`: its header and its key. There is none
/// where no more than the footer block is left, where the header is refused,
/// where the key is empty, or where the entry would reach beyond the region.
pub open spec fn spec_next(image: Seq<u8>, align: int, cursor: int) -> Option<
    (EntryHeader, Seq<u8>),
> {
    if cursor < 0 || cursor + align >= image.len() || cursor + ENTRY_HEADER_LEN > image.len() {
        None
    } else {
        match EntryHeader::spec_read(image.subrange(cursor, cursor + ENTRY_HEADER_LEN)) {
            Err(_) => None,
            Ok(header) => {
                let start = cursor + ENTRY_HEADER_LEN + header.value_len;
                let end = start + header.key_len;
                if start >= end || cursor + spec_entry_len(
                    align,
                    header.key_len as int,
                    header.value_len as int,
                ) > image.len() {
                    None
                } else {
                    Some((header, image.subrange(start, end)))
                }
            },
        }
    }
}

/// The catalog item for the entry with `header` at `cursor`.
pub open spec fn spec_item(
    header: EntryHeader,
    align: int,
    cursor: int,
    region_id: RegionId,
    version: Version,
) -> ItemView {
    ItemView {
        sequence: header.sequence,
        index: IndexView::Region {
            view: RegionView {
                region_id,
                offset: cursor as u32,
                len: spec_entry_len(align, header.key_len as int, header.value_len as int) as u32,
                version,
            },
        },
    }
}

/// The entries of a region from `cursor` on, in the order they are stored,
/// up to the first place where none starts.
pub open spec fn spec_scan(
    image: Seq<u8>,
    align: int,
    cursor: int,
    region_id: RegionId,
    version: Version,
) -> Seq<(Seq<u8>, ItemView)>
    decreases image.len() - cursor,
{
    match spec_next(image, align, cursor) {
        None => Seq::empty(),
        Some((header, key)) => {
            let len = spec_entry_len(align, header.key_len as int, header.value_len as int);
            if len <= 0 {
                Seq::empty()
            } else {
                seq![(key, spec_item(header, align, cursor, region_id, version))] + spec_scan(
                    image,
                    align,
                    cursor + len,
                    region_id,
                    version,
                )
            }
        },
    }
}

/// Walks the entries of one region, from the block behind the region header on.
#[derive(Debug)]
pub struct RegionEntryIter {
    region_id: RegionId,
    version: Version,
    align: usize,
    image: Vec<u8>,
    cursor: usize,
}

impl RegionEntryIter {
    pub closed spec fn image(&self) -> Seq<u8> {
        self.image@
    }

    pub closed spec fn spec_align(&self) -> usize {
        self.align
    }

    pub closed spec fn spec_cursor(&self) -> usize {
        self.cursor
    }

    pub closed spec fn region_id(&self) -> RegionId {
        self.region_id
    }

    pub closed spec fn version(&self) -> Version {
        self.version
    }

    /// The iterator stands inside an image whose offsets fit a view.
    pub open spec fn wf(&self) -> bool {
        &&& self.spec_align() >= ENTRY_HEADER_LEN
        &&& self.spec_cursor() <= self.image().len() <= u32::MAX
    }

    /// The entries that are still to come.
    pub open spec fn rest(&self) -> Seq<(Seq<u8>, ItemView)> {
        spec_scan(
            self.image(),
            self.spec_align() as int,
            self.spec_cursor() as int,
            self.region_id(),
            self.version(),
        )
    }

    /// Starts an iterator on the image of `region`, or gives none where the
    /// image does not start with the header of a valid region.
    pub fn open(region: &Region, image: Vec<u8>) -> (r: Option<Self>)
        requires
            region.wf(),
            image@.len() == region.state().capacity,
        ensures
            r is Some <==> spec_valid_region(image@),
            match r {
                Some(iter) => {
                    &&& iter.wf()
                    &&& iter.image() == image@
                    &&& iter.spec_align() == region.spec_align()
                    &&& iter.spec_cursor() == region.spec_align()
                    &&& iter.region_id() == region.spec_id()
                    &&& iter.version() == region.state().version
                },
                None => true,
            },
    {
        let header = RegionHeader::read(image.as_slice());
        if header.magic != REGION_MAGIC {
            return None;
        }
        Some(
            RegionEntryIter {
                region_id: region.id(),
                version: region.version(),
                align: region.align(),
                image,
                cursor: region.align(),
            },
        )
    }

    /// Where the iterator stands.
    pub fn cursor(&self) -> (cursor: usize)
        ensures
            cursor == self.spec_cursor(),
    {
        self.cursor
    }

    /// Reads the entry at the cursor and moves behind it. The iterator ends,
    /// and stays where it is, at the first place where no entry starts.
    pub fn next(&mut self) -> (r: Option<(Vec<u8>, Item)>)
        requires
            old(self).wf(),
        ensures
            final(self).wf(),
            final(self).image() == old(self).image(),
            final(self).spec_align() == old(self).spec_align(),
            final(self).region_id() == old(self).region_id(),
            final(self).version() == old(self).version(),
            match spec_next(
                old(self).image(),
                old(self).spec_align() as int,
                old(self).spec_cursor() as int,
            ) {
                None => r is None && final(self).spec_cursor() == old(self).spec_cursor(),
                Some((header, key)) => {
                    &&& r is Some
                    &&& r->Some_0.0@ == key
                    &&& r->Some_0.1@ == spec_item(
                        header,
                        old(self).spec_align() as int,
                        old(self).spec_cursor() as int,
                        old(self).region_id(),
                        old(self).version(),
                    )
                    &&& final(self).spec_cursor() == old(self).spec_cursor() + spec_entry_len(
                        old(self).spec_align() as int,
                        header.key_len as int,
                        header.value_len as int,
                    )
                    &&& final(self).spec_cursor() > old(self).spec_cursor()
                },
            },
            r is None ==> old(self).rest() == Seq::<(Seq<u8>, ItemView)>::empty(),
            r is Some ==> old(self).rest() == seq![(r->Some_0.0@, r->Some_0.1@)] + final(self).rest(),
    {
        let region_size = self.image.len();
        let align = self.align;
        let cursor = self.cursor;
        let room = region_size - cursor;
        if room <= align {
            return None;
        }
        let header = match EntryHeader::read(
            slice_subrange(self.image.as_slice(), cursor, cursor + ENTRY_HEADER_LEN),
        ) {
            Ok(header) => header,
            Err(_) => return None,
        };
        let len = match entry_len(align, header.key_len as usize, header.value_len as usize) {
            Some(len) => len,
            None => return None,
        };
        proof {
            lemma_align_up(align as int, ENTRY_HEADER_LEN + header.value_len + header.key_len);
        }
        if header.key_len == 0 || len > room {
            return None;
        }
        let start = cursor + ENTRY_HEADER_LEN + header.value_len as usize;
        let end = start + header.key_len as usize;
        let key = copy_range(self.image.as_slice(), start, end);
        let item = Item::new(
            header.sequence,
            Index::Region {
                view: RegionView {
                    region_id: self.region_id,
                    offset: cursor as u32,
                    len: len as u32,
                    version: self.version,
                },
            },
        );
        self.cursor = cursor + len;
        Some((key, item))
    }

    /// Reads the key and the value of the entry at the cursor and moves behind
    /// it. There is none where no entry starts at the cursor, and none where
    /// the entry there does not read back: then the iterator has still moved on.
    pub fn next_kv(&mut self) -> (r: Option<(Vec<u8>, Vec<u8>)>)
        requires
            old(self).wf(),
        ensures
            final(self).wf(),
            final(self).image() == old(self).image(),
            final(self).spec_align() == old(self).spec_align(),
            final(self).region_id() == old(self).region_id(),
            final(self).version() == old(self).version(),
            match spec_next(
                old(self).image(),
                old(self).spec_align() as int,
                old(self).spec_cursor() as int,
            ) {
                None => r is None && final(self).spec_cursor() == old(self).spec_cursor(),
                Some((header, key)) => {
                    &&& final(self).spec_cursor() == old(self).spec_cursor() + spec_entry_len(
                        old(self).spec_align() as int,
                        header.key_len as int,
                        header.value_len as int,
                    )
                    &&& match spec_read_entry(
                        old(self).image().subrange(
                            old(self).spec_cursor() as int,
                            final(self).spec_cursor() as int,
                        ),
                    ) {
                        Ok(kv) => r is Some && r->Some_0.0@ == kv.0 && r->Some_0.1@ == kv.1,
                        Err(_) => r is None,
                    }
                },
            },
    {
        let start = self.cursor;
        match self.next() {
            None => None,
            Some(_) => {
                let end = self.cursor;
                match read_entry(slice_subrange(self.image.as_slice(), start, end)) {
                    Ok(kv) => Some(kv),
                    Err(_) => None,
                }
            },
        }
    }
}

/// Where the key of an entry is to be had from, once its header block is read.
#[derive(Debug, Clone, Copy, PartialEq, Eq, Structural)]
pub enum KeyRead {
    /// The key lies in the header block, from `start` up to `end` of the block.
    InBlock { start: usize, end: usize },
    /// The key reaches beyond the header block: the blocks that cover it are
    /// to be read by `read`, and the key lies from `from` up to `to` of them.
    Blocks { read: IoRead, from: usize, to: usize },
}

/// The entry whose header block, read at `cursor`, is `block`: its header, and
/// where in the region its key starts and ends. There is none where no more
/// than the footer block is left, where the header is refused, where the key
/// is empty, or where the entry would reach beyond the region.
pub open spec fn spec_locate(block: Seq<u8>, align: int, cursor: int, region_size: int) -> Option<
    (EntryHeader, int, int),
> {
    if cursor < 0 || cursor + align >= region_size || block.len() < ENTRY_HEADER_LEN {
        None
    } else {
        match EntryHeader::spec_read(block.subrange(0, ENTRY_HEADER_LEN as int)) {
            Err(_) => None,
            Ok(header) => {
                let start = cursor + ENTRY_HEADER_LEN + header.value_len;
                let end = start + header.key_len;
                if start >= end || cursor + spec_entry_len(
                    align,
                    header.key_len as int,
                    header.value_len as int,
                ) > region_size {
                    None
                } else {
                    Some((header, start, end))
                }
            },
        }
    }
}

/// How the key that lies from `start` up to `end` of the region is read, when
/// the block at `cursor` has been read already: out of that block where the
/// key lies within it, and otherwise by one more read of the blocks that
/// cover the key.
pub open spec fn spec_key_read(align: int, cursor: int, start: int, end: int) -> KeyRead {
    if end <= cursor + align {
        KeyRead::InBlock { start: (start - cursor) as usize, end: (end - cursor) as usize }
    } else {
        let first = spec_align_down(align, start);
        KeyRead::Blocks {
            read: IoRead {
                offset: first as usize,
                len: (spec_align_up(align, end) - first) as usize,
            },
            from: (start - first) as usize,
            to: (end - first) as usize,
        }
    }
}

/// Reading block by block finds what lies in the image: the entry located
/// from the block at the cursor is the entry that starts there in the image,
/// and its key is found where the key read says, in the block itself or in
/// the blocks of the one more read, which lie within the region.
pub proof fn lemma_blocks_agree(image: Seq<u8>, align: int, cursor: int)
    requires
        align >= ENTRY_HEADER_LEN,
        0 <= cursor,
        cursor + align <= image.len() <= u32::MAX,
        image.len() as int % align == 0,
    ensures
        ({
            let block = image.subrange(cursor, cursor + align);
            match spec_locate(block, align, cursor, image.len() as int) {
                None => spec_next(image, align, cursor) is None,
                Some((header, start, end)) => {
                    &&& spec_next(image, align, cursor) == Some((header, image.subrange(start, end)))
                    &&& match spec_key_read(align, cursor, start, end) {
                        KeyRead::InBlock { start: from, end: to } => block.subrange(
                            from as int,
                            to as int,
                        ) == image.subrange(start, end),
                        KeyRead::Blocks { read, from, to } => {
                            &&& read.offset + read.len <= image.len()
                            &&& from <= to <= read.len
                            &&& image.subrange(
                                read.offset as int,
                                read.offset + read.len,
                            ).subrange(from as int, to as int) == image.subrange(start, end)
                        },
                    }
                },
            }
        }),
{
    let block = image.subrange(cursor, cursor + align);
    assert(block.subrange(0, ENTRY_HEADER_LEN as int) =~= image.subrange(
        cursor,
        cursor + ENTRY_HEADER_LEN,
    ));
    match spec_locate(block, align, cursor, image.len() as int) {
        None => {},
        Some((header, start, end)) => {
            lemma_align_up(align, ENTRY_HEADER_LEN + header.value_len + header.key_len);
            match spec_key_read(align, cursor, start, end) {
                KeyRead::InBlock { start: from, end: to } => {
                    assert(block.subrange(from as int, to as int) =~= image.subrange(start, end));
                },
                KeyRead::Blocks { read, from, to } => {
                    lemma_align_down(align, start);
                    lemma_align_up(align, end);
                    lemma_align_up_le_multiple(align, end, image.len() as int);
                    assert(image.subrange(read.offset as int, read.offset + read.len).subrange(
                        from as int,
                        to as int,
                    ) =~= image.subrange(start, end));
                },
            }
        },
    }
}

/// What a step of a scan block by block came to.
#[derive(Debug)]
pub enum Scanned {
    /// No entry starts at the cursor: the scan is over.
    End,
    /// The entry at the cursor, with its key out of the header block. The
    /// scan has moved behind the entry.
    Entry(Vec<u8>, Item),
    /// The entry at the cursor has its key beyond the header block: `read` is
    /// to be carried out, and the scan goes on with the header and what was read.
    Key { header: EntryHeader, read: IoRead, from: usize, to: usize },
}

/// Walks the entries of one region block by block: of every entry the header
/// block is read, and the blocks of its key where the key lies beyond it. The
/// values are not read.
#[derive(Debug)]
pub struct RegionScanner {
    region_id: RegionId,
    version: Version,
    align: usize,
    region_size: usize,
    cursor: usize,
}

impl RegionScanner {
    pub closed spec fn spec_align(&self) -> usize {
        self.align
    }

    pub closed spec fn spec_region_size(&self) -> usize {
        self.region_size
    }

    pub closed spec fn spec_cursor(&self) -> usize {
        self.cursor
    }

    pub closed spec fn region_id(&self) -> RegionId {
        self.region_id
    }

    pub closed spec fn version(&self) -> Version {
        self.version
    }

    /// The scanner stands inside a region of whole blocks whose offsets fit a view.
    pub open spec fn wf(&self) -> bool {
        &&& self.spec_align() >= ENTRY_HEADER_LEN
        &&& self.spec_region_size() % self.spec_align() == 0
        &&& self.spec_cursor() <= self.spec_region_size() <= u32::MAX
    }

    /// Whether the scanner differs from `other` in its cursor at most.
    pub open spec fn same_region(&self, other: &RegionScanner) -> bool {
        &&& self.spec_align() == other.spec_align()
        &&& self.spec_region_size() == other.spec_region_size()
        &&& self.region_id() == other.region_id()
        &&& self.version() == other.version()
    }

    /// The item of the entry with `header` at the cursor.
    pub open spec fn item(&self, header: EntryHeader) -> ItemView {
        spec_item(
            header,
            self.spec_align() as int,
            self.spec_cursor() as int,
            self.region_id(),
            self.version(),
        )
    }

    /// The cursor behind the entry with `header` at the cursor.
    pub open spec fn behind(&self, header: EntryHeader) -> int {
        self.spec_cursor() + spec_entry_len(
            self.spec_align() as int,
            header.key_len as int,
            header.value_len as int,
        )
    }

    /// Starts a scan of `region` from its first block, or gives none where
    /// the block does not start with the header of a valid region.
    pub fn open(region: &Region, block: &[u8]) -> (r: Option<Self>)
        requires
            region.wf(),
            block@.len() >= REGION_HEADER_LEN,
        ensures
            r is Some <==> spec_valid_region(block@),
            match r {
                Some(scanner) => {
                    &&& scanner.wf()
                    &&& scanner.spec_align() == region.spec_align()
                    &&& scanner.spec_region_size() == region.state().capacity
                    &&& scanner.spec_cursor() == region.spec_align()
                    &&& scanner.region_id() == region.spec_id()
                    &&& scanner.version() == region.state().version
                },
                None => true,
            },
    {
        let header = RegionHeader::read(block);
        if header.magic != REGION_MAGIC {
            return None;
        }
        Some(
            RegionScanner {
                region_id: region.id(),
                version: region.version(),
                align: region.align(),
                region_size: region.region_size(),
                cursor: region.align(),
            },
        )
    }

    /// Where the scanner stands.
    pub fn cursor(&self) -> (cursor: usize)
        ensures
            cursor == self.spec_cursor(),
    {
        self.cursor
    }

    /// The header block to read next: the block at the cursor, or none where
    /// no more than the footer block is left.
    pub fn header_block(&self) -> (read: Option<IoRead>)
        requires
            self.wf(),
        ensures
            read == if self.spec_cursor() + self.spec_align() >= self.spec_region_size() {
                None
            } else {
                Some(IoRead { offset: self.spec_cursor(), len: self.spec_align() })
            },
    {
        if self.region_size - self.cursor <= self.align {
            None
        } else {
            Some(IoRead { offset: self.cursor, len: self.align })
        }
    }

    /// Takes the header block at the cursor. Where no entry starts there the
    /// scan is over. Where the key of the entry lies within the block, the
    /// entry is handed out and the scan moves behind it. Where it does not,
    /// the blocks that cover the key are asked for, and the scan waits.
    pub fn next(&mut self, block: &[u8]) -> (r: Scanned)
        requires
            old(self).wf(),
            block@.len() == old(self).spec_align(),
        ensures
            final(self).wf(),
            final(self).same_region(old(self)),
            match spec_locate(
                block@,
                old(self).spec_align() as int,
                old(self).spec_cursor() as int,
                old(self).spec_region_size() as int,
            ) {
                None => r is End && final(self).spec_cursor() == old(self).spec_cursor(),
                Some((header, start, end)) => match spec_key_read(
                    old(self).spec_align() as int,
                    old(self).spec_cursor() as int,
                    start,
                    end,
                ) {
                    KeyRead::InBlock { start: from, end: to } => {
                        &&& r matches Scanned::Entry(key, item)
                        &&& key@ == block@.subrange(from as int, to as int)
                        &&& item@ == old(self).item(header)
                        &&& final(self).spec_cursor() == old(self).behind(header)
                    },
                    KeyRead::Blocks { read, from, to } => {
                        &&& r matches Scanned::Key { header: h, read: rd, from: f, to: t }
                        &&& h == header && rd == read && f == from && t == to
                        &&& final(self).spec_cursor() == old(self).spec_cursor()
                    },
                },
            },
    {
        let align = self.align;
        let cursor = self.cursor;
        let room = self.region_size - cursor;
        if room <= align {
            return Scanned::End;
        }
        let header = match EntryHeader::read(slice_subrange(block, 0, ENTRY_HEADER_LEN)) {
            Ok(header) => header,
            Err(_) => return Scanned::End,
        };
        let len = match entry_len(align, header.key_len as usize, header.value_len as usize) {
            Some(len) => len,
            None => return Scanned::End,
        };
        proof {
            lemma_align_up(align as int, ENTRY_HEADER_LEN + header.value_len + header.key_len);
        }
        if header.key_len == 0 || len > room {
            return Scanned::End;
        }
        let start = cursor + ENTRY_HEADER_LEN + header.value_len as usize;
        let end = start + header.key_len as usize;
        if end <= cursor + align {
            let key = copy_range(block, start - cursor, end - cursor);
            let item = self.make_item(&header, len);
            self.cursor = cursor + len;
            Scanned::Entry(key, item)
        } else {
            proof {
                lemma_align_down(align as int, start as int);
                lemma_align_up(align as int, end as int);
                lemma_align_up_le_multiple(align as int, end as int, self.region_size as int);
            }
            let first = align_down(align, start);
            let last = match checked_align_up(align, end) {
                Some(last) => last,
                None => vstd::pervasive::unreached(),
            };
            Scanned::Key {
                header,
                read: IoRead { offset: first, len: last - first },
                from: start - first,
                to: end - first,
            }
        }
    }

    /// Whether `bytes` can hold, from `from` up to `to`, the key of the entry
    /// with `header` at the cursor.
    pub open spec fn key_fits(&self, header: EntryHeader, bytes: Seq<u8>, from: usize, to: usize) -> bool {
        &&& from <= to <= bytes.len()
        &&& to - from == header.key_len
        &&& header.key_len > 0
        &&& self.spec_cursor() + self.spec_align() < self.spec_region_size()
        &&& self.behind(header) <= self.spec_region_size()
    }

    /// Takes the blocks that were read for the key of the entry with
    /// `header` at the cursor, hands the entry out, and moves behind it.
    /// Nothing is handed out, and the scan stays, where the bytes cannot hold
    /// the key of such an entry.
    pub fn next_key(&mut self, header: &EntryHeader, bytes: &[u8], from: usize, to: usize) -> (r:
        Option<(Vec<u8>, Item)>)
        requires
            old(self).wf(),
        ensures
            final(self).wf(),
            final(self).same_region(old(self)),
            r is Some == old(self).key_fits(*header, bytes@, from, to),
            match r {
                Some((key, item)) => {
                    &&& key@ == bytes@.subrange(from as int, to as int)
                    &&& item@ == old(self).item(*header)
                    &&& final(self).spec_cursor() == old(self).behind(*header)
                },
                None => final(self).spec_cursor() == old(self).spec_cursor(),
            },
    {
        let room = self.region_size - self.cursor;
        if from > to || to > bytes.len() || header.key_len == 0 || to - from
            != header.key_len as usize || room <= self.align {
            return None;
        }
        let len = match entry_len(self.align, header.key_len as usize, header.value_len as usize) {
            Some(len) => len,
            None => return None,
        };
        if len > room {
            return None;
        }
        let key = copy_range(bytes, from, to);
        let item = self.make_item(header, len);
        self.cursor = self.cursor + len;
        Some((key, item))
    }

    fn make_item(&self, header: &EntryHeader, len: usize) -> (item: Item)
        requires
            self.wf(),
            len == spec_entry_len(
                self.spec_align() as int,
                header.key_len as int,
                header.value_len as int,
            ),
            self.spec_cursor() + len <= self.spec_region_size(),
        ensures
            item@ == self.item(*header),
    {
        Item::new(
            header.sequence,
            Index::Region {
                view: RegionView {
                    region_id: self.region_id,
                    offset: self.cursor as u32,
                    len: len as u32,
                    version: self.version,
                },
            },
        )
    }
}

/// An entry as it is laid out in a region.
pub struct Written {
    pub header: EntryHeader,
    /// The value as it is stored.
    pub stored: Seq<u8>,
    pub key: Seq<u8>,
}

impl Written {
    /// The header gives the lengths of the stored value and of the key, and
    /// the key is not empty.
    pub open spec fn well_framed(self) -> bool {
        &&& self.header.key_len == self.key.len()
        &&& self.header.value_len == self.stored.len()
        &&& self.key.len() > 0
    }

    /// The bytes of the entry on disk.
    pub open spec fn frame(self, align: int) -> Seq<u8> {
        spec_frame(self.header, self.stored, self.key, align)
    }
}

/// The bytes of entries that are laid out one behind the other.
pub open spec fn spec_layout(entries: Seq<Written>, align: int) -> Seq<u8>
    decreases entries.len(),
{
    if entries.len() == 0 {
        Seq::empty()
    } else {
        entries[0].frame(align) + spec_layout(entries.skip(1), align)
    }
}

/// The catalog items of entries that are laid out from `cursor` on.
pub open spec fn spec_items(
    entries: Seq<Written>,
    align: int,
    cursor: int,
    region_id: RegionId,
    version: Version,
) -> Seq<(Seq<u8>, ItemView)>
    decreases entries.len(),
{
    if entries.len() == 0 {
        Seq::empty()
    } else {
        seq![(entries[0].key, spec_item(entries[0].header, align, cursor, region_id, version))]
            + spec_items(
            entries.skip(1),
            align,
            cursor + entries[0].frame(align).len(),
            region_id,
            version,
        )
    }
}

/// What was written is found again, and what lies behind it does no harm:
/// where well-framed entries are laid out behind `head`, and no entry starts
/// behind the last of them, be it that the header there is damaged or that
/// only padding follows, the scan from the end of `head` yields those
/// entries, each with its key, its sequence and its place, in order.
pub proof fn lemma_scan_layout(
    entries: Seq<Written>,
    align: int,
    head: Seq<u8>,
    tail: Seq<u8>,
    region_id: RegionId,
    version: Version,
)
    requires
        align >= ENTRY_HEADER_LEN,
        forall|i: int| 0 <= i < entries.len() ==> (#[trigger] entries[i]).well_framed(),
        tail.len() > 0,
        spec_next(
            head + spec_layout(entries, align) + tail,
            align,
            (head.len() + spec_layout(entries, align).len()) as int,
        ) is None,
    ensures
        spec_scan(
            head + spec_layout(entries, align) + tail,
            align,
            head.len() as int,
            region_id,
            version,
        ) == spec_items(entries, align, head.len() as int, region_id, version),
    decreases entries.len(),
{
    let layout = spec_layout(entries, align);
    let image = head + layout + tail;
    let cursor = head.len() as int;
    if entries.len() == 0 {
        assert(layout.len() == 0);
    } else {
        let e = entries[0];
        let rest = entries.skip(1);
        let frame = e.frame(align);
        let len = spec_entry_len(align, e.header.key_len as int, e.header.value_len as int);
        assert(e.well_framed());
        lemma_frame_splits(e.header, e.stored, e.key, align, Seq::empty());
        lemma_align_up(align, ENTRY_HEADER_LEN + e.header.value_len + e.header.key_len);
        lemma_header_round_trip(e.header, Seq::empty());
        assert(frame.len() == len);
        assert(len >= align) by {
            reveal(crate::bits::spec_align_up);
            if len < align {
                vstd::arithmetic::div_mod::lemma_small_mod(len as nat, align as nat);
            }
        }
        assert(layout == frame + spec_layout(rest, align));
        let start = cursor + ENTRY_HEADER_LEN + e.header.value_len;
        let end = start + e.header.key_len;
        assert(image.subrange(cursor, cursor + ENTRY_HEADER_LEN) =~= e.header.bytes()
            + Seq::<u8>::empty());
        assert(image.subrange(start, end) =~= e.key);
        assert(spec_next(image, align, cursor) == Some((e.header, e.key)));
        let head2 = head + frame;
        assert(head2 + spec_layout(rest, align) + tail =~= image);
        assert forall|i: int| 0 <= i < rest.len() implies (#[trigger] rest[i]).well_framed() by {
            assert(rest[i] == entries[i + 1]);
        }
        lemma_scan_layout(rest, align, head2, tail, region_id, version);
    }
}

/// A header that does not parse ends the scan where it stands: the scan from
/// a cursor at which no entry starts is empty, whatever lies before it.
pub proof fn lemma_scan_stops(
    image: Seq<u8>,
    align: int,
    cursor: int,
    region_id: RegionId,
    version: Version,
)
    requires
        spec_next(image, align, cursor) is None,
    ensures
        spec_scan(image, align, cursor, region_id, version) == Seq::<(Seq<u8>, ItemView)>::empty(),
{
}

} // verus!
