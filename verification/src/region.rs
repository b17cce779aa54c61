//! A region: a fixed-size segment of the device with its optional dirty
//! buffer, the counters of its users, and its version.
//!
//! A region is clean until a buffer is attached, active while it has one,
//! sealed once the buffer has been written out and detached, and clean again
//! after a reclaim has bumped its version.

use crate::code::{copy_over, copy_range, put_u64, read_u64, u64_be, u64_from_be};
use crate::code::{write_at, zero_at};
use crate::code::{lemma_u64_be_round_trip, overwrite, zeros};
use crate::entry::ENTRY_HEADER_LEN;
use vstd::prelude::*;

verus! {

pub type RegionId = u32;

/// The generation of a region. Version 0 matches any version.
pub type Version = u32;

/// The magic that the first block of a valid region starts with.
pub const REGION_MAGIC: u64 = 0x1997_0327;

/// The number of bytes that a region header takes.
pub const REGION_HEADER_LEN: usize = 8;

/// The record at the start of a region.
#[derive(Debug, Clone, Copy, PartialEq, Eq, Structural)]
pub struct RegionHeader {
    /// Magic number that marks a valid region.
    pub magic: u64,
}

impl RegionHeader {
    /// Writes the magic over the first 8 bytes of `buf`, most significant byte first.
    pub fn write(&self, buf: &mut [u8])
        requires
            old(buf)@.len() >= REGION_HEADER_LEN,
        ensures
            final(buf)@ == u64_be(self.magic) + old(buf)@.subrange(
                REGION_HEADER_LEN as int,
                old(buf)@.len() as int,
            ),
    {
        let mut bytes: Vec<u8> = Vec::new();
        put_u64(&mut bytes, self.magic);
        proof {
            lemma_u64_be_round_trip(self.magic, Seq::empty());
            assert(bytes@ =~= u64_be(self.magic));
        }
        copy_over(buf, bytes.as_slice());
    }

    /// Reads the header that the first 8 bytes of `buf` hold.
    pub fn read(buf: &[u8]) -> (header: Self)
        requires
            buf@.len() >= REGION_HEADER_LEN,
        ensures
            header.magic == u64_from_be(buf@.subrange(0, REGION_HEADER_LEN as int)),
    {
        RegionHeader { magic: read_u64(buf, 0) }
    }
}

/// A header that was written reads back.
pub proof fn lemma_region_header_round_trip(magic: u64, rest: Seq<u8>)
    ensures
        u64_from_be((u64_be(magic) + rest).subrange(0, REGION_HEADER_LEN as int)) == magic,
{
    lemma_u64_be_round_trip(magic, Seq::empty());
    assert((u64_be(magic) + rest).subrange(0, REGION_HEADER_LEN as int) =~= u64_be(magic));
}

/// The place of an entry: a range of one generation of a region.
#[derive(Debug, Clone, Copy, PartialEq, Eq, Structural)]
pub struct RegionView {
    pub region_id: RegionId,
    pub offset: u32,
    pub len: u32,
    pub version: Version,
}

impl RegionView {
    pub fn id(&self) -> (id: RegionId)
        ensures
            id == self.region_id,
    {
        self.region_id
    }

    pub fn offset(&self) -> (offset: u32)
        ensures
            offset == self.offset,
    {
        self.offset
    }

    pub fn len(&self) -> (len: u32)
        ensures
            len == self.len,
    {
        self.len
    }

    pub fn version(&self) -> (version: Version)
        ensures
            version == self.version,
    {
        self.version
    }
}

/// What a region is at one moment.
pub struct RegionState {
    pub version: Version,
    /// The dirty buffer, where one is attached.
    pub buffer: Option<Seq<u8>>,
    /// Where the next allocation starts.
    pub len: usize,
    /// The size of the region.
    pub capacity: usize,
    pub writers: usize,
    pub buffered_readers: usize,
    pub physical_readers: usize,
}

impl RegionState {
    /// An attached buffer has the region's size, and allocation stays inside it.
    pub open spec fn wf(self) -> bool {
        &&& self.len <= self.capacity
        &&& self.buffer matches Some(buffer) ==> buffer.len() == self.capacity
    }

    /// The state with another dirty buffer.
    pub open spec fn with_buffer(self, buffer: Option<Seq<u8>>) -> RegionState {
        RegionState { buffer, ..self }
    }

    /// Whether `size` more bytes fit in front of the footer block.
    pub open spec fn fits(self, align: usize, size: usize) -> bool {
        self.len + size + align <= self.capacity
    }

    /// The state after an allocation of `size` bytes was asked for: without a
    /// buffer nothing changes; otherwise a writer is counted, and the
    /// allocation moves on by `size` where that fits and to the end where not.
    pub open spec fn after_allocate(self, align: usize, size: usize) -> RegionState {
        if self.buffer is None {
            self
        } else if self.fits(align, size) {
            RegionState {
                len: (self.len + size) as usize,
                writers: (self.writers + 1) as usize,
                ..self
            }
        } else {
            RegionState { len: self.capacity, writers: (self.writers + 1) as usize, ..self }
        }
    }
}

/// An entry that takes all the room between the header block and the footer
/// block of a fresh region is allocated, and fills the region: behind it no
/// request of one byte or more fits.
pub proof fn lemma_exact_fit_fills_region(state: RegionState, align: usize, size: usize, more: usize)
    requires
        state.wf(),
        state.buffer is Some,
        state.writers < usize::MAX,
        align > 0,
        state.len == align,
        align + size + align == state.capacity,
    ensures
        state.fits(align, size),
        state.after_allocate(align, size).len == state.capacity - align,
        more > 0 ==> !state.after_allocate(align, size).fits(align, more),
        state.after_allocate(align, size).after_allocate(align, more).len == if more == 0 {
            (state.capacity - align) as usize
        } else {
            state.capacity
        },
{
}

/// A request that reaches into the footer block is refused, whatever the
/// region holds: the region is full afterwards.
pub proof fn lemma_crossing_footer_is_full(state: RegionState, align: usize, size: usize)
    requires
        state.wf(),
        state.buffer is Some,
        state.len + size + align > state.capacity,
    ensures
        !state.fits(align, size),
        state.after_allocate(align, size).len == state.capacity,
{
}

/// The state of a region behind its lock.
#[derive(Debug)]
pub struct RegionInner {
    version: Version,
    buffer: Option<Vec<u8>>,
    len: usize,
    capacity: usize,
    writers: usize,
    buffered_readers: usize,
    physical_readers: usize,
}

impl View for RegionInner {
    type V = RegionState;

    closed spec fn view(&self) -> RegionState {
        RegionState {
            version: self.version,
            buffer: match self.buffer {
                Some(buffer) => Some(buffer@),
                None => None,
            },
            len: self.len,
            capacity: self.capacity,
            writers: self.writers,
            buffered_readers: self.buffered_readers,
            physical_readers: self.physical_readers,
        }
    }
}

impl RegionInner {
    /// A clean region of `capacity` bytes at its first version, with no user.
    /// Version 0 is kept for readers that accept any version.
    pub fn new(capacity: usize) -> (inner: Self)
        ensures
            inner@ == (RegionState {
                version: 1,
                buffer: None,
                len: 0,
                capacity,
                writers: 0,
                buffered_readers: 0,
                physical_readers: 0,
            }),
            inner@.wf(),
    {
        RegionInner {
            version: 1,
            buffer: None,
            len: 0,
            capacity,
            writers: 0,
            buffered_readers: 0,
            physical_readers: 0,
        }
    }

    /// Attaches `buf` as the dirty buffer and rewinds the allocation to its start.
    pub fn attach_buffer(&mut self, buf: Vec<u8>)
        requires
            old(self)@.buffer is None,
            buf@.len() == old(self)@.capacity,
        ensures
            final(self)@ == (RegionState { buffer: Some(buf@), len: 0, ..old(self)@ }),
            final(self)@.wf(),
    {
        self.buffer = Some(buf);
        self.len = 0;
    }

    /// Takes the dirty buffer off the region.
    pub fn detach_buffer(&mut self) -> (buf: Vec<u8>)
        requires
            old(self)@.buffer is Some,
        ensures
            Some(buf@) == old(self)@.buffer,
            final(self)@ == old(self)@.with_buffer(None),
    {
        self.buffer.take().unwrap()
    }

    pub fn has_buffer(&self) -> (has: bool)
        ensures
            has == self@.buffer is Some,
    {
        self.buffer.is_some()
    }

    pub fn writers(&self) -> (n: usize)
        ensures
            n == self@.writers,
    {
        self.writers
    }

    pub fn buffered_readers(&self) -> (n: usize)
        ensures
            n == self@.buffered_readers,
    {
        self.buffered_readers
    }

    pub fn physical_readers(&self) -> (n: usize)
        ensures
            n == self@.physical_readers,
    {
        self.physical_readers
    }
}

/// The right to write one range of a region's dirty buffer. The region counts
/// a writer for it until the slice is released.
#[derive(Debug)]
pub struct WriteSlice {
    region_id: RegionId,
    version: Version,
    /// Where the allocation stood when the slice was handed out.
    offset: usize,
    /// Where the bytes of the slice lie in the buffer.
    start: usize,
    len: usize,
}

impl WriteSlice {
    pub closed spec fn spec_region_id(&self) -> RegionId {
        self.region_id
    }

    pub closed spec fn spec_version(&self) -> Version {
        self.version
    }

    pub closed spec fn spec_offset(&self) -> usize {
        self.offset
    }

    pub closed spec fn spec_start(&self) -> usize {
        self.start
    }

    pub closed spec fn spec_len(&self) -> usize {
        self.len
    }

    pub open spec fn spec_is_empty(&self) -> bool {
        self.spec_len() == 0
    }

    /// The region that the slice belongs to.
    #[verifier::when_used_as_spec(spec_region_id)]
    pub fn region_id(&self) -> (id: RegionId)
        ensures
            id == self.spec_region_id(),
    {
        self.region_id
    }

    /// The version of the region when the slice was allocated.
    #[verifier::when_used_as_spec(spec_version)]
    pub fn version(&self) -> (version: Version)
        ensures
            version == self.spec_version(),
    {
        self.version
    }

    /// Where the allocation of the region stood when the slice was handed
    /// out. The slice of a successful allocation starts there.
    #[verifier::when_used_as_spec(spec_offset)]
    pub fn offset(&self) -> (offset: usize)
        ensures
            offset == self.spec_offset(),
    {
        self.offset
    }

    /// Where in the region the bytes of the slice lie: at `offset` for a
    /// successful allocation, at the footer block for the slice of a full region.
    #[verifier::when_used_as_spec(spec_start)]
    pub fn start(&self) -> (start: usize)
        ensures
            start == self.spec_start(),
    {
        self.start
    }

    #[verifier::when_used_as_spec(spec_len)]
    pub fn len(&self) -> (len: usize)
        ensures
            len == self.spec_len(),
    {
        self.len
    }

    #[verifier::when_used_as_spec(spec_is_empty)]
    pub fn is_empty(&self) -> (empty: bool)
        ensures
            empty == self.spec_is_empty(),
    {
        self.len() == 0
    }
}

/// What an allocation in a region came to.
#[derive(Debug)]
pub enum AllocateResult {
    /// The requested range was reserved.
    Allocated(WriteSlice),
    /// The request does not fit in front of the footer: the slice is the
    /// footer block, to be filled with padding, and `remain` is what was left
    /// of the region.
    Full { slice: WriteSlice, remain: usize },
    /// The region has no buffer to allocate from.
    Unavailable,
}

impl AllocateResult {
    /// The slice of a successful allocation.
    pub fn unwrap(self) -> (slice: WriteSlice)
        requires
            self is Allocated,
        ensures
            self == AllocateResult::Allocated(slice),
    {
        match self {
            AllocateResult::Allocated(slice) => slice,
            AllocateResult::Full { .. } => vstd::pervasive::unreached(),
            AllocateResult::Unavailable => vstd::pervasive::unreached(),
        }
    }
}

/// Bytes that were read from a region. The region counts a reader for them
/// until the slice is released.
#[derive(Debug)]
pub enum ReadSlice {
    /// Bytes out of the dirty buffer: a buffered read.
    Slice { slice: Vec<u8> },
    /// Bytes that came from the device: a physical read.
    Owned { buf: Vec<u8> },
}

impl View for ReadSlice {
    type V = Seq<u8>;

    open spec fn view(&self) -> Seq<u8> {
        match self {
            ReadSlice::Slice { slice } => slice@,
            ReadSlice::Owned { buf } => buf@,
        }
    }
}

impl ReadSlice {
    pub fn len(&self) -> (len: usize)
        ensures
            len == self@.len(),
    {
        match self {
            ReadSlice::Slice { slice } => slice.len(),
            ReadSlice::Owned { buf } => buf.len(),
        }
    }

    pub fn is_empty(&self) -> (empty: bool)
        ensures
            empty == (self@.len() == 0),
    {
        self.len() == 0
    }

    /// The bytes that were read.
    pub fn as_slice(&self) -> (bytes: &[u8])
        ensures
            bytes@ == self@,
    {
        match self {
            ReadSlice::Slice { slice } => slice.as_slice(),
            ReadSlice::Owned { buf } => buf.as_slice(),
        }
    }
}

/// One read request to the device: `len` bytes of a region from `offset` on.
#[derive(Debug, Clone, Copy, PartialEq, Eq, Structural)]
pub struct IoRead {
    pub offset: usize,
    pub len: usize,
}

/// The number of requests of at most `io_size` bytes that cover `len` bytes.
pub open spec fn spec_read_count(len: int, io_size: int) -> int {
    (len + io_size - 1) / io_size
}

/// The requests that read the range from `start` to `end` in order, each of
/// `io_size` bytes but the last, which takes what is left.
pub open spec fn spec_reads(start: int, end: int, io_size: int) -> Seq<IoRead> {
    Seq::new(
        spec_read_count(end - start, io_size) as nat,
        |i: int|
            IoRead {
                offset: (start + i * io_size) as usize,
                len: if end - start - i * io_size < io_size {
                    (end - start - i * io_size) as usize
                } else {
                    io_size as usize
                },
            },
    )
}

/// Splits the range from `start` to `end` into requests of at most `io_size` bytes.
pub fn plan_reads(start: usize, end: usize, io_size: usize) -> (reads: Vec<IoRead>)
    requires
        start <= end,
        io_size > 0,
    ensures
        reads@ == spec_reads(start as int, end as int, io_size as int),
{
    let mut reads: Vec<IoRead> = Vec::new();
    let mut offset: usize = 0;
    let total = end - start;
    assert(0 * io_size == 0) by (nonlinear_arith);
    while offset < total
        invariant
            start <= end,
            total == end - start,
            io_size > 0,
            offset <= total,
            offset < total ==> offset == reads@.len() * io_size,
            offset == total ==> reads@.len() * io_size >= total && (reads@.len() == 0 || (
            reads@.len() - 1) * io_size < total),
            forall|i: int|
                0 <= i < reads@.len() ==> #[trigger] reads@[i] == spec_reads(
                    start as int,
                    end as int,
                    io_size as int,
                )[i],
            reads@.len() <= spec_read_count(total as int, io_size as int),
        decreases total - offset,
    {
        let len = if total - offset < io_size {
            total - offset
        } else {
            io_size
        };
        proof {
            let n = reads@.len() as int;
            lemma_read_count(total as int, io_size as int, n);
            assert((n + 1) * io_size == n * io_size + io_size) by (nonlinear_arith);
            assert((n + 1 - 1) * io_size == n * io_size) by (nonlinear_arith);
        }
        reads.push(IoRead { offset: start + offset, len });
        offset = offset + len;
    }
    proof {
        let n = reads@.len() as int;
        lemma_read_count(total as int, io_size as int, n);
        assert(reads@ =~= spec_reads(start as int, end as int, io_size as int));
    }
    reads
}

/// Where `n` requests of `io_size` bytes do not yet cover `len` bytes, more
/// than `n` are needed; where `n` is the first count that covers them, `n` are.
pub proof fn lemma_read_count(len: int, io_size: int, n: int)
    requires
        io_size > 0,
        len >= 0,
        n >= 0,
    ensures
        n * io_size < len ==> n < spec_read_count(len, io_size),
        n * io_size >= len && (n == 0 || (n - 1) * io_size < len) ==> n == spec_read_count(
            len,
            io_size,
        ),
        n * io_size >= len && n > 0 && (n - 1) * io_size < len && n * io_size > len ==> len - (n
            - 1) * io_size < io_size,
{
    let q = spec_read_count(len, io_size);
    vstd::arithmetic::div_mod::lemma_fundamental_div_mod(len + io_size - 1, io_size);
    vstd::arithmetic::div_mod::lemma_mod_bound(len + io_size - 1, io_size);
    let r = (len + io_size - 1) % io_size;
    assert(len + io_size - 1 == io_size * q + r);
    if n * io_size < len {
        if n >= q {
            assert(n * io_size >= q * io_size) by (nonlinear_arith)
                requires
                    n >= q,
                    io_size > 0,
            ;
            assert(io_size * q == q * io_size) by (nonlinear_arith);
        }
    }
    if n * io_size >= len && (n == 0 || (n - 1) * io_size < len) {
        assert((n - 1) * io_size == n * io_size - io_size) by (nonlinear_arith);
        assert(io_size * n == n * io_size) by (nonlinear_arith);
        vstd::arithmetic::div_mod::lemma_fundamental_div_mod_converse(
            len + io_size - 1,
            io_size,
            n,
            len + io_size - 1 - n * io_size,
        );
    }
}

/// What loading a range of a region came to.
#[derive(Debug)]
pub enum Load {
    /// The region has moved on from the expected version.
    Absent,
    /// The range was read from the dirty buffer.
    Buffered(ReadSlice),
    /// The range has to come from the device, by these requests in order.
    Physical(Vec<IoRead>),
}

/// The first block of a valid region: the magic, then zeros.
pub open spec fn spec_header_block(align: int) -> Seq<u8> {
    u64_be(REGION_MAGIC) + zeros((align - REGION_HEADER_LEN) as nat)
}

/// A region of the device: its geometry and its state.
#[derive(Debug)]
pub struct Region {
    id: RegionId,
    align: usize,
    io_size: usize,
    inner: RegionInner,
}

impl Region {
    /// What the region is now.
    pub closed spec fn state(&self) -> RegionState {
        self.inner@
    }

    pub closed spec fn spec_id(&self) -> RegionId {
        self.id
    }

    pub closed spec fn spec_align(&self) -> usize {
        self.align
    }

    pub closed spec fn spec_io_size(&self) -> usize {
        self.io_size
    }

    /// The geometry that a device may have: blocks that hold a region header
    /// or an entry header, a region made of whole blocks whose offsets fit a
    /// view, and requests that read at least one byte.
    pub open spec fn geometry_ok(region_size: usize, align: usize, io_size: usize) -> bool {
        &&& align >= ENTRY_HEADER_LEN
        &&& io_size > 0
        &&& region_size >= align
        &&& region_size % align == 0
        &&& region_size <= u32::MAX
    }

    /// The region's geometry is one that a device may have and its state is valid.
    pub open spec fn wf(&self) -> bool {
        &&& self.state().wf()
        &&& Self::geometry_ok(self.state().capacity, self.spec_align(), self.spec_io_size())
    }

    /// Whether a reader that expects `version` may read this region.
    pub open spec fn version_matches(&self, version: Version) -> bool {
        version == 0 || version == self.state().version
    }

    /// Whether exclusive access may be had, given which users are tolerated.
    pub open spec fn spec_exclusive(
        &self,
        can_write: bool,
        can_buffered_read: bool,
        can_physical_read: bool,
    ) -> bool {
        &&& can_write || self.state().writers == 0
        &&& can_buffered_read || self.state().buffered_readers == 0
        &&& can_physical_read || self.state().physical_readers == 0
    }

    /// A clean region at its first version.
    pub fn new(id: RegionId, region_size: usize, align: usize, io_size: usize) -> (region: Self)
        requires
            Self::geometry_ok(region_size, align, io_size),
        ensures
            region.wf(),
            region.spec_id() == id,
            region.spec_align() == align,
            region.spec_io_size() == io_size,
            region.state() == (RegionState {
                version: 1,
                buffer: None,
                len: 0,
                capacity: region_size,
                writers: 0,
                buffered_readers: 0,
                physical_readers: 0,
            }),
    {
        Region { id, align, io_size, inner: RegionInner::new(region_size) }
    }

    /// Reserves the next `size` bytes of the dirty buffer for a writer. The
    /// last block of the region is kept as its footer: a request that would
    /// reach into it gets the footer block instead, and the region is full
    /// from then on. No byte of the buffer is written.
    pub fn allocate(&mut self, size: usize) -> (r: AllocateResult)
        requires
            old(self).wf(),
            old(self).state().writers < usize::MAX,
        ensures
            final(self).wf(),
            final(self).spec_id() == old(self).spec_id(),
            final(self).spec_align() == old(self).spec_align(),
            final(self).spec_io_size() == old(self).spec_io_size(),
            final(self).state() == old(self).state().after_allocate(old(self).spec_align(), size),
            r is Allocated <==> old(self).state().buffer is Some && old(self).state().fits(
                old(self).spec_align(),
                size,
            ),
            r is Unavailable <==> old(self).state().buffer is None,
            match r {
                AllocateResult::Unavailable => {
                    &&& old(self).state().buffer is None
                    &&& final(self).state() == old(self).state()
                },
                AllocateResult::Full { slice, remain } => {
                    &&& old(self).state().buffer is Some
                    &&& old(self).state().len + size + old(self).spec_align() > old(self).state().capacity
                    &&& slice.region_id() == old(self).spec_id()
                    &&& slice.version() == old(self).state().version
                    &&& slice.offset() == old(self).state().len
                    &&& slice.start() == old(self).state().capacity - old(self).spec_align()
                    &&& slice.len() == old(self).spec_align()
                    &&& remain == old(self).state().capacity - old(self).state().len
                    &&& final(self).state() == (RegionState {
                        len: old(self).state().capacity,
                        writers: (old(self).state().writers + 1) as usize,
                        ..old(self).state()
                    })
                },
                AllocateResult::Allocated(slice) => {
                    &&& old(self).state().buffer is Some
                    &&& old(self).state().len + size + old(self).spec_align() <= old(self).state().capacity
                    &&& slice.region_id() == old(self).spec_id()
                    &&& slice.version() == old(self).state().version
                    &&& slice.offset() == old(self).state().len
                    &&& slice.start() == old(self).state().len
                    &&& slice.len() == size
                    &&& final(self).state() == (RegionState {
                        len: (old(self).state().len + size) as usize,
                        writers: (old(self).state().writers + 1) as usize,
                        ..old(self).state()
                    })
                },
            },
    {
        if !self.inner.has_buffer() {
            return AllocateResult::Unavailable;
        }
        self.inner.writers = self.inner.writers + 1;
        let version = self.inner.version;
        let offset = self.inner.len;
        let region_id = self.id;
        let room = self.inner.capacity - self.inner.len;
        // One block is reserved for the region footer.
        if room < self.align || size > room - self.align {
            let remain = room;
            self.inner.len = self.inner.capacity;
            let start = self.inner.capacity - self.align;
            let slice = WriteSlice { region_id, version, offset, start, len: self.align };
            AllocateResult::Full { slice, remain }
        } else {
            self.inner.len = self.inner.len + size;
            let slice = WriteSlice { region_id, version, offset, start: offset, len: size };
            AllocateResult::Allocated(slice)
        }
    }

    /// Whether `slice` is a range of this generation of this region that `len`
    /// bytes fit in.
    pub open spec fn accepts(&self, slice: &WriteSlice, len: int) -> bool {
        &&& self.state().buffer is Some
        &&& slice.region_id() == self.spec_id()
        &&& slice.version() == self.state().version
        &&& len <= slice.len()
        &&& slice.start() + slice.len() <= self.state().capacity
    }

    /// Copies `src` to the start of `slice` in the dirty buffer. Nothing is
    /// written, and `false` returned, where the slice is not one of this
    /// generation of this region or `src` does not fit in it.
    pub fn write(&mut self, slice: &WriteSlice, src: &[u8]) -> (written: bool)
        requires
            old(self).wf(),
        ensures
            final(self).wf(),
            final(self).spec_id() == old(self).spec_id(),
            final(self).spec_align() == old(self).spec_align(),
            final(self).spec_io_size() == old(self).spec_io_size(),
            written == old(self).accepts(slice, src@.len() as int),
            written ==> final(self).state() == old(self).state().with_buffer(
                Some(overwrite(old(self).state().buffer->Some_0, slice.start() as int, src@)),
            ),
            !written ==> final(self).state() == old(self).state(),
    {
        let fits = slice.region_id == self.id && slice.version == self.inner.version && src.len()
            <= slice.len && slice.start <= self.inner.capacity && slice.len <= self.inner.capacity
            - slice.start;
        if !fits {
            return false;
        }
        match self.inner.buffer.as_mut() {
            Some(buffer) => {
                write_at(buffer, slice.start, src);
                true
            },
            None => false,
        }
    }

    /// Fills `slice` with zeros in the dirty buffer. Nothing is written, and
    /// `false` returned, where the slice is not one of this generation of this region.
    pub fn zero(&mut self, slice: &WriteSlice) -> (written: bool)
        requires
            old(self).wf(),
        ensures
            final(self).wf(),
            final(self).spec_id() == old(self).spec_id(),
            final(self).spec_align() == old(self).spec_align(),
            final(self).spec_io_size() == old(self).spec_io_size(),
            written == old(self).accepts(slice, slice.len() as int),
            written ==> final(self).state() == old(self).state().with_buffer(
                Some(
                    overwrite(
                        old(self).state().buffer->Some_0,
                        slice.start() as int,
                        zeros(slice.len() as nat),
                    ),
                ),
            ),
            !written ==> final(self).state() == old(self).state(),
    {
        let fits = slice.region_id == self.id && slice.version == self.inner.version
            && slice.start <= self.inner.capacity && slice.len <= self.inner.capacity
            - slice.start;
        if !fits {
            return false;
        }
        match self.inner.buffer.as_mut() {
            Some(buffer) => {
                zero_at(buffer, slice.start, slice.len);
                true
            },
            None => false,
        }
    }

    /// Ends the write that `slice` stood for: the region counts one writer less.
    pub fn release_write(&mut self, slice: WriteSlice)
        requires
            old(self).wf(),
        ensures
            final(self).wf(),
            final(self).spec_id() == old(self).spec_id(),
            final(self).spec_align() == old(self).spec_align(),
            final(self).spec_io_size() == old(self).spec_io_size(),
            final(self).state() == (RegionState {
                writers: if old(self).state().writers > 0 {
                    (old(self).state().writers - 1) as usize
                } else {
                    0
                },
                ..old(self).state()
            }),
    {
        if self.inner.writers > 0 {
            self.inner.writers = self.inner.writers - 1;
        }
    }

    /// Starts a read of the range from `start` to `end` by a reader that
    /// expects `version`. A region with a dirty buffer serves the read from
    /// it; otherwise the bytes have to come from the device.
    pub fn load(&mut self, start: usize, end: usize, version: Version) -> (r: Load)
        requires
            old(self).wf(),
            start <= end <= old(self).state().capacity,
            old(self).state().buffered_readers < usize::MAX,
            old(self).state().physical_readers < usize::MAX,
        ensures
            final(self).wf(),
            final(self).spec_id() == old(self).spec_id(),
            final(self).spec_align() == old(self).spec_align(),
            final(self).spec_io_size() == old(self).spec_io_size(),
            match r {
                Load::Absent => {
                    &&& !old(self).version_matches(version)
                    &&& final(self).state() == old(self).state()
                },
                Load::Buffered(slice) => {
                    &&& old(self).version_matches(version)
                    &&& old(self).state().buffer is Some
                    &&& slice is Slice
                    &&& slice@ == old(self).state().buffer->Some_0.subrange(start as int, end as int)
                    &&& final(self).state() == (RegionState {
                        buffered_readers: (old(self).state().buffered_readers + 1) as usize,
                        ..old(self).state()
                    })
                },
                Load::Physical(reads) => {
                    &&& old(self).version_matches(version)
                    &&& old(self).state().buffer is None
                    &&& reads@ == spec_reads(
                        start as int,
                        end as int,
                        old(self).spec_io_size() as int,
                    )
                    &&& final(self).state() == (RegionState {
                        physical_readers: (old(self).state().physical_readers + 1) as usize,
                        ..old(self).state()
                    })
                },
            },
    {
        if version != 0 && version != self.inner.version {
            return Load::Absent;
        }
        match &self.inner.buffer {
            Some(buffer) => {
                let slice = copy_range(buffer.as_slice(), start, end);
                self.inner.buffered_readers = self.inner.buffered_readers + 1;
                Load::Buffered(ReadSlice::Slice { slice })
            },
            None => {
                self.inner.physical_readers = self.inner.physical_readers + 1;
                Load::Physical(plan_reads(start, end, self.io_size))
            },
        }
    }

    /// Starts a read of the range from `start` to `end`, whatever the version.
    pub fn load_range(&mut self, start: usize, end: usize) -> (r: Load)
        requires
            old(self).wf(),
            start <= end <= old(self).state().capacity,
            old(self).state().buffered_readers < usize::MAX,
            old(self).state().physical_readers < usize::MAX,
        ensures
            final(self).wf(),
            final(self).spec_id() == old(self).spec_id(),
            final(self).spec_align() == old(self).spec_align(),
            final(self).spec_io_size() == old(self).spec_io_size(),
            match r {
                Load::Absent => false,
                Load::Buffered(slice) => {
                    &&& old(self).state().buffer is Some
                    &&& slice is Slice
                    &&& slice@ == old(self).state().buffer->Some_0.subrange(start as int, end as int)
                    &&& final(self).state() == (RegionState {
                        buffered_readers: (old(self).state().buffered_readers + 1) as usize,
                        ..old(self).state()
                    })
                },
                Load::Physical(reads) => {
                    &&& old(self).state().buffer is None
                    &&& reads@ == spec_reads(
                        start as int,
                        end as int,
                        old(self).spec_io_size() as int,
                    )
                    &&& final(self).state() == (RegionState {
                        physical_readers: (old(self).state().physical_readers + 1) as usize,
                        ..old(self).state()
                    })
                },
            },
    {
        self.load(start, end, 0)
    }

    /// Ends a physical read with what the device gave: `Some` of the bytes
    /// where every request was served in full, `None` where one came back
    /// short. A short read gives no slice, and the reader is counted out at once.
    pub fn complete_read(&mut self, data: Option<Vec<u8>>) -> (r: Option<ReadSlice>)
        requires
            old(self).wf(),
        ensures
            final(self).wf(),
            final(self).spec_id() == old(self).spec_id(),
            final(self).spec_align() == old(self).spec_align(),
            final(self).spec_io_size() == old(self).spec_io_size(),
            match data {
                Some(buf) => {
                    &&& r == Some(ReadSlice::Owned { buf })
                    &&& final(self).state() == old(self).state()
                },
                None => r is None && final(self).state() == (RegionState {
                    physical_readers: if old(self).state().physical_readers > 0 {
                        (old(self).state().physical_readers - 1) as usize
                    } else {
                        0
                    },
                    ..old(self).state()
                }),
            },
    {
        match data {
            Some(buf) => Some(ReadSlice::Owned { buf }),
            None => {
                if self.inner.physical_readers > 0 {
                    self.inner.physical_readers = self.inner.physical_readers - 1;
                }
                None
            },
        }
    }

    /// Ends the read that `slice` stood for: the region counts one buffered
    /// reader less for a slice of the buffer, one physical reader less for
    /// bytes from the device.
    pub fn release_read(&mut self, slice: ReadSlice)
        requires
            old(self).wf(),
        ensures
            final(self).wf(),
            final(self).spec_id() == old(self).spec_id(),
            final(self).spec_align() == old(self).spec_align(),
            final(self).spec_io_size() == old(self).spec_io_size(),
            slice is Slice ==> final(self).state() == (RegionState {
                buffered_readers: if old(self).state().buffered_readers > 0 {
                    (old(self).state().buffered_readers - 1) as usize
                } else {
                    0
                },
                ..old(self).state()
            }),
            slice is Owned ==> final(self).state() == (RegionState {
                physical_readers: if old(self).state().physical_readers > 0 {
                    (old(self).state().physical_readers - 1) as usize
                } else {
                    0
                },
                ..old(self).state()
            }),
    {
        match slice {
            ReadSlice::Slice { .. } => {
                if self.inner.buffered_readers > 0 {
                    self.inner.buffered_readers = self.inner.buffered_readers - 1;
                }
            },
            ReadSlice::Owned { .. } => {
                if self.inner.physical_readers > 0 {
                    self.inner.physical_readers = self.inner.physical_readers - 1;
                }
            },
        }
    }

    /// Ends the read that `slice` stood for, as `release_read` does, and hands
    /// out the bytes that were read.
    pub fn take_read(&mut self, slice: ReadSlice) -> (bytes: Vec<u8>)
        requires
            old(self).wf(),
        ensures
            final(self).wf(),
            final(self).spec_id() == old(self).spec_id(),
            final(self).spec_align() == old(self).spec_align(),
            final(self).spec_io_size() == old(self).spec_io_size(),
            bytes@ == slice@,
            slice is Slice ==> final(self).state() == (RegionState {
                buffered_readers: if old(self).state().buffered_readers > 0 {
                    (old(self).state().buffered_readers - 1) as usize
                } else {
                    0
                },
                ..old(self).state()
            }),
            slice is Owned ==> final(self).state() == (RegionState {
                physical_readers: if old(self).state().physical_readers > 0 {
                    (old(self).state().physical_readers - 1) as usize
                } else {
                    0
                },
                ..old(self).state()
            }),
    {
        match slice {
            ReadSlice::Slice { slice } => {
                if self.inner.buffered_readers > 0 {
                    self.inner.buffered_readers = self.inner.buffered_readers - 1;
                }
                slice
            },
            ReadSlice::Owned { buf } => {
                if self.inner.physical_readers > 0 {
                    self.inner.physical_readers = self.inner.physical_readers - 1;
                }
                buf
            },
        }
    }

    /// Makes the region the target of appends: attaches `buf` as its dirty
    /// buffer, writes the header block, and starts allocation behind it.
    pub fn attach_buffer(&mut self, buf: Vec<u8>)
        requires
            old(self).wf(),
            old(self).state().buffer is None,
            old(self).state().writers == 0,
            old(self).state().buffered_readers == 0,
            buf@.len() == old(self).state().capacity,
        ensures
            final(self).wf(),
            final(self).spec_id() == old(self).spec_id(),
            final(self).spec_align() == old(self).spec_align(),
            final(self).spec_io_size() == old(self).spec_io_size(),
            final(self).state() == (RegionState {
                buffer: Some(overwrite(buf@, 0, spec_header_block(old(self).spec_align() as int))),
                len: old(self).spec_align(),
                ..old(self).state()
            }),
    {
        let mut buf = buf;
        let ghost given = buf@;
        let header = RegionHeader { magic: REGION_MAGIC };
        proof {
            lemma_u64_be_round_trip(REGION_MAGIC, Seq::empty());
        }
        header.write(buf.as_mut_slice());
        zero_at(&mut buf, REGION_HEADER_LEN, self.align - REGION_HEADER_LEN);
        assert(buf@ =~= overwrite(given, 0, spec_header_block(self.align as int)));
        self.inner.attach_buffer(buf);
        self.inner.len = self.align;
    }

    /// Takes the dirty buffer off the region.
    pub fn detach_buffer(&mut self) -> (buf: Vec<u8>)
        requires
            old(self).wf(),
            old(self).state().buffer is Some,
        ensures
            final(self).wf(),
            final(self).spec_id() == old(self).spec_id(),
            final(self).spec_align() == old(self).spec_align(),
            final(self).spec_io_size() == old(self).spec_io_size(),
            Some(buf@) == old(self).state().buffer,
            final(self).state() == old(self).state().with_buffer(None),
    {
        self.inner.detach_buffer()
    }

    pub fn has_buffer(&self) -> (has: bool)
        ensures
            has == self.state().buffer is Some,
    {
        self.inner.has_buffer()
    }

    /// The bytes of the dirty buffer, where one is attached: what a flush
    /// writes to the device.
    pub fn buffer(&self) -> (bytes: Option<&[u8]>)
        ensures
            match bytes {
                Some(bytes) => self.state().buffer == Some(bytes@),
                None => self.state().buffer is None,
            },
    {
        match &self.inner.buffer {
            Some(buffer) => Some(buffer.as_slice()),
            None => None,
        }
    }

    /// Checks a geometry: whether a device may have it.
    pub fn check_geometry(region_size: usize, align: usize, io_size: usize) -> (ok: bool)
        ensures
            ok == Self::geometry_ok(region_size, align, io_size),
    {
        align >= ENTRY_HEADER_LEN && io_size > 0 && region_size >= align && region_size % align
            == 0 && region_size <= u32::MAX as usize
    }

    /// Whether exclusive access to the region may be had now: every kind of
    /// user that is not tolerated must have left.
    pub fn exclusive(&self, can_write: bool, can_buffered_read: bool, can_physical_read: bool) -> (ready:
        bool)
        ensures
            ready == self.spec_exclusive(can_write, can_buffered_read, can_physical_read),
    {
        (can_write || self.inner.writers == 0) && (can_buffered_read || self.inner.buffered_readers
            == 0) && (can_physical_read || self.inner.physical_readers == 0)
    }

    #[verifier::when_used_as_spec(spec_id)]
    pub fn id(&self) -> (id: RegionId)
        ensures
            id == self.spec_id(),
    {
        self.id
    }

    /// The alignment of the device.
    #[verifier::when_used_as_spec(spec_align)]
    pub fn align(&self) -> (align: usize)
        ensures
            align == self.spec_align(),
    {
        self.align
    }

    /// The largest request that the device serves.
    #[verifier::when_used_as_spec(spec_io_size)]
    pub fn io_size(&self) -> (io_size: usize)
        ensures
            io_size == self.spec_io_size(),
    {
        self.io_size
    }

    /// The size of the region.
    pub fn region_size(&self) -> (size: usize)
        ensures
            size == self.state().capacity,
    {
        self.inner.capacity
    }

    /// Where the next allocation starts.
    pub fn len(&self) -> (len: usize)
        ensures
            len == self.state().len,
    {
        self.inner.len
    }

    pub fn version(&self) -> (version: Version)
        ensures
            version == self.state().version,
    {
        self.inner.version
    }

    /// The state behind the region.
    pub fn inner(&self) -> (inner: &RegionInner)
        ensures
            inner@ == self.state(),
    {
        &self.inner
    }

    /// Moves the region on to its next version and returns the one it had.
    pub fn advance(&mut self) -> (before: Version)
        requires
            old(self).wf(),
            old(self).state().version < u32::MAX,
        ensures
            final(self).wf(),
            final(self).spec_id() == old(self).spec_id(),
            final(self).spec_align() == old(self).spec_align(),
            final(self).spec_io_size() == old(self).spec_io_size(),
            before == old(self).state().version,
            final(self).state() == (RegionState {
                version: (old(self).state().version + 1) as Version,
                ..old(self).state()
            }),
    {
        let before = self.inner.version;
        self.inner.version = self.inner.version + 1;
        before
    }

    /// The place of `len` bytes at `offset` in the current generation of the region.
    pub fn view(&self, offset: u32, len: u32) -> (view: RegionView)
        ensures
            view == (RegionView {
                region_id: self.spec_id(),
                offset,
                len,
                version: self.state().version,
            }),
    {
        RegionView { region_id: self.id, offset, len, version: self.inner.version }
    }
}

} // verus!
