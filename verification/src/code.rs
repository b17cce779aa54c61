//! Byte strings: big-endian integer encodings, as the on-disk formats use
//! them, and the copying that framing needs.

use vstd::prelude::*;

verus! {

/// The four bytes of `n`, most significant first.
#[verifier::opaque]
pub open spec fn u32_be(n: u32) -> Seq<u8> {
    seq![
        (n / 0x100_0000) as u8,
        ((n / 0x1_0000) % 0x100) as u8,
        ((n / 0x100) % 0x100) as u8,
        (n % 0x100) as u8,
    ]
}

/// The number whose big-endian encoding the first four bytes of `s` are.
#[verifier::opaque]
pub open spec fn u32_from_be(s: Seq<u8>) -> u32 {
    (s[0] * 0x100_0000 + s[1] * 0x1_0000 + s[2] * 0x100 + s[3]) as u32
}

/// The eight bytes of `n`, most significant first.
pub open spec fn u64_be(n: u64) -> Seq<u8> {
    u32_be((n / 0x1_0000_0000) as u32) + u32_be((n % 0x1_0000_0000) as u32)
}

/// The number whose big-endian encoding the first eight bytes of `s` are.
pub open spec fn u64_from_be(s: Seq<u8>) -> u64 {
    (u32_from_be(s.subrange(0, 4)) * 0x1_0000_0000 + u32_from_be(s.subrange(4, 8))) as u64
}

/// Decoding inverts encoding, and encoding inverts decoding, for 32-bit numbers.
pub proof fn lemma_u32_be_round_trip(n: u32, s: Seq<u8>)
    ensures
        u32_be(n).len() == 4,
        u32_from_be(u32_be(n)) == n,
        s.len() == 4 ==> u32_be(u32_from_be(s)) == s,
{
    reveal(u32_be);
    reveal(u32_from_be);
    assert((n / 0x100_0000) < 0x100 && (n / 0x100_0000) * 0x100_0000 + ((n / 0x1_0000) % 0x100)
        * 0x1_0000 + ((n / 0x100) % 0x100) * 0x100 + (n % 0x100) == n) by (bit_vector);
    if s.len() == 4 {
        let b0: u8 = s[0];
        let b1: u8 = s[1];
        let b2: u8 = s[2];
        let b3: u8 = s[3];
        let m: u32 = u32_from_be(s);
        assert(b0 * 0x100_0000 + b1 * 0x1_0000 + b2 * 0x100 + b3 < 0x1_0000_0000) by (bit_vector);
        assert(m == b0 * 0x100_0000 + b1 * 0x1_0000 + b2 * 0x100 + b3);
        assert(m / 0x100_0000 == b0 && (m / 0x1_0000) % 0x100 == b1 && (m / 0x100) % 0x100 == b2
            && m % 0x100 == b3) by (bit_vector)
            requires
                m == b0 * 0x100_0000 + b1 * 0x1_0000 + b2 * 0x100 + b3,
        ;
        assert(u32_be(m) =~= s);
    }
}

/// Decoding inverts encoding, and encoding inverts decoding, for 64-bit numbers.
pub proof fn lemma_u64_be_round_trip(n: u64, s: Seq<u8>)
    ensures
        u64_be(n).len() == 8,
        u64_from_be(u64_be(n)) == n,
        s.len() == 8 ==> u64_be(u64_from_be(s)) == s,
{
    let hi = (n / 0x1_0000_0000) as u32;
    let lo = (n % 0x1_0000_0000) as u32;
    lemma_u32_be_round_trip(hi, s.subrange(0, 4));
    lemma_u32_be_round_trip(lo, s.subrange(4, 8));
    assert(u64_be(n).subrange(0, 4) =~= u32_be(hi));
    assert(u64_be(n).subrange(4, 8) =~= u32_be(lo));
    if s.len() == 8 {
        let a = u32_from_be(s.subrange(0, 4));
        let b = u32_from_be(s.subrange(4, 8));
        let m = u64_from_be(s);
        assert(m == a * 0x1_0000_0000 + b);
        assert((m / 0x1_0000_0000) as u32 == a);
        assert((m % 0x1_0000_0000) as u32 == b);
        assert(u64_be(m) =~= s.subrange(0, 4) + s.subrange(4, 8));
        assert(s =~= s.subrange(0, 4) + s.subrange(4, 8));
    }
}

/// `bytes::BufMut::put_u32` on a vector: the big-endian encoding of `n` is
/// appended to it.
#[verifier::external_body]
pub(crate) fn put_u32(dst: &mut Vec<u8>, n: u32)
    ensures
        final(dst)@ == old(dst)@ + u32_be(n),
{
    bytes::BufMut::put_u32(dst, n)
}

/// `bytes::BufMut::put_u64` on a vector: the big-endian encoding of `n` is
/// appended to it.
#[verifier::external_body]
pub(crate) fn put_u64(dst: &mut Vec<u8>, n: u64)
    ensures
        final(dst)@ == old(dst)@ + u64_be(n),
{
    bytes::BufMut::put_u64(dst, n)
}

/// `bytes::Buf::get_u32` on a slice: the number that its first four bytes
/// encode in big-endian order.
#[verifier::external_body]
pub(crate) fn get_u32(src: &[u8]) -> (n: u32)
    requires
        src@.len() >= 4,
    ensures
        n == u32_from_be(src@.subrange(0, 4)),
{
    let mut src = src;
    bytes::Buf::get_u32(&mut src)
}

/// `bytes::Buf::get_u64` on a slice: the number that its first eight bytes
/// encode in big-endian order.
#[verifier::external_body]
pub(crate) fn get_u64(src: &[u8]) -> (n: u64)
    requires
        src@.len() >= 8,
    ensures
        n == u64_from_be(src@.subrange(0, 8)),
{
    let mut src = src;
    bytes::Buf::get_u64(&mut src)
}

/// The number that the four bytes of `buf` from `at` on encode in big-endian order.
pub fn read_u32(buf: &[u8], at: usize) -> (n: u32)
    requires
        at + 4 <= buf.len(),
    ensures
        n == u32_from_be(buf@.subrange(at as int, at + 4)),
{
    let part = vstd::slice::slice_subrange(buf, at, at + 4);
    assert(part@.subrange(0, 4) =~= part@);
    get_u32(part)
}

/// The number that the eight bytes of `buf` from `at` on encode in big-endian order.
pub fn read_u64(buf: &[u8], at: usize) -> (n: u64)
    requires
        at + 8 <= buf.len(),
    ensures
        n == u64_from_be(buf@.subrange(at as int, at + 8)),
{
    let part = vstd::slice::slice_subrange(buf, at, at + 8);
    assert(part@.subrange(0, 8) =~= part@);
    get_u64(part)
}

/// Copies `src` over the first bytes of `dst`.
pub fn copy_over(dst: &mut [u8], src: &[u8])
    requires
        src@.len() <= old(dst)@.len(),
    ensures
        final(dst)@ == src@ + old(dst)@.subrange(src@.len() as int, old(dst)@.len() as int),
{
    let ghost before = dst@;
    let mut i: usize = 0;
    while i < src.len()
        invariant
            i <= src@.len() <= before.len(),
            dst.len() == before.len(),
            dst@ == src@.subrange(0, i as int) + before.subrange(i as int, before.len() as int),
        decreases src@.len() - i,
    {
        dst[i] = src[i];
        i += 1;
        proof {
            assert(dst@ =~= src@.subrange(0, i as int) + before.subrange(
                i as int,
                before.len() as int,
            ));
        }
    }
    proof {
        assert(src@.subrange(0, i as int) =~= src@);
    }
}

/// `n` zero bytes.
pub open spec fn zeros(n: nat) -> Seq<u8> {
    Seq::new(n, |i: int| 0u8)
}

/// `dst` with the bytes from `at` on replaced by `src`, as far as `src` reaches.
pub open spec fn overwrite(dst: Seq<u8>, at: int, src: Seq<u8>) -> Seq<u8> {
    dst.subrange(0, at) + src + dst.subrange(at + src.len(), dst.len() as int)
}

/// Appends `src` to `dst`.
pub fn append(dst: &mut Vec<u8>, src: &[u8])
    ensures
        final(dst)@ == old(dst)@ + src@,
{
    let ghost before = dst@;
    let mut i: usize = 0;
    while i < src.len()
        invariant
            i <= src@.len(),
            dst@ == before + src@.subrange(0, i as int),
        decreases src@.len() - i,
    {
        dst.push(src[i]);
        i += 1;
        proof {
            assert(dst@ =~= before + src@.subrange(0, i as int));
        }
    }
    proof {
        assert(src@.subrange(0, i as int) =~= src@);
    }
}

/// Appends `n` zero bytes to `dst`.
pub fn append_zeros(dst: &mut Vec<u8>, n: usize)
    ensures
        final(dst)@ == old(dst)@ + zeros(n as nat),
{
    let ghost before = dst@;
    let mut i: usize = 0;
    while i < n
        invariant
            i <= n,
            dst@ == before + zeros(i as nat),
        decreases n - i,
    {
        dst.push(0u8);
        i += 1;
        proof {
            assert(dst@ =~= before + zeros(i as nat));
        }
    }
}

/// Copies `src` over the bytes of `dst` that start at `at`.
pub fn write_at(dst: &mut Vec<u8>, at: usize, src: &[u8])
    requires
        at + src@.len() <= old(dst)@.len(),
    ensures
        final(dst)@ == overwrite(old(dst)@, at as int, src@),
{
    let ghost before = dst@;
    let mut i: usize = 0;
    while i < src.len()
        invariant
            i <= src@.len(),
            at + src@.len() <= before.len(),
            dst.len() == before.len(),
            dst@ == overwrite(before, at as int, src@.subrange(0, i as int)),
        decreases src@.len() - i,
    {
        dst.set(at + i, src[i]);
        i += 1;
        proof {
            assert(dst@ =~= overwrite(before, at as int, src@.subrange(0, i as int)));
        }
    }
    proof {
        assert(src@.subrange(0, i as int) =~= src@);
    }
}

/// Writes zero over `n` bytes of `dst` that start at `at`.
pub fn zero_at(dst: &mut Vec<u8>, at: usize, n: usize)
    requires
        at + n <= old(dst)@.len(),
    ensures
        final(dst)@ == overwrite(old(dst)@, at as int, zeros(n as nat)),
{
    let ghost before = dst@;
    let mut i: usize = 0;
    while i < n
        invariant
            i <= n,
            at + n <= before.len(),
            dst.len() == before.len(),
            dst@ == overwrite(before, at as int, zeros(i as nat)),
        decreases n - i,
    {
        dst.set(at + i, 0u8);
        i += 1;
        proof {
            assert(dst@ =~= overwrite(before, at as int, zeros(i as nat)));
        }
    }
}

/// The bytes of `src` from `start` up to `end`, as a vector of their own.
pub fn copy_range(src: &[u8], start: usize, end: usize) -> (out: Vec<u8>)
    requires
        start <= end <= src@.len(),
    ensures
        out@ == src@.subrange(start as int, end as int),
{
    vstd::slice::slice_to_vec(vstd::slice::slice_subrange(src, start, end))
}

/// Whether two byte strings are the same.
pub fn bytes_eq(a: &[u8], b: &[u8]) -> (same: bool)
    ensures
        same == (a@ == b@),
{
    if a.len() != b.len() {
        return false;
    }
    let mut i: usize = 0;
    while i < a.len()
        invariant
            i <= a@.len(),
            a@.len() == b@.len(),
            a@.subrange(0, i as int) == b@.subrange(0, i as int),
        decreases a@.len() - i,
    {
        if a[i] != b[i] {
            return false;
        }
        i += 1;
        proof {
            assert(a@.subrange(0, i as int) =~= a@.subrange(0, i - 1).push(a@[i - 1]));
            assert(b@.subrange(0, i as int) =~= b@.subrange(0, i - 1).push(b@[i - 1]));
        }
    }
    proof {
        assert(a@ =~= a@.subrange(0, i as int));
        assert(b@ =~= b@.subrange(0, i as int));
    }
    true
}

} // verus!
