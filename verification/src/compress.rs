//! Per-entry compression: the tag stored with an entry and the codecs behind it.

use crate::error::Error;
use vstd::prelude::*;
use vstd::slice::slice_to_vec;

verus! {

/// How the value of an entry is stored.
#[derive(Debug, Clone, Copy, PartialEq, Eq, Structural)]
pub enum Compression {
    /// The value is stored as it is.
    Off,
    /// The value is stored as a zstd frame.
    Zstd,
    /// The value is stored as an LZ4 frame.
    Lz4,
}

/// The level at which values are compressed with zstd: the default of zstd.
pub const ZSTD_LEVEL: i32 = 0;

/// The zstd frame that `zstd::stream::copy_encode` writes for `src` at a
/// level, or `None` where it reports an error.
pub uninterp spec fn zstd_encoded(src: Seq<u8>, level: i32) -> Option<Seq<u8>>;

/// The bytes that `zstd::stream::copy_decode` recovers from `src`, or `None`
/// where it reports an error.
pub uninterp spec fn zstd_decoded(src: Seq<u8>) -> Option<Seq<u8>>;

/// The LZ4 frame that an `lz4::Encoder` with the default settings writes for
/// `src`, or `None` where it reports an error.
pub uninterp spec fn lz4_encoded(src: Seq<u8>) -> Option<Seq<u8>>;

/// The bytes that an `lz4::Decoder` recovers from `src`, or `None` where it
/// reports an error.
pub uninterp spec fn lz4_decoded(src: Seq<u8>) -> Option<Seq<u8>>;

/// The views of an optional byte vector.
pub open spec fn opt_view(v: Option<Vec<u8>>) -> Option<Seq<u8>> {
    match v {
        Some(v) => Some(v@),
        None => None,
    }
}

/// `zstd::stream::copy_encode` from `src` into an empty vector at `level`:
/// the frame it wrote, `None` on its error. The frame depends on `src` and
/// the level alone.
#[verifier::external_body]
fn zstd_encode(src: &[u8], level: i32) -> (out: Option<Vec<u8>>)
    ensures
        opt_view(out) == zstd_encoded(src@, level),
{
    let mut out = Vec::new();
    match zstd::stream::copy_encode(src, &mut out, level) {
        Ok(()) => Some(out),
        Err(_) => None,
    }
}

/// `zstd::stream::copy_decode` from `src` into an empty vector: what it
/// decoded, `None` on its error. The outcome depends on `src` alone.
#[verifier::external_body]
fn zstd_decode(src: &[u8]) -> (out: Option<Vec<u8>>)
    ensures
        opt_view(out) == zstd_decoded(src@),
{
    let mut out = Vec::new();
    match zstd::stream::copy_decode(src, &mut out) {
        Ok(()) => Some(out),
        Err(_) => None,
    }
}

/// Writes `src` through an `lz4::Encoder` built by a default
/// `lz4::EncoderBuilder` and finishes it: the frame it wrote, `None` on an
/// error of any step. The frame depends on `src` alone.
#[verifier::external_body]
fn lz4_encode(src: &[u8]) -> (out: Option<Vec<u8>>)
    ensures
        opt_view(out) == lz4_encoded(src@),
{
    let mut encoder = match lz4::EncoderBuilder::new().build(Vec::new()) {
        Ok(encoder) => encoder,
        Err(_) => return None,
    };
    if std::io::Write::write_all(&mut encoder, src).is_err() {
        return None;
    }
    match encoder.finish() {
        (out, Ok(())) => Some(out),
        (_, Err(_)) => None,
    }
}

/// Reads `src` to its end through an `lz4::Decoder` and finishes it: what it
/// decoded, `None` on an error of any step. The outcome depends on `src` alone.
#[verifier::external_body]
fn lz4_decode(src: &[u8]) -> (out: Option<Vec<u8>>)
    ensures
        opt_view(out) == lz4_decoded(src@),
{
    let mut out = Vec::new();
    let mut decoder = match lz4::Decoder::new(src) {
        Ok(decoder) => decoder,
        Err(_) => return None,
    };
    if std::io::Read::read_to_end(&mut decoder, &mut out).is_err() {
        return None;
    }
    match decoder.finish() {
        (_, Ok(())) => Some(out),
        (_, Err(_)) => None,
    }
}

/// What a codec run leaves for the caller: its output, or a codec error.
pub open spec fn spec_codec_result(out: Option<Seq<u8>>) -> Result<Seq<u8>, Error> {
    match out {
        Some(bytes) => Ok(bytes),
        None => Err(Error::Codec),
    }
}

/// The views of a codec result.
pub open spec fn result_view(r: Result<Vec<u8>, Error>) -> Result<Seq<u8>, Error> {
    match r {
        Ok(v) => Ok(v@),
        Err(e) => Err(e),
    }
}

/// Turns what a codec run returned into the caller's result.
pub fn codec_result(out: Option<Vec<u8>>) -> (r: Result<Vec<u8>, Error>)
    ensures
        result_view(r) == spec_codec_result(opt_view(out)),
{
    match out {
        Some(bytes) => Ok(bytes),
        None => Err(Error::Codec),
    }
}

impl Compression {
    /// The tag that stands for this compression in an entry header.
    pub open spec fn tag(self) -> u8 {
        match self {
            Compression::Off => 0,
            Compression::Zstd => 1,
            Compression::Lz4 => 2,
        }
    }

    /// The compression that a tag stands for; tags above 2 stand for none.
    pub open spec fn spec_try_from(tag: u8) -> Result<Compression, Error> {
        if tag == 0 {
            Ok(Compression::Off)
        } else if tag == 1 {
            Ok(Compression::Zstd)
        } else if tag == 2 {
            Ok(Compression::Lz4)
        } else {
            Err(Error::Codec)
        }
    }

    /// The bytes that are stored for `value`.
    pub open spec fn spec_encode(self, value: Seq<u8>) -> Result<Seq<u8>, Error> {
        match self {
            Compression::Off => Ok(value),
            Compression::Zstd => spec_codec_result(zstd_encoded(value, ZSTD_LEVEL)),
            Compression::Lz4 => spec_codec_result(lz4_encoded(value)),
        }
    }

    /// The value that the stored bytes stand for.
    pub open spec fn spec_decode(self, stored: Seq<u8>) -> Result<Seq<u8>, Error> {
        match self {
            Compression::Off => Ok(stored),
            Compression::Zstd => spec_codec_result(zstd_decoded(stored)),
            Compression::Lz4 => spec_codec_result(lz4_decoded(stored)),
        }
    }

    /// Whether decoding gives `value` back from what encoding stores for it.
    pub open spec fn round_trips(self, value: Seq<u8>) -> bool {
        match self.spec_encode(value) {
            Ok(stored) => self.spec_decode(stored) == Ok::<Seq<u8>, Error>(value),
            Err(_) => false,
        }
    }

    pub fn to_u8(&self) -> (tag: u8)
        ensures
            tag == self.tag(),
    {
        match self {
            Compression::Off => 0,
            Compression::Zstd => 1,
            Compression::Lz4 => 2,
        }
    }

    pub fn try_from(tag: u8) -> (r: Result<Compression, Error>)
        ensures
            r == Self::spec_try_from(tag),
    {
        if tag == 0 {
            Ok(Compression::Off)
        } else if tag == 1 {
            Ok(Compression::Zstd)
        } else if tag == 2 {
            Ok(Compression::Lz4)
        } else {
            Err(Error::Codec)
        }
    }

    /// Runs `value` through the codec of this compression.
    pub fn encode(&self, value: &[u8]) -> (r: Result<Vec<u8>, Error>)
        ensures
            result_view(r) == self.spec_encode(value@),
    {
        match self {
            Compression::Off => Ok(slice_to_vec(value)),
            Compression::Zstd => codec_result(zstd_encode(value, ZSTD_LEVEL)),
            Compression::Lz4 => codec_result(lz4_encode(value)),
        }
    }

    /// Recovers a value from what the codec of this compression stored.
    pub fn decode(&self, stored: &[u8]) -> (r: Result<Vec<u8>, Error>)
        ensures
            result_view(r) == self.spec_decode(stored@),
    {
        match self {
            Compression::Off => Ok(slice_to_vec(stored)),
            Compression::Zstd => codec_result(zstd_decode(stored)),
            Compression::Lz4 => codec_result(lz4_decode(stored)),
        }
    }
}

/// Every compression's tag decodes to that compression.
pub proof fn lemma_tag_round_trip(c: Compression)
    ensures
        Compression::spec_try_from(c.tag()) == Ok::<Compression, Error>(c),
        c.tag() <= 2,
{
}

/// Without compression, every value is stored as it is and read back unchanged.
pub proof fn lemma_uncompressed_round_trips(value: Seq<u8>)
    ensures
        Compression::Off.round_trips(value),
        Compression::Off.spec_encode(value) == Ok::<Seq<u8>, Error>(value),
{
}

} // verus!
