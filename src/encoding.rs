//! Compression codecs under which a serialized execution context travels.
use vstd::prelude::*;

verus! {

/// The most bytes of compressed content that are decoded. A function's
/// configuration holds a few kilobytes; the bound keeps the LZ4 decoder's
/// `u32` length counters from overflowing.
pub const MAX_CONTENT_LEN: usize = 16_000_000;

/// What the Snappy raw encoder makes of a byte string.
pub uninterp spec fn snappy_encoded(b: Seq<u8>) -> Seq<u8>;

/// What the Snappy raw decoder makes of a byte string: the decoded bytes, or
/// `None` where it reports an error.
pub uninterp spec fn snappy_decoded(b: Seq<u8>) -> Option<Seq<u8>>;

/// What the LZ4 block decoder makes of a byte string that starts with the
/// decoded length as a little-endian `u32`: the decoded bytes, or `None`
/// where it reports an error.
pub uninterp spec fn lz4_decoded(b: Seq<u8>) -> Option<Seq<u8>>;

/// Relies on `snap::raw::Encoder::compress_vec`: it fails only when the
/// largest possible output, `32 + n + n / 6` bytes for `n` input bytes,
/// exceeds `2^32 - 1`, and yields at most that many bytes. A fresh encoder
/// reads its input with explicit little-endian loads, so the output depends
/// on the input alone. Snappy is lossless, so the output decodes to the input.
#[verifier::external_body]
fn snappy_compress(input: &[u8]) -> (r: Option<Vec<u8>>)
    ensures
        32 + input@.len() + input@.len() / 6 <= u32::MAX ==> r is Some,
        r matches Some(c) ==> c@ == snappy_encoded(input@),
        r matches Some(c) ==> c@.len() <= 32 + input@.len() + input@.len() / 6,
        r matches Some(c) ==> snappy_decoded(c@) == Some(input@),
{
    snap::raw::Encoder::new().compress_vec(input).ok()
}

/// Relies on `snap::raw::Decoder::decompress_vec`: the decoded bytes, or an
/// error on input that is no Snappy stream.
#[verifier::external_body]
fn snappy_decompress(input: &[u8]) -> (r: Option<Vec<u8>>)
    ensures
        r is Some <==> snappy_decoded(input@) is Some,
        r matches Some(v) ==> snappy_decoded(input@) == Some(v@),
{
    snap::raw::Decoder::new().decompress_vec(input).ok()
}

/// Relies on `lz4_flex::block::compress_prepend_size`: the input's length as a
/// little-endian `u32`, then its LZ4 block encoding, which the decoder turns
/// back into the input. Its output buffer is sized `4 + 20 + n * 110 / 100`,
/// hence the bound on `n * 110`, and the output is cut from it. Which bytes
/// it writes depends on the machine's byte order and pointer width, so the
/// output gets no name.
#[verifier::external_body]
fn lz4_compress(input: &[u8]) -> (r: Vec<u8>)
    requires
        input@.len() <= u32::MAX,
        input@.len() * 110 <= usize::MAX,
    ensures
        lz4_decoded(r@) == Some(input@),
        r@.len() <= 24 + input@.len() * 110 / 100,
{
    lz4_flex::block::compress_prepend_size(input)
}

/// Relies on `lz4_flex::block::decompress_size_prepended`: the decoded bytes,
/// or an error on input that is no such encoding. Each length in the stream
/// is summed into a `u32` from up to one byte of input per 255, so inputs
/// under 16,843,009 bytes cannot overflow it.
#[verifier::external_body]
fn lz4_decompress(input: &[u8]) -> (r: Option<Vec<u8>>)
    requires
        input@.len() <= MAX_CONTENT_LEN,
    ensures
        r is Some <==> lz4_decoded(input@) is Some,
        r matches Some(v) ==> lz4_decoded(input@) == Some(v@),
{
    lz4_flex::block::decompress_size_prepended(input).ok()
}

/// A fresh vector holding the bytes of `b`.
pub(crate) fn copy_bytes(b: &[u8]) -> (r: Vec<u8>)
    ensures
        r@ == b@,
{
    let mut r: Vec<u8> = Vec::with_capacity(b.len());
    let mut i: usize = 0;
    while i < b.len()
        invariant
            i <= b@.len(),
            r@ == b@.subrange(0, i as int),
        decreases b@.len() - i,
    {
        r.push(b[i]);
        i = i + 1;
    }
    assert(r@ =~= b@);
    r
}

/// A codec that sender and receiver agree on through the envelope's tag.
#[derive(Debug, Clone, Copy, PartialEq, Eq, Structural)]
pub enum Encoding {
    Snappy,
    Lz4,
    Plain,
}

/// What decoding `b` under `e` gives: the bytes, or `None` on an error.
pub open spec fn decoded(e: Encoding, b: Seq<u8>) -> Option<Seq<u8>> {
    match e {
        Encoding::Snappy => snappy_decoded(b),
        Encoding::Lz4 => lz4_decoded(b),
        Encoding::Plain => Some(b),
    }
}

/// The most bytes that `e` makes of `n` bytes.
pub open spec fn max_compressed_len(e: Encoding, n: nat) -> nat {
    match e {
        Encoding::Snappy => 32 + n + n / 6,
        Encoding::Lz4 => 24 + n * 110 / 100,
        Encoding::Plain => n,
    }
}

/// `n` bytes are few enough for `e` to compress.
pub open spec fn compressible(e: Encoding, n: nat) -> bool {
    match e {
        Encoding::Snappy => 32 + n + n / 6 <= u32::MAX,
        Encoding::Lz4 => n <= u32::MAX && n * 110 <= usize::MAX,
        Encoding::Plain => true,
    }
}

/// The tag that names a codec on the wire.
pub open spec fn tag_of(e: Encoding) -> u8 {
    match e {
        Encoding::Snappy => 1,
        Encoding::Lz4 => 2,
        Encoding::Plain => 0,
    }
}

/// The codec that a tag names, if this build knows it.
pub open spec fn encoding_of_tag(t: u8) -> Option<Encoding> {
    if t == 0 {
        Some(Encoding::Plain)
    } else if t == 1 {
        Some(Encoding::Snappy)
    } else if t == 2 {
        Some(Encoding::Lz4)
    } else {
        None
    }
}

/// Every codec is named by exactly one tag.
pub proof fn lemma_tag_round_trip(e: Encoding)
    ensures
        encoding_of_tag(tag_of(e)) == Some(e),
{
}

impl Default for Encoding {
    fn default() -> (r: Encoding)
        ensures
            r == Encoding::Plain,
    {
        Encoding::Plain
    }
}

impl Encoding {
    /// The tag written into an envelope for this codec.
    pub fn tag(&self) -> (r: u8)
        ensures
            r == tag_of(*self),
    {
        match self {
            Encoding::Snappy => 1,
            Encoding::Lz4 => 2,
            Encoding::Plain => 0,
        }
    }

    /// The codec named by `t`; `None` for a tag this build does not know.
    pub fn from_tag(t: u8) -> (r: Option<Encoding>)
        ensures
            r == encoding_of_tag(t),
    {
        if t == 0 {
            Some(Encoding::Plain)
        } else if t == 1 {
            Some(Encoding::Snappy)
        } else if t == 2 {
            Some(Encoding::Lz4)
        } else {
            None
        }
    }

    /// Compresses `b`. Fails exactly on inputs too long for the codec to
    /// describe (`compressible`); what it yields decodes back to `b`, and is
    /// fixed by `b` for every codec but LZ4.
    pub fn compress(&self, b: &[u8]) -> (r: Option<Vec<u8>>)
        ensures
            r is Some <==> compressible(*self, b@.len()),
            r matches Some(c) ==> decoded(*self, c@) == Some(b@),
            r matches Some(c) ==> c@.len() <= max_compressed_len(*self, b@.len()),
            r matches Some(c) ==> (*self == Encoding::Plain ==> c@ == b@),
            r matches Some(c) ==> (*self == Encoding::Snappy ==> c@ == snappy_encoded(b@)),
    {
        match self {
            Encoding::Snappy => {
                let n = b.len() as u64;
                if n > 0xFFFF_FFFF || 32 + n + n / 6 > 0xFFFF_FFFF {
                    return None;
                }
                snappy_compress(b)
            },
            Encoding::Lz4 => {
                if b.len() > 0xFFFF_FFFF || b.len() > usize::MAX / 110 {
                    return None;
                }
                Some(lz4_compress(b))
            },
            Encoding::Plain => Some(copy_bytes(b)),
        }
    }

    /// Decompresses `b`: the bytes that `decoded` gives, or `None` where the
    /// codec reports an error or `b` is longer than `MAX_CONTENT_LEN`.
    pub fn decompress(&self, b: &[u8]) -> (r: Option<Vec<u8>>)
        ensures
            r is Some <==> b@.len() <= MAX_CONTENT_LEN && decoded(*self, b@) is Some,
            r matches Some(v) ==> decoded(*self, b@) == Some(v@),
    {
        if b.len() > MAX_CONTENT_LEN {
            return None;
        }
        match self {
            Encoding::Snappy => snappy_decompress(b),
            Encoding::Lz4 => lz4_decompress(b),
            Encoding::Plain => Some(copy_bytes(b)),
        }
    }
}

} // verus!
