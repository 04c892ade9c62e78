//! The closed set of compression methods, their one-byte tags, and the
//! streaming compress/decompress operations behind them.
//!
//! Compression itself is done by outside codecs: `zopfli` produces the zlib
//! streams and `flate2` decodes them.  What those calls return is named by
//! `zlib_deflate_of`; everything around the calls is verified against that
//! name, including the round trip `decompress(m, compress(m, d)) == Ok(d)`.

use crate::errors::Error;
use vstd::prelude::*;
use vstd::slice::slice_to_vec;

verus! {

/// How an entry's bytes are stored in the archive body.
#[derive(Debug, Clone, Copy, PartialEq, Eq, Hash, Structural)]
pub enum CompressionMethod {
    /// No compression: a raw byte copy.
    Stored,
    /// A zlib stream: written by zopfli, decoded by flate2.
    Zlib,
}

impl Default for CompressionMethod {
    /// Entries are stored uncompressed unless a method is chosen.
    fn default() -> (r: Self)
        ensures
            r == CompressionMethod::Stored,
    {
        CompressionMethod::Stored
    }
}

/// The one-byte tag under which a method is written to disk.
pub open spec fn method_tag(m: CompressionMethod) -> u8 {
    match m {
        CompressionMethod::Stored => 0,
        CompressionMethod::Zlib => 1,
    }
}

/// The method a one-byte tag stands for, if any.
pub open spec fn method_of_tag(t: u8) -> Option<CompressionMethod> {
    if t == 0 {
        Some(CompressionMethod::Stored)
    } else if t == 1 {
        Some(CompressionMethod::Zlib)
    } else {
        None
    }
}

pub fn encode_method(m: CompressionMethod) -> (t: u8)
    ensures
        t == method_tag(m),
        method_of_tag(t) == Some(m),
{
    match m {
        CompressionMethod::Stored => 0,
        CompressionMethod::Zlib => 1,
    }
}

pub fn decode_method(t: u8) -> (r: Result<CompressionMethod, Error>)
    ensures
        match r {
            Ok(m) => method_of_tag(t) == Some(m) && method_tag(m) == t,
            Err(e) => method_of_tag(t) is None && e == Error::InvalidFileFormat,
        },
{
    if t == 0 {
        Ok(CompressionMethod::Stored)
    } else if t == 1 {
        Ok(CompressionMethod::Zlib)
    } else {
        Err(Error::InvalidFileFormat)
    }
}

/// The zlib stream that the compressor emits for the given input.
///
/// Naming the stream as a function of the input asserts that the
/// compressor is deterministic: zopfli draws no randomness and takes
/// fixed options here, so within any one build of this library equal
/// inputs give equal streams.  No contract in this crate compares
/// streams produced on different machines.
pub uninterp spec fn zlib_deflate_of(s: Seq<u8>) -> Seq<u8>;

/// The bytes a method stores for the given input.
pub open spec fn spec_compress(m: CompressionMethod, s: Seq<u8>) -> Seq<u8> {
    match m {
        CompressionMethod::Stored => s,
        CompressionMethod::Zlib => zlib_deflate_of(s),
    }
}

/// Relies on `zopfli::compress` with `Format::Zlib` and default options: a
/// deterministic compressor whose whole output is a function of the input
/// bytes.  Reading from a slice and writing into a `Vec` cannot fail.
#[verifier::external_body]
fn zlib_compress(data: &[u8]) -> (r: Vec<u8>)
    ensures
        r@ == zlib_deflate_of(data@),
{
    let mut out = Vec::new();
    zopfli::compress(zopfli::Options::default(), zopfli::Format::Zlib, data, &mut out)
        .expect("writing into a Vec cannot fail");
    out
}

/// Relies on `flate2::read::ZlibDecoder`: it decodes zlib streams, so it
/// inverts the streams that `zlib_compress` emits; on bytes that are not a
/// zlib stream `read_to_end` reports an error instead.
#[verifier::external_body]
fn zlib_decompress(data: &[u8]) -> (r: Result<Vec<u8>, Error>)
    ensures
        r matches Ok(v) ==> forall|p: Seq<u8>| data@ == #[trigger] zlib_deflate_of(p) ==> v@ == p,
        r is Err ==> forall|p: Seq<u8>| data@ != #[trigger] zlib_deflate_of(p),
        r matches Err(e) ==> e == Error::InvalidFileFormat,
{
    let mut out = Vec::new();
    let mut decoder = flate2::read::ZlibDecoder::new(data);
    match std::io::Read::read_to_end(&mut decoder, &mut out) {
        Ok(_) => Ok(out),
        Err(_) => Err(Error::InvalidFileFormat),
    }
}

/// Compress `data` with the given method and return the stored bytes.
///
/// The length of the result is the exact byte count that the archive
/// bookkeeping depends on.
pub fn compress(m: CompressionMethod, data: &[u8]) -> (r: Vec<u8>)
    ensures
        r@ == spec_compress(m, data@),
{
    match m {
        CompressionMethod::Stored => slice_to_vec(data),
        CompressionMethod::Zlib => zlib_compress(data),
    }
}

/// Undo `compress`: on anything `compress(m, p)` produced this returns
/// exactly `p`; bytes that are not a valid stream for `m` are rejected.
pub fn decompress(m: CompressionMethod, data: &[u8]) -> (r: Result<Vec<u8>, Error>)
    ensures
        r matches Ok(v) ==> forall|p: Seq<u8>| data@ == #[trigger] spec_compress(m, p) ==> v@ == p,
        r is Err ==> forall|p: Seq<u8>| data@ != #[trigger] spec_compress(m, p),
        r matches Err(e) ==> e == Error::InvalidFileFormat,
{
    match m {
        CompressionMethod::Stored => {
            let v = slice_to_vec(data);
            Ok(v)
        },
        CompressionMethod::Zlib => zlib_decompress(data),
    }
}

/// An output buffer that reports the exact number of bytes written to it.
pub struct WriterCounter {
    inner: Vec<u8>,
    total_out: u64,
}

impl WriterCounter {
    /// How many bytes have been written since `new`.
    pub closed spec fn spec_total_out(&self) -> u64 {
        self.total_out
    }

    /// The bytes accumulated so far.
    pub closed spec fn view(&self) -> Seq<u8> {
        self.inner@
    }

    /// The count never exceeds what the buffer holds.
    pub closed spec fn wf(&self) -> bool {
        self.total_out <= self.inner@.len()
    }

    pub fn new(inner: Vec<u8>) -> (r: Self)
        ensures
            r.wf(),
            r@ == inner@,
            r.spec_total_out() == 0,
    {
        WriterCounter { inner, total_out: 0 }
    }

    pub fn write(&mut self, buf: &[u8])
        requires
            old(self).wf(),
        ensures
            final(self).wf(),
            final(self)@ == old(self)@ + buf@,
            final(self).spec_total_out() == old(self).spec_total_out() + buf@.len(),
    {
        self.inner.extend_from_slice(buf);
        let n = self.inner.len();
        assert(self.total_out + buf@.len() <= n <= usize::MAX);
        self.total_out = self.total_out + buf.len() as u64;
    }

    pub fn total_out(&self) -> (r: u64)
        ensures
            r == self.spec_total_out(),
    {
        self.total_out
    }

    /// Give the accumulated bytes back.
    pub fn into_inner(self) -> (r: Vec<u8>)
        ensures
            r@ == self@,
    {
        self.inner
    }
}

} // verus!
