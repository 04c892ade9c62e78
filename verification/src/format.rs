//! The archive's on-disk structures: header, file entries, directory
//! entries, and the two entry tables.
//!
//! Each structure has a spec encoding `enc_*`, a spec parser `parse_*`,
//! exec encode/decode functions proved to agree with them, and a round-trip
//! lemma: parsing bytes where an encoding was laid down yields the encoded
//! value.  Parsers report an explicit error, never a panic: truncated
//! input, a bad tag, bad magic, a bad version, or invalid UTF-8 in a path.

use crate::codec::enc_bytes;
use crate::codec::enc_u32;
use crate::codec::enc_u64;
use crate::codec::enc_u8;
use crate::codec::lemma_parse_bytes_enc;
use crate::codec::lemma_parse_u32_enc;
use crate::codec::lemma_parse_u64_enc;
use crate::codec::lemma_parse_u8_enc;
use crate::codec::parse_bytes;
use crate::codec::parse_u32;
use crate::codec::parse_u64;
use crate::codec::parse_u8;
use crate::codec::read_bytes;
use crate::codec::read_u32;
use crate::codec::read_u64;
use crate::codec::read_u8;
use crate::codec::write_bytes;
use crate::codec::write_u32;
use crate::codec::write_u64;
use crate::codec::write_u8;
use crate::compress::decode_method;
use crate::compress::encode_method;
use crate::compress::method_of_tag;
use crate::compress::method_tag;
use crate::compress::CompressionMethod;
use crate::errors::Error;
use crate::MAGIC;
use crate::VERSION;
use vstd::bytes::lemma_auto_spec_u32_to_from_le_bytes;
use vstd::bytes::lemma_auto_spec_u64_to_from_le_bytes;
use vstd::prelude::*;
use vstd::utf8::valid_utf8;

verus! {

/// The fixed byte length of the archive header.
pub const HEADER_SIZE: u64 = 17;

/// The archive header at byte 0: magic, version, the method used for
/// every metadata blob, and the byte offset of the entry tables.
#[derive(Debug, Clone, Copy, PartialEq, Eq, Structural)]
pub struct HpakHeader {
    pub meta_compression_method: CompressionMethod,
    pub entries_offset: u64,
}

/// A stored file: the hash of its path, how its data is compressed, and
/// the byte range it occupies.  The metadata blob sits at
/// `[meta_offset, meta_offset + meta_size)` and the data blob follows it
/// immediately at `[meta_offset + meta_size, .. + data_size)`.
#[derive(Debug, Clone, Copy, PartialEq, Eq, Structural)]
pub struct HpakFileEntry {
    pub hash: u64,
    pub compression_method: CompressionMethod,
    pub meta_offset: u64,
    pub meta_size: u64,
    pub data_size: u64,
}

/// A stored directory: the hash of its path and its immediate children,
/// one level deep, files and sub-directories mixed.
#[derive(Debug)]
pub struct HpakDirectoryEntry {
    pub hash: u64,
    pub entries: Vec<Vec<u8>>,
}

impl HpakHeader {
    pub fn new(meta_compression_method: CompressionMethod, entries_offset: u64) -> (r: Self)
        ensures
            r.meta_compression_method == meta_compression_method,
            r.entries_offset == entries_offset,
    {
        HpakHeader { meta_compression_method, entries_offset }
    }
}

impl HpakFileEntry {
    pub fn new(
        hash: u64,
        compression_method: CompressionMethod,
        meta_offset: u64,
        meta_size: u64,
        data_size: u64,
    ) -> (r: Self)
        ensures
            r == (HpakFileEntry { hash, compression_method, meta_offset, meta_size, data_size }),
    {
        HpakFileEntry { hash, compression_method, meta_offset, meta_size, data_size }
    }

    /// The hash of the entry's path: its identity in the archive.
    pub fn hash(&self) -> (r: u64)
        ensures
            r == self.hash,
    {
        self.hash
    }
}

impl HpakDirectoryEntry {
    /// The children as a sequence of byte strings.
    pub open spec fn children_view(&self) -> Seq<Seq<u8>> {
        self.entries@.map_values(|v: Vec<u8>| v@)
    }

    pub fn new(hash: u64, entries: Vec<Vec<u8>>) -> (r: Self)
        ensures
            r.hash == hash,
            r.children_view() == entries@.map_values(|v: Vec<u8>| v@),
    {
        HpakDirectoryEntry { hash, entries }
    }

    /// The hash of the directory's path: its identity in the archive.
    pub fn hash(&self) -> (r: u64)
        ensures
            r == self.hash,
    {
        self.hash
    }
}

// ---------------------------------------------------------------------------
// Spec encodings
// ---------------------------------------------------------------------------
pub open spec fn enc_header(h: HpakHeader) -> Seq<u8> {
    enc_u32(MAGIC) + enc_u32(VERSION) + enc_u8(method_tag(h.meta_compression_method)) + enc_u64(
        h.entries_offset,
    )
}

pub open spec fn enc_file_entry(e: HpakFileEntry) -> Seq<u8> {
    enc_u64(e.hash) + enc_u8(method_tag(e.compression_method)) + enc_u64(e.meta_offset) + enc_u64(
        e.meta_size,
    ) + enc_u64(e.data_size)
}

/// The concatenated encodings of a list of paths.
pub open spec fn enc_path_seq(l: Seq<Seq<u8>>) -> Seq<u8>
    decreases l.len(),
{
    if l.len() == 0 {
        Seq::empty()
    } else {
        enc_bytes(l[0]) + enc_path_seq(l.skip(1))
    }
}

/// A directory entry: hash, child count, then the children.
pub open spec fn enc_dir_entry(hash: u64, children: Seq<Seq<u8>>) -> Seq<u8> {
    enc_u64(hash) + enc_u64(children.len() as u64) + enc_path_seq(children)
}

/// The concatenated encodings of a list of directory entries.
pub open spec fn enc_dir_seq(l: Seq<(u64, Seq<Seq<u8>>)>) -> Seq<u8>
    decreases l.len(),
{
    if l.len() == 0 {
        Seq::empty()
    } else {
        enc_dir_entry(l[0].0, l[0].1) + enc_dir_seq(l.skip(1))
    }
}

/// The concatenated encodings of a list of file entries.
pub open spec fn enc_file_seq(l: Seq<HpakFileEntry>) -> Seq<u8>
    decreases l.len(),
{
    if l.len() == 0 {
        Seq::empty()
    } else {
        enc_file_entry(l[0]) + enc_file_seq(l.skip(1))
    }
}

/// The whole entry table: directory count and table, then file count and
/// table.
pub open spec fn enc_entries(dirs: Seq<(u64, Seq<Seq<u8>>)>, files: Seq<HpakFileEntry>) -> Seq<
    u8,
> {
    enc_u64(dirs.len() as u64) + enc_dir_seq(dirs) + enc_u64(files.len() as u64) + enc_file_seq(
        files,
    )
}

// ---------------------------------------------------------------------------
// Spec parsers
// ---------------------------------------------------------------------------
pub open spec fn parse_header(s: Seq<u8>) -> Result<HpakHeader, Error> {
    match parse_u32(s, 0) {
        Some((magic, p1)) => {
            if magic != MAGIC {
                Err(Error::InvalidFileFormat)
            } else {
                match parse_u32(s, p1) {
                    Some((version, p2)) => {
                        if version != VERSION {
                            Err(Error::BadVersion(version))
                        } else {
                            match parse_u8(s, p2) {
                                Some((tag, p3)) => match method_of_tag(tag) {
                                    Some(m) => match parse_u64(s, p3) {
                                        Some((off, _)) => Ok(
                                            HpakHeader {
                                                meta_compression_method: m,
                                                entries_offset: off,
                                            },
                                        ),
                                        None => Err(Error::InvalidFileFormat),
                                    },
                                    None => Err(Error::InvalidFileFormat),
                                },
                                None => Err(Error::InvalidFileFormat),
                            }
                        }
                    },
                    None => Err(Error::InvalidFileFormat),
                }
            }
        },
        None => Err(Error::InvalidFileFormat),
    }
}

pub open spec fn parse_file_entry(s: Seq<u8>, pos: int) -> Result<(HpakFileEntry, int), Error> {
    match parse_u64(s, pos) {
        Some((hash, p1)) => match parse_u8(s, p1) {
            Some((tag, p2)) => match method_of_tag(tag) {
                Some(m) => match parse_u64(s, p2) {
                    Some((meta_offset, p3)) => match parse_u64(s, p3) {
                        Some((meta_size, p4)) => match parse_u64(s, p4) {
                            Some((data_size, p5)) => Ok(
                                (
                                    HpakFileEntry {
                                        hash,
                                        compression_method: m,
                                        meta_offset,
                                        meta_size,
                                        data_size,
                                    },
                                    p5,
                                ),
                            ),
                            None => Err(Error::InvalidFileFormat),
                        },
                        None => Err(Error::InvalidFileFormat),
                    },
                    None => Err(Error::InvalidFileFormat),
                },
                None => Err(Error::InvalidFileFormat),
            },
            None => Err(Error::InvalidFileFormat),
        },
        None => Err(Error::InvalidFileFormat),
    }
}

pub open spec fn parse_path_seq(s: Seq<u8>, pos: int, n: u64) -> Result<(Seq<Seq<u8>>, int), Error>
    decreases n,
{
    if n == 0 {
        Ok((Seq::empty(), pos))
    } else {
        match parse_bytes(s, pos) {
            Some((b, p)) => {
                if !valid_utf8(b) {
                    Err(Error::InvalidUtf8)
                } else {
                    match parse_path_seq(s, p, (n - 1) as u64) {
                        Ok((rest, q)) => Ok((seq![b] + rest, q)),
                        Err(e) => Err(e),
                    }
                }
            },
            None => Err(Error::InvalidFileFormat),
        }
    }
}

pub open spec fn parse_dir_entry(s: Seq<u8>, pos: int) -> Result<
    ((u64, Seq<Seq<u8>>), int),
    Error,
> {
    match parse_u64(s, pos) {
        Some((hash, p1)) => match parse_u64(s, p1) {
            Some((n, p2)) => match parse_path_seq(s, p2, n) {
                Ok((children, q)) => Ok(((hash, children), q)),
                Err(e) => Err(e),
            },
            None => Err(Error::InvalidFileFormat),
        },
        None => Err(Error::InvalidFileFormat),
    }
}

pub open spec fn parse_dir_seq(s: Seq<u8>, pos: int, n: u64) -> Result<
    (Seq<(u64, Seq<Seq<u8>>)>, int),
    Error,
>
    decreases n,
{
    if n == 0 {
        Ok((Seq::empty(), pos))
    } else {
        match parse_dir_entry(s, pos) {
            Ok((d, p)) => match parse_dir_seq(s, p, (n - 1) as u64) {
                Ok((rest, q)) => Ok((seq![d] + rest, q)),
                Err(e) => Err(e),
            },
            Err(e) => Err(e),
        }
    }
}

pub open spec fn parse_file_seq(s: Seq<u8>, pos: int, n: u64) -> Result<
    (Seq<HpakFileEntry>, int),
    Error,
>
    decreases n,
{
    if n == 0 {
        Ok((Seq::empty(), pos))
    } else {
        match parse_file_entry(s, pos) {
            Ok((e, p)) => match parse_file_seq(s, p, (n - 1) as u64) {
                Ok((rest, q)) => Ok((seq![e] + rest, q)),
                Err(er) => Err(er),
            },
            Err(er) => Err(er),
        }
    }
}

/// The whole entry table at `pos`: the directory list, then the file list.
pub open spec fn parse_entries(s: Seq<u8>, pos: int) -> Result<
    ((Seq<(u64, Seq<Seq<u8>>)>, Seq<HpakFileEntry>), int),
    Error,
> {
    match parse_u64(s, pos) {
        Some((nd, p1)) => match parse_dir_seq(s, p1, nd) {
            Ok((dirs, p2)) => match parse_u64(s, p2) {
                Some((nf, p3)) => match parse_file_seq(s, p3, nf) {
                    Ok((files, q)) => Ok(((dirs, files), q)),
                    Err(e) => Err(e),
                },
                None => Err(Error::InvalidFileFormat),
            },
            Err(e) => Err(e),
        },
        None => Err(Error::InvalidFileFormat),
    }
}

// ---------------------------------------------------------------------------
// Exec encoders
// ---------------------------------------------------------------------------
impl HpakHeader {
    /// Append this header's 17 bytes to `out`.
    pub fn encode(&self, out: &mut Vec<u8>)
        ensures
            final(out)@ == old(out)@ + enc_header(*self),
            enc_header(*self).len() == HEADER_SIZE,
    {
        proof {
            lemma_auto_spec_u32_to_from_le_bytes();
            lemma_auto_spec_u64_to_from_le_bytes();
        }
        write_u32(out, MAGIC);
        write_u32(out, VERSION);
        write_u8(out, encode_method(self.meta_compression_method));
        write_u64(out, self.entries_offset);
        assert(out@ =~= old(out)@ + enc_header(*self));
    }
}

impl HpakFileEntry {
    /// Append this entry's 33 bytes to `out`.
    pub fn encode(&self, out: &mut Vec<u8>)
        ensures
            final(out)@ == old(out)@ + enc_file_entry(*self),
    {
        write_u64(out, self.hash);
        write_u8(out, encode_method(self.compression_method));
        write_u64(out, self.meta_offset);
        write_u64(out, self.meta_size);
        write_u64(out, self.data_size);
        assert(out@ =~= old(out)@ + enc_file_entry(*self));
    }
}

impl HpakDirectoryEntry {
    /// Append this directory entry: hash, child count, children.
    pub fn encode(&self, out: &mut Vec<u8>)
        ensures
            final(out)@ == old(out)@ + enc_dir_entry(self.hash, self.children_view()),
    {
        write_u64(out, self.hash);
        write_u64(out, self.entries.len() as u64);
        let ghost mid = out@;
        let mut i: usize = 0;
        assert(self.children_view().skip(0) =~= self.children_view());
        while i < self.entries.len()
            invariant
                0 <= i <= self.entries.len(),
                self.children_view().len() == self.entries.len(),
                mid + enc_path_seq(self.children_view()) == out@ + enc_path_seq(
                    self.children_view().skip(i as int),
                ),
            decreases self.entries.len() - i,
        {
            let ghost pre = out@;
            write_bytes(out, self.entries[i].as_slice());
            proof {
                let cv = self.children_view();
                assert(cv.skip(i as int)[0] == cv[i as int]);
                assert(cv.skip(i as int).skip(1) =~= cv.skip(i as int + 1));
                assert(enc_path_seq(cv.skip(i as int)) == enc_bytes(cv[i as int]) + enc_path_seq(
                    cv.skip(i as int + 1),
                ));
                assert(mid + enc_path_seq(cv) =~= out@ + enc_path_seq(cv.skip(i as int + 1)));
            }
            i = i + 1;
        }
        proof {
            let cv = self.children_view();
            assert(enc_path_seq(cv.skip(cv.len() as int)) =~= Seq::<u8>::empty());
            assert(mid + enc_path_seq(cv) =~= out@);
            assert(out@ =~= old(out)@ + enc_dir_entry(self.hash, cv));
        }
    }
}

/// The list models of a directory table and a file table.
pub open spec fn dirs_view(dirs: Seq<HpakDirectoryEntry>) -> Seq<(u64, Seq<Seq<u8>>)> {
    dirs.map_values(|d: HpakDirectoryEntry| (d.hash, d.children_view()))
}

/// Append the whole entry table: directory count and entries, then file
/// count and entries.
pub fn encode_entries(dirs: &Vec<HpakDirectoryEntry>, files: &Vec<HpakFileEntry>, out: &mut Vec<
    u8,
>)
    ensures
        final(out)@ == old(out)@ + enc_entries(dirs_view(dirs@), files@),
{
    write_u64(out, dirs.len() as u64);
    let ghost mid = out@;
    let mut i: usize = 0;
    assert(dirs_view(dirs@).skip(0) =~= dirs_view(dirs@));
    while i < dirs.len()
        invariant
            0 <= i <= dirs.len(),
            dirs_view(dirs@).len() == dirs@.len(),
            mid + enc_dir_seq(dirs_view(dirs@)) == out@ + enc_dir_seq(
                dirs_view(dirs@).skip(i as int),
            ),
        decreases dirs.len() - i,
    {
        let entry = &dirs[i];
        entry.encode(out);
        proof {
            let dv = dirs_view(dirs@);
            assert(dv.skip(i as int)[0] == dv[i as int]);
            assert(dv.skip(i as int).skip(1) =~= dv.skip(i as int + 1));
            assert(enc_dir_seq(dv.skip(i as int)) == enc_dir_entry(dv[i as int].0, dv[i as int].1)
                + enc_dir_seq(dv.skip(i as int + 1)));
            assert(mid + enc_dir_seq(dv) =~= out@ + enc_dir_seq(dv.skip(i as int + 1)));
        }
        i = i + 1;
    }
    proof {
        let dv = dirs_view(dirs@);
        assert(enc_dir_seq(dv.skip(dv.len() as int)) =~= Seq::<u8>::empty());
        assert(mid + enc_dir_seq(dv) =~= out@);
    }
    write_u64(out, files.len() as u64);
    let ghost mid2 = out@;
    let mut j: usize = 0;
    assert(files@.skip(0) =~= files@);
    while j < files.len()
        invariant
            0 <= j <= files.len(),
            mid2 + enc_file_seq(files@) == out@ + enc_file_seq(files@.skip(j as int)),
        decreases files.len() - j,
    {
        let entry = &files[j];
        entry.encode(out);
        proof {
            let fv = files@;
            assert(fv.skip(j as int)[0] == fv[j as int]);
            assert(fv.skip(j as int).skip(1) =~= fv.skip(j as int + 1));
            assert(enc_file_seq(fv.skip(j as int)) == enc_file_entry(fv[j as int]) + enc_file_seq(
                fv.skip(j as int + 1),
            ));
            assert(mid2 + enc_file_seq(fv) =~= out@ + enc_file_seq(fv.skip(j as int + 1)));
        }
        j = j + 1;
    }
    proof {
        assert(enc_file_seq(files@.skip(files@.len() as int)) =~= Seq::<u8>::empty());
        assert(mid2 + enc_file_seq(files@) =~= out@);
        assert(out@ =~= old(out)@ + enc_entries(dirs_view(dirs@), files@));
    }
}

// ---------------------------------------------------------------------------
// Exec decoders
// ---------------------------------------------------------------------------
/// Relies on `core::str::from_utf8`: it accepts exactly the byte strings
/// that are valid UTF-8, the property `vstd::utf8::valid_utf8` describes.
#[verifier::external_body]
pub(crate) fn check_utf8(b: &[u8]) -> (r: bool)
    ensures
        r == valid_utf8(b@),
{
    core::str::from_utf8(b).is_ok()
}

/// Decode the header at byte 0, checking magic and version.
pub fn decode_header(s: &[u8]) -> (r: Result<HpakHeader, Error>)
    ensures
        r == parse_header(s@),
{
    let (magic, p1) = match read_u32(s, 0) {
        Ok(v) => v,
        Err(e) => { return Err(e) },
    };
    if magic != MAGIC {
        return Err(Error::InvalidFileFormat);
    }
    let (version, p2) = match read_u32(s, p1) {
        Ok(v) => v,
        Err(e) => { return Err(e) },
    };
    if version != VERSION {
        return Err(Error::BadVersion(version));
    }
    let (tag, p3) = match read_u8(s, p2) {
        Ok(v) => v,
        Err(e) => { return Err(e) },
    };
    let m = match decode_method(tag) {
        Ok(m) => m,
        Err(e) => { return Err(e) },
    };
    let (off, _p4) = match read_u64(s, p3) {
        Ok(v) => v,
        Err(e) => { return Err(e) },
    };
    Ok(HpakHeader { meta_compression_method: m, entries_offset: off })
}

/// Decode one file entry at `pos`.
pub fn decode_file_entry(s: &[u8], pos: usize) -> (r: Result<(HpakFileEntry, usize), Error>)
    ensures
        match r {
            Ok((e, p)) => parse_file_entry(s@, pos as int) == Ok::<(HpakFileEntry, int), Error>(
                (e, p as int),
            ),
            Err(e) => parse_file_entry(s@, pos as int) == Err::<(HpakFileEntry, int), Error>(e),
        },
{
    let (hash, p1) = match read_u64(s, pos) {
        Ok(v) => v,
        Err(e) => { return Err(e) },
    };
    let (tag, p2) = match read_u8(s, p1) {
        Ok(v) => v,
        Err(e) => { return Err(e) },
    };
    let m = match decode_method(tag) {
        Ok(m) => m,
        Err(e) => { return Err(e) },
    };
    let (meta_offset, p3) = match read_u64(s, p2) {
        Ok(v) => v,
        Err(e) => { return Err(e) },
    };
    let (meta_size, p4) = match read_u64(s, p3) {
        Ok(v) => v,
        Err(e) => { return Err(e) },
    };
    let (data_size, p5) = match read_u64(s, p4) {
        Ok(v) => v,
        Err(e) => { return Err(e) },
    };
    Ok((HpakFileEntry { hash, compression_method: m, meta_offset, meta_size, data_size }, p5))
}

/// Decode one directory entry at `pos`: hash, child count, children.
pub fn decode_dir_entry(s: &[u8], pos: usize) -> (r: Result<(HpakDirectoryEntry, usize), Error>)
    ensures
        match r {
            Ok((d, p)) => parse_dir_entry(s@, pos as int) == Ok::<((u64, Seq<Seq<u8>>), int), Error>(
                ((d.hash, d.children_view()), p as int),
            ),
            Err(e) => parse_dir_entry(s@, pos as int) == Err::<((u64, Seq<Seq<u8>>), int), Error>(e),
        },
{
    let (hash, p1) = match read_u64(s, pos) {
        Ok(v) => v,
        Err(e) => { return Err(e) },
    };
    let (n, p2) = match read_u64(s, p1) {
        Ok(v) => v,
        Err(e) => { return Err(e) },
    };
    let mut children: Vec<Vec<u8>> = Vec::new();
    let mut i: u64 = 0;
    let mut cur: usize = p2;
    while i < n
        invariant
            0 <= i <= n,
            parse_u64(s@, pos as int) == Some::<(u64, int)>((hash, p1 as int)),
            parse_u64(s@, p1 as int) == Some::<(u64, int)>((n, p2 as int)),
            children@.map_values(|v: Vec<u8>| v@).len() == i,
            match parse_path_seq(s@, cur as int, (n - i) as u64) {
                Ok((rest, q)) => parse_path_seq(s@, p2 as int, n) == Ok::<(Seq<Seq<u8>>, int), Error>(
                    (children@.map_values(|v: Vec<u8>| v@) + rest, q),
                ),
                Err(e) => parse_path_seq(s@, p2 as int, n) == Err::<(Seq<Seq<u8>>, int), Error>(e),
            },
        decreases n - i,
    {
        let ghost acc = children@.map_values(|v: Vec<u8>| v@);
        let (b, p) = match read_bytes(s, cur) {
            Ok(v) => v,
            Err(e) => {
                proof {
                    assert(parse_path_seq(s@, cur as int, (n - i) as u64) == Err::<
                        (Seq<Seq<u8>>, int),
                        Error,
                    >(e));
                }
                return Err(e)
            },
        };
        if !check_utf8(b.as_slice()) {
            proof {
                assert(parse_path_seq(s@, cur as int, (n - i) as u64) == Err::<
                    (Seq<Seq<u8>>, int),
                    Error,
                >(Error::InvalidUtf8));
            }
            return Err(Error::InvalidUtf8);
        }
        proof {
            match parse_path_seq(s@, p as int, (n - i - 1) as u64) {
                Ok((rest, q)) => {
                    assert(acc + (seq![b@] + rest) =~= (acc.push(b@)) + rest);
                },
                Err(e) => {},
            }
        }
        let ghost bv = b@;
        children.push(b);
        proof {
            assert(children@.map_values(|v: Vec<u8>| v@) =~= acc.push(bv));
        }
        cur = p;
        i = i + 1;
    }
    proof {
        let acc = children@.map_values(|v: Vec<u8>| v@);
        assert(acc + Seq::<Seq<u8>>::empty() =~= acc);
    }
    let d = HpakDirectoryEntry { hash, entries: children };
    Ok((d, cur))
}

/// Decode the whole entry table at `pos`: the directory list, then the
/// file list.
pub fn decode_entries(s: &[u8], pos: usize) -> (r: Result<
    (Vec<HpakDirectoryEntry>, Vec<HpakFileEntry>, usize),
    Error,
>)
    ensures
        match r {
            Ok((dirs, files, p)) => parse_entries(s@, pos as int) == Ok::<
                ((Seq<(u64, Seq<Seq<u8>>)>, Seq<HpakFileEntry>), int),
                Error,
            >(((dirs_view(dirs@), files@), p as int)),
            Err(e) => parse_entries(s@, pos as int) == Err::<
                ((Seq<(u64, Seq<Seq<u8>>)>, Seq<HpakFileEntry>), int),
                Error,
            >(e),
        },
{
    let (nd, p1) = match read_u64(s, pos) {
        Ok(v) => v,
        Err(e) => { return Err(e) },
    };
    let mut dirs: Vec<HpakDirectoryEntry> = Vec::new();
    let mut i: u64 = 0;
    let mut cur: usize = p1;
    while i < nd
        invariant
            0 <= i <= nd,
            parse_u64(s@, pos as int) == Some::<(u64, int)>((nd, p1 as int)),
            dirs_view(dirs@).len() == i,
            match parse_dir_seq(s@, cur as int, (nd - i) as u64) {
                Ok((rest, q)) => parse_dir_seq(s@, p1 as int, nd) == Ok::<
                    (Seq<(u64, Seq<Seq<u8>>)>, int),
                    Error,
                >((dirs_view(dirs@) + rest, q)),
                Err(e) => parse_dir_seq(s@, p1 as int, nd) == Err::<
                    (Seq<(u64, Seq<Seq<u8>>)>, int),
                    Error,
                >(e),
            },
        decreases nd - i,
    {
        let ghost acc = dirs_view(dirs@);
        let (d, p) = match decode_dir_entry(s, cur) {
            Ok(v) => v,
            Err(e) => {
                proof {
                    assert(parse_dir_seq(s@, cur as int, (nd - i) as u64) == Err::<
                        (Seq<(u64, Seq<Seq<u8>>)>, int),
                        Error,
                    >(e));
                }
                return Err(e)
            },
        };
        proof {
            match parse_dir_seq(s@, p as int, (nd - i - 1) as u64) {
                Ok((rest, q)) => {
                    assert(acc + (seq![(d.hash, d.children_view())] + rest) =~= (acc.push(
                        (d.hash, d.children_view()),
                    )) + rest);
                },
                Err(e) => {},
            }
        }
        let ghost dm = (d.hash, d.children_view());
        dirs.push(d);
        proof {
            assert(dirs_view(dirs@) =~= acc.push(dm));
        }
        cur = p;
        i = i + 1;
    }
    proof {
        assert(dirs_view(dirs@) + Seq::<(u64, Seq<Seq<u8>>)>::empty() =~= dirs_view(dirs@));
    }
    let (nf, p2) = match read_u64(s, cur) {
        Ok(v) => v,
        Err(e) => { return Err(e) },
    };
    let mut files: Vec<HpakFileEntry> = Vec::new();
    let mut j: u64 = 0;
    let mut cur2: usize = p2;
    while j < nf
        invariant
            0 <= j <= nf,
            files@.len() == j,
            parse_u64(s@, pos as int) == Some::<(u64, int)>((nd, p1 as int)),
            parse_dir_seq(s@, p1 as int, nd) == Ok::<(Seq<(u64, Seq<Seq<u8>>)>, int), Error>(
                (dirs_view(dirs@), cur as int),
            ),
            parse_u64(s@, cur as int) == Some::<(u64, int)>((nf, p2 as int)),
            match parse_file_seq(s@, cur2 as int, (nf - j) as u64) {
                Ok((rest, q)) => parse_file_seq(s@, p2 as int, nf) == Ok::<
                    (Seq<HpakFileEntry>, int),
                    Error,
                >((files@ + rest, q)),
                Err(e) => parse_file_seq(s@, p2 as int, nf) == Err::<(Seq<HpakFileEntry>, int), Error>(
                    e,
                ),
            },
        decreases nf - j,
    {
        let ghost acc = files@;
        let (e, p) = match decode_file_entry(s, cur2) {
            Ok(v) => v,
            Err(er) => {
                proof {
                    assert(parse_file_seq(s@, cur2 as int, (nf - j) as u64) == Err::<
                        (Seq<HpakFileEntry>, int),
                        Error,
                    >(er));
                }
                return Err(er)
            },
        };
        proof {
            match parse_file_seq(s@, p as int, (nf - j - 1) as u64) {
                Ok((rest, q)) => {
                    assert(acc + (seq![e] + rest) =~= acc.push(e) + rest);
                },
                Err(er) => {},
            }
        }
        files.push(e);
        cur2 = p;
        j = j + 1;
    }
    proof {
        assert(files@ + Seq::<HpakFileEntry>::empty() =~= files@);
    }
    Ok((dirs, files, cur2))
}

// ---------------------------------------------------------------------------
// Round-trip lemmas: parsing bytes where an encoding was laid down yields
// exactly the encoded value.
// ---------------------------------------------------------------------------
/// Splitting a concatenation that sits inside a larger byte sequence.
proof fn lemma_subrange_concat(s: Seq<u8>, pos: int, a: Seq<u8>, b: Seq<u8>)
    requires
        0 <= pos,
        pos + a.len() + b.len() <= s.len(),
        s.subrange(pos, pos + a.len() + b.len()) == a + b,
    ensures
        s.subrange(pos, pos + a.len() as int) == a,
        s.subrange(pos + a.len() as int, pos + a.len() + b.len()) == b,
{
    assert forall|k: int| 0 <= k < a.len() implies s.subrange(pos, pos + a.len() as int)[k]
        == a[k] by {
        assert(s.subrange(pos, pos + a.len() + b.len())[k] == (a + b)[k]);
    }
    assert(s.subrange(pos, pos + a.len() as int) =~= a);
    assert forall|k: int|
        0 <= k < b.len() implies s.subrange(pos + a.len() as int, pos + a.len() + b.len())[k]
        == b[k] by {
        assert(s.subrange(pos + a.len() as int, pos + a.len() + b.len())[k] == s[pos + a.len()
            + k]);
        assert(s.subrange(pos, pos + a.len() + b.len())[a.len() + k] == s[pos + a.len() + k]);
        assert((a + b)[a.len() + k] == b[k]);
    }
    assert(s.subrange(pos + a.len() as int, pos + a.len() + b.len()) =~= b);
}

/// Round trip of the header: decoding an encoded header gives it back.
pub proof fn lemma_parse_header_enc(s: Seq<u8>, h: HpakHeader)
    requires
        HEADER_SIZE <= s.len(),
        s.subrange(0, HEADER_SIZE as int) == enc_header(h),
    ensures
        enc_header(h).len() == HEADER_SIZE,
        parse_header(s) == Ok::<HpakHeader, Error>(h),
{
    lemma_auto_spec_u32_to_from_le_bytes();
    lemma_auto_spec_u64_to_from_le_bytes();
    let a1 = enc_u32(MAGIC);
    let a2 = enc_u32(VERSION);
    let a3 = enc_u8(method_tag(h.meta_compression_method));
    let a4 = enc_u64(h.entries_offset);
    assert(a1.len() == 4 && a2.len() == 4 && a3.len() == 1 && a4.len() == 8);
    lemma_subrange_concat(s, 0, a1 + a2 + a3, a4);
    lemma_subrange_concat(s, 0, a1 + a2, a3);
    lemma_subrange_concat(s, 0, a1, a2);
    lemma_parse_u32_enc(s, 0, MAGIC);
    lemma_parse_u32_enc(s, 4, VERSION);
    lemma_parse_u8_enc(s, 8, method_tag(h.meta_compression_method));
    lemma_parse_u64_enc(s, 9, h.entries_offset);
    assert(method_of_tag(method_tag(h.meta_compression_method)) == Some(
        h.meta_compression_method,
    ));
}

/// Round trip of one file entry.
pub proof fn lemma_parse_file_entry_enc(s: Seq<u8>, pos: int, e: HpakFileEntry)
    requires
        0 <= pos,
        pos + 33 <= s.len(),
        s.subrange(pos, pos + 33) == enc_file_entry(e),
    ensures
        enc_file_entry(e).len() == 33,
        parse_file_entry(s, pos) == Ok::<(HpakFileEntry, int), Error>((e, pos + 33)),
{
    lemma_auto_spec_u64_to_from_le_bytes();
    let a1 = enc_u64(e.hash);
    let a2 = enc_u8(method_tag(e.compression_method));
    let a3 = enc_u64(e.meta_offset);
    let a4 = enc_u64(e.meta_size);
    let a5 = enc_u64(e.data_size);
    assert(a1.len() == 8 && a2.len() == 1 && a3.len() == 8 && a4.len() == 8 && a5.len() == 8);
    lemma_subrange_concat(s, pos, a1 + a2 + a3 + a4, a5);
    lemma_subrange_concat(s, pos, a1 + a2 + a3, a4);
    lemma_subrange_concat(s, pos, a1 + a2, a3);
    lemma_subrange_concat(s, pos, a1, a2);
    lemma_parse_u64_enc(s, pos, e.hash);
    lemma_parse_u8_enc(s, pos + 8, method_tag(e.compression_method));
    lemma_parse_u64_enc(s, pos + 9, e.meta_offset);
    lemma_parse_u64_enc(s, pos + 17, e.meta_size);
    lemma_parse_u64_enc(s, pos + 25, e.data_size);
    assert(method_of_tag(method_tag(e.compression_method)) == Some(e.compression_method));
}

/// What the list round-trip lemmas ask of every path in a directory entry.
pub open spec fn wf_path_model(p: Seq<u8>) -> bool {
    valid_utf8(p) && p.len() <= u64::MAX
}

/// What the table round-trip lemma asks of a directory entry model.
pub open spec fn wf_dir_model(d: (u64, Seq<Seq<u8>>)) -> bool {
    d.1.len() <= u64::MAX && forall|k: int| 0 <= k < d.1.len() ==> wf_path_model(#[trigger] d.1[k])
}

/// Round trip of a path list.
pub proof fn lemma_parse_path_seq_enc(s: Seq<u8>, pos: int, l: Seq<Seq<u8>>)
    requires
        0 <= pos,
        l.len() <= u64::MAX,
        forall|k: int| 0 <= k < l.len() ==> wf_path_model(#[trigger] l[k]),
        pos + enc_path_seq(l).len() <= s.len(),
        s.subrange(pos, pos + enc_path_seq(l).len() as int) == enc_path_seq(l),
    ensures
        parse_path_seq(s, pos, l.len() as u64) == Ok::<(Seq<Seq<u8>>, int), Error>(
            (l, pos + enc_path_seq(l).len()),
        ),
    decreases l.len(),
{
    lemma_auto_spec_u64_to_from_le_bytes();
    if l.len() == 0 {
        assert(l =~= Seq::<Seq<u8>>::empty());
    } else {
        let h = l[0];
        let t = l.skip(1);
        assert(enc_path_seq(l) == enc_bytes(h) + enc_path_seq(t));
        lemma_subrange_concat(s, pos, enc_bytes(h), enc_path_seq(t));
        lemma_parse_bytes_enc(s, pos, h);
        let p = pos + enc_bytes(h).len();
        assert(forall|k: int| 0 <= k < t.len() ==> t[k] == l[k + 1]);
        lemma_parse_path_seq_enc(s, p, t);
        assert(seq![h] + t =~= l);
    }
}

/// Round trip of one directory entry.
pub proof fn lemma_parse_dir_entry_enc(s: Seq<u8>, pos: int, d: (u64, Seq<Seq<u8>>))
    requires
        0 <= pos,
        wf_dir_model(d),
        pos + enc_dir_entry(d.0, d.1).len() <= s.len(),
        s.subrange(pos, pos + enc_dir_entry(d.0, d.1).len() as int) == enc_dir_entry(d.0, d.1),
    ensures
        parse_dir_entry(s, pos) == Ok::<((u64, Seq<Seq<u8>>), int), Error>(
            (d, pos + enc_dir_entry(d.0, d.1).len()),
        ),
{
    lemma_auto_spec_u64_to_from_le_bytes();
    let a1 = enc_u64(d.0);
    let a2 = enc_u64(d.1.len() as u64);
    let a3 = enc_path_seq(d.1);
    assert(a1.len() == 8 && a2.len() == 8);
    lemma_subrange_concat(s, pos, a1 + a2, a3);
    lemma_subrange_concat(s, pos, a1, a2);
    lemma_parse_u64_enc(s, pos, d.0);
    lemma_parse_u64_enc(s, pos + 8, d.1.len() as u64);
    lemma_parse_path_seq_enc(s, pos + 16, d.1);
}

/// Round trip of the directory list.
pub proof fn lemma_parse_dir_seq_enc(s: Seq<u8>, pos: int, l: Seq<(u64, Seq<Seq<u8>>)>)
    requires
        0 <= pos,
        l.len() <= u64::MAX,
        forall|k: int| 0 <= k < l.len() ==> wf_dir_model(#[trigger] l[k]),
        pos + enc_dir_seq(l).len() <= s.len(),
        s.subrange(pos, pos + enc_dir_seq(l).len() as int) == enc_dir_seq(l),
    ensures
        parse_dir_seq(s, pos, l.len() as u64) == Ok::<(Seq<(u64, Seq<Seq<u8>>)>, int), Error>(
            (l, pos + enc_dir_seq(l).len()),
        ),
    decreases l.len(),
{
    if l.len() == 0 {
        assert(l =~= Seq::<(u64, Seq<Seq<u8>>)>::empty());
    } else {
        let h = l[0];
        let t = l.skip(1);
        assert(enc_dir_seq(l) == enc_dir_entry(h.0, h.1) + enc_dir_seq(t));
        lemma_subrange_concat(s, pos, enc_dir_entry(h.0, h.1), enc_dir_seq(t));
        lemma_parse_dir_entry_enc(s, pos, h);
        let p = pos + enc_dir_entry(h.0, h.1).len();
        assert(forall|k: int| 0 <= k < t.len() ==> t[k] == l[k + 1]);
        lemma_parse_dir_seq_enc(s, p, t);
        assert(seq![h] + t =~= l);
    }
}

/// Round trip of the file list.
pub proof fn lemma_parse_file_seq_enc(s: Seq<u8>, pos: int, l: Seq<HpakFileEntry>)
    requires
        0 <= pos,
        l.len() <= u64::MAX,
        pos + enc_file_seq(l).len() <= s.len(),
        s.subrange(pos, pos + enc_file_seq(l).len() as int) == enc_file_seq(l),
    ensures
        parse_file_seq(s, pos, l.len() as u64) == Ok::<(Seq<HpakFileEntry>, int), Error>(
            (l, pos + enc_file_seq(l).len()),
        ),
    decreases l.len(),
{
    if l.len() == 0 {
        assert(l =~= Seq::<HpakFileEntry>::empty());
    } else {
        let h = l[0];
        let t = l.skip(1);
        assert(enc_file_seq(l) == enc_file_entry(h) + enc_file_seq(t));
        lemma_subrange_concat(s, pos, enc_file_entry(h), enc_file_seq(t));
        assert(enc_file_entry(h).len() == 33) by {
            lemma_auto_spec_u64_to_from_le_bytes();
        }
        lemma_parse_file_entry_enc(s, pos, h);
        let p = pos + 33;
        assert(forall|k: int| 0 <= k < t.len() ==> t[k] == l[k + 1]);
        lemma_parse_file_seq_enc(s, p, t);
        assert(seq![h] + t =~= l);
    }
}

/// Round trip of the whole entry table.
pub proof fn lemma_parse_entries_enc(
    s: Seq<u8>,
    pos: int,
    dirs: Seq<(u64, Seq<Seq<u8>>)>,
    files: Seq<HpakFileEntry>,
)
    requires
        0 <= pos,
        dirs.len() <= u64::MAX,
        files.len() <= u64::MAX,
        forall|k: int| 0 <= k < dirs.len() ==> wf_dir_model(#[trigger] dirs[k]),
        pos + enc_entries(dirs, files).len() <= s.len(),
        s.subrange(pos, pos + enc_entries(dirs, files).len() as int) == enc_entries(dirs, files),
    ensures
        parse_entries(s, pos) == Ok::<((Seq<(u64, Seq<Seq<u8>>)>, Seq<HpakFileEntry>), int), Error>(
            ((dirs, files), pos + enc_entries(dirs, files).len()),
        ),
{
    lemma_auto_spec_u64_to_from_le_bytes();
    let a1 = enc_u64(dirs.len() as u64);
    let a2 = enc_dir_seq(dirs);
    let a3 = enc_u64(files.len() as u64);
    let a4 = enc_file_seq(files);
    assert(a1.len() == 8 && a3.len() == 8);
    lemma_subrange_concat(s, pos, a1 + a2 + a3, a4);
    lemma_subrange_concat(s, pos, a1 + a2, a3);
    lemma_subrange_concat(s, pos, a1, a2);
    lemma_parse_u64_enc(s, pos, dirs.len() as u64);
    lemma_parse_dir_seq_enc(s, pos + 8, dirs);
    let p2 = pos + 8 + a2.len();
    lemma_parse_u64_enc(s, p2, files.len() as u64);
    lemma_parse_file_seq_enc(s, p2 + 8, files);
}

} // verus!
