//! The archive reader: parse header and entry tables once, eagerly, then
//! serve per-entry decompressing readers and directory listings.
//!
//! The reader works over the archive bytes held in memory; every lookup
//! is keyed by the 64-bit hash of the normalized path, against two hash
//! tables decoded at open time.  Each `read_data` / `read_meta` call
//! returns an independent `HpakEntryReader` with its own cursor, so
//! concurrent readers never share mutable state.

use crate::compress::decompress;
use crate::compress::spec_compress;
use crate::compress::CompressionMethod;
use crate::errors::Error;
use crate::format::decode_entries;
use crate::format::decode_header;
use crate::format::parse_entries;
use crate::format::parse_header;
use crate::format::HpakFileEntry;
use crate::paths::hash_path;
use crate::paths::normalize;
use crate::paths::is_strict_ancestor;
use crate::paths::parent_of;
use crate::paths::path_hash_of;
use crate::writer::archive_ok;
use crate::writer::dir_covers;
use crate::writer::dirs_children;
use crate::writer::entry_ok;
use crate::writer::in_chain;
use crate::writer::lemma_dirs_cover;
use crate::writer::table_has;
use crate::writer::EntrySrc;
use std::collections::HashMap;
use vstd::prelude::*;

verus! {

// ---------------------------------------------------------------------------
// Per-entry decompressing reader
// ---------------------------------------------------------------------------
/// A reader over one entry's bytes: the decompressed content and a
/// forward-only cursor.
pub struct HpakEntryReader {
    content: Vec<u8>,
    pos: usize,
    method: CompressionMethod,
}

/// Where a seek request points.
#[derive(Debug, Clone, Copy, PartialEq, Eq, Structural)]
pub enum SeekTarget {
    /// An absolute position from the start.
    Start(u64),
    /// A signed offset from the cursor.
    Current(i64),
    /// A signed offset from the end.
    End(i64),
}

impl HpakEntryReader {
    /// The entry's decompressed bytes.
    pub closed spec fn content_view(&self) -> Seq<u8> {
        self.content@
    }

    /// The cursor: how many bytes have been read or skipped.
    pub closed spec fn pos_view(&self) -> int {
        self.pos as int
    }

    /// How the entry was stored.
    pub closed spec fn method_view(&self) -> CompressionMethod {
        self.method
    }

    /// The cursor never passes the end.
    pub closed spec fn wf(&self) -> bool {
        self.pos <= self.content@.len()
    }

    /// Build a reader over one entry's stored bytes: a raw cursor for a
    /// stored entry, an eager decompression for a compressed one.  Bytes
    /// that are not a valid stream for the method are rejected.
    pub fn new(raw: Vec<u8>, method: CompressionMethod) -> (r: Result<Self, Error>)
        ensures
            match r {
                Ok(er) => {
                    &&& er.wf()
                    &&& er.method_view() == method
                    &&& er.pos_view() == 0
                    &&& forall|p: Seq<u8>|
                        raw@ == #[trigger] spec_compress(method, p) ==> er.content_view() == p
                },
                Err(e) => {
                    &&& e == Error::InvalidFileFormat
                    &&& forall|p: Seq<u8>| raw@ != #[trigger] spec_compress(method, p)
                },
            },
    {
        let content = match decompress(method, raw.as_slice()) {
            Ok(v) => v,
            Err(e) => { return Err(e) },
        };
        Ok(HpakEntryReader { content, pos: 0, method })
    }

    /// Where forward motion by `n` lands the cursor.
    pub open spec fn advanced(&self, n: int) -> int {
        if self.pos_view() + n <= self.content_view().len() {
            self.pos_view() + n
        } else {
            self.content_view().len() as int
        }
    }

    /// Read up to `n` bytes at the cursor and advance it past them.
    pub fn read(&mut self, n: usize) -> (out: Vec<u8>)
        requires
            old(self).wf(),
        ensures
            final(self).wf(),
            final(self).content_view() == old(self).content_view(),
            final(self).method_view() == old(self).method_view(),
            final(self).pos_view() == old(self).advanced(n as int),
            out@ == old(self).content_view().subrange(
                old(self).pos_view(),
                old(self).advanced(n as int),
            ),
    {
        let avail = self.content.len() - self.pos;
        let take = if n < avail {
            n
        } else {
            avail
        };
        let mut out: Vec<u8> = Vec::new();
        let mut i: usize = 0;
        while i < take
            invariant
                0 <= i <= take,
                self.pos + take <= self.content@.len() <= usize::MAX,
                out@ == self.content@.subrange(self.pos as int, self.pos + i),
            decreases take - i,
        {
            out.push(self.content[self.pos + i]);
            assert(out@ =~= self.content@.subrange(self.pos as int, self.pos + i + 1));
            i = i + 1;
        }
        self.pos = self.pos + take;
        out
    }

    /// Read everything from the cursor to the end.
    pub fn read_to_end(&mut self) -> (out: Vec<u8>)
        requires
            old(self).wf(),
        ensures
            final(self).wf(),
            final(self).content_view() == old(self).content_view(),
            final(self).method_view() == old(self).method_view(),
            final(self).pos_view() == old(self).content_view().len(),
            out@ == old(self).content_view().subrange(
                old(self).pos_view(),
                old(self).content_view().len() as int,
            ),
    {
        let n = self.content.len();
        self.read(n)
    }

    /// Skip `n` bytes forward, stopping at the end; the new cursor is
    /// returned.  This lands the cursor exactly where reading and
    /// discarding `n` bytes would.
    pub fn seek_forward(&mut self, n: u64) -> (newpos: u64)
        requires
            old(self).wf(),
        ensures
            final(self).wf(),
            final(self).content_view() == old(self).content_view(),
            final(self).method_view() == old(self).method_view(),
            final(self).pos_view() == old(self).advanced(n as int),
            newpos == final(self).pos_view(),
    {
        let avail = (self.content.len() - self.pos) as u64;
        if n < avail {
            self.pos = self.pos + n as usize;
        } else {
            self.pos = self.content.len();
        }
        self.pos as u64
    }

    /// Seek the cursor: only a non-negative offset from the current
    /// position is supported; any backward or absolute request is
    /// rejected unchanged, never silently mispositioned.
    pub fn seek(&mut self, target: SeekTarget) -> (r: Result<u64, Error>)
        requires
            old(self).wf(),
        ensures
            final(self).wf(),
            final(self).content_view() == old(self).content_view(),
            final(self).method_view() == old(self).method_view(),
            match r {
                Ok(newpos) => {
                    &&& target matches SeekTarget::Current(d) && d >= 0
                    &&& target matches SeekTarget::Current(d) ==> final(self).pos_view() == old(
                        self,
                    ).advanced(d as int) && newpos == final(self).pos_view()
                },
                Err(e) => {
                    &&& e == Error::UnsupportedSeek
                    &&& !(target matches SeekTarget::Current(d) && d >= 0)
                    &&& *final(self) == *old(self)
                },
            },
    {
        match target {
            SeekTarget::Current(d) => {
                if d >= 0 {
                    Ok(self.seek_forward(d as u64))
                } else {
                    Err(Error::UnsupportedSeek)
                }
            },
            _ => Err(Error::UnsupportedSeek),
        }
    }
}

/// Forward-seeking by `n` bytes lands an entry reader in exactly the
/// state that reading-and-discarding `n` bytes lands it in — the same
/// cursor over the same content — so every later read yields the same
/// bytes, whatever the compression method was.
pub proof fn lemma_seek_matches_read_discard(
    seeked: HpakEntryReader,
    discarded: HpakEntryReader,
    start: HpakEntryReader,
    n: int,
)
    requires
        seeked.content_view() == start.content_view(),
        discarded.content_view() == start.content_view(),
        seeked.pos_view() == start.advanced(n),
        discarded.pos_view() == start.advanced(n),
    ensures
        seeked.pos_view() == discarded.pos_view(),
        forall|m: int|
            seeked.content_view().subrange(seeked.pos_view(), #[trigger] seeked.advanced(m))
                == discarded.content_view().subrange(
                discarded.pos_view(),
                discarded.advanced(m),
            ),
{
}

// ---------------------------------------------------------------------------
// Directory listings
// ---------------------------------------------------------------------------
/// A finite listing of a directory's immediate children, served last to
/// first; restartable by asking the reader again.
pub struct DirStream {
    entries: Vec<Vec<u8>>,
}

impl DirStream {
    /// The children not yet served.
    pub closed spec fn remaining(&self) -> Seq<Seq<u8>> {
        self.entries@.map_values(|v: Vec<u8>| v@)
    }

    pub fn new(entries: Vec<Vec<u8>>) -> (r: Self)
        ensures
            r.remaining() == entries@.map_values(|v: Vec<u8>| v@),
    {
        DirStream { entries }
    }

    /// The next child, from the back of the listing.
    pub fn next(&mut self) -> (r: Option<Vec<u8>>)
        ensures
            match r {
                Some(p) => old(self).remaining().len() > 0 && p@ == old(self).remaining().last()
                    && final(self).remaining() == old(self).remaining().drop_last(),
                None => old(self).remaining().len() == 0 && final(self).remaining() == old(
                    self,
                ).remaining(),
            },
    {
        let ghost old_rem = self.remaining();
        let r = self.entries.pop();
        proof {
            if old_rem.len() > 0 {
                assert(self.remaining() =~= old_rem.drop_last());
            } else {
                assert(self.remaining() =~= old_rem);
            }
        }
        r
    }

    /// How many children are left.
    pub fn len(&self) -> (n: usize)
        ensures
            n == self.remaining().len(),
    {
        self.entries.len()
    }
}

// ---------------------------------------------------------------------------
// The lookup tables as maps
// ---------------------------------------------------------------------------
/// The file table a decoded entry list stands for: later duplicates of a
/// hash overwrite earlier ones.
pub open spec fn files_map_of(l: Seq<HpakFileEntry>) -> Map<u64, HpakFileEntry>
    decreases l.len(),
{
    if l.len() == 0 {
        Map::empty()
    } else {
        files_map_of(l.drop_last()).insert(l.last().hash, l.last())
    }
}

/// The directory table a decoded entry list stands for.
pub open spec fn dirs_map_of(l: Seq<(u64, Seq<Seq<u8>>)>) -> Map<u64, Seq<Seq<u8>>>
    decreases l.len(),
{
    if l.len() == 0 {
        Map::empty()
    } else {
        dirs_map_of(l.drop_last()).insert(l.last().0, l.last().1)
    }
}

/// Everything in the file map came from the list, keyed by its own hash.
pub proof fn lemma_files_map_of_entries(l: Seq<HpakFileEntry>)
    ensures
        forall|h: u64|
            #[trigger] files_map_of(l).contains_key(h) ==> exists|i: int|
                0 <= i < l.len() && #[trigger] l[i] == files_map_of(l)[h] && l[i].hash == h,
    decreases l.len(),
{
    if l.len() > 0 {
        lemma_files_map_of_entries(l.drop_last());
        let prev = l.drop_last();
        assert forall|h: u64| #[trigger] files_map_of(l).contains_key(h) implies exists|i: int|
            0 <= i < l.len() && #[trigger] l[i] == files_map_of(l)[h] && l[i].hash == h by {
            if h == l.last().hash {
                assert(l[l.len() - 1] == files_map_of(l)[h]);
            } else {
                assert(files_map_of(prev).contains_key(h));
                let i = choose|i: int|
                    0 <= i < prev.len() && #[trigger] prev[i] == files_map_of(prev)[h]
                        && prev[i].hash == h;
                assert(l[i] == files_map_of(l)[h] && l[i].hash == h);
            }
        }
    }
}

/// With pairwise distinct hashes, the file map sends each entry's hash
/// to that entry.
pub proof fn lemma_files_map_of_distinct(l: Seq<HpakFileEntry>, i: int)
    requires
        forall|x: int, y: int|
            #![trigger l[x], l[y]]
            0 <= x < y < l.len() ==> l[x].hash != l[y].hash,
        0 <= i < l.len(),
    ensures
        files_map_of(l).contains_key(l[i].hash),
        files_map_of(l)[l[i].hash] == l[i],
    decreases l.len(),
{
    if i == l.len() - 1 {
    } else {
        let prev = l.drop_last();
        assert(prev[i] == l[i]);
        lemma_files_map_of_distinct(prev, i);
        assert(l[i].hash != l.last().hash);
    }
}

/// A hash is in the directory map exactly when some row carries it, and
/// it maps to the last such row's children.
pub proof fn lemma_dirs_map_of_entries(l: Seq<(u64, Seq<Seq<u8>>)>)
    ensures
        forall|h: u64|
            #[trigger] dirs_map_of(l).contains_key(h) ==> exists|j: int|
                0 <= j < l.len() && (#[trigger] l[j]).0 == h && l[j].1 == dirs_map_of(l)[h],
        forall|j: int| 0 <= j < l.len() ==> dirs_map_of(l).contains_key((#[trigger] l[j]).0),
    decreases l.len(),
{
    if l.len() > 0 {
        lemma_dirs_map_of_entries(l.drop_last());
        let prev = l.drop_last();
        assert forall|h: u64| #[trigger] dirs_map_of(l).contains_key(h) implies exists|j: int|
            0 <= j < l.len() && (#[trigger] l[j]).0 == h && l[j].1 == dirs_map_of(l)[h] by {
            if h == l.last().0 {
                assert((l[l.len() - 1]).0 == h && l[l.len() - 1].1 == dirs_map_of(l)[h]);
            } else {
                assert(dirs_map_of(prev).contains_key(h));
                let j = choose|j: int|
                    0 <= j < prev.len() && (#[trigger] prev[j]).0 == h && prev[j].1 == dirs_map_of(
                        prev,
                    )[h];
                assert((l[j]).0 == h && l[j].1 == dirs_map_of(l)[h]);
            }
        }
        assert forall|j: int| 0 <= j < l.len() implies dirs_map_of(l).contains_key(
            (#[trigger] l[j]).0,
        ) by {
            if j < l.len() - 1 {
                assert(prev[j] == l[j]);
                assert(dirs_map_of(prev).contains_key(l[j].0));
            }
        }
    }
}

/// With pairwise distinct hashes, the directory map sends each row's
/// hash to that row's children.
pub proof fn lemma_dirs_map_of_distinct(l: Seq<(u64, Seq<Seq<u8>>)>, j: int)
    requires
        forall|x: int, y: int|
            #![trigger l[x], l[y]]
            0 <= x < y < l.len() ==> l[x].0 != l[y].0,
        0 <= j < l.len(),
    ensures
        dirs_map_of(l).contains_key(l[j].0),
        dirs_map_of(l)[l[j].0] == l[j].1,
    decreases l.len(),
{
    if j == l.len() - 1 {
    } else {
        let prev = l.drop_last();
        assert(prev[j] == l[j]);
        lemma_dirs_map_of_distinct(prev, j);
        assert(l[j].0 != l.last().0);
    }
}

// ---------------------------------------------------------------------------
// The archive reader
// ---------------------------------------------------------------------------
/// Whether every file entry's byte ranges sit inside an archive of `n`
/// bytes.
pub open spec fn entries_bounded(l: Seq<HpakFileEntry>, n: int) -> bool {
    forall|i: int|
        0 <= i < l.len() ==> (#[trigger] l[i]).meta_offset + l[i].meta_size + l[i].data_size <= n
}

/// An open archive: its bytes, the archive-wide metadata compression
/// method, and the two hash-keyed lookup tables, decoded once at open.
pub struct HpakReader {
    bytes: Vec<u8>,
    meta_compression_method: CompressionMethod,
    files: HashMap<u64, HpakFileEntry>,
    directories: HashMap<u64, Vec<Vec<u8>>>,
}

/// The directory map's children as sequences.
pub open spec fn dir_map_view(m: Map<u64, Vec<Vec<u8>>>) -> Map<u64, Seq<Seq<u8>>> {
    m.map_values(|v: Vec<Vec<u8>>| v@.map_values(|x: Vec<u8>| x@))
}

impl HpakReader {
    /// The archive bytes.
    pub closed spec fn bytes_view(&self) -> Seq<u8> {
        self.bytes@
    }

    /// The method every metadata blob is compressed with.
    pub closed spec fn meta_view(&self) -> CompressionMethod {
        self.meta_compression_method
    }

    /// The file table: path hash to entry.
    pub closed spec fn files_view(&self) -> Map<u64, HpakFileEntry> {
        self.files@
    }

    /// The directory table: path hash to immediate children.
    pub closed spec fn dirs_view(&self) -> Map<u64, Seq<Seq<u8>>> {
        dir_map_view(self.directories@)
    }

    /// Every stored entry's ranges sit inside the archive bytes.
    pub closed spec fn wf(&self) -> bool {
        forall|h: u64|
            #[trigger] self.files@.contains_key(h) ==> self.files@[h].meta_offset
                + self.files@[h].meta_size + self.files@[h].data_size <= self.bytes@.len()
    }

    /// Open an archive held in memory: decode the header at byte 0, the
    /// entry tables at the recorded offset, and refuse entries whose
    /// ranges fall outside the bytes.
    pub fn new(bytes: Vec<u8>) -> (r: Result<HpakReader, Error>)
        ensures
            match r {
                Ok(rd) => {
                    &&& rd.wf()
                    &&& rd.bytes_view() == bytes@
                    &&& match parse_header(bytes@) {
                        Ok(h) => {
                            &&& rd.meta_view() == h.meta_compression_method
                            &&& match parse_entries(bytes@, h.entries_offset as int) {
                                Ok(t) => {
                                    &&& rd.files_view() == files_map_of(t.0.1)
                                    &&& rd.dirs_view() == dirs_map_of(t.0.0)
                                    &&& entries_bounded(t.0.1, bytes@.len() as int)
                                },
                                Err(_) => false,
                            }
                        },
                        Err(_) => false,
                    }
                },
                Err(e) => match parse_header(bytes@) {
                    Err(e2) => e == e2,
                    Ok(h) => match parse_entries(bytes@, h.entries_offset as int) {
                        Err(e2) => e == e2,
                        Ok(t) => !entries_bounded(t.0.1, bytes@.len() as int) && e
                            == Error::InvalidFileFormat,
                    },
                },
            },
    {
        let header = match decode_header(bytes.as_slice()) {
            Ok(h) => h,
            Err(e) => { return Err(e) },
        };
        if header.entries_offset > usize::MAX as u64 {
            // the offset cannot lie inside the bytes: the table parse
            // fails on the first count
            let bl0 = bytes.len();
            proof {
                assert(bytes@.len() == bl0 <= usize::MAX);
                assert(crate::codec::parse_u64(bytes@, header.entries_offset as int) is None);
                assert(parse_entries(bytes@, header.entries_offset as int) == Err::<
                    ((Seq<(u64, Seq<Seq<u8>>)>, Seq<HpakFileEntry>), int),
                    Error,
                >(Error::InvalidFileFormat));
            }
            return Err(Error::InvalidFileFormat);
        }
        let off = header.entries_offset as usize;
        let (dir_vec, file_vec, _end) = match decode_entries(bytes.as_slice(), off) {
            Ok(t) => t,
            Err(e) => { return Err(e) },
        };
        let ghost dirs_model = crate::format::dirs_view(dir_vec@);
        let ghost files_model = file_vec@;
        // refuse entries whose ranges fall outside the archive
        let blen = bytes.len();
        let mut i: usize = 0;
        while i < file_vec.len()
            invariant
                0 <= i <= file_vec@.len(),
                blen == bytes@.len(),
                parse_header(bytes@) == Ok::<crate::format::HpakHeader, Error>(header),
                parse_entries(bytes@, header.entries_offset as int) matches Ok(t) && t.0.1
                    == file_vec@,
                forall|k: int|
                    0 <= k < i ==> (#[trigger] file_vec@[k]).meta_offset + file_vec@[k].meta_size
                        + file_vec@[k].data_size <= blen,
            decreases file_vec@.len() - i,
        {
            let e = &file_vec[i];
            if (e.meta_offset as u128) + (e.meta_size as u128) + (e.data_size as u128) > (blen
                as u128) {
                proof {
                    assert(!entries_bounded(file_vec@, bytes@.len() as int)) by {
                        assert(file_vec@[i as int].meta_offset + file_vec@[i as int].meta_size
                            + file_vec@[i as int].data_size > bytes@.len());
                    }
                }
                return Err(Error::InvalidFileFormat);
            }
            i = i + 1;
        }
        // build the two lookup tables
        let mut files: HashMap<u64, HpakFileEntry> = HashMap::new();
        let mut j: usize = 0;
        while j < file_vec.len()
            invariant
                0 <= j <= file_vec@.len(),
                files@ == files_map_of(file_vec@.take(j as int)),
            decreases file_vec@.len() - j,
        {
            let e = file_vec[j];
            let ghost pre = files@;
            files.insert(e.hash, e);
            proof {
                assert(file_vec@.take(j + 1).drop_last() =~= file_vec@.take(j as int));
                assert(file_vec@.take(j + 1).last() == file_vec@[j as int]);
            }
            j = j + 1;
        }
        proof {
            assert(file_vec@.take(file_vec@.len() as int) =~= file_vec@);
        }
        let mut directories: HashMap<u64, Vec<Vec<u8>>> = HashMap::new();
        let mut k: usize = 0;
        while k < dir_vec.len()
            invariant
                0 <= k <= dir_vec@.len(),
                dirs_model == crate::format::dirs_view(dir_vec@),
                dir_map_view(directories@) == dirs_map_of(dirs_model.take(k as int)),
            decreases dir_vec@.len() - k,
        {
            let ghost pre = dir_map_view(directories@);
            let d = &dir_vec[k];
            let children = clone_path_list(&d.entries);
            let ghost cv = children@.map_values(|x: Vec<u8>| x@);
            directories.insert(d.hash, children);
            proof {
                assert(dirs_model.take(k + 1).drop_last() =~= dirs_model.take(k as int));
                assert(dirs_model.take(k + 1).last() == dirs_model[k as int]);
                assert(dirs_model[k as int].0 == dir_vec@[k as int].hash);
                assert(dirs_model[k as int].1 == dir_vec@[k as int].children_view());
                assert(cv == dir_vec@[k as int].children_view());
                assert(dir_map_view(directories@) =~~= pre.insert(dir_vec@[k as int].hash, cv));
            }
            k = k + 1;
        }
        proof {
            assert(dirs_model.take(dirs_model.len() as int) =~= dirs_model);
        }
        let rd = HpakReader {
            bytes,
            meta_compression_method: header.meta_compression_method,
            files,
            directories,
        };
        proof {
            lemma_files_map_of_entries(files_model);
        }
        Ok(rd)
    }

    /// The method all metadata blobs use.
    pub fn meta_compression(&self) -> (r: CompressionMethod)
        ensures
            r == self.meta_view(),
    {
        self.meta_compression_method
    }

    /// The file entry stored under a path's hash, if any.
    fn get_entry(&self, path: &[u8]) -> (r: Result<HpakFileEntry, Error>)
        ensures
            ({
                let h = path_hash_of(normalize(path@));
                match r {
                    Ok(e) => self.files_view().contains_key(h) && e == self.files_view()[h],
                    Err(er) => !self.files_view().contains_key(h) && (er
                        matches Error::EntryNotFound(pp) && pp@ == normalize(path@)),
                }
            }),
    {
        let h = hash_path(path);
        match self.files.get(&h) {
            Some(e) => Ok(*e),
            None => Err(Error::EntryNotFound(crate::paths::normalize_path(path))),
        }
    }

    /// A decompressing reader over the entry's data blob.
    pub fn read_data(&self, path: &[u8]) -> (r: Result<HpakEntryReader, Error>)
        requires
            self.wf(),
        ensures
            ({
                let h = path_hash_of(normalize(path@));
                match r {
                    Ok(er) => self.files_view().contains_key(h) && ({
                        let e = self.files_view()[h];
                        let raw = self.bytes_view().subrange(
                            e.meta_offset + e.meta_size,
                            e.meta_offset + e.meta_size + e.data_size,
                        );
                        &&& er.wf()
                        &&& er.method_view() == e.compression_method
                        &&& er.pos_view() == 0
                        &&& forall|p: Seq<u8>|
                            raw == #[trigger] spec_compress(e.compression_method, p)
                                ==> er.content_view() == p
                    }),
                    Err(er) => {
                        &&& (!self.files_view().contains_key(h) ==> (er
                            matches Error::EntryNotFound(pp) && pp@ == normalize(path@)))
                        &&& (self.files_view().contains_key(h) ==> er
                            == Error::InvalidFileFormat && ({
                            let e = self.files_view()[h];
                            let raw = self.bytes_view().subrange(
                                e.meta_offset + e.meta_size,
                                e.meta_offset + e.meta_size + e.data_size,
                            );
                            forall|p: Seq<u8>|
                                raw != #[trigger] spec_compress(e.compression_method, p)
                        }))
                    },
                }
            }),
    {
        let e = match self.get_entry(path) {
            Ok(e) => e,
            Err(er) => { return Err(er) },
        };
        let bl = self.bytes.len();
        proof {
            let h = path_hash_of(normalize(path@));
            assert(self.files@.contains_key(h));
            assert(e.meta_offset + e.meta_size + e.data_size <= bl);
        }
        let start = (e.meta_offset + e.meta_size) as usize;
        let end = (e.meta_offset + e.meta_size + e.data_size) as usize;
        let raw = vstd::slice::slice_to_vec(vstd::slice::slice_subrange(
            self.bytes.as_slice(),
            start,
            end,
        ));
        HpakEntryReader::new(raw, e.compression_method)
    }

    /// A decompressing reader over the entry's metadata blob.
    pub fn read_meta(&self, path: &[u8]) -> (r: Result<HpakEntryReader, Error>)
        requires
            self.wf(),
        ensures
            ({
                let h = path_hash_of(normalize(path@));
                match r {
                    Ok(er) => self.files_view().contains_key(h) && ({
                        let e = self.files_view()[h];
                        let raw = self.bytes_view().subrange(
                            e.meta_offset as int,
                            e.meta_offset + e.meta_size,
                        );
                        &&& er.wf()
                        &&& er.method_view() == self.meta_view()
                        &&& er.pos_view() == 0
                        &&& forall|p: Seq<u8>|
                            raw == #[trigger] spec_compress(self.meta_view(), p)
                                ==> er.content_view() == p
                    }),
                    Err(er) => {
                        &&& (!self.files_view().contains_key(h) ==> (er
                            matches Error::EntryNotFound(pp) && pp@ == normalize(path@)))
                        &&& (self.files_view().contains_key(h) ==> er
                            == Error::InvalidFileFormat && ({
                            let e = self.files_view()[h];
                            let raw = self.bytes_view().subrange(
                                e.meta_offset as int,
                                e.meta_offset + e.meta_size,
                            );
                            forall|p: Seq<u8>|
                                raw != #[trigger] spec_compress(self.meta_view(), p)
                        }))
                    },
                }
            }),
    {
        let e = match self.get_entry(path) {
            Ok(e) => e,
            Err(er) => { return Err(er) },
        };
        let bl = self.bytes.len();
        proof {
            let h = path_hash_of(normalize(path@));
            assert(self.files@.contains_key(h));
            assert(e.meta_offset + e.meta_size + e.data_size <= bl);
        }
        let start = e.meta_offset as usize;
        let end = (e.meta_offset + e.meta_size) as usize;
        let raw = vstd::slice::slice_to_vec(vstd::slice::slice_subrange(
            self.bytes.as_slice(),
            start,
            end,
        ));
        HpakEntryReader::new(raw, self.meta_compression_method)
    }

    /// The immediate children of a directory, as a finite listing.
    pub fn read_directory(&self, path: &[u8]) -> (r: Result<DirStream, Error>)
        ensures
            ({
                let h = path_hash_of(normalize(path@));
                match r {
                    Ok(st) => self.dirs_view().contains_key(h) && st.remaining()
                        == self.dirs_view()[h],
                    Err(er) => !self.dirs_view().contains_key(h) && (er
                        matches Error::EntryNotFound(pp) && pp@ == normalize(path@)),
                }
            }),
    {
        let h = hash_path(path);
        match self.directories.get(&h) {
            Some(children) => {
                let listing = clone_path_list(children);
                proof {
                    assert(dir_map_view(self.directories@).contains_key(h));
                    assert(dir_map_view(self.directories@)[h] == self.directories@[h]@.map_values(
                        |x: Vec<u8>| x@,
                    ));
                }
                Ok(DirStream::new(listing))
            },
            None => {
                proof {
                    if dir_map_view(self.directories@).contains_key(h) {
                        assert(self.directories@.contains_key(h));
                    }
                }
                Err(Error::EntryNotFound(crate::paths::normalize_path(path)))
            },
        }
    }

    /// Whether a path names a stored directory.
    pub fn is_directory(&self, path: &[u8]) -> (r: bool)
        ensures
            r == self.dirs_view().contains_key(path_hash_of(normalize(path@))),
    {
        let h = hash_path(path);
        let r = self.directories.contains_key(&h);
        proof {
            if self.directories@.contains_key(h) {
                assert(dir_map_view(self.directories@).contains_key(h));
            }
            if dir_map_view(self.directories@).contains_key(h) {
                assert(self.directories@.contains_key(h));
            }
        }
        r
    }
}

/// Copy a list of byte strings.
fn clone_path_list(v: &Vec<Vec<u8>>) -> (r: Vec<Vec<u8>>)
    ensures
        r@.map_values(|x: Vec<u8>| x@) == v@.map_values(|x: Vec<u8>| x@),
        r@.len() == v@.len(),
{
    let mut out: Vec<Vec<u8>> = Vec::new();
    let mut i: usize = 0;
    while i < v.len()
        invariant
            0 <= i <= v@.len(),
            out@.len() == i,
            forall|k: int| 0 <= k < i ==> #[trigger] out@[k]@ == v@[k]@,
        decreases v@.len() - i,
    {
        let ghost old_outv = out@.map_values(|x: Vec<u8>| x@);
        out.push(vstd::slice::slice_to_vec(v[i].as_slice()));
        proof {
            assert(out@.map_values(|x: Vec<u8>| x@) =~= old_outv.push(v@[i as int]@));
        }
        i = i + 1;
    }
    proof {
        assert(out@.map_values(|x: Vec<u8>| x@) =~= v@.map_values(|x: Vec<u8>| x@));
    }
    out
}

// ---------------------------------------------------------------------------
// What a finished archive gives back through the reader
// ---------------------------------------------------------------------------
/// For every queued entry of a finished archive, when the queued paths'
/// hashes are pairwise distinct: looking the path's hash up in the
/// parsed file table finds exactly that entry, and the archive bytes at
/// its recorded ranges hold exactly the compressed metadata and data it
/// was queued with — so a decompressing reader over either range yields
/// the queued bytes, whatever the compression method.
pub proof fn lemma_archive_read_back(
    bytes: Seq<u8>,
    meta_m: CompressionMethod,
    entries: Seq<HpakFileEntry>,
    srcs: Seq<EntrySrc>,
    ps: Seq<Seq<u8>>,
    dirs: Seq<(u64, Seq<Seq<u8>>)>,
    dpaths: Seq<Seq<u8>>,
    i: int,
)
    requires
        archive_ok(bytes, meta_m, entries, srcs, ps, dirs, dpaths),
        forall|x: int, y: int|
            #![trigger ps[x], ps[y]]
            0 <= x < y < ps.len() ==> path_hash_of(ps[x]) != path_hash_of(ps[y]),
        0 <= i < ps.len(),
    ensures
        ({
            let h = path_hash_of(ps[i]);
            let e = entries[i];
            let fm = files_map_of(entries);
            &&& fm.contains_key(h)
            &&& fm[h] == e
            &&& e.meta_offset + e.meta_size + e.data_size <= bytes.len()
            &&& bytes.subrange(e.meta_offset as int, e.meta_offset + e.meta_size)
                == spec_compress(meta_m, srcs[i].meta)
            &&& bytes.subrange(
                e.meta_offset + e.meta_size,
                e.meta_offset + e.meta_size + e.data_size,
            ) == spec_compress(e.compression_method, srcs[i].data)
        }),
{
    assert forall|x: int, y: int|
        #![trigger entries[x], entries[y]]
        0 <= x < y < entries.len() implies entries[x].hash != entries[y].hash by {
        assert(entry_ok(bytes, meta_m, entries[x], srcs[x], ps[x]));
        assert(entry_ok(bytes, meta_m, entries[y], srcs[y], ps[y]));
    }
    lemma_files_map_of_distinct(entries, i);
    assert(entry_ok(bytes, meta_m, entries[i], srcs[i], ps[i]));
    assert(entries[i].hash == path_hash_of(ps[i]));
}

/// A path names a directory of a finished archive exactly when it
/// strictly contains some queued path — when its hash collides with no
/// other stored directory's hash.
pub proof fn lemma_is_directory_exact(
    bytes: Seq<u8>,
    meta_m: CompressionMethod,
    entries: Seq<HpakFileEntry>,
    srcs: Seq<EntrySrc>,
    ps: Seq<Seq<u8>>,
    dirs: Seq<(u64, Seq<Seq<u8>>)>,
    dpaths: Seq<Seq<u8>>,
    d: Seq<u8>,
)
    requires
        archive_ok(bytes, meta_m, entries, srcs, ps, dirs, dpaths),
        forall|j: int|
            0 <= j < dpaths.len() && #[trigger] dpaths[j] != d ==> path_hash_of(dpaths[j])
                != path_hash_of(d),
    ensures
        dirs_map_of(dirs).contains_key(path_hash_of(d)) <==> exists|i: int|
            0 <= i < ps.len() && is_strict_ancestor(d, #[trigger] ps[i]),
{
    let dm = dirs_map_of(dirs);
    let kdv = dirs_children(dirs);
    lemma_dirs_map_of_entries(dirs);
    if dm.contains_key(path_hash_of(d)) {
        let j = choose|j: int|
            0 <= j < dirs.len() && (#[trigger] dirs[j]).0 == path_hash_of(d) && dirs[j].1 == dm[
                path_hash_of(d)
            ];
        assert(dirs[j].0 == path_hash_of(dpaths[j]));
        assert(dpaths[j] == d);
        assert(dir_covers(dpaths, ps, j));
        let i = choose|i: int| 0 <= i < ps.len() && is_strict_ancestor(dpaths[j], #[trigger] ps[i]);
        assert(0 <= i < ps.len() && is_strict_ancestor(d, ps[i]));
    }
    if exists|i: int| 0 <= i < ps.len() && is_strict_ancestor(d, #[trigger] ps[i]) {
        let i = choose|i: int| 0 <= i < ps.len() && is_strict_ancestor(d, #[trigger] ps[i]);
        assert(entry_ok(bytes, meta_m, entries[i], srcs[i], ps[i]));
        lemma_dirs_cover(dpaths, kdv, ps, d, i);
        let j = choose|j: int| 0 <= j < dpaths.len() && #[trigger] dpaths[j] == d;
        assert(dirs[j].0 == path_hash_of(d));
        assert(dm.contains_key(dirs[j].0));
    }
}

/// A stored directory's listing holds exactly its immediate children —
/// every chain node of a queued path whose parent it is — with no
/// duplicates, however many deeper descendants exist.
pub proof fn lemma_read_directory_exact(
    bytes: Seq<u8>,
    meta_m: CompressionMethod,
    entries: Seq<HpakFileEntry>,
    srcs: Seq<EntrySrc>,
    ps: Seq<Seq<u8>>,
    dirs: Seq<(u64, Seq<Seq<u8>>)>,
    dpaths: Seq<Seq<u8>>,
    j: int,
)
    requires
        archive_ok(bytes, meta_m, entries, srcs, ps, dirs, dpaths),
        forall|x: int, y: int|
            #![trigger dpaths[x], dpaths[y]]
            0 <= x < y < dpaths.len() ==> path_hash_of(dpaths[x]) != path_hash_of(dpaths[y]),
        0 <= j < dpaths.len(),
    ensures
        ({
            let d = dpaths[j];
            let dm = dirs_map_of(dirs);
            &&& dm.contains_key(path_hash_of(d))
            &&& dm[path_hash_of(d)] == dirs[j].1
            &&& forall|c: Seq<u8>|
                #[trigger] dirs[j].1.contains(c) <==> (parent_of(c) == d && exists|i: int|
                    0 <= i < ps.len() && in_chain(c, #[trigger] ps[i]))
            &&& forall|x: int, y: int|
                #![trigger dirs[j].1[x], dirs[j].1[y]]
                0 <= x < y < dirs[j].1.len() ==> dirs[j].1[x] != dirs[j].1[y]
        }),
{
    let d = dpaths[j];
    let kdv = dirs_children(dirs);
    assert forall|x: int, y: int|
        #![trigger dirs[x], dirs[y]]
        0 <= x < y < dirs.len() implies dirs[x].0 != dirs[y].0 by {
        assert(dirs[x].0 == path_hash_of(dpaths[x]));
        assert(dirs[y].0 == path_hash_of(dpaths[y]));
    }
    lemma_dirs_map_of_distinct(dirs, j);
    assert(dirs[j].0 == path_hash_of(d));
    assert(kdv[j] == dirs[j].1);
    assert forall|c: Seq<u8>| #[trigger] dirs[j].1.contains(c) <==> (parent_of(c) == d && exists|
        i: int,
    | 0 <= i < ps.len() && in_chain(c, #[trigger] ps[i])) by {
        if dirs[j].1.contains(c) {
            assert(table_has(dpaths, kdv, d, c));
        }
        if parent_of(c) == d && exists|i: int| 0 <= i < ps.len() && in_chain(c, #[trigger] ps[i]) {
            assert(table_has(dpaths, kdv, d, c));
            let w = choose|w: int|
                0 <= w < dpaths.len() && dpaths[w] == d && #[trigger] kdv[w].contains(c);
            if w != j {
                assert(path_hash_of(dpaths[w]) == path_hash_of(dpaths[j]));
                assert(false);
            }
            assert(kdv[j].contains(c));
        }
    }
    assert forall|x: int, y: int|
        #![trigger dirs[j].1[x], dirs[j].1[y]]
        0 <= x < y < dirs[j].1.len() implies dirs[j].1[x] != dirs[j].1[y] by {
        assert(kdv[j][x] == dirs[j].1[x]);
        assert(kdv[j][y] == dirs[j].1[y]);
    }
}

} // verus!
