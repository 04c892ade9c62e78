//! The streaming archive writer.
//!
//! Entries are appended one at a time: the metadata blob is optionally
//! minified, both blobs are compressed, padding brings each entry to the
//! configured alignment, and exact byte offsets are recorded.  Finalizing
//! builds the directory table from the stored paths, encodes both entry
//! tables, and emits the header with the true entries-table offset; since
//! the archive is assembled in memory, the header is written once all
//! offsets are known instead of being patched afterwards.

use crate::codec::bytes_eq;
use crate::compress::compress;
use crate::compress::spec_compress;
use crate::compress::CompressionMethod;
use crate::errors::Error;
use crate::format::check_utf8;
use crate::format::dirs_view;
use crate::format::enc_entries;
use crate::format::enc_header;
use crate::format::encode_entries;
use crate::format::lemma_parse_entries_enc;
use crate::format::lemma_parse_header_enc;
use crate::format::parse_entries;
use crate::format::parse_header;
use crate::format::wf_dir_model;
use crate::format::HpakDirectoryEntry;
use crate::format::HpakHeader;
use crate::format::HpakFileEntry;
use crate::format::HEADER_SIZE;
use crate::minify::minify;
use crate::minify::minify_bytes;
use crate::paths::ext_of;
use crate::paths::extension_of;
use crate::paths::hash_path;
use crate::paths::is_normalized;
use crate::paths::is_strict_ancestor;
use crate::paths::lemma_parent_chain;
use crate::paths::lemma_parent_utf8;
use crate::paths::lemma_strict_ancestor_trans;
use crate::paths::parent_of;
use crate::paths::parent_path;
use crate::paths::lemma_normalize_identity;
use crate::paths::normalize;
use crate::paths::normalize_path;
use crate::paths::path_hash_of;
use vstd::prelude::*;
use vstd::slice::slice_to_vec;
use vstd::utf8::valid_utf8;

verus! {

/// What one queued entry was made from: its normalized path, the
/// processed (possibly minified) metadata, the raw data, and the chosen
/// data compression method.
pub ghost struct EntrySrc {
    pub path: Seq<u8>,
    pub meta: Seq<u8>,
    pub data: Seq<u8>,
    pub method: CompressionMethod,
}

/// The first method registered for an extension, if any.
pub open spec fn spec_lookup_ext(t: Seq<(Seq<u8>, CompressionMethod)>, e: Seq<u8>) -> Option<
    CompressionMethod,
>
    decreases t.len(),
{
    if t.len() == 0 {
        None
    } else if t[0].0 == e {
        Some(t[0].1)
    } else {
        spec_lookup_ext(t.skip(1), e)
    }
}

/// The method an entry's data is compressed with: the explicit override,
/// else the method registered for the path's extension, else the default.
pub open spec fn chosen_method(
    t: Seq<(Seq<u8>, CompressionMethod)>,
    dflt: CompressionMethod,
    p: Seq<u8>,
    m: Option<CompressionMethod>,
) -> CompressionMethod {
    match m {
        Some(mm) => mm,
        None => match spec_lookup_ext(t, ext_of(p)) {
            Some(mm) => mm,
            None => dflt,
        },
    }
}

/// The metadata blob an entry stores: minified when the writer says so.
pub open spec fn processed_meta(minify_it: bool, meta: Seq<u8>) -> Seq<u8> {
    if minify_it {
        minify(meta)
    } else {
        meta
    }
}

/// The zero padding that brings offset `cur` to the next `align` boundary.
pub open spec fn pad_of(align: u64, cur: int) -> int {
    if align == 0 {
        0
    } else {
        ((align as int) - (cur % (align as int))) % (align as int)
    }
}

/// Whether one more entry of these compressed blob sizes keeps every
/// archive offset within 64 bits and its padding addressable.
pub open spec fn add_fits(align: u64, body_len: int, meta_len: int, data_len: int) -> bool {
    let cur = HEADER_SIZE + body_len;
    let pad = pad_of(align, cur);
    &&& pad <= usize::MAX
    &&& cur + pad + meta_len + data_len <= u64::MAX
}

/// Padding to the next boundary really lands on a multiple of it.
proof fn lemma_pad_aligns(align: int, cur: int)
    requires
        align > 0,
        cur >= 0,
    ensures
        (cur + (align - cur % align) % align) % align == 0,
{
    let r = cur % align;
    assert(0 <= r < align);
    assert((cur + (align - r) % align) % align == 0) by (nonlinear_arith)
        requires
            align > 0,
            cur >= 0,
            r == cur % align,
            0 <= r < align,
    ;
}

/// Writer for creating archives in memory.
pub struct HpakWriter {
    /// Entry blobs and padding; archive offset = `HEADER_SIZE` + body index.
    body: Vec<u8>,
    /// Compression method for every metadata blob.
    meta_compression: CompressionMethod,
    /// Method for file data when neither an override nor an extension rule applies.
    default_data_compression: CompressionMethod,
    /// Per-extension data compression rules.
    ext_compression: Vec<(Vec<u8>, CompressionMethod)>,
    /// Normalized archive paths, in insertion order.
    paths: Vec<Vec<u8>>,
    /// The recorded entry for each path, parallel to `paths`.
    entries: Vec<HpakFileEntry>,
    /// Power-of-two entry alignment; 0 means none.
    alignment: u64,
    /// Whether metadata is minified before compression.
    minify_metadata: bool,
    finalized: bool,
    /// What each entry was made from.
    sources: Ghost<Seq<EntrySrc>>,
}

impl HpakWriter {
    pub closed spec fn paths_view(&self) -> Seq<Seq<u8>> {
        self.paths@.map_values(|v: Vec<u8>| v@)
    }

    pub closed spec fn entries_view(&self) -> Seq<HpakFileEntry> {
        self.entries@
    }

    pub closed spec fn sources_view(&self) -> Seq<EntrySrc> {
        self.sources@
    }

    pub closed spec fn meta_method(&self) -> CompressionMethod {
        self.meta_compression
    }

    pub closed spec fn data_method(&self) -> CompressionMethod {
        self.default_data_compression
    }

    pub closed spec fn ext_table(&self) -> Seq<(Seq<u8>, CompressionMethod)> {
        self.ext_compression@.map_values(|pr: (Vec<u8>, CompressionMethod)| (pr.0@, pr.1))
    }

    pub closed spec fn align_view(&self) -> u64 {
        self.alignment
    }

    pub closed spec fn minify_view(&self) -> bool {
        self.minify_metadata
    }

    pub closed spec fn is_finalized(&self) -> bool {
        self.finalized
    }

    pub closed spec fn body_view(&self) -> Seq<u8> {
        self.body@
    }

    /// The invariant of entry `i`: its path is normalized, hashed and
    /// unique; its byte ranges sit inside the body and hold exactly the
    /// compressed metadata and data it was made from.
    pub closed spec fn wf_entry(&self, i: int) -> bool {
        let p = self.paths@[i]@;
        let e = self.entries@[i];
        let src = self.sources@[i];
        &&& p == src.path
        &&& is_normalized(p)
        &&& valid_utf8(p)
        &&& p.len() <= u64::MAX
        &&& e.hash == path_hash_of(p)
        &&& e.compression_method == src.method
        &&& HEADER_SIZE <= e.meta_offset
        &&& e.meta_offset + e.meta_size + e.data_size <= HEADER_SIZE + self.body@.len()
        &&& self.body@.subrange(
            e.meta_offset - HEADER_SIZE,
            e.meta_offset + e.meta_size - HEADER_SIZE,
        ) == spec_compress(self.meta_compression, src.meta)
        &&& self.body@.subrange(
            e.meta_offset + e.meta_size - HEADER_SIZE,
            e.meta_offset + e.meta_size + e.data_size - HEADER_SIZE,
        ) == spec_compress(e.compression_method, src.data)
    }

    /// The writer's invariant.
    pub closed spec fn wf(&self) -> bool {
        let n = self.paths@.len();
        &&& self.entries@.len() == n
        &&& self.sources@.len() == n
        &&& HEADER_SIZE + self.body@.len() <= u64::MAX
        &&& forall|i: int| 0 <= i < n ==> self.wf_entry(i)
        &&& forall|i: int, j: int|
            #![trigger self.paths@[i], self.paths@[j]]
            0 <= i < j < n ==> self.paths@[i]@ != self.paths@[j]@
    }

    /// A fresh writer: no compression, 4096-byte alignment, metadata
    /// minified.
    pub fn new() -> (r: Self)
        ensures
            r.wf(),
            !r.is_finalized(),
            r.paths_view().len() == 0,
            r.sources_view().len() == 0,
            r.entries_view().len() == 0,
            r.meta_method() == CompressionMethod::Stored,
            r.data_method() == CompressionMethod::Stored,
            r.ext_table().len() == 0,
            r.align_view() == 4096,
            r.minify_view(),
    {
        let r = HpakWriter {
            body: Vec::new(),
            meta_compression: CompressionMethod::Stored,
            default_data_compression: CompressionMethod::Stored,
            ext_compression: Vec::new(),
            paths: Vec::new(),
            entries: Vec::new(),
            alignment: 4096,
            minify_metadata: true,
            finalized: false,
            sources: Ghost(Seq::empty()),
        };
        proof {
            assert(r.paths_view() =~= Seq::<Seq<u8>>::empty());
            assert(r.ext_table() =~= Seq::<(Seq<u8>, CompressionMethod)>::empty());
        }
        r
    }

    /// Set the compression method used for metadata blobs.
    ///
    /// Metadata is compressed as entries are added, and the archive
    /// header records one method for all of it, so this must be chosen
    /// before the first entry.
    pub fn meta_compression(&mut self, method: CompressionMethod)
        requires
            old(self).wf(),
            old(self).sources_view().len() == 0,
        ensures
            final(self).wf(),
            final(self).meta_method() == method,
            final(self).sources_view().len() == 0,
            final(self).paths_view().len() == 0,
            final(self).entries_view().len() == 0,
            final(self).data_method() == old(self).data_method(),
            final(self).ext_table() == old(self).ext_table(),
            final(self).align_view() == old(self).align_view(),
            final(self).minify_view() == old(self).minify_view(),
            final(self).is_finalized() == old(self).is_finalized(),
    {
        self.meta_compression = method;
    }

    /// Set the default compression method for file data.
    pub fn default_data_compression(&mut self, method: CompressionMethod)
        requires
            old(self).wf(),
        ensures
            final(self).wf(),
            final(self).data_method() == method,
            final(self).meta_method() == old(self).meta_method(),
            final(self).ext_table() == old(self).ext_table(),
            final(self).align_view() == old(self).align_view(),
            final(self).minify_view() == old(self).minify_view(),
            final(self).is_finalized() == old(self).is_finalized(),
            final(self).paths_view() == old(self).paths_view(),
            final(self).entries_view() == old(self).entries_view(),
            final(self).sources_view() == old(self).sources_view(),
    {
        self.default_data_compression = method;
        proof {
            assert forall|i: int| 0 <= i < self.paths@.len() implies self.wf_entry(i) by {
                assert(old(self).wf_entry(i));
            }
        }
    }

    /// Control whether metadata is minified before compression.
    pub fn minify_metadata(&mut self, minify_it: bool)
        requires
            old(self).wf(),
        ensures
            final(self).wf(),
            final(self).minify_view() == minify_it,
            final(self).meta_method() == old(self).meta_method(),
            final(self).data_method() == old(self).data_method(),
            final(self).ext_table() == old(self).ext_table(),
            final(self).align_view() == old(self).align_view(),
            final(self).is_finalized() == old(self).is_finalized(),
            final(self).paths_view() == old(self).paths_view(),
            final(self).entries_view() == old(self).entries_view(),
            final(self).sources_view() == old(self).sources_view(),
    {
        self.minify_metadata = minify_it;
        proof {
            assert forall|i: int| 0 <= i < self.paths@.len() implies self.wf_entry(i) by {
                assert(old(self).wf_entry(i));
            }
        }
    }

    /// Set the entry alignment: zero disables padding, a power of two
    /// pads each entry to start on that boundary, anything else is
    /// rejected as `InvalidAlignment`.
    pub fn with_alignment(&mut self, alignment: u64) -> (r: Result<(), Error>)
        requires
            old(self).wf(),
        ensures
            final(self).wf(),
            final(self).meta_method() == old(self).meta_method(),
            final(self).data_method() == old(self).data_method(),
            final(self).ext_table() == old(self).ext_table(),
            final(self).minify_view() == old(self).minify_view(),
            final(self).is_finalized() == old(self).is_finalized(),
            final(self).paths_view() == old(self).paths_view(),
            final(self).entries_view() == old(self).entries_view(),
            final(self).sources_view() == old(self).sources_view(),
            match r {
                Ok(_) => final(self).align_view() == alignment && (alignment == 0 || is_pow2(
                    alignment,
                )),
                Err(e) => {
                    &&& e == Error::InvalidAlignment(alignment)
                    &&& !is_pow2(alignment)
                    &&& alignment != 0
                    &&& final(self).align_view() == old(self).align_view()
                },
            },
    {
        if alignment == 0 {
            self.alignment = 0;
            proof {
                assert forall|i: int| 0 <= i < self.paths@.len() implies self.wf_entry(i) by {
                    assert(old(self).wf_entry(i));
                }
            }
            return Ok(());
        }
        if is_power_of_two(alignment) {
            self.alignment = alignment;
            proof {
                assert forall|i: int| 0 <= i < self.paths@.len() implies self.wf_entry(i) by {
                    assert(old(self).wf_entry(i));
                }
            }
            Ok(())
        } else {
            Err(Error::InvalidAlignment(alignment))
        }
    }

    /// Register a data compression method for one file extension,
    /// replacing any earlier rule for it.
    pub fn default_compression_for_extension(&mut self, extension: &[u8], method: CompressionMethod)
        requires
            old(self).wf(),
        ensures
            final(self).wf(),
            spec_lookup_ext(final(self).ext_table(), extension@) == Some(method),
            forall|e: Seq<u8>|
                e != extension@ ==> #[trigger] spec_lookup_ext(final(self).ext_table(), e)
                    == spec_lookup_ext(old(self).ext_table(), e),
            final(self).meta_method() == old(self).meta_method(),
            final(self).data_method() == old(self).data_method(),
            final(self).align_view() == old(self).align_view(),
            final(self).minify_view() == old(self).minify_view(),
            final(self).is_finalized() == old(self).is_finalized(),
            final(self).paths_view() == old(self).paths_view(),
            final(self).entries_view() == old(self).entries_view(),
            final(self).sources_view() == old(self).sources_view(),
    {
        let mut i: usize = 0;
        while i < self.ext_compression.len()
            invariant
                0 <= i <= self.ext_compression@.len(),
                *self == *old(self),
                old(self).wf(),
                forall|k: int| 0 <= k < i ==> self.ext_compression@[k].0@ != extension@,
            decreases self.ext_compression@.len() - i,
        {
            if bytes_eq(self.ext_compression[i].0.as_slice(), extension) {
                let ghost pre = self.ext_table();
                let key = slice_to_vec(extension);
                self.ext_compression.set(i, (key, method));
                proof {
                    assert(pre[i as int].0 == extension@);
                    assert(self.ext_table()[i as int] == (extension@, method));
                    assert(forall|k: int|
                        0 <= k < pre.len() && k != i ==> self.ext_table()[k] == pre[k]);
                    lemma_lookup_ext_set(pre, self.ext_table(), i as int, extension@, method);
                    assert forall|q: int| 0 <= q < self.paths@.len() implies self.wf_entry(q) by {
                        assert(old(self).wf_entry(q));
                    }
                }
                return ;
            }
            i = i + 1;
        }
        let ghost pre = self.ext_table();
        let key = slice_to_vec(extension);
        self.ext_compression.push((key, method));
        proof {
            assert(self.ext_table() =~= pre.push((extension@, method)));
            lemma_lookup_ext_push(pre, extension@, method);
            assert forall|q: int| 0 <= q < self.paths@.len() implies self.wf_entry(q) by {
                assert(old(self).wf_entry(q));
            }
        }
    }

    /// The data compression method an entry at this path would get
    /// without an explicit override.
    pub fn compression_for_path(&self, path: &[u8]) -> (r: CompressionMethod)
        requires
            self.wf(),
        ensures
            r == chosen_method(
                self.ext_table(),
                self.data_method(),
                normalize(path@),
                None::<CompressionMethod>,
            ),
    {
        let norm = normalize_path(path);
        let ext = extension_of(norm.as_slice());
        match self.lookup_ext(ext.as_slice()) {
            Some(m) => m,
            None => self.default_data_compression,
        }
    }

    /// Look an extension up in the rule table.
    fn lookup_ext(&self, ext: &[u8]) -> (r: Option<CompressionMethod>)
        ensures
            r == spec_lookup_ext(self.ext_table(), ext@),
    {
        let mut i: usize = 0;
        proof {
            assert(self.ext_table().skip(0) =~= self.ext_table());
        }
        while i < self.ext_compression.len()
            invariant
                0 <= i <= self.ext_compression@.len(),
                self.ext_table().len() == self.ext_compression@.len(),
                spec_lookup_ext(self.ext_table(), ext@) == spec_lookup_ext(
                    self.ext_table().skip(i as int),
                    ext@,
                ),
            decreases self.ext_compression@.len() - i,
        {
            proof {
                let t = self.ext_table().skip(i as int);
                assert(t[0] == self.ext_table()[i as int]);
                assert(t.skip(1) =~= self.ext_table().skip(i as int + 1));
            }
            if bytes_eq(self.ext_compression[i].0.as_slice(), ext) {
                return Some(self.ext_compression[i].1);
            }
            i = i + 1;
        }
        None
    }
}

/// `spec_lookup_ext` of one other key after replacing a binding.
proof fn lemma_lookup_ext_set_one(
    pre: Seq<(Seq<u8>, CompressionMethod)>,
    post: Seq<(Seq<u8>, CompressionMethod)>,
    i: int,
    key: Seq<u8>,
    m: CompressionMethod,
    e: Seq<u8>,
)
    requires
        0 <= i < pre.len(),
        pre[i].0 == key,
        post.len() == pre.len(),
        post[i] == (key, m),
        forall|k: int| 0 <= k < pre.len() && k != i ==> post[k] == pre[k],
        e != key,
    ensures
        spec_lookup_ext(post, e) == spec_lookup_ext(pre, e),
    decreases pre.len(),
{
    assert(post[0].0 == pre[0].0);
    if pre[0].0 == e {
    } else {
        assert(post.skip(1).len() == pre.skip(1).len());
        assert(forall|k: int| 0 <= k < pre.skip(1).len() ==> pre.skip(1)[k] == pre[k + 1]);
        assert(forall|k: int| 0 <= k < post.skip(1).len() ==> post.skip(1)[k] == post[k + 1]);
        if i == 0 {
            assert(post.skip(1) =~= pre.skip(1));
        } else {
            lemma_lookup_ext_set_one(pre.skip(1), post.skip(1), i - 1, key, m, e);
        }
    }
}

/// `spec_lookup_ext` after replacing the first binding of a key.
proof fn lemma_lookup_ext_set(
    pre: Seq<(Seq<u8>, CompressionMethod)>,
    post: Seq<(Seq<u8>, CompressionMethod)>,
    i: int,
    key: Seq<u8>,
    m: CompressionMethod,
)
    requires
        0 <= i < pre.len(),
        pre[i].0 == key,
        post.len() == pre.len(),
        post[i] == (key, m),
        forall|k: int| 0 <= k < pre.len() && k != i ==> post[k] == pre[k],
        forall|k: int| 0 <= k < i ==> pre[k].0 != key,
    ensures
        spec_lookup_ext(post, key) == Some(m),
        forall|e: Seq<u8>|
            e != key ==> #[trigger] spec_lookup_ext(post, e) == spec_lookup_ext(pre, e),
    decreases i,
{
    if i == 0 {
        assert(spec_lookup_ext(post, key) == Some(m));
    } else {
        assert(pre.skip(1)[i - 1].0 == key);
        assert(post.skip(1)[i - 1] == (key, m));
        assert(forall|k: int| 0 <= k < pre.skip(1).len() ==> pre.skip(1)[k] == pre[k + 1]);
        assert(forall|k: int| 0 <= k < post.skip(1).len() ==> post.skip(1)[k] == post[k + 1]);
        lemma_lookup_ext_set(pre.skip(1), post.skip(1), i - 1, key, m);
        assert(post[0] == pre[0]);
        assert(pre[0].0 != key);
    }
    assert forall|e: Seq<u8>| e != key implies #[trigger] spec_lookup_ext(post, e)
        == spec_lookup_ext(pre, e) by {
        lemma_lookup_ext_set_one(pre, post, i, key, m, e);
    }
}

/// `spec_lookup_ext` of one key after appending a fresh binding.
proof fn lemma_lookup_ext_push_one(
    pre: Seq<(Seq<u8>, CompressionMethod)>,
    key: Seq<u8>,
    m: CompressionMethod,
    e: Seq<u8>,
)
    requires
        e != key,
    ensures
        spec_lookup_ext(pre.push((key, m)), e) == spec_lookup_ext(pre, e),
    decreases pre.len(),
{
    let post = pre.push((key, m));
    if pre.len() == 0 {
        assert(post[0] == (key, m));
        assert(post.skip(1) =~= Seq::<(Seq<u8>, CompressionMethod)>::empty());
    } else {
        assert(post[0] == pre[0]);
        if pre[0].0 == e {
        } else {
            assert(post.skip(1) =~= pre.skip(1).push((key, m)));
            lemma_lookup_ext_push_one(pre.skip(1), key, m, e);
        }
    }
}

/// `spec_lookup_ext` after appending a fresh key.
proof fn lemma_lookup_ext_push(
    pre: Seq<(Seq<u8>, CompressionMethod)>,
    key: Seq<u8>,
    m: CompressionMethod,
)
    requires
        forall|k: int| 0 <= k < pre.len() ==> pre[k].0 != key,
    ensures
        spec_lookup_ext(pre.push((key, m)), key) == Some(m),
        forall|e: Seq<u8>|
            e != key ==> #[trigger] spec_lookup_ext(pre.push((key, m)), e) == spec_lookup_ext(
                pre,
                e,
            ),
    decreases pre.len(),
{
    let post = pre.push((key, m));
    if pre.len() == 0 {
        assert(post[0] == (key, m));
    } else {
        assert(post[0] == pre[0]);
        assert(pre[0].0 != key);
        assert(post.skip(1) =~= pre.skip(1).push((key, m)));
        assert(forall|k: int| 0 <= k < pre.skip(1).len() ==> pre.skip(1)[k] == pre[k + 1]);
        lemma_lookup_ext_push(pre.skip(1), key, m);
    }
    assert forall|e: Seq<u8>| e != key implies #[trigger] spec_lookup_ext(post, e)
        == spec_lookup_ext(pre, e) by {
        lemma_lookup_ext_push_one(pre, key, m, e);
    }
}

/// Whether a value is a power of two.
pub open spec fn is_pow2(v: u64) -> bool
    decreases v,
{
    if v == 0 {
        false
    } else if v == 1 {
        true
    } else {
        v % 2 == 0 && is_pow2(v / 2)
    }
}

/// Exec power-of-two test, proved to agree with `is_pow2`.
fn is_power_of_two(v: u64) -> (r: bool)
    ensures
        r == is_pow2(v),
{
    if v == 0 {
        return false;
    }
    let mut x = v;
    while x > 1
        invariant
            x >= 1,
            is_pow2(v) == is_pow2(x),
        decreases x,
    {
        if x % 2 != 0 {
            return false;
        }
        x = x / 2;
    }
    true
}

impl HpakWriter {
    /// Append one entry: the metadata is optionally minified, both blobs
    /// are compressed, padding brings the entry to the configured
    /// alignment, and its exact offsets are recorded.  Duplicate archive
    /// paths are rejected, as is any entry after finalization.
    #[verifier::rlimit(100)]
    pub fn add_entry(
        &mut self,
        path: &[u8],
        meta: &[u8],
        data: &[u8],
        method: Option<CompressionMethod>,
    ) -> (r: Result<(), Error>)
        requires
            old(self).wf(),
        ensures
            final(self).wf(),
            final(self).meta_method() == old(self).meta_method(),
            final(self).data_method() == old(self).data_method(),
            final(self).ext_table() == old(self).ext_table(),
            final(self).align_view() == old(self).align_view(),
            final(self).minify_view() == old(self).minify_view(),
            final(self).is_finalized() == old(self).is_finalized(),
            match r {
                Ok(_) => ({
                    let chosen = chosen_method(
                        old(self).ext_table(),
                        old(self).data_method(),
                        normalize(path@),
                        method,
                    );
                    let mblob = spec_compress(
                        old(self).meta_method(),
                        processed_meta(old(self).minify_view(), meta@),
                    );
                    let dblob = spec_compress(chosen, data@);
                    let cur = HEADER_SIZE + old(self).body_view().len();
                    let pad = pad_of(old(self).align_view(), cur);
                    let e = final(self).entries_view().last();
                    &&& !old(self).is_finalized()
                    &&& valid_utf8(normalize(path@))
                    &&& !old(self).paths_view().contains(normalize(path@))
                    &&& final(self).paths_view() == old(self).paths_view().push(normalize(path@))
                    &&& final(self).sources_view() == old(self).sources_view().push(
                        EntrySrc {
                            path: normalize(path@),
                            meta: processed_meta(old(self).minify_view(), meta@),
                            data: data@,
                            method: chosen,
                        },
                    )
                    &&& final(self).entries_view() == old(self).entries_view().push(e)
                    &&& e.hash == path_hash_of(normalize(path@))
                    &&& e.compression_method == chosen
                    &&& add_fits(
                        old(self).align_view(),
                        old(self).body_view().len() as int,
                        mblob.len() as int,
                        dblob.len() as int,
                    )
                    &&& e.meta_offset == cur + pad
                    &&& e.meta_size == mblob.len()
                    &&& e.data_size == dblob.len()
                    &&& final(self).body_view() == old(self).body_view() + Seq::new(
                        pad as nat,
                        |q: int| 0u8,
                    ) + mblob + dblob
                    &&& (old(self).align_view() != 0 ==> e.meta_offset as int % (
                    old(self).align_view() as int) == 0)
                }),
                Err(e) => {
                    &&& *final(self) == *old(self)
                    &&& (old(self).is_finalized() <==> e == Error::CannotAddEntryAfterFinalize)
                    &&& (!old(self).is_finalized() && !valid_utf8(normalize(path@)) ==> e
                        == Error::InvalidUtf8)
                    &&& (!old(self).is_finalized() && valid_utf8(normalize(path@)) && old(
                        self,
                    ).paths_view().contains(normalize(path@)) ==> (e matches Error::DuplicateEntry(d)
                        && d@ == normalize(path@)))
                    &&& (!old(self).is_finalized() && valid_utf8(normalize(path@)) && !old(
                        self,
                    ).paths_view().contains(normalize(path@)) ==> e == Error::ArchiveTooLarge
                        && !add_fits(
                        old(self).align_view(),
                        old(self).body_view().len() as int,
                        spec_compress(
                            old(self).meta_method(),
                            processed_meta(old(self).minify_view(), meta@),
                        ).len() as int,
                        spec_compress(
                            chosen_method(
                                old(self).ext_table(),
                                old(self).data_method(),
                                normalize(path@),
                                method,
                            ),
                            data@,
                        ).len() as int,
                    ))
                },
            },
    {
        if self.finalized {
            return Err(Error::CannotAddEntryAfterFinalize);
        }
        let norm = normalize_path(path);
        if !check_utf8(norm.as_slice()) {
            return Err(Error::InvalidUtf8);
        }
        // duplicate archive paths are rejected
        let mut i: usize = 0;
        while i < self.paths.len()
            invariant
                0 <= i <= self.paths@.len(),
                *self == *old(self),
                old(self).wf(),
                !old(self).is_finalized(),
                norm@ == normalize(path@),
                valid_utf8(norm@),
                forall|k: int| 0 <= k < i ==> self.paths@[k]@ != norm@,
            decreases self.paths@.len() - i,
        {
            if bytes_eq(self.paths[i].as_slice(), norm.as_slice()) {
                proof {
                    assert(self.paths_view()[i as int] == norm@);
                    assert(self.paths_view().contains(norm@));
                }
                return Err(Error::DuplicateEntry(norm));
            }
            i = i + 1;
        }
        proof {
            if old(self).paths_view().contains(norm@) {
                let k = choose|k: int|
                    0 <= k < old(self).paths_view().len() && old(self).paths_view()[k] == norm@;
                assert(old(self).paths@[k]@ == norm@);
                assert(false);
            }
        }
        // choose the data compression method
        let m = match method {
            Some(mm) => mm,
            None => {
                let ext = extension_of(norm.as_slice());
                match self.lookup_ext(ext.as_slice()) {
                    Some(mm) => mm,
                    None => self.default_data_compression,
                }
            },
        };
        // build both blobs
        let processed: Vec<u8> = if self.minify_metadata {
            minify_bytes(meta)
        } else {
            slice_to_vec(meta)
        };
        let meta_c = compress(self.meta_compression, processed.as_slice());
        let data_c = compress(m, data);
        // machine limit: every offset must fit in 64 bits
        let blen = self.body.len();
        let cur: u64 = HEADER_SIZE + blen as u64;
        let pad: u64 = if self.alignment == 0 {
            0
        } else {
            (self.alignment - cur % self.alignment) % self.alignment
        };
        proof {
            assert(pad as int == pad_of(self.alignment, cur as int));
        }
        if pad > usize::MAX as u64 {
            return Err(Error::ArchiveTooLarge);
        }
        let ml = meta_c.len();
        let dl = data_c.len();
        if (cur as u128) + (pad as u128) + (ml as u128) + (dl as u128) > u64::MAX as u128 {
            return Err(Error::ArchiveTooLarge);
        }
        // commit
        let ghost old_body = self.body@;
        let padding: Vec<u8> = vec![0u8; pad as usize];
        self.body.extend_from_slice(padding.as_slice());
        let meta_offset: u64 = cur + pad;
        self.body.extend_from_slice(meta_c.as_slice());
        self.body.extend_from_slice(data_c.as_slice());
        let h = hash_path(norm.as_slice());
        proof {
            lemma_normalize_identity(norm@);
        }
        let entry = HpakFileEntry {
            hash: h,
            compression_method: m,
            meta_offset,
            meta_size: ml as u64,
            data_size: dl as u64,
        };
        let ghost src = EntrySrc { path: norm@, meta: processed@, data: data@, method: m };
        let norm_len = norm.len();
        let ghost old_paths_view = self.paths_view();
        let ghost n = old(self).paths@.len() as int;
        self.paths.push(norm);
        self.entries.push(entry);
        self.sources = Ghost(self.sources@.push(src));
        proof {
            assert(self.paths_view() =~= old_paths_view.push(norm@));
            assert(self.body@ =~= old_body + padding@ + meta_c@ + data_c@);
            assert forall|q: int| 0 <= q < n implies self.wf_entry(q) by {
                assert(old(self).wf_entry(q));
                let e = self.entries@[q];
                assert(self.paths@[q] == old(self).paths@[q]);
                assert(self.body@.subrange(
                    e.meta_offset - HEADER_SIZE,
                    e.meta_offset + e.meta_size - HEADER_SIZE,
                ) =~= old_body.subrange(
                    e.meta_offset - HEADER_SIZE,
                    e.meta_offset + e.meta_size - HEADER_SIZE,
                ));
                assert(self.body@.subrange(
                    e.meta_offset + e.meta_size - HEADER_SIZE,
                    e.meta_offset + e.meta_size + e.data_size - HEADER_SIZE,
                ) =~= old_body.subrange(
                    e.meta_offset + e.meta_size - HEADER_SIZE,
                    e.meta_offset + e.meta_size + e.data_size - HEADER_SIZE,
                ));
            }
            assert(self.wf_entry(n)) by {
                assert(self.paths@[n]@ == norm@);
                assert(norm@.len() == norm_len <= usize::MAX);
                assert(self.entries@[n] == entry);
                assert(self.sources@[n] == src);
                assert(old_body.len() == blen);
                assert(padding@.len() == pad);
                assert(meta_c@.len() == ml);
                assert(data_c@.len() == dl);
                assert(self.body@.len() == blen + pad + ml + dl);
                assert forall|k: int|
                    0 <= k < ml implies self.body@[blen + pad + k] == meta_c@[k] by {
                    assert(self.body@[blen + pad + k] == (old_body + padding@ + meta_c@
                        + data_c@)[blen + pad + k]);
                }
                assert(self.body@.subrange(
                    meta_offset - HEADER_SIZE,
                    meta_offset + ml - HEADER_SIZE,
                ) =~= meta_c@);
                assert forall|k: int|
                    0 <= k < dl implies self.body@[blen + pad + ml + k] == data_c@[k] by {
                    assert(self.body@[blen + pad + ml + k] == (old_body + padding@ + meta_c@
                        + data_c@)[blen + pad + ml + k]);
                }
                assert(self.body@.subrange(
                    meta_offset + ml - HEADER_SIZE,
                    meta_offset + ml + dl - HEADER_SIZE,
                ) =~= data_c@);
            }
            assert forall|a: int, b: int|
                #![trigger self.paths@[a], self.paths@[b]]
                0 <= a < b < n + 1 implies self.paths@[a]@ != self.paths@[b]@ by {
                if b < n {
                    assert(old(self).paths@[a]@ != old(self).paths@[b]@);
                } else {
                    assert(self.paths@[a]@ != norm@);
                }
            }
            assert(self.entries@ =~= old(self).entries@.push(entry));
            assert(self.sources@ =~= old(self).sources@.push(src));
            assert(padding@ =~= Seq::new(pad as nat, |q: int| 0u8));
            assert(self.body@ =~= old_body + Seq::new(pad as nat, |q: int| 0u8) + meta_c@
                + data_c@);
            if self.alignment != 0 {
                lemma_pad_aligns(self.alignment as int, cur as int);
                assert(meta_offset as int % (self.alignment as int) == 0);
            }
        }
        Ok(())
    }
}

/// `c` is a node of `p`'s chain: the path itself or one of its proper
/// ancestors, the root excluded.
pub open spec fn in_chain(c: Seq<u8>, p: Seq<u8>) -> bool {
    c.len() > 0 && (c == p || is_strict_ancestor(c, p))
}

/// The view of a list of byte strings.
pub open spec fn paths_seq_view(v: Seq<Vec<u8>>) -> Seq<Seq<u8>> {
    v.map_values(|x: Vec<u8>| x@)
}

/// The view of a list of child lists.
pub open spec fn kids_seq_view(v: Seq<Vec<Vec<u8>>>) -> Seq<Seq<Seq<u8>>> {
    v.map_values(|x: Vec<Vec<u8>>| x@.map_values(|y: Vec<u8>| y@))
}

/// The pair (directory `a`, child `c`) stands in the table.
pub open spec fn table_has(
    dp: Seq<Seq<u8>>,
    kd: Seq<Seq<Seq<u8>>>,
    a: Seq<u8>,
    c: Seq<u8>,
) -> bool {
    exists|j: int| 0 <= j < dp.len() && dp[j] == a && #[trigger] kd[j].contains(c)
}

/// Two nodes of one path's chain are equal or one is an ancestor of the
/// other.
pub proof fn lemma_chain_trichotomy(c: Seq<u8>, d: Seq<u8>, p: Seq<u8>)
    requires
        c == p || is_strict_ancestor(c, p),
        d == p || is_strict_ancestor(d, p),
    ensures
        c == d || is_strict_ancestor(c, d) || is_strict_ancestor(d, c),
{
    assert forall|k: int| 0 <= k < c.len() implies c[k] == p[k] by {
        if c != p {
            assert(p.subrange(0, c.len() as int)[k] == p[k]);
        }
    }
    assert forall|k: int| 0 <= k < d.len() implies d[k] == p[k] by {
        if d != p {
            assert(p.subrange(0, d.len() as int)[k] == p[k]);
        }
    }
    if c.len() == d.len() {
        assert(c =~= d);
    } else if c.len() < d.len() {
        assert(d.subrange(0, c.len() as int) =~= c);
        assert(c != p);
        if c.len() > 0 {
            assert(d[c.len() as int] == p[c.len() as int]);
        }
        assert(is_strict_ancestor(c, d));
    } else {
        assert(c.subrange(0, d.len() as int) =~= d);
        assert(d != p);
        if d.len() > 0 {
            assert(c[d.len() as int] == p[d.len() as int]);
        }
        assert(is_strict_ancestor(d, c));
    }
}

/// Every strict ancestor of a normalized path is the parent of one of
/// the path's chain nodes.
pub proof fn lemma_ancestor_has_chain_child(d: Seq<u8>, p: Seq<u8>)
    requires
        is_normalized(p),
        is_strict_ancestor(d, p),
    ensures
        exists|c: Seq<u8>| in_chain(c, p) && parent_of(c) == d,
    decreases p.len(),
{
    lemma_parent_chain(d, p);
    if d == parent_of(p) {
        assert(in_chain(p, p) && parent_of(p) == d);
    } else {
        let q = parent_of(p);
        lemma_ancestor_has_chain_child(d, q);
        let c = choose|c: Seq<u8>| in_chain(c, q) && parent_of(c) == d;
        if c == q {
        } else {
            lemma_strict_ancestor_trans(c, q, p);
        }
        assert(in_chain(c, p) && parent_of(c) == d);
    }
}

/// The chain of a path: itself and every proper ancestor but the root,
/// longest first; every member is valid UTF-8, since each is a prefix
/// of the path cut at a separator.
fn chain_of(p: &[u8]) -> (ch: Vec<Vec<u8>>)
    requires
        is_normalized(p@),
        valid_utf8(p@),
        p@.len() <= u64::MAX,
    ensures
        ({
            let cv = paths_seq_view(ch@);
            &&& forall|c: Seq<u8>| #[trigger] cv.contains(c) <==> in_chain(c, p@)
            &&& forall|x: int, y: int|
                #![trigger cv[x], cv[y]]
                0 <= x < y < cv.len() ==> cv[x] != cv[y]
            &&& forall|k: int|
                0 <= k < cv.len() ==> is_normalized(#[trigger] cv[k]) && valid_utf8(cv[k])
                    && cv[k].len() <= u64::MAX && cv[k].len() > 0
        }),
{
    let mut out: Vec<Vec<u8>> = Vec::new();
    let mut prev: Vec<u8> = slice_to_vec(p);
    proof {
        assert(paths_seq_view(out@) =~= Seq::<Seq<u8>>::empty());
    }
    while prev.len() > 0
        invariant
            prev@ == p@ || is_strict_ancestor(prev@, p@),
            is_normalized(prev@),
            valid_utf8(prev@),
            prev@.len() <= p@.len(),
            p@.len() <= u64::MAX,
            is_normalized(p@),
            forall|c: Seq<u8>|
                #[trigger] paths_seq_view(out@).contains(c) <==> (in_chain(c, p@)
                    && is_strict_ancestor(prev@, c)),
            forall|k: int| 0 <= k < out@.len() ==> #[trigger] paths_seq_view(out@)[k].len()
                > prev@.len(),
            forall|x: int, y: int|
                #![trigger paths_seq_view(out@)[x], paths_seq_view(out@)[y]]
                0 <= x < y < out@.len() ==> paths_seq_view(out@)[x] != paths_seq_view(out@)[y],
            forall|k: int|
                0 <= k < out@.len() ==> is_normalized(#[trigger] paths_seq_view(out@)[k])
                    && valid_utf8(paths_seq_view(out@)[k]) && paths_seq_view(out@)[k].len()
                    <= u64::MAX && paths_seq_view(out@)[k].len() > 0,
        decreases prev@.len(),
    {
        let ghost old_outv = paths_seq_view(out@);
        let ghost prev_v = prev@;
        let cur = slice_to_vec(prev.as_slice());
        let anc = parent_path(prev.as_slice());
        out.push(cur);
        proof {
            lemma_parent_utf8(prev_v);
            lemma_parent_chain(anc@, prev_v);
            assert(anc@ == parent_of(prev_v));
            assert(is_strict_ancestor(anc@, prev_v));
            assert(is_normalized(anc@));
            if prev_v != p@ {
                lemma_strict_ancestor_trans(anc@, prev_v, p@);
            }
            assert(paths_seq_view(out@) =~= old_outv.push(prev_v));
            assert forall|c: Seq<u8>| #[trigger] paths_seq_view(out@).contains(c) <==> (in_chain(
                c,
                p@,
            ) && is_strict_ancestor(anc@, c)) by {
                if paths_seq_view(out@).contains(c) {
                    let k = choose|k: int|
                        0 <= k < paths_seq_view(out@).len() && paths_seq_view(out@)[k] == c;
                    if k < old_outv.len() {
                        assert(old_outv[k] == c);
                        assert(old_outv.contains(c));
                        assert(is_strict_ancestor(prev_v, c));
                        lemma_strict_ancestor_trans(anc@, prev_v, c);
                    } else {
                        assert(c == prev_v);
                    }
                }
                if in_chain(c, p@) && is_strict_ancestor(anc@, c) {
                    lemma_chain_trichotomy(c, prev_v, p@);
                    if c == prev_v {
                        assert(paths_seq_view(out@)[old_outv.len() as int] == c);
                        assert(paths_seq_view(out@).contains(c));
                    } else if is_strict_ancestor(prev_v, c) {
                        assert(old_outv.contains(c));
                        let k = choose|k: int| 0 <= k < old_outv.len() && old_outv[k] == c;
                        assert(paths_seq_view(out@)[k] == c);
                        assert(paths_seq_view(out@).contains(c));
                    } else {
                        // c above prev: then c is the parent or above it,
                        // contradicting that the parent is above c
                        lemma_parent_chain(c, prev_v);
                        assert(c == anc@ || is_strict_ancestor(c, anc@));
                        assert(false);
                    }
                }
            }
        }
        prev = anc;
    }
    proof {
        assert forall|c: Seq<u8>| #[trigger] paths_seq_view(out@).contains(c) <==> in_chain(
            c,
            p@,
        ) by {
            if in_chain(c, p@) {
                assert(c.subrange(0, 0) =~= prev@);
                assert(is_strict_ancestor(prev@, c));
            }
        }
    }
    out
}

/// Whether a byte string stands in a list.
fn contains_path(v: &Vec<Vec<u8>>, x: &[u8]) -> (r: bool)
    ensures
        r == paths_seq_view(v@).contains(x@),
{
    let mut i: usize = 0;
    while i < v.len()
        invariant
            0 <= i <= v@.len(),
            forall|k: int| 0 <= k < i ==> #[trigger] paths_seq_view(v@)[k] != x@,
        decreases v@.len() - i,
    {
        if bytes_eq(v[i].as_slice(), x) {
            proof {
                assert(paths_seq_view(v@)[i as int] == x@);
            }
            return true;
        }
        i = i + 1;
    }
    proof {
        if paths_seq_view(v@).contains(x@) {
            let k = choose|k: int|
                0 <= k < paths_seq_view(v@).len() && paths_seq_view(v@)[k] == x@;
            assert(false);
        }
    }
    false
}

/// Copy a list of byte strings.
fn clone_paths(v: &Vec<Vec<u8>>) -> (r: Vec<Vec<u8>>)
    ensures
        paths_seq_view(r@) == paths_seq_view(v@),
        r@.len() == v@.len(),
{
    let mut out: Vec<Vec<u8>> = Vec::new();
    let mut i: usize = 0;
    while i < v.len()
        invariant
            0 <= i <= v@.len(),
            out@.len() == i,
            forall|k: int| 0 <= k < i ==> #[trigger] paths_seq_view(out@)[k] == paths_seq_view(
                v@,
            )[k],
        decreases v@.len() - i,
    {
        let ghost old_outv = paths_seq_view(out@);
        out.push(slice_to_vec(v[i].as_slice()));
        proof {
            assert(paths_seq_view(out@) =~= old_outv.push(v@[i as int]@));
            assert(paths_seq_view(out@)[i as int] == paths_seq_view(v@)[i as int]);
        }
        i = i + 1;
    }
    proof {
        assert(paths_seq_view(out@) =~= paths_seq_view(v@));
    }
    out
}

/// Row `j`'s directory strictly contains some stored path.
pub open spec fn dir_covers(dpv: Seq<Seq<u8>>, psv: Seq<Seq<u8>>, j: int) -> bool {
    exists|i: int| 0 <= i < psv.len() && is_strict_ancestor(dpv[j], #[trigger] psv[i])
}

/// What the directory table of a path list guarantees: one row per
/// directory, distinct directory paths, and a pair (directory, child) in
/// the table exactly when the child is a chain node of a stored path and
/// the directory is its parent; no row repeats a child.
pub open spec fn dir_props(dpv: Seq<Seq<u8>>, kdv: Seq<Seq<Seq<u8>>>, psv: Seq<Seq<u8>>) -> bool {
    &&& kdv.len() == dpv.len()
    &&& forall|x: int, y: int|
        #![trigger dpv[x], dpv[y]]
        0 <= x < y < dpv.len() ==> dpv[x] != dpv[y]
    &&& forall|j: int|
        0 <= j < dpv.len() ==> is_normalized(#[trigger] dpv[j]) && valid_utf8(dpv[j])
            && dpv[j].len() <= u64::MAX
    &&& forall|j: int, x: int, y: int|
        #![trigger kdv[j][x], kdv[j][y]]
        0 <= j < kdv.len() && 0 <= x < y < kdv[j].len() ==> kdv[j][x] != kdv[j][y]
    &&& forall|j: int, x: int|
        #![trigger kdv[j][x]]
        0 <= j < kdv.len() && 0 <= x < kdv[j].len() ==> valid_utf8(kdv[j][x]) && kdv[j][x].len()
            <= u64::MAX
    &&& forall|j: int| 0 <= j < kdv.len() ==> #[trigger] kdv[j].len() >= 1
    &&& forall|a: Seq<u8>, c: Seq<u8>|
        #[trigger] table_has(dpv, kdv, a, c) <==> ((exists|i: int|
            0 <= i < psv.len() && in_chain(c, #[trigger] psv[i])) && a == parent_of(c))
    &&& forall|j: int| 0 <= j < dpv.len() ==> #[trigger] dir_covers(dpv, psv, j)
}

/// Every directory that strictly contains a stored path has a row.
pub proof fn lemma_dirs_cover(
    dpv: Seq<Seq<u8>>,
    kdv: Seq<Seq<Seq<u8>>>,
    psv: Seq<Seq<u8>>,
    d: Seq<u8>,
    i: int,
)
    requires
        dir_props(dpv, kdv, psv),
        0 <= i < psv.len(),
        is_normalized(psv[i]),
        is_strict_ancestor(d, psv[i]),
    ensures
        exists|j: int| 0 <= j < dpv.len() && #[trigger] dpv[j] == d,
{
    lemma_ancestor_has_chain_child(d, psv[i]);
    let c = choose|c: Seq<u8>| in_chain(c, psv[i]) && parent_of(c) == d;
    assert(table_has(dpv, kdv, d, c));
    let j = choose|j: int| 0 <= j < dpv.len() && dpv[j] == d && #[trigger] kdv[j].contains(c);
    assert(dpv[j] == d);
}

/// Build the directory table of the stored paths: every ancestor
/// directory of every path, each listing its immediate children once.
fn build_directories(paths: &Vec<Vec<u8>>) -> (r: (Vec<Vec<u8>>, Vec<Vec<Vec<u8>>>))
    requires
        forall|i: int|
            0 <= i < paths@.len() ==> is_normalized(#[trigger] paths@[i]@) && valid_utf8(
                paths@[i]@,
            ) && paths@[i]@.len() <= u64::MAX,
    ensures
        dir_props(paths_seq_view(r.0@), kids_seq_view(r.1@), paths_seq_view(paths@)),
{
    let ghost psv = paths_seq_view(paths@);
    // every chain node of every stored path, deduplicated
    let mut nodes: Vec<Vec<u8>> = Vec::new();
    let mut i: usize = 0;
    proof {
        assert(paths_seq_view(nodes@) =~= Seq::<Seq<u8>>::empty());
    }
    while i < paths.len()
        invariant
            0 <= i <= paths@.len(),
            psv == paths_seq_view(paths@),
            forall|q: int|
                0 <= q < paths@.len() ==> is_normalized(#[trigger] paths@[q]@) && valid_utf8(
                    paths@[q]@,
                ) && paths@[q]@.len() <= u64::MAX,
            forall|c: Seq<u8>|
                #[trigger] paths_seq_view(nodes@).contains(c) <==> exists|q: int|
                    0 <= q < i && in_chain(c, #[trigger] psv[q]),
            forall|x: int, y: int|
                #![trigger paths_seq_view(nodes@)[x], paths_seq_view(nodes@)[y]]
                0 <= x < y < nodes@.len() ==> paths_seq_view(nodes@)[x] != paths_seq_view(
                    nodes@,
                )[y],
            forall|k: int|
                0 <= k < nodes@.len() ==> is_normalized(#[trigger] paths_seq_view(nodes@)[k])
                    && valid_utf8(paths_seq_view(nodes@)[k]) && paths_seq_view(nodes@)[k].len()
                    <= u64::MAX && paths_seq_view(nodes@)[k].len() > 0,
        decreases paths@.len() - i,
    {
        let ch = chain_of(paths[i].as_slice());
        let ghost cv = paths_seq_view(ch@);
        let mut k: usize = 0;
        while k < ch.len()
            invariant
                0 <= k <= ch@.len(),
                0 <= i < paths@.len(),
                psv == paths_seq_view(paths@),
                cv == paths_seq_view(ch@),
                forall|c: Seq<u8>| #[trigger] cv.contains(c) <==> in_chain(c, psv[i as int]),
                forall|q: int|
                    0 <= q < cv.len() ==> is_normalized(#[trigger] cv[q]) && valid_utf8(cv[q])
                        && cv[q].len() <= u64::MAX && cv[q].len() > 0,
                forall|c: Seq<u8>|
                    #[trigger] paths_seq_view(nodes@).contains(c) <==> ((exists|q: int|
                        0 <= q < i && in_chain(c, #[trigger] psv[q])) || (exists|x: int|
                        0 <= x < k && #[trigger] cv[x] == c)),
                forall|x: int, y: int|
                    #![trigger paths_seq_view(nodes@)[x], paths_seq_view(nodes@)[y]]
                    0 <= x < y < nodes@.len() ==> paths_seq_view(nodes@)[x] != paths_seq_view(
                        nodes@,
                    )[y],
                forall|q: int|
                    0 <= q < nodes@.len() ==> is_normalized(#[trigger] paths_seq_view(nodes@)[q])
                        && valid_utf8(paths_seq_view(nodes@)[q]) && paths_seq_view(
                        nodes@,
                    )[q].len() <= u64::MAX && paths_seq_view(nodes@)[q].len() > 0,
            decreases ch@.len() - k,
        {
            let ghost old_nv = paths_seq_view(nodes@);
            if !contains_path(&nodes, ch[k].as_slice()) {
                nodes.push(slice_to_vec(ch[k].as_slice()));
                proof {
                    assert(paths_seq_view(nodes@) =~= old_nv.push(cv[k as int]));
                    assert(cv.contains(cv[k as int]));
                    assert forall|c: Seq<u8>| #[trigger]
                        paths_seq_view(nodes@).contains(c) <==> ((exists|q: int|
                        0 <= q < i && in_chain(c, #[trigger] psv[q])) || (exists|x: int|
                        0 <= x < k + 1 && #[trigger] cv[x] == c)) by {
                        if paths_seq_view(nodes@).contains(c) {
                            let w = choose|w: int|
                                0 <= w < paths_seq_view(nodes@).len() && paths_seq_view(
                                    nodes@,
                                )[w] == c;
                            if w < old_nv.len() {
                                assert(old_nv[w] == c);
                                assert(old_nv.contains(c));
                            } else {
                                assert(c == cv[k as int]);
                            }
                        }
                        if exists|x: int| 0 <= x < k + 1 && #[trigger] cv[x] == c {
                            let x = choose|x: int| 0 <= x < k + 1 && #[trigger] cv[x] == c;
                            if x < k {
                                assert(old_nv.contains(c));
                                let w = choose|w: int|
                                    0 <= w < old_nv.len() && old_nv[w] == c;
                                assert(paths_seq_view(nodes@)[w] == c);
                                assert(paths_seq_view(nodes@).contains(c));
                            } else {
                                assert(paths_seq_view(nodes@)[old_nv.len() as int] == c);
                                assert(paths_seq_view(nodes@).contains(c));
                            }
                        }
                        if exists|q: int| 0 <= q < i && in_chain(c, #[trigger] psv[q]) {
                            assert(old_nv.contains(c));
                            let w = choose|w: int| 0 <= w < old_nv.len() && old_nv[w] == c;
                            assert(paths_seq_view(nodes@)[w] == c);
                            assert(paths_seq_view(nodes@).contains(c));
                        }
                    }
                }
            } else {
                proof {
                    assert forall|c: Seq<u8>| #[trigger]
                        paths_seq_view(nodes@).contains(c) <==> ((exists|q: int|
                        0 <= q < i && in_chain(c, #[trigger] psv[q])) || (exists|x: int|
                        0 <= x < k + 1 && #[trigger] cv[x] == c)) by {
                        if exists|x: int| 0 <= x < k + 1 && #[trigger] cv[x] == c {
                            let x = choose|x: int| 0 <= x < k + 1 && #[trigger] cv[x] == c;
                            if x == k {
                                assert(paths_seq_view(nodes@).contains(cv[k as int]));
                            }
                        }
                    }
                }
            }
            k = k + 1;
        }
        proof {
            assert forall|c: Seq<u8>| #[trigger]
                paths_seq_view(nodes@).contains(c) <==> exists|q: int|
                0 <= q < i + 1 && in_chain(c, #[trigger] psv[q]) by {
                if paths_seq_view(nodes@).contains(c) {
                    if exists|x: int| 0 <= x < cv.len() && #[trigger] cv[x] == c {
                        let x = choose|x: int| 0 <= x < cv.len() && #[trigger] cv[x] == c;
                        assert(cv.contains(c));
                        assert(in_chain(c, psv[i as int]));
                    }
                }
                if exists|q: int| 0 <= q < i + 1 && in_chain(c, #[trigger] psv[q]) {
                    let q = choose|q: int| 0 <= q < i + 1 && in_chain(c, #[trigger] psv[q]);
                    if q == i {
                        assert(cv.contains(c));
                        let x = choose|x: int| 0 <= x < cv.len() && cv[x] == c;
                        assert(0 <= x < cv.len() && cv[x] == c);
                    }
                }
            }
        }
        i = i + 1;
    }
    // group each node under its parent directory
    let ghost nv = paths_seq_view(nodes@);
    let mut dp: Vec<Vec<u8>> = Vec::new();
    let mut kd: Vec<Vec<Vec<u8>>> = Vec::new();
    let mut t: usize = 0;
    proof {
        assert(paths_seq_view(dp@) =~= Seq::<Seq<u8>>::empty());
        assert(kids_seq_view(kd@) =~= Seq::<Seq<Seq<u8>>>::empty());
        assert forall|a: Seq<u8>, c: Seq<u8>| !(#[trigger] table_has(
            paths_seq_view(dp@),
            kids_seq_view(kd@),
            a,
            c,
        )) by {}
    }
    while t < nodes.len()
        invariant
            0 <= t <= nodes@.len(),
            nv == paths_seq_view(nodes@),
            psv == paths_seq_view(paths@),
            forall|c: Seq<u8>|
                #[trigger] nv.contains(c) <==> exists|q: int|
                    0 <= q < psv.len() && in_chain(c, #[trigger] psv[q]),
            forall|x: int, y: int|
                #![trigger nv[x], nv[y]]
                0 <= x < y < nv.len() ==> nv[x] != nv[y],
            forall|q: int|
                0 <= q < nv.len() ==> is_normalized(#[trigger] nv[q]) && valid_utf8(nv[q])
                    && nv[q].len() <= u64::MAX && nv[q].len() > 0,
            kids_seq_view(kd@).len() == paths_seq_view(dp@).len(),
            forall|x: int, y: int|
                #![trigger paths_seq_view(dp@)[x], paths_seq_view(dp@)[y]]
                0 <= x < y < dp@.len() ==> paths_seq_view(dp@)[x] != paths_seq_view(dp@)[y],
            forall|j: int|
                0 <= j < dp@.len() ==> is_normalized(#[trigger] paths_seq_view(dp@)[j])
                    && valid_utf8(paths_seq_view(dp@)[j]) && paths_seq_view(dp@)[j].len()
                    <= u64::MAX,
            forall|j: int, x: int, y: int|
                #![trigger kids_seq_view(kd@)[j][x], kids_seq_view(kd@)[j][y]]
                0 <= j < kd@.len() && 0 <= x < y < kids_seq_view(kd@)[j].len() ==> kids_seq_view(
                    kd@,
                )[j][x] != kids_seq_view(kd@)[j][y],
            forall|j: int, x: int|
                #![trigger kids_seq_view(kd@)[j][x]]
                0 <= j < kd@.len() && 0 <= x < kids_seq_view(kd@)[j].len() ==> valid_utf8(
                    kids_seq_view(kd@)[j][x],
                ) && kids_seq_view(kd@)[j][x].len() <= u64::MAX,
            forall|j: int| 0 <= j < kd@.len() ==> #[trigger] kids_seq_view(kd@)[j].len() >= 1,
            forall|a: Seq<u8>, c: Seq<u8>|
                #[trigger] table_has(paths_seq_view(dp@), kids_seq_view(kd@), a, c) <==> ((exists|
                    x: int,
                |
                    0 <= x < t && #[trigger] nv[x] == c) && a == parent_of(c)),
        decreases nodes@.len() - t,
    {
        let ghost old_dpv = paths_seq_view(dp@);
        let ghost old_kdv = kids_seq_view(kd@);
        let ghost node_v = nodes@[t as int]@;
        let par = parent_path(nodes[t].as_slice());
        proof {
            assert(nv[t as int] == node_v);
            assert(is_normalized(node_v) && node_v.len() > 0);
            assert(valid_utf8(node_v));
            lemma_parent_utf8(node_v);
            lemma_parent_chain(par@, node_v);
            assert(par@ == parent_of(node_v));
            assert(is_normalized(par@));
            assert(par@.len() < node_v.len());
            // the node is new: it is not among the first t
            if exists|x: int| 0 <= x < t && #[trigger] nv[x] == node_v {
                let x = choose|x: int| 0 <= x < t && #[trigger] nv[x] == node_v;
                assert(nv[x] == nv[t as int]);
                assert(false);
            }
        }
        // find or create the parent's row
        let mut j: usize = 0;
        let mut hit: bool = false;
        while j < dp.len() && !hit
            invariant
                0 <= j <= dp@.len(),
                hit ==> j < dp@.len() && paths_seq_view(dp@)[j as int] == par@,
                !hit ==> forall|w: int| 0 <= w < j ==> #[trigger] paths_seq_view(dp@)[w] != par@,
            decreases dp@.len() - j + (if hit { 0int } else { 1int }),
        {
            if bytes_eq(dp[j].as_slice(), par.as_slice()) {
                hit = true;
                proof {
                    assert(paths_seq_view(dp@)[j as int] == par@);
                }
            } else {
                j = j + 1;
            }
        }
        let node_copy = slice_to_vec(nodes[t].as_slice());
        if hit {
            proof {
                // the node is not yet a child of this row
                if old_kdv[j as int].contains(node_v) {
                    assert(table_has(old_dpv, old_kdv, par@, node_v));
                    assert(false);
                }
            }
            let mut row = clone_paths(&kd[j]);
            row.push(node_copy);
            kd.set(j, row);
            proof {
                let new_kdv = kids_seq_view(kd@);
                assert(new_kdv =~~= old_kdv.update(j as int, old_kdv[j as int].push(node_v)));
                assert(paths_seq_view(dp@) == old_dpv);
                assert forall|a: Seq<u8>, c: Seq<u8>| #[trigger]
                    table_has(old_dpv, new_kdv, a, c) <==> ((exists|x: int|
                    0 <= x < t + 1 && #[trigger] nv[x] == c) && a == parent_of(c)) by {
                    if table_has(old_dpv, new_kdv, a, c) {
                        let w = choose|w: int|
                            0 <= w < old_dpv.len() && old_dpv[w] == a && #[trigger] new_kdv[w].contains(c);
                        if w == j {
                            if c == node_v {
                                assert(a == par@ && par@ == parent_of(node_v));
                                assert(nv[t as int] == c);
                            } else {
                                let y = choose|y: int|
                                    0 <= y < new_kdv[w].len() && new_kdv[w][y] == c;
                                assert(old_kdv[w][y] == c);
                                assert(old_kdv[w].contains(c));
                                assert(table_has(old_dpv, old_kdv, a, c));
                            }
                        } else {
                            assert(old_kdv[w].contains(c));
                            assert(table_has(old_dpv, old_kdv, a, c));
                        }
                    }
                    if (exists|x: int| 0 <= x < t + 1 && #[trigger] nv[x] == c) && a
                        == parent_of(c) {
                        let x = choose|x: int| 0 <= x < t + 1 && #[trigger] nv[x] == c;
                        if x < t {
                            assert(table_has(old_dpv, old_kdv, a, c));
                            let w = choose|w: int|
                                0 <= w < old_dpv.len() && old_dpv[w] == a && #[trigger] old_kdv[w].contains(c);
                            let y = choose|y: int|
                                0 <= y < old_kdv[w].len() && old_kdv[w][y] == c;
                            assert(new_kdv[w][y] == c);
                            assert(new_kdv[w].contains(c));
                            assert(table_has(old_dpv, new_kdv, a, c));
                        } else {
                            assert(c == node_v && a == par@);
                            assert(new_kdv[j as int][old_kdv[j as int].len() as int] == c);
                            assert(new_kdv[j as int].contains(c));
                            assert(table_has(old_dpv, new_kdv, a, c));
                        }
                    }
                }
            }
        } else {
            proof {
                // no row holds this directory yet
                if exists|w: int| 0 <= w < old_dpv.len() && #[trigger] old_dpv[w] == par@ {
                    let w = choose|w: int| 0 <= w < old_dpv.len() && #[trigger] old_dpv[w] == par@;
                    assert(false);
                }
            }
            let mut row: Vec<Vec<u8>> = Vec::new();
            row.push(node_copy);
            dp.push(par);
            kd.push(row);
            proof {
                let new_dpv = paths_seq_view(dp@);
                let new_kdv = kids_seq_view(kd@);
                assert(new_dpv =~= old_dpv.push(par@));
                assert(new_kdv =~~= old_kdv.push(seq![node_v]));
                assert forall|a: Seq<u8>, c: Seq<u8>| #[trigger]
                    table_has(new_dpv, new_kdv, a, c) <==> ((exists|x: int|
                    0 <= x < t + 1 && #[trigger] nv[x] == c) && a == parent_of(c)) by {
                    if table_has(new_dpv, new_kdv, a, c) {
                        let w = choose|w: int|
                            0 <= w < new_dpv.len() && new_dpv[w] == a && #[trigger] new_kdv[w].contains(c);
                        if w < old_dpv.len() {
                            assert(old_kdv[w].contains(c));
                            assert(table_has(old_dpv, old_kdv, a, c));
                        } else {
                            assert(a == par@);
                            assert(new_kdv[w] =~= seq![node_v]);
                            assert(c == node_v);
                            assert(nv[t as int] == c);
                        }
                    }
                    if (exists|x: int| 0 <= x < t + 1 && #[trigger] nv[x] == c) && a
                        == parent_of(c) {
                        let x = choose|x: int| 0 <= x < t + 1 && #[trigger] nv[x] == c;
                        if x < t {
                            assert(table_has(old_dpv, old_kdv, a, c));
                            let w = choose|w: int|
                                0 <= w < old_dpv.len() && old_dpv[w] == a && #[trigger] old_kdv[w].contains(c);
                            assert(new_kdv[w] == old_kdv[w]);
                            assert(new_kdv[w].contains(c));
                            assert(table_has(new_dpv, new_kdv, a, c));
                        } else {
                            assert(c == node_v && a == par@);
                            assert(new_kdv[old_dpv.len() as int][0] == c);
                            assert(new_kdv[old_dpv.len() as int].contains(c));
                            assert(table_has(new_dpv, new_kdv, a, c));
                        }
                    }
                }
            }
        }
        t = t + 1;
    }
    proof {
        let dpv = paths_seq_view(dp@);
        let kdv = kids_seq_view(kd@);
        assert forall|a: Seq<u8>, c: Seq<u8>| #[trigger]
            table_has(dpv, kdv, a, c) <==> ((exists|i2: int|
            0 <= i2 < psv.len() && in_chain(c, #[trigger] psv[i2])) && a == parent_of(c)) by {
            if table_has(dpv, kdv, a, c) {
                let x = choose|x: int| 0 <= x < nv.len() && #[trigger] nv[x] == c;
                assert(nv.contains(c));
            }
            if (exists|i2: int| 0 <= i2 < psv.len() && in_chain(c, #[trigger] psv[i2])) && a
                == parent_of(c) {
                assert(nv.contains(c));
                let x = choose|x: int| 0 <= x < nv.len() && nv[x] == c;
                assert(0 <= x < nv.len() && nv[x] == c);
            }
        }
        assert forall|j: int| 0 <= j < dpv.len() implies #[trigger] dir_covers(dpv, psv, j) by {
            let c0 = kdv[j][0];
            assert(kdv[j].contains(c0));
            assert(table_has(dpv, kdv, dpv[j], c0));
            let i2 = choose|i2: int| 0 <= i2 < psv.len() && in_chain(c0, #[trigger] psv[i2]);
            assert(nv.contains(c0));
            let x = choose|x: int| 0 <= x < nv.len() && nv[x] == c0;
            lemma_parent_chain(dpv[j], c0);
            assert(is_strict_ancestor(parent_of(c0), c0));
            if c0 == psv[i2] {
            } else {
                lemma_strict_ancestor_trans(parent_of(c0), c0, psv[i2]);
            }
            assert(is_strict_ancestor(dpv[j], psv[i2]));
            assert(dir_covers(dpv, psv, j));
        }
        assert(dir_props(dpv, kdv, psv));
    }
    (dp, kd)
}

/// The child lists of a directory table model.
pub open spec fn dirs_children(dirs: Seq<(u64, Seq<Seq<u8>>)>) -> Seq<Seq<Seq<u8>>> {
    dirs.map_values(|d: (u64, Seq<Seq<u8>>)| d.1)
}

/// One finished entry inside the archive bytes: hashed path, recorded
/// ranges, and exactly the compressed blobs it was made from.
pub open spec fn entry_ok(
    bytes: Seq<u8>,
    meta_m: CompressionMethod,
    e: HpakFileEntry,
    src: EntrySrc,
    p: Seq<u8>,
) -> bool {
    &&& src.path == p
    &&& is_normalized(p)
    &&& e.hash == path_hash_of(p)
    &&& e.compression_method == src.method
    &&& HEADER_SIZE <= e.meta_offset
    &&& e.meta_offset + e.meta_size + e.data_size <= bytes.len()
    &&& bytes.subrange(e.meta_offset as int, e.meta_offset + e.meta_size) == spec_compress(
        meta_m,
        src.meta,
    )
    &&& bytes.subrange(
        e.meta_offset + e.meta_size,
        e.meta_offset + e.meta_size + e.data_size,
    ) == spec_compress(e.compression_method, src.data)
}

/// A finished archive: some directory table model and its paths make
/// `archive_ok` hold of the bytes and the writer model.
pub open spec fn finalized_archive(
    bytes: Seq<u8>,
    meta_m: CompressionMethod,
    entries: Seq<HpakFileEntry>,
    srcs: Seq<EntrySrc>,
    ps: Seq<Seq<u8>>,
) -> bool {
    exists|dirs: Seq<(u64, Seq<Seq<u8>>)>, dpaths: Seq<Seq<u8>>|
        archive_ok(bytes, meta_m, entries, srcs, ps, dirs, dpaths)
}

/// A finished archive over its writer model: the header parses with the
/// archive-wide metadata method and points at the entry tables; the
/// tables parse back to exactly the recorded file entries and the
/// directory table of the stored paths; every entry's byte ranges hold
/// its compressed metadata and data.
pub open spec fn archive_ok(
    bytes: Seq<u8>,
    meta_m: CompressionMethod,
    entries: Seq<HpakFileEntry>,
    srcs: Seq<EntrySrc>,
    ps: Seq<Seq<u8>>,
    dirs: Seq<(u64, Seq<Seq<u8>>)>,
    dpaths: Seq<Seq<u8>>,
) -> bool {
    &&& entries.len() == ps.len()
    &&& srcs.len() == ps.len()
    &&& match parse_header(bytes) {
        Ok(h) => h.meta_compression_method == meta_m && (match parse_entries(
            bytes,
            h.entries_offset as int,
        ) {
            Ok(t) => t.0.0 == dirs && t.0.1 == entries,
            Err(_) => false,
        }),
        Err(_) => false,
    }
    &&& forall|i: int|
        0 <= i < entries.len() ==> entry_ok(bytes, meta_m, #[trigger] entries[i], srcs[i], ps[i])
    &&& dirs.len() == dpaths.len()
    &&& forall|j: int| 0 <= j < dirs.len() ==> (#[trigger] dirs[j]).0 == path_hash_of(dpaths[j])
    &&& dir_props(dpaths, dirs_children(dirs), ps)
}

impl HpakWriter {
    /// Finish the archive: build the directory table from the stored
    /// paths, then emit header, body and entry tables as one buffer.
    /// After success the writer is sealed.
    #[verifier::rlimit(100)]
    pub fn finalize(&mut self) -> (r: Result<Vec<u8>, Error>)
        requires
            old(self).wf(),
        ensures
            final(self).wf(),
            final(self).meta_method() == old(self).meta_method(),
            final(self).data_method() == old(self).data_method(),
            final(self).ext_table() == old(self).ext_table(),
            final(self).align_view() == old(self).align_view(),
            final(self).minify_view() == old(self).minify_view(),
            final(self).paths_view() == old(self).paths_view(),
            final(self).entries_view() == old(self).entries_view(),
            final(self).sources_view() == old(self).sources_view(),
            old(self).is_finalized() <==> r is Err,
            match r {
                Ok(bytes) => {
                    &&& final(self).is_finalized()
                    &&& finalized_archive(
                        bytes@,
                        old(self).meta_method(),
                        old(self).entries_view(),
                        old(self).sources_view(),
                        old(self).paths_view(),
                    )
                },
                Err(e) => {
                    &&& *final(self) == *old(self)
                    &&& e == Error::CannotAddEntryAfterFinalize
                },
            },
    {
        if self.finalized {
            return Err(Error::CannotAddEntryAfterFinalize);
        }
        proof {
            assert forall|i: int|
                0 <= i < self.paths@.len() implies is_normalized(#[trigger] self.paths@[i]@)
                && valid_utf8(self.paths@[i]@) && self.paths@[i]@.len() <= u64::MAX by {
                assert(self.wf_entry(i));
            }
        }
        let pair = build_directories(&self.paths);
        let dp = pair.0;
        let kd = pair.1;
        let ghost dpv = paths_seq_view(dp@);
        let ghost kdv = kids_seq_view(kd@);
        let ghost psv = paths_seq_view(self.paths@);
        proof {
            assert(psv =~= self.paths_view());
        }
        // turn each row into a directory entry keyed by its path hash
        let mut dirs: Vec<HpakDirectoryEntry> = Vec::new();
        let mut j: usize = 0;
        while j < dp.len()
            invariant
                0 <= j <= dp@.len(),
                *self == *old(self),
                old(self).wf(),
                kd@.len() == dp@.len(),
                dpv == paths_seq_view(dp@),
                kdv == kids_seq_view(kd@),
                dir_props(dpv, kdv, paths_seq_view(old(self).paths@)),
                dirs@.len() == j,
                forall|w: int|
                    0 <= w < j ==> (#[trigger] dirs@[w]).hash == path_hash_of(dpv[w])
                        && dirs@[w].children_view() == kdv[w] && dirs@[w].entries@.len()
                        <= usize::MAX,
            decreases dp@.len() - j,
        {
            proof {
                assert(is_normalized(dpv[j as int]));
            }
            let h = hash_path(dp[j].as_slice());
            proof {
                lemma_normalize_identity(dpv[j as int]);
            }
            let row = clone_paths(&kd[j]);
            let rl = row.len();
            let entry = HpakDirectoryEntry { hash: h, entries: row };
            let ghost old_dirs = dirs@;
            dirs.push(entry);
            proof {
                assert(forall|w: int| 0 <= w < j ==> dirs@[w] == old_dirs[w]);
                assert(dirs@[j as int] == entry);
                assert(dirs@[j as int].children_view() =~= kdv[j as int]);
                assert(dirs@[j as int].hash == path_hash_of(dpv[j as int]));
                assert(dirs@[j as int].entries@.len() == rl <= usize::MAX);
            }
            j = j + 1;
        }
        // assemble: header, body, entry tables
        let n_dirs = dirs.len();
        let n_files = self.entries.len();
        let bl = self.body.len();
        let entries_offset: u64 = HEADER_SIZE + bl as u64;
        let header = HpakHeader::new(self.meta_compression, entries_offset);
        let mut out: Vec<u8> = Vec::new();
        header.encode(&mut out);
        out.extend_from_slice(self.body.as_slice());
        let ghost mid = out@;
        encode_entries(&dirs, &self.entries, &mut out);
        let ghost dv = dirs_view(dirs@);
        let ghost fv = self.entries@;
        let ghost table = enc_entries(dv, fv);
        let ghost whole = out@;
        self.finalized = true;
        proof {
            assert forall|q: int| 0 <= q < self.paths@.len() implies self.wf_entry(q) by {
                assert(old(self).wf_entry(q));
            }
            assert(whole =~= enc_header(header) + old(self).body@ + table);
            assert(enc_header(header).len() == HEADER_SIZE);
            assert(whole.len() == HEADER_SIZE + old(self).body@.len() + table.len());
            // the header parses back
            assert forall|k: int| 0 <= k < HEADER_SIZE implies whole.subrange(
                0,
                HEADER_SIZE as int,
            )[k] == enc_header(header)[k] by {
                assert(whole[k] == (enc_header(header) + old(self).body@ + table)[k]);
            }
            assert(whole.subrange(0, HEADER_SIZE as int) =~= enc_header(header));
            lemma_parse_header_enc(whole, header);
            // the entry tables parse back
            let ghost off = entries_offset as int;
            assert forall|k: int| 0 <= k < table.len() implies whole.subrange(
                off,
                off + table.len(),
            )[k] == table[k] by {
                assert(whole[off + k] == (enc_header(header) + old(self).body@ + table)[off + k]);
            }
            assert(whole.subrange(off, off + table.len()) =~= table);
            assert(dv.len() == dirs@.len() == n_dirs);
            assert(dv.len() <= u64::MAX);
            assert(fv.len() == n_files);
            assert(fv.len() <= u64::MAX);
            assert forall|w: int| 0 <= w < dv.len() implies wf_dir_model(#[trigger] dv[w]) by {
                assert(dv[w].1 == kdv[w]);
                assert(kdv[w].len() == dirs@[w].entries@.len());
            }
            lemma_parse_entries_enc(whole, off, dv, fv);
            // every entry's ranges carry over from the body
            assert forall|i: int| 0 <= i < fv.len() implies entry_ok(
                whole,
                old(self).meta_compression,
                #[trigger] fv[i],
                old(self).sources@[i],
                old(self).paths@[i]@,
            ) by {
                assert(old(self).wf_entry(i));
                let e = fv[i];
                assert forall|k: int|
                    e.meta_offset - HEADER_SIZE <= k
                        < e.meta_offset + e.meta_size + e.data_size - HEADER_SIZE implies whole[
                    HEADER_SIZE + k
                ] == old(self).body@[k] by {
                    assert(whole[HEADER_SIZE + k] == (enc_header(header) + old(self).body@
                        + table)[HEADER_SIZE + k]);
                }
                assert(whole.subrange(e.meta_offset as int, e.meta_offset + e.meta_size) =~= old(
                    self,
                ).body@.subrange(
                    e.meta_offset - HEADER_SIZE,
                    e.meta_offset + e.meta_size - HEADER_SIZE,
                ));
                assert(whole.subrange(
                    e.meta_offset + e.meta_size,
                    e.meta_offset + e.meta_size + e.data_size,
                ) =~= old(self).body@.subrange(
                    e.meta_offset + e.meta_size - HEADER_SIZE,
                    e.meta_offset + e.meta_size + e.data_size - HEADER_SIZE,
                ));
            }
            // the directory table model
            assert(dirs_children(dv) =~~= kdv);
            assert forall|w: int| 0 <= w < dv.len() implies (#[trigger] dv[w]).0 == path_hash_of(
                dpv[w],
            ) by {}
            assert(archive_ok(
                whole,
                old(self).meta_method(),
                old(self).entries_view(),
                old(self).sources_view(),
                old(self).paths_view(),
                dv,
                dpv,
            ));
            assert(out@ == whole);
            assert(archive_ok(
                out@,
                old(self).meta_method(),
                old(self).entries_view(),
                old(self).sources_view(),
                old(self).paths_view(),
                dv,
                dpv,
            ));
            assert(finalized_archive(
                out@,
                old(self).meta_method(),
                old(self).entries_view(),
                old(self).sources_view(),
                old(self).paths_view(),
            ));
        }
        Ok(out)
    }
}

} // verus!
