use vstd::prelude::*;

verus! {

/// Every way that building, opening or reading an archive can fail.
///
/// The two entry-keyed variants carry the archive path that was involved,
/// as its normalized bytes.
#[derive(Debug, PartialEq, Eq)]
pub enum Error {
    /// An entry was added to a writer that has already been finalized.
    CannotAddEntryAfterFinalize,
    /// Two entries resolved to the same archive path.
    DuplicateEntry(Vec<u8>),
    /// A lookup missed: no file or directory entry has this path's hash.
    EntryNotFound(Vec<u8>),
    /// The bytes are not an archive: bad magic, a bad tag, a truncated
    /// field, or a compressed block that does not decompress.
    InvalidFileFormat,
    /// The archive's version field holds this unsupported value.
    BadVersion(u32),
    /// The requested entry alignment is not a power of two.
    InvalidAlignment(u64),
    /// A decoded path is not valid UTF-8.
    InvalidUtf8,
    /// A backward or absolute seek was requested on an entry reader.
    UnsupportedSeek,
    /// The archive would outgrow what its 64-bit offsets can address.
    ArchiveTooLarge,
}

} // verus!
