//! HPAK: a write-once archive of many small files, each paired with a
//! metadata blob, laid out for fast hash-keyed lookup and streamed
//! per-entry decompression.
//!
//! The writer appends compressed entries with exact byte-offset
//! bookkeeping and finishes by emitting the header and the two entry
//! tables; the reader parses them once and serves forward-seekable
//! decompressing readers over single entries.

pub mod codec;
pub mod compress;
pub mod errors;
pub mod format;
pub mod minify;
pub mod paths;
pub mod reader;
pub mod writer;

use vstd::prelude::*;

verus! {

/// Little-endian magic tag at byte 0: the ASCII bytes of "HPAK".
pub const MAGIC: u32 = 0x4B41_5048;

/// The one supported version of the archive format.
pub const VERSION: u32 = 6;

} // verus!
