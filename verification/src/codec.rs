//! Primitive binary codec: fixed-width little-endian integers and
//! length-prefixed byte strings.
//!
//! Every value is encoded by a spec function `enc_*` and parsed back by a
//! spec function `parse_*` over a byte sequence and a position.  The exec
//! writers and readers are proved to agree with those functions exactly,
//! and the `lemma_parse_*_enc` lemmas give the round trip: parsing at a
//! position where an encoding was laid down yields the encoded value.

use crate::errors::Error;
use vstd::bytes::lemma_auto_spec_u16_to_from_le_bytes;
use vstd::bytes::lemma_auto_spec_u32_to_from_le_bytes;
use vstd::bytes::lemma_auto_spec_u64_to_from_le_bytes;
use vstd::bytes::spec_u16_from_le_bytes;
use vstd::bytes::spec_u16_to_le_bytes;
use vstd::bytes::spec_u32_from_le_bytes;
use vstd::bytes::spec_u32_to_le_bytes;
use vstd::bytes::spec_u64_from_le_bytes;
use vstd::bytes::spec_u64_to_le_bytes;
use vstd::bytes::u16_from_le_bytes;
use vstd::bytes::u16_to_le_bytes;
use vstd::bytes::u32_from_le_bytes;
use vstd::bytes::u32_to_le_bytes;
use vstd::bytes::u64_from_le_bytes;
use vstd::bytes::u64_to_le_bytes;
use vstd::prelude::*;
use vstd::slice::slice_subrange;
use vstd::slice::slice_to_vec;

verus! {

// ---------------------------------------------------------------------------
// Spec encodings
// ---------------------------------------------------------------------------
pub open spec fn enc_u8(x: u8) -> Seq<u8> {
    seq![x]
}

pub open spec fn enc_u16(x: u16) -> Seq<u8> {
    spec_u16_to_le_bytes(x)
}

pub open spec fn enc_u32(x: u32) -> Seq<u8> {
    spec_u32_to_le_bytes(x)
}

pub open spec fn enc_u64(x: u64) -> Seq<u8> {
    spec_u64_to_le_bytes(x)
}

/// A byte string: a 64-bit length prefix, then the bytes themselves.
pub open spec fn enc_bytes(b: Seq<u8>) -> Seq<u8> {
    enc_u64(b.len() as u64) + b
}

// ---------------------------------------------------------------------------
// Spec parsers: `Some((value, next position))`, or `None` on truncation.
// ---------------------------------------------------------------------------
pub open spec fn parse_u8(s: Seq<u8>, pos: int) -> Option<(u8, int)> {
    if 0 <= pos && pos + 1 <= s.len() {
        Some((s[pos], pos + 1))
    } else {
        None
    }
}

pub open spec fn parse_u16(s: Seq<u8>, pos: int) -> Option<(u16, int)> {
    if 0 <= pos && pos + 2 <= s.len() {
        Some((spec_u16_from_le_bytes(s.subrange(pos, pos + 2)), pos + 2))
    } else {
        None
    }
}

pub open spec fn parse_u32(s: Seq<u8>, pos: int) -> Option<(u32, int)> {
    if 0 <= pos && pos + 4 <= s.len() {
        Some((spec_u32_from_le_bytes(s.subrange(pos, pos + 4)), pos + 4))
    } else {
        None
    }
}

pub open spec fn parse_u64(s: Seq<u8>, pos: int) -> Option<(u64, int)> {
    if 0 <= pos && pos + 8 <= s.len() {
        Some((spec_u64_from_le_bytes(s.subrange(pos, pos + 8)), pos + 8))
    } else {
        None
    }
}

pub open spec fn parse_bytes(s: Seq<u8>, pos: int) -> Option<(Seq<u8>, int)> {
    match parse_u64(s, pos) {
        Some((n, p)) => {
            if p + n <= s.len() {
                Some((s.subrange(p, p + n), p + n))
            } else {
                None
            }
        },
        None => None,
    }
}

// ---------------------------------------------------------------------------
// Exec writers: append the encoding of a value to an output buffer.
// ---------------------------------------------------------------------------
pub fn write_u8(out: &mut Vec<u8>, x: u8)
    ensures
        final(out)@ == old(out)@ + enc_u8(x),
{
    out.push(x);
    assert(out@ =~= old(out)@ + enc_u8(x));
}

pub fn write_u16(out: &mut Vec<u8>, x: u16)
    ensures
        final(out)@ == old(out)@ + enc_u16(x),
{
    let bytes = u16_to_le_bytes(x);
    out.extend_from_slice(bytes.as_slice());
}

pub fn write_u32(out: &mut Vec<u8>, x: u32)
    ensures
        final(out)@ == old(out)@ + enc_u32(x),
{
    let bytes = u32_to_le_bytes(x);
    out.extend_from_slice(bytes.as_slice());
}

pub fn write_u64(out: &mut Vec<u8>, x: u64)
    ensures
        final(out)@ == old(out)@ + enc_u64(x),
{
    let bytes = u64_to_le_bytes(x);
    out.extend_from_slice(bytes.as_slice());
}

pub fn write_bytes(out: &mut Vec<u8>, b: &[u8])
    ensures
        final(out)@ == old(out)@ + enc_bytes(b@),
{
    write_u64(out, b.len() as u64);
    out.extend_from_slice(b);
    assert(out@ =~= old(out)@ + enc_bytes(b@));
}

// ---------------------------------------------------------------------------
// Exec readers: each one agrees with its spec parser exactly, and reports
// truncation as `Error::InvalidFileFormat`.
// ---------------------------------------------------------------------------
pub fn read_u8(s: &[u8], pos: usize) -> (r: Result<(u8, usize), Error>)
    ensures
        match r {
            Ok((v, p)) => parse_u8(s@, pos as int) == Some((v, p as int)),
            Err(e) => parse_u8(s@, pos as int) is None && e == Error::InvalidFileFormat,
        },
{
    if pos < s.len() {
        let v = *slice_subrange(s, pos, pos + 1).first().unwrap();
        assert(s@.subrange(pos as int, pos + 1)[0] == s@[pos as int]);
        Ok((v, pos + 1))
    } else {
        Err(Error::InvalidFileFormat)
    }
}

pub fn read_u16(s: &[u8], pos: usize) -> (r: Result<(u16, usize), Error>)
    ensures
        match r {
            Ok((v, p)) => parse_u16(s@, pos as int) == Some((v, p as int)),
            Err(e) => parse_u16(s@, pos as int) is None && e == Error::InvalidFileFormat,
        },
{
    if s.len() >= 2 && pos <= s.len() - 2 {
        let v = u16_from_le_bytes(slice_subrange(s, pos, pos + 2));
        Ok((v, pos + 2))
    } else {
        Err(Error::InvalidFileFormat)
    }
}

pub fn read_u32(s: &[u8], pos: usize) -> (r: Result<(u32, usize), Error>)
    ensures
        match r {
            Ok((v, p)) => parse_u32(s@, pos as int) == Some((v, p as int)),
            Err(e) => parse_u32(s@, pos as int) is None && e == Error::InvalidFileFormat,
        },
{
    if s.len() >= 4 && pos <= s.len() - 4 {
        let v = u32_from_le_bytes(slice_subrange(s, pos, pos + 4));
        Ok((v, pos + 4))
    } else {
        Err(Error::InvalidFileFormat)
    }
}

pub fn read_u64(s: &[u8], pos: usize) -> (r: Result<(u64, usize), Error>)
    ensures
        match r {
            Ok((v, p)) => parse_u64(s@, pos as int) == Some((v, p as int)),
            Err(e) => parse_u64(s@, pos as int) is None && e == Error::InvalidFileFormat,
        },
{
    if s.len() >= 8 && pos <= s.len() - 8 {
        let v = u64_from_le_bytes(slice_subrange(s, pos, pos + 8));
        Ok((v, pos + 8))
    } else {
        Err(Error::InvalidFileFormat)
    }
}

pub fn read_bytes(s: &[u8], pos: usize) -> (r: Result<(Vec<u8>, usize), Error>)
    ensures
        match r {
            Ok((v, p)) => parse_bytes(s@, pos as int) == Some((v@, p as int)),
            Err(e) => parse_bytes(s@, pos as int) is None && e == Error::InvalidFileFormat,
        },
{
    let (n, p) = read_u64(s, pos)?;
    if n <= (s.len() - p) as u64 {
        let end = p + n as usize;
        let v = slice_to_vec(slice_subrange(s, p, end));
        Ok((v, end))
    } else {
        Err(Error::InvalidFileFormat)
    }
}

// ---------------------------------------------------------------------------
// Round-trip lemmas: parsing where an encoding was laid down yields the
// encoded value and steps past it.
// ---------------------------------------------------------------------------
pub proof fn lemma_parse_u8_enc(s: Seq<u8>, pos: int, x: u8)
    requires
        0 <= pos,
        pos + 1 <= s.len(),
        s.subrange(pos, pos + 1) == enc_u8(x),
    ensures
        parse_u8(s, pos) == Some((x, pos + 1)),
{
    assert(s[pos] == s.subrange(pos, pos + 1)[0]);
}

pub proof fn lemma_parse_u16_enc(s: Seq<u8>, pos: int, x: u16)
    requires
        0 <= pos,
        pos + 2 <= s.len(),
        s.subrange(pos, pos + 2) == enc_u16(x),
    ensures
        parse_u16(s, pos) == Some((x, pos + 2)),
{
    lemma_auto_spec_u16_to_from_le_bytes();
    assert(spec_u16_to_le_bytes(x).len() == 2);
    assert(spec_u16_from_le_bytes(spec_u16_to_le_bytes(x)) == x);
    assert(spec_u16_from_le_bytes(s.subrange(pos, pos + 2)) == x);
}

pub proof fn lemma_parse_u32_enc(s: Seq<u8>, pos: int, x: u32)
    requires
        0 <= pos,
        pos + 4 <= s.len(),
        s.subrange(pos, pos + 4) == enc_u32(x),
    ensures
        parse_u32(s, pos) == Some((x, pos + 4)),
{
    lemma_auto_spec_u32_to_from_le_bytes();
    assert(spec_u32_to_le_bytes(x).len() == 4);
    assert(spec_u32_from_le_bytes(spec_u32_to_le_bytes(x)) == x);
    assert(spec_u32_from_le_bytes(s.subrange(pos, pos + 4)) == x);
}

pub proof fn lemma_parse_u64_enc(s: Seq<u8>, pos: int, x: u64)
    requires
        0 <= pos,
        pos + 8 <= s.len(),
        s.subrange(pos, pos + 8) == enc_u64(x),
    ensures
        parse_u64(s, pos) == Some((x, pos + 8)),
{
    lemma_auto_spec_u64_to_from_le_bytes();
}

pub proof fn lemma_parse_bytes_enc(s: Seq<u8>, pos: int, b: Seq<u8>)
    requires
        0 <= pos,
        b.len() <= u64::MAX,
        pos + enc_bytes(b).len() <= s.len(),
        s.subrange(pos, pos + enc_bytes(b).len()) == enc_bytes(b),
    ensures
        parse_bytes(s, pos) == Some((b, pos + enc_bytes(b).len())),
{
    lemma_auto_spec_u64_to_from_le_bytes();
    let n = b.len() as u64;
    let whole = enc_bytes(b);
    assert(enc_u64(n).len() == 8);
    assert(s.subrange(pos, pos + 8) =~= whole.subrange(0, 8));
    assert(whole.subrange(0, 8) =~= enc_u64(n));
    lemma_parse_u64_enc(s, pos, n);
    assert(s.subrange(pos + 8, pos + 8 + b.len()) =~= whole.subrange(8, whole.len() as int));
    assert(whole.subrange(8, whole.len() as int) =~= b);
}

/// Exact equality of two byte strings.
pub fn bytes_eq(a: &[u8], b: &[u8]) -> (r: bool)
    ensures
        r == (a@ == b@),
{
    if a.len() != b.len() {
        return false;
    }
    let mut i: usize = 0;
    while i < a.len()
        invariant
            0 <= i <= a.len(),
            a@.len() == b@.len(),
            forall|k: int| 0 <= k < i ==> a@[k] == b@[k],
        decreases a.len() - i,
    {
        if a[i] != b[i] {
            return false;
        }
        i = i + 1;
    }
    assert(a@ =~= b@);
    true
}

} // verus!
