//! Sequential big-endian reader over an immutable byte buffer.
//!
//! The readers here are the substrate of both wire decoders.  Each one
//! either consumes its bytes exactly and advances the offset, or reports the
//! buffer too short and leaves the offset where it was.  All multi-byte
//! integers are big-endian.

use vstd::prelude::*;
use crate::text::{text_of, lossy_string};

verus! {

/// The big-endian 16-bit value at `i`.
pub open spec fn spec_u16_at(d: Seq<u8>, i: int) -> int
    recommends
        0 <= i,
        i + 2 <= d.len(),
{
    d[i] * 0x100 + d[i + 1]
}

/// The big-endian 32-bit value at `i`.
pub open spec fn spec_u32_at(d: Seq<u8>, i: int) -> int
    recommends
        0 <= i,
        i + 4 <= d.len(),
{
    d[i] * 0x1000000 + d[i + 1] * 0x10000 + d[i + 2] * 0x100 + d[i + 3]
}

/// The length-prefixed text at `i`: one length byte, then that many bytes
/// read as text.  `None` when the buffer is too short.
pub open spec fn spec_text_at(d: Seq<u8>, i: int) -> Option<(Seq<char>, int)>
    recommends
        0 <= i,
{
    if i + 1 > d.len() {
        None
    } else {
        let n = d[i] as int;
        if i + 1 + n > d.len() {
            None
        } else {
            Some((text_of(d.subrange(i + 1, i + 1 + n)), i + 1 + n))
        }
    }
}

/// Reads one byte and advances the offset past it.
pub fn get_u8(data: &[u8], offset: &mut usize) -> (r: Option<u8>)
    ensures
        match r {
            Some(v) => {
                &&& *old(offset) + 1 <= data@.len()
                &&& v == data@[*old(offset) as int]
                &&& *final(offset) == *old(offset) + 1
            },
            None => {
                &&& data@.len() < *old(offset) + 1
                &&& *final(offset) == *old(offset)
            },
        },
{
    if *offset < data.len() {
        let v = data[*offset];
        *offset = *offset + 1;
        Some(v)
    } else {
        None
    }
}

/// Reads a big-endian 16-bit integer and advances the offset past it.
pub fn get_u16(data: &[u8], offset: &mut usize) -> (r: Option<u16>)
    ensures
        match r {
            Some(v) => {
                &&& *old(offset) + 2 <= data@.len()
                &&& v == spec_u16_at(data@, *old(offset) as int)
                &&& *final(offset) == *old(offset) + 2
            },
            None => {
                &&& data@.len() < *old(offset) + 2
                &&& *final(offset) == *old(offset)
            },
        },
{
    if data.len() >= 2 && *offset <= data.len() - 2 {
        let hi = data[*offset];
        let lo = data[*offset + 1];
        let v = (hi as u16) * 0x100 + (lo as u16);
        *offset = *offset + 2;
        Some(v)
    } else {
        None
    }
}

/// Reads a big-endian 32-bit integer and advances the offset past it.
pub fn get_u32(data: &[u8], offset: &mut usize) -> (r: Option<u32>)
    ensures
        match r {
            Some(v) => {
                &&& *old(offset) + 4 <= data@.len()
                &&& v == spec_u32_at(data@, *old(offset) as int)
                &&& *final(offset) == *old(offset) + 4
            },
            None => {
                &&& data@.len() < *old(offset) + 4
                &&& *final(offset) == *old(offset)
            },
        },
{
    if data.len() >= 4 && *offset <= data.len() - 4 {
        let b0 = data[*offset];
        let b1 = data[*offset + 1];
        let b2 = data[*offset + 2];
        let b3 = data[*offset + 3];
        let v = (b0 as u32) * 0x1000000 + (b1 as u32) * 0x10000 + (b2 as u32) * 0x100 + (
        b3 as u32);
        *offset = *offset + 4;
        Some(v)
    } else {
        None
    }
}

/// Reads `n` raw bytes and advances the offset past them.
pub fn get_bytes(data: &[u8], offset: &mut usize, n: usize) -> (r: Option<Vec<u8>>)
    ensures
        match r {
            Some(v) => {
                &&& *old(offset) + n <= data@.len()
                &&& v@ == data@.subrange(*old(offset) as int, *old(offset) + n)
                &&& *final(offset) == *old(offset) + n
            },
            None => {
                &&& data@.len() < *old(offset) + n
                &&& *final(offset) == *old(offset)
            },
        },
{
    if data.len() >= n && *offset <= data.len() - n {
        let start: usize = *offset;
        let mut v: Vec<u8> = Vec::new();
        let mut i: usize = 0;
        while i < n
            invariant
                i <= n,
                start + n <= data@.len(),
                data@.len() <= usize::MAX,
                v@ =~= data@.subrange(start as int, start + i),
            decreases n - i,
        {
            v.push(data[start + i]);
            proof {
                assert(v@ =~= data@.subrange(start as int, start + i + 1));
            }
            i += 1;
        }
        *offset = start + n;
        Some(v)
    } else {
        None
    }
}

/// Reads a length-prefixed text field: one length byte, then that many
/// bytes decoded as text with the lossy fallback.  Advances the offset past
/// the whole field.  Malformed text is never an error; only a buffer that
/// ends too early is.
pub fn get_string(data: &[u8], offset: &mut usize) -> (r: Option<String>)
    ensures
        match r {
            Some(s) => {
                &&& spec_text_at(data@, *old(offset) as int) is Some
                &&& s@ == spec_text_at(data@, *old(offset) as int)->Some_0.0
                &&& *final(offset) == spec_text_at(data@, *old(offset) as int)->Some_0.1
                &&& *old(offset) < *final(offset) <= data@.len()
            },
            None => {
                &&& spec_text_at(data@, *old(offset) as int) is None
                &&& *final(offset) == *old(offset)
            },
        },
{
    if *offset < data.len() {
        let n = data[*offset] as usize;
        let mut probe: usize = *offset + 1;
        match get_bytes(data, &mut probe, n) {
            Some(raw) => {
                *offset = probe;
                Some(lossy_string(raw.as_slice()))
            },
            None => None,
        }
    } else {
        None
    }
}

} // verus!
