//! Decoders and bookkeeping for a game-server directory.
//!
//! The master directory answers with one binary blob describing every
//! registered server; [`list`] decodes it, with the layout of each record
//! driven by the response's flag bitmask.  [`server`] decodes the small
//! fixed-shape answer of a direct query against one game server.  [`cache`]
//! keeps the decoded list fresh: it decides when a conditional refetch or a
//! read-triggered refresh is due and hands out snapshot copies.  All
//! network work stays with the caller; everything here is pure computation
//! over bytes and strings, specified and verified down to [`encode`]'s
//! round-trip laws.

pub mod addr;
pub mod cache;
pub mod cursor;
pub mod encode;
pub mod flags;
pub mod list;
pub mod server;
pub mod text;

use vstd::prelude::*;

verus! {

/// A failure while decoding a master-list response.
///
/// `Truncated`: the buffer ended before a field it declares.
/// `InvalidEntryLength`: a record's declared length is below the
/// minimum of 2 bytes (the length field counts itself).
#[derive(Clone, Copy, Debug, PartialEq, Eq, Structural)]
pub enum DecodeError {
    Truncated,
    InvalidEntryLength,
}

} // verus!
