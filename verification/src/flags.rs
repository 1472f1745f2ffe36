//! The flag bitmask of a master-list response and the ordered field table.
//!
//! One bitmask in the response header decides, for every record of that
//! response, which optional fields are present.  The wire format carries no
//! per-field tags, so both the decoder and the encoder must walk the fields
//! in exactly the same fixed order: ascending bit value.  That order lives
//! here, in one table, and nowhere else.

use vstd::prelude::*;

verus! {

pub const ASE_HAS_PLAYER_COUNT: u32 = 0x0004;

pub const ASE_HAS_MAX_PLAYER_COUNT: u32 = 0x0008;

pub const ASE_HAS_GAME_NAME: u32 = 0x0010;

pub const ASE_HAS_SERVER_NAME: u32 = 0x0020;

pub const ASE_HAS_GAME_MODE: u32 = 0x0040;

pub const ASE_HAS_MAP_NAME: u32 = 0x0080;

pub const ASE_HAS_SERVER_VERSION: u32 = 0x0100;

pub const ASE_HAS_PASSWORDED_FLAG: u32 = 0x0200;

pub const ASE_HAS_SERIALS_FLAG: u32 = 0x0400;

pub const ASE_HAS_PLAYER_LIST: u32 = 0x0800;

pub const ASE_HAS_RESPONDING_FLAG: u32 = 0x1000;

pub const ASE_HAS_RESTRICTION_FLAGS: u32 = 0x2000;

pub const ASE_HAS_SEARCH_IGNORE_SECTIONS: u32 = 0x4000;

pub const ASE_HAS_KEEP_FLAG: u32 = 0x8000;

pub const ASE_HAS_HTTP_PORT: u32 = 0x080000;

pub const ASE_HAS_SPECIAL_FLAGS: u32 = 0x100000;

/// How many optional fields the protocol defines.
pub const FIELD_COUNT: usize = 16;

/// One optional field of a record, named after its flag bit.
#[derive(Clone, Copy, Debug, PartialEq, Eq, Structural)]
pub enum FieldId {
    PlayerCount,
    MaxPlayerCount,
    GameName,
    ServerName,
    GameMode,
    MapName,
    ServerVersion,
    PasswordedFlag,
    SerialsFlag,
    PlayerList,
    RespondingFlag,
    RestrictionFlags,
    SearchIgnoreSections,
    KeepFlag,
    HttpPort,
    SpecialFlags,
}

/// How a field is laid out on the wire.
#[derive(Clone, Copy, Debug, PartialEq, Eq, Structural)]
pub enum FieldKind {
    /// One byte.
    Byte,
    /// Big-endian 16-bit integer.
    Word,
    /// Big-endian 32-bit integer.
    DWord,
    /// One length byte, then that many text bytes.
    Text,
    /// Big-endian 16-bit count, then that many length-prefixed texts.
    TextList,
    /// One count byte, then that many (offset, length) byte pairs.
    PairList,
}

/// The flag bit that announces a field.
pub open spec fn field_bit(id: FieldId) -> u32 {
    match id {
        FieldId::PlayerCount => ASE_HAS_PLAYER_COUNT,
        FieldId::MaxPlayerCount => ASE_HAS_MAX_PLAYER_COUNT,
        FieldId::GameName => ASE_HAS_GAME_NAME,
        FieldId::ServerName => ASE_HAS_SERVER_NAME,
        FieldId::GameMode => ASE_HAS_GAME_MODE,
        FieldId::MapName => ASE_HAS_MAP_NAME,
        FieldId::ServerVersion => ASE_HAS_SERVER_VERSION,
        FieldId::PasswordedFlag => ASE_HAS_PASSWORDED_FLAG,
        FieldId::SerialsFlag => ASE_HAS_SERIALS_FLAG,
        FieldId::PlayerList => ASE_HAS_PLAYER_LIST,
        FieldId::RespondingFlag => ASE_HAS_RESPONDING_FLAG,
        FieldId::RestrictionFlags => ASE_HAS_RESTRICTION_FLAGS,
        FieldId::SearchIgnoreSections => ASE_HAS_SEARCH_IGNORE_SECTIONS,
        FieldId::KeepFlag => ASE_HAS_KEEP_FLAG,
        FieldId::HttpPort => ASE_HAS_HTTP_PORT,
        FieldId::SpecialFlags => ASE_HAS_SPECIAL_FLAGS,
    }
}

/// The wire layout of a field.
pub open spec fn field_kind(id: FieldId) -> FieldKind {
    match id {
        FieldId::PlayerCount => FieldKind::Word,
        FieldId::MaxPlayerCount => FieldKind::Word,
        FieldId::GameName => FieldKind::Text,
        FieldId::ServerName => FieldKind::Text,
        FieldId::GameMode => FieldKind::Text,
        FieldId::MapName => FieldKind::Text,
        FieldId::ServerVersion => FieldKind::Text,
        FieldId::PasswordedFlag => FieldKind::Byte,
        FieldId::SerialsFlag => FieldKind::Byte,
        FieldId::PlayerList => FieldKind::TextList,
        FieldId::RespondingFlag => FieldKind::Byte,
        FieldId::RestrictionFlags => FieldKind::DWord,
        FieldId::SearchIgnoreSections => FieldKind::PairList,
        FieldId::KeepFlag => FieldKind::Byte,
        FieldId::HttpPort => FieldKind::Word,
        FieldId::SpecialFlags => FieldKind::Byte,
    }
}

/// The ordered field table: entry `i` is the field with the `i`-th lowest
/// flag bit.  Decode and encode both walk this table from 0 upward.
pub open spec fn spec_field_at(i: int) -> FieldId {
    if i == 0 {
        FieldId::PlayerCount
    } else if i == 1 {
        FieldId::MaxPlayerCount
    } else if i == 2 {
        FieldId::GameName
    } else if i == 3 {
        FieldId::ServerName
    } else if i == 4 {
        FieldId::GameMode
    } else if i == 5 {
        FieldId::MapName
    } else if i == 6 {
        FieldId::ServerVersion
    } else if i == 7 {
        FieldId::PasswordedFlag
    } else if i == 8 {
        FieldId::SerialsFlag
    } else if i == 9 {
        FieldId::PlayerList
    } else if i == 10 {
        FieldId::RespondingFlag
    } else if i == 11 {
        FieldId::RestrictionFlags
    } else if i == 12 {
        FieldId::SearchIgnoreSections
    } else if i == 13 {
        FieldId::KeepFlag
    } else if i == 14 {
        FieldId::HttpPort
    } else {
        FieldId::SpecialFlags
    }
}

/// Executable view of the table.
pub fn field_at(i: usize) -> (r: FieldId)
    requires
        i < FIELD_COUNT,
    ensures
        r == spec_field_at(i as int),
{
    match i {
        0 => FieldId::PlayerCount,
        1 => FieldId::MaxPlayerCount,
        2 => FieldId::GameName,
        3 => FieldId::ServerName,
        4 => FieldId::GameMode,
        5 => FieldId::MapName,
        6 => FieldId::ServerVersion,
        7 => FieldId::PasswordedFlag,
        8 => FieldId::SerialsFlag,
        9 => FieldId::PlayerList,
        10 => FieldId::RespondingFlag,
        11 => FieldId::RestrictionFlags,
        12 => FieldId::SearchIgnoreSections,
        13 => FieldId::KeepFlag,
        14 => FieldId::HttpPort,
        _ => FieldId::SpecialFlags,
    }
}

/// Executable view of the flag bit of a field.
pub fn bit_of(id: FieldId) -> (r: u32)
    ensures
        r == field_bit(id),
{
    match id {
        FieldId::PlayerCount => ASE_HAS_PLAYER_COUNT,
        FieldId::MaxPlayerCount => ASE_HAS_MAX_PLAYER_COUNT,
        FieldId::GameName => ASE_HAS_GAME_NAME,
        FieldId::ServerName => ASE_HAS_SERVER_NAME,
        FieldId::GameMode => ASE_HAS_GAME_MODE,
        FieldId::MapName => ASE_HAS_MAP_NAME,
        FieldId::ServerVersion => ASE_HAS_SERVER_VERSION,
        FieldId::PasswordedFlag => ASE_HAS_PASSWORDED_FLAG,
        FieldId::SerialsFlag => ASE_HAS_SERIALS_FLAG,
        FieldId::PlayerList => ASE_HAS_PLAYER_LIST,
        FieldId::RespondingFlag => ASE_HAS_RESPONDING_FLAG,
        FieldId::RestrictionFlags => ASE_HAS_RESTRICTION_FLAGS,
        FieldId::SearchIgnoreSections => ASE_HAS_SEARCH_IGNORE_SECTIONS,
        FieldId::KeepFlag => ASE_HAS_KEEP_FLAG,
        FieldId::HttpPort => ASE_HAS_HTTP_PORT,
        FieldId::SpecialFlags => ASE_HAS_SPECIAL_FLAGS,
    }
}

} // verus!
