//! The master-list decoder.
//!
//! One response body holds a header and then `count` records.  The header's
//! flag bitmask decides which optional fields every record carries; the
//! fields sit in ascending-bit order with no per-field tags.  Each record
//! announces its own total length first, and the decoder jumps by that
//! declared length to the next record no matter how many field bytes it
//! read, so unknown trailing bytes in a record never desynchronize the rest
//! of the response.

use vstd::prelude::*;
use crate::DecodeError;
use crate::addr::{spec_addr_str, addr_string};
use crate::cursor::{spec_u16_at, spec_u32_at, spec_text_at, get_u8, get_u16, get_u32, get_string};
use crate::flags::{FieldId, FieldKind, field_bit, field_kind, spec_field_at, field_at, bit_of,
    FIELD_COUNT};

verus! {

/// One directory entry, as decoded.  `address` and `port` are always
/// present; every other field appears only when its flag bit was set in
/// the response that carried the record.
#[derive(Debug, PartialEq)]
pub struct Server {
    pub address: String,
    pub port: u16,
    pub players: Option<u16>,
    pub max_players: Option<u16>,
    pub game_name: Option<String>,
    pub server_name: Option<String>,
    pub game_mode: Option<String>,
    pub map_name: Option<String>,
    pub version: Option<String>,
    pub passworded: Option<u8>,
    pub serials_enabled: Option<u8>,
    pub player_list: Option<Vec<String>>,
    pub responding: Option<u8>,
    pub restriction_flags: Option<u32>,
    pub search_ignore_ranges: Option<Vec<(u8, u8)>>,
    pub keep_alive: Option<u8>,
    pub http_port: Option<u16>,
    pub special_flags: Option<u8>,
}

/// The mathematical shape of a record: strings as character sequences.
#[verifier::ext_equal]
pub struct SpecServer {
    pub address: Seq<char>,
    pub port: u16,
    pub players: Option<u16>,
    pub max_players: Option<u16>,
    pub game_name: Option<Seq<char>>,
    pub server_name: Option<Seq<char>>,
    pub game_mode: Option<Seq<char>>,
    pub map_name: Option<Seq<char>>,
    pub version: Option<Seq<char>>,
    pub passworded: Option<u8>,
    pub serials_enabled: Option<u8>,
    pub player_list: Option<Seq<Seq<char>>>,
    pub responding: Option<u8>,
    pub restriction_flags: Option<u32>,
    pub search_ignore_ranges: Option<Seq<(u8, u8)>>,
    pub keep_alive: Option<u8>,
    pub http_port: Option<u16>,
    pub special_flags: Option<u8>,
}

impl View for Server {
    type V = SpecServer;

    open spec fn view(&self) -> SpecServer {
        SpecServer {
            address: self.address@,
            port: self.port,
            players: self.players,
            max_players: self.max_players,
            game_name: self.game_name.deep_view(),
            server_name: self.server_name.deep_view(),
            game_mode: self.game_mode.deep_view(),
            map_name: self.map_name.deep_view(),
            version: self.version.deep_view(),
            passworded: self.passworded,
            serials_enabled: self.serials_enabled,
            player_list: self.player_list.deep_view(),
            responding: self.responding,
            restriction_flags: self.restriction_flags,
            search_ignore_ranges: self.search_ignore_ranges.deep_view(),
            keep_alive: self.keep_alive,
            http_port: self.http_port,
            special_flags: self.special_flags,
        }
    }
}

impl DeepView for Server {
    type V = SpecServer;

    open spec fn deep_view(&self) -> SpecServer {
        self.view()
    }
}

/// A record with no optional fields, an empty address and port zero.
pub open spec fn spec_new_server() -> SpecServer {
    SpecServer {
        address: Seq::empty(),
        port: 0,
        players: None,
        max_players: None,
        game_name: None,
        server_name: None,
        game_mode: None,
        map_name: None,
        version: None,
        passworded: None,
        serials_enabled: None,
        player_list: None,
        responding: None,
        restriction_flags: None,
        search_ignore_ranges: None,
        keep_alive: None,
        http_port: None,
        special_flags: None,
    }
}

impl Server {
    /// A record with no optional fields, an empty address and port zero.
    pub fn new() -> (r: Server)
        ensures
            r@ == spec_new_server(),
    {
        let r = Server {
            address: String::new(),
            port: 0,
            players: None,
            max_players: None,
            game_name: None,
            server_name: None,
            game_mode: None,
            map_name: None,
            version: None,
            passworded: None,
            serials_enabled: None,
            player_list: None,
            responding: None,
            restriction_flags: None,
            search_ignore_ranges: None,
            keep_alive: None,
            http_port: None,
            special_flags: None,
        };
        proof {
            assert(r@ =~= spec_new_server());
        }
        r
    }
}

/// The value of one optional field.
pub enum FieldVal {
    Byte(u8),
    Word(u16),
    DWord(u32),
    Text(Seq<char>),
    TextList(Seq<Seq<char>>),
    Pairs(Seq<(u8, u8)>),
}

/// `n` consecutive length-prefixed texts starting at `off`.
pub open spec fn spec_texts(d: Seq<u8>, off: int, n: int) -> Option<(Seq<Seq<char>>, int)>
    decreases n,
{
    if n <= 0 {
        Some((Seq::empty(), off))
    } else {
        match spec_text_at(d, off) {
            None => None,
            Some((t, o2)) => match spec_texts(d, o2, n - 1) {
                None => None,
                Some((ts, o3)) => Some((seq![t] + ts, o3)),
            },
        }
    }
}

/// A 16-bit count followed by that many length-prefixed texts.
pub open spec fn spec_text_list_at(d: Seq<u8>, off: int) -> Option<(Seq<Seq<char>>, int)> {
    if off + 2 <= d.len() {
        spec_texts(d, off + 2, spec_u16_at(d, off))
    } else {
        None
    }
}

/// A count byte followed by that many (offset, length) byte pairs.
pub open spec fn spec_pairs_at(d: Seq<u8>, off: int) -> Option<(Seq<(u8, u8)>, int)> {
    if off + 1 <= d.len() {
        let n = d[off] as int;
        if off + 1 + 2 * n <= d.len() {
            Some(
                (
                    Seq::new(n as nat, |i: int| (d[off + 1 + 2 * i], d[off + 2 + 2 * i])),
                    off + 1 + 2 * n,
                ),
            )
        } else {
            None
        }
    } else {
        None
    }
}

/// One optional field read at `off`, laid out as its kind dictates.
pub open spec fn spec_read_field(d: Seq<u8>, off: int, id: FieldId) -> Option<(FieldVal, int)> {
    match field_kind(id) {
        FieldKind::Byte => if off + 1 <= d.len() {
            Some((FieldVal::Byte(d[off]), off + 1))
        } else {
            None
        },
        FieldKind::Word => if off + 2 <= d.len() {
            Some((FieldVal::Word(spec_u16_at(d, off) as u16), off + 2))
        } else {
            None
        },
        FieldKind::DWord => if off + 4 <= d.len() {
            Some((FieldVal::DWord(spec_u32_at(d, off) as u32), off + 4))
        } else {
            None
        },
        FieldKind::Text => match spec_text_at(d, off) {
            None => None,
            Some((t, o2)) => Some((FieldVal::Text(t), o2)),
        },
        FieldKind::TextList => match spec_text_list_at(d, off) {
            None => None,
            Some((ts, o2)) => Some((FieldVal::TextList(ts), o2)),
        },
        FieldKind::PairList => match spec_pairs_at(d, off) {
            None => None,
            Some((ps, o2)) => Some((FieldVal::Pairs(ps), o2)),
        },
    }
}

/// The record with one optional field replaced.
pub open spec fn set_field(r: SpecServer, id: FieldId, v: FieldVal) -> SpecServer {
    match id {
        FieldId::PlayerCount => SpecServer { players: Some(v->Word_0), ..r },
        FieldId::MaxPlayerCount => SpecServer { max_players: Some(v->Word_0), ..r },
        FieldId::GameName => SpecServer { game_name: Some(v->Text_0), ..r },
        FieldId::ServerName => SpecServer { server_name: Some(v->Text_0), ..r },
        FieldId::GameMode => SpecServer { game_mode: Some(v->Text_0), ..r },
        FieldId::MapName => SpecServer { map_name: Some(v->Text_0), ..r },
        FieldId::ServerVersion => SpecServer { version: Some(v->Text_0), ..r },
        FieldId::PasswordedFlag => SpecServer { passworded: Some(v->Byte_0), ..r },
        FieldId::SerialsFlag => SpecServer { serials_enabled: Some(v->Byte_0), ..r },
        FieldId::PlayerList => SpecServer { player_list: Some(v->TextList_0), ..r },
        FieldId::RespondingFlag => SpecServer { responding: Some(v->Byte_0), ..r },
        FieldId::RestrictionFlags => SpecServer { restriction_flags: Some(v->DWord_0), ..r },
        FieldId::SearchIgnoreSections => SpecServer { search_ignore_ranges: Some(v->Pairs_0), ..r },
        FieldId::KeepFlag => SpecServer { keep_alive: Some(v->Byte_0), ..r },
        FieldId::HttpPort => SpecServer { http_port: Some(v->Word_0), ..r },
        FieldId::SpecialFlags => SpecServer { special_flags: Some(v->Byte_0), ..r },
    }
}

/// Reads a 16-bit count and then that many length-prefixed texts.  The
/// offset moves only when the whole list is present.
fn get_text_list(data: &[u8], offset: &mut usize) -> (r: Option<Vec<String>>)
    ensures
        match r {
            Some(v) => {
                &&& spec_text_list_at(data@, *old(offset) as int) is Some
                &&& spec_text_list_at(data@, *old(offset) as int)->Some_0.0 == v.deep_view()
                &&& spec_text_list_at(data@, *old(offset) as int)->Some_0.1 == *final(offset)
            },
            None => {
                &&& spec_text_list_at(data@, *old(offset) as int) is None
                &&& *final(offset) == *old(offset)
            },
        },
{
    let mut probe: usize = *offset;
    let n = match get_u16(data, &mut probe) {
        Some(v) => v,
        None => {
            return None;
        },
    };
    let ghost d = data@;
    let ghost start = probe as int;
    let mut texts: Vec<String> = Vec::new();
    let mut i: usize = 0;
    while i < n as usize
        invariant
            i <= n,
            spec_texts(d, start, n as int) == match spec_texts(d, probe as int, n - i) {
                Some((ts, o)) => Some::<(Seq<Seq<char>>, int)>((texts.deep_view() + ts, o)),
                None => None::<(Seq<Seq<char>>, int)>,
            },
            d == data@,
            *offset == *old(offset),
            *old(offset) + 2 <= d.len(),
            start == *old(offset) + 2,
            n == spec_u16_at(d, *old(offset) as int),
        decreases n - i,
    {
        let ghost off_prev = probe as int;
        let ghost texts_prev = texts.deep_view();
        let t = match get_string(data, &mut probe) {
            Some(t) => t,
            None => {
                proof {
                    assert(spec_texts(d, probe as int, n - i) is None);
                    assert(spec_text_list_at(d, *old(offset) as int) is None);
                }
                return None;
            },
        };
        texts.push(t);
        proof {
            assert(texts.deep_view() =~= texts_prev.push(t@));
            let n_rem = n - i;
            assert(spec_texts(d, off_prev, n_rem) == match spec_texts(d, probe as int, n_rem - 1) {
                Some((ts, o)) => Some::<(Seq<Seq<char>>, int)>((seq![t@] + ts, o)),
                None => None::<(Seq<Seq<char>>, int)>,
            });
            if spec_texts(d, probe as int, n_rem - 1) is Some {
                let (ts, o) = spec_texts(d, probe as int, n_rem - 1)->Some_0;
                assert(texts_prev + (seq![t@] + ts) =~= texts.deep_view() + ts);
            }
        }
        i += 1;
    }
    proof {
        assert(spec_texts(d, probe as int, 0) == Some::<(Seq<Seq<char>>, int)>(
            (Seq::empty(), probe as int),
        ));
        assert(texts.deep_view() + Seq::<Seq<char>>::empty() =~= texts.deep_view());
    }
    *offset = probe;
    Some(texts)
}

/// Reads a count byte and then that many (offset, length) pairs.  The
/// offset moves only when the whole list is present.
fn get_pairs(data: &[u8], offset: &mut usize) -> (r: Option<Vec<(u8, u8)>>)
    ensures
        match r {
            Some(v) => {
                &&& spec_pairs_at(data@, *old(offset) as int) is Some
                &&& spec_pairs_at(data@, *old(offset) as int)->Some_0.0 == v.deep_view()
                &&& spec_pairs_at(data@, *old(offset) as int)->Some_0.1 == *final(offset)
            },
            None => {
                &&& spec_pairs_at(data@, *old(offset) as int) is None
                &&& *final(offset) == *old(offset)
            },
        },
{
    let mut probe: usize = *offset;
    let n = match get_u8(data, &mut probe) {
        Some(v) => v,
        None => {
            return None;
        },
    };
    let ghost d = data@;
    let ghost start = probe as int;
    let mut pairs: Vec<(u8, u8)> = Vec::new();
    let mut i: usize = 0;
    while i < n as usize
        invariant
            i <= n,
            probe == start + 2 * i,
            probe <= d.len(),
            pairs@ =~= Seq::new(i as nat, |k: int| (d[start + 2 * k], d[start + 1 + 2 * k])),
            d == data@,
            *offset == *old(offset),
            *old(offset) + 1 <= d.len(),
            start == *old(offset) + 1,
            n == d[*old(offset) as int],
        decreases n - i,
    {
        let a = match get_u8(data, &mut probe) {
            Some(v) => v,
            None => {
                proof {
                    assert(d.len() < start + 2 * (n as int));
                    assert(spec_pairs_at(d, *old(offset) as int) is None);
                }
                return None;
            },
        };
        let b = match get_u8(data, &mut probe) {
            Some(v) => v,
            None => {
                proof {
                    assert(d.len() < start + 2 * (n as int));
                    assert(spec_pairs_at(d, *old(offset) as int) is None);
                }
                return None;
            },
        };
        pairs.push((a, b));
        proof {
            assert(pairs@ =~= Seq::new(
                (i + 1) as nat,
                |k: int| (d[start + 2 * k], d[start + 1 + 2 * k]),
            ));
        }
        i += 1;
    }
    proof {
        assert(pairs.deep_view() =~= pairs@);
        assert(spec_pairs_at(d, *old(offset) as int) is Some);
        assert(spec_pairs_at(d, *old(offset) as int)->Some_0.0 =~= pairs@);
    }
    *offset = probe;
    Some(pairs)
}

} // verus!

verus! {

/// The optional fields of one record, walked in table order from entry
/// `i`: each field whose flag bit is set is read and placed into the
/// record, the rest stay as they were.  `None` when the buffer ends
/// inside a field.
pub open spec fn spec_fields(d: Seq<u8>, off: int, flags: u32, r: SpecServer, i: int) -> Option<
    (SpecServer, int),
>
    decreases FIELD_COUNT - i,
{
    if i < 0 || i >= FIELD_COUNT {
        Some((r, off))
    } else {
        let id = spec_field_at(i);
        if flags & field_bit(id) == 0 {
            spec_fields(d, off, flags, r, i + 1)
        } else {
            match spec_read_field(d, off, id) {
                None => None,
                Some((v, o2)) => spec_fields(d, o2, flags, set_field(r, id, v), i + 1),
            }
        }
    }
}

/// Reads every flagged optional field of one record, in table order,
/// into `server`.  Returns false when the buffer ends inside a field.
fn decode_fields(data: &[u8], offset: &mut usize, flags: u32, server: &mut Server) -> (ok: bool)
    ensures
        match spec_fields(data@, *old(offset) as int, flags, old(server)@, 0) {
            Some((r2, o2)) => ok && final(server)@ == r2 && o2 == *final(offset),
            None => !ok,
        },
{
    let ghost d = data@;
    let ghost off0 = *offset as int;
    let ghost s0 = server@;
    let mut i: usize = 0;
    while i < FIELD_COUNT
        invariant
            i <= FIELD_COUNT,
            d == data@,
            off0 == *old(offset) as int,
            s0 == old(server)@,
            spec_fields(d, off0, flags, s0, 0) == spec_fields(
                d,
                *offset as int,
                flags,
                server@,
                i as int,
            ),
        decreases FIELD_COUNT - i,
    {
        let id = field_at(i);
        let bit = bit_of(id);
        if flags & bit != 0 {
            let ghost off_prev = *offset as int;
            let ghost s_prev = server@;
            match id {
                FieldId::PlayerCount => {
                    match get_u16(data, offset) {
                        Some(v) => {
                            server.players = Some(v);
                            proof {
                                assert(server@ =~= set_field(s_prev, id, FieldVal::Word(v)));
                                assert(spec_fields(d, off_prev, flags, s_prev, i as int)
                                    == spec_fields(d, *offset as int, flags, server@, i + 1));
                            }
                        },
                        None => {
                            proof {
                                assert(spec_fields(d, off_prev, flags, s_prev, i as int) is None);
                            }
                            return false;
                        },
                    }
                },
                FieldId::MaxPlayerCount => {
                    match get_u16(data, offset) {
                        Some(v) => {
                            server.max_players = Some(v);
                            proof {
                                assert(server@ =~= set_field(s_prev, id, FieldVal::Word(v)));
                                assert(spec_fields(d, off_prev, flags, s_prev, i as int)
                                    == spec_fields(d, *offset as int, flags, server@, i + 1));
                            }
                        },
                        None => {
                            proof {
                                assert(spec_fields(d, off_prev, flags, s_prev, i as int) is None);
                            }
                            return false;
                        },
                    }
                },
                FieldId::GameName => {
                    match get_string(data, offset) {
                        Some(s) => {
                            server.game_name = Some(s);
                            proof {
                                assert(server@ =~= set_field(s_prev, id, FieldVal::Text(s@)));
                                assert(spec_fields(d, off_prev, flags, s_prev, i as int)
                                    == spec_fields(d, *offset as int, flags, server@, i + 1));
                            }
                        },
                        None => {
                            proof {
                                assert(spec_fields(d, off_prev, flags, s_prev, i as int) is None);
                            }
                            return false;
                        },
                    }
                },
                FieldId::ServerName => {
                    match get_string(data, offset) {
                        Some(s) => {
                            server.server_name = Some(s);
                            proof {
                                assert(server@ =~= set_field(s_prev, id, FieldVal::Text(s@)));
                                assert(spec_fields(d, off_prev, flags, s_prev, i as int)
                                    == spec_fields(d, *offset as int, flags, server@, i + 1));
                            }
                        },
                        None => {
                            proof {
                                assert(spec_fields(d, off_prev, flags, s_prev, i as int) is None);
                            }
                            return false;
                        },
                    }
                },
                FieldId::GameMode => {
                    match get_string(data, offset) {
                        Some(s) => {
                            server.game_mode = Some(s);
                            proof {
                                assert(server@ =~= set_field(s_prev, id, FieldVal::Text(s@)));
                                assert(spec_fields(d, off_prev, flags, s_prev, i as int)
                                    == spec_fields(d, *offset as int, flags, server@, i + 1));
                            }
                        },
                        None => {
                            proof {
                                assert(spec_fields(d, off_prev, flags, s_prev, i as int) is None);
                            }
                            return false;
                        },
                    }
                },
                FieldId::MapName => {
                    match get_string(data, offset) {
                        Some(s) => {
                            server.map_name = Some(s);
                            proof {
                                assert(server@ =~= set_field(s_prev, id, FieldVal::Text(s@)));
                                assert(spec_fields(d, off_prev, flags, s_prev, i as int)
                                    == spec_fields(d, *offset as int, flags, server@, i + 1));
                            }
                        },
                        None => {
                            proof {
                                assert(spec_fields(d, off_prev, flags, s_prev, i as int) is None);
                            }
                            return false;
                        },
                    }
                },
                FieldId::ServerVersion => {
                    match get_string(data, offset) {
                        Some(s) => {
                            server.version = Some(s);
                            proof {
                                assert(server@ =~= set_field(s_prev, id, FieldVal::Text(s@)));
                                assert(spec_fields(d, off_prev, flags, s_prev, i as int)
                                    == spec_fields(d, *offset as int, flags, server@, i + 1));
                            }
                        },
                        None => {
                            proof {
                                assert(spec_fields(d, off_prev, flags, s_prev, i as int) is None);
                            }
                            return false;
                        },
                    }
                },
                FieldId::PasswordedFlag => {
                    match get_u8(data, offset) {
                        Some(v) => {
                            server.passworded = Some(v);
                            proof {
                                assert(server@ =~= set_field(s_prev, id, FieldVal::Byte(v)));
                                assert(spec_fields(d, off_prev, flags, s_prev, i as int)
                                    == spec_fields(d, *offset as int, flags, server@, i + 1));
                            }
                        },
                        None => {
                            proof {
                                assert(spec_fields(d, off_prev, flags, s_prev, i as int) is None);
                            }
                            return false;
                        },
                    }
                },
                FieldId::SerialsFlag => {
                    match get_u8(data, offset) {
                        Some(v) => {
                            server.serials_enabled = Some(v);
                            proof {
                                assert(server@ =~= set_field(s_prev, id, FieldVal::Byte(v)));
                                assert(spec_fields(d, off_prev, flags, s_prev, i as int)
                                    == spec_fields(d, *offset as int, flags, server@, i + 1));
                            }
                        },
                        None => {
                            proof {
                                assert(spec_fields(d, off_prev, flags, s_prev, i as int) is None);
                            }
                            return false;
                        },
                    }
                },
                FieldId::PlayerList => {
                    match get_text_list(data, offset) {
                        Some(v) => {
                            proof {
                                assert(spec_read_field(d, off_prev, id) == Some::<(FieldVal, int)>(
                                    (FieldVal::TextList(v.deep_view()), *offset as int),
                                ));
                            }
                            server.player_list = Some(v);
                            proof {
                                assert(server@ =~= set_field(
                                    s_prev,
                                    id,
                                    spec_read_field(d, off_prev, id)->Some_0.0,
                                ));
                                assert(spec_fields(d, off_prev, flags, s_prev, i as int)
                                    == spec_fields(d, *offset as int, flags, server@, i + 1));
                            }
                        },
                        None => {
                            proof {
                                assert(spec_fields(d, off_prev, flags, s_prev, i as int) is None);
                            }
                            return false;
                        },
                    }
                },
                FieldId::RespondingFlag => {
                    match get_u8(data, offset) {
                        Some(v) => {
                            server.responding = Some(v);
                            proof {
                                assert(server@ =~= set_field(s_prev, id, FieldVal::Byte(v)));
                                assert(spec_fields(d, off_prev, flags, s_prev, i as int)
                                    == spec_fields(d, *offset as int, flags, server@, i + 1));
                            }
                        },
                        None => {
                            proof {
                                assert(spec_fields(d, off_prev, flags, s_prev, i as int) is None);
                            }
                            return false;
                        },
                    }
                },
                FieldId::RestrictionFlags => {
                    match get_u32(data, offset) {
                        Some(v) => {
                            server.restriction_flags = Some(v);
                            proof {
                                assert(server@ =~= set_field(s_prev, id, FieldVal::DWord(v)));
                                assert(spec_fields(d, off_prev, flags, s_prev, i as int)
                                    == spec_fields(d, *offset as int, flags, server@, i + 1));
                            }
                        },
                        None => {
                            proof {
                                assert(spec_fields(d, off_prev, flags, s_prev, i as int) is None);
                            }
                            return false;
                        },
                    }
                },
                FieldId::SearchIgnoreSections => {
                    match get_pairs(data, offset) {
                        Some(v) => {
                            proof {
                                assert(spec_read_field(d, off_prev, id) == Some::<(FieldVal, int)>(
                                    (FieldVal::Pairs(v.deep_view()), *offset as int),
                                ));
                            }
                            server.search_ignore_ranges = Some(v);
                            proof {
                                assert(server@ =~= set_field(
                                    s_prev,
                                    id,
                                    spec_read_field(d, off_prev, id)->Some_0.0,
                                ));
                                assert(spec_fields(d, off_prev, flags, s_prev, i as int)
                                    == spec_fields(d, *offset as int, flags, server@, i + 1));
                            }
                        },
                        None => {
                            proof {
                                assert(spec_fields(d, off_prev, flags, s_prev, i as int) is None);
                            }
                            return false;
                        },
                    }
                },
                FieldId::KeepFlag => {
                    match get_u8(data, offset) {
                        Some(v) => {
                            server.keep_alive = Some(v);
                            proof {
                                assert(server@ =~= set_field(s_prev, id, FieldVal::Byte(v)));
                                assert(spec_fields(d, off_prev, flags, s_prev, i as int)
                                    == spec_fields(d, *offset as int, flags, server@, i + 1));
                            }
                        },
                        None => {
                            proof {
                                assert(spec_fields(d, off_prev, flags, s_prev, i as int) is None);
                            }
                            return false;
                        },
                    }
                },
                FieldId::HttpPort => {
                    match get_u16(data, offset) {
                        Some(v) => {
                            server.http_port = Some(v);
                            proof {
                                assert(server@ =~= set_field(s_prev, id, FieldVal::Word(v)));
                                assert(spec_fields(d, off_prev, flags, s_prev, i as int)
                                    == spec_fields(d, *offset as int, flags, server@, i + 1));
                            }
                        },
                        None => {
                            proof {
                                assert(spec_fields(d, off_prev, flags, s_prev, i as int) is None);
                            }
                            return false;
                        },
                    }
                },
                FieldId::SpecialFlags => {
                    match get_u8(data, offset) {
                        Some(v) => {
                            server.special_flags = Some(v);
                            proof {
                                assert(server@ =~= set_field(s_prev, id, FieldVal::Byte(v)));
                                assert(spec_fields(d, off_prev, flags, s_prev, i as int)
                                    == spec_fields(d, *offset as int, flags, server@, i + 1));
                            }
                        },
                        None => {
                            proof {
                                assert(spec_fields(d, off_prev, flags, s_prev, i as int) is None);
                            }
                            return false;
                        },
                    }
                },
            }
        } else {
            proof {
                assert(spec_fields(d, *offset as int, flags, server@, i as int) == spec_fields(
                    d,
                    *offset as int,
                    flags,
                    server@,
                    i + 1,
                ));
            }
        }
        i += 1;
    }
    true
}

} // verus!

verus! {

/// One whole record at `off`: its declared entry length, the fixed
/// address and port, then the flagged optional fields.  On success the
/// second component is where the next record starts: `off` plus the
/// declared entry length, regardless of how many field bytes were read.
pub open spec fn spec_record(d: Seq<u8>, off: int, flags: u32) -> Result<
    (SpecServer, int),
    DecodeError,
> {
    if off + 2 > d.len() {
        Err(DecodeError::Truncated)
    } else {
        let entry = spec_u16_at(d, off);
        if entry < 2 {
            Err(DecodeError::InvalidEntryLength)
        } else if off + 8 > d.len() {
            Err(DecodeError::Truncated)
        } else {
            let base = SpecServer {
                address: spec_addr_str(d[off + 5], d[off + 4], d[off + 3], d[off + 2]),
                port: spec_u16_at(d, off + 6) as u16,
                ..spec_new_server()
            };
            match spec_fields(d, off + 8, flags, base, 0) {
                None => Err(DecodeError::Truncated),
                Some((r, _end)) => Ok((r, off + entry)),
            }
        }
    }
}

/// Decodes one record and jumps the cursor to `off + entry_length`,
/// trusting the declared length over the bytes actually read.
fn decode_record(data: &[u8], offset: &mut usize, flags: u32) -> (r: Result<Server, DecodeError>)
    requires
        data@.len() + 0x10000 <= usize::MAX,
    ensures
        match r {
            Ok(s) => {
                &&& spec_record(data@, *old(offset) as int, flags) is Ok
                &&& spec_record(data@, *old(offset) as int, flags)->Ok_0.0 == s@
                &&& spec_record(data@, *old(offset) as int, flags)->Ok_0.1 == *final(offset)
            },
            Err(e) => spec_record(data@, *old(offset) as int, flags) == Err::<
                (SpecServer, int),
                DecodeError,
            >(e),
        },
{
    let start: usize = *offset;
    let entry = match get_u16(data, offset) {
        Some(v) => v,
        None => {
            return Err(DecodeError::Truncated);
        },
    };
    if entry < 2 {
        return Err(DecodeError::InvalidEntryLength);
    }
    let next: usize = start + entry as usize;
    let ip1 = match get_u8(data, offset) {
        Some(v) => v,
        None => {
            return Err(DecodeError::Truncated);
        },
    };
    let ip2 = match get_u8(data, offset) {
        Some(v) => v,
        None => {
            return Err(DecodeError::Truncated);
        },
    };
    let ip3 = match get_u8(data, offset) {
        Some(v) => v,
        None => {
            return Err(DecodeError::Truncated);
        },
    };
    let ip4 = match get_u8(data, offset) {
        Some(v) => v,
        None => {
            return Err(DecodeError::Truncated);
        },
    };
    let port = match get_u16(data, offset) {
        Some(v) => v,
        None => {
            return Err(DecodeError::Truncated);
        },
    };
    let mut server = Server::new();
    server.address = addr_string(ip4, ip3, ip2, ip1);
    server.port = port;
    let ghost base = SpecServer {
        address: spec_addr_str(
            data@[start + 5],
            data@[start + 4],
            data@[start + 3],
            data@[start + 2],
        ),
        port: spec_u16_at(data@, start + 6) as u16,
        ..spec_new_server()
    };
    proof {
        assert(server@ =~= base);
    }
    if !decode_fields(data, offset, flags, &mut server) {
        return Err(DecodeError::Truncated);
    }
    *offset = next;
    Ok(server)
}

/// `n` records in a row, each starting where the one before declared.
pub open spec fn spec_records(d: Seq<u8>, off: int, flags: u32, n: int) -> Result<
    Seq<SpecServer>,
    DecodeError,
>
    decreases n,
{
    if n <= 0 {
        Ok(Seq::empty())
    } else {
        match spec_record(d, off, flags) {
            Err(e) => Err(e),
            Ok((rec, next)) => match spec_records(d, next, flags, n - 1) {
                Err(e) => Err(e),
                Ok(rest) => Ok(seq![rec] + rest),
            },
        }
    }
}

/// A whole master-list response: a 14-byte header — total length and
/// protocol version (both ignored), the flag bitmask, a sequence number
/// (ignored) and the record count — followed by that many records.
pub open spec fn spec_process(d: Seq<u8>) -> Result<Seq<SpecServer>, DecodeError> {
    if d.len() < 16 {
        Err(DecodeError::Truncated)
    } else {
        spec_records(d, 16, spec_u32_at(d, 4) as u32, spec_u32_at(d, 12))
    }
}

/// Decodes a raw master-list response body into its records.
///
/// The result is a function of the bytes alone: the same body always
/// decodes to the same record sequence.  A buffer that ends before a
/// declared field, or a record that declares an entry length below 2,
/// fails the whole decode; no partial record list is returned.
pub fn process(data: &[u8]) -> (r: Result<Vec<Server>, DecodeError>)
    requires
        data@.len() + 0x10000 <= usize::MAX,
    ensures
        match r {
            Ok(v) => spec_process(data@) == Ok::<Seq<SpecServer>, DecodeError>(v.deep_view()),
            Err(e) => spec_process(data@) == Err::<Seq<SpecServer>, DecodeError>(e),
        },
{
    let ghost d = data@;
    let mut offset: usize = 0;
    if get_u16(data, &mut offset).is_none() {
        return Err(DecodeError::Truncated);
    }
    if get_u16(data, &mut offset).is_none() {
        return Err(DecodeError::Truncated);
    }
    let flags = match get_u32(data, &mut offset) {
        Some(v) => v,
        None => {
            return Err(DecodeError::Truncated);
        },
    };
    if get_u32(data, &mut offset).is_none() {
        return Err(DecodeError::Truncated);
    }
    let count = match get_u32(data, &mut offset) {
        Some(v) => v,
        None => {
            return Err(DecodeError::Truncated);
        },
    };
    let mut servers: Vec<Server> = Vec::new();
    let mut i: u32 = 0;
    proof {
        assert(servers.deep_view() =~= Seq::<SpecServer>::empty());
        if spec_records(d, 16, flags, count as int) is Ok {
            let rest = spec_records(d, 16, flags, count as int)->Ok_0;
            assert(Seq::<SpecServer>::empty() + rest =~= rest);
        }
    }
    while i < count
        invariant
            i <= count,
            d == data@,
            d.len() + 0x10000 <= usize::MAX,
            d.len() >= 16,
            flags == spec_u32_at(d, 4),
            count == spec_u32_at(d, 12),
            spec_records(d, 16, flags, count as int) == (match spec_records(
                d,
                offset as int,
                flags,
                count - i,
            ) {
                Ok(rest) => Ok::<Seq<SpecServer>, DecodeError>(servers.deep_view() + rest),
                Err(e) => Err::<Seq<SpecServer>, DecodeError>(e),
            }),
        decreases count - i,
    {
        let ghost off_prev = offset as int;
        let ghost servers_prev = servers.deep_view();
        match decode_record(data, &mut offset, flags) {
            Ok(s) => {
                servers.push(s);
                proof {
                    let n_rem = count - i;
                    assert(servers.deep_view() =~= servers_prev.push(s@));
                    assert(spec_records(d, off_prev, flags, n_rem) == (match spec_records(
                        d,
                        offset as int,
                        flags,
                        n_rem - 1,
                    ) {
                        Ok(rest) => Ok::<Seq<SpecServer>, DecodeError>(seq![s@] + rest),
                        Err(e) => Err::<Seq<SpecServer>, DecodeError>(e),
                    }));
                    if spec_records(d, offset as int, flags, n_rem - 1) is Ok {
                        let rest = spec_records(d, offset as int, flags, n_rem - 1)->Ok_0;
                        assert(servers_prev + (seq![s@] + rest) =~= servers.deep_view() + rest);
                    }
                }
            },
            Err(e) => {
                proof {
                    assert(spec_records(d, off_prev, flags, count - i) == Err::<
                        Seq<SpecServer>,
                        DecodeError,
                    >(e));
                }
                return Err(e);
            },
        }
        i += 1;
    }
    proof {
        assert(spec_records(d, offset as int, flags, 0) == Ok::<Seq<SpecServer>, DecodeError>(
            Seq::empty(),
        ));
        assert(servers.deep_view() + Seq::<SpecServer>::empty() =~= servers.deep_view());
    }
    Ok(servers)
}

/// Decoding is deterministic: equal response bodies always yield equal
/// record sequences, successes and failures alike.
pub proof fn lemma_process_deterministic(d1: Seq<u8>, d2: Seq<u8>)
    requires
        d1 == d2,
    ensures
        spec_process(d1) == spec_process(d2),
{
}

} // verus!

verus! {

/// Malformed text is never a decode error: a text field whose declared
/// bytes are all present reads successfully whatever those bytes hold —
/// invalid UTF-8 only changes which characters come out, never whether
/// the record decodes.
pub proof fn lemma_malformed_text_is_no_error(d: Seq<u8>, off: int)
    requires
        0 <= off,
        off + 1 <= d.len(),
        off + 1 + d[off] <= d.len(),
    ensures
        spec_text_at(d, off) is Some,
{
}

} // verus!
