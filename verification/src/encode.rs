//! The wire image of records, and the round-trip laws.
//!
//! These spec functions build the exact byte sequence that carries a
//! record list, walking the same ordered field table as the decoder.  Each
//! record may carry arbitrary trailing bytes counted by its declared entry
//! length — the bytes an unknown future field would occupy — and the laws
//! at the bottom prove that decoding such an image yields exactly the
//! records that were encoded, trailing bytes skipped and all.

use vstd::prelude::*;
use vstd::arithmetic::div_mod::lemma_fundamental_div_mod;
use vstd::utf8::{encode_utf8, encode_utf8_valid_utf8, encode_utf8_decode_utf8};
use crate::DecodeError;
use crate::addr::spec_addr_str;
use crate::cursor::{spec_u16_at, spec_u32_at, spec_text_at};
use crate::flags::{FieldId, FieldKind, field_bit, field_kind, spec_field_at, FIELD_COUNT};
use crate::list::{SpecServer, FieldVal, spec_new_server, spec_texts, spec_pairs_at,
    spec_read_field, set_field, spec_fields, spec_record, spec_records, spec_process};
use crate::text::text_of;

verus! {

/// A big-endian 16-bit integer.
pub open spec fn enc_u16(v: int) -> Seq<u8> {
    seq![((v / 0x100) % 0x100) as u8, (v % 0x100) as u8]
}

/// A big-endian 32-bit integer.
pub open spec fn enc_u32(v: int) -> Seq<u8> {
    enc_u16(v / 0x10000) + enc_u16(v % 0x10000)
}

/// A length-prefixed text: one length byte, then the UTF-8 bytes.
pub open spec fn enc_text(t: Seq<char>) -> Seq<u8> {
    seq![encode_utf8(t).len() as u8] + encode_utf8(t)
}

/// Length-prefixed texts, one after the other.
pub open spec fn enc_texts(ts: Seq<Seq<char>>) -> Seq<u8>
    decreases ts.len(),
{
    if ts.len() == 0 {
        Seq::empty()
    } else {
        enc_text(ts[0]) + enc_texts(ts.drop_first())
    }
}

/// Byte pairs, flattened in order.
pub open spec fn enc_pairs(ps: Seq<(u8, u8)>) -> Seq<u8>
    decreases ps.len(),
{
    if ps.len() == 0 {
        Seq::empty()
    } else {
        seq![ps[0].0, ps[0].1] + enc_pairs(ps.drop_first())
    }
}

/// Splitting one read range into two consecutive pieces.
proof fn lemma_split_at(d: Seq<u8>, off: int, a: Seq<u8>, b: Seq<u8>)
    requires
        0 <= off,
        off + a.len() + b.len() <= d.len(),
        d.subrange(off, off + a.len() + b.len()) == a + b,
    ensures
        d.subrange(off, off + a.len()) == a,
        d.subrange(off + a.len(), off + a.len() + b.len()) == b,
{
    let w = d.subrange(off, off + a.len() + b.len());
    assert forall|j: int| 0 <= j < a.len() implies d.subrange(off, off + a.len())[j] == a[j] by {
        assert(w[j] == (a + b)[j]);
    }
    assert(d.subrange(off, off + a.len()) =~= a);
    assert forall|j: int|
        0 <= j < b.len() implies d.subrange(off + a.len(), off + a.len() + b.len())[j] == b[j] by {
        assert(w[a.len() + j] == (a + b)[a.len() + j]);
    }
    assert(d.subrange(off + a.len(), off + a.len() + b.len()) =~= b);
}

/// Reading a 16-bit value back from its encoding.
proof fn lemma_read_u16(d: Seq<u8>, off: int, v: int)
    requires
        0 <= v < 0x10000,
        0 <= off,
        off + 2 <= d.len(),
        d.subrange(off, off + 2) == enc_u16(v),
    ensures
        spec_u16_at(d, off) == v,
{
    assert(d[off] == enc_u16(v)[0]);
    assert(d[off + 1] == enc_u16(v)[1]);
    lemma_fundamental_div_mod(v, 0x100);
    assert(v / 0x100 < 0x100);
    assert((v / 0x100) % 0x100 == v / 0x100) by {
        lemma_fundamental_div_mod(v / 0x100, 0x100);
    }
}

/// Reading a 32-bit value back from its encoding.
proof fn lemma_read_u32(d: Seq<u8>, off: int, v: int)
    requires
        0 <= v < 0x1_0000_0000,
        0 <= off,
        off + 4 <= d.len(),
        d.subrange(off, off + 4) == enc_u32(v),
    ensures
        spec_u32_at(d, off) == v,
{
    let hi = v / 0x10000;
    let lo = v % 0x10000;
    lemma_fundamental_div_mod(v, 0x10000);
    assert(0 <= lo < 0x10000);
    assert(0 <= hi < 0x10000);
    lemma_split_at(d, off, enc_u16(hi), enc_u16(lo));
    lemma_read_u16(d, off, hi);
    lemma_read_u16(d, off + 2, lo);
    assert(spec_u32_at(d, off) == spec_u16_at(d, off) * 0x10000 + spec_u16_at(d, off + 2));
}

/// Reading a text field back from its encoding.
proof fn lemma_read_text(d: Seq<u8>, off: int, t: Seq<char>)
    requires
        encode_utf8(t).len() <= 255,
        0 <= off,
        off + enc_text(t).len() <= d.len(),
        d.subrange(off, off + enc_text(t).len()) == enc_text(t),
    ensures
        spec_text_at(d, off) == Some((t, off + enc_text(t).len())),
{
    let e = encode_utf8(t);
    assert(d[off] == enc_text(t)[0]);
    assert(d[off] == e.len() as u8);
    lemma_split_at(d, off, seq![e.len() as u8], e);
    encode_utf8_valid_utf8(t);
    encode_utf8_decode_utf8(t);
    assert(text_of(d.subrange(off + 1, off + 1 + e.len())) == t);
}

/// Reading a run of text fields back from its encoding.
proof fn lemma_read_texts(d: Seq<u8>, off: int, ts: Seq<Seq<char>>)
    requires
        forall|k: int| 0 <= k < ts.len() ==> encode_utf8(#[trigger] ts[k]).len() <= 255,
        0 <= off,
        off + enc_texts(ts).len() <= d.len(),
        d.subrange(off, off + enc_texts(ts).len()) == enc_texts(ts),
    ensures
        spec_texts(d, off, ts.len() as int) == Some((ts, off + enc_texts(ts).len())),
    decreases ts.len(),
{
    if ts.len() == 0 {
        assert(spec_texts(d, off, 0) == Some((Seq::<Seq<char>>::empty(), off)));
        assert(ts =~= Seq::<Seq<char>>::empty());
    } else {
        let t0 = ts[0];
        let rest = ts.drop_first();
        let e0 = enc_text(t0);
        let erest = enc_texts(rest);
        assert(enc_texts(ts) == e0 + erest);
        lemma_split_at(d, off, e0, erest);
        assert(encode_utf8(ts[0]).len() <= 255);
        lemma_read_text(d, off, t0);
        assert(forall|k: int|
            0 <= k < rest.len() ==> encode_utf8(#[trigger] rest[k]).len() <= 255) by {
            assert(forall|k: int| 0 <= k < rest.len() ==> rest[k] == ts[k + 1]);
        }
        lemma_read_texts(d, off + e0.len(), rest);
        assert(seq![t0] + rest =~= ts);
    }
}

/// Reading a pair list body back from its encoding.
proof fn lemma_enc_pairs(ps: Seq<(u8, u8)>)
    ensures
        enc_pairs(ps).len() == 2 * ps.len(),
        forall|k: int|
            0 <= k < ps.len() ==> enc_pairs(ps)[2 * k] == (#[trigger] ps[k]).0 && enc_pairs(
                ps,
            )[2 * k + 1] == ps[k].1,
    decreases ps.len(),
{
    if ps.len() > 0 {
        let rest = ps.drop_first();
        lemma_enc_pairs(rest);
        assert forall|k: int| 0 <= k < ps.len() implies enc_pairs(ps)[2 * k] == (
        #[trigger] ps[k]).0 && enc_pairs(ps)[2 * k + 1] == ps[k].1 by {
            if k > 0 {
                assert(rest[k - 1] == ps[k]);
                assert(enc_pairs(ps)[2 * k] == enc_pairs(rest)[2 * (k - 1)]);
                assert(enc_pairs(ps)[2 * k + 1] == enc_pairs(rest)[2 * (k - 1) + 1]);
            }
        }
    }
}

} // verus!

verus! {

/// The value a record holds for one optional field, if any.
pub open spec fn get_field_val(r: SpecServer, id: FieldId) -> Option<FieldVal> {
    match id {
        FieldId::PlayerCount => match r.players {
            Some(v) => Some(FieldVal::Word(v)),
            None => None,
        },
        FieldId::MaxPlayerCount => match r.max_players {
            Some(v) => Some(FieldVal::Word(v)),
            None => None,
        },
        FieldId::GameName => match r.game_name {
            Some(t) => Some(FieldVal::Text(t)),
            None => None,
        },
        FieldId::ServerName => match r.server_name {
            Some(t) => Some(FieldVal::Text(t)),
            None => None,
        },
        FieldId::GameMode => match r.game_mode {
            Some(t) => Some(FieldVal::Text(t)),
            None => None,
        },
        FieldId::MapName => match r.map_name {
            Some(t) => Some(FieldVal::Text(t)),
            None => None,
        },
        FieldId::ServerVersion => match r.version {
            Some(t) => Some(FieldVal::Text(t)),
            None => None,
        },
        FieldId::PasswordedFlag => match r.passworded {
            Some(v) => Some(FieldVal::Byte(v)),
            None => None,
        },
        FieldId::SerialsFlag => match r.serials_enabled {
            Some(v) => Some(FieldVal::Byte(v)),
            None => None,
        },
        FieldId::PlayerList => match r.player_list {
            Some(ts) => Some(FieldVal::TextList(ts)),
            None => None,
        },
        FieldId::RespondingFlag => match r.responding {
            Some(v) => Some(FieldVal::Byte(v)),
            None => None,
        },
        FieldId::RestrictionFlags => match r.restriction_flags {
            Some(v) => Some(FieldVal::DWord(v)),
            None => None,
        },
        FieldId::SearchIgnoreSections => match r.search_ignore_ranges {
            Some(ps) => Some(FieldVal::Pairs(ps)),
            None => None,
        },
        FieldId::KeepFlag => match r.keep_alive {
            Some(v) => Some(FieldVal::Byte(v)),
            None => None,
        },
        FieldId::HttpPort => match r.http_port {
            Some(v) => Some(FieldVal::Word(v)),
            None => None,
        },
        FieldId::SpecialFlags => match r.special_flags {
            Some(v) => Some(FieldVal::Byte(v)),
            None => None,
        },
    }
}

/// A field value small enough for its wire layout: text fits one length
/// byte, a player list fits a 16-bit count, a range list a count byte.
pub open spec fn wf_field_val(v: FieldVal) -> bool {
    match v {
        FieldVal::Text(t) => encode_utf8(t).len() <= 255,
        FieldVal::TextList(ts) => ts.len() <= 0xFFFF && (forall|k: int|
            0 <= k < ts.len() ==> encode_utf8(#[trigger] ts[k]).len() <= 255),
        FieldVal::Pairs(ps) => ps.len() <= 255,
        _ => true,
    }
}

/// A dotted-decimal address string, as the decoder produces it.
pub open spec fn wf_addr(s: Seq<char>) -> bool {
    exists|q: (u8, u8, u8, u8)| s == spec_addr_str(q.0, q.1, q.2, q.3)
}

/// The octets of a dotted-decimal address string.
pub open spec fn addr_octets(s: Seq<char>) -> (u8, u8, u8, u8) {
    choose|q: (u8, u8, u8, u8)| s == spec_addr_str(q.0, q.1, q.2, q.3)
}

/// A record that one response with this bitmask could carry: the address
/// is dotted-decimal, each optional field is present exactly when its
/// flag bit is set, and every present field fits its wire layout.
pub open spec fn wf_record(r: SpecServer, flags: u32) -> bool {
    &&& wf_addr(r.address)
    &&& forall|id: FieldId|
        (#[trigger] get_field_val(r, id)) is Some <==> flags & field_bit(id) != 0
    &&& forall|id: FieldId|
        (#[trigger] get_field_val(r, id)) is Some ==> wf_field_val(get_field_val(r, id)->Some_0)
}

/// The wire image of one field value.
pub open spec fn enc_field_val(v: FieldVal) -> Seq<u8> {
    match v {
        FieldVal::Byte(b) => seq![b],
        FieldVal::Word(w) => enc_u16(w as int),
        FieldVal::DWord(x) => enc_u32(x as int),
        FieldVal::Text(t) => enc_text(t),
        FieldVal::TextList(ts) => enc_u16(ts.len() as int) + enc_texts(ts),
        FieldVal::Pairs(ps) => seq![ps.len() as u8] + enc_pairs(ps),
    }
}

/// The wire image of the flagged fields of a record, from table entry `i`
/// on, in table order.
pub open spec fn enc_fields(r: SpecServer, flags: u32, i: int) -> Seq<u8>
    decreases FIELD_COUNT - i,
{
    if i < 0 || i >= FIELD_COUNT {
        Seq::empty()
    } else {
        let id = spec_field_at(i);
        (if flags & field_bit(id) != 0 {
            enc_field_val(get_field_val(r, id)->Some_0)
        } else {
            Seq::empty()
        }) + enc_fields(r, flags, i + 1)
    }
}

/// A present field value always has the layout its table entry dictates.
proof fn lemma_val_kind(r: SpecServer, id: FieldId)
    requires
        get_field_val(r, id) is Some,
    ensures
        match get_field_val(r, id)->Some_0 {
            FieldVal::Byte(_) => field_kind(id) == FieldKind::Byte,
            FieldVal::Word(_) => field_kind(id) == FieldKind::Word,
            FieldVal::DWord(_) => field_kind(id) == FieldKind::DWord,
            FieldVal::Text(_) => field_kind(id) == FieldKind::Text,
            FieldVal::TextList(_) => field_kind(id) == FieldKind::TextList,
            FieldVal::Pairs(_) => field_kind(id) == FieldKind::PairList,
        },
{
}

/// Reading one encoded field back.
proof fn lemma_read_field(d: Seq<u8>, off: int, id: FieldId, v: FieldVal)
    requires
        wf_field_val(v),
        match v {
            FieldVal::Byte(_) => field_kind(id) == FieldKind::Byte,
            FieldVal::Word(_) => field_kind(id) == FieldKind::Word,
            FieldVal::DWord(_) => field_kind(id) == FieldKind::DWord,
            FieldVal::Text(_) => field_kind(id) == FieldKind::Text,
            FieldVal::TextList(_) => field_kind(id) == FieldKind::TextList,
            FieldVal::Pairs(_) => field_kind(id) == FieldKind::PairList,
        },
        0 <= off,
        off + enc_field_val(v).len() <= d.len(),
        d.subrange(off, off + enc_field_val(v).len()) == enc_field_val(v),
    ensures
        spec_read_field(d, off, id) == Some((v, off + enc_field_val(v).len())),
{
    match v {
        FieldVal::Byte(b) => {
            assert(d[off] == enc_field_val(v)[0]);
        },
        FieldVal::Word(w) => {
            lemma_read_u16(d, off, w as int);
        },
        FieldVal::DWord(x) => {
            lemma_read_u32(d, off, x as int);
        },
        FieldVal::Text(t) => {
            lemma_read_text(d, off, t);
        },
        FieldVal::TextList(ts) => {
            let n = ts.len() as int;
            lemma_split_at(d, off, enc_u16(n), enc_texts(ts));
            lemma_read_u16(d, off, n);
            lemma_read_texts(d, off + 2, ts);
        },
        FieldVal::Pairs(ps) => {
            let n = ps.len() as int;
            lemma_enc_pairs(ps);
            lemma_split_at(d, off, seq![ps.len() as u8], enc_pairs(ps));
            assert(d[off] == d.subrange(off, off + 1)[0]);
            assert(d[off] == ps.len() as u8);
            assert(spec_pairs_at(d, off) is Some);
            let got = spec_pairs_at(d, off)->Some_0.0;
            assert forall|k: int| 0 <= k < n implies got[k] == ps[k] by {
                assert(d[off + 1 + 2 * k] == enc_pairs(ps)[2 * k]);
                assert(d[off + 2 + 2 * k] == enc_pairs(ps)[2 * k + 1]);
            }
            assert(got =~= ps);
        },
    }
}

} // verus!

verus! {

/// Distinct table entries name distinct fields.
proof fn lemma_table_injective(j1: int, j2: int)
    requires
        0 <= j1 < FIELD_COUNT,
        0 <= j2 < FIELD_COUNT,
        j1 != j2,
    ensures
        spec_field_at(j1) != spec_field_at(j2),
{
}

/// Every field has a table entry.
proof fn lemma_table_covers(id: FieldId)
    ensures
        exists|j: int| 0 <= j < FIELD_COUNT && spec_field_at(j) == id,
{
    match id {
        FieldId::PlayerCount => {
            assert(spec_field_at(0) == id);
        },
        FieldId::MaxPlayerCount => {
            assert(spec_field_at(1) == id);
        },
        FieldId::GameName => {
            assert(spec_field_at(2) == id);
        },
        FieldId::ServerName => {
            assert(spec_field_at(3) == id);
        },
        FieldId::GameMode => {
            assert(spec_field_at(4) == id);
        },
        FieldId::MapName => {
            assert(spec_field_at(5) == id);
        },
        FieldId::ServerVersion => {
            assert(spec_field_at(6) == id);
        },
        FieldId::PasswordedFlag => {
            assert(spec_field_at(7) == id);
        },
        FieldId::SerialsFlag => {
            assert(spec_field_at(8) == id);
        },
        FieldId::PlayerList => {
            assert(spec_field_at(9) == id);
        },
        FieldId::RespondingFlag => {
            assert(spec_field_at(10) == id);
        },
        FieldId::RestrictionFlags => {
            assert(spec_field_at(11) == id);
        },
        FieldId::SearchIgnoreSections => {
            assert(spec_field_at(12) == id);
        },
        FieldId::KeepFlag => {
            assert(spec_field_at(13) == id);
        },
        FieldId::HttpPort => {
            assert(spec_field_at(14) == id);
        },
        FieldId::SpecialFlags => {
            assert(spec_field_at(15) == id);
        },
    }
}

/// Setting a field stores exactly that value and touches nothing else.
proof fn lemma_set_get(r: SpecServer, id: FieldId, v: FieldVal)
    requires
        match v {
            FieldVal::Byte(_) => field_kind(id) == FieldKind::Byte,
            FieldVal::Word(_) => field_kind(id) == FieldKind::Word,
            FieldVal::DWord(_) => field_kind(id) == FieldKind::DWord,
            FieldVal::Text(_) => field_kind(id) == FieldKind::Text,
            FieldVal::TextList(_) => field_kind(id) == FieldKind::TextList,
            FieldVal::Pairs(_) => field_kind(id) == FieldKind::PairList,
        },
    ensures
        get_field_val(set_field(r, id, v), id) == Some(v),
        forall|id2: FieldId|
            id2 != id ==> #[trigger] get_field_val(set_field(r, id, v), id2) == get_field_val(
                r,
                id2,
            ),
        set_field(r, id, v).address == r.address,
        set_field(r, id, v).port == r.port,
{
}

/// Two records with the same address, port and optional fields are the
/// same record.
proof fn lemma_record_ext(a: SpecServer, b: SpecServer)
    requires
        a.address == b.address,
        a.port == b.port,
        forall|id: FieldId| #[trigger] get_field_val(a, id) == get_field_val(b, id),
    ensures
        a == b,
{
    assert(get_field_val(a, FieldId::PlayerCount) == get_field_val(b, FieldId::PlayerCount));
    assert(get_field_val(a, FieldId::MaxPlayerCount) == get_field_val(b, FieldId::MaxPlayerCount));
    assert(get_field_val(a, FieldId::GameName) == get_field_val(b, FieldId::GameName));
    assert(get_field_val(a, FieldId::ServerName) == get_field_val(b, FieldId::ServerName));
    assert(get_field_val(a, FieldId::GameMode) == get_field_val(b, FieldId::GameMode));
    assert(get_field_val(a, FieldId::MapName) == get_field_val(b, FieldId::MapName));
    assert(get_field_val(a, FieldId::ServerVersion) == get_field_val(b, FieldId::ServerVersion));
    assert(get_field_val(a, FieldId::PasswordedFlag) == get_field_val(b, FieldId::PasswordedFlag));
    assert(get_field_val(a, FieldId::SerialsFlag) == get_field_val(b, FieldId::SerialsFlag));
    assert(get_field_val(a, FieldId::PlayerList) == get_field_val(b, FieldId::PlayerList));
    assert(get_field_val(a, FieldId::RespondingFlag) == get_field_val(b, FieldId::RespondingFlag));
    assert(get_field_val(a, FieldId::RestrictionFlags) == get_field_val(
        b,
        FieldId::RestrictionFlags,
    ));
    assert(get_field_val(a, FieldId::SearchIgnoreSections) == get_field_val(
        b,
        FieldId::SearchIgnoreSections,
    ));
    assert(get_field_val(a, FieldId::KeepFlag) == get_field_val(b, FieldId::KeepFlag));
    assert(get_field_val(a, FieldId::HttpPort) == get_field_val(b, FieldId::HttpPort));
    assert(get_field_val(a, FieldId::SpecialFlags) == get_field_val(b, FieldId::SpecialFlags));
    assert(a =~= b);
}

/// `acc` matches `r` everywhere except that the flagged fields at table
/// positions `i` and beyond are still unset.
spec fn pending_from(acc: SpecServer, r: SpecServer, flags: u32, i: int) -> bool {
    &&& acc.address == r.address
    &&& acc.port == r.port
    &&& forall|j: int|
        0 <= j < FIELD_COUNT ==> #[trigger] get_field_val(acc, spec_field_at(j)) == (if j >= i
            && flags & field_bit(spec_field_at(j)) != 0 {
            None::<FieldVal>
        } else {
            get_field_val(r, spec_field_at(j))
        })
}

/// Walking the encoded fields from table entry `i` fills in exactly the
/// still-unset flagged fields and lands at the end of the encoding.
proof fn lemma_fields_round_trip(
    d: Seq<u8>,
    off: int,
    flags: u32,
    r: SpecServer,
    acc: SpecServer,
    i: int,
)
    requires
        0 <= i <= FIELD_COUNT,
        wf_record(r, flags),
        pending_from(acc, r, flags, i),
        0 <= off,
        off + enc_fields(r, flags, i).len() <= d.len(),
        d.subrange(off, off + enc_fields(r, flags, i).len()) == enc_fields(r, flags, i),
    ensures
        spec_fields(d, off, flags, acc, i) == Some((r, off + enc_fields(r, flags, i).len())),
    decreases FIELD_COUNT - i,
{
    if i == FIELD_COUNT {
        assert forall|id: FieldId| #[trigger] get_field_val(acc, id) == get_field_val(r, id) by {
            lemma_table_covers(id);
            let j = choose|j: int| 0 <= j < FIELD_COUNT && spec_field_at(j) == id;
            assert(get_field_val(acc, spec_field_at(j)) == get_field_val(r, spec_field_at(j)));
        }
        lemma_record_ext(acc, r);
    } else {
        let id = spec_field_at(i);
        if flags & field_bit(id) == 0 {
            assert(enc_fields(r, flags, i) =~= enc_fields(r, flags, i + 1));
            assert forall|j: int|
                0 <= j < FIELD_COUNT implies #[trigger] get_field_val(acc, spec_field_at(j)) == (if
            j >= i + 1 && flags & field_bit(spec_field_at(j)) != 0 {
                None::<FieldVal>
            } else {
                get_field_val(r, spec_field_at(j))
            }) by {
                if j == i {
                    assert(flags & field_bit(spec_field_at(j)) == 0);
                }
            }
            lemma_fields_round_trip(d, off, flags, r, acc, i + 1);
        } else {
            assert(get_field_val(r, id) is Some);
            let v = get_field_val(r, id)->Some_0;
            let ev = enc_field_val(v);
            let erest = enc_fields(r, flags, i + 1);
            assert(enc_fields(r, flags, i) == ev + erest);
            lemma_split_at(d, off, ev, erest);
            lemma_val_kind(r, id);
            assert(wf_field_val(v));
            lemma_read_field(d, off, id, v);
            let acc2 = set_field(acc, id, v);
            lemma_set_get(acc, id, v);
            assert forall|j: int|
                0 <= j < FIELD_COUNT implies #[trigger] get_field_val(acc2, spec_field_at(j)) == (
            if j >= i + 1 && flags & field_bit(spec_field_at(j)) != 0 {
                None::<FieldVal>
            } else {
                get_field_val(r, spec_field_at(j))
            }) by {
                if spec_field_at(j) == id {
                    if j != i {
                        lemma_table_injective(i, j);
                    }
                    assert(get_field_val(acc2, id) == Some(v));
                } else {
                    assert(get_field_val(acc2, spec_field_at(j)) == get_field_val(
                        acc,
                        spec_field_at(j),
                    ));
                }
            }
            lemma_fields_round_trip(d, off + ev.len(), flags, r, acc2, i + 1);
        }
    }
}

} // verus!

verus! {

/// The wire image of one record: the declared entry length (which counts
/// itself), the address octets reversed, the port, the flagged fields in
/// table order, and then `trail` — bytes the decoder does not know about
/// but the entry length accounts for.
pub open spec fn enc_record(r: SpecServer, flags: u32, trail: Seq<u8>) -> Seq<u8> {
    let q = addr_octets(r.address);
    let body = seq![q.3, q.2, q.1, q.0] + enc_u16(r.port as int) + enc_fields(r, flags, 0) + trail;
    enc_u16(body.len() as int + 2) + body
}

/// The wire image of a record list.
pub open spec fn enc_records(rs: Seq<SpecServer>, flags: u32, trails: Seq<Seq<u8>>) -> Seq<u8>
    decreases rs.len(),
{
    if rs.len() == 0 {
        Seq::empty()
    } else {
        enc_record(rs[0], flags, trails[0]) + enc_records(rs.drop_first(), flags, trails.drop_first())
    }
}

/// The wire image of a whole master-list response.  The total length,
/// protocol version and sequence number may be anything: the decoder
/// ignores them.
pub open spec fn enc_response(
    length_field: u16,
    version: u16,
    sequence: u32,
    flags: u32,
    rs: Seq<SpecServer>,
    trails: Seq<Seq<u8>>,
) -> Seq<u8> {
    enc_u16(length_field as int) + enc_u16(version as int) + enc_u32(flags as int) + enc_u32(
        sequence as int,
    ) + enc_u32(rs.len() as int) + enc_records(rs, flags, trails)
}

/// Reading one encoded record back: the decoder lands exactly past the
/// record's declared length, whatever trailing bytes it carries.
proof fn lemma_record_round_trip(d: Seq<u8>, off: int, flags: u32, r: SpecServer, trail: Seq<u8>)
    requires
        wf_record(r, flags),
        0 <= off,
        off + enc_record(r, flags, trail).len() <= d.len(),
        enc_record(r, flags, trail).len() <= 0xFFFF,
        d.subrange(off, off + enc_record(r, flags, trail).len()) == enc_record(r, flags, trail),
    ensures
        spec_record(d, off, flags) == Ok::<(SpecServer, int), DecodeError>(
            (r, off + enc_record(r, flags, trail).len()),
        ),
{
    let q = addr_octets(r.address);
    assert(r.address == spec_addr_str(q.0, q.1, q.2, q.3));
    let fl = enc_fields(r, flags, 0);
    let body = seq![q.3, q.2, q.1, q.0] + enc_u16(r.port as int) + fl + trail;
    let entry = body.len() as int + 2;
    assert(enc_record(r, flags, trail) == enc_u16(entry) + body);
    lemma_split_at(d, off, enc_u16(entry), body);
    lemma_read_u16(d, off, entry);
    assert(body =~= (seq![q.3, q.2, q.1, q.0] + enc_u16(r.port as int)) + (fl + trail));
    lemma_split_at(
        d,
        off + 2,
        seq![q.3, q.2, q.1, q.0] + enc_u16(r.port as int),
        fl + trail,
    );
    lemma_split_at(d, off + 2, seq![q.3, q.2, q.1, q.0], enc_u16(r.port as int));
    lemma_split_at(d, off + 8, fl, trail);
    lemma_read_u16(d, off + 6, r.port as int);
    assert(d[off + 2] == d.subrange(off + 2, off + 6)[0]);
    assert(d[off + 3] == d.subrange(off + 2, off + 6)[1]);
    assert(d[off + 4] == d.subrange(off + 2, off + 6)[2]);
    assert(d[off + 5] == d.subrange(off + 2, off + 6)[3]);
    assert(d[off + 2] == q.3 && d[off + 3] == q.2 && d[off + 4] == q.1 && d[off + 5] == q.0);
    let base = SpecServer {
        address: spec_addr_str(d[off + 5], d[off + 4], d[off + 3], d[off + 2]),
        port: spec_u16_at(d, off + 6) as u16,
        ..spec_new_server()
    };
    assert(base.address == r.address);
    assert(base.port == r.port);
    assert forall|j: int|
        0 <= j < FIELD_COUNT implies #[trigger] get_field_val(base, spec_field_at(j)) == (if j >= 0
        && flags & field_bit(spec_field_at(j)) != 0 {
        None::<FieldVal>
    } else {
        get_field_val(r, spec_field_at(j))
    }) by {
        assert(get_field_val(base, spec_field_at(j)) is None);
        if flags & field_bit(spec_field_at(j)) == 0 {
            assert(!(get_field_val(r, spec_field_at(j)) is Some));
        }
    }
    lemma_fields_round_trip(d, off + 8, flags, r, base, 0);
}

/// Reading an encoded record list back.
proof fn lemma_records_round_trip(
    d: Seq<u8>,
    off: int,
    flags: u32,
    rs: Seq<SpecServer>,
    trails: Seq<Seq<u8>>,
)
    requires
        rs.len() == trails.len(),
        forall|k: int| 0 <= k < rs.len() ==> wf_record(#[trigger] rs[k], flags),
        forall|k: int|
            0 <= k < rs.len() ==> enc_record(#[trigger] rs[k], flags, trails[k]).len() <= 0xFFFF,
        0 <= off,
        off + enc_records(rs, flags, trails).len() <= d.len(),
        d.subrange(off, off + enc_records(rs, flags, trails).len()) == enc_records(
            rs,
            flags,
            trails,
        ),
    ensures
        spec_records(d, off, flags, rs.len() as int) == Ok::<Seq<SpecServer>, DecodeError>(rs),
    decreases rs.len(),
{
    if rs.len() == 0 {
        assert(rs =~= Seq::<SpecServer>::empty());
    } else {
        let e0 = enc_record(rs[0], flags, trails[0]);
        let rrest = rs.drop_first();
        let trest = trails.drop_first();
        let erest = enc_records(rrest, flags, trest);
        assert(enc_records(rs, flags, trails) == e0 + erest);
        lemma_split_at(d, off, e0, erest);
        assert(wf_record(rs[0], flags));
        assert(e0.len() <= 0xFFFF);
        lemma_record_round_trip(d, off, flags, rs[0], trails[0]);
        assert(forall|k: int| 0 <= k < rrest.len() ==> rrest[k] == rs[k + 1]);
        assert(forall|k: int| 0 <= k < trest.len() ==> trest[k] == trails[k + 1]);
        assert forall|k: int| 0 <= k < rrest.len() implies wf_record(#[trigger] rrest[k], flags)
            && enc_record(rrest[k], flags, trest[k]).len() <= 0xFFFF by {
            assert(rrest[k] == rs[k + 1]);
            assert(trest[k] == trails[k + 1]);
        }
        lemma_records_round_trip(d, off + e0.len(), flags, rrest, trest);
        assert(seq![rs[0]] + rrest =~= rs);
    }
}

/// Decoding inverts encoding, record for record and field for field.
///
/// Any record list that one response could carry — every record shaped by
/// the same flag bitmask, every present field within its wire limits —
/// decodes from its own wire image to exactly itself: same count, same
/// addresses, ports and optional fields.  The header's total length,
/// protocol version and sequence number may hold anything.  Each record
/// may carry any run of unknown trailing bytes counted by its declared
/// entry length: the decoder resynchronizes on that length, so the
/// trailing bytes change nothing — with every `trails` entry empty this is
/// the plain encode/decode round trip.
pub proof fn lemma_master_list_round_trip(
    length_field: u16,
    version: u16,
    sequence: u32,
    flags: u32,
    rs: Seq<SpecServer>,
    trails: Seq<Seq<u8>>,
)
    requires
        rs.len() == trails.len(),
        rs.len() <= u32::MAX,
        forall|k: int| 0 <= k < rs.len() ==> wf_record(#[trigger] rs[k], flags),
        forall|k: int|
            0 <= k < rs.len() ==> enc_record(#[trigger] rs[k], flags, trails[k]).len() <= 0xFFFF,
    ensures
        spec_process(enc_response(length_field, version, sequence, flags, rs, trails)) == Ok::<
            Seq<SpecServer>,
            DecodeError,
        >(rs),
{
    let d = enc_response(length_field, version, sequence, flags, rs, trails);
    let body = enc_records(rs, flags, trails);
    assert(d.len() == 16 + body.len());
    assert(d.subrange(4, 8) =~= enc_u32(flags as int));
    assert(d.subrange(12, 16) =~= enc_u32(rs.len() as int));
    assert(d.subrange(16, 16 + body.len() as int) =~= body);
    lemma_read_u32(d, 4, flags as int);
    lemma_read_u32(d, 12, rs.len() as int);
    lemma_records_round_trip(d, 16, flags, rs, trails);
}

} // verus!
