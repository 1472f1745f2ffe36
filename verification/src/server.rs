//! The live single-server query decoder.
//!
//! One query sends a single request byte and receives one datagram back.
//! Every zero byte of the raw response is padding and is stripped first;
//! after an 8-byte preamble the compact response holds exactly eight text
//! fields in fixed order, each prefixed by a length byte that counts
//! itself.  The socket work stays with the caller; this module turns the
//! raw response bytes into a `Server`, or `None` when the response is too
//! short or a field is cut off.

use vstd::prelude::*;
use vstd::string::StringExecFns;
use crate::cursor::get_bytes;
use crate::text::{text_of, lossy_string};

verus! {

/// The fixed-shape result of one live query.
#[derive(Debug, PartialEq)]
pub struct Server {
    pub port: String,
    pub name: String,
    pub gamemode: String,
    pub map: String,
    pub version: String,
    pub passworded: String,
    pub playercount: String,
    pub maxplayers: String,
    pub ip: String,
}

/// The mathematical shape of a live query result.
#[verifier::ext_equal]
pub struct SpecLiveInfo {
    pub port: Seq<char>,
    pub name: Seq<char>,
    pub gamemode: Seq<char>,
    pub map: Seq<char>,
    pub version: Seq<char>,
    pub passworded: Seq<char>,
    pub playercount: Seq<char>,
    pub maxplayers: Seq<char>,
    pub ip: Seq<char>,
}

impl View for Server {
    type V = SpecLiveInfo;

    open spec fn view(&self) -> SpecLiveInfo {
        SpecLiveInfo {
            port: self.port@,
            name: self.name@,
            gamemode: self.gamemode@,
            map: self.map@,
            version: self.version@,
            passworded: self.passworded@,
            playercount: self.playercount@,
            maxplayers: self.maxplayers@,
            ip: self.ip@,
        }
    }
}

/// The response bytes with every zero byte removed.
pub open spec fn spec_strip_zeros(b: Seq<u8>) -> Seq<u8> {
    b.filter(|x: u8| x != 0)
}

/// One field of the compact response at `off`: a length byte that counts
/// itself, then that many minus one payload bytes read as text.
pub open spec fn spec_live_field(d: Seq<u8>, off: int) -> Option<(Seq<char>, int)> {
    if off + 1 > d.len() {
        None
    } else {
        let l = d[off] as int;
        if l < 1 {
            None
        } else if off + l > d.len() {
            None
        } else {
            Some((text_of(d.subrange(off + 1, off + l)), off + l))
        }
    }
}

/// `n` consecutive fields of the compact response starting at `off`.
pub open spec fn spec_live_texts(d: Seq<u8>, off: int, n: int) -> Option<(Seq<Seq<char>>, int)>
    decreases n,
{
    if n <= 0 {
        Some((Seq::empty(), off))
    } else {
        match spec_live_field(d, off) {
            None => None,
            Some((t, o2)) => match spec_live_texts(d, o2, n - 1) {
                None => None,
                Some((ts, o3)) => Some((seq![t] + ts, o3)),
            },
        }
    }
}

/// The eight fields of a compact (already zero-stripped) response, after
/// its 8-byte preamble.
pub open spec fn spec_query_fields(d: Seq<u8>) -> Option<Seq<Seq<char>>> {
    if d.len() < 8 {
        None
    } else {
        match spec_live_texts(d, 8, 8) {
            None => None,
            Some((ts, _end)) => Some(ts),
        }
    }
}

/// What a raw query response decodes to for a server at `ip`.
pub open spec fn spec_get_info(ip: Seq<char>, raw: Seq<u8>) -> Option<SpecLiveInfo> {
    match spec_query_fields(spec_strip_zeros(raw)) {
        None => None,
        Some(ts) => Some(
            SpecLiveInfo {
                port: ts[0],
                name: ts[1],
                gamemode: ts[2],
                map: ts[3],
                version: ts[4],
                passworded: ts[5],
                playercount: ts[6],
                maxplayers: ts[7],
                ip: ip,
            },
        ),
    }
}

/// Removes every zero byte of the raw response, keeping the rest in order.
pub fn strip_zeros(raw: &[u8]) -> (r: Vec<u8>)
    ensures
        r@ == spec_strip_zeros(raw@),
{
    let mut kept: Vec<u8> = Vec::new();
    let mut i: usize = 0;
    while i < raw.len()
        invariant
            i <= raw.len(),
            kept@ =~= raw@.take(i as int).filter(|x: u8| x != 0),
        decreases raw.len() - i,
    {
        let b = raw[i];
        if b != 0 {
            kept.push(b);
        }
        proof {
            reveal_with_fuel(Seq::<_>::filter, 2);
            assert(raw@.take(i + 1).drop_last() =~= raw@.take(i as int));
            assert(raw@.take(i + 1).last() == raw@[i as int]);
            assert(kept@ =~= raw@.take(i + 1).filter(|x: u8| x != 0));
        }
        i += 1;
    }
    proof {
        assert(raw@.take(raw@.len() as int) =~= raw@);
    }
    kept
}

/// Reads one field of the compact response.  On success `start` and `end`
/// land just past the field and `length` holds the payload length; on
/// failure nothing moves.
pub fn process(buf: &[u8], start: &mut usize, end: &mut usize, length: &mut usize) -> (r: Option<
    String,
>)
    ensures
        match r {
            Some(s) => {
                &&& spec_live_field(buf@, *old(start) as int) is Some
                &&& s@ == spec_live_field(buf@, *old(start) as int)->Some_0.0
                &&& *final(start) == spec_live_field(buf@, *old(start) as int)->Some_0.1
                &&& *final(end) == *final(start)
                &&& *final(length) + 1 == buf@[*old(start) as int]
            },
            None => {
                &&& spec_live_field(buf@, *old(start) as int) is None
                &&& *final(start) == *old(start)
                &&& *final(end) == *old(end)
                &&& *final(length) == *old(length)
            },
        },
{
    if *start >= buf.len() {
        return None;
    }
    let l = buf[*start] as usize;
    if l < 1 {
        return None;
    }
    if l > buf.len() - *start {
        return None;
    }
    let mut probe: usize = *start + 1;
    let raw = match get_bytes(buf, &mut probe, l - 1) {
        Some(v) => v,
        None => {
            return None;
        },
    };
    *length = l - 1;
    *start = probe;
    *end = probe;
    Some(lossy_string(raw.as_slice()))
}

/// Decodes one raw live-query response for the server at `ip`.
///
/// The zero bytes are stripped, the 8-byte preamble skipped, and the eight
/// fields read in their fixed order.  `None` exactly when the compact
/// response is shorter than its preamble or ends inside a field; malformed
/// text never fails.
pub fn get_info(ip: &str, response: &[u8]) -> (r: Option<Server>)
    ensures
        match r {
            Some(s) => spec_get_info(ip@, response@) == Some(s@),
            None => spec_get_info(ip@, response@) is None,
        },
{
    let data = strip_zeros(response);
    let ghost d = data@;
    if data.len() < 8 {
        return None;
    }
    let mut start: usize = 8;
    let mut end: usize = 0;
    let mut length: usize = 0;
    let mut texts: Vec<String> = Vec::new();
    let mut i: usize = 0;
    while i < 8
        invariant
            i <= 8,
            texts@.len() == i,
            d == data@,
            d == spec_strip_zeros(response@),
            d.len() >= 8,
            spec_live_texts(d, 8, 8) == match spec_live_texts(d, start as int, 8 - i) {
                Some((ts, o)) => Some::<(Seq<Seq<char>>, int)>((texts.deep_view() + ts, o)),
                None => None::<(Seq<Seq<char>>, int)>,
            },
        decreases 8 - i,
    {
        let ghost off_prev = start as int;
        let ghost texts_prev = texts.deep_view();
        let t = match process(data.as_slice(), &mut start, &mut end, &mut length) {
            Some(t) => t,
            None => {
                proof {
                    assert(spec_live_texts(d, off_prev, 8 - i) is None);
                }
                return None;
            },
        };
        texts.push(t);
        proof {
            assert(texts.deep_view() =~= texts_prev.push(t@));
            assert(spec_live_texts(d, off_prev, 8 - i) == match spec_live_texts(
                d,
                start as int,
                8 - i - 1,
            ) {
                Some((ts, o)) => Some::<(Seq<Seq<char>>, int)>((seq![t@] + ts, o)),
                None => None::<(Seq<Seq<char>>, int)>,
            });
            if spec_live_texts(d, start as int, 8 - i - 1) is Some {
                let (ts, o) = spec_live_texts(d, start as int, 8 - i - 1)->Some_0;
                assert(texts_prev + (seq![t@] + ts) =~= texts.deep_view() + ts);
            }
        }
        i += 1;
    }
    proof {
        assert(spec_live_texts(d, start as int, 0) == Some::<(Seq<Seq<char>>, int)>(
            (Seq::empty(), start as int),
        ));
        assert(texts.deep_view() + Seq::<Seq<char>>::empty() =~= texts.deep_view());
        assert(spec_query_fields(d) == Some(texts.deep_view()));
    }
    let r = Server {
        port: texts[0].clone(),
        name: texts[1].clone(),
        gamemode: texts[2].clone(),
        map: texts[3].clone(),
        version: texts[4].clone(),
        passworded: texts[5].clone(),
        playercount: texts[6].clone(),
        maxplayers: texts[7].clone(),
        ip: ip.to_owned(),
    };
    proof {
        assert(spec_get_info(ip@, response@) == Some(r@));
    }
    Some(r)
}

/// Decodes one raw live-query response that is known to be well formed:
/// the variant for callers that have already checked the response and
/// want the record itself.
pub fn get_server_info(ip: &str, response: &[u8]) -> (r: Server)
    requires
        spec_get_info(ip@, response@) is Some,
    ensures
        Some(r@) == spec_get_info(ip@, response@),
{
    match get_info(ip, response) {
        Some(s) => s,
        None => vstd::pervasive::unreached(),
    }
}

} // verus!
