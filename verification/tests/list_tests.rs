use mtasa_masterlist::DecodeError;
use mtasa_masterlist::list::process;

fn push_u16(out: &mut Vec<u8>, v: u16) {
    out.push((v >> 8) as u8);
    out.push((v & 0xFF) as u8);
}

fn push_u32(out: &mut Vec<u8>, v: u32) {
    out.push((v >> 24) as u8);
    out.push((v >> 16) as u8);
    out.push((v >> 8) as u8);
    out.push((v & 0xFF) as u8);
}

fn push_text(out: &mut Vec<u8>, s: &str) {
    out.push(s.len() as u8);
    out.extend_from_slice(s.as_bytes());
}

/// One record: the entry length (counting itself) is computed from the body.
fn record(body: &[u8]) -> Vec<u8> {
    let mut out = Vec::new();
    push_u16(&mut out, (body.len() + 2) as u16);
    out.extend_from_slice(body);
    out
}

fn response(flags: u32, records: &[Vec<u8>]) -> Vec<u8> {
    let mut out = Vec::new();
    push_u16(&mut out, 0); // total length: ignored by the decoder
    push_u16(&mut out, 2); // protocol version: ignored by the decoder
    push_u32(&mut out, flags);
    push_u32(&mut out, 7); // sequence number: ignored by the decoder
    push_u32(&mut out, records.len() as u32);
    for r in records {
        out.extend_from_slice(r);
    }
    out
}

#[test]
fn empty_count_gives_empty_list() {
    let body = response(0, &[]);
    let servers = process(&body).unwrap();
    assert_eq!(servers.len(), 0);
}

#[test]
fn truncated_header_is_error() {
    let body = vec![0u8; 10];
    assert_eq!(process(&body), Err(DecodeError::Truncated));
}

#[test]
fn address_bytes_are_reversed() {
    // Wire bytes [1, 2, 3, 4] must come out as "4.3.2.1".
    let mut rec = Vec::new();
    rec.extend_from_slice(&[1, 2, 3, 4]);
    push_u16(&mut rec, 7777);
    let body = response(0, &[record(&rec)]);
    let servers = process(&body).unwrap();
    assert_eq!(servers.len(), 1);
    assert_eq!(servers[0].address, "4.3.2.1");
    assert_eq!(servers[0].port, 7777);
    assert_eq!(servers[0].players, None);
    assert_eq!(servers[0].server_name, None);
}

#[test]
fn example_end_to_end() {
    // count = 1, flags = player_count | server_name, address 10.0.0.5
    // reversed on the wire, port 22003, players 4, name "Test Server".
    let flags = 0x0004 | 0x0020;
    let mut rec = Vec::new();
    rec.extend_from_slice(&[5, 0, 0, 10]);
    push_u16(&mut rec, 22003);
    push_u16(&mut rec, 4);
    push_text(&mut rec, "Test Server");
    let body = response(flags, &[record(&rec)]);
    let servers = process(&body).unwrap();
    assert_eq!(servers.len(), 1);
    let s = &servers[0];
    assert_eq!(s.address, "10.0.0.5");
    assert_eq!(s.port, 22003);
    assert_eq!(s.players, Some(4));
    assert_eq!(s.server_name.as_deref(), Some("Test Server"));
    assert_eq!(s.max_players, None);
    assert_eq!(s.game_name, None);
    assert_eq!(s.game_mode, None);
    assert_eq!(s.map_name, None);
    assert_eq!(s.version, None);
    assert_eq!(s.passworded, None);
    assert_eq!(s.serials_enabled, None);
    assert_eq!(s.player_list, None);
    assert_eq!(s.responding, None);
    assert_eq!(s.restriction_flags, None);
    assert_eq!(s.search_ignore_ranges, None);
    assert_eq!(s.keep_alive, None);
    assert_eq!(s.http_port, None);
    assert_eq!(s.special_flags, None);
}

#[test]
fn trailing_bytes_resynchronize() {
    // Each record carries one unknown trailing byte counted by its entry
    // length; every subsequent record must still decode correctly.
    let flags = 0x0004;
    let mut rec1 = Vec::new();
    rec1.extend_from_slice(&[1, 0, 0, 10]);
    push_u16(&mut rec1, 1111);
    push_u16(&mut rec1, 7);
    rec1.push(0xAA); // unknown trailing byte
    let mut rec2 = Vec::new();
    rec2.extend_from_slice(&[2, 0, 0, 10]);
    push_u16(&mut rec2, 2222);
    push_u16(&mut rec2, 9);
    rec2.push(0xBB); // unknown trailing byte
    let body = response(flags, &[record(&rec1), record(&rec2)]);
    let servers = process(&body).unwrap();
    assert_eq!(servers.len(), 2);
    assert_eq!(servers[0].address, "10.0.0.1");
    assert_eq!(servers[0].port, 1111);
    assert_eq!(servers[0].players, Some(7));
    assert_eq!(servers[1].address, "10.0.0.2");
    assert_eq!(servers[1].port, 2222);
    assert_eq!(servers[1].players, Some(9));
}

#[test]
fn round_trip_every_field() {
    // Encode a record with every optional field present, decode it, and
    // check each field comes back identical.
    let flags = 0x0004 | 0x0008 | 0x0010 | 0x0020 | 0x0040 | 0x0080 | 0x0100 | 0x0200 | 0x0400
        | 0x0800 | 0x1000 | 0x2000 | 0x4000 | 0x8000 | 0x080000 | 0x100000;
    let mut rec = Vec::new();
    rec.extend_from_slice(&[4, 3, 2, 1]);
    push_u16(&mut rec, 22003);
    push_u16(&mut rec, 4); // players
    push_u16(&mut rec, 32); // max_players
    push_text(&mut rec, "mta"); // game_name
    push_text(&mut rec, "Test Server"); // server_name
    push_text(&mut rec, "race"); // game_mode
    push_text(&mut rec, "docks"); // map_name
    push_text(&mut rec, "1.6"); // version
    rec.push(1); // passworded
    rec.push(0); // serials_enabled
    push_u16(&mut rec, 2); // player count
    push_text(&mut rec, "ann");
    push_text(&mut rec, "bo");
    rec.push(1); // responding
    push_u32(&mut rec, 0xDEADBEEF); // restriction_flags
    rec.push(2); // range count
    rec.extend_from_slice(&[1, 2, 3, 4]); // two (offset, length) pairs
    rec.push(1); // keep_alive
    push_u16(&mut rec, 8080); // http_port
    rec.push(7); // special_flags
    let body = response(flags, &[record(&rec)]);
    let servers = process(&body).unwrap();
    assert_eq!(servers.len(), 1);
    let s = &servers[0];
    assert_eq!(s.address, "1.2.3.4");
    assert_eq!(s.port, 22003);
    assert_eq!(s.players, Some(4));
    assert_eq!(s.max_players, Some(32));
    assert_eq!(s.game_name.as_deref(), Some("mta"));
    assert_eq!(s.server_name.as_deref(), Some("Test Server"));
    assert_eq!(s.game_mode.as_deref(), Some("race"));
    assert_eq!(s.map_name.as_deref(), Some("docks"));
    assert_eq!(s.version.as_deref(), Some("1.6"));
    assert_eq!(s.passworded, Some(1));
    assert_eq!(s.serials_enabled, Some(0));
    assert_eq!(s.player_list, Some(vec!["ann".to_string(), "bo".to_string()]));
    assert_eq!(s.responding, Some(1));
    assert_eq!(s.restriction_flags, Some(0xDEADBEEF));
    assert_eq!(s.search_ignore_ranges, Some(vec![(1, 2), (3, 4)]));
    assert_eq!(s.keep_alive, Some(1));
    assert_eq!(s.http_port, Some(8080));
    assert_eq!(s.special_flags, Some(7));
}

#[test]
fn decoding_is_deterministic() {
    let flags = 0x0004 | 0x0020;
    let mut rec = Vec::new();
    rec.extend_from_slice(&[5, 0, 0, 10]);
    push_u16(&mut rec, 22003);
    push_u16(&mut rec, 4);
    push_text(&mut rec, "Test Server");
    let body = response(flags, &[record(&rec)]);
    let first = process(&body).unwrap();
    let second = process(&body).unwrap();
    assert_eq!(first, second);
}

#[test]
fn entry_length_below_two_is_error() {
    let mut body = response(0, &[]);
    // Patch the count to 1 and append a record declaring entry length 1.
    body[15] = 1;
    push_u16(&mut body, 1);
    body.extend_from_slice(&[1, 2, 3, 4]);
    push_u16(&mut body, 7777);
    assert_eq!(process(&body), Err(DecodeError::InvalidEntryLength));
}

#[test]
fn truncated_record_is_error() {
    // The record declares a name field but the buffer ends inside it.
    let flags = 0x0020;
    let mut rec = Vec::new();
    rec.extend_from_slice(&[1, 2, 3, 4]);
    push_u16(&mut rec, 7777);
    rec.push(11); // text length prefix, but only 3 payload bytes follow
    rec.extend_from_slice(b"Tes");
    let body = response(flags, &[record(&rec)]);
    assert_eq!(process(&body), Err(DecodeError::Truncated));
}

#[test]
fn no_partial_results_on_late_error() {
    // The first record is fine; the second is truncated.  The whole
    // decode fails rather than returning the first record alone.
    let flags = 0x0004;
    let mut rec1 = Vec::new();
    rec1.extend_from_slice(&[1, 0, 0, 10]);
    push_u16(&mut rec1, 1111);
    push_u16(&mut rec1, 7);
    let mut body = response(flags, &[record(&rec1)]);
    body[15] = 2; // claim a second record that is not there
    assert_eq!(process(&body), Err(DecodeError::Truncated));
}

#[test]
fn malformed_utf8_text_still_decodes() {
    // A lone continuation byte in the name must not fail the decode; the
    // field falls back to a replacement character.
    let flags = 0x0020;
    let mut rec = Vec::new();
    rec.extend_from_slice(&[1, 2, 3, 4]);
    push_u16(&mut rec, 7777);
    rec.push(1);
    rec.push(0x80);
    let body = response(flags, &[record(&rec)]);
    let servers = process(&body).unwrap();
    assert_eq!(servers[0].server_name.as_deref(), Some("\u{FFFD}"));
}

#[test]
fn longest_possible_text_field_round_trips() {
    // A text field's length prefix is one byte, so 255 bytes is the most
    // a name can carry.
    let flags = 0x0020;
    let name: String = std::iter::repeat('x').take(255).collect();
    let mut rec = Vec::new();
    rec.extend_from_slice(&[1, 2, 3, 4]);
    push_u16(&mut rec, 7777);
    push_text(&mut rec, &name);
    let body = response(flags, &[record(&rec)]);
    let servers = process(&body).unwrap();
    assert_eq!(servers[0].server_name.as_deref(), Some(name.as_str()));
}
