use mtasa_masterlist::server::{get_info, get_server_info, process, strip_zeros};

fn push_field(out: &mut Vec<u8>, s: &str) {
    out.push((s.len() + 1) as u8); // the length byte counts itself
    out.extend_from_slice(s.as_bytes());
}

/// A raw query response: zero padding, an 8-byte preamble, then the eight
/// fields in fixed order.
fn raw_response(fields: &[&str; 8]) -> Vec<u8> {
    let mut out = Vec::new();
    out.push(0); // padding the protocol inserts; stripped before parsing
    out.extend_from_slice(&[9, 9, 9, 9, 9, 9, 9, 9]); // preamble, ignored
    out.push(0);
    for f in fields {
        push_field(&mut out, f);
        out.push(0);
    }
    out
}

#[test]
fn strip_zeros_removes_every_zero_byte() {
    let raw = vec![0, 1, 0, 2, 3, 0, 0, 4, 0];
    assert_eq!(strip_zeros(&raw), vec![1, 2, 3, 4]);
}

#[test]
fn process_reads_one_field() {
    let buf = vec![4, b'a', b'b', b'c', 2, b'x'];
    let mut start = 0usize;
    let mut end = 0usize;
    let mut length = 0usize;
    let first = process(&buf, &mut start, &mut end, &mut length);
    assert_eq!(first.as_deref(), Some("abc"));
    assert_eq!(start, 4);
    assert_eq!(end, 4);
    assert_eq!(length, 3);
    let second = process(&buf, &mut start, &mut end, &mut length);
    assert_eq!(second.as_deref(), Some("x"));
    assert_eq!(start, 6);
}

#[test]
fn process_refuses_zero_length_byte() {
    let buf = vec![0, b'a'];
    let mut start = 0usize;
    let mut end = 0usize;
    let mut length = 0usize;
    assert_eq!(process(&buf, &mut start, &mut end, &mut length), None);
    assert_eq!(start, 0);
}

#[test]
fn get_info_decodes_all_eight_fields() {
    let raw = raw_response(&["22003", "Test Server", "race", "docks", "1.6", "0", "4", "32"]);
    let info = get_info("10.0.0.5", &raw).unwrap();
    assert_eq!(info.ip, "10.0.0.5");
    assert_eq!(info.port, "22003");
    assert_eq!(info.name, "Test Server");
    assert_eq!(info.gamemode, "race");
    assert_eq!(info.map, "docks");
    assert_eq!(info.version, "1.6");
    assert_eq!(info.passworded, "0");
    assert_eq!(info.playercount, "4");
    assert_eq!(info.maxplayers, "32");
}

#[test]
fn get_server_info_matches_get_info() {
    let raw = raw_response(&["22003", "srv", "dm", "m", "1.6", "1", "0", "8"]);
    let a = get_info("1.2.3.4", &raw).unwrap();
    let b = get_server_info("1.2.3.4", &raw);
    assert_eq!(a, b);
}

#[test]
fn get_info_short_response_is_none() {
    let raw = vec![1, 2, 3]; // shorter than the preamble once stripped
    assert_eq!(get_info("1.2.3.4", &raw), None);
}

#[test]
fn get_info_cut_off_field_is_none() {
    let mut raw = raw_response(&["22003", "srv", "dm", "m", "1.6", "1", "0", "8"]);
    raw.truncate(raw.len() - 2); // the last field now ends early
    assert_eq!(get_info("1.2.3.4", &raw), None);
}

#[test]
fn get_info_malformed_text_still_decodes() {
    let mut raw = Vec::new();
    raw.extend_from_slice(&[9, 9, 9, 9, 9, 9, 9, 9]);
    raw.extend_from_slice(&[2, 0x80]); // port field: one invalid byte
    for f in ["srv", "dm", "m", "1.6", "1", "0", "8"] {
        push_field(&mut raw, f);
    }
    let info = get_info("1.2.3.4", &raw).unwrap();
    assert_eq!(info.port, "\u{FFFD}");
    assert_eq!(info.name, "srv");
}
