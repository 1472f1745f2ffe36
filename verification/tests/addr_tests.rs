use mtasa_masterlist::addr::{addr_string, parse_ipv4, get_tcp_and_udp_addrs};
use mtasa_masterlist::text::get_safe_string;

#[test]
fn addr_string_spells_octets() {
    assert_eq!(addr_string(4, 3, 2, 1), "4.3.2.1");
    assert_eq!(addr_string(10, 0, 0, 5), "10.0.0.5");
    assert_eq!(addr_string(0, 0, 0, 0), "0.0.0.0");
    assert_eq!(addr_string(255, 255, 255, 255), "255.255.255.255");
    assert_eq!(addr_string(100, 99, 10, 9), "100.99.10.9");
}

#[test]
fn parse_ipv4_accepts_addresses() {
    assert_eq!(parse_ipv4("1.2.3.4"), Some((1, 2, 3, 4)));
    assert_eq!(parse_ipv4("255.0.255.0"), Some((255, 0, 255, 0)));
    assert_eq!(parse_ipv4("010.0.0.5"), Some((10, 0, 0, 5)));
}

#[test]
fn parse_ipv4_rejects_everything_else() {
    assert_eq!(parse_ipv4(""), None);
    assert_eq!(parse_ipv4("1.2.3"), None);
    assert_eq!(parse_ipv4("1.2.3.4.5"), None);
    assert_eq!(parse_ipv4("256.1.1.1"), None);
    assert_eq!(parse_ipv4("1..2.3"), None);
    assert_eq!(parse_ipv4("1.2.3.x"), None);
    assert_eq!(parse_ipv4("+1.2.3.4"), None);
    assert_eq!(parse_ipv4("1.2.3.4 "), None);
    assert_eq!(parse_ipv4("ü.2.3.4"), None);
}

#[test]
fn endpoints_from_address_and_port() {
    let (octets, tcp, udp) = get_tcp_and_udp_addrs("10.0.0.5", 22003).unwrap();
    assert_eq!(octets, (10, 0, 0, 5));
    assert_eq!(tcp, 80);
    assert_eq!(udp, 22126);
}

#[test]
fn endpoints_refuse_bad_input() {
    assert_eq!(get_tcp_and_udp_addrs("not an address", 22003), None);
    // The UDP port would not fit.
    assert_eq!(get_tcp_and_udp_addrs("10.0.0.5", 65500), None);
}

#[test]
fn safe_string_keeps_ascii_in_order() {
    assert_eq!(get_safe_string(b"server".to_vec()), "server");
    assert_eq!(get_safe_string(vec![b'a', 0x80, b'b', 0xFF, b'c']), "abc");
    assert_eq!(get_safe_string(vec![0xC3, 0xBC]), "");
    assert_eq!(get_safe_string(Vec::new()), "");
}
