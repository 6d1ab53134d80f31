use binda::address::{parse_socket_addr, parse_v4, parse_v6, IpAddr};

fn groups(octets: [u8; 16]) -> [u16; 8] {
    let mut out = [0u16; 8];
    for i in 0..8 {
        out[i] = u16::from_be_bytes([octets[2 * i], octets[2 * i + 1]]);
    }
    out
}

#[test]
fn reads_dotted_addresses() {
    assert_eq!(parse_v4("0.0.0.0"), Some([0, 0, 0, 0]));
    assert_eq!(parse_v4("255.255.255.255"), Some([255, 255, 255, 255]));
    assert_eq!(parse_v4("192.0.2.7"), Some([192, 0, 2, 7]));
}

#[test]
fn refuses_what_is_no_dotted_address() {
    for bad in [
        "", "1", "1.2.3", "1.2.3.4.5", "1.2.3.", ".1.2.3", "1..2.3", "256.1.1.1", "01.2.3.4",
        "1.2.3.0000", "+1.2.3.4", "-1.2.3.4", "1.2.3.4 ", " 1.2.3.4", "a.b.c.d", "1.2.3.x",
        "1.2.3.4:5", "１.2.3.4",
    ] {
        assert_eq!(parse_v4(bad), None, "{bad}");
    }
}

#[test]
fn reads_version_6_addresses() {
    let cases: [(&str, [u16; 8]); 12] = [
        ("::", [0; 8]),
        ("::1", [0, 0, 0, 0, 0, 0, 0, 1]),
        ("1::", [1, 0, 0, 0, 0, 0, 0, 0]),
        ("2001:db8::1", [0x2001, 0xdb8, 0, 0, 0, 0, 0, 1]),
        ("1:2:3:4:5:6:7:8", [1, 2, 3, 4, 5, 6, 7, 8]),
        ("1:2:3:4:5:6:7::", [1, 2, 3, 4, 5, 6, 7, 0]),
        ("::2:3:4:5:6:7:8", [0, 2, 3, 4, 5, 6, 7, 8]),
        ("FFFF:aBcD::0001", [0xffff, 0xabcd, 0, 0, 0, 0, 0, 1]),
        ("::ffff:192.0.2.7", [0, 0, 0, 0, 0, 0xffff, 0xc000, 0x0207]),
        ("1:2:3:4:5:6:1.2.3.4", [1, 2, 3, 4, 5, 6, 0x0102, 0x0304]),
        ("::1.2.3.4", [0, 0, 0, 0, 0, 0, 0x0102, 0x0304]),
        ("1:2:3:4:5::1.2.3.4", [1, 2, 3, 4, 5, 0, 0x0102, 0x0304]),
    ];
    for (text, expected) in cases {
        assert_eq!(parse_v6(text).map(groups), Some(expected), "{text}");
    }
}

#[test]
fn refuses_what_is_no_version_6_address() {
    for bad in [
        "", ":", ":::", "1", "1:2:3:4:5:6:7", "1:2:3:4:5:6:7:8:9", "1::2::3", "12345::", "g::",
        "1:2:3:4:5:6:7:1.2.3.4", "1.2.3.4::", "1.2.3.4:1::", "::1.2.3", "1:2:3:4:5:6::1.2.3.4",
        ":1::", "::1:", "1:2:3:4::5:6:7:8", " ::1", "::1 ", "[::1]", "::01.2.3.4",
    ] {
        assert_eq!(parse_v6(bad), None, "{bad}");
    }
}

#[test]
fn reads_socket_addresses() {
    let v4 = parse_socket_addr("203.0.113.5:9530").unwrap();
    assert_eq!(v4.ip, IpAddr::V4([203, 0, 113, 5]));
    assert_eq!((v4.port, v4.scope_id), (9530, 0));

    let v6 = parse_socket_addr("[2001:db8::1]:53").unwrap();
    assert_eq!(v6.ip, IpAddr::V6(parse_v6("2001:db8::1").unwrap()));
    assert_eq!((v6.port, v6.scope_id), (53, 0));

    let scoped = parse_socket_addr("[fe80::1%42]:0080").unwrap();
    assert_eq!((scoped.port, scoped.scope_id), (80, 42));
}

#[test]
fn refuses_what_is_no_socket_address() {
    for bad in [
        "", "1.2.3.4", "1.2.3.4:", "1.2.3.4:65536", "1.2.3.4:+1", "1.2.3:4", "::1:53", "[::1]",
        "[::1]53", "[::1]:", "[::1:53", "[::1%]:53", "[::1%x]:53", "[::1%4294967296]:53",
        "[1.2.3.4]:53", "localhost:53", "1.2.3.4:5:6",
    ] {
        assert_eq!(parse_socket_addr(bad), None, "{bad}");
    }
}

#[test]
fn agrees_with_the_standard_library() {
    for text in [
        "1.2.3.4", "1.2.3.04", "::", "::1", "1:2:3:4:5:6:7:8", "1:2:3:4:5:6:7::", "1::8",
        "::ffff:1.2.3.4", "1:2:3:4:5:6:7:1.2.3.4", "fe80::", "::1::", "1:2::3:4:5:6:7:8",
    ] {
        let v4 = text.parse::<core::net::Ipv4Addr>().ok().map(|a| a.octets());
        let v6 = text.parse::<core::net::Ipv6Addr>().ok().map(|a| a.octets());
        assert_eq!(parse_v4(text), v4, "{text}");
        assert_eq!(parse_v6(text), v6, "{text}");
    }
}
