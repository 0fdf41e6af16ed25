use streaming_quotes::address::Ipv4Address;
use streaming_quotes::address::Ipv6Address;
use streaming_quotes::address::SocketAddress;

fn v6(s: [u16; 8], port: u16, scope_id: u32) -> SocketAddress {
    SocketAddress::V6 {
        ip: Ipv6Address {
            s0: s[0],
            s1: s[1],
            s2: s[2],
            s3: s[3],
            s4: s[4],
            s5: s[5],
            s6: s[6],
            s7: s[7],
        },
        port,
        flowinfo: 0,
        scope_id,
    }
}

#[test]
fn parses_ipv4_socket_addresses() {
    assert_eq!(
        SocketAddress::parse("192.168.1.20:8080"),
        Some(SocketAddress::v4(192, 168, 1, 20, 8080))
    );
    assert_eq!(
        SocketAddress::parse("0.0.0.0:0"),
        Some(SocketAddress::V4 { ip: Ipv4Address { a: 0, b: 0, c: 0, d: 0 }, port: 0 })
    );
    // Leading zeros are allowed in the port only.
    assert_eq!(
        SocketAddress::parse("1.2.3.4:00080"),
        Some(SocketAddress::v4(1, 2, 3, 4, 80))
    );
}

#[test]
fn rejects_malformed_ipv4() {
    for text in [
        "", "1.2.3.4", "1.2.3:80", "1.2.3.4.5:80", "256.1.1.1:80", "01.2.3.4:80", "1.2.3.4:65536",
        "1.2.3.4:", "1.2.3.4:80 ", " 1.2.3.4:80", "1.2.3.4:+80", "1.2.3.4:80x", "a.b.c.d:1",
    ] {
        assert_eq!(SocketAddress::parse(text), None, "{text}");
    }
}

#[test]
fn parses_ipv6_socket_addresses() {
    assert_eq!(SocketAddress::parse("[::1]:9000"), Some(v6([0, 0, 0, 0, 0, 0, 0, 1], 9000, 0)));
    assert_eq!(SocketAddress::parse("[::]:1"), Some(v6([0; 8], 1, 0)));
    assert_eq!(
        SocketAddress::parse("[2001:db8::8a2e:370:7334]:443"),
        Some(v6([0x2001, 0xdb8, 0, 0, 0, 0x8a2e, 0x370, 0x7334], 443, 0))
    );
    assert_eq!(
        SocketAddress::parse("[1:2:3:4:5:6:7:8]:1"),
        Some(v6([1, 2, 3, 4, 5, 6, 7, 8], 1, 0))
    );
    assert_eq!(
        SocketAddress::parse("[::ffff:10.0.0.1]:5"),
        Some(v6([0, 0, 0, 0, 0, 0xffff, 0x0a00, 0x0001], 5, 0))
    );
    assert_eq!(
        SocketAddress::parse("[fe80::1%3]:22"),
        Some(v6([0xfe80, 0, 0, 0, 0, 0, 0, 1], 22, 3))
    );
    assert_eq!(
        SocketAddress::parse("[1:2:3:4:5:6:7::]:1"),
        Some(v6([1, 2, 3, 4, 5, 6, 7, 0], 1, 0))
    );
    assert_eq!(
        SocketAddress::parse("[ABCD::]:1"),
        Some(v6([0xabcd, 0, 0, 0, 0, 0, 0, 0], 1, 0))
    );
}

#[test]
fn rejects_malformed_ipv6() {
    for text in [
        "[::1]", "::1:80", "[::1]:", "[1:2:3:4:5:6:7:8:9]:1", "[12345::]:1", "[1::2::3]:1",
        "[1.2.3.4::]:1", "[::1%]:1", "[::g]:1", "[:1]:1",
    ] {
        assert_eq!(SocketAddress::parse(text), None, "{text}");
    }
}

#[test]
fn unspecified_addresses() {
    assert!(SocketAddress::parse("0.0.0.0:9000").unwrap().is_unspecified());
    assert!(SocketAddress::parse("[::]:9000").unwrap().is_unspecified());
    assert!(!SocketAddress::parse("127.0.0.1:9000").unwrap().is_unspecified());
    assert!(!SocketAddress::parse("[::1]:9000").unwrap().is_unspecified());
}

#[test]
fn text_of_addresses_as_displayed() {
    let cases = [
        ("127.0.0.1:34254", "127.0.0.1:34254"),
        ("0.0.0.0:0", "0.0.0.0:0"),
        ("255.255.255.255:65535", "255.255.255.255:65535"),
        ("[::1]:9000", "[::1]:9000"),
        ("[::]:1", "[::]:1"),
        ("[2001:db8::8a2e:370:7334]:443", "[2001:db8::8a2e:370:7334]:443"),
        ("[1:2:3:4:5:6:7:8]:1", "[1:2:3:4:5:6:7:8]:1"),
        ("[::ffff:10.0.0.1]:5", "[::ffff:10.0.0.1]:5"),
        ("[fe80::1%3]:22", "[fe80::1%3]:22"),
        ("[1:0:0:2:0:0:0:3]:7", "[1:0:0:2::3]:7"),
        ("[1:0:0:2:0:0:3:4]:7", "[1::2:0:0:3:4]:7"),
        ("[0:1:0:1:0:1:0:1]:7", "[0:1:0:1:0:1:0:1]:7"),
        ("[FE80:0:0:0:0:0:0:0]:7", "[fe80::]:7"),
    ];
    for (text, shown) in cases {
        let addr = SocketAddress::parse(text).unwrap();
        assert_eq!(addr.to_text(), shown, "{text}");
    }
}

#[test]
fn ipv4_text_reads_back() {
    for (a, b, c, d, port) in [(127, 0, 0, 1, 34254), (10, 20, 30, 40, 0), (255, 0, 9, 99, 65535)] {
        let addr = SocketAddress::v4(a, b, c, d, port);
        assert_eq!(SocketAddress::parse(&addr.to_text()), Some(addr));
    }
}

#[test]
fn grammar_corner_cases() {
    let cases: [(&str, Option<&str>); 19] = [
        ("1.2.3.4:5", Some("1.2.3.4:5")),
        ("1.2.3.4:05", Some("1.2.3.4:5")),
        ("001.2.3.4:5", None),
        ("1.2.3:5", None),
        ("[::1]:5", Some("[::1]:5")),
        ("[::1%4]:5", Some("[::1%4]:5")),
        ("[::1%x]:5", None),
        ("[1:2:3:4:5:6:1.2.3.4]:9", Some("[1:2:3:4:5:6:102:304]:9")),
        ("[1:2:3:4:5:6:7:1.2.3.4]:9", None),
        ("[::1.2.3.4]:9", Some("[::102:304]:9")),
        ("[1::1.2.3.4]:9", Some("[1::102:304]:9")),
        ("[1::2:1.2.3.4]:9", Some("[1::2:102:304]:9")),
        ("[ffff::]:0", Some("[ffff::]:0")),
        ("[0ffff::]:0", None),
        ("[::ffff:1.2.3.4]:9", Some("[::ffff:1.2.3.4]:9")),
        ("[1:2:3:4:5::6:7:8]:9", None),
        ("1.2.3.4:99999999999999999999", None),
        ("[::1%4294967296]:5", None),
        ("[::1%4294967295]:5", Some("[::1%4294967295]:5")),
    ];
    for (text, shown) in cases {
        let ours = SocketAddress::parse(text).map(|a| a.to_text());
        assert_eq!(ours.as_deref(), shown, "{text}");
    }
}

#[test]
fn ipv6_text_reads_back() {
    let cases = [
        v6([0, 0, 0, 0, 0, 0, 0, 0], 1, 0),
        v6([0, 0, 0, 0, 0, 0, 0, 1], 2, 0),
        v6([0x2001, 0xdb8, 0, 0, 0, 0, 0, 0xff], 3, 7),
        v6([1, 0, 0, 2, 0, 0, 3, 4], 4, 0),
        v6([0, 0, 0, 0, 0, 0xffff, 0xc0a8, 0x0101], 5, 0),
        v6([0xffff, 0xffff, 0xffff, 0xffff, 0xffff, 0xffff, 0xffff, 0xffff], 65535, u32::MAX),
        v6([0, 1, 0, 1, 0, 1, 0, 1], 6, 0),
    ];
    for addr in cases {
        assert_eq!(SocketAddress::parse(&addr.to_text()), Some(addr), "{}", addr.to_text());
    }
}
