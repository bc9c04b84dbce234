use docsis::inet::{ipv6_text, parse_ipv4, parse_ipv6};

#[test]
fn dotted_quads_read_as_four_octets() {
    assert_eq!(parse_ipv4(b"192.168.0.1"), Some([192, 168, 0, 1]));
    assert_eq!(parse_ipv4(b"+1.2.3.4"), Some([1, 2, 3, 4]));
    assert_eq!(parse_ipv4(b"1.2.3"), None);
    assert_eq!(parse_ipv4(b"1.2.3.4.5"), None);
    assert_eq!(parse_ipv4(b"1.2.3.256"), None);
    assert_eq!(parse_ipv4(b"1..3.4"), None);
}

#[test]
fn ipv6_text_round_trips() {
    for text in ["::", "::1", "2001:db8::1", "1:2:3:4:5:6:7:8", "fe80::1:0:0:2", "::ffff:10.0.0.1", "1:0:0:2::3"] {
        let a = parse_ipv6(text.as_bytes()).unwrap();
        assert_eq!(String::from_utf8(ipv6_text(&a)).unwrap(), text);
    }
    assert_eq!(parse_ipv6(b"1:2:3:4:5:6:7:8:9"), None);
    assert_eq!(parse_ipv6(b"12345::"), None);
    assert_eq!(parse_ipv6(b"1.2.3.4"), None);
    assert_eq!(parse_ipv6(b"::1.2.3.04"), None);
}

#[test]
fn the_longest_zero_run_is_compressed_first_on_ties() {
    let mut a = [0u8; 16];
    a[1] = 1;
    a[5] = 2;
    a[15] = 3;
    // groups: 1 0 2 0 0 0 0 3 -> the run of four zeros is compressed
    a[4] = 0;
    assert_eq!(String::from_utf8(ipv6_text(&a)).unwrap(), "1:0:2::3");
    let mut b = [0u8; 16];
    b[1] = 1;
    b[7] = 2;
    b[13] = 3;
    // groups: 1 0 0 2 0 0 3 0 -> first of the equal runs
    assert_eq!(String::from_utf8(ipv6_text(&b)).unwrap(), "1::2:0:0:3:0");
}

#[test]
fn written_addresses_read_back_as_their_octets() {
    let cases: [[u8; 16]; 5] = [
        [0; 16],
        [0, 0, 0, 0, 0, 0, 0, 0, 0, 0, 0xff, 0xff, 192, 168, 0, 1],
        [0x20, 0x01, 0x0d, 0xb8, 0, 0, 0, 0, 0, 1, 0, 0, 0, 0, 0, 0x10],
        [0xfe, 0x80, 0, 0, 0, 0, 0, 0, 0x02, 0x1a, 0x2b, 0xff, 0xfe, 0x3c, 0x4d, 0x5e],
        [0, 1, 0, 2, 0, 3, 0, 4, 0, 5, 0, 6, 0, 7, 0, 8],
    ];
    for a in cases {
        let text = ipv6_text(&a);
        assert_eq!(parse_ipv6(&text), Some(a));
    }
}
