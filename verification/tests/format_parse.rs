use cfg_ip::ip::{format_ip_address, parse_ip_text, parse_ipv4_text, IpAddress};

fn v4(a: u8, b: u8, c: u8, d: u8) -> IpAddress {
    IpAddress::V4(u32::from_be_bytes([a, b, c, d]))
}

#[test]
fn formats_ipv4_dotted_decimal() {
    assert_eq!(format_ip_address(&v4(192, 168, 1, 10)), "192.168.1.10");
    assert_eq!(format_ip_address(&v4(0, 0, 0, 0)), "0.0.0.0");
    assert_eq!(format_ip_address(&v4(255, 255, 255, 255)), "255.255.255.255");
    assert_eq!(format_ip_address(&v4(10, 0, 0, 5)), "10.0.0.5");
}

#[test]
fn formats_ipv6_with_zero_run_elision() {
    assert_eq!(format_ip_address(&IpAddress::V6(0)), "::");
    assert_eq!(format_ip_address(&IpAddress::V6(1)), "::1");
    assert_eq!(
        format_ip_address(&IpAddress::V6(0xfe80_0000_0000_0000_0000_0000_0000_0001)),
        "fe80::1"
    );
    // The leftmost of two equally long zero runs is elided.
    assert_eq!(
        format_ip_address(&IpAddress::V6(0x2001_0db8_0000_0000_0001_0000_0000_0001)),
        "2001:db8::1:0:0:1"
    );
    // A single zero group is not elided.
    assert_eq!(
        format_ip_address(&IpAddress::V6(0x0001_0000_0002_0003_0004_0005_0006_0007)),
        "1:0:2:3:4:5:6:7"
    );
    // Hexadecimal digits are lowercase without leading zeros.
    assert_eq!(
        format_ip_address(&IpAddress::V6(0x00ab_cdef_1234_5678_9abc_def0_0fff_0010)),
        "ab:cdef:1234:5678:9abc:def0:fff:10"
    );
}

#[test]
fn parses_dotted_quads() {
    assert_eq!(parse_ipv4_text("192.168.3.55"), Some(v4(192, 168, 3, 55)));
    assert_eq!(parse_ipv4_text("0.0.0.0"), Some(v4(0, 0, 0, 0)));
    assert_eq!(parse_ipv4_text("255.255.255.255"), Some(v4(255, 255, 255, 255)));
    assert_eq!(parse_ipv4_text("8.8.8.8"), Some(v4(8, 8, 8, 8)));
}

#[test]
fn rejects_malformed_dotted_quads() {
    assert_eq!(parse_ipv4_text(""), None);
    assert_eq!(parse_ipv4_text("1.2.3"), None);
    assert_eq!(parse_ipv4_text("1.2.3.4.5"), None);
    assert_eq!(parse_ipv4_text("256.1.1.1"), None);
    assert_eq!(parse_ipv4_text("01.2.3.4"), None);
    assert_eq!(parse_ipv4_text("1.2.3.04"), None);
    assert_eq!(parse_ipv4_text("1..2.3"), None);
    assert_eq!(parse_ipv4_text("a.b.c.d"), None);
    assert_eq!(parse_ipv4_text("1.2.3.4 "), None);
    assert_eq!(parse_ipv4_text("1234.1.1.1"), None);
}

#[test]
fn parse_inverts_format() {
    for value in [0u32, 1, 0x0100_0007, 0xC0A8_0101, 0xFFFF_FFFF, 0xDEAD_BEEF] {
        let ip = IpAddress::V4(value);
        let text = format_ip_address(&ip);
        assert_eq!(parse_ipv4_text(&text), Some(ip), "value {value:#x}");
    }
}

#[test]
fn formats_ipv4_mapped_ipv6_with_the_embedded_quad() {
    let mapped = IpAddress::V6(0x0000_0000_0000_0000_0000_ffff_c0a8_010a);
    assert_eq!(format_ip_address(&mapped), "::ffff:192.168.1.10");
    assert_eq!(parse_ip_text("::ffff:192.168.1.10"), Some(mapped));
    assert_eq!(
        format_ip_address(&IpAddress::V6(0x0000_0000_0000_0000_0000_ffff_0000_0000)),
        "::ffff:0.0.0.0"
    );
}

#[test]
fn parses_ipv6_text() {
    let v6 = |v: u128| Some(IpAddress::V6(v));
    assert_eq!(parse_ip_text("::"), v6(0));
    assert_eq!(parse_ip_text("::1"), v6(1));
    assert_eq!(parse_ip_text("1::"), v6(1u128 << 112));
    assert_eq!(parse_ip_text("1::2"), v6((1u128 << 112) | 2));
    assert_eq!(parse_ip_text("fe80::1"), v6((0xfe80u128 << 112) | 1));
    assert_eq!(parse_ip_text("1:2:3:4:5:6:7:8"), v6(0x0001_0002_0003_0004_0005_0006_0007_0008));
    assert_eq!(parse_ip_text("1:2:3:4:5:6:7::"), v6(0x0001_0002_0003_0004_0005_0006_0007_0000));
    assert_eq!(parse_ip_text("::8:7:6:5:4:3:2"), v6(0x0000_0008_0007_0006_0005_0004_0003_0002));
    // Either letter case, and leading zeros in groups, are accepted.
    assert_eq!(parse_ip_text("FE80::1"), v6((0xfe80u128 << 112) | 1));
    assert_eq!(parse_ip_text("0001:0:0:0:0:0:0:1"), v6((1u128 << 112) | 1));
    // An embedded dotted quad fills the last two groups.
    assert_eq!(parse_ip_text("64:ff9b::1.2.3.4"), v6((0x0064_ff9bu128 << 96) | 0x0102_0304));
    assert_eq!(
        parse_ip_text("1:2:3:4:5:6:7.8.9.10"),
        v6(0x0001_0002_0003_0004_0005_0006_0708_090a)
    );
}

#[test]
fn rejects_malformed_ipv6_text() {
    assert_eq!(parse_ip_text(":::"), None);
    assert_eq!(parse_ip_text("1::2::3"), None);
    assert_eq!(parse_ip_text(":1"), None);
    assert_eq!(parse_ip_text("1:"), None);
    assert_eq!(parse_ip_text("1:2:3:4:5:6:7"), None);
    assert_eq!(parse_ip_text("1:2:3:4:5:6:7:8:9"), None);
    assert_eq!(parse_ip_text("12345::"), None);
    // The elision must stand for at least one zero group.
    assert_eq!(parse_ip_text("1:2:3:4::5:6:7:8"), None);
    // An embedded dotted quad cannot precede the elision.
    assert_eq!(parse_ip_text("1.2.3.4::"), None);
    assert_eq!(parse_ip_text("::ffff:1.2.3.256"), None);
    assert_eq!(parse_ip_text("g::1"), None);
    assert_eq!(parse_ip_text(""), None);
}

#[test]
fn parse_ip_text_reads_both_families() {
    assert_eq!(parse_ip_text("8.8.8.8"), Some(v4(8, 8, 8, 8)));
    assert_eq!(parse_ip_text("::1"), Some(IpAddress::V6(1)));
    assert_eq!(parse_ip_text("not an address"), None);
}
