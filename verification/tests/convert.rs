use cfg_ip::ip::IpAddress;
use cfg_ip::utils::{convert_ip_items, join_lines, ConvertError};

fn v4(a: u8, b: u8, c: u8, d: u8) -> IpAddress {
    IpAddress::V4(u32::from_be_bytes([a, b, c, d]))
}

fn blocks(ip: &str, netmask: &str, gateway: &str, dns: &str) -> Vec<String> {
    vec![ip.to_string(), netmask.to_string(), gateway.to_string(), dns.to_string()]
}

#[test]
fn converts_four_text_blocks_to_address_lists() {
    let texts = blocks(
        "10.0.0.5\n10.0.0.6",
        "255.255.255.0\n255.255.255.0",
        "10.0.0.1",
        "8.8.8.8\n9.9.9.9",
    );
    let lists = convert_ip_items(&texts).expect("all lines parse");
    assert_eq!(lists.len(), 4);
    assert_eq!(lists[0], vec![v4(10, 0, 0, 5), v4(10, 0, 0, 6)]);
    assert_eq!(lists[1], vec![v4(255, 255, 255, 0), v4(255, 255, 255, 0)]);
    assert_eq!(lists[2], vec![v4(10, 0, 0, 1)]);
    assert_eq!(lists[3], vec![v4(8, 8, 8, 8), v4(9, 9, 9, 9)]);
}

#[test]
fn empty_gateway_and_dns_blocks_are_empty_lists() {
    let texts = blocks("10.0.0.5", "255.255.255.0", "", "");
    let lists = convert_ip_items(&texts).expect("all lines parse");
    assert_eq!(lists[2], Vec::<IpAddress>::new());
    assert_eq!(lists[3], Vec::<IpAddress>::new());
}

#[test]
fn each_block_reports_its_own_error() {
    let good = "10.0.0.5";
    let mask = "255.255.255.0";
    assert_eq!(
        convert_ip_items(&blocks("not an ip", mask, "", "")),
        Err(ConvertError::BadIpList)
    );
    assert_eq!(
        convert_ip_items(&blocks(good, "255.255.256.0", "", "")),
        Err(ConvertError::BadNetmaskList)
    );
    assert_eq!(
        convert_ip_items(&blocks(good, mask, "10.0.0", "")),
        Err(ConvertError::BadGatewayList)
    );
    assert_eq!(
        convert_ip_items(&blocks(good, mask, "", "8.8.8.")),
        Err(ConvertError::BadDnsList)
    );
}

#[test]
fn address_and_netmask_counts_must_agree() {
    let texts = blocks("10.0.0.5\n10.0.0.6", "255.255.255.0", "", "");
    assert_eq!(convert_ip_items(&texts), Err(ConvertError::LengthMismatch));
}

#[test]
fn join_lines_separates_without_trailing_newline() {
    let items = vec!["10.0.0.5".to_string(), "10.0.0.6".to_string(), "10.0.0.7".to_string()];
    assert_eq!(join_lines(&items), "10.0.0.5\n10.0.0.6\n10.0.0.7");
    assert_eq!(join_lines(&vec!["one".to_string()]), "one");
    assert_eq!(join_lines(&Vec::new()), "");
}

#[test]
fn join_then_convert_round_trips() {
    let ips = vec!["10.0.0.5".to_string(), "10.0.0.6".to_string()];
    let masks = vec!["255.255.255.0".to_string(), "255.255.0.0".to_string()];
    let texts = vec![join_lines(&ips), join_lines(&masks), String::new(), String::new()];
    let lists = convert_ip_items(&texts).expect("joined text converts back");
    assert_eq!(lists[0], vec![v4(10, 0, 0, 5), v4(10, 0, 0, 6)]);
    assert_eq!(lists[1], vec![v4(255, 255, 255, 0), v4(255, 255, 0, 0)]);
}

#[test]
fn converts_ipv6_lines_too() {
    let texts = blocks(
        "fe80::10\n10.0.0.5",
        "ffff:ffff:ffff:ffff::\n255.255.255.0",
        "fe80::1",
        "2001:4860:4860::8888",
    );
    let lists = convert_ip_items(&texts).expect("both families parse");
    assert_eq!(
        lists[0],
        vec![IpAddress::V6((0xfe80u128 << 112) | 0x10), v4(10, 0, 0, 5)]
    );
    assert_eq!(
        lists[1],
        vec![IpAddress::V6(0xffff_ffff_ffff_ffff_0000_0000_0000_0000), v4(255, 255, 255, 0)]
    );
    assert_eq!(lists[2], vec![IpAddress::V6((0xfe80u128 << 112) | 1)]);
    assert_eq!(
        lists[3],
        vec![IpAddress::V6(0x2001_4860_4860_0000_0000_0000_0000_8888)]
    );
}

#[test]
fn carriage_return_line_endings_are_understood() {
    let texts = blocks(
        "10.0.0.5\r\n10.0.0.6",
        "255.255.255.0\r\n255.255.255.0",
        "fe80::1\r",
        "",
    );
    let lists = convert_ip_items(&texts).expect("CRLF separators parse");
    assert_eq!(lists[0], vec![v4(10, 0, 0, 5), v4(10, 0, 0, 6)]);
    assert_eq!(lists[2], vec![IpAddress::V6((0xfe80u128 << 112) | 1)]);
}
