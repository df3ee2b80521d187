use cfg_ip::adapter::{
    check_fetch_query, check_size_query, get_adapters, get_dns, get_gateway, nic,
    sockaddr_to_ipv4, sockaddr_to_ipv6, EnumerationError, RawAdapter, RawSockAddr, RawUnicast,
};
use cfg_ip::ip::IpAddress;

fn sa_v4(a: u8, b: u8, c: u8, d: u8) -> RawSockAddr {
    let mut data = vec![0u8; 16];
    data[4] = a;
    data[5] = b;
    data[6] = c;
    data[7] = d;
    RawSockAddr { family: 2, data }
}

fn sa_v6(addr: u128) -> RawSockAddr {
    let mut data = vec![0u8; 28];
    data[8..24].copy_from_slice(&addr.to_be_bytes());
    RawSockAddr { family: 23, data }
}

fn v4(a: u8, b: u8, c: u8, d: u8) -> IpAddress {
    IpAddress::V4(u32::from_be_bytes([a, b, c, d]))
}

#[test]
fn size_query_expects_buffer_overflow_signal() {
    assert_eq!(check_size_query(111), Ok(()));
    assert_eq!(check_size_query(0), Err(EnumerationError::SizeQuery(0)));
    assert_eq!(check_size_query(5), Err(EnumerationError::SizeQuery(5)));
}

#[test]
fn fetch_query_expects_success() {
    assert_eq!(check_fetch_query(0), Ok(()));
    assert_eq!(check_fetch_query(111), Err(EnumerationError::FetchQuery(111)));
    assert_eq!(check_fetch_query(87), Err(EnumerationError::FetchQuery(87)));
}

#[test]
fn reads_ipv4_socket_addresses() {
    assert_eq!(sockaddr_to_ipv4(&sa_v4(192, 168, 1, 10)), Some(v4(192, 168, 1, 10)));
    // A record below the IPv4 structure size is skipped.
    let undersized = RawSockAddr { family: 2, data: vec![0u8; 15] };
    assert_eq!(sockaddr_to_ipv4(&undersized), None);
}

#[test]
fn reads_ipv6_socket_addresses() {
    assert_eq!(sockaddr_to_ipv6(&sa_v6(1)), Some(IpAddress::V6(1)));
    // A record below the IPv6 structure size is skipped, even if it could
    // hold an IPv4 record.
    let undersized = RawSockAddr { family: 23, data: vec![0u8; 16] };
    assert_eq!(sockaddr_to_ipv6(&undersized), None);
}

#[test]
fn address_lists_skip_unknown_families_and_keep_order() {
    let list = vec![
        sa_v4(192, 168, 1, 1),
        RawSockAddr { family: 99, data: vec![0u8; 28] },
        sa_v6(7),
        sa_v4(10, 0, 0, 1),
    ];
    assert_eq!(get_gateway(&list), vec![v4(192, 168, 1, 1), IpAddress::V6(7), v4(10, 0, 0, 1)]);
    assert_eq!(get_dns(&list), vec![v4(192, 168, 1, 1), IpAddress::V6(7), v4(10, 0, 0, 1)]);
}

fn two_adapter_host() -> Vec<RawAdapter> {
    vec![
        RawAdapter {
            index: 7,
            guid: "{A1}".to_string(),
            friendly_name: "Ethernet".to_string(),
            is_up: true,
            unicast: vec![RawUnicast { sockaddr: sa_v4(192, 168, 1, 10), prefix_length: 24 }],
            gateway: vec![sa_v4(192, 168, 1, 1)],
            dns: vec![],
        },
        RawAdapter {
            index: 9,
            guid: "{B2}".to_string(),
            friendly_name: "Wi-Fi".to_string(),
            is_up: false,
            unicast: vec![],
            gateway: vec![],
            dns: vec![sa_v4(8, 8, 8, 8)],
        },
    ]
}

#[test]
fn enumerates_two_adapters_with_addresses_and_gateway() {
    let nics = nic(&two_adapter_host());
    assert_eq!(nics.len(), 2);

    let first = &nics[0];
    assert_eq!(first.guid(), "{A1}");
    assert_eq!(first.name(), "Ethernet");
    assert_eq!(first.index(), Some(7));
    assert!(first.is_up());
    assert_eq!(first.address().len(), 1);
    assert_eq!(first.address()[0].ip, v4(192, 168, 1, 10));
    assert_eq!(first.address()[0].netmask, v4(255, 255, 255, 0));
    assert_eq!(first.gateway(), &[v4(192, 168, 1, 1)]);
    assert!(first.dns().is_empty());

    let second = &nics[1];
    assert_eq!(second.guid(), "{B2}");
    assert!(!second.is_up());
    assert_eq!(second.address().len(), 0);
    assert_eq!(second.dns(), &[v4(8, 8, 8, 8)]);
}

#[test]
fn enumeration_derives_ipv6_netmasks() {
    let raw = vec![RawAdapter {
        index: 1,
        guid: "{C3}".to_string(),
        friendly_name: "v6".to_string(),
        is_up: true,
        unicast: vec![RawUnicast {
            sockaddr: sa_v6(0xfe80_0000_0000_0000_0000_0000_0000_0001),
            prefix_length: 64,
        }],
        gateway: vec![],
        dns: vec![],
    }];
    let nics = nic(&raw);
    assert_eq!(nics[0].address()[0].ip, IpAddress::V6(0xfe80_0000_0000_0000_0000_0000_0000_0001));
    assert_eq!(
        nics[0].address()[0].netmask,
        IpAddress::V6(0xFFFF_FFFF_FFFF_FFFF_0000_0000_0000_0000)
    );
}

#[test]
fn undersized_unicast_records_are_skipped_not_fatal() {
    let raw = vec![RawAdapter {
        index: 1,
        guid: "{D4}".to_string(),
        friendly_name: "partial".to_string(),
        is_up: true,
        unicast: vec![
            RawUnicast {
                sockaddr: RawSockAddr { family: 2, data: vec![0u8; 8] },
                prefix_length: 24,
            },
            RawUnicast { sockaddr: sa_v4(10, 0, 0, 5), prefix_length: 16 },
        ],
        gateway: vec![],
        dns: vec![],
    }];
    let nics = nic(&raw);
    assert_eq!(nics[0].address().len(), 1);
    assert_eq!(nics[0].address()[0].ip, v4(10, 0, 0, 5));
    assert_eq!(nics[0].address()[0].netmask, v4(255, 255, 0, 0));
}

#[test]
fn get_adapters_drops_loopback_adapters() {
    let mut raw = two_adapter_host();
    raw.push(RawAdapter {
        index: 1,
        guid: "{LO}".to_string(),
        friendly_name: "Loopback".to_string(),
        is_up: true,
        unicast: vec![RawUnicast { sockaddr: sa_v4(127, 0, 0, 1), prefix_length: 8 }],
        gateway: vec![],
        dns: vec![],
    });
    let nics = get_adapters(&raw);
    assert_eq!(nics.len(), 2);
    assert_eq!(nics[0].guid(), "{A1}");
    assert_eq!(nics[1].guid(), "{B2}");
}
