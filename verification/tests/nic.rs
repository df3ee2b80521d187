use cfg_ip::adapter::{Address, Nic, RawAdapter, RawSockAddr, RawUnicast};
use cfg_ip::ip::IpAddress;

fn v4(a: u8, b: u8, c: u8, d: u8) -> IpAddress {
    IpAddress::V4(u32::from_be_bytes([a, b, c, d]))
}

fn addr(ip: IpAddress, netmask: IpAddress) -> Address {
    Address { ip, netmask }
}

fn sample_nic(addresses: Vec<Address>) -> Nic {
    Nic::new(
        "Ethernet",
        7,
        "{A1}",
        true,
        Some(addresses),
        Some(vec![v4(10, 0, 0, 1)]),
        Some(vec![v4(8, 8, 8, 8)]),
    )
}

#[test]
fn equality_is_order_sensitive() {
    let one = addr(v4(10, 0, 0, 5), v4(255, 255, 255, 0));
    let two = addr(v4(10, 0, 0, 6), v4(255, 255, 255, 0));
    let a = sample_nic(vec![one, two]);
    let b = sample_nic(vec![two, one]);
    // Same address set, different sequence order: not equal.
    assert!(a != b);
    let c = sample_nic(vec![one, two]);
    assert!(a == c);
}

#[test]
fn equality_ignores_index_and_up_state() {
    let one = addr(v4(10, 0, 0, 5), v4(255, 255, 255, 0));
    let a = Nic::new("Ethernet", 7, "{A1}", true, Some(vec![one]), None, None);
    let b = Nic::new("Ethernet", 12, "{A1}", false, Some(vec![one]), None, None);
    assert!(a == b);
}

#[test]
fn equality_distinguishes_guid_name_and_lists() {
    let one = addr(v4(10, 0, 0, 5), v4(255, 255, 255, 0));
    let base = Nic::new("Ethernet", 7, "{A1}", true, Some(vec![one]), None, None);
    let other_guid = Nic::new("Ethernet", 7, "{B2}", true, Some(vec![one]), None, None);
    let other_name = Nic::new("Ether", 7, "{A1}", true, Some(vec![one]), None, None);
    let other_dns = Nic::new("Ethernet", 7, "{A1}", true, Some(vec![one]), None, Some(vec![v4(1, 1, 1, 1)]));
    assert!(base != other_guid);
    assert!(base != other_name);
    assert!(base != other_dns);
}

#[test]
fn accessors_reflect_construction() {
    let one = addr(v4(10, 0, 0, 5), v4(255, 255, 255, 0));
    let n = sample_nic(vec![one]);
    assert_eq!(n.name(), "Ethernet");
    assert_eq!(n.index(), Some(7));
    assert_eq!(n.guid(), "{A1}");
    assert!(n.is_up());
    assert!(n.is_running());
    assert_eq!(n.destination(), None);
    assert_eq!(n.address(), &[one]);
    assert_eq!(n.gateway(), &[v4(10, 0, 0, 1)]);
    assert_eq!(n.dns(), &[v4(8, 8, 8, 8)]);
}

#[test]
fn loopback_and_multicast_look_at_every_address() {
    let plain = addr(v4(10, 0, 0, 5), v4(255, 255, 255, 0));
    let lo = addr(v4(127, 0, 0, 1), v4(255, 0, 0, 0));
    let mc = addr(v4(224, 0, 0, 7), v4(255, 255, 255, 0));
    assert!(!plain.is_loopback());
    assert!(lo.is_loopback());
    assert!(!lo.is_multicast());
    assert!(mc.is_multicast());

    let none = sample_nic(vec![plain]);
    assert!(!none.is_loopback());
    assert!(!none.is_multicast());
    let with_lo = sample_nic(vec![plain, lo]);
    assert!(with_lo.is_loopback());
    let with_mc = sample_nic(vec![mc, plain]);
    assert!(with_mc.is_multicast());

    let v6lo = addr(IpAddress::V6(1), IpAddress::V6(u128::MAX));
    assert!(v6lo.is_loopback());
    let v6mc = addr(IpAddress::V6(0xff02 << 112), IpAddress::V6(u128::MAX));
    assert!(v6mc.is_multicast());
}

fn sa_v4(a: u8, b: u8, c: u8, d: u8) -> RawSockAddr {
    let mut data = vec![0u8; 16];
    data[4] = a;
    data[5] = b;
    data[6] = c;
    data[7] = d;
    RawSockAddr { family: 2, data }
}

fn refreshed_walk() -> Vec<RawAdapter> {
    vec![RawAdapter {
        index: 7,
        guid: "{A1}".to_string(),
        friendly_name: "Renamed by the walk".to_string(),
        is_up: false,
        unicast: vec![RawUnicast { sockaddr: sa_v4(172, 16, 0, 2), prefix_length: 12 }],
        gateway: vec![sa_v4(172, 16, 0, 1)],
        dns: vec![sa_v4(9, 9, 9, 9)],
    }]
}

#[test]
fn update_overwrites_mutable_fields_only() {
    let one = addr(v4(10, 0, 0, 5), v4(255, 255, 255, 0));
    let mut n = sample_nic(vec![one]);
    n.update(&refreshed_walk());
    // Identity fields never change, whatever the walk reported.
    assert_eq!(n.guid(), "{A1}");
    assert_eq!(n.index(), Some(7));
    assert_eq!(n.name(), "Ethernet");
    // Mutable fields follow the fresh walk.
    assert!(!n.is_up());
    assert_eq!(n.address().len(), 1);
    assert_eq!(n.address()[0].ip, v4(172, 16, 0, 2));
    assert_eq!(n.address()[0].netmask, v4(255, 240, 0, 0));
    assert_eq!(n.gateway(), &[v4(172, 16, 0, 1)]);
    assert_eq!(n.dns(), &[v4(9, 9, 9, 9)]);
}

#[test]
fn update_is_a_no_op_when_the_adapter_vanished() {
    let one = addr(v4(10, 0, 0, 5), v4(255, 255, 255, 0));
    let mut n = sample_nic(vec![one]);
    // Same guid but a different index is a different identity.
    let mut walk = refreshed_walk();
    walk[0].index = 8;
    n.update(&walk);
    assert!(n.is_up());
    assert_eq!(n.address(), &[one]);
    assert_eq!(n.gateway(), &[v4(10, 0, 0, 1)]);
    assert_eq!(n.dns(), &[v4(8, 8, 8, 8)]);
}

#[test]
fn update_takes_the_first_matching_identity() {
    let one = addr(v4(10, 0, 0, 5), v4(255, 255, 255, 0));
    let mut n = sample_nic(vec![one]);
    let mut walk = refreshed_walk();
    let mut second = refreshed_walk();
    second[0].is_up = true;
    walk.append(&mut second);
    n.update(&walk);
    assert!(!n.is_up());
}

#[test]
fn clone_preserves_every_field() {
    let one = addr(v4(10, 0, 0, 5), v4(255, 255, 255, 0));
    let n = sample_nic(vec![one]);
    let m = n.clone();
    assert!(n == m);
    assert_eq!(n.index(), m.index());
    assert_eq!(n.is_up(), m.is_up());
}
