use cfg_ip::adapter::Address;
use cfg_ip::ip::IpAddress;
use cfg_ip::set_ip::{set_dynamic_ip, set_static_ip, CommandKind, SetIpError};

fn v4(a: u8, b: u8, c: u8, d: u8) -> IpAddress {
    IpAddress::V4(u32::from_be_bytes([a, b, c, d]))
}

#[test]
fn dynamic_mode_builds_address_then_dns() {
    let cmds = set_dynamic_ip("WLAN");
    assert_eq!(cmds.len(), 2);
    assert_eq!(cmds[0].kind, CommandKind::Ip);
    assert_eq!(cmds[0].text, "interface ip set address name=\"WLAN\" source=dhcp");
    assert_eq!(cmds[1].kind, CommandKind::Dns);
    assert_eq!(cmds[1].text, "interface ip set dns name=\"WLAN\" source=dhcp");
}

#[test]
fn static_mode_builds_four_ordered_commands() {
    let address = vec![
        Address { ip: v4(10, 0, 0, 5), netmask: v4(255, 255, 255, 0) },
        Address { ip: v4(10, 0, 0, 6), netmask: v4(255, 255, 255, 0) },
    ];
    let gateway = vec![v4(10, 0, 0, 1)];
    let dns = vec![v4(8, 8, 8, 8)];
    let cmds = set_static_ip("Ethernet", &address, &gateway, &dns).expect("addresses are given");
    assert_eq!(cmds.len(), 4);
    assert_eq!(cmds[0].kind, CommandKind::Ip);
    assert_eq!(cmds[0].text, "interface ip set address name=\"Ethernet\" static 10.0.0.5 255.255.255.0");
    assert_eq!(cmds[1].kind, CommandKind::Ip);
    assert_eq!(cmds[1].text, "interface ip add address name=\"Ethernet\" 10.0.0.6 255.255.255.0");
    assert_eq!(cmds[2].kind, CommandKind::Gateway);
    assert_eq!(cmds[2].text, "interface ip add address name=\"Ethernet\" gateway=10.0.0.1 gwmetric=0");
    assert_eq!(cmds[3].kind, CommandKind::Dns);
    assert_eq!(cmds[3].text, "interface ip add dns name=\"Ethernet\" 8.8.8.8");
}

#[test]
fn static_mode_without_addresses_fails_fast() {
    let gateway = vec![v4(10, 0, 0, 1)];
    let dns = vec![v4(8, 8, 8, 8)];
    let r = set_static_ip("Ethernet", &[], &gateway, &dns);
    assert_eq!(r.err(), Some(SetIpError::InvalidStaticConfiguration));
}

#[test]
fn every_gateway_and_dns_entry_gets_a_command() {
    let address = vec![Address { ip: v4(192, 168, 3, 55), netmask: v4(255, 255, 255, 0) }];
    let gateway = vec![v4(192, 168, 3, 1), v4(192, 168, 4, 1)];
    let dns = vec![v4(192, 168, 1, 1), v4(222, 246, 129, 81)];
    let cmds = set_static_ip("以太网", &address, &gateway, &dns).expect("addresses are given");
    assert_eq!(cmds.len(), 5);
    assert_eq!(cmds[0].text, "interface ip set address name=\"以太网\" static 192.168.3.55 255.255.255.0");
    assert_eq!(cmds[1].text, "interface ip add address name=\"以太网\" gateway=192.168.3.1 gwmetric=0");
    assert_eq!(cmds[2].text, "interface ip add address name=\"以太网\" gateway=192.168.4.1 gwmetric=0");
    assert_eq!(cmds[3].text, "interface ip add dns name=\"以太网\" 192.168.1.1");
    assert_eq!(cmds[4].text, "interface ip add dns name=\"以太网\" 222.246.129.81");
}

#[test]
fn the_name_is_always_quoted() {
    let cmds = set_dynamic_ip("no whitespace needed");
    assert!(cmds[0].text.contains("name=\"no whitespace needed\""));
    let plain = set_dynamic_ip("eth0");
    assert!(plain[0].text.contains("name=\"eth0\""));
}

#[test]
fn kind_tags_name_the_step_categories() {
    assert_eq!(CommandKind::Ip.tag(), "ip");
    assert_eq!(CommandKind::Gateway.tag(), "gateway");
    assert_eq!(CommandKind::Dns.tag(), "dns");
}
