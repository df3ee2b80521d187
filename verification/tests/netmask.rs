use cfg_ip::ip::{
    format_ip_address, ipv4_netmask_address_from, ipv4_netmask_from, ipv6_netmask_address_from,
    ipv6_netmask_from, IpAddress,
};

#[test]
fn ipv4_masks_exact_values() {
    assert_eq!(ipv4_netmask_from(0), 0);
    assert_eq!(ipv4_netmask_from(1), 0x8000_0000);
    assert_eq!(ipv4_netmask_from(8), 0xFF00_0000);
    assert_eq!(ipv4_netmask_from(24), 0xFFFF_FF00);
    assert_eq!(ipv4_netmask_from(31), 0xFFFF_FFFE);
    assert_eq!(ipv4_netmask_from(32), 0xFFFF_FFFF);
}

#[test]
fn ipv4_mask_clamps_past_32() {
    assert_eq!(ipv4_netmask_from(33), 0xFFFF_FFFF);
    assert_eq!(ipv4_netmask_from(100), 0xFFFF_FFFF);
    assert_eq!(ipv4_netmask_from(255), 0xFFFF_FFFF);
}

#[test]
fn ipv4_mask_has_exactly_length_leading_ones() {
    for len in 0u16..=255 {
        let mask = ipv4_netmask_from(len as u8);
        let expect = if len >= 32 { 32 } else { len as u32 };
        assert_eq!(mask.leading_ones(), expect, "length {len}");
        // Everything after the leading ones is zero.
        if expect < 32 {
            assert_eq!(mask << expect, 0, "length {len}");
        }
    }
}

#[test]
fn ipv6_masks_exact_values() {
    assert_eq!(ipv6_netmask_from(0), 0);
    assert_eq!(ipv6_netmask_from(1), 1u128 << 127);
    assert_eq!(ipv6_netmask_from(64), 0xFFFF_FFFF_FFFF_FFFF_0000_0000_0000_0000);
    assert_eq!(ipv6_netmask_from(127), u128::MAX - 1);
    assert_eq!(ipv6_netmask_from(128), u128::MAX);
}

#[test]
fn ipv6_mask_clamps_past_128() {
    assert_eq!(ipv6_netmask_from(129), u128::MAX);
    assert_eq!(ipv6_netmask_from(255), u128::MAX);
}

#[test]
fn ipv6_mask_has_exactly_length_leading_ones() {
    for len in 0u16..=255 {
        let mask = ipv6_netmask_from(len as u8);
        let expect = if len >= 128 { 128 } else { len as u32 };
        assert_eq!(mask.leading_ones(), expect, "length {len}");
        if expect < 128 {
            assert_eq!(mask << expect, 0, "length {len}");
        }
    }
}

#[test]
fn mask_addresses_carry_the_family() {
    assert_eq!(ipv4_netmask_address_from(24), IpAddress::V4(0xFFFF_FF00));
    assert_eq!(
        ipv6_netmask_address_from(64),
        IpAddress::V6(0xFFFF_FFFF_FFFF_FFFF_0000_0000_0000_0000)
    );
}

#[test]
fn mask_text_is_dotted_decimal() {
    assert_eq!(format_ip_address(&ipv4_netmask_address_from(24)), "255.255.255.0");
    assert_eq!(format_ip_address(&ipv4_netmask_address_from(0)), "0.0.0.0");
    assert_eq!(format_ip_address(&ipv4_netmask_address_from(40)), "255.255.255.255");
}
