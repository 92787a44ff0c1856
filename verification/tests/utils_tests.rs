use ipv6_only::generate::{random_ipv6_from, read_component};
use ipv6_only::{
    calculate_subnet_mask, compress_address, expand_address, generate_link_local,
    generate_random_ipv6, generate_unique_local, mac_to_ipv6_link_local, reverse_pointer,
    validate_ipv6, validate_ipv6_network, IPv6Address, IPv6Network, Ipv6Error,
};

#[test]
fn test_compress_expand() {
    let compressed = compress_address("2001:0db8:0000:0000:0000:0000:0000:0001").unwrap();
    assert_eq!(compressed, "2001:db8::1");

    let expanded = expand_address("2001:db8::1").unwrap();
    assert_eq!(expanded, "2001:0db8:0000:0000:0000:0000:0000:0001");
}

#[test]
fn test_mac_to_link_local() {
    let addr = mac_to_ipv6_link_local("00:11:22:33:44:55").unwrap();
    assert!(addr.starts_with("fe80::"));
}

#[test]
fn test_reverse_pointer() {
    let ptr = reverse_pointer("2001:db8::1").unwrap();
    assert!(ptr.ends_with(".ip6.arpa"));
}

#[test]
fn test_validation() {
    let (valid, _) = validate_ipv6("2001:db8::1", true);
    assert!(valid);

    let (valid, err) = validate_ipv6("invalid", true);
    assert!(!valid);
    assert!(err.is_some());
}

#[test]
fn compress_and_expand_keep_the_zone_and_report_errors() {
    assert_eq!(compress_address("fe80:0:0:0:0:0:0:1%eth0").unwrap(), "fe80::1%eth0");
    assert_eq!(expand_address("::%1").unwrap(), "0000:0000:0000:0000:0000:0000:0000:0000%1");
    assert_eq!(compress_address("nonsense").err(), Some(Ipv6Error::InvalidAddress));
    assert_eq!(expand_address("").err(), Some(Ipv6Error::InvalidAddress));
}

#[test]
fn mac_gives_eui64_bit_for_bit() {
    assert_eq!(mac_to_ipv6_link_local("00:11:22:33:44:55").unwrap(), "fe80::211:22ff:fe33:4455");
    assert_eq!(mac_to_ipv6_link_local("02-11-22-33-44-55").unwrap(), "fe80::11:22ff:fe33:4455");
    assert_eq!(mac_to_ipv6_link_local("AABB.CCDD.EEFF").unwrap(), "fe80::a8bb:ccff:fedd:eeff");
    assert_eq!(mac_to_ipv6_link_local("00:11:22:33:44").err(), Some(Ipv6Error::InvalidAddress));
    assert_eq!(mac_to_ipv6_link_local("00:11:22:33:44:5g").err(), Some(Ipv6Error::InvalidAddress));
    assert_eq!(mac_to_ipv6_link_local("").err(), Some(Ipv6Error::InvalidAddress));
}

#[test]
fn reverse_pointer_is_the_reversed_nibbles() {
    let ptr = reverse_pointer("2001:db8::1").unwrap();
    assert_eq!(
        ptr,
        "1.0.0.0.0.0.0.0.0.0.0.0.0.0.0.0.0.0.0.0.0.0.0.0.8.b.d.0.1.0.0.2.ip6.arpa"
    );
    let nibbles = &ptr[..ptr.len() - ".ip6.arpa".len()];
    assert_eq!(nibbles.chars().filter(|c| *c == '.').count(), 31);
    assert_eq!(nibbles.chars().filter(|c| *c != '.').count(), 32);
    assert_eq!(reverse_pointer("::1%lo").unwrap(), ptr.replace("8.b.d.0.1.0.0.2", "0.0.0.0.0.0.0.0"));
    assert_eq!(reverse_pointer("2001:db8:::1").err(), Some(Ipv6Error::InvalidAddress));
}

#[test]
fn link_local_with_given_identifier() {
    assert_eq!(generate_link_local(Some("0011223344556677")).unwrap(), "fe80::11:2233:4455:6677");
    assert_eq!(generate_link_local(Some("0011:2233:4455:6677")).unwrap(), "fe80::11:2233:4455:6677");
    assert_eq!(generate_link_local(Some("AB-CD-EF-01-23-45-67-89")).unwrap(), "fe80::abcd:ef01:2345:6789");
    assert_eq!(generate_link_local(Some("00112233445566")).err(), Some(Ipv6Error::InvalidAddress));
    assert_eq!(generate_link_local(Some("001122334455667")).err(), Some(Ipv6Error::InvalidAddress));
    assert_eq!(generate_link_local(Some("00112233445566zz")).err(), Some(Ipv6Error::InvalidAddress));
    assert_eq!(generate_link_local(Some("")).err(), Some(Ipv6Error::InvalidAddress));
}

#[test]
fn link_local_random_is_link_local() {
    for _ in 0..20 {
        let text = generate_link_local(None).unwrap();
        let a = IPv6Address::new(&text).unwrap();
        assert!(a.is_link_local());
        assert_eq!(a.to_u128() >> 64, 0xfe80u128 << 48);
    }
}

#[test]
fn unique_local_with_given_parts() {
    assert_eq!(
        generate_unique_local(Some("0102030405"), Some("0a0b"), Some("1122334455667788")).unwrap(),
        "fd01:203:405:a0b:1122:3344:5566:7788"
    );
    assert_eq!(
        generate_unique_local(Some("0000000000"), Some("0000"), Some("0000000000000001")).unwrap(),
        "fd00::1"
    );
    assert_eq!(
        generate_unique_local(Some("01020304"), None, None).err(),
        Some(Ipv6Error::InvalidAddress)
    );
    assert_eq!(
        generate_unique_local(None, Some("0a0"), None).err(),
        Some(Ipv6Error::InvalidAddress)
    );
    assert_eq!(
        generate_unique_local(None, None, Some("xx22334455667788")).err(),
        Some(Ipv6Error::InvalidAddress)
    );
    for _ in 0..20 {
        let text = generate_unique_local(None, Some("00ff"), None).unwrap();
        let a = IPv6Address::new(&text).unwrap();
        assert!(a.is_unique_local());
        assert_eq!(a.to_u128() >> 120, 0xfd);
        assert_eq!((a.to_u128() >> 64) & 0xffff, 0x00ff);
    }
}

#[test]
fn component_reading() {
    assert_eq!(read_component("0a:FF", 2, false).unwrap(), vec![0x0a, 0xff]);
    assert_eq!(read_component("0a.ff", 2, true).unwrap(), vec![0x0a, 0xff]);
    assert_eq!(read_component("0a.ff", 2, false).err(), Some(Ipv6Error::InvalidAddress));
    assert_eq!(read_component("", 0, false).unwrap(), Vec::<u8>::new());
}

#[test]
fn random_address_stays_in_prefix() {
    assert_eq!(random_ipv6_from("2001:db8::/64", u128::MAX).unwrap(), "2001:db8::ffff:ffff:ffff:ffff");
    assert_eq!(random_ipv6_from("2001:db8::", 0x1234).unwrap(), "2001:db8::1234");
    assert_eq!(random_ipv6_from("::/0", 0xabcdu128 << 112).unwrap(), "abcd::");
    assert_eq!(random_ipv6_from("2001:db8::5/128", u128::MAX).unwrap(), "2001:db8::5");
    assert_eq!(random_ipv6_from("2001:db8::/200", 1).err(), Some(Ipv6Error::InvalidPrefix));
    assert_eq!(random_ipv6_from("2001:db8:::", 1).err(), Some(Ipv6Error::InvalidAddress));
    for prefix in ["2001:db8::/64", "2001:db8::/100", "2001:db8::", "::/0", "fd00::/8"] {
        let text = generate_random_ipv6(prefix).unwrap();
        let a = IPv6Address::new(&text).unwrap();
        let with_len = if prefix.contains('/') { prefix.to_string() } else { format!("{}/64", prefix) };
        assert!(IPv6Network::new(&with_len).unwrap().contains(&a));
    }
    assert_eq!(generate_random_ipv6("zz::/64").err(), Some(Ipv6Error::InvalidAddress));
}

#[test]
fn subnet_mask_text() {
    assert_eq!(calculate_subnet_mask(0).unwrap(), "0000:0000:0000:0000:0000:0000:0000:0000");
    assert_eq!(calculate_subnet_mask(64).unwrap(), "ffff:ffff:ffff:ffff:0000:0000:0000:0000");
    assert_eq!(calculate_subnet_mask(33).unwrap(), "ffff:ffff:8000:0000:0000:0000:0000:0000");
    assert_eq!(calculate_subnet_mask(128).unwrap(), "ffff:ffff:ffff:ffff:ffff:ffff:ffff:ffff");
    assert_eq!(calculate_subnet_mask(129).err(), Some(Ipv6Error::InvalidPrefix));
}

#[test]
fn validation_reasons() {
    assert_eq!(validate_ipv6("", true), (false, Some("Address cannot be empty".to_string())));
    assert_eq!(validate_ipv6("fe80::1%eth0", false), (false, Some("Zone IDs are not allowed".to_string())));
    assert_eq!(validate_ipv6("fe80::1%eth0", true), (true, None));
    assert_eq!(validate_ipv6("1::2::3", true), (false, Some("Invalid IPv6 address".to_string())));
    assert_eq!(validate_ipv6_network(""), (false, Some("Network cannot be empty".to_string())));
    assert_eq!(
        validate_ipv6_network("2001:db8::"),
        (false, Some("Network must include prefix length (e.g., 2001:db8::/32)".to_string()))
    );
    assert_eq!(validate_ipv6_network("2001:db8::/32"), (true, None));
    assert_eq!(validate_ipv6_network("2001:db8::/200"), (false, Some("Invalid prefix length".to_string())));
    assert_eq!(validate_ipv6_network("2001:db8:::/32"), (false, Some("Invalid IPv6 address".to_string())));
}
