use ipv6_only::{IPv6Address, IPv6Network, Ipv6Error};

#[test]
fn test_address_parsing() {
    let addr = IPv6Address::new("2001:db8::1").unwrap();
    assert_eq!(addr.compressed(), "2001:db8::1");
    assert_eq!(addr.exploded(), "2001:0db8:0000:0000:0000:0000:0000:0001");
}

#[test]
fn test_address_with_zone() {
    let addr = IPv6Address::new("fe80::1%eth0").unwrap();
    assert_eq!(addr.zone_id(), Some("eth0"));
    assert!(addr.is_link_local());
}

#[test]
fn test_address_types() {
    assert!(IPv6Address::new("::1").unwrap().is_loopback());
    assert!(IPv6Address::new("fe80::1").unwrap().is_link_local());
    assert!(IPv6Address::new("ff02::1").unwrap().is_multicast());
    assert!(IPv6Address::new("2001:db8::1").unwrap().is_global());
    assert!(IPv6Address::new("fd00::1").unwrap().is_unique_local());
}

#[test]
fn test_network_parsing() {
    let net = IPv6Network::new("2001:db8::/32").unwrap();
    assert_eq!(net.prefix_len(), 32);
    assert_eq!(net.network_address().compressed(), "2001:db8::");
}

#[test]
fn test_network_contains() {
    let net = IPv6Network::new("2001:db8::/32").unwrap();
    assert!(net.contains(&IPv6Address::new("2001:db8::1").unwrap()));
    assert!(!net.contains(&IPv6Address::new("2001:db9::1").unwrap()));
}

#[test]
fn test_subnets() {
    let net = IPv6Network::new("2001:db8::/32").unwrap();
    let subs = net.subnets(4).unwrap();
    assert_eq!(subs.len(), 16);
    assert_eq!(subs[0].prefix_len(), 36);
}

#[test]
fn address_value_of_full_form() {
    let addr = IPv6Address::new("2001:0db8:0000:0000:0000:0000:0000:0001").unwrap();
    assert_eq!(addr.to_u128(), 0x2001_0db8_0000_0000_0000_0000_0000_0001u128);
    assert_eq!(addr.zone_id(), None);
}

#[test]
fn address_accepts_upper_case_and_edges_of_gap() {
    assert_eq!(IPv6Address::new("FE80::ABCD").unwrap().to_u128(), 0xfe80u128 << 112 | 0xabcd);
    assert_eq!(IPv6Address::new("::").unwrap().to_u128(), 0);
    assert_eq!(IPv6Address::new("1::").unwrap().to_u128(), 1u128 << 112);
    assert_eq!(IPv6Address::new("1:2:3:4:5:6:7::").unwrap().to_u128(),
        0x0001_0002_0003_0004_0005_0006_0007_0000u128);
    assert_eq!(IPv6Address::new("::2:3:4:5:6:7:8").unwrap().to_u128(),
        0x0000_0002_0003_0004_0005_0006_0007_0008u128);
}

#[test]
fn address_rejects_malformed_text() {
    let bad = [
        "", ":", ":::", "1::2::3", "::1::", "12345::", "g::", "1:2:3:4:5:6:7", "1:2:3:4:5:6:7:8:9",
        "1:2:3:4:5:6:7:8::", "::1:2:3:4:5:6:7:8", ":1::2", "1::2:", "1:::2", "fe80::1%", "%eth0",
        "2001:db8::1/32", " ::1", "::ffff:1.2.3.4",
    ];
    for text in bad {
        assert_eq!(IPv6Address::new(text).err(), Some(Ipv6Error::InvalidAddress), "{}", text);
    }
}

#[test]
fn zone_keeps_everything_after_first_percent() {
    let addr = IPv6Address::new("fe80::1%a%b").unwrap();
    assert_eq!(addr.zone_id(), Some("a%b"));
    assert_eq!(addr.compressed(), "fe80::1%a%b");
    assert_eq!(addr.exploded(), "fe80:0000:0000:0000:0000:0000:0000:0001%a%b");
}

#[test]
fn equality_takes_the_zone_into_account() {
    let a = IPv6Address::new("fe80::1%eth0").unwrap();
    let b = IPv6Address::new("fe80::1%eth1").unwrap();
    let c = IPv6Address::new("fe80:0:0:0:0:0:0:1%eth0").unwrap();
    assert_ne!(a, b);
    assert_eq!(a, c);
    assert_eq!(a.to_u128(), b.to_u128());
}

#[test]
fn compressed_picks_longest_then_first_run() {
    let cases = [
        (0u128, "::"),
        (1u128, "::1"),
        (0x0001_0000_0000_0000_0000_0000_0000_0000u128, "1::"),
        (0x2001_0db8_0000_0000_0001_0000_0000_0001u128, "2001:db8::1:0:0:1"),
        (0x2001_0000_0000_0001_0000_0000_0000_0001u128, "2001:0:0:1::1"),
        (0x2001_0db8_0000_0001_0001_0001_0001_0001u128, "2001:db8:0:1:1:1:1:1"),
        (0x0001_0002_0003_0004_0005_0006_0007_0008u128, "1:2:3:4:5:6:7:8"),
        (0x0000_0000_0001_0000_0000_0000_0000_0001u128, "0:0:1::1"),
        (0x0000_0000_0000_0000_0000_ffff_0102_0304u128, "::ffff:102:304"),
        (0xabcd_0000_0000_0000_0000_0000_0000_0000u128, "abcd::"),
        (0x0001_0000_0000_0002_0000_0000_0003_0000u128, "1::2:0:0:3:0"),
    ];
    for (value, text) in cases {
        assert_eq!(IPv6Address::from_u128(value).compressed(), text);
        assert_eq!(IPv6Address::new(text).unwrap().to_u128(), value);
    }
}

#[test]
fn round_trip_through_compressed_and_exploded() {
    let values = [
        0u128, 1, u128::MAX, 0xfe80u128 << 112 | 0x1234, 0x2001_0db8u128 << 96,
        0x0000_0001_0000_0000_0000_0001_0000_0000u128, 0x0100_0020_0003_0000_0000_0000_0abc_0001,
    ];
    for v in values {
        let a = IPv6Address::from_u128(v);
        let back = IPv6Address::new(&a.compressed()).unwrap();
        assert_eq!(back.to_u128(), v);
        assert_eq!(back.exploded(), a.exploded());
        assert_eq!(IPv6Address::new(&a.exploded()).unwrap().to_u128(), v);
    }
    let z = IPv6Address::new("fe80::1%wlan0").unwrap();
    let back = IPv6Address::new(&z.compressed()).unwrap();
    assert_eq!(back, z);
}

#[test]
fn classification_follows_the_fixed_order() {
    let cases = [
        ("::1", "Loopback"),
        ("fe80::1", "Link-Local"),
        ("ff02::1", "Multicast"),
        ("2001:db8::1", "Global Unicast"),
        ("fd00::1", "Unique Local (ULA)"),
        ("::", "Unspecified"),
        ("4000::", "Reserved"),
        ("febf::", "Link-Local"),
        ("fec0::", "Reserved"),
        ("fc00::", "Unique Local (ULA)"),
        ("3fff::", "Global Unicast"),
    ];
    for (text, name) in cases {
        assert_eq!(IPv6Address::new(text).unwrap().address_type(), name, "{}", text);
    }
    assert!(IPv6Address::new("::").unwrap().is_unspecified());
    assert!(!IPv6Address::new("::1").unwrap().is_unspecified());
}

#[test]
fn binary_and_hex_forms() {
    let a = IPv6Address::new("2001:db8::1").unwrap();
    assert_eq!(a.to_hex(), "20010db8000000000000000000000001");
    let bin = a.to_binary();
    assert_eq!(bin.len(), 128);
    assert!(bin.starts_with("0010000000000001" /* 2001 */));
    assert!(bin.ends_with("0000000000000001"));
    assert_eq!(IPv6Address::from_u128(u128::MAX).to_binary(), "1".repeat(128));
    assert_eq!(IPv6Address::from_u128(1u128 << 127).to_binary(), format!("1{}", "0".repeat(127)));
}

#[test]
fn network_masks_the_address_down() {
    let net = IPv6Network::new("2001:db8::1/32").unwrap();
    assert_eq!(net.network_address().compressed(), "2001:db8::");
    assert_eq!(net.broadcast_address().compressed(), "2001:db8:ffff:ffff:ffff:ffff:ffff:ffff");
    assert_eq!(net.netmask().compressed(), "ffff:ffff::");
    assert_eq!(net.hostmask().compressed(), "::ffff:ffff:ffff:ffff:ffff:ffff");
    assert_eq!(net.num_addresses(), 1u128 << 96);
}

#[test]
fn network_prefix_extremes() {
    let all = IPv6Network::new("ffff::/0").unwrap();
    assert_eq!(all.network_address().to_u128(), 0);
    assert_eq!(all.broadcast_address().to_u128(), u128::MAX);
    assert_eq!(all.netmask().to_u128(), 0);
    assert_eq!(all.hostmask().to_u128(), u128::MAX);
    let one = IPv6Network::new("2001:db8::7/128").unwrap();
    assert_eq!(one.network_address().compressed(), "2001:db8::7");
    assert_eq!(one.broadcast_address().compressed(), "2001:db8::7");
    assert_eq!(one.num_addresses(), 1);
    assert_eq!(one.netmask().to_u128(), u128::MAX);
    assert_eq!(IPv6Network::new("::/+64").unwrap().prefix_len(), 64);
    assert_eq!(IPv6Network::new("::/064").unwrap().prefix_len(), 64);
}

#[test]
fn network_rejects_malformed_text() {
    assert_eq!(IPv6Network::new("2001:db8::").err(), Some(Ipv6Error::InvalidNetwork));
    assert_eq!(IPv6Network::new("").err(), Some(Ipv6Error::InvalidNetwork));
    assert_eq!(IPv6Network::new("2001:db8::/200").err(), Some(Ipv6Error::InvalidPrefix));
    assert_eq!(IPv6Network::new("2001:db8::/129").err(), Some(Ipv6Error::InvalidPrefix));
    assert_eq!(IPv6Network::new("2001:db8::/").err(), Some(Ipv6Error::InvalidPrefix));
    assert_eq!(IPv6Network::new("2001:db8::/-1").err(), Some(Ipv6Error::InvalidPrefix));
    assert_eq!(IPv6Network::new("2001:db8::/32/1").err(), Some(Ipv6Error::InvalidPrefix));
    assert_eq!(IPv6Network::new("2001:db8::/3x").err(), Some(Ipv6Error::InvalidPrefix));
    assert_eq!(IPv6Network::new("2001:db8::/99999999999999999999").err(), Some(Ipv6Error::InvalidPrefix));
    assert_eq!(IPv6Network::new("2001::db8::/32").err(), Some(Ipv6Error::InvalidAddress));
    assert_eq!(IPv6Network::new("/32").err(), Some(Ipv6Error::InvalidAddress));
    assert_eq!(IPv6Network::new("fe80::1%eth0/64").err(), Some(Ipv6Error::InvalidAddress));
    assert_eq!(IPv6Network::from_parts(0, 129).err(), Some(Ipv6Error::InvalidPrefix));
}

#[test]
fn contains_at_the_boundaries() {
    let net = IPv6Network::new("2001:db8:1::/48").unwrap();
    let first = net.network_address();
    let last = net.broadcast_address();
    assert!(net.contains(&first));
    assert!(net.contains(&last));
    assert!(!net.contains(&IPv6Address::from_u128(first.to_u128() - 1)));
    assert!(!net.contains(&IPv6Address::from_u128(last.to_u128() + 1)));
    assert!(net.contains(&IPv6Address::new("2001:db8:1::5%eth0").unwrap()));
}

#[test]
fn overlaps_is_symmetric_and_reflexive() {
    let a = IPv6Network::new("2001:db8::/32").unwrap();
    let b = IPv6Network::new("2001:db8:8000::/33").unwrap();
    let c = IPv6Network::new("2001:db9::/32").unwrap();
    let all = IPv6Network::new("::/0").unwrap();
    assert!(a.overlaps(&a));
    assert!(a.overlaps(&b) && b.overlaps(&a));
    assert!(!a.overlaps(&c) && !c.overlaps(&a));
    assert!(!b.overlaps(&c) && !c.overlaps(&b));
    assert!(all.overlaps(&c) && c.overlaps(&all) && all.overlaps(&all));
}

#[test]
fn subnets_tile_the_network() {
    let net = IPv6Network::new("2001:db8::/32").unwrap();
    let subs = net.subnets(3).unwrap();
    assert_eq!(subs.len(), 8);
    assert_eq!(subs[0].network_address().to_u128(), net.network_address().to_u128());
    assert_eq!(subs[7].broadcast_address().to_u128(), net.broadcast_address().to_u128());
    for i in 0..8 {
        assert_eq!(subs[i].prefix_len(), 35);
        assert_eq!(
            subs[i].network_address().to_u128(),
            net.network_address().to_u128() + (i as u128) * (1u128 << 93)
        );
        if i > 0 {
            assert_eq!(
                subs[i - 1].broadcast_address().to_u128() + 1,
                subs[i].network_address().to_u128()
            );
            assert!(!subs[i - 1].overlaps(&subs[i]));
        }
    }
    assert_eq!(subs[1].network_address().compressed(), "2001:db8:2000::");
}

#[test]
fn subnets_at_the_limits() {
    let net = IPv6Network::new("2001:db8::/120").unwrap();
    assert_eq!(net.subnets(8).unwrap().len(), 256);
    assert_eq!(net.subnets(9).err(), Some(Ipv6Error::DivisionError));
    assert_eq!(net.subnets(255).err(), Some(Ipv6Error::DivisionError));
    assert_eq!(net.subnets(0).unwrap(), vec![net]);
    let all = IPv6Network::new("::/0").unwrap();
    assert_eq!(all.subnets(0).unwrap(), vec![all]);
    let halves = all.subnets(1).unwrap();
    assert_eq!(halves[1].network_address().to_u128(), 1u128 << 127);
    let wide = IPv6Network::new("2001:db8::/32").unwrap();
    assert_eq!(wide.subnets(21).err(), Some(Ipv6Error::NetworkTooLarge));
    assert_eq!(wide.subnets(20).unwrap().len(), 1 << 20);
}

#[test]
fn supernet_then_subnets_holds_the_network() {
    let net = IPv6Network::new("2001:db8:abcd::/48").unwrap();
    let up = net.supernet(4).unwrap();
    assert_eq!(up.prefix_len(), 44);
    assert_eq!(up.network_address().compressed(), "2001:db8:abc0::");
    let subs = up.subnets(4).unwrap();
    assert!(subs.contains(&net));
    assert_eq!(subs[0xd], net);
    assert_eq!(net.supernet(49).err(), Some(Ipv6Error::DivisionError));
    assert_eq!(net.supernet(48).unwrap().prefix_len(), 0);
    assert_eq!(net.supernet(0).unwrap(), net);
}

#[test]
fn error_messages() {
    assert_eq!(Ipv6Error::InvalidAddress.message(), "Invalid IPv6 address");
    assert_eq!(Ipv6Error::InvalidNetwork.message(), "Invalid IPv6 network: missing prefix length");
    assert_eq!(Ipv6Error::InvalidPrefix.message(), "Invalid prefix length");
    assert_eq!(Ipv6Error::NetworkTooLarge.message(), "Network too large to enumerate");
    assert_eq!(Ipv6Error::DivisionError.message(), "Cannot divide network");
}

#[test]
fn inner_gives_the_octets() {
    let a = IPv6Address::new("2001:db8::ff00:42:8329").unwrap();
    assert_eq!(
        a.inner(),
        [0x20, 0x01, 0x0d, 0xb8, 0, 0, 0, 0, 0, 0, 0xff, 0x00, 0x00, 0x42, 0x83, 0x29]
    );
    assert_eq!(u128::from_be_bytes(a.inner()), a.to_u128());
}

#[test]
fn from_str_reads_like_new() {
    let a: IPv6Address = "fe80::1%eth0".parse().unwrap();
    assert_eq!(a, IPv6Address::new("fe80::1%eth0").unwrap());
    let n: IPv6Network = "2001:db8::/32".parse().unwrap();
    assert_eq!(n, IPv6Network::new("2001:db8::/32").unwrap());
    assert_eq!("nope".parse::<IPv6Address>().err(), Some(Ipv6Error::InvalidAddress));
    assert_eq!("::/x".parse::<IPv6Network>().err(), Some(Ipv6Error::InvalidPrefix));
}
