use ipv6_only::subnet::count_bits;
use ipv6_only::{IPv6Network, IPv6SubnetCalculator, Ipv6Error, SubnetInfo};

#[test]
fn test_calculator_info() {
    let calc = IPv6SubnetCalculator::new("2001:db8::/32").unwrap();
    let info = calc.get_info();
    assert_eq!(info.prefix_length, 32);
    assert_eq!(info.network_address, "2001:db8::");
}

#[test]
fn test_divide_into_subnets() {
    let calc = IPv6SubnetCalculator::new("2001:db8::/32").unwrap();
    let subnets = calc.divide_into_subnets(4).unwrap();
    assert_eq!(subnets.len(), 4);
    assert_eq!(subnets[0].prefix_length, 34);
}

#[test]
fn test_contains_address() {
    let calc = IPv6SubnetCalculator::new("2001:db8::/32").unwrap();
    assert!(calc.contains_address("2001:db8::1"));
    assert!(!calc.contains_address("2001:db9::1"));
}

#[test]
fn test_supernet() {
    let calc = IPv6SubnetCalculator::new("2001:db8::/32").unwrap();
    let supernet = calc.get_supernet(24).unwrap();
    assert_eq!(supernet.prefix_length, 24);
}

#[test]
fn info_fields_in_full() {
    let info = IPv6SubnetCalculator::new("2001:db8::5/48").unwrap().get_info();
    assert_eq!(info.network, "2001:db8::/48");
    assert_eq!(info.network_address, "2001:db8::");
    assert_eq!(info.first_address, "2001:db8::");
    assert_eq!(info.last_address, "2001:db8:0:ffff:ffff:ffff:ffff:ffff");
    assert_eq!(info.prefix_length, 48);
    assert_eq!(info.num_addresses, "1208925819614629174706176");
    assert_eq!(info.netmask, "ffff:ffff:ffff:0000:0000:0000:0000:0000");
}

#[test]
fn info_of_the_whole_space_and_of_one_address() {
    let all = SubnetInfo::from_network(&IPv6Network::new("::/0").unwrap());
    assert_eq!(all.network, "::/0");
    assert_eq!(all.num_addresses, "340282366920938463463374607431768211456");
    assert_eq!(all.last_address, "ffff:ffff:ffff:ffff:ffff:ffff:ffff:ffff");
    let one = SubnetInfo::from_network(&IPv6Network::new("::1/128").unwrap());
    assert_eq!(one.network, "::1/128");
    assert_eq!(one.num_addresses, "1");
    let big = SubnetInfo::from_network(&IPv6Network::new("8000::/1").unwrap());
    assert_eq!(big.num_addresses, "170141183460469231731687303715884105728");
}

#[test]
fn network_to_text() {
    assert_eq!(IPv6Network::new("2001:db8::1/32").unwrap().to_text(), "2001:db8::/32");
    assert_eq!(IPv6Network::new("fe80::/10").unwrap().to_text(), "fe80::/10");
    assert_eq!(IPv6Network::new("::/0").unwrap().to_text(), "::/0");
}

#[test]
fn bits_for_a_count() {
    let cases = [(0usize, 0u8), (1, 0), (2, 1), (3, 2), (4, 2), (5, 3), (8, 3), (9, 4), (1024, 10), (1025, 11)];
    for (n, b) in cases {
        assert_eq!(count_bits(n), b, "{}", n);
    }
    assert_eq!(count_bits(usize::MAX), usize::BITS as u8);
}

#[test]
fn divide_into_takes_the_first_networks() {
    let calc = IPv6SubnetCalculator::new("2001:db8::/32").unwrap();
    let subnets = calc.divide_into_subnets(3).unwrap();
    assert_eq!(subnets.len(), 3);
    assert_eq!(subnets[0].network, "2001:db8::/34");
    assert_eq!(subnets[1].network, "2001:db8:4000::/34");
    assert_eq!(subnets[2].network, "2001:db8:8000::/34");
    assert_eq!(calc.divide_into_subnets(1).unwrap()[0].network, "2001:db8::/32");
    assert_eq!(calc.divide_into_subnets(0).err(), Some(Ipv6Error::DivisionError));
    assert_eq!(calc.divide_into_subnets((1 << 20) + 1).err(), Some(Ipv6Error::NetworkTooLarge));
    let small = IPv6SubnetCalculator::new("2001:db8::/127").unwrap();
    assert_eq!(small.divide_into_subnets(2).unwrap().len(), 2);
    assert_eq!(small.divide_into_subnets(3).err(), Some(Ipv6Error::DivisionError));
}

#[test]
fn divide_by_prefix_and_its_errors() {
    let calc = IPv6SubnetCalculator::new("2001:db8::/32").unwrap();
    let subnets = calc.divide_by_prefix(34).unwrap();
    assert_eq!(subnets.len(), 4);
    assert_eq!(subnets[3].network, "2001:db8:c000::/34");
    assert_eq!(subnets[3].last_address, "2001:db8:ffff:ffff:ffff:ffff:ffff:ffff");
    assert_eq!(calc.divide_by_prefix(32).err(), Some(Ipv6Error::DivisionError));
    assert_eq!(calc.divide_by_prefix(16).err(), Some(Ipv6Error::DivisionError));
    assert_eq!(calc.divide_by_prefix(129).err(), Some(Ipv6Error::InvalidPrefix));
    assert_eq!(calc.divide_by_prefix(64).err(), Some(Ipv6Error::NetworkTooLarge));
}

#[test]
fn supernet_and_its_errors() {
    let calc = IPv6SubnetCalculator::new("2001:db8:abcd::/48").unwrap();
    let up = calc.get_supernet(32).unwrap();
    assert_eq!(up.network, "2001:db8::/32");
    assert_eq!(calc.get_supernet(48).err(), Some(Ipv6Error::DivisionError));
    assert_eq!(calc.get_supernet(64).err(), Some(Ipv6Error::DivisionError));
    assert_eq!(calc.get_supernet(0).unwrap().network, "::/0");
}

#[test]
fn calculator_on_text_that_is_no_network() {
    assert_eq!(IPv6SubnetCalculator::new("2001:db8::").err(), Some(Ipv6Error::InvalidNetwork));
    assert_eq!(IPv6SubnetCalculator::new("2001:db8::/130").err(), Some(Ipv6Error::InvalidPrefix));
    let calc = IPv6SubnetCalculator::new("2001:db8::/32").unwrap();
    assert!(!calc.contains_address("not an address"));
    assert!(calc.contains_address("2001:db8:ffff::1%eth0"));
    assert!(calc.overlaps_with("2001:db8:1::/48"));
    assert!(calc.overlaps_with("2001::/16"));
    assert!(!calc.overlaps_with("2001:db9::/32"));
    assert!(!calc.overlaps_with("2001:db8::"));
}

#[test]
fn allocation_hands_out_consecutive_networks() {
    let shares = IPv6SubnetCalculator::recommend_allocation("2001:db8::/32", &vec![2, 0, 3]).unwrap();
    assert_eq!(shares.len(), 3);
    let names: Vec<Vec<&str>> =
        shares.iter().map(|s| s.iter().map(|i| i.network.as_str()).collect()).collect();
    assert_eq!(names[0], vec!["2001:db8::/35", "2001:db8:2000::/35"]);
    assert_eq!(names[1], Vec::<&str>::new());
    assert_eq!(names[2], vec!["2001:db8:4000::/35", "2001:db8:6000::/35", "2001:db8:8000::/35"]);
    let none = IPv6SubnetCalculator::recommend_allocation("2001:db8::/32", &vec![]).unwrap();
    assert!(none.is_empty());
}

#[test]
fn allocation_errors() {
    assert_eq!(
        IPv6SubnetCalculator::recommend_allocation("2001:db8::", &vec![1]).err(),
        Some(Ipv6Error::InvalidNetwork)
    );
    assert_eq!(
        IPv6SubnetCalculator::recommend_allocation("2001:db8::/127", &vec![2, 1]).err(),
        Some(Ipv6Error::DivisionError)
    );
    assert_eq!(
        IPv6SubnetCalculator::recommend_allocation("2001:db8::/32", &vec![usize::MAX, 1]).err(),
        Some(Ipv6Error::DivisionError)
    );
    assert_eq!(
        IPv6SubnetCalculator::recommend_allocation("2001:db8::/32", &vec![1 << 20, 1]).err(),
        Some(Ipv6Error::NetworkTooLarge)
    );
}
