use owhois::lookup::{Ipv4ResourceLookup, ResourceLookup};
use owhois::net::Ipv4Net;
use std::str::FromStr;

#[test]
fn ipv4_lookup_empty() {
    let ipv4_lookup: Ipv4ResourceLookup = ResourceLookup::from_iter(vec![]);
    let value = ipv4_lookup.get_longest_match_value(Ipv4Net::from_str("1.0.0.0/32").unwrap());
    assert_eq!(value, None);
}

#[test]
fn ipv4_lookup_single() {
    let ipv4_lookup: Ipv4ResourceLookup =
        ResourceLookup::from_iter(vec![(Ipv4Net::from_str("1.0.0.0/32").unwrap(), 1)]);
    let value = ipv4_lookup.get_longest_match_value(Ipv4Net::from_str("1.0.0.0/32").unwrap());
    assert_eq!(value, Some(1));
}

#[test]
fn ipv4_lookup_multiple() {
    let ipv4_lookup: Ipv4ResourceLookup = ResourceLookup::from_iter(vec![
        (Ipv4Net::from_str("1.0.0.0/32").unwrap(), 1),
        (Ipv4Net::from_str("2.0.0.0/32").unwrap(), 2),
    ]);
    let value = ipv4_lookup.get_longest_match_value(Ipv4Net::from_str("1.0.0.0/32").unwrap());
    assert_eq!(value, Some(1));
}

#[test]
fn ipv4_lookup_parents() {
    let ipv4_lookup: Ipv4ResourceLookup = ResourceLookup::from_iter(vec![
        (Ipv4Net::from_str("2.0.0.0/8").unwrap(), 1),
        (Ipv4Net::from_str("2.0.0.0/16").unwrap(), 2),
        (Ipv4Net::from_str("2.0.0.0/32").unwrap(), 3),
    ]);
    let value = ipv4_lookup.get_longest_match_value(Ipv4Net::from_str("2.0.0.0/32").unwrap());
    assert_eq!(value, Some(3));

    let value = ipv4_lookup.get_longest_match_value(Ipv4Net::from_str("2.0.0.0/31").unwrap());
    assert_eq!(value, Some(2));

    let value = ipv4_lookup.get_longest_match_value(Ipv4Net::from_str("2.0.0.0/9").unwrap());
    assert_eq!(value, Some(1));

    let value = ipv4_lookup.get_longest_match_value(Ipv4Net::from_str("2.0.0.0/7").unwrap());
    assert_eq!(value, None);
}

#[test]
fn ipv4_lookup_bounds() {
    let ipv4_lookup: Ipv4ResourceLookup = ResourceLookup::from_iter(vec![
        (Ipv4Net::from_str("0.0.0.0/32").unwrap(), 1),
        (Ipv4Net::from_str("0.0.0.0/8").unwrap(), 2),
        (Ipv4Net::from_str("255.0.0.0/8").unwrap(), 3),
        (Ipv4Net::from_str("255.255.255.255/32").unwrap(), 4),
    ]);
    let value = ipv4_lookup.get_longest_match_value(Ipv4Net::from_str("0.0.0.0/32").unwrap());
    assert_eq!(value, Some(1));
    let value = ipv4_lookup.get_longest_match_value(Ipv4Net::from_str("0.0.0.1/32").unwrap());
    assert_eq!(value, Some(2));
    let value = ipv4_lookup.get_longest_match_value(Ipv4Net::from_str("0.0.0.0/31").unwrap());
    assert_eq!(value, Some(2));
    let value = ipv4_lookup.get_longest_match_value(Ipv4Net::from_str("0.0.0.0/8").unwrap());
    assert_eq!(value, Some(2));
    let value = ipv4_lookup.get_longest_match_value(Ipv4Net::from_str("0.0.0.0/7").unwrap());
    assert_eq!(value, None);

    let value = ipv4_lookup.get_longest_match_value(Ipv4Net::from_str("255.255.255.255/32").unwrap());
    assert_eq!(value, Some(4));
    let value = ipv4_lookup.get_longest_match_value(Ipv4Net::from_str("255.255.255.254/32").unwrap());
    assert_eq!(value, Some(3));
    let value = ipv4_lookup.get_longest_match_value(Ipv4Net::from_str("255.255.255.254/31").unwrap());
    assert_eq!(value, Some(3));
    let value = ipv4_lookup.get_longest_match_value(Ipv4Net::from_str("255.0.0.0/8").unwrap());
    assert_eq!(value, Some(3));
    let value = ipv4_lookup.get_longest_match_value(Ipv4Net::from_str("254.0.0.0/7").unwrap());
    assert_eq!(value, None);
}

#[test]
fn ipv4_lookup_returns_matched_prefix() {
    let ipv4_lookup: Ipv4ResourceLookup = ResourceLookup::from_iter(vec![
        (Ipv4Net::from_str("10.0.0.0/8").unwrap(), 1),
        (Ipv4Net::from_str("10.1.0.0/16").unwrap(), 2),
    ]);
    let hit = ipv4_lookup.get_longest_match(Ipv4Net::from_str("10.1.2.3").unwrap());
    assert_eq!(hit, Some((Some(Ipv4Net { addr: 0x0a01_0000, prefix_len: 16 }), 2)));
    let value = ipv4_lookup.get_longest_match_value(Ipv4Net::from_str("10.1.2.3").unwrap());
    assert_eq!(value, hit.map(|h| h.1));
    let hit = ipv4_lookup.get_longest_match(Ipv4Net::from_str("10.2.0.0/16").unwrap());
    assert_eq!(hit, Some((Some(Ipv4Net { addr: 0x0a00_0000, prefix_len: 8 }), 1)));
}

#[test]
fn ipv4_lookup_whole_space() {
    let ipv4_lookup: Ipv4ResourceLookup = ResourceLookup::from_iter(vec![(Ipv4Net::from_str("0.0.0.0/0").unwrap(), 9)]);
    assert_eq!(ipv4_lookup.get_longest_match_value(Ipv4Net::from_str("255.255.255.255").unwrap()), Some(9));
    assert_eq!(ipv4_lookup.get_longest_match_value(Ipv4Net::from_str("0.0.0.0/0").unwrap()), Some(9));
}

#[test]
fn ipv4_net_text_and_bounds() {
    let net = Ipv4Net::from_str("192.168.1.77/24").unwrap();
    assert_eq!(net.addr(), 0xc0a8_014d);
    assert_eq!(net.prefix_len(), 24);
    assert_eq!(net.network(), 0xc0a8_0100);
    assert_eq!(net.broadcast(), 0xc0a8_01ff);
    assert_eq!(net.to_text(), "192.168.1.77/24");
    assert!(Ipv4Net::from_str("192.168.1.0/24").unwrap().contains(&Ipv4Net::from_str("192.168.1.5").unwrap()));
    assert!(!Ipv4Net::from_str("192.168.1.5").unwrap().contains(&Ipv4Net::from_str("192.168.1.0/24").unwrap()));
    assert_eq!(Ipv4Net::parse("10.0.0.1"), Some(Ipv4Net { addr: 0x0a00_0001, prefix_len: 32 }));
    assert_eq!(Ipv4Net::parse("10.0.0.0/33"), None);
    assert_eq!(Ipv4Net::parse("asdf"), None);
    assert_eq!(Ipv4Net::new(1, 33), None);
}

#[test]
fn ipv4_nested_first_address_outside_child() {
    let ipv4_lookup: Ipv4ResourceLookup = ResourceLookup::from_iter(vec![
        (Ipv4Net::from_str("2.0.0.0/8").unwrap(), 1),
        (Ipv4Net::from_str("2.0.0.0/16").unwrap(), 2),
        (Ipv4Net::from_str("2.0.0.0/32").unwrap(), 3),
    ]);
    assert_eq!(ipv4_lookup.get_longest_match_value(Ipv4Net::from_str("2.0.0.1").unwrap()), Some(2));
    assert_eq!(ipv4_lookup.get_longest_match_value(Ipv4Net::from_str("2.1.0.0").unwrap()), Some(1));
    assert_eq!(ipv4_lookup.get_longest_match_value(Ipv4Net::from_str("2.0.0.0/16").unwrap()), Some(2));
    assert_eq!(ipv4_lookup.get_longest_match_value(Ipv4Net::from_str("3.0.0.0").unwrap()), None);
}
