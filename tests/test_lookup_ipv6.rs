use owhois::lookup::{Ipv6ResourceLookup, ResourceLookup};
use owhois::net::Ipv6Net;
use std::str::FromStr;

#[test]
fn ipv6_lookup_empty() {
    let ipv6_lookup: Ipv6ResourceLookup = ResourceLookup::from_iter(vec![]);
    let value = ipv6_lookup.get_longest_match_value(Ipv6Net::from_str("::/128").unwrap());
    assert_eq!(value, None);
}

#[test]
fn ipv6_lookup_single() {
    let ipv6_lookup: Ipv6ResourceLookup = ResourceLookup::from_iter(vec![(Ipv6Net::from_str("::/128").unwrap(), 1)]);
    let value = ipv6_lookup.get_longest_match_value(Ipv6Net::from_str("::/128").unwrap());
    assert_eq!(value, Some(1));
}

#[test]
fn ipv6_lookup_multiple() {
    let ipv6_lookup: Ipv6ResourceLookup = ResourceLookup::from_iter(vec![
        (Ipv6Net::from_str("::/128").unwrap(), 1),
        (Ipv6Net::from_str("::1/128").unwrap(), 2),
    ]);
    let value = ipv6_lookup.get_longest_match_value(Ipv6Net::from_str("::/128").unwrap());
    assert_eq!(value, Some(1));
}

#[test]
fn ipv6_lookup_parents() {
    let ipv6_lookup: Ipv6ResourceLookup = ResourceLookup::from_iter(vec![
        (Ipv6Net::from_str("::/16").unwrap(), 1),
        (Ipv6Net::from_str("::/32").unwrap(), 2),
        (Ipv6Net::from_str("::/48").unwrap(), 3),
    ]);
    let value = ipv6_lookup.get_longest_match_value(Ipv6Net::from_str("::/48").unwrap());
    assert_eq!(value, Some(3));

    let value = ipv6_lookup.get_longest_match_value(Ipv6Net::from_str("::/32").unwrap());
    assert_eq!(value, Some(2));

    let value = ipv6_lookup.get_longest_match_value(Ipv6Net::from_str("::/16").unwrap());
    assert_eq!(value, Some(1));

    let value = ipv6_lookup.get_longest_match_value(Ipv6Net::from_str("::/15").unwrap());
    assert_eq!(value, None);
}

#[test]
fn ipv6_lookup_wrapping_entries() {
    let ipv6_lookup: Ipv6ResourceLookup = ResourceLookup::from_iter(vec![
        (Ipv6Net::from_str("::/0").unwrap(), 1),
        (Ipv6Net::from_str("ffff::/16").unwrap(), 2),
        (Ipv6Net::from_str("ffff:ffff:ffff:ffff:ffff:ffff:ffff:ffff/128").unwrap(), 3),
    ]);
    let top = Ipv6Net::from_str("ffff:ffff:ffff:ffff:ffff:ffff:ffff:ffff").unwrap();
    assert_eq!(ipv6_lookup.get_longest_match_value(top), Some(3));
    let near_top = Ipv6Net::from_str("ffff:ffff:ffff:ffff:ffff:ffff:ffff:fffe").unwrap();
    assert_eq!(ipv6_lookup.get_longest_match_value(near_top), Some(2));
    assert_eq!(ipv6_lookup.get_longest_match_value(Ipv6Net::from_str("2001:db8::1").unwrap()), Some(1));
    let hit = ipv6_lookup.get_longest_match(Ipv6Net::from_str("::/0").unwrap());
    assert_eq!(hit, Some((Some(Ipv6Net { addr: 0, prefix_len: 0 }), 1)));
}

#[test]
fn ipv6_net_text_and_bounds() {
    let net = Ipv6Net::from_str("2001:db8::1/32").unwrap();
    assert_eq!(net.addr(), 0x2001_0db8_0000_0000_0000_0000_0000_0001);
    assert_eq!(net.network(), 0x2001_0db8_0000_0000_0000_0000_0000_0000);
    assert_eq!(net.broadcast(), 0x2001_0db8_ffff_ffff_ffff_ffff_ffff_ffff);
    assert_eq!(net.to_text(), "2001:db8::1/32");
    assert_eq!(Ipv6Net::from_str("0002::/32").unwrap(), Ipv6Net { addr: 0x0002_0000_0000_0000_0000_0000_0000_0000, prefix_len: 32 });
    assert_eq!(Ipv6Net::parse("::1"), Some(Ipv6Net { addr: 1, prefix_len: 128 }));
    assert_eq!(Ipv6Net::parse("::/129"), None);
    assert!(Ipv6Net::from_str("::/0").unwrap().contains(&net));
}
