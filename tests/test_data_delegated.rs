use owhois::data::delegated::{largest_prefix_length, to_prefixes, Delegated};
use owhois::data::processor::{Processor, SourceData};
use owhois::lookup::{
    Asn, AsnRange, AsnResourceLookup, Ipv4ResourceLookup, Ipv6ResourceLookup, ResourceLookup,
};
use owhois::net::{Ipv4Net, Ipv6Net};
use owhois::registry::ServerRegistry;
use std::str::FromStr;

fn servers() -> ServerRegistry {
    let names: Vec<String> = vec![
        String::from(""),
        String::from("whois.afrinic.net"),
        String::from("whois.apnic.net"),
        String::from("whois.arin.net"),
        String::from("whois.iana.org"),
        String::from("whois.lacnic.net"),
        String::from("whois.ripe.net"),
    ];
    ServerRegistry::from_names(&names)
}

const AFRINIC: &[u8] = b"2|afrinic|20240101|9|19830101|20240101|+0000\n\
afrinic|*|asn|*|3|summary\n\
afrinic|*|ipv4|*|1|summary\n\
afrinic|ZA|asn|1228|1|19910301|allocated|F36B9F4B\n\
afrinic|ZA|asn|1229|1|19910301|allocated|F36B9F4B\n\
afrinic|ZA|asn|1230|1|19910301|allocated|F36B9F4B\n\
afrinic|ZA|ipv4|41.0.0.0|2097152|20071126|allocated|F36B9F4B\n\
afrinic|ZA|ipv6|2001:4200::|23|20051021|allocated|F36B9F4B\n\
afrinic|ZA|ipv6|2001:4201::|32|20051021|allocated|F36B9F4B\n";

fn delegated_data(afrinic: &[u8], ripe: &[u8]) -> SourceData {
    SourceData {
        iana_ipv4: Vec::new(),
        iana_ipv6: Vec::new(),
        iana_asn16: Vec::new(),
        iana_asn32: Vec::new(),
        afrinic: afrinic.to_vec(),
        apnic: Vec::new(),
        arin: Vec::new(),
        lacnic: Vec::new(),
        ripe: ripe.to_vec(),
    }
}

#[test]
fn delegated() {
    let delegated = Delegated::new();
    let servers = servers();

    let mut ipv4_entries: Vec<(Ipv4Net, u32)> = Vec::new();
    let mut ipv6_entries: Vec<(Ipv6Net, u32)> = Vec::new();
    let mut asn_entries: Vec<(AsnRange, u32)> = Vec::new();

    let ipv4_lookup: Ipv4ResourceLookup = ResourceLookup::from_iter(ipv4_entries.clone());
    let ipv6_lookup: Ipv6ResourceLookup = ResourceLookup::from_iter(ipv6_entries.clone());
    let asn_lookup: AsnResourceLookup = ResourceLookup::from_iter(asn_entries.clone());

    delegated.run(
        &delegated_data(AFRINIC, b""),
        &servers,
        &ipv4_lookup,
        &ipv6_lookup,
        &asn_lookup,
        &mut ipv4_entries,
        &mut ipv6_entries,
        &mut asn_entries,
    );

    let check = (Ipv4Net::from_str("41.0.0.0/11").unwrap(), 1);
    assert_eq!(ipv4_entries.get(0).unwrap(), &check);

    let check = (Ipv6Net::from_str("2001:4201::/32").unwrap(), 1);
    assert_eq!(ipv6_entries.get(1).unwrap(), &check);

    let check = (AsnRange { start: Asn { value: 1230 }, end: Asn { value: 1231 } }, 1);
    assert_eq!(asn_entries.get(2).unwrap(), &check);
}

#[test]
fn delegated_drops_records_already_routed() {
    let delegated = Delegated::new();
    let servers = servers();
    let ipv4_lookup: Ipv4ResourceLookup =
        ResourceLookup::from_iter(vec![(Ipv4Net::from_str("41.0.0.0/8").unwrap(), 1)]);
    let ipv6_lookup: Ipv6ResourceLookup =
        ResourceLookup::from_iter(vec![(Ipv6Net::from_str("2001:4200::/23").unwrap(), 1)]);
    let asn_lookup: AsnResourceLookup =
        ResourceLookup::from_iter(vec![(AsnRange { start: Asn { value: 1228 }, end: Asn { value: 1230 } }, 6)]);
    let mut ipv4_entries: Vec<(Ipv4Net, u32)> = Vec::new();
    let mut ipv6_entries: Vec<(Ipv6Net, u32)> = Vec::new();
    let mut asn_entries: Vec<(AsnRange, u32)> = Vec::new();
    let ripe: &[u8] = b"ripencc|NL|ipv4|41.1.0.0|256|20100101|allocated\nripencc|NL|asn|1229|1|20100101|allocated\n";
    delegated.run(
        &delegated_data(AFRINIC, ripe),
        &servers,
        &ipv4_lookup,
        &ipv6_lookup,
        &asn_lookup,
        &mut ipv4_entries,
        &mut ipv6_entries,
        &mut asn_entries,
    );
    assert_eq!(ipv4_entries, vec![(Ipv4Net::from_str("41.1.0.0/24").unwrap(), 6)]);
    assert!(ipv6_entries.is_empty());
    assert_eq!(
        asn_entries,
        vec![
            (AsnRange { start: Asn { value: 1228 }, end: Asn { value: 1229 } }, 1),
            (AsnRange { start: Asn { value: 1229 }, end: Asn { value: 1230 } }, 1),
            (AsnRange { start: Asn { value: 1230 }, end: Asn { value: 1231 } }, 1),
        ]
    );
}

#[test]
fn prefixes_from_host_counts() {
    assert_eq!(to_prefixes(0x2900_0000, 2097152), vec![(0x2900_0000, 11)]);
    assert_eq!(to_prefixes(0x0a00_0000, 768), vec![(0x0a00_0000, 23), (0x0a00_0200, 24)]);
    assert_eq!(to_prefixes(0x0a00_0100, 768), vec![(0x0a00_0100, 24), (0x0a00_0200, 23)]);
    assert_eq!(to_prefixes(0x0a00_0000, 3), vec![(0x0a00_0000, 31), (0x0a00_0002, 32)]);
    assert_eq!(to_prefixes(0, 0), vec![]);
    assert_eq!(to_prefixes(0, 0x8000_0000), vec![(0, 8); 1].into_iter().chain((1..128u32).map(|i| (i << 24, 8))).collect::<Vec<_>>());
    assert_eq!(to_prefixes(0xff00_0000, 0x0100_0000), vec![(0xff00_0000, 8)]);
}

#[test]
fn alignment_of_addresses() {
    assert_eq!(largest_prefix_length(0), 8);
    assert_eq!(largest_prefix_length(0x0a00_0000), 8);
    assert_eq!(largest_prefix_length(0x0a80_0000), 9);
    assert_eq!(largest_prefix_length(0x0a00_0100), 24);
    assert_eq!(largest_prefix_length(0x0a00_0001), 32);
}
