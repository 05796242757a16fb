use owhois::data::iana::Iana;
use owhois::data::processor::{Processor, SourceData};
use owhois::lookup::{
    Asn, AsnRange, AsnResourceLookup, Ipv4ResourceLookup, Ipv6ResourceLookup, ResourceLookup,
};
use owhois::net::{Ipv4Net, Ipv6Net};
use owhois::registry::ServerRegistry;
use std::str::FromStr;

fn servers() -> ServerRegistry {
    let names: Vec<String> = vec![
        String::from(""),
        String::from("whois.afrinic.net"),
        String::from("whois.apnic.net"),
        String::from("whois.arin.net"),
        String::from("whois.iana.org"),
        String::from("whois.lacnic.net"),
        String::from("whois.ripe.net"),
    ];
    ServerRegistry::from_names(&names)
}

fn iana_data() -> SourceData {
    SourceData {
        iana_ipv4: b"Prefix,Designation,Date,WHOIS,RDAP,Status [1],Note\n\
000/8,IANA - Local Identification,1981-09,,,RESERVED,[2]\n\
001/8,APNIC,2010-01,whois.apnic.net,https://rdap.apnic.net/,ALLOCATED,\n\
003/8,Administered by ARIN,1994-05,whois.arin.net,https://rdap.arin.net/registry,LEGACY,\n\
not/a/row,X,1994-05,whois.arin.net,,LEGACY,\n"
            .to_vec(),
        iana_ipv6: b"Prefix,Designation,Date,WHOIS,RDAP,Status,Note\n\
2001:0000::/23,IANA,1999-07-01,whois.iana.org,,ALLOCATED,\n\
2001:0200::/23,APNIC,1999-07-01,whois.apnic.net,https://rdap.apnic.net/,ALLOCATED,\n"
            .to_vec(),
        iana_asn16: b"Number,Description,WHOIS,Reference,Registration Date\n\
0,Reserved,,[RFC7607],\n\
1-6,Assigned by ARIN,whois.arin.net,,\n\
7,Assigned by RIPE NCC,whois.ripe.net,,\n"
            .to_vec(),
        iana_asn32: b"Number,Description,WHOIS,Reference,Registration Date\n\
0-65535,See Sixteen-bit,,,\n\
65536-65551,Reserved for use in documentation,,[RFC5398],\n\
4294967295,Reserved,,[RFC7300],\n"
            .to_vec(),
        afrinic: Vec::new(),
        apnic: Vec::new(),
        arin: Vec::new(),
        lacnic: Vec::new(),
        ripe: Vec::new(),
    }
}

#[test]
fn iana() {
    let iana = Iana::new();
    let servers = servers();

    let mut ipv4_entries: Vec<(Ipv4Net, u32)> = Vec::new();
    let mut ipv6_entries: Vec<(Ipv6Net, u32)> = Vec::new();
    let mut asn_entries: Vec<(AsnRange, u32)> = Vec::new();

    let ipv4_lookup: Ipv4ResourceLookup = ResourceLookup::from_iter(ipv4_entries.clone());
    let ipv6_lookup: Ipv6ResourceLookup = ResourceLookup::from_iter(ipv6_entries.clone());
    let asn_lookup: AsnResourceLookup = ResourceLookup::from_iter(asn_entries.clone());

    iana.run(
        &iana_data(),
        &servers,
        &ipv4_lookup,
        &ipv6_lookup,
        &asn_lookup,
        &mut ipv4_entries,
        &mut ipv6_entries,
        &mut asn_entries,
    );

    let check = (Ipv4Net::from_str("0.0.0.0/8").unwrap(), 0);
    assert_eq!(ipv4_entries.get(0).unwrap(), &check);

    let check = (Ipv6Net::from_str("2001:0200::/23").unwrap(), 2);
    assert_eq!(ipv6_entries.get(1).unwrap(), &check);

    let check = (AsnRange { start: Asn { value: 7 }, end: Asn { value: 8 } }, 6);
    assert_eq!(asn_entries.get(2).unwrap(), &check);
}

#[test]
fn iana_rows_in_full() {
    let iana = Iana::new();
    let servers = servers();
    let mut ipv4_entries: Vec<(Ipv4Net, u32)> = Vec::new();
    let mut ipv6_entries: Vec<(Ipv6Net, u32)> = Vec::new();
    let mut asn_entries: Vec<(AsnRange, u32)> = Vec::new();
    let ipv4_lookup: Ipv4ResourceLookup = ResourceLookup::from_iter(vec![]);
    let ipv6_lookup: Ipv6ResourceLookup = ResourceLookup::from_iter(vec![]);
    let asn_lookup: AsnResourceLookup = ResourceLookup::from_iter(vec![]);
    iana.run(
        &iana_data(),
        &servers,
        &ipv4_lookup,
        &ipv6_lookup,
        &asn_lookup,
        &mut ipv4_entries,
        &mut ipv6_entries,
        &mut asn_entries,
    );
    assert_eq!(
        ipv4_entries,
        vec![
            (Ipv4Net { addr: 0, prefix_len: 8 }, 0),
            (Ipv4Net { addr: 0x0100_0000, prefix_len: 8 }, 2),
            (Ipv4Net { addr: 0x0300_0000, prefix_len: 8 }, 3),
        ]
    );
    assert_eq!(ipv6_entries.len(), 2);
    assert_eq!(ipv6_entries[0], (Ipv6Net::from_str("2001::/23").unwrap(), 4));
    assert_eq!(
        asn_entries,
        vec![
            (AsnRange { start: Asn { value: 0 }, end: Asn { value: 1 } }, 0),
            (AsnRange { start: Asn { value: 1 }, end: Asn { value: 7 } }, 3),
            (AsnRange { start: Asn { value: 7 }, end: Asn { value: 8 } }, 6),
            (AsnRange { start: Asn { value: 65536 }, end: Asn { value: 65552 } }, 0),
            (AsnRange { start: Asn { value: 4294967295 }, end: Asn { value: 0 } }, 0),
        ]
    );
}
