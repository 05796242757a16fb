use owhois::data::processor::SourceData;
use owhois::data::{format_asn, process_public, run_processors, Stage};
use owhois::data::delegated::Delegated;
use owhois::data::iana::Iana;
use owhois::lookup::{Asn, AsnRange};
use owhois::net::Ipv4Net;
use owhois::registry::ServerRegistry;

fn public_data() -> SourceData {
    SourceData {
        iana_ipv4: b"Prefix,Designation,Date,WHOIS,RDAP,Status [1],Note\n\
000/8,IANA - Local Identification,1981-09,,,RESERVED,[2]\n\
041/8,AFRINIC,2005-04,whois.afrinic.net,https://rdap.afrinic.net/rdap/,ALLOCATED,\n\
193/8,RIPE NCC,1993-05,whois.ripe.net,https://rdap.db.ripe.net/,ALLOCATED,\n"
            .to_vec(),
        iana_ipv6: b"Prefix,Designation,Date,WHOIS,RDAP,Status,Note\n\
2001:4200::/23,AFRINIC,2006-10-03,whois.afrinic.net,,ALLOCATED,\n"
            .to_vec(),
        iana_asn16: b"Number,Description,WHOIS,Reference,Registration Date\n\
1-1876,Assigned by ARIN,whois.arin.net,,\n"
            .to_vec(),
        iana_asn32: b"Number,Description,WHOIS,Reference,Registration Date\n\
4294967295,Reserved,,[RFC7300],\n"
            .to_vec(),
        afrinic: b"afrinic|ZA|ipv4|41.0.0.0|2097152|20071126|allocated\n\
afrinic|ZA|ipv6|2001:4201::|32|20051021|allocated\n\
afrinic|ZA|asn|1230|1|19910301|allocated\n"
            .to_vec(),
        apnic: Vec::new(),
        arin: b"arin|US|asn|1230|1|19910301|assigned\n".to_vec(),
        lacnic: Vec::new(),
        ripe: b"ripencc|NL|ipv4|41.1.0.0|768|20100101|allocated\n\
ripencc|NL|ipv4|193.0.0.0|65536|19930901|allocated\n"
            .to_vec(),
    }
}

#[test]
fn public_pipeline_compiles_tables() {
    let out = process_public(&public_data());
    assert_eq!(
        out.ipv4,
        "0.0.0.0/8,\n41.0.0.0/8,whois.afrinic.net\n193.0.0.0/8,whois.ripe.net\n\
41.1.0.0/23,whois.ripe.net\n41.1.2.0/24,whois.ripe.net\n"
    );
    assert_eq!(out.ipv6, "2001:4200::/23,whois.afrinic.net\n");
    assert_eq!(out.asn, "1-1876,whois.arin.net\n4294967295-4294967295,\n1230-1230,whois.afrinic.net\n");
}

#[test]
fn public_pipeline_is_idempotent() {
    let first = process_public(&public_data());
    let second = process_public(&public_data());
    assert_eq!(first.ipv4, second.ipv4);
    assert_eq!(first.ipv6, second.ipv6);
    assert_eq!(first.asn, second.asn);
}

#[test]
fn stages_see_earlier_stages() {
    let names: Vec<String> = vec![String::from("whois.afrinic.net"), String::from("whois.ripe.net")];
    let servers = ServerRegistry::from_names(&names);
    let data = public_data();
    let only_delegated = run_processors(&data, &servers, &vec![Stage::Delegated(Delegated {})]);
    assert_eq!(only_delegated.0.len(), 4);
    assert_eq!(only_delegated.0[0], (Ipv4Net { addr: 0x2900_0000, prefix_len: 11 }, 0));
    let both = run_processors(&data, &servers, &vec![Stage::Iana(Iana {}), Stage::Delegated(Delegated {})]);
    assert_eq!(both.0.len(), 4);
    assert_eq!(both.0[0], (Ipv4Net { addr: 0x2900_0000, prefix_len: 8 }, 0));
    assert_eq!(both.0[2], (Ipv4Net { addr: 0x2901_0000, prefix_len: 23 }, 1));
    let none = run_processors(&data, &servers, &vec![]);
    assert!(none.0.is_empty() && none.1.is_empty() && none.2.is_empty());
}

#[test]
fn asn_table_lines() {
    let names: Vec<String> = vec![String::from("x"), String::from("y")];
    let servers = ServerRegistry::from_names(&names);
    let entries = vec![
        (AsnRange { start: Asn { value: 7 }, end: Asn { value: 8 } }, 1),
        (AsnRange { start: Asn { value: 4294967295 }, end: Asn { value: 0 } }, 0),
        (AsnRange { start: Asn { value: 100 }, end: Asn { value: 4294967296 } }, 0),
    ];
    assert_eq!(format_asn(&servers, &entries), "7-7,y\n4294967295-4294967295,x\n100-4294967295,x\n");
}
