use owhois::context::{parse_query, Context, ContextError, Resource, Table};
use owhois::lookup::{Asn, AsnRange};
use owhois::net::Ipv4Net;
use std::str::FromStr;

const IPV4_DATA: &[u8] = b"1.0.0.0/24,first-server\n2.0.0.0/16,second-server\n4.0.0.0/8,\n";
const IPV6_DATA: &[u8] = b"2::/32,second-server\n";
const ASN_DATA: &[u8] = b"300-599,first-server\n2500-2599,third-server\n";

#[test]
fn context() {
    let context = Context::from_files(IPV4_DATA, IPV6_DATA, ASN_DATA).unwrap();

    let s1: String = String::from_str("first-server").unwrap();
    let s2: String = String::from_str("second-server").unwrap();
    let s3: String = String::from_str("third-server").unwrap();

    let value = context.lookup("asdf");
    assert_eq!(value, None);

    let value = context.lookup("1.0.0.0");
    assert_eq!(value, Some(&s1));

    let value = context.lookup("2.0.0.0/16");
    assert_eq!(value, Some(&s2));

    let value = context.lookup("4.0.0.0/8");
    assert_eq!(value, None);

    let value = context.lookup("0002::/32");
    assert_eq!(value, Some(&s2));

    let value = context.lookup("::1");
    assert_eq!(value, None);

    let value = context.lookup("AS500");
    assert_eq!(value, Some(&s1));

    let value = context.lookup("AS500-AS2500");
    assert_eq!(value, None);

    let value = context.lookup("AS2500-AS2600");
    assert_eq!(value, Some(&s3));
}

#[test]
fn context_registry_is_sorted_and_ids_follow_it() {
    let context = Context::from_files(IPV4_DATA, IPV6_DATA, ASN_DATA).unwrap();
    assert_eq!(context.servers.len(), 4);
    assert_eq!(context.servers.name_of(0).unwrap(), "");
    assert_eq!(context.servers.name_of(1).unwrap(), "first-server");
    assert_eq!(context.servers.name_of(2).unwrap(), "second-server");
    assert_eq!(context.servers.name_of(3).unwrap(), "third-server");
    assert_eq!(context.servers.name_of(4), None);
    assert_eq!(context.lookup_internal("4.1.2.3"), Some(0));
    assert_eq!(context.lookup_internal("as300"), Some(1));
    assert_eq!(context.lookup_internal("AS2599"), Some(3));
    assert_eq!(context.lookup_internal("AS2600"), None);
}

#[test]
fn context_asn_query_forms() {
    let context = Context::from_files(IPV4_DATA, IPV6_DATA, ASN_DATA).unwrap();
    assert_eq!(context.lookup("as599"), Some(&String::from("first-server")));
    assert_eq!(context.lookup("AS2500 -AS2600"), Some(&String::from("third-server")));
    assert_eq!(context.lookup("AS99999999999"), None);
    assert_eq!(context.lookup("AS"), None);
}

#[test]
fn context_malformed_rows() {
    let bad = Context::from_files(b"1.0.0.0/24,a\nnot-a-prefix,b\n", IPV6_DATA, ASN_DATA);
    assert_eq!(bad.err(), Some(ContextError::MalformedRow { table: Table::Ipv4, row: 1 }));
    let bad = Context::from_files(IPV4_DATA, b"zz,a\n", ASN_DATA);
    assert_eq!(bad.err(), Some(ContextError::MalformedRow { table: Table::Ipv6, row: 0 }));
    let bad = Context::from_files(IPV4_DATA, IPV6_DATA, b"300-599,a\n300,b\n");
    assert_eq!(bad.err(), Some(ContextError::MalformedRow { table: Table::Asn, row: 1 }));
    let bad = Context::from_files(b"1.0.0.0/24\n", IPV6_DATA, ASN_DATA);
    assert_eq!(bad.err(), Some(ContextError::MalformedRow { table: Table::Ipv4, row: 0 }));
}

#[test]
fn context_empty_tables() {
    let context = Context::from_files(b"", b"", b"").unwrap();
    assert_eq!(context.servers.len(), 0);
    assert_eq!(context.lookup("1.2.3.4"), None);
}

#[test]
fn query_parsing_order() {
    assert_eq!(parse_query("1.2.3.4"), Some(Resource::Ipv4(Ipv4Net { addr: 0x0102_0304, prefix_len: 32 })));
    assert_eq!(parse_query("1.2.3.0/24"), Some(Resource::Ipv4(Ipv4Net { addr: 0x0102_0300, prefix_len: 24 })));
    assert!(matches!(parse_query("::1"), Some(Resource::Ipv6(_))));
    assert_eq!(
        parse_query("aS12"),
        Some(Resource::Asn(AsnRange { start: Asn { value: 12 }, end: Asn { value: 13 } }))
    );
    assert_eq!(
        parse_query("AS4294967295"),
        Some(Resource::Asn(AsnRange { start: Asn { value: 4294967295 }, end: Asn { value: 4294967296 } }))
    );
    assert_eq!(
        parse_query("AS10  -AS20"),
        Some(Resource::Asn(AsnRange { start: Asn { value: 10 }, end: Asn { value: 20 } }))
    );
    assert_eq!(parse_query("AS10-20"), None);
    assert_eq!(parse_query("example.com"), None);
}
