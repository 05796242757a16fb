use owhois::registry::{str_eq, str_lt, ServerRegistry};
use owhois::text::{char_index, parse_decimal, push_decimal};

#[test]
fn decimal_parsing() {
    assert_eq!(parse_decimal("0", 10), Some(0));
    assert_eq!(parse_decimal("007", 10), Some(7));
    assert_eq!(parse_decimal("+42", 100), Some(42));
    assert_eq!(parse_decimal("4294967295", 0xFFFF_FFFF), Some(4294967295));
    assert_eq!(parse_decimal("4294967296", 0xFFFF_FFFF), None);
    assert_eq!(parse_decimal("99999999999999999999999", u64::MAX), None);
    assert_eq!(parse_decimal("", 10), None);
    assert_eq!(parse_decimal("+", 10), None);
    assert_eq!(parse_decimal("-1", 10), None);
    assert_eq!(parse_decimal("1a", 10), None);
    assert_eq!(parse_decimal("11", 10), None);
}

#[test]
fn decimal_writing() {
    let mut s = String::from("n=");
    push_decimal(&mut s, 0);
    push_decimal(&mut s, 1230);
    push_decimal(&mut s, u64::MAX);
    assert_eq!(s, "n=0123018446744073709551615");
}

#[test]
fn char_search() {
    assert_eq!(char_index("10-20", '-'), Some(2));
    assert_eq!(char_index("1020", '-'), None);
    assert_eq!(char_index("é-x", '-'), Some(1));
}

#[test]
fn string_order() {
    assert!(str_lt("", "a"));
    assert!(str_lt("whois.apnic.net", "whois.arin.net"));
    assert!(str_lt("ab", "abc"));
    assert!(!str_lt("abc", "ab"));
    assert!(!str_lt("x", "x"));
    assert!(str_eq("x", "x"));
    assert!(!str_eq("x", "y"));
}

#[test]
fn registry_sorts_and_dedups() {
    let names: Vec<String> = vec![
        String::from("whois.ripe.net"),
        String::from(""),
        String::from("whois.arin.net"),
        String::from("whois.ripe.net"),
        String::from("whois.apnic.net"),
    ];
    let servers = ServerRegistry::from_names(&names);
    assert_eq!(servers.len(), 4);
    assert_eq!(servers.id_of(""), Some(0));
    assert_eq!(servers.id_of("whois.apnic.net"), Some(1));
    assert_eq!(servers.id_of("whois.arin.net"), Some(2));
    assert_eq!(servers.id_of("whois.ripe.net"), Some(3));
    assert_eq!(servers.id_of("whois.lacnic.net"), None);
    assert_eq!(servers.name_of(3).unwrap(), "whois.ripe.net");
}
