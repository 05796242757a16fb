use owhois::lookup::{Asn, AsnRange, AsnResourceLookup, ResourceLookup};

#[test]
fn asn_lookup_empty() {
    let asn_lookup: AsnResourceLookup = ResourceLookup::from_iter(vec![]);
    let value = asn_lookup.get_longest_match_value(AsnRange { start: Asn { value: 1 }, end: Asn { value: 2 } });
    assert_eq!(value, None);
}

#[test]
fn asn_lookup_single() {
    let asn_lookup: AsnResourceLookup =
        ResourceLookup::from_iter(vec![(AsnRange { start: Asn { value: 1 }, end: Asn { value: 2 } }, 1)]);
    let value = asn_lookup.get_longest_match_value(AsnRange { start: Asn { value: 1 }, end: Asn { value: 2 } });
    assert_eq!(value, Some(1));
}

#[test]
fn asn_lookup_multiple() {
    let asn_lookup: AsnResourceLookup = ResourceLookup::from_iter(vec![
        (AsnRange { start: Asn { value: 1 }, end: Asn { value: 2 } }, 1),
        (AsnRange { start: Asn { value: 2 }, end: Asn { value: 3 } }, 2),
    ]);
    let value = asn_lookup.get_longest_match_value(AsnRange { start: Asn { value: 1 }, end: Asn { value: 2 } });
    assert_eq!(value, Some(1));
}

#[test]
fn asn_lookup_parents() {
    let asn_lookup: AsnResourceLookup = ResourceLookup::from_iter(vec![
        (AsnRange { start: Asn { value: 1 }, end: Asn { value: 6 } }, 1),
        (AsnRange { start: Asn { value: 2 }, end: Asn { value: 5 } }, 2),
        (AsnRange { start: Asn { value: 3 }, end: Asn { value: 4 } }, 3),
    ]);
    let value = asn_lookup.get_longest_match_value(AsnRange { start: Asn { value: 3 }, end: Asn { value: 4 } });
    assert_eq!(value, Some(3));

    let value = asn_lookup.get_longest_match_value(AsnRange { start: Asn { value: 3 }, end: Asn { value: 5 } });
    assert_eq!(value, Some(2));

    let value = asn_lookup.get_longest_match_value(AsnRange { start: Asn { value: 3 }, end: Asn { value: 6 } });
    assert_eq!(value, Some(1));
}

#[test]
fn asn_lookup_terminal_range_with_zero_end() {
    let asn_lookup: AsnResourceLookup = ResourceLookup::from_iter(vec![
        (AsnRange { start: Asn { value: 65536 }, end: Asn { value: 0 } }, 1),
        (AsnRange { start: Asn { value: 4294967295 }, end: Asn { value: 0 } }, 2),
    ]);
    let last = AsnRange { start: Asn { value: 4294967295 }, end: Asn { value: 4294967296 } };
    assert_eq!(asn_lookup.get_longest_match_value(last), Some(2));
    let inside = AsnRange { start: Asn { value: 70000 }, end: Asn { value: 70001 } };
    assert_eq!(asn_lookup.get_longest_match_value(inside), Some(1));
    let below = AsnRange { start: Asn { value: 100 }, end: Asn { value: 101 } };
    assert_eq!(asn_lookup.get_longest_match_value(below), None);
}

#[test]
fn asn_lookup_returns_matched_key() {
    let outer = AsnRange { start: Asn { value: 300 }, end: Asn { value: 600 } };
    let asn_lookup: AsnResourceLookup = ResourceLookup::from_iter(vec![(outer, 7)]);
    let query = AsnRange { start: Asn { value: 500 }, end: Asn { value: 501 } };
    assert_eq!(asn_lookup.get_longest_match(query), Some((Some(outer), 7)));
    let empty_query = AsnRange { start: Asn { value: 500 }, end: Asn { value: 500 } };
    assert_eq!(asn_lookup.get_longest_match(empty_query), None);
}

#[test]
fn asn_lookup_equal_ranges_earliest_wins() {
    let r = AsnRange { start: Asn { value: 10 }, end: Asn { value: 20 } };
    let asn_lookup: AsnResourceLookup = ResourceLookup::from_iter(vec![(r, 4), (r, 5)]);
    let query = AsnRange { start: Asn { value: 12 }, end: Asn { value: 13 } };
    assert_eq!(asn_lookup.get_longest_match_value(query), Some(4));
}

#[test]
fn asn_range_contains() {
    let outer = AsnRange { start: Asn { value: 1 }, end: Asn { value: 0 } };
    let inner = AsnRange { start: Asn { value: 4294967295 }, end: Asn { value: 4294967296 } };
    assert!(outer.contains(&inner));
    assert!(!inner.contains(&outer));
    assert_eq!(outer.end_exclusive(), 4294967296);
}
