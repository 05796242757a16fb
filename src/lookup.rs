//! Longest-match indexes over IPv4 prefixes, IPv6 prefixes and AS number
//! ranges. Each answers a query with the smallest stored entry that contains
//! it, the earliest stored among equally small ones.

use crate::interval::{
    best, covers, is_strict_chain, lemma_best_is_best, lemma_chain_best, width,
    RangeIndex,
};
use crate::net::{Ipv4Net, Ipv6Net};
use vstd::prelude::*;

verus! {

/// An index built once from `(key, value)` entries and queried for the entry
/// whose key contains a query most tightly.
pub trait ResourceLookup<K, V>: Sized {
    /// The entries the index was built from, in the order given.
    spec fn entries(&self) -> Seq<(K, V)>;

    /// A key that the index can hold and be queried with.
    spec fn valid_key(k: K) -> bool;

    /// The entry that answers a query on `q` over `entries`.
    spec fn longest_match_in(entries: Seq<(K, V)>, q: K) -> Option<(K, V)>;

    fn from_iter(values: Vec<(K, V)>) -> (r: Self)
        requires
            forall|i: int| 0 <= i < values@.len() ==> Self::valid_key(#[trigger] values@[i].0),
        ensures
            r.entries() == values@,
    ;

    /// The entry that answers a query on `value`, as its key and value.
    fn get_longest_match(&self, value: K) -> (r: Option<(Option<K>, V)>)
        requires
            Self::valid_key(value),
        ensures
            r == (match Self::longest_match_in(self.entries(), value) {
                Some(e) => Some((Some(e.0), e.1)),
                None => None,
            }),
    ;

    /// The value of the entry that answers a query on `value`: the second
    /// component of what `get_longest_match` returns.
    fn get_longest_match_value(&self, value: K) -> (r: Option<V>)
        requires
            Self::valid_key(value),
        ensures
            r == (match Self::longest_match_in(self.entries(), value) {
                Some(e) => Some(e.1),
                None => None,
            }),
    ;
}

/// The addresses of an IPv4 prefix, as an inclusive range.
pub open spec fn ipv4_range(n: Ipv4Net) -> (u128, u128) {
    (n.first() as u128, n.last() as u128)
}

pub open spec fn ipv4_ranges(es: Seq<(Ipv4Net, u32)>) -> Seq<(u128, u128)> {
    es.map_values(|e: (Ipv4Net, u32)| ipv4_range(e.0))
}

/// The entry with the longest prefix that contains `q`, the earliest among
/// equally long ones.
pub open spec fn ipv4_longest_match(es: Seq<(Ipv4Net, u32)>, q: Ipv4Net) -> Option<(Ipv4Net, u32)> {
    match best(ipv4_ranges(es), q.first(), q.last()) {
        Some(i) => Some(es[i]),
        None => None,
    }
}

/// Longest-prefix match over IPv4 prefixes.
pub struct Ipv4IntervalTree {
    index: RangeIndex,
    entries: Vec<(Ipv4Net, u32)>,
}

impl Ipv4IntervalTree {
    #[verifier::type_invariant]
    spec fn inv(&self) -> bool {
        &&& forall|i: int| 0 <= i < self.entries@.len() ==> (#[trigger] self.entries@[i]).0.wf()
        &&& self.index@ == ipv4_ranges(self.entries@)
    }
}

impl ResourceLookup<Ipv4Net, u32> for Ipv4IntervalTree {
    closed spec fn entries(&self) -> Seq<(Ipv4Net, u32)> {
        self.entries@
    }

    open spec fn valid_key(k: Ipv4Net) -> bool {
        k.wf()
    }

    open spec fn longest_match_in(entries: Seq<(Ipv4Net, u32)>, q: Ipv4Net) -> Option<(Ipv4Net, u32)> {
        ipv4_longest_match(entries, q)
    }

    fn from_iter(values: Vec<(Ipv4Net, u32)>) -> (r: Ipv4IntervalTree) {
        let mut ranges: Vec<(u128, u128)> = Vec::new();
        let mut i: usize = 0;
        while i < values.len()
            invariant
                i <= values.len(),
                forall|j: int| 0 <= j < values@.len() ==> (#[trigger] values@[j]).0.wf(),
                ranges@ =~= ipv4_ranges(values@.subrange(0, i as int)),
            decreases values.len() - i,
        {
            let net = values[i].0;
            proof {
                net.lemma_bounds();
            }
            ranges.push((net.network() as u128, net.broadcast() as u128));
            i += 1;
            proof {
                assert(ranges@ =~= ipv4_ranges(values@.subrange(0, i as int)));
            }
        }
        proof {
            assert(values@.subrange(0, values@.len() as int) =~= values@);
        }
        let index = RangeIndex::new(&ranges);
        Ipv4IntervalTree { index, entries: values }
    }

    fn get_longest_match(&self, value: Ipv4Net) -> (r: Option<(Option<Ipv4Net>, u32)>) {
        proof {
            use_type_invariant(self);
            value.lemma_bounds();
            lemma_best_is_best(self.index@, value.first(), value.last());
        }
        match self.index.longest_match(value.network() as u128, value.broadcast() as u128) {
            Some(i) => {
                let e = self.entries[i];
                Some((Some(e.0), e.1))
            },
            None => None,
        }
    }

    fn get_longest_match_value(&self, value: Ipv4Net) -> (r: Option<u32>) {
        match self.get_longest_match(value) {
            Some((_, v)) => Some(v),
            None => None,
        }
    }
}

/// The addresses of an IPv6 prefix, as an inclusive range.
pub open spec fn ipv6_range(n: Ipv6Net) -> (u128, u128) {
    (n.first() as u128, n.last() as u128)
}

pub open spec fn ipv6_ranges(es: Seq<(Ipv6Net, u32)>) -> Seq<(u128, u128)> {
    es.map_values(|e: (Ipv6Net, u32)| ipv6_range(e.0))
}

/// The entry with the longest prefix that contains `q`, the earliest among
/// equally long ones.
pub open spec fn ipv6_longest_match(es: Seq<(Ipv6Net, u32)>, q: Ipv6Net) -> Option<(Ipv6Net, u32)> {
    match best(ipv6_ranges(es), q.first(), q.last()) {
        Some(i) => Some(es[i]),
        None => None,
    }
}

/// Longest-prefix match over IPv6 prefixes.
pub struct Ipv6IntervalTree {
    index: RangeIndex,
    entries: Vec<(Ipv6Net, u32)>,
}

impl Ipv6IntervalTree {
    #[verifier::type_invariant]
    spec fn inv(&self) -> bool {
        &&& forall|i: int| 0 <= i < self.entries@.len() ==> (#[trigger] self.entries@[i]).0.wf()
        &&& self.index@ == ipv6_ranges(self.entries@)
    }
}

impl ResourceLookup<Ipv6Net, u32> for Ipv6IntervalTree {
    closed spec fn entries(&self) -> Seq<(Ipv6Net, u32)> {
        self.entries@
    }

    open spec fn valid_key(k: Ipv6Net) -> bool {
        k.wf()
    }

    open spec fn longest_match_in(entries: Seq<(Ipv6Net, u32)>, q: Ipv6Net) -> Option<(Ipv6Net, u32)> {
        ipv6_longest_match(entries, q)
    }

    fn from_iter(values: Vec<(Ipv6Net, u32)>) -> (r: Ipv6IntervalTree) {
        let mut ranges: Vec<(u128, u128)> = Vec::new();
        let mut i: usize = 0;
        while i < values.len()
            invariant
                i <= values.len(),
                forall|j: int| 0 <= j < values@.len() ==> (#[trigger] values@[j]).0.wf(),
                ranges@ =~= ipv6_ranges(values@.subrange(0, i as int)),
            decreases values.len() - i,
        {
            let net = values[i].0;
            proof {
                net.lemma_bounds();
            }
            ranges.push((net.network(), net.broadcast()));
            i += 1;
            proof {
                assert(ranges@ =~= ipv6_ranges(values@.subrange(0, i as int)));
            }
        }
        proof {
            assert(values@.subrange(0, values@.len() as int) =~= values@);
        }
        let index = RangeIndex::new(&ranges);
        Ipv6IntervalTree { index, entries: values }
    }

    fn get_longest_match(&self, value: Ipv6Net) -> (r: Option<(Option<Ipv6Net>, u32)>) {
        proof {
            use_type_invariant(self);
            value.lemma_bounds();
            lemma_best_is_best(self.index@, value.first(), value.last());
        }
        match self.index.longest_match(value.network(), value.broadcast()) {
            Some(i) => {
                let e = self.entries[i];
                Some((Some(e.0), e.1))
            },
            None => None,
        }
    }

    fn get_longest_match_value(&self, value: Ipv6Net) -> (r: Option<u32>) {
        match self.get_longest_match(value) {
            Some((_, v)) => Some(v),
            None => None,
        }
    }
}

/// An autonomous system number, held in 64 bits so that the end of a range
/// can lie one past the largest 32-bit number.
#[derive(Clone, Copy, PartialEq, Eq, PartialOrd, Ord, Debug, Hash, Structural)]
pub struct Asn {
    pub value: u64,
}

/// The half-open range `[start, end)` of AS numbers. An end of 0 stands for
/// 2^32, so that `[4294967295, 0)` holds the last 32-bit AS number.
#[derive(Clone, Copy, PartialEq, Eq, PartialOrd, Ord, Debug, Hash, Structural)]
pub struct AsnRange {
    pub start: Asn,
    pub end: Asn,
}

/// The number one past the largest 32-bit AS number.
pub const ASN_SPACE_END: u64 = 0x1_0000_0000;

impl AsnRange {
    /// The exclusive end of the range, reading an end of 0 as 2^32.
    pub open spec fn end_value(self) -> int {
        if self.end.value == 0 {
            ASN_SPACE_END as int
        } else {
            self.end.value as int
        }
    }

    /// The range holds at least one AS number.
    pub open spec fn is_nonempty(self) -> bool {
        self.start.value < self.end_value()
    }

    /// `other` is a non-empty range whose numbers all lie in `self`.
    pub open spec fn spec_contains(self, other: AsnRange) -> bool {
        other.is_nonempty() && self.start.value <= other.start.value && other.end_value()
            <= self.end_value()
    }

    /// The number of AS numbers in the range.
    pub open spec fn size(self) -> int {
        self.end_value() - self.start.value
    }

    /// The exclusive end of the range, reading an end of 0 as 2^32.
    pub fn end_exclusive(&self) -> (r: u64)
        ensures
            r == self.end_value(),
    {
        if self.end.value == 0 {
            ASN_SPACE_END
        } else {
            self.end.value
        }
    }

    /// `other` is a non-empty range whose numbers all lie in `self`.
    pub fn contains(&self, other: &AsnRange) -> (r: bool)
        ensures
            r == self.spec_contains(*other),
    {
        let other_end = other.end_exclusive();
        other.start.value < other_end && self.start.value <= other.start.value && other_end
            <= self.end_exclusive()
    }
}

/// The AS numbers of a range, as an inclusive range; a range that holds no
/// number comes out with its last below its first.
pub open spec fn asn_range(r: AsnRange) -> (u128, u128) {
    (r.start.value as u128, (r.end_value() - 1) as u128)
}

pub open spec fn asn_ranges(es: Seq<(AsnRange, u32)>) -> Seq<(u128, u128)> {
    es.map_values(|e: (AsnRange, u32)| asn_range(e.0))
}

/// The entry with the narrowest range that contains `q`, the earliest among
/// equally narrow ones.
pub open spec fn asn_longest_match(es: Seq<(AsnRange, u32)>, q: AsnRange) -> Option<(AsnRange, u32)> {
    match best(asn_ranges(es), q.start.value as int, q.end_value() - 1) {
        Some(i) => Some(es[i]),
        None => None,
    }
}

/// Smallest-enclosing-range match over AS number ranges.
pub struct AsnIntervalTree {
    index: RangeIndex,
    entries: Vec<(AsnRange, u32)>,
}

impl AsnIntervalTree {
    #[verifier::type_invariant]
    spec fn inv(&self) -> bool {
        self.index@ == asn_ranges(self.entries@)
    }
}

impl ResourceLookup<AsnRange, u32> for AsnIntervalTree {
    closed spec fn entries(&self) -> Seq<(AsnRange, u32)> {
        self.entries@
    }

    open spec fn valid_key(k: AsnRange) -> bool {
        true
    }

    open spec fn longest_match_in(entries: Seq<(AsnRange, u32)>, q: AsnRange) -> Option<(AsnRange, u32)> {
        asn_longest_match(entries, q)
    }

    fn from_iter(values: Vec<(AsnRange, u32)>) -> (r: AsnIntervalTree) {
        let mut ranges: Vec<(u128, u128)> = Vec::new();
        let mut i: usize = 0;
        while i < values.len()
            invariant
                i <= values.len(),
                ranges@ =~= asn_ranges(values@.subrange(0, i as int)),
            decreases values.len() - i,
        {
            let r = values[i].0;
            ranges.push((r.start.value as u128, (r.end_exclusive() - 1) as u128));
            i += 1;
            proof {
                assert(ranges@ =~= asn_ranges(values@.subrange(0, i as int)));
            }
        }
        proof {
            assert(values@.subrange(0, values@.len() as int) =~= values@);
        }
        let index = RangeIndex::new(&ranges);
        AsnIntervalTree { index, entries: values }
    }

    fn get_longest_match(&self, value: AsnRange) -> (r: Option<(Option<AsnRange>, u32)>) {
        proof {
            use_type_invariant(self);
            lemma_best_is_best(self.index@, value.start.value as int, value.end_value() - 1);
        }
        let last = value.end_exclusive() - 1;
        match self.index.longest_match(value.start.value as u128, last as u128) {
            Some(i) => {
                let e = self.entries[i];
                Some((Some(e.0), e.1))
            },
            None => None,
        }
    }

    fn get_longest_match_value(&self, value: AsnRange) -> (r: Option<u32>) {
        match self.get_longest_match(value) {
            Some((_, v)) => Some(v),
            None => None,
        }
    }
}

pub type Ipv4ResourceLookup = Ipv4IntervalTree;

pub type Ipv6ResourceLookup = Ipv6IntervalTree;

pub type AsnResourceLookup = AsnIntervalTree;

/// Longest-prefix match over IPv4: a query gets an entry whose prefix
/// contains it, and no entry whose prefix contains it is smaller; a query
/// gets nothing only when no entry contains it.
pub proof fn law_ipv4_longest_match(entries: Seq<(Ipv4Net, u32)>, q: Ipv4Net)
    requires
        q.wf(),
        forall|i: int| 0 <= i < entries.len() ==> (#[trigger] entries[i]).0.wf(),
    ensures
        match ipv4_longest_match(entries, q) {
            Some(e) => {
                &&& entries.contains(e)
                &&& e.0.spec_contains(q)
                &&& forall|i: int|
                    0 <= i < entries.len() && (#[trigger] entries[i]).0.spec_contains(q) ==> e.0.size()
                        <= entries[i].0.size()
            },
            None => forall|i: int| 0 <= i < entries.len() ==> !(#[trigger] entries[i]).0.spec_contains(q),
        },
{
    let rs = ipv4_ranges(entries);
    q.lemma_bounds();
    lemma_best_is_best(rs, q.first(), q.last());
    assert forall|i: int| 0 <= i < entries.len() implies (covers(#[trigger] rs[i], q.first(), q.last())
        <==> entries[i].0.spec_contains(q)) && width(rs[i]) == entries[i].0.size() - 1 by {
        entries[i].0.lemma_bounds();
    }
    match best(rs, q.first(), q.last()) {
        Some(k) => {
            assert(covers(rs[k], q.first(), q.last()));
            entries[k].0.lemma_bounds();
            assert(entries[k].0.spec_contains(q));
            assert(entries.contains(entries[k]));
            assert forall|i: int|
                0 <= i < entries.len() && (#[trigger] entries[i]).0.spec_contains(q) implies entries[k].0.size()
                <= entries[i].0.size() by {
                assert(covers(rs[i], q.first(), q.last()));
            }
        },
        None => {
            assert forall|i: int| 0 <= i < entries.len() implies !(#[trigger] entries[i]).0.spec_contains(q) by {
                assert(!covers(rs[i], q.first(), q.last()));
            }
        },
    }
}

/// Longest-prefix match over IPv6, as for IPv4.
pub proof fn law_ipv6_longest_match(entries: Seq<(Ipv6Net, u32)>, q: Ipv6Net)
    requires
        q.wf(),
        forall|i: int| 0 <= i < entries.len() ==> (#[trigger] entries[i]).0.wf(),
    ensures
        match ipv6_longest_match(entries, q) {
            Some(e) => {
                &&& entries.contains(e)
                &&& e.0.spec_contains(q)
                &&& forall|i: int|
                    0 <= i < entries.len() && (#[trigger] entries[i]).0.spec_contains(q) ==> e.0.size()
                        <= entries[i].0.size()
            },
            None => forall|i: int| 0 <= i < entries.len() ==> !(#[trigger] entries[i]).0.spec_contains(q),
        },
{
    let rs = ipv6_ranges(entries);
    q.lemma_bounds();
    lemma_best_is_best(rs, q.first(), q.last());
    assert forall|i: int| 0 <= i < entries.len() implies (covers(#[trigger] rs[i], q.first(), q.last())
        <==> entries[i].0.spec_contains(q)) && width(rs[i]) == entries[i].0.size() - 1 by {
        entries[i].0.lemma_bounds();
    }
    match best(rs, q.first(), q.last()) {
        Some(k) => {
            assert(covers(rs[k], q.first(), q.last()));
            entries[k].0.lemma_bounds();
            assert(entries[k].0.spec_contains(q));
            assert(entries.contains(entries[k]));
            assert forall|i: int|
                0 <= i < entries.len() && (#[trigger] entries[i]).0.spec_contains(q) implies entries[k].0.size()
                <= entries[i].0.size() by {
                assert(covers(rs[i], q.first(), q.last()));
            }
        },
        None => {
            assert forall|i: int| 0 <= i < entries.len() implies !(#[trigger] entries[i]).0.spec_contains(q) by {
                assert(!covers(rs[i], q.first(), q.last()));
            }
        },
    }
}

/// Smallest-enclosing-range match over AS numbers: a query gets an entry
/// whose range contains it, and no entry whose range contains it is
/// narrower; a query gets nothing only when no entry contains it.
pub proof fn law_asn_longest_match(entries: Seq<(AsnRange, u32)>, q: AsnRange)
    ensures
        match asn_longest_match(entries, q) {
            Some(e) => {
                &&& entries.contains(e)
                &&& e.0.spec_contains(q)
                &&& forall|i: int|
                    0 <= i < entries.len() && (#[trigger] entries[i]).0.spec_contains(q) ==> e.0.size()
                        <= entries[i].0.size()
            },
            None => forall|i: int| 0 <= i < entries.len() ==> !(#[trigger] entries[i]).0.spec_contains(q),
        },
{
    let rs = asn_ranges(entries);
    let lo = q.start.value as int;
    let hi = q.end_value() - 1;
    lemma_best_is_best(rs, lo, hi);
    assert forall|i: int| 0 <= i < entries.len() implies (covers(#[trigger] rs[i], lo, hi)
        <==> entries[i].0.spec_contains(q)) by {}
    match best(rs, lo, hi) {
        Some(k) => {
            assert(covers(rs[k], lo, hi));
            assert(entries[k].0.spec_contains(q));
            assert(entries.contains(entries[k]));
            assert forall|i: int|
                0 <= i < entries.len() && (#[trigger] entries[i]).0.spec_contains(q) implies entries[k].0.size()
                <= entries[i].0.size() by {
                assert(covers(rs[i], lo, hi));
            }
        },
        None => {
            assert forall|i: int| 0 <= i < entries.len() implies !(#[trigger] entries[i]).0.spec_contains(q) by {
                assert(!covers(rs[i], lo, hi));
            }
        },
    }
}

/// The prefixes of `entries` are nested: each holds every later one and is
/// strictly larger than it.
pub open spec fn ipv4_is_nested(entries: Seq<(Ipv4Net, u32)>) -> bool {
    forall|i: int, j: int|
        0 <= i < j < entries.len() ==> (#[trigger] entries[i]).0.spec_contains((#[trigger] entries[j]).0)
            && entries[j].0.size() < entries[i].0.size()
}

/// Over nested prefixes, a query that prefix `i` contains and the next
/// prefix (if any) does not is answered by entry `i`: in particular the
/// prefix itself, and an address inside it but outside the next one.
pub proof fn law_ipv4_nested(entries: Seq<(Ipv4Net, u32)>, i: int, q: Ipv4Net)
    requires
        forall|k: int| 0 <= k < entries.len() ==> (#[trigger] entries[k]).0.wf(),
        ipv4_is_nested(entries),
        q.wf(),
        0 <= i < entries.len(),
        entries[i].0.spec_contains(q),
        i + 1 == entries.len() || !entries[i + 1].0.spec_contains(q),
    ensures
        ipv4_longest_match(entries, q) == Some(entries[i]),
{
    let rs = ipv4_ranges(entries);
    q.lemma_bounds();
    assert forall|k: int| 0 <= k < entries.len() implies rs[k] == ipv4_range(entries[k].0) && rs[k].0
        == entries[k].0.first() && rs[k].1 == entries[k].0.last() by {
        entries[k].0.lemma_bounds();
    }
    assert(is_strict_chain(rs)) by {
        assert forall|a: int, b: int| 0 <= a < b < rs.len() implies covers(#[trigger] rs[a], rs[b].0 as int, rs[b].1 as int)
            && width(#[trigger] rs[b]) < width(rs[a]) by {
            entries[a].0.lemma_bounds();
            entries[b].0.lemma_bounds();
            assert(entries[a].0.spec_contains(entries[b].0));
        }
    }
    lemma_chain_best(rs, q.first(), q.last(), i);
}

/// Over nested prefixes, a query on one of the prefixes is answered by its
/// own entry.
pub proof fn law_ipv4_nested_exact(entries: Seq<(Ipv4Net, u32)>, i: int)
    requires
        forall|k: int| 0 <= k < entries.len() ==> (#[trigger] entries[k]).0.wf(),
        ipv4_is_nested(entries),
        0 <= i < entries.len(),
    ensures
        ipv4_longest_match(entries, entries[i].0) == Some(entries[i]),
{
    let q = entries[i].0;
    q.lemma_bounds();
    if i + 1 < entries.len() {
        entries[i + 1].0.lemma_bounds();
        assert(entries[i].0.spec_contains(entries[i + 1].0));
    }
    law_ipv4_nested(entries, i, q);
}

/// The prefixes of `entries` are nested, as for IPv4.
pub open spec fn ipv6_is_nested(entries: Seq<(Ipv6Net, u32)>) -> bool {
    forall|i: int, j: int|
        0 <= i < j < entries.len() ==> (#[trigger] entries[i]).0.spec_contains((#[trigger] entries[j]).0)
            && entries[j].0.size() < entries[i].0.size()
}

/// Over nested IPv6 prefixes, a query that prefix `i` contains and the next
/// prefix (if any) does not is answered by entry `i`.
pub proof fn law_ipv6_nested(entries: Seq<(Ipv6Net, u32)>, i: int, q: Ipv6Net)
    requires
        forall|k: int| 0 <= k < entries.len() ==> (#[trigger] entries[k]).0.wf(),
        ipv6_is_nested(entries),
        q.wf(),
        0 <= i < entries.len(),
        entries[i].0.spec_contains(q),
        i + 1 == entries.len() || !entries[i + 1].0.spec_contains(q),
    ensures
        ipv6_longest_match(entries, q) == Some(entries[i]),
{
    let rs = ipv6_ranges(entries);
    q.lemma_bounds();
    assert forall|k: int| 0 <= k < entries.len() implies rs[k] == ipv6_range(entries[k].0) && rs[k].0
        == entries[k].0.first() && rs[k].1 == entries[k].0.last() by {
        entries[k].0.lemma_bounds();
    }
    assert(is_strict_chain(rs)) by {
        assert forall|a: int, b: int| 0 <= a < b < rs.len() implies covers(#[trigger] rs[a], rs[b].0 as int, rs[b].1 as int)
            && width(#[trigger] rs[b]) < width(rs[a]) by {
            entries[a].0.lemma_bounds();
            entries[b].0.lemma_bounds();
            assert(entries[a].0.spec_contains(entries[b].0));
        }
    }
    lemma_chain_best(rs, q.first(), q.last(), i);
}

/// Over nested IPv6 prefixes, a query on one of the prefixes is answered by
/// its own entry.
pub proof fn law_ipv6_nested_exact(entries: Seq<(Ipv6Net, u32)>, i: int)
    requires
        forall|k: int| 0 <= k < entries.len() ==> (#[trigger] entries[k]).0.wf(),
        ipv6_is_nested(entries),
        0 <= i < entries.len(),
    ensures
        ipv6_longest_match(entries, entries[i].0) == Some(entries[i]),
{
    let q = entries[i].0;
    q.lemma_bounds();
    if i + 1 < entries.len() {
        entries[i + 1].0.lemma_bounds();
        assert(entries[i].0.spec_contains(entries[i + 1].0));
    }
    law_ipv6_nested(entries, i, q);
}

} // verus!
