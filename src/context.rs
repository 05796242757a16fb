//! The routing context: the three indexes and the server registry, built from
//! the compiled tables, and the resolution of a query text to a server.

use crate::lookup::{
    asn_longest_match, ipv4_longest_match, ipv6_longest_match, Asn, AsnIntervalTree, AsnRange,
    AsnResourceLookup, Ipv4IntervalTree, Ipv4ResourceLookup, Ipv6IntervalTree, Ipv6ResourceLookup,
    ResourceLookup,
};
use crate::net::{ipv4_text_prefix, ipv6_text_prefix, Ipv4Net, Ipv6Net};
use crate::registry::{is_sorted_distinct, ServerRegistry};
use crate::text::{
    char_index, csv_records, decimal_at_most, find_captures, find_char, parse_decimal, read_csv_records, regex_captures,
};
use vstd::prelude::*;
use vstd::string::*;

verus! {

/// A single AS number: `AS` (in any case) and decimal digits.
pub const ASN_PATTERN: &'static str = "^(?i)AS(\\d+)$";

/// A range of AS numbers: `AS<n>`, optional white space, then `-AS<m>`.
pub const ASN_RANGE_PATTERN: &'static str = "^(?i)AS(\\d+)\\s*-AS(\\d+)$";

/// A resource that a query names.
#[derive(Clone, Copy, PartialEq, Eq, Debug, Structural)]
pub enum Resource {
    Ipv4(Ipv4Net),
    Ipv6(Ipv6Net),
    Asn(AsnRange),
}

/// One of the three compiled tables.
#[derive(Clone, Copy, PartialEq, Eq, Debug, Structural)]
pub enum Table {
    Ipv4,
    Ipv6,
    Asn,
}

/// Why a context could not be built.
#[derive(Clone, Copy, PartialEq, Eq, Debug, Structural)]
pub enum ContextError {
    /// A readable record of a table, at the given position among the table's
    /// records, lacks a server field or a resource that reads.
    MalformedRow { table: Table, row: usize },
    /// The tables name more servers than 32-bit ids can tell apart.
    TooManyServers,
}

/// The number in capture group `k`, when that group took part in the match
/// and writes a 32-bit number in decimal.
pub open spec fn group_number(groups: Seq<Option<Seq<char>>>, k: int) -> Option<int> {
    if 0 <= k < groups.len() {
        match groups[k] {
            Some(t) => decimal_at_most(t, u32::MAX as int),
            None => None,
        }
    } else {
        None
    }
}

/// The AS range that a query of the form `AS<n>-AS<m>` names: `[n, m)`.
pub open spec fn asn_range_query(s: Seq<char>) -> Option<AsnRange> {
    match regex_captures(ASN_RANGE_PATTERN@, s) {
        Some(g) => match (group_number(g, 1), group_number(g, 2)) {
            (Some(a), Some(b)) => Some(
                AsnRange { start: Asn { value: a as u64 }, end: Asn { value: b as u64 } },
            ),
            _ => None,
        },
        None => None,
    }
}

/// The AS range that a query names: `AS<n>` names `[n, n + 1)`, else the
/// range form is tried.
pub open spec fn asn_query(s: Seq<char>) -> Option<AsnRange> {
    match regex_captures(ASN_PATTERN@, s) {
        Some(g) => match group_number(g, 1) {
            Some(n) => Some(AsnRange { start: Asn { value: n as u64 }, end: Asn { value: (n + 1) as u64 } }),
            None => asn_range_query(s),
        },
        None => asn_range_query(s),
    }
}

/// The resource that a query names, trying in turn an IPv4 address or
/// prefix, an IPv6 address or prefix, a single AS number and an AS range.
pub open spec fn query_resource(s: Seq<char>) -> Option<Resource> {
    match ipv4_text_prefix(s) {
        Some(n) => Some(Resource::Ipv4(n)),
        None => match ipv6_text_prefix(s) {
            Some(n) => Some(Resource::Ipv6(n)),
            None => match asn_query(s) {
                Some(r) => Some(Resource::Asn(r)),
                None => None,
            },
        },
    }
}

/// The number in a capture group, as `group_number` reads it.
fn capture_number(groups: &Vec<Option<String>>, k: usize) -> (r: Option<u64>)
    ensures
        match r {
            Some(v) => group_number(groups.deep_view(), k as int) == Some(v as int),
            None => group_number(groups.deep_view(), k as int) is None,
        },
{
    if k < groups.len() {
        match &groups[k] {
            Some(t) => parse_decimal(t.as_str(), 0xFFFF_FFFF),
            None => None,
        }
    } else {
        None
    }
}

fn parse_asn_range_query(value: &str) -> (r: Option<AsnRange>)
    ensures
        r == asn_range_query(value@),
{
    match find_captures(ASN_RANGE_PATTERN, value) {
        Some(groups) => match (capture_number(&groups, 1), capture_number(&groups, 2)) {
            (Some(a), Some(b)) => Some(AsnRange { start: Asn { value: a }, end: Asn { value: b } }),
            _ => None,
        },
        None => None,
    }
}

/// Reads the resource that a query names, in the order of `query_resource`.
pub fn parse_query(value: &str) -> (r: Option<Resource>)
    ensures
        r == query_resource(value@),
        r matches Some(Resource::Ipv4(n)) ==> n.wf(),
        r matches Some(Resource::Ipv6(n)) ==> n.wf(),
{
    if let Some(n) = Ipv4Net::parse(value) {
        return Some(Resource::Ipv4(n));
    }
    if let Some(n) = Ipv6Net::parse(value) {
        return Some(Resource::Ipv6(n));
    }
    let single = match find_captures(ASN_PATTERN, value) {
        Some(groups) => match capture_number(&groups, 1) {
            Some(n) => Some(AsnRange { start: Asn { value: n }, end: Asn { value: n + 1 } }),
            None => parse_asn_range_query(value),
        },
        None => parse_asn_range_query(value),
    };
    match single {
        Some(r) => Some(Resource::Asn(r)),
        None => None,
    }
}

/// The AS range that a compiled record writes as `<first>-<last>`, both
/// 32-bit numbers: `[first, last + 1)`.
pub open spec fn asn_text_range(t: Seq<char>) -> Option<AsnRange> {
    match find_char(t, '-', 0) {
        Some(k) => match (
            decimal_at_most(t.subrange(0, k), u32::MAX as int),
            decimal_at_most(t.subrange(k + 1, t.len() as int), u32::MAX as int),
        ) {
            (Some(a), Some(b)) => Some(
                AsnRange { start: Asn { value: a as u64 }, end: Asn { value: (b + 1) as u64 } },
            ),
            _ => None,
        },
        None => None,
    }
}

/// Reads `<first>-<last>` as the AS range `[first, last + 1)`.
pub fn parse_asn_text_range(t: &str) -> (r: Option<AsnRange>)
    ensures
        r == asn_text_range(t@),
{
    let n = t.unicode_len();
    let k = match char_index(t, '-') {
        Some(k) => k,
        None => {
            return None;
        },
    };
    let first = parse_decimal(t.substring_char(0, k), 0xFFFF_FFFF);
    let last = parse_decimal(t.substring_char(k + 1, n), 0xFFFF_FFFF);
    match (first, last) {
        (Some(a), Some(b)) => Some(AsnRange { start: Asn { value: a }, end: Asn { value: b + 1 } }),
        _ => None,
    }
}

/// The entries that the records of a table give, each as its resource and
/// its server name, where `key` reads a resource; the position of the first
/// readable record with fewer than two fields or a resource that does not
/// read. Only the first `n` records are taken.
pub open spec fn table_entries<K>(
    recs: Seq<Option<Seq<Seq<char>>>>,
    key: spec_fn(Seq<char>) -> Option<K>,
    n: int,
) -> Result<Seq<(K, Seq<char>)>, int>
    decreases n,
{
    if n <= 0 {
        Ok(Seq::empty())
    } else {
        match table_entries(recs, key, n - 1) {
            Err(i) => Err(i),
            Ok(es) => match recs[n - 1] {
                None => Ok(es),
                Some(f) => if f.len() >= 2 && key(f[0]) is Some {
                    Ok(es.push((key(f[0])->0, f[1])))
                } else {
                    Err(n - 1)
                },
            },
        }
    }
}

/// The records of a compiled table: comma-separated, no header, each with
/// the same number of fields.
pub open spec fn compiled_records(data: Seq<u8>) -> Seq<Option<Seq<Seq<char>>>> {
    csv_records(data, 44, false, false)
}

pub open spec fn ipv4_table(data: Seq<u8>) -> Result<Seq<(Ipv4Net, Seq<char>)>, int> {
    let recs = compiled_records(data);
    table_entries(recs, |t: Seq<char>| ipv4_text_prefix(t), recs.len() as int)
}

pub open spec fn ipv6_table(data: Seq<u8>) -> Result<Seq<(Ipv6Net, Seq<char>)>, int> {
    let recs = compiled_records(data);
    table_entries(recs, |t: Seq<char>| ipv6_text_prefix(t), recs.len() as int)
}

pub open spec fn asn_table(data: Seq<u8>) -> Result<Seq<(AsnRange, Seq<char>)>, int> {
    let recs = compiled_records(data);
    table_entries(recs, |t: Seq<char>| asn_text_range(t), recs.len() as int)
}

/// Once a malformed record is met, later records do not change the answer.
pub proof fn lemma_table_error_stays<K>(
    recs: Seq<Option<Seq<Seq<char>>>>,
    key: spec_fn(Seq<char>) -> Option<K>,
    n: int,
    m: int,
)
    requires
        n <= m,
        table_entries(recs, key, n) is Err,
    ensures
        table_entries(recs, key, m) == table_entries(recs, key, n),
    decreases m - n,
{
    if n < m {
        lemma_table_error_stays(recs, key, n, m - 1);
    }
}

/// `v` holds the entries of `es`, server names as strings.
pub open spec fn same_entries<K>(v: Seq<(K, String)>, es: Seq<(K, Seq<char>)>) -> bool {
    &&& v.len() == es.len()
    &&& forall|i: int| 0 <= i < v.len() ==> (#[trigger] v[i]).0 == es[i].0 && v[i].1@ == es[i].1
}

/// `r` is what reading a table gave: its entries, or the position of its
/// first malformed record.
pub open spec fn read_as<K>(r: Result<Vec<(K, String)>, usize>, t: Result<Seq<(K, Seq<char>)>, int>) -> bool {
    match (r, t) {
        (Ok(v), Ok(es)) => same_entries(v@, es),
        (Err(i), Err(j)) => i == j,
        _ => false,
    }
}

/// Reads the compiled IPv4 table.
pub fn read_ipv4_table(data: &[u8]) -> (r: Result<Vec<(Ipv4Net, String)>, usize>)
    ensures
        read_as(r, ipv4_table(data@)),
        r matches Ok(v) ==> forall|i: int| 0 <= i < v@.len() ==> (#[trigger] v@[i]).0.wf(),
{
    let recs = read_csv_records(data, 44, false, false);
    let ghost rs = recs.deep_view();
    let ghost key = |t: Seq<char>| ipv4_text_prefix(t);
    let mut out: Vec<(Ipv4Net, String)> = Vec::new();
    let mut i: usize = 0;
    while i < recs.len()
        invariant
            i <= recs@.len(),
            rs == recs.deep_view(),
            rs == compiled_records(data@),
            key == (|t: Seq<char>| ipv4_text_prefix(t)),
            table_entries(rs, key, i as int) matches Ok(es) && same_entries(out@, es),
            forall|k: int| 0 <= k < out@.len() ==> (#[trigger] out@[k]).0.wf(),
        decreases recs@.len() - i,
    {
        if let Some(fields) = &recs[i] {
            proof {
                assert(rs[i as int] == Some(fields.deep_view()));
            }
            if fields.len() < 2 {
                proof {
                    lemma_table_error_stays(rs, key, i + 1, rs.len() as int);
                }
                return Err(i);
            }
            proof {
                assert(fields.deep_view()[0] == fields@[0]@);
            }
            match Ipv4Net::parse(fields[0].as_str()) {
                Some(n) => {
                    out.push((n, fields[1].clone()));
                },
                None => {
                    proof {
                        lemma_table_error_stays(rs, key, i + 1, rs.len() as int);
                    }
                    return Err(i);
                },
            }
        }
        i += 1;
    }
    Ok(out)
}

/// Reads the compiled IPv6 table.
pub fn read_ipv6_table(data: &[u8]) -> (r: Result<Vec<(Ipv6Net, String)>, usize>)
    ensures
        read_as(r, ipv6_table(data@)),
        r matches Ok(v) ==> forall|i: int| 0 <= i < v@.len() ==> (#[trigger] v@[i]).0.wf(),
{
    let recs = read_csv_records(data, 44, false, false);
    let ghost rs = recs.deep_view();
    let ghost key = |t: Seq<char>| ipv6_text_prefix(t);
    let mut out: Vec<(Ipv6Net, String)> = Vec::new();
    let mut i: usize = 0;
    while i < recs.len()
        invariant
            i <= recs@.len(),
            rs == recs.deep_view(),
            rs == compiled_records(data@),
            key == (|t: Seq<char>| ipv6_text_prefix(t)),
            table_entries(rs, key, i as int) matches Ok(es) && same_entries(out@, es),
            forall|k: int| 0 <= k < out@.len() ==> (#[trigger] out@[k]).0.wf(),
        decreases recs@.len() - i,
    {
        if let Some(fields) = &recs[i] {
            proof {
                assert(rs[i as int] == Some(fields.deep_view()));
            }
            if fields.len() < 2 {
                proof {
                    lemma_table_error_stays(rs, key, i + 1, rs.len() as int);
                }
                return Err(i);
            }
            proof {
                assert(fields.deep_view()[0] == fields@[0]@);
            }
            match Ipv6Net::parse(fields[0].as_str()) {
                Some(n) => {
                    out.push((n, fields[1].clone()));
                },
                None => {
                    proof {
                        lemma_table_error_stays(rs, key, i + 1, rs.len() as int);
                    }
                    return Err(i);
                },
            }
        }
        i += 1;
    }
    Ok(out)
}

/// Reads the compiled AS number table.
pub fn read_asn_table(data: &[u8]) -> (r: Result<Vec<(AsnRange, String)>, usize>)
    ensures
        read_as(r, asn_table(data@)),
{
    let recs = read_csv_records(data, 44, false, false);
    let ghost rs = recs.deep_view();
    let ghost key = |t: Seq<char>| asn_text_range(t);
    let mut out: Vec<(AsnRange, String)> = Vec::new();
    let mut i: usize = 0;
    while i < recs.len()
        invariant
            i <= recs@.len(),
            rs == recs.deep_view(),
            rs == compiled_records(data@),
            key == (|t: Seq<char>| asn_text_range(t)),
            table_entries(rs, key, i as int) matches Ok(es) && same_entries(out@, es),
        decreases recs@.len() - i,
    {
        if let Some(fields) = &recs[i] {
            proof {
                assert(rs[i as int] == Some(fields.deep_view()));
            }
            if fields.len() < 2 {
                proof {
                    lemma_table_error_stays(rs, key, i + 1, rs.len() as int);
                }
                return Err(i);
            }
            proof {
                assert(fields.deep_view()[0] == fields@[0]@);
            }
            match parse_asn_text_range(fields[0].as_str()) {
                Some(n) => {
                    out.push((n, fields[1].clone()));
                },
                None => {
                    proof {
                        lemma_table_error_stays(rs, key, i + 1, rs.len() as int);
                    }
                    return Err(i);
                },
            }
        }
        i += 1;
    }
    Ok(out)
}

/// The server names of the entries of the three tables, in table order.
pub open spec fn table_names(
    es4: Seq<(Ipv4Net, Seq<char>)>,
    es6: Seq<(Ipv6Net, Seq<char>)>,
    esa: Seq<(AsnRange, Seq<char>)>,
) -> Seq<Seq<char>> {
    es4.map_values(|e: (Ipv4Net, Seq<char>)| e.1) + es6.map_values(|e: (Ipv6Net, Seq<char>)| e.1)
        + esa.map_values(|e: (AsnRange, Seq<char>)| e.1)
}

/// `ids` holds the entries of `es` with each server name replaced by its id
/// in `names`.
pub open spec fn entries_with_ids<K>(ids: Seq<(K, u32)>, es: Seq<(K, Seq<char>)>, names: Seq<Seq<char>>) -> bool {
    &&& ids.len() == es.len()
    &&& forall|i: int|
        0 <= i < ids.len() ==> (#[trigger] ids[i]).0 == es[i].0 && (ids[i].1 as int) < names.len()
            && names[ids[i].1 as int] == es[i].1
}

/// Replaces each server name of `es` by its id in `registry`.
fn assign_ids<K: Copy>(registry: &ServerRegistry, es: &Vec<(K, String)>) -> (r: Vec<(K, u32)>)
    requires
        forall|i: int| 0 <= i < es@.len() ==> registry@.contains((#[trigger] es@[i]).1@),
    ensures
        r@.len() == es@.len(),
        forall|i: int|
            0 <= i < r@.len() ==> (#[trigger] r@[i]).0 == es@[i].0 && (r@[i].1 as int) < registry@.len()
                && registry@[r@[i].1 as int] == es@[i].1@,
{
    let mut out: Vec<(K, u32)> = Vec::new();
    let mut i: usize = 0;
    while i < es.len()
        invariant
            i <= es@.len(),
            out@.len() == i,
            forall|j: int| 0 <= j < es@.len() ==> registry@.contains((#[trigger] es@[j]).1@),
            forall|j: int|
                0 <= j < i ==> (#[trigger] out@[j]).0 == es@[j].0 && (out@[j].1 as int) < registry@.len()
                    && registry@[out@[j].1 as int] == es@[j].1@,
        decreases es@.len() - i,
    {
        let id = match registry.id_of(es[i].1.as_str()) {
            Some(id) => id,
            None => {
                proof {
                    assert(registry@.contains(es@[i as int].1@));
                }
                0
            },
        };
        out.push((es[i].0, id));
        i += 1;
    }
    out
}

/// Appends the server names of `es` to `names`.
fn push_names<K>(names: &mut Vec<String>, es: &Vec<(K, String)>)
    ensures
        final(names).deep_view() == old(names).deep_view() + es@.map_values(|e: (K, String)| e.1@),
{
    let ghost start = names.deep_view();
    let mut i: usize = 0;
    while i < es.len()
        invariant
            i <= es@.len(),
            names.deep_view() == start + es@.subrange(0, i as int).map_values(|e: (K, String)| e.1@),
        decreases es@.len() - i,
    {
        let ghost before = names.deep_view();
        let name = es[i].1.clone();
        names.push(name);
        proof {
            assert(names.deep_view() =~= before.push(es@[i as int].1@));
            assert(es@.subrange(0, i + 1).map_values(|e: (K, String)| e.1@) =~= es@.subrange(0, i as int).map_values(
                |e: (K, String)| e.1@,
            ).push(es@[i as int].1@));
        }
        i += 1;
        proof {
            assert(names.deep_view() =~= start + es@.subrange(0, i as int).map_values(|e: (K, String)| e.1@));
        }
    }
    proof {
        assert(es@.subrange(0, es@.len() as int) =~= es@);
    }
}

/// The live routing snapshot: the three indexes, whose values are server
/// ids, and the server registry.
pub struct Context {
    pub ipv4: Ipv4ResourceLookup,
    pub ipv6: Ipv6ResourceLookup,
    pub asn: AsnResourceLookup,
    pub servers: ServerRegistry,
}

impl Context {
    /// The server id that a query resolves to: that of the entry answering
    /// the resource the query names; none when the query names no resource
    /// or no entry contains it.
    pub open spec fn resolve(&self, s: Seq<char>) -> Option<u32> {
        match query_resource(s) {
            Some(Resource::Ipv4(n)) => match ipv4_longest_match(self.ipv4.entries(), n) {
                Some(e) => Some(e.1),
                None => None,
            },
            Some(Resource::Ipv6(n)) => match ipv6_longest_match(self.ipv6.entries(), n) {
                Some(e) => Some(e.1),
                None => None,
            },
            Some(Resource::Asn(r)) => match asn_longest_match(self.asn.entries(), r) {
                Some(e) => Some(e.1),
                None => None,
            },
            None => None,
        }
    }

    /// The context holds the entries of the three tables, with the sorted
    /// distinct server names among them as its registry.
    pub open spec fn built_from(
        &self,
        es4: Seq<(Ipv4Net, Seq<char>)>,
        es6: Seq<(Ipv6Net, Seq<char>)>,
        esa: Seq<(AsnRange, Seq<char>)>,
    ) -> bool {
        &&& is_sorted_distinct(self.servers@)
        &&& forall|s: Seq<char>| self.servers@.contains(s) <==> table_names(es4, es6, esa).contains(s)
        &&& entries_with_ids(self.ipv4.entries(), es4, self.servers@)
        &&& entries_with_ids(self.ipv6.entries(), es6, self.servers@)
        &&& entries_with_ids(self.asn.entries(), esa, self.servers@)
    }

    /// Builds a context from table entries given with server names.
    pub fn from_tables(
        ipv4: Vec<(Ipv4Net, String)>,
        ipv6: Vec<(Ipv6Net, String)>,
        asn: Vec<(AsnRange, String)>,
    ) -> (r: Result<Context, ContextError>)
        requires
            forall|i: int| 0 <= i < ipv4@.len() ==> (#[trigger] ipv4@[i]).0.wf(),
            forall|i: int| 0 <= i < ipv6@.len() ==> (#[trigger] ipv6@[i]).0.wf(),
        ensures
            match r {
                Ok(c) => ipv4@.len() + ipv6@.len() + asn@.len() <= u32::MAX && c.built_from(
                    ipv4@.map_values(|e: (Ipv4Net, String)| (e.0, e.1@)),
                    ipv6@.map_values(|e: (Ipv6Net, String)| (e.0, e.1@)),
                    asn@.map_values(|e: (AsnRange, String)| (e.0, e.1@)),
                ),
                Err(e) => e == ContextError::TooManyServers && ipv4@.len() + ipv6@.len() + asn@.len()
                    > u32::MAX,
            },
    {
        if ipv4.len() > 0xFFFF_FFFF || ipv6.len() > 0xFFFF_FFFF - ipv4.len() || asn.len() > 0xFFFF_FFFF
            - ipv4.len() - ipv6.len() {
            return Err(ContextError::TooManyServers);
        }
        let ghost es4 = ipv4@.map_values(|e: (Ipv4Net, String)| (e.0, e.1@));
        let ghost es6 = ipv6@.map_values(|e: (Ipv6Net, String)| (e.0, e.1@));
        let ghost esa = asn@.map_values(|e: (AsnRange, String)| (e.0, e.1@));
        let mut names: Vec<String> = Vec::new();
        push_names(&mut names, &ipv4);
        push_names(&mut names, &ipv6);
        push_names(&mut names, &asn);
        let ghost all = table_names(es4, es6, esa);
        proof {
            assert(names.deep_view() =~= all);
        }
        let servers = ServerRegistry::from_names(&names);
        proof {
            let n4 = ipv4@.len() as int;
            let n6 = ipv6@.len() as int;
            assert forall|i: int| 0 <= i < n4 implies servers@.contains((#[trigger] ipv4@[i]).1@) by {
                assert(all[i] == ipv4@[i].1@);
            }
            assert forall|i: int| 0 <= i < n6 implies servers@.contains((#[trigger] ipv6@[i]).1@) by {
                assert(all[n4 + i] == ipv6@[i].1@);
            }
            assert forall|i: int| 0 <= i < asn@.len() implies servers@.contains((#[trigger] asn@[i]).1@) by {
                assert(all[n4 + n6 + i] == asn@[i].1@);
            }
        }
        let ids4 = assign_ids(&servers, &ipv4);
        let ids6 = assign_ids(&servers, &ipv6);
        let idsa = assign_ids(&servers, &asn);
        let ctx = Context {
            ipv4: Ipv4IntervalTree::from_iter(ids4),
            ipv6: Ipv6IntervalTree::from_iter(ids6),
            asn: AsnIntervalTree::from_iter(idsa),
            servers,
        };
        proof {
            assert(entries_with_ids(ctx.ipv4.entries(), es4, ctx.servers@));
            assert(entries_with_ids(ctx.ipv6.entries(), es6, ctx.servers@));
            assert(entries_with_ids(ctx.asn.entries(), esa, ctx.servers@));
        }
        Ok(ctx)
    }

    /// Builds a context from the contents of the three compiled tables, each a
    /// CSV text of `<resource>,<server>` records. Unreadable records are
    /// skipped; a readable one that is malformed fails the whole.
    pub fn from_files(ipv4_data: &[u8], ipv6_data: &[u8], asn_data: &[u8]) -> (r: Result<Context, ContextError>)
        ensures
            match (ipv4_table(ipv4_data@), ipv6_table(ipv6_data@), asn_table(asn_data@)) {
                (Err(i), _, _) => r == Err::<Context, ContextError>(ContextError::MalformedRow { table: Table::Ipv4, row: i as usize }),
                (Ok(_), Err(i), _) => r == Err::<Context, ContextError>(ContextError::MalformedRow { table: Table::Ipv6, row: i as usize }),
                (Ok(_), Ok(_), Err(i)) => r == Err::<Context, ContextError>(ContextError::MalformedRow { table: Table::Asn, row: i as usize }),
                (Ok(es4), Ok(es6), Ok(esa)) => match r {
                    Ok(c) => es4.len() + es6.len() + esa.len() <= u32::MAX && c.built_from(es4, es6, esa),
                    Err(e) => e == ContextError::TooManyServers && es4.len() + es6.len() + esa.len() > u32::MAX,
                },
            },
    {
        let t4 = match read_ipv4_table(ipv4_data) {
            Ok(v) => v,
            Err(i) => {
                return Err(ContextError::MalformedRow { table: Table::Ipv4, row: i });
            },
        };
        let t6 = match read_ipv6_table(ipv6_data) {
            Ok(v) => v,
            Err(i) => {
                return Err(ContextError::MalformedRow { table: Table::Ipv6, row: i });
            },
        };
        let ta = match read_asn_table(asn_data) {
            Ok(v) => v,
            Err(i) => {
                return Err(ContextError::MalformedRow { table: Table::Asn, row: i });
            },
        };
        proof {
            if let (Ok(es4), Ok(es6), Ok(esa)) = (ipv4_table(ipv4_data@), ipv6_table(ipv6_data@), asn_table(asn_data@)) {
                assert(t4@.map_values(|e: (Ipv4Net, String)| (e.0, e.1@)) =~= es4);
                assert(t6@.map_values(|e: (Ipv6Net, String)| (e.0, e.1@)) =~= es6);
                assert(ta@.map_values(|e: (AsnRange, String)| (e.0, e.1@)) =~= esa);
            }
        }
        Context::from_tables(t4, t6, ta)
    }

    /// The server id that a query resolves to.
    pub fn lookup_internal(&self, value: &str) -> (r: Option<u32>)
        ensures
            r == self.resolve(value@),
    {
        match parse_query(value) {
            Some(Resource::Ipv4(n)) => self.ipv4.get_longest_match_value(n),
            Some(Resource::Ipv6(n)) => self.ipv6.get_longest_match_value(n),
            Some(Resource::Asn(r)) => self.asn.get_longest_match_value(r),
            None => None,
        }
    }

    /// The name of the server that a query resolves to; none when the query
    /// resolves to no server or to the empty name, which marks unassigned
    /// space.
    pub open spec fn server_for(&self, s: Seq<char>) -> Option<Seq<char>> {
        match self.resolve(s) {
            Some(id) => if (id as int) < self.servers@.len() && self.servers@[id as int].len() > 0 {
                Some(self.servers@[id as int])
            } else {
                None
            },
            None => None,
        }
    }

    /// The name of the server that a query resolves to, as `server_for`
    /// says.
    pub fn lookup(&self, value: &str) -> (r: Option<&String>)
        ensures
            match r {
                Some(s) => self.server_for(value@) == Some(s@),
                None => self.server_for(value@) is None,
            },
    {
        match self.lookup_internal(value) {
            Some(id) => match self.servers.name_of(id) {
                Some(name) => if name.as_str().is_empty() {
                    None
                } else {
                    Some(name)
                },
                None => None,
            },
            None => None,
        }
    }
}

} // verus!
