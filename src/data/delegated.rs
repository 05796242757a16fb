//! The delegated stage: the RIRs' records of the resources they allocated,
//! kept where the entries before the stage do not already route them to the
//! same registry.

use crate::data::processor::{
    asn_entries_ok, ipv4_entries_ok, ipv6_entries_ok, lemma_asn_entries_ok_concat,
    lemma_ipv4_entries_ok_concat, lemma_ipv6_entries_ok_concat, Processor, SourceData,
};
use crate::lookup::{
    asn_longest_match, ipv4_longest_match, ipv6_longest_match, Asn, AsnRange, AsnResourceLookup,
    Ipv4ResourceLookup, Ipv6ResourceLookup, ResourceLookup,
};
use crate::net::{ipv4_text_address, ipv6_text_address, lemma_two_pow_values, two_pow, Ipv4Net, Ipv6Net};
use crate::registry::{name_id, str_eq, ServerRegistry};
use crate::text::{
    csv_records, decimal_at_most, gather, lemma_concat_forall, lemma_gather_forall, parse_decimal,
    read_csv_records,
};
use vstd::prelude::*;
use vstd::string::*;

verus! {

/// The delegated stage.
#[derive(Clone, Copy, Debug)]
pub struct Delegated {}

/// The smallest prefix length from `l` up to 32 at which `addr` is the
/// first address of a prefix.
pub open spec fn aligned_len_from(addr: int, l: int) -> int
    decreases 32 - l,
{
    if l >= 32 || addr % (two_pow((32 - l) as nat) as int) == 0 {
        l
    } else {
        aligned_len_from(addr, l + 1)
    }
}

/// The longest prefix length, at least 8, at which `addr` starts a prefix:
/// the finest alignment that the address permits.
pub open spec fn largest_aligned_prefix_length(addr: int) -> int {
    aligned_len_from(addr, 8)
}

/// The largest `k` with `2^k <= n`, for positive `n`.
pub open spec fn floor_log2(n: int) -> int
    decreases n,
{
    if n <= 1 {
        0
    } else {
        1 + floor_log2(n / 2)
    }
}

/// The prefix length of the next block when `remaining` addresses from
/// `base` are still to be covered: the largest block that the count allows,
/// unless the alignment of `base` asks for a smaller one.
pub open spec fn block_len(base: int, remaining: int) -> int {
    let by_count = 32 - floor_log2(remaining);
    let by_alignment = largest_aligned_prefix_length(base);
    if by_count > by_alignment {
        by_count
    } else {
        by_alignment
    }
}

/// The CIDR blocks, as address and prefix length, that cover `remaining`
/// addresses from `base`, largest first as the alignment allows.
pub open spec fn cidr_split(base: int, remaining: int) -> Seq<(u32, u8)>
    decreases remaining,
{
    if remaining <= 0 {
        Seq::empty()
    } else {
        let l = block_len(base, remaining);
        let size = two_pow((32 - l) as nat) as int;
        if size < 1 || size > remaining {
            Seq::empty()
        } else {
            seq![(base as u32, l as u8)] + cidr_split(base + size, remaining - size)
        }
    }
}

pub proof fn lemma_floor_log2_bound(n: int, m: nat)
    requires
        1 <= n < two_pow(m),
    ensures
        0 <= floor_log2(n) < m,
    decreases n,
{
    if n > 1 {
        assert(m >= 1);
        assert(two_pow(m) == 2 * two_pow((m - 1) as nat));
        lemma_floor_log2_bound(n / 2, (m - 1) as nat);
    } else if m == 0 {
        assert(two_pow(0) == 1);
    }
}

/// The longest prefix length, at least 8, at which `address` starts a
/// prefix.
pub fn largest_prefix_length(address: u32) -> (r: u32)
    ensures
        r == largest_aligned_prefix_length(address as int),
        8 <= r <= 32,
{
    proof {
        lemma_two_pow_values();
    }
    let mut length: u32 = 8;
    let mut size: u64 = 0x100_0000;
    while length < 32 && (address as u64) % size != 0
        invariant
            8 <= length <= 32,
            size == two_pow((32 - length) as nat),
            size >= 1,
            aligned_len_from(address as int, 8) == aligned_len_from(address as int, length as int),
        decreases 32 - length,
    {
        proof {
            assert(two_pow((32 - length) as nat) == 2 * two_pow((32 - length - 1) as nat));
            crate::net::lemma_two_pow_positive((32 - length - 1) as nat);
        }
        length = length + 1;
        size = size / 2;
    }
    length
}

/// The largest `k` with `2^k <= n`.
fn log2_floor(n: u32) -> (r: u32)
    requires
        n >= 1,
    ensures
        r == floor_log2(n as int),
        r <= 31,
{
    proof {
        lemma_two_pow_values();
        lemma_floor_log2_bound(n as int, 32);
    }
    let mut v: u32 = n;
    let mut k: u32 = 0;
    while v > 1
        invariant
            v >= 1,
            floor_log2(n as int) == k + floor_log2(v as int),
            floor_log2(n as int) <= 31,
            floor_log2(v as int) >= 0,
        decreases v,
    {
        proof {
            lemma_two_pow_values();
            lemma_floor_log2_bound((v / 2) as int, 32);
        }
        v = v / 2;
        k = k + 1;
    }
    k
}

/// `2^n`.
fn block_size(n: u32) -> (r: u64)
    requires
        n <= 32,
    ensures
        r == two_pow(n as nat),
{
    let mut r: u64 = 1;
    let mut i: u32 = 0;
    while i < n
        invariant
            i <= n <= 32,
            r == two_pow(i as nat),
        decreases n - i,
    {
        proof {
            lemma_two_pow_values();
            crate::net::lemma_two_pow_monotonic((i + 1) as nat, 32);
            assert(two_pow((i + 1) as nat) == 2 * two_pow(i as nat));
        }
        r = r * 2;
        i += 1;
    }
    r
}

/// Splits `hosts` addresses from `address` into CIDR blocks, largest first
/// as the alignment allows.
pub fn to_prefixes(address: u32, hosts: u32) -> (r: Vec<(u32, u8)>)
    requires
        address + hosts <= 0x1_0000_0000,
    ensures
        r@ == cidr_split(address as int, hosts as int),
        forall|i: int| 0 <= i < r@.len() ==> (#[trigger] r@[i]).1 <= 32,
{
    let mut prefixes: Vec<(u32, u8)> = Vec::new();
    let mut current: u64 = address as u64;
    let mut remaining: u32 = hosts;
    let mut done = false;
    while remaining > 0 && !done
        invariant
            current + remaining <= 0x1_0000_0000,
            prefixes@ + cidr_split(current as int, remaining as int) == cidr_split(address as int, hosts as int),
            done ==> cidr_split(current as int, remaining as int) == Seq::<(u32, u8)>::empty(),
            forall|i: int| 0 <= i < prefixes@.len() ==> (#[trigger] prefixes@[i]).1 <= 32,
        decreases remaining as int + if done {
            0int
        } else {
            1int
        },
    {
        let by_count = 32 - log2_floor(remaining);
        let by_alignment = largest_prefix_length(current as u32);
        let length = if by_count > by_alignment {
            by_count
        } else {
            by_alignment
        };
        let size = block_size(32 - length);
        if size > remaining as u64 || size < 1 {
            done = true;
        } else {
            proof {
                let rest = cidr_split(current + size, remaining - size);
                assert(cidr_split(current as int, remaining as int) == seq![(current as u32, length as u8)] + rest);
                assert(prefixes@.push((current as u32, length as u8)) + rest =~= prefixes@ + (seq![(current as u32, length as u8)] + rest));
            }
            prefixes.push((current as u32, length as u8));
            remaining = remaining - size as u32;
            current = current + size;
        }
    }
    proof {
        assert(prefixes@ + Seq::<(u32, u8)>::empty() =~= prefixes@);
    }
    prefixes
}

/// The server that AfriNIC's records are routed to.
pub const AFRINIC_SERVER: &'static str = "whois.afrinic.net";

/// The server that APNIC's records are routed to.
pub const APNIC_SERVER: &'static str = "whois.apnic.net";

/// The server that ARIN's records are routed to.
pub const ARIN_SERVER: &'static str = "whois.arin.net";

/// The server that LACNIC's records are routed to.
pub const LACNIC_SERVER: &'static str = "whois.lacnic.net";

/// The server that the RIPE NCC's records are routed to.
pub const RIPE_SERVER: &'static str = "whois.ripe.net";

/// The records of a delegated file: `|`-separated, no header, of varying
/// length.
pub open spec fn delegated_records(data: Seq<u8>) -> Seq<Option<Seq<Seq<char>>>> {
    csv_records(data, 124, false, true)
}

/// The entries before the stage already route `n` to `server`.
pub open spec fn routes_ipv4(snapshot: Seq<(Ipv4Net, u32)>, n: Ipv4Net, server: u32) -> bool {
    match ipv4_longest_match(snapshot, n) {
        Some(e) => e.1 == server,
        None => false,
    }
}

pub open spec fn routes_ipv6(snapshot: Seq<(Ipv6Net, u32)>, n: Ipv6Net, server: u32) -> bool {
    match ipv6_longest_match(snapshot, n) {
        Some(e) => e.1 == server,
        None => false,
    }
}

pub open spec fn routes_asn(snapshot: Seq<(AsnRange, u32)>, r: AsnRange, server: u32) -> bool {
    match asn_longest_match(snapshot, r) {
        Some(e) => e.1 == server,
        None => false,
    }
}

/// The blocks, as entries for `server`, that `snapshot` does not already
/// route to `server`.
pub open spec fn ipv4_kept(blocks: Seq<(u32, u8)>, server: u32, snapshot: Seq<(Ipv4Net, u32)>) -> Seq<(Ipv4Net, u32)>
    decreases blocks.len(),
{
    if blocks.len() == 0 {
        Seq::empty()
    } else {
        let prev = ipv4_kept(blocks.drop_last(), server, snapshot);
        let n = Ipv4Net { addr: blocks.last().0, prefix_len: blocks.last().1 };
        if routes_ipv4(snapshot, n, server) {
            prev
        } else {
            prev.push((n, server))
        }
    }
}

/// The record's type field (the third) is `t`.
pub open spec fn has_type(f: Seq<Seq<char>>, t: Seq<char>) -> bool {
    f.len() >= 5 && f[2] == t
}

/// The IPv4 entries of a record `|..|ipv4|<address>|<count>|..`: the blocks
/// that cover the `count` addresses from `address`, where the snapshot does
/// not already route them to `server`.
pub open spec fn delegated_ipv4_row(f: Seq<Seq<char>>, server: u32, snapshot: Seq<(Ipv4Net, u32)>) -> Seq<(Ipv4Net, u32)> {
    if has_type(f, seq!['i', 'p', 'v', '4']) {
        match (ipv4_text_address(f[3]), decimal_at_most(f[4], u32::MAX as int)) {
            (Some(a), Some(h)) => if a + h <= 0x1_0000_0000 {
                ipv4_kept(cidr_split(a as int, h), server, snapshot)
            } else {
                Seq::empty()
            },
            _ => Seq::empty(),
        }
    } else {
        Seq::empty()
    }
}

/// The IPv6 entry of a record `|..|ipv6|<address>|<length>|..`, where the
/// snapshot does not already route it to `server`.
pub open spec fn delegated_ipv6_row(f: Seq<Seq<char>>, server: u32, snapshot: Seq<(Ipv6Net, u32)>) -> Seq<(Ipv6Net, u32)> {
    if has_type(f, seq!['i', 'p', 'v', '6']) {
        match (ipv6_text_address(f[3]), decimal_at_most(f[4], 128)) {
            (Some(a), Some(l)) => {
                let n = Ipv6Net { addr: a, prefix_len: l as u8 };
                if routes_ipv6(snapshot, n, server) {
                    Seq::empty()
                } else {
                    seq![(n, server)]
                }
            },
            _ => Seq::empty(),
        }
    } else {
        Seq::empty()
    }
}

/// The AS number entry of a record `|..|asn|<first>|<count>|..`, the range
/// `[first, first + count)`, where the snapshot does not already route it
/// to `server`.
pub open spec fn delegated_asn_row(f: Seq<Seq<char>>, server: u32, snapshot: Seq<(AsnRange, u32)>) -> Seq<(AsnRange, u32)> {
    if has_type(f, seq!['a', 's', 'n']) {
        match (decimal_at_most(f[3], u32::MAX as int), decimal_at_most(f[4], u32::MAX as int)) {
            (Some(a), Some(c)) => {
                let r = AsnRange { start: Asn { value: a as u64 }, end: Asn { value: (a + c) as u64 } };
                if routes_asn(snapshot, r, server) {
                    Seq::empty()
                } else {
                    seq![(r, server)]
                }
            },
            _ => Seq::empty(),
        }
    } else {
        Seq::empty()
    }
}

pub open spec fn delegated_ipv4(data: Seq<u8>, server: u32, snapshot: Seq<(Ipv4Net, u32)>) -> Seq<(Ipv4Net, u32)> {
    let recs = delegated_records(data);
    gather(recs, |f: Seq<Seq<char>>| delegated_ipv4_row(f, server, snapshot), recs.len() as int)
}

pub open spec fn delegated_ipv6(data: Seq<u8>, server: u32, snapshot: Seq<(Ipv6Net, u32)>) -> Seq<(Ipv6Net, u32)> {
    let recs = delegated_records(data);
    gather(recs, |f: Seq<Seq<char>>| delegated_ipv6_row(f, server, snapshot), recs.len() as int)
}

pub open spec fn delegated_asn(data: Seq<u8>, server: u32, snapshot: Seq<(AsnRange, u32)>) -> Seq<(AsnRange, u32)> {
    let recs = delegated_records(data);
    gather(recs, |f: Seq<Seq<char>>| delegated_asn_row(f, server, snapshot), recs.len() as int)
}

fn handle_ipv4(
    f: &Vec<String>,
    server: u32,
    ipv4_lookup: &Ipv4ResourceLookup,
    entries: &mut Vec<(Ipv4Net, u32)>,
)
    requires
        has_type(f.deep_view(), seq!['i', 'p', 'v', '4']),
    ensures
        final(entries)@ == old(entries)@ + delegated_ipv4_row(f.deep_view(), server, ipv4_lookup.entries()),
        forall|i: int|
            0 <= i < delegated_ipv4_row(f.deep_view(), server, ipv4_lookup.entries()).len() ==> {
                let e = #[trigger] delegated_ipv4_row(f.deep_view(), server, ipv4_lookup.entries())[i];
                e.0.wf() && e.1 == server
            },
{
    let ghost fv = f.deep_view();
    let ghost snapshot = ipv4_lookup.entries();
    proof {
        assert(fv[3] == f@[3]@ && fv[4] == f@[4]@);
    }
    let address = match Ipv4Net::parse_address(f[3].as_str()) {
        Some(a) => a,
        None => {
            return;
        },
    };
    let hosts = match parse_decimal(f[4].as_str(), 0xFFFF_FFFF) {
        Some(h) => h as u32,
        None => {
            return;
        },
    };
    if address as u64 + hosts as u64 > 0x1_0000_0000 {
        return;
    }
    let blocks = to_prefixes(address, hosts);
    let ghost start = entries@;
    let mut k: usize = 0;
    while k < blocks.len()
        invariant
            k <= blocks@.len(),
            snapshot == ipv4_lookup.entries(),
            forall|i: int| 0 <= i < blocks@.len() ==> (#[trigger] blocks@[i]).1 <= 32,
            entries@ == start + ipv4_kept(blocks@.subrange(0, k as int), server, snapshot),
            forall|i: int|
                0 <= i < ipv4_kept(blocks@.subrange(0, k as int), server, snapshot).len() ==> {
                    let e = #[trigger] ipv4_kept(blocks@.subrange(0, k as int), server, snapshot)[i];
                    e.0.wf() && e.1 == server
                },
        decreases blocks@.len() - k,
    {
        let (a, l) = blocks[k];
        let net = Ipv4Net { addr: a, prefix_len: l };
        let ghost prev = ipv4_kept(blocks@.subrange(0, k as int), server, snapshot);
        proof {
            assert(blocks@.subrange(0, k + 1).drop_last() =~= blocks@.subrange(0, k as int));
            assert(blocks@.subrange(0, k + 1).last() == blocks@[k as int]);
        }
        let routed = match ipv4_lookup.get_longest_match(net) {
            Some((_, lm_server)) => lm_server == server,
            None => false,
        };
        if !routed {
            entries.push((net, server));
        }
        k += 1;
        proof {
            let next = ipv4_kept(blocks@.subrange(0, k as int), server, snapshot);
            if !routed {
                assert(next == prev.push((net, server)));
                assert(entries@ =~= start + next);
            } else {
                assert(next == prev);
            }
        }
    }
    proof {
        assert(blocks@.subrange(0, blocks@.len() as int) =~= blocks@);
    }
}

fn handle_ipv6(
    f: &Vec<String>,
    server: u32,
    ipv6_lookup: &Ipv6ResourceLookup,
    entries: &mut Vec<(Ipv6Net, u32)>,
)
    requires
        has_type(f.deep_view(), seq!['i', 'p', 'v', '6']),
    ensures
        final(entries)@ == old(entries)@ + delegated_ipv6_row(f.deep_view(), server, ipv6_lookup.entries()),
        forall|i: int|
            0 <= i < delegated_ipv6_row(f.deep_view(), server, ipv6_lookup.entries()).len() ==> {
                let e = #[trigger] delegated_ipv6_row(f.deep_view(), server, ipv6_lookup.entries())[i];
                e.0.wf() && e.1 == server
            },
{
    let ghost fv = f.deep_view();
    proof {
        assert(fv[3] == f@[3]@ && fv[4] == f@[4]@);
    }
    let address = match Ipv6Net::parse_address(f[3].as_str()) {
        Some(a) => a,
        None => {
            return;
        },
    };
    let length = match parse_decimal(f[4].as_str(), 128) {
        Some(l) => l as u8,
        None => {
            return;
        },
    };
    let net = Ipv6Net { addr: address, prefix_len: length };
    let routed = match ipv6_lookup.get_longest_match(net) {
        Some((_, lm_server)) => lm_server == server,
        None => false,
    };
    if !routed {
        entries.push((net, server));
    }
}

fn handle_asn(
    f: &Vec<String>,
    server: u32,
    asn_lookup: &AsnResourceLookup,
    entries: &mut Vec<(AsnRange, u32)>,
)
    requires
        has_type(f.deep_view(), seq!['a', 's', 'n']),
    ensures
        final(entries)@ == old(entries)@ + delegated_asn_row(f.deep_view(), server, asn_lookup.entries()),
        forall|i: int|
            0 <= i < delegated_asn_row(f.deep_view(), server, asn_lookup.entries()).len() ==> (
            #[trigger] delegated_asn_row(f.deep_view(), server, asn_lookup.entries())[i]).1 == server,
{
    let ghost fv = f.deep_view();
    proof {
        assert(fv[3] == f@[3]@ && fv[4] == f@[4]@);
    }
    let first = match parse_decimal(f[3].as_str(), 0xFFFF_FFFF) {
        Some(a) => a,
        None => {
            return;
        },
    };
    let count = match parse_decimal(f[4].as_str(), 0xFFFF_FFFF) {
        Some(c) => c,
        None => {
            return;
        },
    };
    let range = AsnRange { start: Asn { value: first }, end: Asn { value: first + count } };
    let routed = match asn_lookup.get_longest_match(range) {
        Some((_, lm_server)) => lm_server == server,
        None => false,
    };
    if !routed {
        entries.push((range, server));
    }
}

/// Reads one RIR's delegated file, appending the entries its records give
/// for `server`.
fn parse_delegated_data(
    ipv4_lookup: &Ipv4ResourceLookup,
    ipv6_lookup: &Ipv6ResourceLookup,
    asn_lookup: &AsnResourceLookup,
    server: u32,
    data: &[u8],
    ipv4_entries: &mut Vec<(Ipv4Net, u32)>,
    ipv6_entries: &mut Vec<(Ipv6Net, u32)>,
    asn_entries: &mut Vec<(AsnRange, u32)>,
)
    ensures
        final(ipv4_entries)@ == old(ipv4_entries)@ + delegated_ipv4(data@, server, ipv4_lookup.entries()),
        final(ipv6_entries)@ == old(ipv6_entries)@ + delegated_ipv6(data@, server, ipv6_lookup.entries()),
        final(asn_entries)@ == old(asn_entries)@ + delegated_asn(data@, server, asn_lookup.entries()),
        forall|i: int|
            0 <= i < delegated_ipv4(data@, server, ipv4_lookup.entries()).len() ==> {
                let e = #[trigger] delegated_ipv4(data@, server, ipv4_lookup.entries())[i];
                e.0.wf() && e.1 == server
            },
        forall|i: int|
            0 <= i < delegated_ipv6(data@, server, ipv6_lookup.entries()).len() ==> {
                let e = #[trigger] delegated_ipv6(data@, server, ipv6_lookup.entries())[i];
                e.0.wf() && e.1 == server
            },
        forall|i: int|
            0 <= i < delegated_asn(data@, server, asn_lookup.entries()).len() ==> (
            #[trigger] delegated_asn(data@, server, asn_lookup.entries())[i]).1 == server,
{
    let recs = read_csv_records(data, 124, false, true);
    let ghost rs = recs.deep_view();
    let ghost s4 = ipv4_lookup.entries();
    let ghost s6 = ipv6_lookup.entries();
    let ghost sa = asn_lookup.entries();
    let ghost row4 = |f: Seq<Seq<char>>| delegated_ipv4_row(f, server, s4);
    let ghost row6 = |f: Seq<Seq<char>>| delegated_ipv6_row(f, server, s6);
    let ghost rowa = |f: Seq<Seq<char>>| delegated_asn_row(f, server, sa);
    let ghost start4 = ipv4_entries@;
    let ghost start6 = ipv6_entries@;
    let ghost starta = asn_entries@;
    let mut i: usize = 0;
    while i < recs.len()
        invariant
            i <= recs@.len(),
            rs == recs.deep_view(),
            rs == delegated_records(data@),
            s4 == ipv4_lookup.entries(),
            s6 == ipv6_lookup.entries(),
            sa == asn_lookup.entries(),
            row4 == (|f: Seq<Seq<char>>| delegated_ipv4_row(f, server, s4)),
            row6 == (|f: Seq<Seq<char>>| delegated_ipv6_row(f, server, s6)),
            rowa == (|f: Seq<Seq<char>>| delegated_asn_row(f, server, sa)),
            ipv4_entries@ == start4 + gather(rs, row4, i as int),
            ipv6_entries@ == start6 + gather(rs, row6, i as int),
            asn_entries@ == starta + gather(rs, rowa, i as int),
            forall|k: int| 0 <= k < gather(rs, row4, i as int).len() ==> {
                let e = #[trigger] gather(rs, row4, i as int)[k];
                e.0.wf() && e.1 == server
            },
            forall|k: int| 0 <= k < gather(rs, row6, i as int).len() ==> {
                let e = #[trigger] gather(rs, row6, i as int)[k];
                e.0.wf() && e.1 == server
            },
            forall|k: int| 0 <= k < gather(rs, rowa, i as int).len() ==> (#[trigger] gather(rs, rowa, i as int)[k]).1 == server,
        decreases recs@.len() - i,
    {
        let ghost b4 = gather(rs, row4, i as int);
        let ghost b6 = gather(rs, row6, i as int);
        let ghost ba = gather(rs, rowa, i as int);
        let ghost e4 = ipv4_entries@;
        let ghost e6 = ipv6_entries@;
        let ghost ea = asn_entries@;
        if let Some(fields) = &recs[i] {
            let ghost fv = fields.deep_view();
            proof {
                assert(rs[i as int] == Some(fv));
            }
            if fields.len() >= 5 {
                proof {
                    assert(fv[2] == fields@[2]@);
                    reveal_strlit("ipv4");
                    reveal_strlit("ipv6");
                    reveal_strlit("asn");
                    assert("ipv4"@ =~= seq!['i', 'p', 'v', '4']);
                    assert("ipv6"@ =~= seq!['i', 'p', 'v', '6']);
                    assert("asn"@ =~= seq!['a', 's', 'n']);
                }
                let kind = fields[2].as_str();
                if str_eq(kind, "ipv4") {
                    handle_ipv4(fields, server, ipv4_lookup, ipv4_entries);
                    proof {
                        assert(delegated_ipv6_row(fv, server, s6) =~= Seq::<(Ipv6Net, u32)>::empty());
                        assert(delegated_asn_row(fv, server, sa) =~= Seq::<(AsnRange, u32)>::empty());
                    }
                } else if str_eq(kind, "ipv6") {
                    handle_ipv6(fields, server, ipv6_lookup, ipv6_entries);
                    proof {
                        assert(delegated_ipv4_row(fv, server, s4) =~= Seq::<(Ipv4Net, u32)>::empty());
                        assert(delegated_asn_row(fv, server, sa) =~= Seq::<(AsnRange, u32)>::empty());
                    }
                } else if str_eq(kind, "asn") {
                    handle_asn(fields, server, asn_lookup, asn_entries);
                    proof {
                        assert(delegated_ipv4_row(fv, server, s4) =~= Seq::<(Ipv4Net, u32)>::empty());
                        assert(delegated_ipv6_row(fv, server, s6) =~= Seq::<(Ipv6Net, u32)>::empty());
                    }
                }
            }
        }
        proof {
            let n4 = gather(rs, row4, i + 1);
            let n6 = gather(rs, row6, i + 1);
            let na = gather(rs, rowa, i + 1);
            assert(ipv4_entries@ =~= start4 + n4);
            assert(ipv6_entries@ =~= start6 + n6);
            assert(asn_entries@ =~= starta + na);
            assert forall|k: int| 0 <= k < n4.len() implies (#[trigger] n4[k]).0.wf() && n4[k].1 == server by {
                if k >= b4.len() {
                    assert(n4[k] == ipv4_entries@[start4.len() + k]);
                }
            }
            assert forall|k: int| 0 <= k < n6.len() implies (#[trigger] n6[k]).0.wf() && n6[k].1 == server by {
                if k >= b6.len() {
                    assert(n6[k] == ipv6_entries@[start6.len() + k]);
                }
            }
            assert forall|k: int| 0 <= k < na.len() implies (#[trigger] na[k]).1 == server by {
                if k >= ba.len() {
                    assert(na[k] == asn_entries@[starta.len() + k]);
                }
            }
        }
        i += 1;
    }
}

/// The IPv4 entries of one RIR's file, for the server named `server_name`;
/// none when that server is not registered.
pub open spec fn rir_ipv4(data: Seq<u8>, names: Seq<Seq<char>>, server_name: Seq<char>, snapshot: Seq<(Ipv4Net, u32)>) -> Seq<(Ipv4Net, u32)> {
    match name_id(names, server_name) {
        Some(id) => delegated_ipv4(data, id, snapshot),
        None => Seq::empty(),
    }
}

pub open spec fn rir_ipv6(data: Seq<u8>, names: Seq<Seq<char>>, server_name: Seq<char>, snapshot: Seq<(Ipv6Net, u32)>) -> Seq<(Ipv6Net, u32)> {
    match name_id(names, server_name) {
        Some(id) => delegated_ipv6(data, id, snapshot),
        None => Seq::empty(),
    }
}

pub open spec fn rir_asn(data: Seq<u8>, names: Seq<Seq<char>>, server_name: Seq<char>, snapshot: Seq<(AsnRange, u32)>) -> Seq<(AsnRange, u32)> {
    match name_id(names, server_name) {
        Some(id) => delegated_asn(data, id, snapshot),
        None => Seq::empty(),
    }
}

/// Reads one RIR's file when its server is registered.
fn run_rir(
    server_name: &str,
    data: &Vec<u8>,
    servers: &ServerRegistry,
    ipv4_lookup: &Ipv4ResourceLookup,
    ipv6_lookup: &Ipv6ResourceLookup,
    asn_lookup: &AsnResourceLookup,
    ipv4_entries: &mut Vec<(Ipv4Net, u32)>,
    ipv6_entries: &mut Vec<(Ipv6Net, u32)>,
    asn_entries: &mut Vec<(AsnRange, u32)>,
)
    ensures
        final(ipv4_entries)@ == old(ipv4_entries)@ + rir_ipv4(data@, servers@, server_name@, ipv4_lookup.entries()),
        final(ipv6_entries)@ == old(ipv6_entries)@ + rir_ipv6(data@, servers@, server_name@, ipv6_lookup.entries()),
        final(asn_entries)@ == old(asn_entries)@ + rir_asn(data@, servers@, server_name@, asn_lookup.entries()),
        ipv4_entries_ok(rir_ipv4(data@, servers@, server_name@, ipv4_lookup.entries()), servers@.len() as int),
        ipv6_entries_ok(rir_ipv6(data@, servers@, server_name@, ipv6_lookup.entries()), servers@.len() as int),
        asn_entries_ok(rir_asn(data@, servers@, server_name@, asn_lookup.entries()), servers@.len() as int),
{
    match servers.id_of(server_name) {
        Some(id) => {
            parse_delegated_data(
                ipv4_lookup,
                ipv6_lookup,
                asn_lookup,
                id,
                data.as_slice(),
                ipv4_entries,
                ipv6_entries,
                asn_entries,
            );
        },
        None => {
            proof {
                assert(ipv4_entries@ =~= ipv4_entries@ + Seq::<(Ipv4Net, u32)>::empty());
                assert(ipv6_entries@ =~= ipv6_entries@ + Seq::<(Ipv6Net, u32)>::empty());
                assert(asn_entries@ =~= asn_entries@ + Seq::<(AsnRange, u32)>::empty());
            }
        },
    }
}

impl Processor for Delegated {
    open spec fn ipv4_added(&self, data: SourceData, names: Seq<Seq<char>>, snapshot: Seq<(Ipv4Net, u32)>) -> Seq<(Ipv4Net, u32)> {
        rir_ipv4(data.afrinic@, names, AFRINIC_SERVER@, snapshot) + rir_ipv4(data.apnic@, names, APNIC_SERVER@, snapshot)
            + rir_ipv4(data.arin@, names, ARIN_SERVER@, snapshot) + rir_ipv4(data.lacnic@, names, LACNIC_SERVER@, snapshot)
            + rir_ipv4(data.ripe@, names, RIPE_SERVER@, snapshot)
    }

    open spec fn ipv6_added(&self, data: SourceData, names: Seq<Seq<char>>, snapshot: Seq<(Ipv6Net, u32)>) -> Seq<(Ipv6Net, u32)> {
        rir_ipv6(data.afrinic@, names, AFRINIC_SERVER@, snapshot) + rir_ipv6(data.apnic@, names, APNIC_SERVER@, snapshot)
            + rir_ipv6(data.arin@, names, ARIN_SERVER@, snapshot) + rir_ipv6(data.lacnic@, names, LACNIC_SERVER@, snapshot)
            + rir_ipv6(data.ripe@, names, RIPE_SERVER@, snapshot)
    }

    open spec fn asn_added(&self, data: SourceData, names: Seq<Seq<char>>, snapshot: Seq<(AsnRange, u32)>) -> Seq<(AsnRange, u32)> {
        rir_asn(data.afrinic@, names, AFRINIC_SERVER@, snapshot) + rir_asn(data.apnic@, names, APNIC_SERVER@, snapshot)
            + rir_asn(data.arin@, names, ARIN_SERVER@, snapshot) + rir_asn(data.lacnic@, names, LACNIC_SERVER@, snapshot)
            + rir_asn(data.ripe@, names, RIPE_SERVER@, snapshot)
    }

    fn new() -> Delegated {
        Delegated {  }
    }

    fn run(
        &self,
        data: &SourceData,
        servers: &ServerRegistry,
        ipv4_lookup: &Ipv4ResourceLookup,
        ipv6_lookup: &Ipv6ResourceLookup,
        asn_lookup: &AsnResourceLookup,
        ipv4_entries: &mut Vec<(Ipv4Net, u32)>,
        ipv6_entries: &mut Vec<(Ipv6Net, u32)>,
        asn_entries: &mut Vec<(AsnRange, u32)>,
    ) {
        let ghost names = servers@;
        let ghost n = names.len() as int;
        let ghost snap4 = ipv4_lookup.entries();
        let ghost snap6 = ipv6_lookup.entries();
        let ghost snapa = asn_lookup.entries();
        let ghost mut t4 = Seq::<(Ipv4Net, u32)>::empty();
        let ghost mut t6 = Seq::<(Ipv6Net, u32)>::empty();
        let ghost mut ta = Seq::<(AsnRange, u32)>::empty();
        let ghost s4 = ipv4_entries@;
        let ghost s6 = ipv6_entries@;
        let ghost sa = asn_entries@;
        run_rir(AFRINIC_SERVER, &data.afrinic, servers, ipv4_lookup, ipv6_lookup, asn_lookup, ipv4_entries, ipv6_entries, asn_entries);
        proof {
            let a4 = rir_ipv4(data.afrinic@, names, AFRINIC_SERVER@, snap4);
            let a6 = rir_ipv6(data.afrinic@, names, AFRINIC_SERVER@, snap6);
            let aa = rir_asn(data.afrinic@, names, AFRINIC_SERVER@, snapa);
            assert(t4 + a4 =~= a4);
            assert(t6 + a6 =~= a6);
            assert(ta + aa =~= aa);
            t4 = a4;
            t6 = a6;
            ta = aa;
        }
        run_rir(APNIC_SERVER, &data.apnic, servers, ipv4_lookup, ipv6_lookup, asn_lookup, ipv4_entries, ipv6_entries, asn_entries);
        proof {
            let b4 = rir_ipv4(data.apnic@, names, APNIC_SERVER@, snap4);
            let b6 = rir_ipv6(data.apnic@, names, APNIC_SERVER@, snap6);
            let ba = rir_asn(data.apnic@, names, APNIC_SERVER@, snapa);
            assert(ipv4_entries@ =~= s4 + (t4 + b4));
            assert(ipv6_entries@ =~= s6 + (t6 + b6));
            assert(asn_entries@ =~= sa + (ta + ba));
            lemma_ipv4_entries_ok_concat(t4, b4, n);
            lemma_ipv6_entries_ok_concat(t6, b6, n);
            lemma_asn_entries_ok_concat(ta, ba, n);
            t4 = t4 + b4;
            t6 = t6 + b6;
            ta = ta + ba;
        }
        run_rir(ARIN_SERVER, &data.arin, servers, ipv4_lookup, ipv6_lookup, asn_lookup, ipv4_entries, ipv6_entries, asn_entries);
        proof {
            let c4 = rir_ipv4(data.arin@, names, ARIN_SERVER@, snap4);
            let c6 = rir_ipv6(data.arin@, names, ARIN_SERVER@, snap6);
            let ca = rir_asn(data.arin@, names, ARIN_SERVER@, snapa);
            assert(ipv4_entries@ =~= s4 + (t4 + c4));
            assert(ipv6_entries@ =~= s6 + (t6 + c6));
            assert(asn_entries@ =~= sa + (ta + ca));
            lemma_ipv4_entries_ok_concat(t4, c4, n);
            lemma_ipv6_entries_ok_concat(t6, c6, n);
            lemma_asn_entries_ok_concat(ta, ca, n);
            t4 = t4 + c4;
            t6 = t6 + c6;
            ta = ta + ca;
        }
        run_rir(LACNIC_SERVER, &data.lacnic, servers, ipv4_lookup, ipv6_lookup, asn_lookup, ipv4_entries, ipv6_entries, asn_entries);
        proof {
            let d4 = rir_ipv4(data.lacnic@, names, LACNIC_SERVER@, snap4);
            let d6 = rir_ipv6(data.lacnic@, names, LACNIC_SERVER@, snap6);
            let da = rir_asn(data.lacnic@, names, LACNIC_SERVER@, snapa);
            assert(ipv4_entries@ =~= s4 + (t4 + d4));
            assert(ipv6_entries@ =~= s6 + (t6 + d6));
            assert(asn_entries@ =~= sa + (ta + da));
            lemma_ipv4_entries_ok_concat(t4, d4, n);
            lemma_ipv6_entries_ok_concat(t6, d6, n);
            lemma_asn_entries_ok_concat(ta, da, n);
            t4 = t4 + d4;
            t6 = t6 + d6;
            ta = ta + da;
        }
        run_rir(RIPE_SERVER, &data.ripe, servers, ipv4_lookup, ipv6_lookup, asn_lookup, ipv4_entries, ipv6_entries, asn_entries);
        proof {
            let e4 = rir_ipv4(data.ripe@, names, RIPE_SERVER@, snap4);
            let e6 = rir_ipv6(data.ripe@, names, RIPE_SERVER@, snap6);
            let ea = rir_asn(data.ripe@, names, RIPE_SERVER@, snapa);
            assert(ipv4_entries@ =~= s4 + (t4 + e4));
            assert(ipv6_entries@ =~= s6 + (t6 + e6));
            assert(asn_entries@ =~= sa + (ta + ea));
            lemma_ipv4_entries_ok_concat(t4, e4, n);
            lemma_ipv6_entries_ok_concat(t6, e6, n);
            lemma_asn_entries_ok_concat(ta, ea, n);
        }
    }
}

pub proof fn lemma_ipv4_kept_not_routed(blocks: Seq<(u32, u8)>, server: u32, snapshot: Seq<(Ipv4Net, u32)>)
    ensures
        forall|k: int|
            0 <= k < ipv4_kept(blocks, server, snapshot).len() ==> !routes_ipv4(
                snapshot,
                (#[trigger] ipv4_kept(blocks, server, snapshot)[k]).0,
                ipv4_kept(blocks, server, snapshot)[k].1,
            ),
    decreases blocks.len(),
{
    if blocks.len() > 0 {
        let prev = ipv4_kept(blocks.drop_last(), server, snapshot);
        lemma_ipv4_kept_not_routed(blocks.drop_last(), server, snapshot);
        let cur = ipv4_kept(blocks, server, snapshot);
        assert forall|k: int| 0 <= k < cur.len() implies !routes_ipv4(snapshot, (#[trigger] cur[k]).0, cur[k].1) by {
            if k < prev.len() {
                assert(cur[k] == prev[k]);
            }
        }
    }
}

/// An entry that the entries before the stage do not route to its own
/// server.
pub open spec fn ipv4_not_routed(snapshot: Seq<(Ipv4Net, u32)>) -> spec_fn((Ipv4Net, u32)) -> bool {
    |e: (Ipv4Net, u32)| !routes_ipv4(snapshot, e.0, e.1)
}

pub open spec fn ipv6_not_routed(snapshot: Seq<(Ipv6Net, u32)>) -> spec_fn((Ipv6Net, u32)) -> bool {
    |e: (Ipv6Net, u32)| !routes_ipv6(snapshot, e.0, e.1)
}

pub open spec fn asn_not_routed(snapshot: Seq<(AsnRange, u32)>) -> spec_fn((AsnRange, u32)) -> bool {
    |e: (AsnRange, u32)| !routes_asn(snapshot, e.0, e.1)
}

proof fn lemma_rir_ipv4_not_routed(data: Seq<u8>, names: Seq<Seq<char>>, server_name: Seq<char>, snapshot: Seq<(Ipv4Net, u32)>)
    ensures
        forall|k: int|
            0 <= k < rir_ipv4(data, names, server_name, snapshot).len() ==> #[trigger] ipv4_not_routed(snapshot)(
                rir_ipv4(data, names, server_name, snapshot)[k],
            ),
{
    if let Some(id) = name_id(names, server_name) {
        let recs = delegated_records(data);
        let f = |fl: Seq<Seq<char>>| delegated_ipv4_row(fl, id, snapshot);
        let p = ipv4_not_routed(snapshot);
        assert forall|fields: Seq<Seq<char>>, k: int| 0 <= k < f(fields).len() implies #[trigger] p(#[trigger] f(fields)[k]) by {
            if has_type(fields, seq!['i', 'p', 'v', '4']) {
                if let (Some(a), Some(h)) = (ipv4_text_address(fields[3]), decimal_at_most(fields[4], u32::MAX as int)) {
                    lemma_ipv4_kept_not_routed(cidr_split(a as int, h), id, snapshot);
                }
            }
        }
        lemma_gather_forall(recs, f, recs.len() as int, p);
    }
}

proof fn lemma_rir_ipv6_not_routed(data: Seq<u8>, names: Seq<Seq<char>>, server_name: Seq<char>, snapshot: Seq<(Ipv6Net, u32)>)
    ensures
        forall|k: int|
            0 <= k < rir_ipv6(data, names, server_name, snapshot).len() ==> #[trigger] ipv6_not_routed(snapshot)(
                rir_ipv6(data, names, server_name, snapshot)[k],
            ),
{
    if let Some(id) = name_id(names, server_name) {
        let recs = delegated_records(data);
        let f = |fl: Seq<Seq<char>>| delegated_ipv6_row(fl, id, snapshot);
        let p = ipv6_not_routed(snapshot);
        assert forall|fields: Seq<Seq<char>>, k: int| 0 <= k < f(fields).len() implies #[trigger] p(#[trigger] f(fields)[k]) by {}
        lemma_gather_forall(recs, f, recs.len() as int, p);
    }
}

proof fn lemma_rir_asn_not_routed(data: Seq<u8>, names: Seq<Seq<char>>, server_name: Seq<char>, snapshot: Seq<(AsnRange, u32)>)
    ensures
        forall|k: int|
            0 <= k < rir_asn(data, names, server_name, snapshot).len() ==> #[trigger] asn_not_routed(snapshot)(
                rir_asn(data, names, server_name, snapshot)[k],
            ),
{
    if let Some(id) = name_id(names, server_name) {
        let recs = delegated_records(data);
        let f = |fl: Seq<Seq<char>>| delegated_asn_row(fl, id, snapshot);
        let p = asn_not_routed(snapshot);
        assert forall|fields: Seq<Seq<char>>, k: int| 0 <= k < f(fields).len() implies #[trigger] p(#[trigger] f(fields)[k]) by {}
        lemma_gather_forall(recs, f, recs.len() as int, p);
    }
}

/// Deduplication: no IPv4 entry that the delegated stage appends is already
/// routed to its own server by the entries the stage started from.
pub proof fn law_delegated_ipv4_not_redundant(stage: Delegated, data: SourceData, names: Seq<Seq<char>>, snapshot: Seq<(Ipv4Net, u32)>)
    ensures
        forall|i: int|
            0 <= i < stage.ipv4_added(data, names, snapshot).len() ==> !routes_ipv4(
                snapshot,
                (#[trigger] stage.ipv4_added(data, names, snapshot)[i]).0,
                stage.ipv4_added(data, names, snapshot)[i].1,
            ),
{
    let p = ipv4_not_routed(snapshot);
    let a = rir_ipv4(data.afrinic@, names, AFRINIC_SERVER@, snapshot);
    let b = rir_ipv4(data.apnic@, names, APNIC_SERVER@, snapshot);
    let c = rir_ipv4(data.arin@, names, ARIN_SERVER@, snapshot);
    let d = rir_ipv4(data.lacnic@, names, LACNIC_SERVER@, snapshot);
    let e = rir_ipv4(data.ripe@, names, RIPE_SERVER@, snapshot);
    lemma_rir_ipv4_not_routed(data.afrinic@, names, AFRINIC_SERVER@, snapshot);
    lemma_rir_ipv4_not_routed(data.apnic@, names, APNIC_SERVER@, snapshot);
    lemma_rir_ipv4_not_routed(data.arin@, names, ARIN_SERVER@, snapshot);
    lemma_rir_ipv4_not_routed(data.lacnic@, names, LACNIC_SERVER@, snapshot);
    lemma_rir_ipv4_not_routed(data.ripe@, names, RIPE_SERVER@, snapshot);
    lemma_concat_forall(a, b, p);
    lemma_concat_forall(a + b, c, p);
    lemma_concat_forall(a + b + c, d, p);
    lemma_concat_forall(a + b + c + d, e, p);
    assert forall|i: int| 0 <= i < stage.ipv4_added(data, names, snapshot).len() implies !routes_ipv4(
        snapshot,
        (#[trigger] stage.ipv4_added(data, names, snapshot)[i]).0,
        stage.ipv4_added(data, names, snapshot)[i].1,
    ) by {
        assert(p((a + b + c + d + e)[i]));
    }
}

/// Deduplication: no IPv6 entry that the delegated stage appends is already
/// routed to its own server by the entries the stage started from.
pub proof fn law_delegated_ipv6_not_redundant(stage: Delegated, data: SourceData, names: Seq<Seq<char>>, snapshot: Seq<(Ipv6Net, u32)>)
    ensures
        forall|i: int|
            0 <= i < stage.ipv6_added(data, names, snapshot).len() ==> !routes_ipv6(
                snapshot,
                (#[trigger] stage.ipv6_added(data, names, snapshot)[i]).0,
                stage.ipv6_added(data, names, snapshot)[i].1,
            ),
{
    let p = ipv6_not_routed(snapshot);
    let a = rir_ipv6(data.afrinic@, names, AFRINIC_SERVER@, snapshot);
    let b = rir_ipv6(data.apnic@, names, APNIC_SERVER@, snapshot);
    let c = rir_ipv6(data.arin@, names, ARIN_SERVER@, snapshot);
    let d = rir_ipv6(data.lacnic@, names, LACNIC_SERVER@, snapshot);
    let e = rir_ipv6(data.ripe@, names, RIPE_SERVER@, snapshot);
    lemma_rir_ipv6_not_routed(data.afrinic@, names, AFRINIC_SERVER@, snapshot);
    lemma_rir_ipv6_not_routed(data.apnic@, names, APNIC_SERVER@, snapshot);
    lemma_rir_ipv6_not_routed(data.arin@, names, ARIN_SERVER@, snapshot);
    lemma_rir_ipv6_not_routed(data.lacnic@, names, LACNIC_SERVER@, snapshot);
    lemma_rir_ipv6_not_routed(data.ripe@, names, RIPE_SERVER@, snapshot);
    lemma_concat_forall(a, b, p);
    lemma_concat_forall(a + b, c, p);
    lemma_concat_forall(a + b + c, d, p);
    lemma_concat_forall(a + b + c + d, e, p);
    assert forall|i: int| 0 <= i < stage.ipv6_added(data, names, snapshot).len() implies !routes_ipv6(
        snapshot,
        (#[trigger] stage.ipv6_added(data, names, snapshot)[i]).0,
        stage.ipv6_added(data, names, snapshot)[i].1,
    ) by {
        assert(p((a + b + c + d + e)[i]));
    }
}

/// Deduplication: no AS number entry that the delegated stage appends is
/// already routed to its own server by the entries the stage started from.
pub proof fn law_delegated_asn_not_redundant(stage: Delegated, data: SourceData, names: Seq<Seq<char>>, snapshot: Seq<(AsnRange, u32)>)
    ensures
        forall|i: int|
            0 <= i < stage.asn_added(data, names, snapshot).len() ==> !routes_asn(
                snapshot,
                (#[trigger] stage.asn_added(data, names, snapshot)[i]).0,
                stage.asn_added(data, names, snapshot)[i].1,
            ),
{
    let p = asn_not_routed(snapshot);
    let a = rir_asn(data.afrinic@, names, AFRINIC_SERVER@, snapshot);
    let b = rir_asn(data.apnic@, names, APNIC_SERVER@, snapshot);
    let c = rir_asn(data.arin@, names, ARIN_SERVER@, snapshot);
    let d = rir_asn(data.lacnic@, names, LACNIC_SERVER@, snapshot);
    let e = rir_asn(data.ripe@, names, RIPE_SERVER@, snapshot);
    lemma_rir_asn_not_routed(data.afrinic@, names, AFRINIC_SERVER@, snapshot);
    lemma_rir_asn_not_routed(data.apnic@, names, APNIC_SERVER@, snapshot);
    lemma_rir_asn_not_routed(data.arin@, names, ARIN_SERVER@, snapshot);
    lemma_rir_asn_not_routed(data.lacnic@, names, LACNIC_SERVER@, snapshot);
    lemma_rir_asn_not_routed(data.ripe@, names, RIPE_SERVER@, snapshot);
    lemma_concat_forall(a, b, p);
    lemma_concat_forall(a + b, c, p);
    lemma_concat_forall(a + b + c, d, p);
    lemma_concat_forall(a + b + c + d, e, p);
    assert forall|i: int| 0 <= i < stage.asn_added(data, names, snapshot).len() implies !routes_asn(
        snapshot,
        (#[trigger] stage.asn_added(data, names, snapshot)[i]).0,
        stage.asn_added(data, names, snapshot)[i].1,
    ) by {
        assert(p((a + b + c + d + e)[i]));
    }
}

} // verus!
