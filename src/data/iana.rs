//! The IANA stage: the top-level assignments of IPv4 /8 blocks, IPv6 blocks
//! and AS numbers to the registries.

use crate::data::processor::{
    asn_entries_ok, ipv4_entries_ok, ipv6_entries_ok, Processor, SourceData,
};
use crate::lookup::{
    Asn, AsnRange, AsnResourceLookup, Ipv4ResourceLookup, Ipv6ResourceLookup,
};
use crate::net::{ipv6_text_prefix, Ipv4Net, Ipv6Net};
use crate::registry::{name_id, ServerRegistry};
use crate::text::{
    char_index, csv_records, decimal_at_most, find_char, gather,
    parse_decimal, read_csv_records, seq_of,
};
use vstd::prelude::*;
use vstd::string::*;

verus! {

/// The IANA stage.
#[derive(Clone, Copy, Debug)]
pub struct Iana {}

/// The records of an IANA table: comma-separated, with a header line.
pub open spec fn iana_records(data: Seq<u8>) -> Seq<Option<Seq<Seq<char>>>> {
    csv_records(data, 44, true, false)
}

/// The end of the AS range that ends with `last`, in 32 bits: 0 after the
/// largest AS number.
pub open spec fn asn_end_after(last: int) -> u64 {
    if last == u32::MAX {
        0
    } else {
        (last + 1) as u64
    }
}

/// The entry of a row of the IPv4 table: `N/L` in the first field names the
/// prefix `N.0.0.0/L`, the fourth field the server.
pub open spec fn iana_ipv4_row(f: Seq<Seq<char>>, names: Seq<Seq<char>>) -> Option<(Ipv4Net, u32)> {
    if f.len() >= 4 {
        match (name_id(names, f[3]), find_char(f[0], '/', 0)) {
            (Some(id), Some(k)) => match (
                decimal_at_most(f[0].subrange(0, k), 255),
                decimal_at_most(f[0].subrange(k + 1, f[0].len() as int), 32),
            ) {
                (Some(o), Some(l)) => Some((Ipv4Net { addr: (o * 0x100_0000) as u32, prefix_len: l as u8 }, id)),
                _ => None,
            },
            _ => None,
        }
    } else {
        None
    }
}

/// The entry of a row of the IPv6 table: a prefix in the first field, the
/// server in the fourth.
pub open spec fn iana_ipv6_row(f: Seq<Seq<char>>, names: Seq<Seq<char>>) -> Option<(Ipv6Net, u32)> {
    if f.len() >= 4 {
        match (name_id(names, f[3]), ipv6_text_prefix(f[0])) {
            (Some(id), Some(n)) => Some((n, id)),
            _ => None,
        }
    } else {
        None
    }
}

/// The entry of a row of an AS number table: `N` or `A-B` in the first
/// field names `[N, N + 1)` or `[A, B + 1)`, the third field the server;
/// rows that start below `min_start` give none.
pub open spec fn iana_asn_row(f: Seq<Seq<char>>, names: Seq<Seq<char>>, min_start: int) -> Option<(AsnRange, u32)> {
    if f.len() >= 3 {
        match name_id(names, f[2]) {
            Some(id) => {
                let t = f[0];
                let bounds = match find_char(t, '-', 0) {
                    Some(k) => match (
                        decimal_at_most(t.subrange(0, k), u32::MAX as int),
                        decimal_at_most(t.subrange(k + 1, t.len() as int), u32::MAX as int),
                    ) {
                        (Some(a), Some(b)) => Some((a, b)),
                        _ => None,
                    },
                    None => match decimal_at_most(t, u32::MAX as int) {
                        Some(n) => Some((n, n)),
                        None => None,
                    },
                };
                match bounds {
                    Some((a, b)) => if a >= min_start {
                        Some((AsnRange { start: Asn { value: a as u64 }, end: Asn { value: asn_end_after(b) } }, id))
                    } else {
                        None
                    },
                    None => None,
                }
            },
            None => None,
        }
    } else {
        None
    }
}

pub open spec fn iana_ipv4_entries(data: Seq<u8>, names: Seq<Seq<char>>) -> Seq<(Ipv4Net, u32)> {
    let recs = iana_records(data);
    gather(recs, |f: Seq<Seq<char>>| seq_of(iana_ipv4_row(f, names)), recs.len() as int)
}

pub open spec fn iana_ipv6_entries(data: Seq<u8>, names: Seq<Seq<char>>) -> Seq<(Ipv6Net, u32)> {
    let recs = iana_records(data);
    gather(recs, |f: Seq<Seq<char>>| seq_of(iana_ipv6_row(f, names)), recs.len() as int)
}

pub open spec fn iana_asn_entries(data: Seq<u8>, names: Seq<Seq<char>>, min_start: int) -> Seq<(AsnRange, u32)> {
    let recs = iana_records(data);
    gather(recs, |f: Seq<Seq<char>>| seq_of(iana_asn_row(f, names, min_start)), recs.len() as int)
}

fn ipv4_row(f: &Vec<String>, servers: &ServerRegistry) -> (r: Option<(Ipv4Net, u32)>)
    ensures
        r == iana_ipv4_row(f.deep_view(), servers@),
        r matches Some(e) ==> e.0.wf() && (e.1 as int) < servers@.len(),
{
    if f.len() < 4 {
        return None;
    }
    let id = match servers.id_of(f[3].as_str()) {
        Some(id) => id,
        None => {
            return None;
        },
    };
    let t = f[0].as_str();
    let n = t.unicode_len();
    let k = match char_index(t, '/') {
        Some(k) => k,
        None => {
            return None;
        },
    };
    match (parse_decimal(t.substring_char(0, k), 255), parse_decimal(t.substring_char(k + 1, n), 32)) {
        (Some(o), Some(l)) => Some((Ipv4Net { addr: (o * 0x100_0000) as u32, prefix_len: l as u8 }, id)),
        _ => None,
    }
}

fn ipv6_row(f: &Vec<String>, servers: &ServerRegistry) -> (r: Option<(Ipv6Net, u32)>)
    ensures
        r == iana_ipv6_row(f.deep_view(), servers@),
        r matches Some(e) ==> e.0.wf() && (e.1 as int) < servers@.len(),
{
    if f.len() < 4 {
        return None;
    }
    let id = match servers.id_of(f[3].as_str()) {
        Some(id) => id,
        None => {
            return None;
        },
    };
    match Ipv6Net::parse(f[0].as_str()) {
        Some(n) => Some((n, id)),
        None => None,
    }
}

fn asn_row(f: &Vec<String>, servers: &ServerRegistry, min_start: u64) -> (r: Option<(AsnRange, u32)>)
    ensures
        r == iana_asn_row(f.deep_view(), servers@, min_start as int),
        r matches Some(e) ==> (e.1 as int) < servers@.len(),
{
    if f.len() < 3 {
        return None;
    }
    let id = match servers.id_of(f[2].as_str()) {
        Some(id) => id,
        None => {
            return None;
        },
    };
    let t = f[0].as_str();
    let n = t.unicode_len();
    let bounds = match char_index(t, '-') {
        Some(k) => match (
            parse_decimal(t.substring_char(0, k), 0xFFFF_FFFF),
            parse_decimal(t.substring_char(k + 1, n), 0xFFFF_FFFF),
        ) {
            (Some(a), Some(b)) => Some((a, b)),
            _ => None,
        },
        None => match parse_decimal(t, 0xFFFF_FFFF) {
            Some(n) => Some((n, n)),
            None => None,
        },
    };
    match bounds {
        Some((a, b)) => if a >= min_start {
            let end = if b == 0xFFFF_FFFF {
                0
            } else {
                b + 1
            };
            Some((AsnRange { start: Asn { value: a }, end: Asn { value: end } }, id))
        } else {
            None
        },
        None => None,
    }
}

fn read_ipv4_rows(data: &[u8], servers: &ServerRegistry, entries: &mut Vec<(Ipv4Net, u32)>)
    ensures
        final(entries)@ == old(entries)@ + iana_ipv4_entries(data@, servers@),
        ipv4_entries_ok(iana_ipv4_entries(data@, servers@), servers@.len() as int),
{
    let recs = read_csv_records(data, 44, true, false);
    let ghost rs = recs.deep_view();
    let ghost names = servers@;
    let ghost rows = |f: Seq<Seq<char>>| seq_of(iana_ipv4_row(f, names));
    let ghost start = entries@;
    let mut i: usize = 0;
    while i < recs.len()
        invariant
            i <= recs@.len(),
            rs == recs.deep_view(),
            rs == iana_records(data@),
            names == servers@,
            rows == (|f: Seq<Seq<char>>| seq_of(iana_ipv4_row(f, names))),
            entries@ == start + gather(rs, rows, i as int),
            ipv4_entries_ok(gather(rs, rows, i as int), names.len() as int),
        decreases recs@.len() - i,
    {
        let ghost before = gather(rs, rows, i as int);
        if let Some(fields) = &recs[i] {
            proof {
                assert(rs[i as int] == Some(fields.deep_view()));
            }
            if let Some(e) = ipv4_row(fields, servers) {
                entries.push(e);
                proof {
                    assert(gather(rs, rows, i + 1) =~= before.push(e));
                }
            } else {
                proof {
                    assert(gather(rs, rows, i + 1) =~= before);
                }
            }
        } else {
            proof {
                assert(gather(rs, rows, i + 1) =~= before);
            }
        }
        i += 1;
        proof {
            assert(entries@ =~= start + gather(rs, rows, i as int));
        }
    }
}

fn read_ipv6_rows(data: &[u8], servers: &ServerRegistry, entries: &mut Vec<(Ipv6Net, u32)>)
    ensures
        final(entries)@ == old(entries)@ + iana_ipv6_entries(data@, servers@),
        ipv6_entries_ok(iana_ipv6_entries(data@, servers@), servers@.len() as int),
{
    let recs = read_csv_records(data, 44, true, false);
    let ghost rs = recs.deep_view();
    let ghost names = servers@;
    let ghost rows = |f: Seq<Seq<char>>| seq_of(iana_ipv6_row(f, names));
    let ghost start = entries@;
    let mut i: usize = 0;
    while i < recs.len()
        invariant
            i <= recs@.len(),
            rs == recs.deep_view(),
            rs == iana_records(data@),
            names == servers@,
            rows == (|f: Seq<Seq<char>>| seq_of(iana_ipv6_row(f, names))),
            entries@ == start + gather(rs, rows, i as int),
            ipv6_entries_ok(gather(rs, rows, i as int), names.len() as int),
        decreases recs@.len() - i,
    {
        let ghost before = gather(rs, rows, i as int);
        if let Some(fields) = &recs[i] {
            proof {
                assert(rs[i as int] == Some(fields.deep_view()));
            }
            if let Some(e) = ipv6_row(fields, servers) {
                entries.push(e);
                proof {
                    assert(gather(rs, rows, i + 1) =~= before.push(e));
                }
            } else {
                proof {
                    assert(gather(rs, rows, i + 1) =~= before);
                }
            }
        } else {
            proof {
                assert(gather(rs, rows, i + 1) =~= before);
            }
        }
        i += 1;
        proof {
            assert(entries@ =~= start + gather(rs, rows, i as int));
        }
    }
}

fn read_asn_rows(data: &[u8], servers: &ServerRegistry, min_start: u64, entries: &mut Vec<(AsnRange, u32)>)
    ensures
        final(entries)@ == old(entries)@ + iana_asn_entries(data@, servers@, min_start as int),
        asn_entries_ok(iana_asn_entries(data@, servers@, min_start as int), servers@.len() as int),
{
    let recs = read_csv_records(data, 44, true, false);
    let ghost rs = recs.deep_view();
    let ghost names = servers@;
    let ghost rows = |f: Seq<Seq<char>>| seq_of(iana_asn_row(f, names, min_start as int));
    let ghost start = entries@;
    let mut i: usize = 0;
    while i < recs.len()
        invariant
            i <= recs@.len(),
            rs == recs.deep_view(),
            rs == iana_records(data@),
            names == servers@,
            rows == (|f: Seq<Seq<char>>| seq_of(iana_asn_row(f, names, min_start as int))),
            entries@ == start + gather(rs, rows, i as int),
            asn_entries_ok(gather(rs, rows, i as int), names.len() as int),
        decreases recs@.len() - i,
    {
        let ghost before = gather(rs, rows, i as int);
        if let Some(fields) = &recs[i] {
            proof {
                assert(rs[i as int] == Some(fields.deep_view()));
            }
            if let Some(e) = asn_row(fields, servers, min_start) {
                entries.push(e);
                proof {
                    assert(gather(rs, rows, i + 1) =~= before.push(e));
                }
            } else {
                proof {
                    assert(gather(rs, rows, i + 1) =~= before);
                }
            }
        } else {
            proof {
                assert(gather(rs, rows, i + 1) =~= before);
            }
        }
        i += 1;
        proof {
            assert(entries@ =~= start + gather(rs, rows, i as int));
        }
    }
}

/// The first AS number of the 32-bit table that the stage takes; lower ones
/// come from the 16-bit table.
pub const FIRST_32_BIT_ASN: u64 = 65536;

impl Processor for Iana {
    open spec fn ipv4_added(&self, data: SourceData, names: Seq<Seq<char>>, snapshot: Seq<(Ipv4Net, u32)>) -> Seq<(Ipv4Net, u32)> {
        iana_ipv4_entries(data.iana_ipv4@, names)
    }

    open spec fn ipv6_added(&self, data: SourceData, names: Seq<Seq<char>>, snapshot: Seq<(Ipv6Net, u32)>) -> Seq<(Ipv6Net, u32)> {
        iana_ipv6_entries(data.iana_ipv6@, names)
    }

    open spec fn asn_added(&self, data: SourceData, names: Seq<Seq<char>>, snapshot: Seq<(AsnRange, u32)>) -> Seq<(AsnRange, u32)> {
        iana_asn_entries(data.iana_asn16@, names, 0) + iana_asn_entries(
            data.iana_asn32@,
            names,
            FIRST_32_BIT_ASN as int,
        )
    }

    fn new() -> Iana {
        Iana {  }
    }

    fn run(
        &self,
        data: &SourceData,
        servers: &ServerRegistry,
        ipv4_lookup: &Ipv4ResourceLookup,
        ipv6_lookup: &Ipv6ResourceLookup,
        asn_lookup: &AsnResourceLookup,
        ipv4_entries: &mut Vec<(Ipv4Net, u32)>,
        ipv6_entries: &mut Vec<(Ipv6Net, u32)>,
        asn_entries: &mut Vec<(AsnRange, u32)>,
    ) {
        read_ipv4_rows(data.iana_ipv4.as_slice(), servers, ipv4_entries);
        read_ipv6_rows(data.iana_ipv6.as_slice(), servers, ipv6_entries);
        let ghost mid = asn_entries@;
        read_asn_rows(data.iana_asn16.as_slice(), servers, 0, asn_entries);
        read_asn_rows(data.iana_asn32.as_slice(), servers, FIRST_32_BIT_ASN, asn_entries);
        proof {
            let a = iana_asn_entries(data.iana_asn16@, servers@, 0);
            let b = iana_asn_entries(data.iana_asn32@, servers@, FIRST_32_BIT_ASN as int);
            assert(asn_entries@ =~= mid + (a + b));
            assert forall|i: int| 0 <= i < (a + b).len() implies (((#[trigger] (a + b)[i]).1 as int) < servers@.len()) by {
                if i < a.len() {
                    assert((a + b)[i] == a[i]);
                } else {
                    assert((a + b)[i] == b[i - a.len()]);
                }
            }
        }
    }
}

} // verus!
