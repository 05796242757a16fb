//! The data pipeline: the IANA and RIR source files are read, turned into
//! prefixes and ranges, and written out as the three compiled tables.

pub mod delegated;
pub mod iana;
pub mod processor;

use crate::data::delegated::{
    Delegated, AFRINIC_SERVER, APNIC_SERVER, ARIN_SERVER, LACNIC_SERVER, RIPE_SERVER,
};
use crate::data::iana::Iana;
use crate::data::processor::{
    asn_entries_ok, ipv4_entries_ok, ipv6_entries_ok, lemma_asn_entries_ok_concat,
    lemma_ipv4_entries_ok_concat, lemma_ipv6_entries_ok_concat, Processor, SourceData,
};
use crate::lookup::{
    AsnIntervalTree, AsnRange, Ipv4IntervalTree, Ipv6IntervalTree, ResourceLookup,
};
use crate::net::{ipv4_net_text, ipv6_net_text, Ipv4Net, Ipv6Net};
use crate::registry::{is_sorted_distinct, lemma_sorted_unique, ServerRegistry};
use crate::text::{decimal_text, push_decimal};
use vstd::prelude::*;
use vstd::string::*;

verus! {

/// The server for resources that IANA has not delegated to an RIR.
pub const IANA_SERVER: &'static str = "whois.iana.org";

/// A stage of the pipeline.
#[derive(Clone, Copy, Debug)]
pub enum Stage {
    Iana(Iana),
    Delegated(Delegated),
}

/// The three growing tables of the pipeline.
pub type Tables = (Seq<(Ipv4Net, u32)>, Seq<(Ipv6Net, u32)>, Seq<(AsnRange, u32)>);

/// The tables after `stage` has run on `t`, seeing `t` as its snapshot.
pub open spec fn stage_step(stage: Stage, data: SourceData, names: Seq<Seq<char>>, t: Tables) -> Tables {
    match stage {
        Stage::Iana(p) => (
            t.0 + p.ipv4_added(data, names, t.0),
            t.1 + p.ipv6_added(data, names, t.1),
            t.2 + p.asn_added(data, names, t.2),
        ),
        Stage::Delegated(p) => (
            t.0 + p.ipv4_added(data, names, t.0),
            t.1 + p.ipv6_added(data, names, t.1),
            t.2 + p.asn_added(data, names, t.2),
        ),
    }
}

/// The tables after the first `n` stages have run, from empty tables.
pub open spec fn pipeline_tables(stages: Seq<Stage>, data: SourceData, names: Seq<Seq<char>>, n: int) -> Tables
    decreases n,
{
    if n <= 0 {
        (Seq::empty(), Seq::empty(), Seq::empty())
    } else {
        stage_step(stages[n - 1], data, names, pipeline_tables(stages, data, names, n - 1))
    }
}

fn copy_entries<K: Copy>(v: &Vec<(K, u32)>) -> (r: Vec<(K, u32)>)
    ensures
        r@ == v@,
{
    let mut r: Vec<(K, u32)> = Vec::new();
    let mut i: usize = 0;
    while i < v.len()
        invariant
            i <= v@.len(),
            r@ == v@.subrange(0, i as int),
        decreases v@.len() - i,
    {
        r.push(v[i]);
        i += 1;
        proof {
            assert(r@ =~= v@.subrange(0, i as int));
        }
    }
    proof {
        assert(v@.subrange(0, v@.len() as int) =~= v@);
    }
    r
}

/// Runs the stages in order over empty tables, each stage consulting
/// indexes built from the tables as the stages before it left them.
pub fn run_processors(data: &SourceData, servers: &ServerRegistry, processors: &Vec<Stage>) -> (r: (
    Vec<(Ipv4Net, u32)>,
    Vec<(Ipv6Net, u32)>,
    Vec<(AsnRange, u32)>,
))
    ensures
        (r.0@, r.1@, r.2@) == pipeline_tables(processors@, *data, servers@, processors@.len() as int),
        ipv4_entries_ok(r.0@, servers@.len() as int),
        ipv6_entries_ok(r.1@, servers@.len() as int),
        asn_entries_ok(r.2@, servers@.len() as int),
{
    let mut ipv4_entries: Vec<(Ipv4Net, u32)> = Vec::new();
    let mut ipv6_entries: Vec<(Ipv6Net, u32)> = Vec::new();
    let mut asn_entries: Vec<(AsnRange, u32)> = Vec::new();
    let ghost names = servers@;
    let ghost n = names.len() as int;
    let mut i: usize = 0;
    while i < processors.len()
        invariant
            i <= processors@.len(),
            names == servers@,
            n == names.len(),
            (ipv4_entries@, ipv6_entries@, asn_entries@) == pipeline_tables(processors@, *data, names, i as int),
            ipv4_entries_ok(ipv4_entries@, n),
            ipv6_entries_ok(ipv6_entries@, n),
            asn_entries_ok(asn_entries@, n),
        decreases processors@.len() - i,
    {
        let ipv4_lookup = Ipv4IntervalTree::from_iter(copy_entries(&ipv4_entries));
        let ipv6_lookup = Ipv6IntervalTree::from_iter(copy_entries(&ipv6_entries));
        let asn_lookup = AsnIntervalTree::from_iter(copy_entries(&asn_entries));
        let ghost t4 = ipv4_entries@;
        let ghost t6 = ipv6_entries@;
        let ghost ta = asn_entries@;
        match processors[i] {
            Stage::Iana(p) => {
                p.run(data, servers, &ipv4_lookup, &ipv6_lookup, &asn_lookup, &mut ipv4_entries, &mut ipv6_entries, &mut asn_entries);
                proof {
                    lemma_ipv4_entries_ok_concat(t4, p.ipv4_added(*data, names, t4), n);
                    lemma_ipv6_entries_ok_concat(t6, p.ipv6_added(*data, names, t6), n);
                    lemma_asn_entries_ok_concat(ta, p.asn_added(*data, names, ta), n);
                }
            },
            Stage::Delegated(p) => {
                p.run(data, servers, &ipv4_lookup, &ipv6_lookup, &asn_lookup, &mut ipv4_entries, &mut ipv6_entries, &mut asn_entries);
                proof {
                    lemma_ipv4_entries_ok_concat(t4, p.ipv4_added(*data, names, t4), n);
                    lemma_ipv6_entries_ok_concat(t6, p.ipv6_added(*data, names, t6), n);
                    lemma_asn_entries_ok_concat(ta, p.asn_added(*data, names, ta), n);
                }
            },
        }
        i += 1;
    }
    (ipv4_entries, ipv6_entries, asn_entries)
}

/// The line of the compiled IPv4 table for an entry: `a.b.c.d/len,server`.
pub open spec fn ipv4_line(e: (Ipv4Net, u32), names: Seq<Seq<char>>) -> Seq<char> {
    ipv4_net_text(e.0.addr, e.0.prefix_len) + seq![','] + names[e.1 as int] + seq!['\n']
}

/// The line of the compiled IPv6 table for an entry.
pub open spec fn ipv6_line(e: (Ipv6Net, u32), names: Seq<Seq<char>>) -> Seq<char> {
    ipv6_net_text(e.0.addr, e.0.prefix_len) + seq![','] + names[e.1 as int] + seq!['\n']
}

/// The last AS number of a range; an end of 0 stands for 2^32.
pub open spec fn asn_last(r: AsnRange) -> int {
    if r.end.value == 0 {
        u32::MAX as int
    } else {
        r.end.value - 1
    }
}

/// The line of the compiled AS number table for an entry: `first-last,server`.
pub open spec fn asn_line(e: (AsnRange, u32), names: Seq<Seq<char>>) -> Seq<char> {
    decimal_text(e.0.start.value as nat) + seq!['-'] + decimal_text(asn_last(e.0) as nat) + seq![',']
        + names[e.1 as int] + seq!['\n']
}

pub open spec fn ipv4_lines(es: Seq<(Ipv4Net, u32)>, names: Seq<Seq<char>>) -> Seq<char>
    decreases es.len(),
{
    if es.len() == 0 {
        Seq::empty()
    } else {
        ipv4_lines(es.drop_last(), names) + ipv4_line(es.last(), names)
    }
}

pub open spec fn ipv6_lines(es: Seq<(Ipv6Net, u32)>, names: Seq<Seq<char>>) -> Seq<char>
    decreases es.len(),
{
    if es.len() == 0 {
        Seq::empty()
    } else {
        ipv6_lines(es.drop_last(), names) + ipv6_line(es.last(), names)
    }
}

pub open spec fn asn_lines(es: Seq<(AsnRange, u32)>, names: Seq<Seq<char>>) -> Seq<char>
    decreases es.len(),
{
    if es.len() == 0 {
        Seq::empty()
    } else {
        asn_lines(es.drop_last(), names) + asn_line(es.last(), names)
    }
}

/// The texts of the three compiled tables.
pub struct CompiledTables {
    pub ipv4: String,
    pub ipv6: String,
    pub asn: String,
}

impl CompiledTables {
    pub open spec fn view(&self) -> (Seq<char>, Seq<char>, Seq<char>) {
        (self.ipv4@, self.ipv6@, self.asn@)
    }
}

fn append_name(out: &mut String, servers: &ServerRegistry, id: u32)
    requires
        (id as int) < servers@.len(),
    ensures
        final(out)@ == old(out)@ + seq![','] + servers@[id as int] + seq!['\n'],
{
    proof {
        reveal_strlit(",");
        reveal_strlit("\n");
    }
    out.append(",");
    if let Some(name) = servers.name_of(id) {
        out.append(name.as_str());
    }
    out.append("\n");
    proof {
        assert(out@ =~= old(out)@ + seq![','] + servers@[id as int] + seq!['\n']);
    }
}

/// Writes the compiled IPv4 table.
pub fn format_ipv4(servers: &ServerRegistry, entries: &Vec<(Ipv4Net, u32)>) -> (r: String)
    requires
        ipv4_entries_ok(entries@, servers@.len() as int),
    ensures
        r@ == ipv4_lines(entries@, servers@),
{
    let mut out = String::new();
    let mut i: usize = 0;
    while i < entries.len()
        invariant
            i <= entries@.len(),
            ipv4_entries_ok(entries@, servers@.len() as int),
            out@ == ipv4_lines(entries@.subrange(0, i as int), servers@),
        decreases entries@.len() - i,
    {
        let (net, id) = entries[i];
        proof {
            assert(entries@[i as int].0.wf());
        }
        let text = net.to_text();
        out.append(text.as_str());
        append_name(&mut out, servers, id);
        proof {
            let p = entries@.subrange(0, i + 1);
            assert(p.drop_last() =~= entries@.subrange(0, i as int));
            assert(out@ =~= ipv4_lines(p, servers@));
        }
        i += 1;
    }
    proof {
        assert(entries@.subrange(0, entries@.len() as int) =~= entries@);
    }
    out
}

/// Writes the compiled IPv6 table.
pub fn format_ipv6(servers: &ServerRegistry, entries: &Vec<(Ipv6Net, u32)>) -> (r: String)
    requires
        ipv6_entries_ok(entries@, servers@.len() as int),
    ensures
        r@ == ipv6_lines(entries@, servers@),
{
    let mut out = String::new();
    let mut i: usize = 0;
    while i < entries.len()
        invariant
            i <= entries@.len(),
            ipv6_entries_ok(entries@, servers@.len() as int),
            out@ == ipv6_lines(entries@.subrange(0, i as int), servers@),
        decreases entries@.len() - i,
    {
        let (net, id) = entries[i];
        proof {
            assert(entries@[i as int].0.wf());
        }
        let text = net.to_text();
        out.append(text.as_str());
        append_name(&mut out, servers, id);
        proof {
            let p = entries@.subrange(0, i + 1);
            assert(p.drop_last() =~= entries@.subrange(0, i as int));
            assert(out@ =~= ipv6_lines(p, servers@));
        }
        i += 1;
    }
    proof {
        assert(entries@.subrange(0, entries@.len() as int) =~= entries@);
    }
    out
}

/// Writes the compiled AS number table.
pub fn format_asn(servers: &ServerRegistry, entries: &Vec<(AsnRange, u32)>) -> (r: String)
    requires
        asn_entries_ok(entries@, servers@.len() as int),
    ensures
        r@ == asn_lines(entries@, servers@),
{
    let mut out = String::new();
    let mut i: usize = 0;
    proof {
        reveal_strlit("-");
    }
    while i < entries.len()
        invariant
            i <= entries@.len(),
            asn_entries_ok(entries@, servers@.len() as int),
            out@ == asn_lines(entries@.subrange(0, i as int), servers@),
            "-"@ == seq!['-'],
        decreases entries@.len() - i,
    {
        let (range, id) = entries[i];
        proof {
            assert(entries@[i as int].1 == id);
        }
        let last = if range.end.value == 0 {
            0xFFFF_FFFF
        } else {
            range.end.value - 1
        };
        push_decimal(&mut out, range.start.value);
        out.append("-");
        push_decimal(&mut out, last);
        append_name(&mut out, servers, id);
        proof {
            let p = entries@.subrange(0, i + 1);
            assert(p.drop_last() =~= entries@.subrange(0, i as int));
            assert(out@ =~= asn_lines(p, servers@));
        }
        i += 1;
    }
    proof {
        assert(entries@.subrange(0, entries@.len() as int) =~= entries@);
    }
    out
}

/// The servers of the public data: the empty name (unassigned), IANA and
/// the five RIRs.
pub open spec fn public_server_names() -> Seq<Seq<char>> {
    seq![
        Seq::<char>::empty(),
        AFRINIC_SERVER@,
        APNIC_SERVER@,
        ARIN_SERVER@,
        IANA_SERVER@,
        LACNIC_SERVER@,
        RIPE_SERVER@,
    ]
}

/// `names` is the registry of the public data: its servers sorted.
pub open spec fn is_public_registry(names: Seq<Seq<char>>) -> bool {
    &&& is_sorted_distinct(names)
    &&& forall|s: Seq<char>| names.contains(s) <==> public_server_names().contains(s)
}

/// The stages of the public pipeline: IANA, then the RIRs.
pub open spec fn public_stages() -> Seq<Stage> {
    seq![Stage::Iana(Iana {  }), Stage::Delegated(Delegated {  })]
}

/// The texts of the compiled tables that the public pipeline writes, with
/// `names` as its registry.
pub open spec fn compiled_tables(data: SourceData, names: Seq<Seq<char>>) -> (Seq<char>, Seq<char>, Seq<char>) {
    let t = pipeline_tables(public_stages(), data, names, 2);
    (ipv4_lines(t.0, names), ipv6_lines(t.1, names), asn_lines(t.2, names))
}

/// Runs the IANA stage and then the delegated stage over the public data,
/// and writes the three compiled tables.
pub fn process_public(data: &SourceData) -> (r: CompiledTables)
    ensures
        exists|names: Seq<Seq<char>>| is_public_registry(names),
        forall|names: Seq<Seq<char>>| #[trigger] is_public_registry(names) ==> r@ == compiled_tables(*data, names),
{
    let mut names: Vec<String> = Vec::new();
    names.push(String::new());
    names.push(AFRINIC_SERVER.to_owned());
    names.push(APNIC_SERVER.to_owned());
    names.push(ARIN_SERVER.to_owned());
    names.push(IANA_SERVER.to_owned());
    names.push(LACNIC_SERVER.to_owned());
    names.push(RIPE_SERVER.to_owned());
    proof {
        assert(names.deep_view() =~= public_server_names());
    }
    let servers = ServerRegistry::from_names(&names);
    let mut processors: Vec<Stage> = Vec::new();
    processors.push(Stage::Iana(Iana::new()));
    processors.push(Stage::Delegated(Delegated::new()));
    proof {
        assert(processors@ =~= public_stages());
    }
    let (ipv4, ipv6, asn) = run_processors(data, &servers, &processors);
    let r = CompiledTables {
        ipv4: format_ipv4(&servers, &ipv4),
        ipv6: format_ipv6(&servers, &ipv6),
        asn: format_asn(&servers, &asn),
    };
    proof {
        assert(is_public_registry(servers@));
        assert forall|other: Seq<Seq<char>>| #[trigger] is_public_registry(other) implies r@ == compiled_tables(*data, other) by {
            lemma_sorted_unique(other, servers@);
        }
    }
    r
}

/// Compiling is a function of the source data: the public pipeline gives the
/// same tables whichever way its registry was built, so running it twice on
/// the same data writes the same bytes.
pub proof fn law_compile_is_deterministic(data: SourceData, names: Seq<Seq<char>>, other: Seq<Seq<char>>)
    requires
        is_public_registry(names),
        is_public_registry(other),
    ensures
        compiled_tables(data, names) == compiled_tables(data, other),
{
    lemma_sorted_unique(names, other);
}

} // verus!
