//! The source files of the pipeline, and the stages that read them.

use crate::lookup::{
    AsnRange, AsnResourceLookup, Ipv4ResourceLookup, Ipv6ResourceLookup, ResourceLookup,
};
use crate::net::{Ipv4Net, Ipv6Net};
use crate::registry::ServerRegistry;
use vstd::prelude::*;

verus! {

/// The contents of the source files that the pipeline reads.
pub struct SourceData {
    /// `iana/ipv4-address-space.csv`
    pub iana_ipv4: Vec<u8>,
    /// `iana/ipv6-unicast-address-assignments.csv`
    pub iana_ipv6: Vec<u8>,
    /// `iana/as-numbers-1.csv`, the 16-bit AS numbers
    pub iana_asn16: Vec<u8>,
    /// `iana/as-numbers-2.csv`, the 32-bit AS numbers
    pub iana_asn32: Vec<u8>,
    /// `afrinic/delegated-afrinic-extended-latest`
    pub afrinic: Vec<u8>,
    /// `apnic/delegated-apnic-extended-latest`
    pub apnic: Vec<u8>,
    /// `arin/delegated-arin-extended-latest`
    pub arin: Vec<u8>,
    /// `lacnic/delegated-lacnic-extended-latest`
    pub lacnic: Vec<u8>,
    /// `ripe/delegated-ripencc-extended-latest`
    pub ripe: Vec<u8>,
}

/// Every key is valid and every server id is below `n`.
pub open spec fn ipv4_entries_ok(es: Seq<(Ipv4Net, u32)>, n: int) -> bool {
    forall|i: int| 0 <= i < es.len() ==> (#[trigger] es[i]).0.wf() && (es[i].1 as int) < n
}

/// Every key is valid and every server id is below `n`.
pub open spec fn ipv6_entries_ok(es: Seq<(Ipv6Net, u32)>, n: int) -> bool {
    forall|i: int| 0 <= i < es.len() ==> (#[trigger] es[i]).0.wf() && (es[i].1 as int) < n
}

/// Every server id is below `n`.
pub open spec fn asn_entries_ok(es: Seq<(AsnRange, u32)>, n: int) -> bool {
    forall|i: int| 0 <= i < es.len() ==> ((#[trigger] es[i]).1 as int) < n
}

pub proof fn lemma_ipv4_entries_ok_concat(a: Seq<(Ipv4Net, u32)>, b: Seq<(Ipv4Net, u32)>, n: int)
    requires
        ipv4_entries_ok(a, n),
        ipv4_entries_ok(b, n),
    ensures
        ipv4_entries_ok(a + b, n),
{
    assert forall|i: int| 0 <= i < (a + b).len() implies (#[trigger] (a + b)[i]).0.wf() && ((a + b)[i].1 as int) < n by {
        if i >= a.len() {
            assert((a + b)[i] == b[i - a.len()]);
        }
    }
}

pub proof fn lemma_ipv6_entries_ok_concat(a: Seq<(Ipv6Net, u32)>, b: Seq<(Ipv6Net, u32)>, n: int)
    requires
        ipv6_entries_ok(a, n),
        ipv6_entries_ok(b, n),
    ensures
        ipv6_entries_ok(a + b, n),
{
    assert forall|i: int| 0 <= i < (a + b).len() implies (#[trigger] (a + b)[i]).0.wf() && ((a + b)[i].1 as int) < n by {
        if i >= a.len() {
            assert((a + b)[i] == b[i - a.len()]);
        }
    }
}

pub proof fn lemma_asn_entries_ok_concat(a: Seq<(AsnRange, u32)>, b: Seq<(AsnRange, u32)>, n: int)
    requires
        asn_entries_ok(a, n),
        asn_entries_ok(b, n),
    ensures
        asn_entries_ok(a + b, n),
{
    assert forall|i: int| 0 <= i < (a + b).len() implies ((#[trigger] (a + b)[i]).1 as int) < n by {
        if i >= a.len() {
            assert((a + b)[i] == b[i - a.len()]);
        }
    }
}

/// A stage of the pipeline: it reads some of the source files and appends
/// entries to the three growing tables, consulting indexes built from the
/// tables as they stood before it ran.
pub trait Processor: Sized {
    /// The IPv4 entries the stage appends, given the server names and the
    /// IPv4 entries before it ran.
    spec fn ipv4_added(&self, data: SourceData, names: Seq<Seq<char>>, snapshot: Seq<(Ipv4Net, u32)>) -> Seq<(Ipv4Net, u32)>;

    /// The IPv6 entries the stage appends.
    spec fn ipv6_added(&self, data: SourceData, names: Seq<Seq<char>>, snapshot: Seq<(Ipv6Net, u32)>) -> Seq<(Ipv6Net, u32)>;

    /// The AS number entries the stage appends.
    spec fn asn_added(&self, data: SourceData, names: Seq<Seq<char>>, snapshot: Seq<(AsnRange, u32)>) -> Seq<(AsnRange, u32)>;

    fn new() -> Self;

    fn run(
        &self,
        data: &SourceData,
        servers: &ServerRegistry,
        ipv4_lookup: &Ipv4ResourceLookup,
        ipv6_lookup: &Ipv6ResourceLookup,
        asn_lookup: &AsnResourceLookup,
        ipv4_entries: &mut Vec<(Ipv4Net, u32)>,
        ipv6_entries: &mut Vec<(Ipv6Net, u32)>,
        asn_entries: &mut Vec<(AsnRange, u32)>,
    )
        ensures
            final(ipv4_entries)@ == old(ipv4_entries)@ + self.ipv4_added(*data, servers@, ipv4_lookup.entries()),
            final(ipv6_entries)@ == old(ipv6_entries)@ + self.ipv6_added(*data, servers@, ipv6_lookup.entries()),
            final(asn_entries)@ == old(asn_entries)@ + self.asn_added(*data, servers@, asn_lookup.entries()),
            ipv4_entries_ok(self.ipv4_added(*data, servers@, ipv4_lookup.entries()), servers@.len() as int),
            ipv6_entries_ok(self.ipv6_added(*data, servers@, ipv6_lookup.entries()), servers@.len() as int),
            asn_entries_ok(self.asn_added(*data, servers@, asn_lookup.entries()), servers@.len() as int),
    ;
}

} // verus!
