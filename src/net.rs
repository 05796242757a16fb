//! IPv4 and IPv6 prefixes: an address and a prefix length. Text forms are read
//! and written by the `ipnet` crate.

use std::str::FromStr;
use vstd::prelude::*;
use vstd::string::StringExecFns;

verus! {

/// Two raised to the power `n`.
pub open spec fn two_pow(n: nat) -> nat
    decreases n,
{
    if n == 0 {
        1
    } else {
        2 * two_pow((n - 1) as nat)
    }
}

pub proof fn lemma_two_pow_positive(n: nat)
    ensures
        two_pow(n) >= 1,
    decreases n,
{
    if n > 0 {
        lemma_two_pow_positive((n - 1) as nat);
    }
}

pub proof fn lemma_two_pow_adds(a: nat, b: nat)
    ensures
        two_pow(a + b) == two_pow(a) * two_pow(b),
    decreases a,
{
    if a > 0 {
        lemma_two_pow_adds((a - 1) as nat, b);
        let p = two_pow((a - 1) as nat);
        let q = two_pow(b);
        assert(two_pow(a + b) == 2 * two_pow((a - 1 + b) as nat));
        assert(two_pow(a) == 2 * p);
        assert((2 * p) * q == 2 * (p * q)) by (nonlinear_arith);
        assert(two_pow((a - 1) as nat + b) == p * q);
        assert(two_pow(a + b) == 2 * (p * q));
    } else {
        assert(two_pow(a) == 1);
        assert(a + b == b);
    }
}

pub proof fn lemma_two_pow_monotonic(a: nat, b: nat)
    requires
        a <= b,
    ensures
        two_pow(a) <= two_pow(b),
{
    lemma_two_pow_adds(a, (b - a) as nat);
    lemma_two_pow_positive(a);
    lemma_two_pow_positive((b - a) as nat);
    assert(two_pow(a) * 1 <= two_pow(a) * two_pow((b - a) as nat)) by (nonlinear_arith)
        requires
            two_pow((b - a) as nat) >= 1,
    ;
}

pub proof fn lemma_two_pow_values()
    ensures
        two_pow(8) == 256,
        two_pow(16) == 0x1_0000,
        two_pow(24) == 0x100_0000,
        two_pow(32) == 0x1_0000_0000,
        two_pow(64) == 0x1_0000_0000_0000_0000,
        two_pow(128) == 0x1_0000_0000_0000_0000_0000_0000_0000_0000,
{
    reveal_with_fuel(two_pow, 9);
    assert(two_pow(8) == 256);
    lemma_two_pow_adds(8, 8);
    assert(two_pow(16) == 0x1_0000);
    lemma_two_pow_adds(8, 16);
    lemma_two_pow_adds(16, 16);
    assert(two_pow(32) == 0x1_0000_0000);
    lemma_two_pow_adds(32, 32);
    assert(two_pow(64) == 0x1_0000_0000_0000_0000);
    lemma_two_pow_adds(64, 64);
}

/// The first address of the aligned block of `2^host_bits` addresses that
/// holds `addr`.
pub open spec fn block_first(addr: int, host_bits: nat) -> int {
    addr - addr % (two_pow(host_bits) as int)
}

/// The last address of the aligned block of `2^host_bits` addresses that
/// holds `addr`.
pub open spec fn block_last(addr: int, host_bits: nat) -> int {
    block_first(addr, host_bits) + two_pow(host_bits) - 1
}

/// An aligned block lies within the address space that holds its address.
pub proof fn lemma_block_bounds(addr: int, host_bits: nat, bits: nat)
    requires
        0 <= addr < two_pow(bits),
        host_bits <= bits,
    ensures
        0 <= block_first(addr, host_bits) <= addr <= block_last(addr, host_bits) < two_pow(bits),
{
    let s = two_pow(host_bits) as int;
    let m = two_pow((bits - host_bits) as nat) as int;
    lemma_two_pow_positive(host_bits);
    lemma_two_pow_adds(host_bits, (bits - host_bits) as nat);
    assert(two_pow(bits) == s * m);
    let q = addr / s;
    let r = addr % s;
    assert(addr == s * q + r && 0 <= r < s) by (nonlinear_arith)
        requires
            s > 0,
            q == addr / s,
            r == addr % s,
    ;
    assert(q >= 0) by (nonlinear_arith)
        requires
            s > 0,
            addr >= 0,
            q == addr / s,
    ;
    assert(s * q + s <= s * m) by (nonlinear_arith)
        requires
            s > 0,
            addr == s * q + r,
            0 <= r,
            addr < s * m,
    ;
}

/// The first and last address of the aligned block of `2^host_bits`
/// addresses that holds `addr`.
pub fn block_bounds(addr: u128, host_bits: u32) -> (r: (u128, u128))
    requires
        host_bits <= 128,
    ensures
        r.0 == block_first(addr as int, host_bits as nat),
        r.1 == block_last(addr as int, host_bits as nat),
{
    proof {
        lemma_two_pow_values();
        lemma_block_bounds(addr as int, host_bits as nat, 128);
    }
    if host_bits == 128 {
        assert(addr as int % two_pow(128) as int == addr as int) by (nonlinear_arith)
            requires
                0 <= addr < two_pow(128),
        ;
        (0, u128::MAX)
    } else {
        let mut size: u128 = 1;
        let mut i: u32 = 0;
        while i < host_bits
            invariant
                i <= host_bits < 128,
                size == two_pow(i as nat),
            decreases host_bits - i,
        {
            proof {
                lemma_two_pow_values();
                lemma_two_pow_monotonic((i + 1) as nat, 127);
                assert(two_pow(128) == 2 * two_pow(127));
                assert(two_pow((i + 1) as nat) == 2 * two_pow(i as nat));
                assert(two_pow(127) < 0x1_0000_0000_0000_0000_0000_0000_0000_0000);
            }
            size = size * 2;
            i += 1;
        }
        let first = addr - addr % size;
        (first, first + (size - 1))
    }
}

proof fn lemma_multiple_below(x: int, y: int, t: int)
    requires
        t > 0,
        x % t == 0,
        x <= y,
    ensures
        x <= y - y % t,
{
    let a = x / t;
    let b = y / t;
    assert(x == t * a) by (nonlinear_arith)
        requires
            t > 0,
            x % t == 0,
            a == x / t,
    ;
    assert(y == t * b + y % t && 0 <= y % t < t) by (nonlinear_arith)
        requires
            t > 0,
            b == y / t,
    ;
    assert(a <= b) by (nonlinear_arith)
        requires
            t > 0,
            x == t * a,
            y == t * b + y % t,
            y % t < t,
            x <= y,
    ;
    assert(t * a <= t * b) by (nonlinear_arith)
        requires
            t > 0,
            a <= b,
    ;
}

proof fn lemma_multiple_step(x: int, z: int, t: int)
    requires
        t > 0,
        x % t == 0,
        z % t == 0,
        x < z,
    ensures
        x + t <= z,
{
    let a = x / t;
    let b = z / t;
    assert(x == t * a && z == t * b) by (nonlinear_arith)
        requires
            t > 0,
            x % t == 0,
            z % t == 0,
            a == x / t,
            b == z / t,
    ;
    assert(a + 1 <= b) by (nonlinear_arith)
        requires
            t > 0,
            x == t * a,
            z == t * b,
            x < z,
    ;
    assert(t * a + t <= t * b) by (nonlinear_arith)
        requires
            t > 0,
            a + 1 <= b,
    ;
}

proof fn lemma_block_of(x: int, b: int, s: int)
    requires
        s > 0,
        b % s == 0,
        b <= x < b + s,
    ensures
        x - x % s == b,
{
    lemma_multiple_below(b, x, s);
    assert((x - x % s) % s == 0 && x % s >= 0 && x % s < s) by (nonlinear_arith)
        requires
            s > 0,
    ;
    if x - x % s > b {
        lemma_multiple_step(b, x - x % s, s);
    }
}

proof fn lemma_divides_multiple(x: int, t: int, m: int)
    requires
        t > 0,
        m > 0,
        x % (t * m) == 0,
    ensures
        x % t == 0,
{
    let k = x / (t * m);
    assert(t * m > 0) by (nonlinear_arith)
        requires
            t > 0,
            m > 0,
    ;
    assert(x == (t * m) * k) by (nonlinear_arith)
        requires
            t * m > 0,
            x % (t * m) == 0,
            k == x / (t * m),
    ;
    assert(x == t * (m * k)) by (nonlinear_arith)
        requires
            x == (t * m) * k,
    ;
    assert((t * (m * k)) % t == 0) by (nonlinear_arith)
        requires
            t > 0,
    ;
}

proof fn lemma_block_first_aligned(x: int, s: int)
    requires
        s > 0,
        x >= 0,
    ensures
        (x - x % s) % s == 0,
        0 <= x % s < s,
{
    assert((x - x % s) % s == 0 && 0 <= x % s < s) by (nonlinear_arith)
        requires
            s > 0,
    ;
}

pub proof fn lemma_two_pow_strict(a: nat, b: nat)
    requires
        a < b,
    ensures
        two_pow(a) < two_pow(b),
{
    lemma_two_pow_monotonic(a, (b - 1) as nat);
    assert(two_pow(b) == 2 * two_pow((b - 1) as nat));
    lemma_two_pow_positive(a);
}

/// Containment of prefixes, as the prefixes' bits: a prefix `e` contains
/// `q` exactly when `e` is no longer than `q` and the first
/// `e.prefix_len` bits of their addresses agree (clearing the bits below
/// `e`'s length gives the same address).
pub proof fn lemma_ipv4_contains_by_bits(e: Ipv4Net, q: Ipv4Net)
    requires
        e.wf(),
        q.wf(),
    ensures
        e.spec_contains(q) <==> (e.prefix_len <= q.prefix_len && block_first(e.addr as int, e.host_bits())
            == block_first(q.addr as int, e.host_bits())),
{
    let s = e.size() as int;
    let t = q.size() as int;
    let ea = e.addr as int;
    let qa = q.addr as int;
    lemma_two_pow_positive(e.host_bits());
    lemma_two_pow_positive(q.host_bits());
    lemma_block_first_aligned(ea, s);
    lemma_block_first_aligned(qa, s);
    lemma_block_first_aligned(qa, t);
    let be = ea - ea % s;
    if e.prefix_len <= q.prefix_len {
        let m = two_pow((e.host_bits() - q.host_bits()) as nat) as int;
        lemma_two_pow_positive((e.host_bits() - q.host_bits()) as nat);
        lemma_two_pow_adds(q.host_bits(), (e.host_bits() - q.host_bits()) as nat);
        assert(s == t * m);
        lemma_divides_multiple(be, t, m);
        assert((be + s) % (t * m) == 0) by (nonlinear_arith)
            requires
                be % s == 0,
                s > 0,
                s == t * m,
        ;
        lemma_divides_multiple(be + s, t, m);
    }
    if e.prefix_len <= q.prefix_len && be == qa - qa % s {
        lemma_multiple_below(be, qa, t);
        let fq = qa - qa % t;
        if fq + t > be + s {
            lemma_multiple_step(fq, be + s, t);
        }
    }
    if e.spec_contains(q) {
        if e.prefix_len > q.prefix_len {
            lemma_two_pow_strict(e.host_bits(), q.host_bits());
        }
        lemma_block_of(qa, be, s);
    }
}

/// Containment of IPv6 prefixes, as the prefixes' bits, as for IPv4.
pub proof fn lemma_ipv6_contains_by_bits(e: Ipv6Net, q: Ipv6Net)
    requires
        e.wf(),
        q.wf(),
    ensures
        e.spec_contains(q) <==> (e.prefix_len <= q.prefix_len && block_first(e.addr as int, e.host_bits())
            == block_first(q.addr as int, e.host_bits())),
{
    let s = e.size() as int;
    let t = q.size() as int;
    let ea = e.addr as int;
    let qa = q.addr as int;
    lemma_two_pow_positive(e.host_bits());
    lemma_two_pow_positive(q.host_bits());
    lemma_block_first_aligned(ea, s);
    lemma_block_first_aligned(qa, s);
    lemma_block_first_aligned(qa, t);
    let be = ea - ea % s;
    if e.prefix_len <= q.prefix_len {
        let m = two_pow((e.host_bits() - q.host_bits()) as nat) as int;
        lemma_two_pow_positive((e.host_bits() - q.host_bits()) as nat);
        lemma_two_pow_adds(q.host_bits(), (e.host_bits() - q.host_bits()) as nat);
        assert(s == t * m);
        lemma_divides_multiple(be, t, m);
        assert((be + s) % (t * m) == 0) by (nonlinear_arith)
            requires
                be % s == 0,
                s > 0,
                s == t * m,
        ;
        lemma_divides_multiple(be + s, t, m);
    }
    if e.prefix_len <= q.prefix_len && be == qa - qa % s {
        lemma_multiple_below(be, qa, t);
        let fq = qa - qa % t;
        if fq + t > be + s {
            lemma_multiple_step(fq, be + s, t);
        }
    }
    if e.spec_contains(q) {
        if e.prefix_len > q.prefix_len {
            lemma_two_pow_strict(e.host_bits(), q.host_bits());
        }
        lemma_block_of(qa, be, s);
    }
}

/// An IPv4 prefix: an address and a prefix length. The bits of the address
/// below the prefix may be set; they do not change the block of addresses
/// that the prefix stands for.
#[derive(Clone, Copy, PartialEq, Eq, Debug, Hash, Structural)]
pub struct Ipv4Net {
    pub addr: u32,
    pub prefix_len: u8,
}

/// An IPv6 prefix: an address and a prefix length, as for IPv4.
#[derive(Clone, Copy, PartialEq, Eq, Debug, Hash, Structural)]
pub struct Ipv6Net {
    pub addr: u128,
    pub prefix_len: u8,
}

/// A text that is not a prefix or an address of the expected family.
#[derive(Clone, Copy, PartialEq, Eq, Debug, Hash, Structural)]
pub struct AddrParseError;

/// What `ipnet::Ipv4Net::from_str` reads from a text: address and prefix length.
pub uninterp spec fn ipv4_net_text_value(s: Seq<char>) -> Option<(u32, u8)>;

/// What `ipnet::Ipv4Net`'s `Display` writes for an address and a prefix length.
pub uninterp spec fn ipv4_net_text(addr: u32, prefix_len: u8) -> Seq<char>;

/// What `ipnet::Ipv6Net::from_str` reads from a text: address and prefix length.
pub uninterp spec fn ipv6_net_text_value(s: Seq<char>) -> Option<(u128, u8)>;

/// What `ipnet::Ipv6Net`'s `Display` writes for an address and a prefix length.
pub uninterp spec fn ipv6_net_text(addr: u128, prefix_len: u8) -> Seq<char>;

/// Relies on `ipnet::Ipv4Net::from_str`, whose prefix length is below 33.
#[verifier::external_body]
fn parse_ipv4_net(s: &str) -> (r: Option<(u32, u8)>)
    ensures
        r == ipv4_net_text_value(s@),
        r matches Some(p) ==> p.1 <= 32,
{
    s.parse::<ipnet::Ipv4Net>().ok().map(|n| (u32::from(n.addr()), n.prefix_len()))
}

/// Relies on `Display` for `ipnet::Ipv4Net`.
#[verifier::external_body]
fn format_ipv4_net(addr: u32, prefix_len: u8) -> (r: String)
    requires
        prefix_len <= 32,
    ensures
        r@ == ipv4_net_text(addr, prefix_len),
{
    ipnet::Ipv4Net::new_assert(addr.into(), prefix_len).to_string()
}

/// Relies on `ipnet::Ipv6Net::from_str`, whose prefix length is below 129.
#[verifier::external_body]
fn parse_ipv6_net(s: &str) -> (r: Option<(u128, u8)>)
    ensures
        r == ipv6_net_text_value(s@),
        r matches Some(p) ==> p.1 <= 128,
{
    s.parse::<ipnet::Ipv6Net>().ok().map(|n| (u128::from(n.addr()), n.prefix_len()))
}

/// Relies on `Display` for `ipnet::Ipv6Net`.
#[verifier::external_body]
fn format_ipv6_net(addr: u128, prefix_len: u8) -> (r: String)
    requires
        prefix_len <= 128,
    ensures
        r@ == ipv6_net_text(addr, prefix_len),
{
    ipnet::Ipv6Net::new_assert(addr.into(), prefix_len).to_string()
}

/// The address that a text names: the text followed by `/32` reads as a
/// prefix.
pub open spec fn ipv4_text_address(s: Seq<char>) -> Option<u32> {
    match ipv4_net_text_value(s + seq!['/', '3', '2']) {
        Some(p) => Some(p.0),
        None => None,
    }
}

/// The address that a text names: the text followed by `/128` reads as a
/// prefix.
pub open spec fn ipv6_text_address(s: Seq<char>) -> Option<u128> {
    match ipv6_net_text_value(s + seq!['/', '1', '2', '8']) {
        Some(p) => Some(p.0),
        None => None,
    }
}

/// The prefix that a text names: a bare address is a prefix of full length,
/// else the text is read as `address/length`.
pub open spec fn ipv4_text_prefix(s: Seq<char>) -> Option<Ipv4Net> {
    match ipv4_text_address(s) {
        Some(a) => Some(Ipv4Net { addr: a, prefix_len: 32 }),
        None => match ipv4_net_text_value(s) {
            Some(p) => Some(Ipv4Net { addr: p.0, prefix_len: p.1 }),
            None => None,
        },
    }
}

/// The prefix that a text names, as for IPv4: a bare address is a prefix of
/// length 128.
pub open spec fn ipv6_text_prefix(s: Seq<char>) -> Option<Ipv6Net> {
    match ipv6_text_address(s) {
        Some(a) => Some(Ipv6Net { addr: a, prefix_len: 128 }),
        None => match ipv6_net_text_value(s) {
            Some(p) => Some(Ipv6Net { addr: p.0, prefix_len: p.1 }),
            None => None,
        },
    }
}

impl Ipv4Net {
    /// The prefix length is at most 32.
    pub open spec fn wf(self) -> bool {
        self.prefix_len <= 32
    }

    pub open spec fn host_bits(self) -> nat {
        (32 - self.prefix_len) as nat
    }

    /// The number of addresses in the prefix.
    pub open spec fn size(self) -> nat {
        two_pow(self.host_bits())
    }

    /// The first address of the prefix.
    pub open spec fn first(self) -> int {
        block_first(self.addr as int, self.host_bits())
    }

    /// The last address of the prefix.
    pub open spec fn last(self) -> int {
        block_last(self.addr as int, self.host_bits())
    }

    /// Every address of `other` is an address of `self`.
    pub open spec fn spec_contains(self, other: Ipv4Net) -> bool {
        self.first() <= other.first() && other.last() <= self.last()
    }

    pub proof fn lemma_bounds(self)
        requires
            self.wf(),
        ensures
            0 <= self.first() <= self.addr <= self.last() < 0x1_0000_0000,
            self.last() - self.first() + 1 == self.size(),
    {
        lemma_two_pow_values();
        lemma_block_bounds(self.addr as int, self.host_bits(), 32);
    }

    /// The prefix of the given length at the given address; none when the
    /// length is over 32.
    pub fn new(addr: u32, prefix_len: u8) -> (r: Option<Ipv4Net>)
        ensures
            r == (if prefix_len <= 32 {
                Some(Ipv4Net { addr, prefix_len })
            } else {
                None
            }),
    {
        if prefix_len <= 32 {
            Some(Ipv4Net { addr, prefix_len })
        } else {
            None
        }
    }

    pub fn addr(&self) -> (r: u32)
        ensures
            r == self.addr,
    {
        self.addr
    }

    pub fn prefix_len(&self) -> (r: u8)
        ensures
            r == self.prefix_len,
    {
        self.prefix_len
    }

    /// The first address of the prefix.
    pub fn network(&self) -> (r: u32)
        requires
            self.wf(),
        ensures
            r == self.first(),
    {
        proof {
            self.lemma_bounds();
        }
        let (first, _) = block_bounds(self.addr as u128, 32 - self.prefix_len as u32);
        first as u32
    }

    /// The last address of the prefix.
    pub fn broadcast(&self) -> (r: u32)
        requires
            self.wf(),
        ensures
            r == self.last(),
    {
        proof {
            self.lemma_bounds();
        }
        let (_, last) = block_bounds(self.addr as u128, 32 - self.prefix_len as u32);
        last as u32
    }

    /// Every address of `other` is an address of `self`.
    pub fn contains(&self, other: &Ipv4Net) -> (r: bool)
        requires
            self.wf(),
            other.wf(),
        ensures
            r == self.spec_contains(*other),
    {
        other.network() >= self.network() && other.broadcast() <= self.broadcast()
    }

    /// Reads a bare address.
    pub fn parse_address(s: &str) -> (r: Option<u32>)
        ensures
            r == ipv4_text_address(s@),
    {
        let mut full = s.to_owned();
        full.append("/32");
        proof {
            reveal_strlit("/32");
            assert(full@ =~= s@ + seq!['/', '3', '2']);
        }
        match parse_ipv4_net(full.as_str()) {
            Some((a, _)) => Some(a),
            None => None,
        }
    }

    /// Reads a bare address, as a prefix of length 32, or `address/length`.
    pub fn parse(s: &str) -> (r: Option<Ipv4Net>)
        ensures
            r == ipv4_text_prefix(s@),
            r matches Some(n) ==> n.wf(),
    {
        match Ipv4Net::parse_address(s) {
            Some(a) => Some(Ipv4Net { addr: a, prefix_len: 32 }),
            None => match parse_ipv4_net(s) {
                Some((a, l)) => Some(Ipv4Net { addr: a, prefix_len: l }),
                None => None,
            },
        }
    }

    /// The text form `a.b.c.d/length`.
    pub fn to_text(&self) -> (r: String)
        requires
            self.wf(),
        ensures
            r@ == ipv4_net_text(self.addr, self.prefix_len),
    {
        format_ipv4_net(self.addr, self.prefix_len)
    }
}

impl Ipv6Net {
    /// The prefix length is at most 128.
    pub open spec fn wf(self) -> bool {
        self.prefix_len <= 128
    }

    pub open spec fn host_bits(self) -> nat {
        (128 - self.prefix_len) as nat
    }

    /// The number of addresses in the prefix.
    pub open spec fn size(self) -> nat {
        two_pow(self.host_bits())
    }

    /// The first address of the prefix.
    pub open spec fn first(self) -> int {
        block_first(self.addr as int, self.host_bits())
    }

    /// The last address of the prefix.
    pub open spec fn last(self) -> int {
        block_last(self.addr as int, self.host_bits())
    }

    /// Every address of `other` is an address of `self`.
    pub open spec fn spec_contains(self, other: Ipv6Net) -> bool {
        self.first() <= other.first() && other.last() <= self.last()
    }

    pub proof fn lemma_bounds(self)
        requires
            self.wf(),
        ensures
            0 <= self.first() <= self.addr <= self.last() <= u128::MAX,
            self.last() - self.first() + 1 == self.size(),
    {
        lemma_two_pow_values();
        lemma_block_bounds(self.addr as int, self.host_bits(), 128);
    }

    /// The prefix of the given length at the given address; none when the
    /// length is over 128.
    pub fn new(addr: u128, prefix_len: u8) -> (r: Option<Ipv6Net>)
        ensures
            r == (if prefix_len <= 128 {
                Some(Ipv6Net { addr, prefix_len })
            } else {
                None
            }),
    {
        if prefix_len <= 128 {
            Some(Ipv6Net { addr, prefix_len })
        } else {
            None
        }
    }

    pub fn addr(&self) -> (r: u128)
        ensures
            r == self.addr,
    {
        self.addr
    }

    pub fn prefix_len(&self) -> (r: u8)
        ensures
            r == self.prefix_len,
    {
        self.prefix_len
    }

    /// The first address of the prefix.
    pub fn network(&self) -> (r: u128)
        requires
            self.wf(),
        ensures
            r == self.first(),
    {
        let (first, _) = block_bounds(self.addr, 128 - self.prefix_len as u32);
        first
    }

    /// The last address of the prefix.
    pub fn broadcast(&self) -> (r: u128)
        requires
            self.wf(),
        ensures
            r == self.last(),
    {
        let (_, last) = block_bounds(self.addr, 128 - self.prefix_len as u32);
        last
    }

    /// Every address of `other` is an address of `self`.
    pub fn contains(&self, other: &Ipv6Net) -> (r: bool)
        requires
            self.wf(),
            other.wf(),
        ensures
            r == self.spec_contains(*other),
    {
        other.network() >= self.network() && other.broadcast() <= self.broadcast()
    }

    /// Reads a bare address.
    pub fn parse_address(s: &str) -> (r: Option<u128>)
        ensures
            r == ipv6_text_address(s@),
    {
        let mut full = s.to_owned();
        full.append("/128");
        proof {
            reveal_strlit("/128");
            assert(full@ =~= s@ + seq!['/', '1', '2', '8']);
        }
        match parse_ipv6_net(full.as_str()) {
            Some((a, _)) => Some(a),
            None => None,
        }
    }

    /// Reads a bare address, as a prefix of length 128, or `address/length`.
    pub fn parse(s: &str) -> (r: Option<Ipv6Net>)
        ensures
            r == ipv6_text_prefix(s@),
            r matches Some(n) ==> n.wf(),
    {
        match Ipv6Net::parse_address(s) {
            Some(a) => Some(Ipv6Net { addr: a, prefix_len: 128 }),
            None => match parse_ipv6_net(s) {
                Some((a, l)) => Some(Ipv6Net { addr: a, prefix_len: l }),
                None => None,
            },
        }
    }

    /// The text form, as `ipnet` writes it.
    pub fn to_text(&self) -> (r: String)
        requires
            self.wf(),
        ensures
            r@ == ipv6_net_text(self.addr, self.prefix_len),
    {
        format_ipv6_net(self.addr, self.prefix_len)
    }
}

impl FromStr for Ipv4Net {
    type Err = AddrParseError;

    fn from_str(s: &str) -> Result<Ipv4Net, AddrParseError> {
        match Ipv4Net::parse(s) {
            Some(n) => Ok(n),
            None => Err(AddrParseError),
        }
    }
}

impl FromStr for Ipv6Net {
    type Err = AddrParseError;

    fn from_str(s: &str) -> Result<Ipv6Net, AddrParseError> {
        match Ipv6Net::parse(s) {
            Some(n) => Ok(n),
            None => Err(AddrParseError),
        }
    }
}

} // verus!
