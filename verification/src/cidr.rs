//! IPv4 and IPv6 networks in CIDR notation.

use crate::addr;
use crate::addr::IpAddr;
use crate::text;
use vstd::prelude::*;

verus! {

/// An IPv4 network: an address and how many of its leading bits name the network.
#[derive(Debug, Clone, Copy, PartialEq, Eq, Structural)]
pub struct Ipv4Net {
    pub addr: u32,
    pub prefix: u8,
}

/// One byte of the address of a network; zeros may stand first.
pub open spec fn net_octet(s: Seq<char>) -> Option<(int, Seq<char>)> {
    addr::num(s, 10, 3, true, 255)
}

/// A character and then one byte of the address of a network.
pub open spec fn dot_net_octet(s: Seq<char>) -> Option<(int, Seq<char>)> {
    match addr::skip_char(s, '.') {
        Some(r) => net_octet(r),
        None => None,
    }
}

/// The length of a prefix, after a slash and up to the end of the text.
pub open spec fn prefix_tail(s: Seq<char>) -> Option<int> {
    match addr::skip_char(s, '/') {
        Some(r) => match addr::num(r, 10, 2, true, 32) {
            Some((p, rest)) => if rest.len() == 0 {
                Some(p)
            } else {
                None
            },
            None => None,
        },
        None => None,
    }
}

/// The IPv4 network that a text writes: four decimal bytes with dots between
/// them, a slash, and a length of at most 32.
pub open spec fn ipv4_net(s: Seq<char>) -> Option<Ipv4Net> {
    match net_octet(s) {
        Some((a, s1)) => match dot_net_octet(s1) {
            Some((b, s2)) => match dot_net_octet(s2) {
                Some((c, s3)) => match dot_net_octet(s3) {
                    Some((d, s4)) => match prefix_tail(s4) {
                        Some(p) => Some(
                            (Ipv4Net {
                                addr: (a * 0x100_0000 + b * 0x1_0000 + c * 0x100 + d) as u32,
                                prefix: p as u8,
                            }),
                        ),
                        None => None,
                    },
                    None => None,
                },
                None => None,
            },
            None => None,
        },
        None => None,
    }
}

/// Whether two numbers of `bits` bits agree in their leading `prefix` bits.
pub open spec fn same_prefix(a: int, b: int, bits: int, prefix: int) -> bool {
    let block = vstd::arithmetic::power2::pow2((bits - prefix) as nat) as int;
    a / block == b / block
}

/// `Ipv4Net::from_str` of the crate `ipnet` reads an IPv4 network; `addr` and
/// `prefix_len` give its parts back as they were written. It succeeds on the
/// texts that `ipv4_net` describes and on no others.
#[verifier::external_body]
fn ipnet_parse_v4(s: &str) -> (r: Option<Ipv4Net>)
    ensures
        r == ipv4_net(s@),
{
    match s.parse::<ipnet::Ipv4Net>() {
        Ok(n) => Some(Ipv4Net { addr: u32::from(n.addr()), prefix: n.prefix_len() }),
        Err(_) => None,
    }
}

/// `Ipv4Net::contains` of the crate `ipnet` holds for an address that lies
/// between the first and the last address of the network, which are the
/// addresses that share its leading bits.
#[verifier::external_body]
fn ipnet_contains_v4(net: u32, prefix: u8, ip: u32) -> (r: bool)
    requires
        prefix <= 32,
    ensures
        r == same_prefix(net as int, ip as int, 32, prefix as int),
{
    let host = ipnet::Ipv4Net::new_assert(ip.into(), 32).addr();
    ipnet::Ipv4Net::new_assert(net.into(), prefix).contains(&host)
}

/// `Ipv6Net::contains` of the crate `ipnet` holds for an address that lies
/// between the first and the last address of the network, which are the
/// addresses that share its leading bits.
#[verifier::external_body]
fn ipnet_contains_v6(net: u128, prefix: u8, ip: u128) -> (r: bool)
    requires
        prefix <= 128,
    ensures
        r == same_prefix(net as int, ip as int, 128, prefix as int),
{
    let host = ipnet::Ipv6Net::new_assert(ip.into(), 128).addr();
    ipnet::Ipv6Net::new_assert(net.into(), prefix).contains(&host)
}

/// A text that is read as a network has a length of at most 32.
pub proof fn lemma_ipv4_net_wf(s: Seq<char>)
    ensures
        ipv4_net(s) matches Some(n) ==> n.wf(),
{
    if let Some(n) = ipv4_net(s) {
        assert forall|t: Seq<char>|
            (#[trigger] addr::num(t, 10, 2, true, 32)) matches Some((v, _)) ==> 0 <= v <= 32 by {
            addr::lemma_num(t, 10, 2, true, 32);
        }
    }
}

impl Ipv4Net {
    /// The length of the prefix is at most 32.
    pub open spec fn wf(&self) -> bool {
        self.prefix <= 32
    }

    /// Whether an address belongs to the network.
    pub open spec fn has(&self, ip: u32) -> bool {
        same_prefix(self.addr as int, ip as int, 32, self.prefix as int)
    }

    /// Reads a network.
    pub fn parse(s: &str) -> (r: Option<Ipv4Net>)
        ensures
            r == ipv4_net(s@),
            r matches Some(n) ==> n.wf(),
    {
        proof {
            lemma_ipv4_net_wf(s@);
        }
        ipnet_parse_v4(s)
    }

    /// Whether an address belongs to the network.
    pub fn contains(&self, ip: u32) -> (r: bool)
        requires
            self.wf(),
        ensures
            r == self.has(ip),
    {
        ipnet_contains_v4(self.addr, self.prefix, ip)
    }

    /// The text of the network.
    pub fn text(&self) -> (r: String)
        ensures
            r@ == addr::v4_text(self.addr) + seq!['/'] + text::decimal(self.prefix as int),
    {
        let mut out = IpAddr::V4(self.addr).text();
        out.push('/');
        text::push_decimal(&mut out, self.prefix as u64);
        assert(out@ == addr::v4_text(self.addr) + seq!['/'] + text::decimal(self.prefix as int));
        out
    }
}

/// Whether an IPv6 address belongs to a network.
pub fn v6_contains(net: u128, prefix: u8, ip: u128) -> (r: bool)
    requires
        prefix <= 128,
    ensures
        r == same_prefix(net as int, ip as int, 128, prefix as int),
{
    ipnet_contains_v6(net, prefix, ip)
}

/// The IPv4 address that an address is or, as an IPv6 address, maps.
pub open spec fn as_v4(ip: IpAddr) -> Option<u32> {
    match ip {
        IpAddr::V4(a) => Some(a),
        IpAddr::V6(a) => if a as int / 0x1_0000_0000 == 0xffff {
            Some((a as int % 0x1_0000_0000) as u32)
        } else {
            None
        },
    }
}

/// The IPv4 address that an address is or maps.
pub fn mapped_v4(ip: IpAddr) -> (r: Option<u32>)
    ensures
        r == as_v4(ip),
{
    match ip {
        IpAddr::V4(a) => Some(a),
        IpAddr::V6(a) => if a / 0x1_0000_0000 == 0xffff {
            Some((a % 0x1_0000_0000) as u32)
        } else {
            None
        },
    }
}

/// A net holds the block of addresses that starts at its own, with the last bits zero: as
/// many addresses as those bits can tell apart.
pub proof fn law_a_net_is_a_block(n: Ipv4Net, ip: u32)
    requires
        n.wf(),
    ensures
        ({
            let size = vstd::arithmetic::power2::pow2((32 - n.prefix) as nat) as int;
            let base = n.addr as int - n.addr as int % size;
            &&& size > 0
            &&& n.has(ip) <==> base <= ip < base + size
        }),
        n.prefix == 32 ==> (n.has(ip) <==> ip == n.addr),
        n.prefix == 24 ==> (n.has(ip) <==> ip / 256 == n.addr / 256),
        n.prefix == 16 ==> (n.has(ip) <==> ip / 0x1_0000 == n.addr / 0x1_0000),
        n.prefix == 8 ==> (n.has(ip) <==> ip / 0x100_0000 == n.addr / 0x100_0000),
        n.prefix == 0 ==> n.has(ip),
        n.has(n.addr),
{
    let size = vstd::arithmetic::power2::pow2((32 - n.prefix) as nat) as int;
    vstd::arithmetic::power2::lemma_pow2_pos((32 - n.prefix) as nat);
    vstd::arithmetic::power2::lemma2_to64();
    let a = n.addr as int;
    let x = ip as int;
    vstd::arithmetic::div_mod::lemma_fundamental_div_mod(a, size);
    vstd::arithmetic::div_mod::lemma_fundamental_div_mod(x, size);
    vstd::arithmetic::div_mod::lemma_mod_bound(a, size);
    vstd::arithmetic::div_mod::lemma_mod_bound(x, size);
    if n.prefix == 0 {
        assert(a / 0x1_0000_0000 == 0 && x / 0x1_0000_0000 == 0);
    }
    let base = a - a % size;
    assert(base == size * (a / size));
    if base <= x < base + size {
        assert(x / size == a / size) by (nonlinear_arith)
            requires
                size > 0,
                size * (a / size) <= x < size * (a / size) + size,
        ;
    }
}

/// An IPv6 address that stands for an IPv4 address is that address, and no other one is.
pub proof fn law_mapped_addresses(a: u32, b: u128)
    ensures
        as_v4(IpAddr::V4(a)) == Some(a),
        as_v4(IpAddr::V6((0xffff_0000_0000 + a) as u128)) == Some(a),
        as_v4(IpAddr::V6(b)) matches Some(x) ==> b == 0xffff_0000_0000 + x,
        !(0xffff_0000_0000 <= b <= 0xffff_ffff_ffff) ==> as_v4(IpAddr::V6(b)) is None,
{
}

/// A net is read back from its text.
pub proof fn law_net_round_trip(n: Ipv4Net)
    requires
        n.wf(),
    ensures
        ipv4_net(addr::v4_text(n.addr) + seq!['/'] + text::decimal(n.prefix as int)) == Some(n),
{
    let v = n.addr as int;
    let e = Seq::<char>::empty();
    let p = text::decimal(n.prefix as int);
    let s4 = seq!['/'] + (p + e);
    text::lemma_decimal_shape(n.prefix as int);
    addr::lemma_number_read(n.prefix as int, e, 2, true, 32);
    assert(s4.skip(1) =~= p + e);
    addr::lemma_four_bytes(v);
    lemma_net_parts(v / 0x100_0000, v / 0x1_0000 % 0x100, v / 0x100 % 0x100, v % 0x100, s4);
    addr::lemma_pointed(
        text::decimal(v / 0x100_0000),
        text::decimal(v / 0x1_0000 % 0x100),
        text::decimal(v / 0x100 % 0x100),
        text::decimal(v % 0x100),
        s4,
    );
    assert(addr::v4_text(n.addr) + seq!['/'] + p =~= addr::v4_text(n.addr) + s4);
}

/// Four parts with points between them are read as the address of a net.
proof fn lemma_net_parts(a: int, b: int, c: int, d: int, rest: Seq<char>)
    requires
        0 <= a <= 255,
        0 <= b <= 255,
        0 <= c <= 255,
        0 <= d <= 255,
        rest.len() > 0 ==> !text::is_digit(rest[0], 10),
    ensures
        ipv4_net(
            text::decimal(a) + (seq!['.'] + (text::decimal(b) + (seq!['.'] + (text::decimal(c) + (
            seq!['.'] + (text::decimal(d) + rest)))))),
        ) == match prefix_tail(rest) {
            Some(p) => Some(
                Ipv4Net {
                    addr: (a * 0x100_0000 + b * 0x1_0000 + c * 0x100 + d) as u32,
                    prefix: p as u8,
                },
            ),
            None => None,
        },
{
    let s3 = seq!['.'] + (text::decimal(d) + rest);
    let s2 = seq!['.'] + (text::decimal(c) + s3);
    let s1 = seq!['.'] + (text::decimal(b) + s2);
    lemma_net_octet(d, rest);
    lemma_net_octet(c, s3);
    lemma_net_octet(b, s2);
    lemma_net_octet(a, s1);
}

/// A part of the address of a net is read back.
proof fn lemma_net_octet(n: int, rest: Seq<char>)
    requires
        0 <= n <= 255,
        rest.len() > 0 ==> !text::is_digit(rest[0], 10),
    ensures
        net_octet(text::decimal(n) + rest) == Some((n, rest)),
        dot_net_octet(seq!['.'] + (text::decimal(n) + rest)) == Some((n, rest)),
{
    text::lemma_decimal_shape(n);
    addr::lemma_number_read(n, rest, 3, true, 255);
    assert((seq!['.'] + (text::decimal(n) + rest)).skip(1) =~= text::decimal(n) + rest);
}

} // verus!
