//! Network addresses: values, the texts that write them, and their order.

use crate::text;
use vstd::prelude::*;
use vstd::slice::slice_subrange;

verus! {

/// An address of a host: the four bytes of an IPv4 address or the sixteen of an
/// IPv6 address, most significant byte first.
#[derive(Debug, Clone, Copy, PartialEq, Eq, Structural)]
pub enum IpAddr {
    V4(u32),
    V6(u128),
}

/// An address of a socket. The scope is 0 but for an IPv6 address that names one.
#[derive(Debug, Clone, Copy, PartialEq, Eq, Structural)]
pub struct SocketAddr {
    pub ip: IpAddr,
    pub port: u16,
    pub scope: u32,
}

// ---------------------------------------------------------------------------
// Grammar
// ---------------------------------------------------------------------------

/// The digits of a base.
pub open spec fn digits(base: int) -> spec_fn(char) -> bool {
    |c: char| text::is_digit(c, base)
}

/// A number at the start of a text and what follows it. All digits there belong
/// to it; there are at most `width` of them, and a zero stands first only where
/// `zeros` allows it or where it is the whole number.
pub open spec fn num(s: Seq<char>, base: int, width: int, zeros: bool, max: int) -> Option<
    (int, Seq<char>),
> {
    let n = text::lead(s, digits(base));
    let v = text::value(s.take(n), base);
    if n == 0 || n > width || v > max || (!zeros && n > 1 && s[0] == '0') {
        None
    } else {
        Some((v, s.skip(n)))
    }
}

/// A number that was read is within its bounds.
pub proof fn lemma_num(s: Seq<char>, base: int, width: int, zeros: bool, max: int)
    requires
        base >= 0,
    ensures
        num(s, base, width, zeros, max) matches Some((v, _)) ==> 0 <= v <= max,
{
    let f = digits(base);
    text::lemma_lead_bounds(s, f);
    let k = text::lead(s, f);
    assert forall|j: int| 0 <= j < k implies text::is_digit(#[trigger] s.take(k)[j], base) by {
        assert(f(s[j]));
    }
    text::lemma_value_nonneg(s.take(k), base);
}

/// What follows a character at the start of a text.
pub open spec fn skip_char(s: Seq<char>, c: char) -> Option<Seq<char>> {
    if s.len() > 0 && s[0] == c {
        Some(s.skip(1))
    } else {
        None
    }
}

/// One byte of an IPv4 address.
pub open spec fn octet(s: Seq<char>) -> Option<(int, Seq<char>)> {
    num(s, 10, 3, false, 255)
}

/// A dot and one byte of an IPv4 address.
pub open spec fn dot_octet(s: Seq<char>) -> Option<(int, Seq<char>)> {
    match skip_char(s, '.') {
        Some(r) => octet(r),
        None => None,
    }
}

/// An IPv4 address at the start of a text and what follows it.
pub open spec fn v4_prefix(s: Seq<char>) -> Option<(int, Seq<char>)> {
    match octet(s) {
        Some((a, s1)) => match dot_octet(s1) {
            Some((b, s2)) => match dot_octet(s2) {
                Some((c, s3)) => match dot_octet(s3) {
                    Some((d, s4)) => Some((a * 0x100_0000 + b * 0x1_0000 + c * 0x100 + d, s4)),
                    None => None,
                },
                None => None,
            },
            None => None,
        },
        None => None,
    }
}

/// What follows the separator before group `i` of an IPv6 address.
pub open spec fn group_start(s: Seq<char>, i: int) -> Option<Seq<char>> {
    if i == 0 {
        Some(s)
    } else {
        skip_char(s, ':')
    }
}

/// An IPv4 address in the place of group `i` and the next one.
pub open spec fn group_v4(s: Seq<char>, i: int, limit: int) -> Option<(int, Seq<char>)> {
    if i < limit - 1 {
        match group_start(s, i) {
            Some(r) => v4_prefix(r),
            None => None,
        }
    } else {
        None
    }
}

/// Group `i` of an IPv6 address.
pub open spec fn group_hex(s: Seq<char>, i: int) -> Option<(int, Seq<char>)> {
    match group_start(s, i) {
        Some(r) => num(r, 16, 4, true, 0xffff),
        None => None,
    }
}

/// The groups of an IPv6 address from group `i` on, at most up to `limit`;
/// whether they end in an IPv4 address; and what follows them.
pub open spec fn groups(s: Seq<char>, i: int, limit: int) -> (Seq<int>, bool, Seq<char>)
    decreases limit - i,
{
    if i >= limit {
        (seq![], false, s)
    } else {
        match group_v4(s, i, limit) {
            Some((v, r)) => (seq![v / 0x1_0000, v % 0x1_0000], true, r),
            None => match group_hex(s, i) {
                Some((g, r)) => {
                    let (gs, v4, rest) = groups(r, i + 1, limit);
                    (seq![g] + gs, v4, rest)
                },
                None => (seq![], false, s),
            },
        }
    }
}

/// The number that eight groups of sixteen bits make.
pub open spec fn v6_value(g: Seq<int>) -> int {
    g[0] * 0x1_0000_0000_0000_0000_0000_0000_0000 + g[1] * 0x1_0000_0000_0000_0000_0000_0000
        + g[2] * 0x1_0000_0000_0000_0000_0000 + g[3] * 0x1_0000_0000_0000_0000 + g[4]
        * 0x1_0000_0000_0000 + g[5] * 0x1_0000_0000 + g[6] * 0x1_0000 + g[7]
}

/// Eight groups made of those before a double colon, zeros, and those after it.
pub open spec fn with_gap(head: Seq<int>, tail: Seq<int>) -> Seq<int> {
    head + Seq::new((8 - head.len() - tail.len()) as nat, |i: int| 0int) + tail
}

/// An IPv6 address at the start of a text and what follows it.
pub open spec fn v6_prefix(s: Seq<char>) -> Option<(int, Seq<char>)> {
    let (head, v4, r) = groups(s, 0, 8);
    if head.len() == 8 {
        Some((v6_value(head), r))
    } else if v4 || r.len() < 2 || r[0] != ':' || r[1] != ':' {
        None
    } else {
        let (tail, _, rest) = groups(r.skip(2), 0, 7 - head.len());
        Some((v6_value(with_gap(head, tail)), rest))
    }
}

/// The IPv4 address that a text writes.
pub open spec fn ipv4(s: Seq<char>) -> Option<u32> {
    match v4_prefix(s) {
        Some((v, r)) => if r.len() == 0 {
            Some(v as u32)
        } else {
            None
        },
        None => None,
    }
}

/// The IPv6 address that a text writes.
pub open spec fn ipv6(s: Seq<char>) -> Option<u128> {
    match v6_prefix(s) {
        Some((v, r)) => if r.len() == 0 {
            Some(v as u128)
        } else {
            None
        },
        None => None,
    }
}

/// The address of a host that a text writes.
pub open spec fn ip(s: Seq<char>) -> Option<IpAddr> {
    match ipv4(s) {
        Some(v) => Some(IpAddr::V4(v)),
        None => match ipv6(s) {
            Some(v) => Some(IpAddr::V6(v)),
            None => None,
        },
    }
}

/// A port with the colon before it, at the end of a text.
pub open spec fn port_tail(s: Seq<char>) -> Option<int> {
    match skip_char(s, ':') {
        Some(r) => match num(r, 10, r.len() as int, true, 0xffff) {
            Some((p, rest)) => if rest.len() == 0 {
                Some(p)
            } else {
                None
            },
            None => None,
        },
        None => None,
    }
}

/// A scope after an IPv6 address, 0 where there is none, and what follows it.
pub open spec fn scope_prefix(s: Seq<char>) -> (int, Seq<char>) {
    match skip_char(s, '%') {
        Some(r) => match num(r, 10, r.len() as int, true, 0xffff_ffff) {
            Some((v, rest)) => (v, rest),
            None => (0, s),
        },
        None => (0, s),
    }
}

/// The IPv4 socket address that a text writes.
pub open spec fn socket_v4(s: Seq<char>) -> Option<SocketAddr> {
    match v4_prefix(s) {
        Some((v, r)) => match port_tail(r) {
            Some(p) => Some((SocketAddr { ip: IpAddr::V4(v as u32), port: p as u16, scope: 0 })),
            None => None,
        },
        None => None,
    }
}

/// The IPv6 socket address that a text writes.
pub open spec fn socket_v6(s: Seq<char>) -> Option<SocketAddr> {
    match skip_char(s, '[') {
        Some(r) => match v6_prefix(r) {
            Some((v, r1)) => {
                let (scope, r2) = scope_prefix(r1);
                match skip_char(r2, ']') {
                    Some(r3) => match port_tail(r3) {
                        Some(p) => Some(
                            (SocketAddr {
                                ip: IpAddr::V6(v as u128),
                                port: p as u16,
                                scope: scope as u32,
                            }),
                        ),
                        None => None,
                    },
                    None => None,
                }
            },
            None => None,
        },
        None => None,
    }
}

/// The socket address that a text writes.
pub open spec fn socket(s: Seq<char>) -> Option<SocketAddr> {
    match socket_v4(s) {
        Some(a) => Some(a),
        None => socket_v6(s),
    }
}

// ---------------------------------------------------------------------------
// Readers
// ---------------------------------------------------------------------------

/// The views of a value that was read and what follows it.
pub open spec fn read_view(r: Option<(u64, &[char])>) -> Option<(int, Seq<char>)> {
    match r {
        Some((v, rest)) => Some((v as int, rest@)),
        None => None,
    }
}

/// Reads a number at the start of a text.
fn read_num<'a>(cs: &'a [char], base: u64, width: usize, zeros: bool, max: u64) -> (r: Option<
    (u64, &'a [char]),
>)
    requires
        base == 10 || base == 16,
    ensures
        read_view(r) == num(cs@, base as int, width as int, zeros, max as int),
        r matches Some((v, _)) ==> v <= max,
{
    let len: usize = cs.len();
    let mut n: usize = 0;
    let ghost f = digits(base as int);
    while n < len && is_digit_of(cs[n], base)
        invariant
            len == cs@.len(),
            n <= len,
            base == 10 || base == 16,
            f == digits(base as int),
            forall|j: int| 0 <= j < n ==> f(#[trigger] cs@[j]),
        decreases len - n,
    {
        n = n + 1;
    }
    proof {
        text::lemma_lead(cs@, f, n as int);
    }
    let run = slice_subrange(cs, 0, n);
    assert(run@ == cs@.take(n as int));
    if n == 0 || n > width {
        return None;
    }
    proof {
        assert(text::is_digit(cs@[0], base as int)) by {
            assert(f(cs@[0]));
        }
        assert(run@[0] == cs@[0]);
        assert forall|j: int| 0 <= j < run@.len() implies text::is_digit(
            #[trigger] run@[j],
            base as int,
        ) by {
            assert(f(cs@[j]));
        }
    }
    match text::parse_number(run, base, max) {
        Some(v) => if !zeros && n > 1 && cs[0] == '0' {
            None
        } else {
            Some((v, slice_subrange(cs, n, len)))
        },
        None => None,
    }
}

/// Whether a character is a digit of base ten or sixteen.
fn is_digit_of(c: char, base: u64) -> (r: bool)
    requires
        base == 10 || base == 16,
    ensures
        r == text::is_digit(c, base as int),
{
    ('0' <= c && c <= '9') || (base == 16 && (('a' <= c && c <= 'f') || ('A' <= c && c <= 'F')))
}

/// Reads a character at the start of a text.
fn read_char(cs: &[char], c: char) -> (r: Option<&[char]>)
    ensures
        text::opt(r) == skip_char(cs@, c),
{
    let n: usize = cs.len();
    if n > 0 && cs[0] == c {
        Some(slice_subrange(cs, 1, n))
    } else {
        None
    }
}

/// Reads a dot and one byte.
fn read_dot_octet(cs: &[char]) -> (r: Option<(u64, &[char])>)
    ensures
        read_view(r) == dot_octet(cs@),
        r matches Some((v, _)) ==> v <= 255,
{
    match read_char(cs, '.') {
        Some(r) => read_num(r, 10, 3, false, 255),
        None => None,
    }
}

/// Reads an IPv4 address at the start of a text.
fn read_v4(cs: &[char]) -> (r: Option<(u64, &[char])>)
    ensures
        read_view(r) == v4_prefix(cs@),
        r matches Some((v, _)) ==> v <= 0xffff_ffff,
{
    let (a, s1) = match read_num(cs, 10, 3, false, 255) {
        Some(x) => x,
        None => return None,
    };
    let (b, s2) = match read_dot_octet(s1) {
        Some(x) => x,
        None => return None,
    };
    let (c, s3) = match read_dot_octet(s2) {
        Some(x) => x,
        None => return None,
    };
    let (d, s4) = match read_dot_octet(s3) {
        Some(x) => x,
        None => return None,
    };
    Some((a * 0x100_0000 + b * 0x1_0000 + c * 0x100 + d, s4))
}

/// Reads the separator before a group.
fn read_group_start(cs: &[char], i: usize) -> (r: Option<&[char]>)
    ensures
        text::opt(r) == group_start(cs@, i as int),
{
    if i == 0 {
        Some(cs)
    } else {
        read_char(cs, ':')
    }
}

/// The groups that a vector holds.
pub open spec fn ints(v: Seq<u16>) -> Seq<int> {
    Seq::new(v.len(), |i: int| v[i] as int)
}

/// Reads groups of an IPv6 address.
fn read_groups(cs: &[char], limit: usize) -> (r: (Vec<u16>, bool, &[char]))
    requires
        limit <= 8,
    ensures
        (ints(r.0@), r.1, r.2@) == groups(cs@, 0, limit as int),
        r.0@.len() <= limit,
{
    let mut out: Vec<u16> = Vec::new();
    let mut rest: &[char] = cs;
    let mut i: usize = 0;
    assert(ints(out@) + groups(rest@, 0, limit as int).0 == groups(cs@, 0, limit as int).0);
    while i < limit
        invariant
            i <= limit <= 8,
            out@.len() == i,
            ints(out@) + groups(rest@, i as int, limit as int).0 == groups(cs@, 0, limit as int).0,
            groups(rest@, i as int, limit as int).1 == groups(cs@, 0, limit as int).1,
            groups(rest@, i as int, limit as int).2 == groups(cs@, 0, limit as int).2,
        decreases limit - i,
    {
        let ghost before = ints(out@);
        if i < limit - 1 {
            if let Some(t) = read_group_start(rest, i) {
                if let Some((v, r)) = read_v4(t) {
                    assert(group_v4(rest@, i as int, limit as int) == Some((v as int, r@)));
                    out.push((v / 0x1_0000) as u16);
                    out.push((v % 0x1_0000) as u16);
                    assert(ints(out@) == before + seq![v as int / 0x1_0000, v as int % 0x1_0000]);
                    return (out, true, r);
                }
            }
        }
        assert(group_v4(rest@, i as int, limit as int) is None);
        let g = match read_group_start(rest, i) {
            Some(t) => read_num(t, 16, 4, true, 0xffff),
            None => None,
        };
        assert(read_view(g) == group_hex(rest@, i as int));
        match g {
            Some((v, r)) => {
                out.push(v as u16);
                assert(ints(out@) == before.push(v as int));
                let ghost tail = groups(r@, i + 1, limit as int).0;
                assert(before.push(v as int) + tail == before + (seq![v as int] + tail));
                rest = r;
                i = i + 1;
            },
            None => {
                assert(ints(out@) + Seq::<int>::empty() == ints(out@));
                return (out, false, rest);
            },
        }
    }
    assert(ints(out@) + Seq::<int>::empty() == ints(out@));
    (out, false, rest)
}

/// The number that eight groups make.
fn value_of_groups(g: &Vec<u16>) -> (r: u128)
    requires
        g@.len() == 8,
    ensures
        r == v6_value(ints(g@)),
{
    (g[0] as u128) * 0x1_0000_0000_0000_0000_0000_0000_0000 + (g[1] as u128)
        * 0x1_0000_0000_0000_0000_0000_0000 + (g[2] as u128) * 0x1_0000_0000_0000_0000_0000 + (
    g[3] as u128) * 0x1_0000_0000_0000_0000 + (g[4] as u128) * 0x1_0000_0000_0000 + (g[5] as u128)
        * 0x1_0000_0000 + (g[6] as u128) * 0x1_0000 + (g[7] as u128)
}

/// Reads an IPv6 address at the start of a text.
fn read_v6(cs: &[char]) -> (r: Option<(u128, &[char])>)
    ensures
        match r {
            Some((v, rest)) => v6_prefix(cs@) == Some((v as int, rest@)),
            None => v6_prefix(cs@) is None,
        },
{
    let (head, v4, r) = read_groups(cs, 8);
    if head.len() == 8 {
        return Some((value_of_groups(&head), r));
    }
    let n: usize = r.len();
    if v4 || n < 2 || r[0] != ':' || r[1] != ':' {
        return None;
    }
    let (tail, _v4, rest) = read_groups(slice_subrange(r, 2, n), 7 - head.len());
    let ghost h = ints(head@);
    let ghost t = ints(tail@);
    let mut all: Vec<u16> = Vec::new();
    let mut i: usize = 0;
    let gap: usize = 8 - head.len() - tail.len();
    while i < 8
        invariant
            i <= 8,
            all@.len() == i,
            head@.len() + tail@.len() <= 7,
            gap == 8 - head@.len() - tail@.len(),
            h == ints(head@),
            t == ints(tail@),
            ints(all@) == with_gap(h, t).take(i as int),
        decreases 8 - i,
    {
        let g: u16 = if i < head.len() {
            head[i]
        } else if i < head.len() + gap {
            0
        } else {
            tail[i - head.len() - gap]
        };
        assert(with_gap(h, t)[i as int] == g);
        all.push(g);
        i = i + 1;
        assert(ints(all@) == with_gap(h, t).take(i as int));
    }
    assert(with_gap(h, t).take(8) == with_gap(h, t));
    Some((value_of_groups(&all), rest))
}

/// Reads an IPv4 address.
pub fn parse_ipv4(cs: &[char]) -> (r: Option<u32>)
    ensures
        r == ipv4(cs@),
{
    match read_v4(cs) {
        Some((v, r)) => if r.len() == 0 {
            Some(v as u32)
        } else {
            None
        },
        None => None,
    }
}

/// Reads the address of a host.
pub fn parse_ip(cs: &[char]) -> (r: Option<IpAddr>)
    ensures
        r == ip(cs@),
{
    if let Some(v) = parse_ipv4(cs) {
        return Some(IpAddr::V4(v));
    }
    match read_v6(cs) {
        Some((v, r)) => if r.len() == 0 {
            Some(IpAddr::V6(v))
        } else {
            None
        },
        None => None,
    }
}

/// Reads a port with the colon before it.
fn read_port(cs: &[char]) -> (r: Option<u16>)
    ensures
        match r {
            Some(p) => port_tail(cs@) == Some(p as int),
            None => port_tail(cs@) is None,
        },
{
    match read_char(cs, ':') {
        Some(t) => match read_num(t, 10, t.len(), true, 0xffff) {
            Some((p, rest)) => if rest.len() == 0 {
                Some(p as u16)
            } else {
                None
            },
            None => None,
        },
        None => None,
    }
}

/// Reads a scope after an IPv6 address.
fn read_scope(cs: &[char]) -> (r: (u32, &[char]))
    ensures
        (r.0 as int, r.1@) == scope_prefix(cs@),
{
    match read_char(cs, '%') {
        Some(t) => match read_num(t, 10, t.len(), true, 0xffff_ffff) {
            Some((v, rest)) => (v as u32, rest),
            None => (0, cs),
        },
        None => (0, cs),
    }
}

/// Reads an IPv4 socket address.
fn parse_socket_v4(cs: &[char]) -> (r: Option<SocketAddr>)
    ensures
        r == socket_v4(cs@),
{
    match read_v4(cs) {
        Some((v, t)) => match read_port(t) {
            Some(p) => Some(SocketAddr { ip: IpAddr::V4(v as u32), port: p, scope: 0 }),
            None => None,
        },
        None => None,
    }
}

/// Reads an IPv6 socket address.
fn parse_socket_v6(cs: &[char]) -> (r: Option<SocketAddr>)
    ensures
        r == socket_v6(cs@),
{
    let t = match read_char(cs, '[') {
        Some(t) => t,
        None => return None,
    };
    let (v, t1) = match read_v6(t) {
        Some(x) => x,
        None => return None,
    };
    let (scope, t2) = read_scope(t1);
    let t3 = match read_char(t2, ']') {
        Some(t) => t,
        None => return None,
    };
    match read_port(t3) {
        Some(p) => Some(SocketAddr { ip: IpAddr::V6(v), port: p, scope }),
        None => None,
    }
}

/// Reads a socket address.
pub fn parse_socket(cs: &[char]) -> (r: Option<SocketAddr>)
    ensures
        r == socket(cs@),
{
    match parse_socket_v4(cs) {
        Some(a) => Some(a),
        None => parse_socket_v6(cs),
    }
}

impl SocketAddr {
    /// The socket address of a host and a port.
    pub fn new(ip: IpAddr, port: u16) -> (r: SocketAddr)
        ensures
            r == (SocketAddr { ip, port, scope: 0 }),
    {
        SocketAddr { ip, port, scope: 0 }
    }

    /// Reads a socket address.
    pub fn parse(s: &str) -> (r: Option<SocketAddr>)
        ensures
            r == socket(s@),
    {
        let cs = text::chars_of(s);
        parse_socket(&cs)
    }
}

impl IpAddr {
    /// Reads the address of a host.
    pub fn parse(s: &str) -> (r: Option<IpAddr>)
        ensures
            r == ip(s@),
    {
        let cs = text::chars_of(s);
        parse_ip(&cs)
    }
}

// ---------------------------------------------------------------------------
// Texts of addresses
// ---------------------------------------------------------------------------

/// The text of an IPv4 address.
pub open spec fn v4_text(v: u32) -> Seq<char> {
    text::decimal(v as int / 0x100_0000) + seq!['.'] + text::decimal(v as int / 0x1_0000 % 0x100)
        + seq!['.'] + text::decimal(v as int / 0x100 % 0x100) + seq!['.'] + text::decimal(
        v as int % 0x100,
    )
}

/// Group `i` of an IPv6 address.
pub open spec fn group_of(v: u128, i: int) -> int {
    if i == 0 {
        v as int / 0x1_0000_0000_0000_0000_0000_0000_0000
    } else if i == 1 {
        v as int / 0x1_0000_0000_0000_0000_0000_0000 % 0x1_0000
    } else if i == 2 {
        v as int / 0x1_0000_0000_0000_0000_0000 % 0x1_0000
    } else if i == 3 {
        v as int / 0x1_0000_0000_0000_0000 % 0x1_0000
    } else if i == 4 {
        v as int / 0x1_0000_0000_0000 % 0x1_0000
    } else if i == 5 {
        v as int / 0x1_0000_0000 % 0x1_0000
    } else if i == 6 {
        v as int / 0x1_0000 % 0x1_0000
    } else {
        v as int % 0x1_0000
    }
}

/// The eight groups of an IPv6 address.
pub open spec fn groups_of(v: u128) -> Seq<int> {
    Seq::new(8, |i: int| group_of(v, i))
}

/// How many groups are zero from group `i` on.
pub open spec fn zeros_from(g: Seq<int>, i: int) -> int
    decreases g.len() - i,
{
    if i < 0 || i >= g.len() || g[i] != 0 {
        0
    } else {
        1 + zeros_from(g, i + 1)
    }
}

/// The first group below `n` at which the longest run of zeros starts.
pub open spec fn longest_zeros(g: Seq<int>, n: int) -> int
    decreases n,
{
    if n <= 1 {
        0
    } else {
        let b = longest_zeros(g, n - 1);
        if zeros_from(g, n - 1) > zeros_from(g, b) {
            n - 1
        } else {
            b
        }
    }
}

/// Groups in hexadecimal with colons between them.
pub open spec fn hex_groups(g: Seq<int>) -> Seq<char>
    decreases g.len(),
{
    if g.len() == 0 {
        seq![]
    } else if g.len() == 1 {
        text::written(g[0], 16)
    } else {
        hex_groups(g.drop_last()) + seq![':'] + text::written(g.last(), 16)
    }
}

/// The text of an IPv6 address: an IPv4 address in its last groups where it maps
/// one, and else a double colon in the place of the longest run of two or more
/// groups of zeros.
pub open spec fn v6_text(v: u128) -> Seq<char> {
    let g = groups_of(v);
    let b = longest_zeros(g, 8);
    let n = zeros_from(g, b);
    if v as int / 0x1_0000_0000 == 0xffff {
        "::ffff:"@ + v4_text((v as int % 0x1_0000_0000) as u32)
    } else if n > 1 {
        hex_groups(g.take(b)) + "::"@ + hex_groups(g.skip(b + n))
    } else {
        hex_groups(g)
    }
}

/// The text of the address of a host.
pub open spec fn ip_text(a: IpAddr) -> Seq<char> {
    match a {
        IpAddr::V4(v) => v4_text(v),
        IpAddr::V6(v) => v6_text(v),
    }
}

/// The text of a socket address.
pub open spec fn socket_text(a: SocketAddr) -> Seq<char> {
    match a.ip {
        IpAddr::V4(v) => v4_text(v) + seq![':'] + text::decimal(a.port as int),
        IpAddr::V6(v) => if a.scope == 0 {
            seq!['['] + v6_text(v) + "]:"@ + text::decimal(a.port as int)
        } else {
            seq!['['] + v6_text(v) + seq!['%'] + text::decimal(a.scope as int) + "]:"@
                + text::decimal(a.port as int)
        },
    }
}

/// Appends the text of an IPv4 address.
fn push_v4(out: &mut String, v: u32)
    ensures
        final(out)@ == old(out)@ + v4_text(v),
{
    let ghost start = out@;
    text::push_decimal(out, (v / 0x100_0000) as u64);
    out.push('.');
    text::push_decimal(out, (v / 0x1_0000 % 0x100) as u64);
    out.push('.');
    text::push_decimal(out, (v / 0x100 % 0x100) as u64);
    out.push('.');
    text::push_decimal(out, (v % 0x100) as u64);
    assert(out@ == start + v4_text(v));
}

/// The groups of an IPv6 address.
fn split_groups(v: u128) -> (r: Vec<u16>)
    ensures
        ints(r@) == groups_of(v),
        r@.len() == 8,
{
    let mut out: Vec<u16> = Vec::new();
    out.push((v / 0x1_0000_0000_0000_0000_0000_0000_0000) as u16);
    out.push((v / 0x1_0000_0000_0000_0000_0000_0000 % 0x1_0000) as u16);
    out.push((v / 0x1_0000_0000_0000_0000_0000 % 0x1_0000) as u16);
    out.push((v / 0x1_0000_0000_0000_0000 % 0x1_0000) as u16);
    out.push((v / 0x1_0000_0000_0000 % 0x1_0000) as u16);
    out.push((v / 0x1_0000_0000 % 0x1_0000) as u16);
    out.push((v / 0x1_0000 % 0x1_0000) as u16);
    out.push((v % 0x1_0000) as u16);
    assert(ints(out@) == groups_of(v));
    out
}

/// Counts the zeros from a group on.
fn count_zeros(g: &Vec<u16>, i: usize) -> (r: usize)
    requires
        i <= g@.len(),
    ensures
        r == zeros_from(ints(g@), i as int),
        i + r <= g@.len(),
    decreases g@.len() - i,
{
    if i >= g.len() || g[i] != 0 {
        0
    } else {
        1 + count_zeros(g, i + 1)
    }
}

/// Appends groups `from` to `to` in hexadecimal.
fn push_groups(out: &mut String, g: &Vec<u16>, from: usize, to: usize)
    requires
        from <= to <= g@.len(),
    ensures
        final(out)@ == old(out)@ + hex_groups(ints(g@).subrange(from as int, to as int)),
{
    let ghost start = out@;
    let ghost all = ints(g@);
    let mut i: usize = from;
    while i < to
        invariant
            from <= i <= to <= g@.len(),
            all == ints(g@),
            out@ == start + hex_groups(all.subrange(from as int, i as int)),
        decreases to - i,
    {
        let ghost prev = all.subrange(from as int, i as int);
        if i > from {
            out.push(':');
        }
        let d = text::write_number(g[i] as u64, 16);
        text::push_chars(out, &d);
        i = i + 1;
        proof {
            let now = all.subrange(from as int, i as int);
            assert(now.drop_last() == prev);
            assert(now.last() == all[i - 1]);
            assert(out@ == start + hex_groups(now));
        }
    }
}

/// Appends the text of an IPv6 address.
fn push_v6(out: &mut String, v: u128)
    ensures
        final(out)@ == old(out)@ + v6_text(v),
{
    let ghost start = out@;
    if v / 0x1_0000_0000 == 0xffff {
        out.append("::ffff:");
        push_v4(out, (v % 0x1_0000_0000) as u32);
        assert(out@ == start + v6_text(v));
        return;
    }
    let g = split_groups(v);
    let ghost gs = groups_of(v);
    let mut b: usize = 0;
    let mut n: usize = 1;
    while n < 8
        invariant
            1 <= n <= 8,
            b < n,
            g@.len() == 8,
            gs == ints(g@),
            b == longest_zeros(gs, n as int),
        decreases 8 - n,
    {
        if count_zeros(&g, n) > count_zeros(&g, b) {
            b = n;
        }
        n = n + 1;
    }
    let run = count_zeros(&g, b);
    if run > 1 {
        push_groups(out, &g, 0, b);
        out.append("::");
        push_groups(out, &g, b + run, 8);
        assert(gs.take(b as int) == gs.subrange(0, b as int));
        assert(gs.skip(b + run) == gs.subrange(b + run, 8));
    } else {
        push_groups(out, &g, 0, 8);
        assert(gs.subrange(0, 8) == gs);
    }
    assert(out@ == start + v6_text(v));
}

impl IpAddr {
    /// Appends the text of the address.
    pub fn push_text(&self, out: &mut String)
        ensures
            final(out)@ == old(out)@ + ip_text(*self),
    {
        match *self {
            IpAddr::V4(v) => push_v4(out, v),
            IpAddr::V6(v) => push_v6(out, v),
        }
    }

    /// The text of the address.
    pub fn text(&self) -> (r: String)
        ensures
            r@ == ip_text(*self),
    {
        let mut out = String::new();
        self.push_text(&mut out);
        out
    }
}

impl SocketAddr {
    /// The text of the address.
    pub fn text(&self) -> (r: String)
        ensures
            r@ == socket_text(*self),
    {
        let mut out = String::new();
        match self.ip {
            IpAddr::V4(v) => {
                push_v4(&mut out, v);
                out.push(':');
            },
            IpAddr::V6(v) => {
                out.push('[');
                push_v6(&mut out, v);
                if self.scope != 0 {
                    out.push('%');
                    text::push_decimal(&mut out, self.scope as u64);
                }
                out.append("]:");
            },
        }
        text::push_decimal(&mut out, self.port as u64);
        assert(out@ == socket_text(*self));
        out
    }
}

/// A number in front of something that is no digit is read back.
pub proof fn lemma_number_read(n: int, rest: Seq<char>, width: int, zeros: bool, max: int)
    requires
        0 <= n <= max,
        text::decimal(n).len() <= width,
        rest.len() > 0 ==> !text::is_digit(rest[0], 10),
    ensures
        num(text::decimal(n) + rest, 10, width, zeros, max) == Some((n, rest)),
{
    let d = text::decimal(n);
    let s = d + rest;
    text::lemma_written(n, 10);
    text::lemma_decimal_shape(n);
    text::lemma_lead_digits(d, rest, 10, digits(10));
    assert(s.take(d.len() as int) =~= d);
    assert(s.skip(d.len() as int) =~= rest);
    assert(s[0] == d[0]);
}

/// A part of an IPv4 address in front of something that is no digit is read back.
proof fn lemma_octet(n: int, rest: Seq<char>)
    requires
        0 <= n <= 255,
        rest.len() > 0 ==> !text::is_digit(rest[0], 10),
    ensures
        octet(text::decimal(n) + rest) == Some((n, rest)),
        dot_octet(seq!['.'] + (text::decimal(n) + rest)) == Some((n, rest)),
{
    text::lemma_decimal_shape(n);
    lemma_number_read(n, rest, 3, false, 255);
    assert((seq!['.'] + (text::decimal(n) + rest)).skip(1) =~= text::decimal(n) + rest);
}

/// An IPv4 address in front of something that is no digit is read back.
pub proof fn lemma_v4_prefix(v: u32, rest: Seq<char>)
    requires
        rest.len() > 0 ==> !text::is_digit(rest[0], 10),
    ensures
        v4_prefix(v4_text(v) + rest) == Some((v as int, rest)),
{
    let n = v as int;
    lemma_four_bytes(n);
    lemma_v4_parts(n / 0x100_0000, n / 0x1_0000 % 0x100, n / 0x100 % 0x100, n % 0x100, rest);
    lemma_pointed(
        text::decimal(n / 0x100_0000),
        text::decimal(n / 0x1_0000 % 0x100),
        text::decimal(n / 0x100 % 0x100),
        text::decimal(n % 0x100),
        rest,
    );
}

/// A number of four bytes is made of them.
pub proof fn lemma_four_bytes(n: int)
    requires
        0 <= n < 0x1_0000_0000,
    ensures
        (n / 0x100_0000) * 0x100_0000 + (n / 0x1_0000 % 0x100) * 0x1_0000 + (n / 0x100 % 0x100)
            * 0x100 + n % 0x100 == n,
        0 <= n / 0x100_0000 <= 255,
        0 <= n / 0x1_0000 % 0x100 <= 255,
        0 <= n / 0x100 % 0x100 <= 255,
        0 <= n % 0x100 <= 255,
{
}

/// Four parts with points between them, however they are put together.
pub proof fn lemma_pointed(
    a: Seq<char>,
    b: Seq<char>,
    c: Seq<char>,
    d: Seq<char>,
    rest: Seq<char>,
)
    ensures
        a + seq!['.'] + b + seq!['.'] + c + seq!['.'] + d + rest == a + (seq!['.'] + (b + (seq!['.']
            + (c + (seq!['.'] + (d + rest)))))),
{
    let p = seq!['.'];
    let x = d + rest;
    assert(a + p + b + p + c + p + d + rest =~= a + p + b + p + c + (p + x));
    let y = c + (p + x);
    assert(a + p + b + p + c + (p + x) =~= a + p + b + (p + y));
    let z = b + (p + y);
    assert(a + p + b + (p + y) =~= a + (p + z));
}

/// Four parts with points between them are read as an address.
proof fn lemma_v4_parts(a: int, b: int, c: int, d: int, rest: Seq<char>)
    requires
        0 <= a <= 255,
        0 <= b <= 255,
        0 <= c <= 255,
        0 <= d <= 255,
        rest.len() > 0 ==> !text::is_digit(rest[0], 10),
    ensures
        v4_prefix(
            text::decimal(a) + (seq!['.'] + (text::decimal(b) + (seq!['.'] + (text::decimal(c) + (
            seq!['.'] + (text::decimal(d) + rest)))))),
        ) == Some((a * 0x100_0000 + b * 0x1_0000 + c * 0x100 + d, rest)),
{
    let s3 = seq!['.'] + (text::decimal(d) + rest);
    let s2 = seq!['.'] + (text::decimal(c) + s3);
    let s1 = seq!['.'] + (text::decimal(b) + s2);
    lemma_octet(d, rest);
    lemma_octet(c, s3);
    lemma_octet(b, s2);
    lemma_octet(a, s1);
}

/// The text of an IPv4 address is its four bytes in decimal, with points between them, and
/// it is read back. With a port behind it, it is a socket, and that is read back too.
#[verifier::rlimit(40)]
pub proof fn law_v4_round_trip(v: u32, port: u16)
    ensures
        ipv4(v4_text(v)) == Some(v),
        ip(v4_text(v)) == Some(IpAddr::V4(v)),
        socket(v4_text(v) + ":"@ + text::decimal(port as int)) == Some(
            SocketAddr { ip: IpAddr::V4(v), port, scope: 0 },
        ),
        socket(socket_text(SocketAddr { ip: IpAddr::V4(v), port, scope: 0 })) == Some(
            SocketAddr { ip: IpAddr::V4(v), port, scope: 0 },
        ),
        text::split(v4_text(v), '.') == seq![
            text::decimal(v as int / 0x100_0000),
            text::decimal(v as int / 0x1_0000 % 0x100),
            text::decimal(v as int / 0x100 % 0x100),
            text::decimal(v as int % 0x100),
        ],
{
    let e = Seq::<char>::empty();
    lemma_v4_prefix(v, e);
    assert(v4_text(v) + e =~= v4_text(v));
    let d = text::decimal(port as int);
    let tail = seq![':'] + d;
    reveal_strlit(":");
    lemma_v4_prefix(v, tail);
    assert(v4_text(v) + ":"@ + d =~= v4_text(v) + tail);
    assert(v4_text(v) + seq![':'] + d =~= v4_text(v) + tail);
    assert(tail.skip(1) =~= d + e);
    assert((d + e).len() == d.len());
    lemma_number_read(port as int, e, d.len() as int, true, 0xffff);
    let n = v as int;
    let p0 = text::decimal(n / 0x100_0000);
    let p1 = text::decimal(n / 0x1_0000 % 0x100);
    let p2 = text::decimal(n / 0x100 % 0x100);
    let p3 = text::decimal(n % 0x100);
    lemma_no_point(n / 0x100_0000);
    lemma_no_point(n / 0x1_0000 % 0x100);
    lemma_no_point(n / 0x100 % 0x100);
    lemma_no_point(n % 0x100);
    text::lemma_split_last(p3, '.');
    text::lemma_split_first(p2, p3, '.');
    text::lemma_split_first(p1, p2 + seq!['.'] + p3, '.');
    text::lemma_split_first(p0, p1 + seq!['.'] + (p2 + seq!['.'] + p3), '.');
    assert(v4_text(v) =~= p0 + seq!['.'] + (p1 + seq!['.'] + (p2 + seq!['.'] + p3)));
    assert(text::split(v4_text(v), '.') =~= seq![p0, p1, p2, p3]);
}

/// A number holds no point.
proof fn lemma_no_point(n: int)
    requires
        n >= 0,
    ensures
        forall|i: int| 0 <= i < text::decimal(n).len() ==> #[trigger] text::decimal(n)[i] != '.',
{
    text::lemma_written(n, 10);
    assert forall|i: int| 0 <= i < text::decimal(n).len() implies #[trigger] text::decimal(n)[i]
        != '.' by {
        assert(text::is_digit(text::decimal(n)[i], 10));
    }
}

/// The text of an IPv4 address is made of digits and points.
pub proof fn lemma_v4_plain(v: u32)
    ensures
        forall|i: int|
            0 <= i < v4_text(v).len() ==> text::is_digit(#[trigger] v4_text(v)[i], 10) || v4_text(
                v,
            )[i] == '.',
        v4_text(v).len() > 0,
        text::is_digit(v4_text(v)[0], 10),
        text::is_digit(v4_text(v).last(), 10),
{
    let n = v as int;
    text::lemma_written(n / 0x100_0000, 10);
    text::lemma_written(n / 0x1_0000 % 0x100, 10);
    text::lemma_written(n / 0x100 % 0x100, 10);
    text::lemma_written(n % 0x100, 10);
    let a = text::decimal(n / 0x100_0000);
    let b = text::decimal(n / 0x1_0000 % 0x100);
    let c = text::decimal(n / 0x100 % 0x100);
    let d = text::decimal(n % 0x100);
    let s = v4_text(v);
    assert forall|i: int| 0 <= i < s.len() implies text::is_digit(#[trigger] s[i], 10) || s[i]
        == '.' by {
        let j = i - a.len() - 1;
        let k = j - b.len() - 1;
        let l = k - c.len() - 1;
        if i < a.len() {
            assert(s[i] == a[i]);
        } else if 0 <= j < b.len() {
            assert(s[i] == b[j]);
        } else if 0 <= k < c.len() {
            assert(s[i] == c[k]);
        } else if 0 <= l < d.len() {
            assert(s[i] == d[l]);
        }
    }
    assert(s[0] == a[0]);
    assert(s.last() == d.last());
}

} // verus!
