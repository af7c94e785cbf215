//! The edge of the tunnel: which of its addresses answer fastest.

use crate::addr;
use crate::addr::IpAddr;
use crate::bytes;
use crate::cf_ctl::Egress;
use crate::text;
use vstd::prelude::*;

verus! {

/// The port of the edge.
pub const EDGE_PORT: u16 = 7844;

/// How many addresses are picked.
pub const PICK: usize = 4;

/// How many addresses are tried at once.
pub const CONCURRENCY: usize = 8;

/// The name server that is asked through the proxy.
pub const DNS_VIA_PROXY: &'static str = "1.1.1.1:53";

/// The name server that is asked directly.
pub const DNS_DIRECT: &'static str = "223.5.5.5:53";

/// The name under which the edge is found.
pub const EDGE_SRV: &'static str = "_v2-origintunneld._tcp.argotunnel.com";

/// Addresses of the edge that are known beforehand.
pub const BUILTIN_V4: [&'static str; 20] = [
    "198.41.192.167",
    "198.41.192.67",
    "198.41.192.57",
    "198.41.192.107",
    "198.41.192.27",
    "198.41.192.7",
    "198.41.192.227",
    "198.41.192.47",
    "198.41.192.37",
    "198.41.192.77",
    "198.41.200.13",
    "198.41.200.193",
    "198.41.200.33",
    "198.41.200.233",
    "198.41.200.53",
    "198.41.200.63",
    "198.41.200.113",
    "198.41.200.73",
    "198.41.200.43",
    "198.41.200.23",
];

/// An address of the edge and how long its answer took, in nanoseconds.
#[derive(Debug, Clone, Copy, PartialEq, Eq, Structural)]
pub struct EdgeRtt {
    pub ip: IpAddr,
    pub rtt_ns: u64,
    /// It was asked over QUIC.
    pub quic: bool,
}

/// A list with an address, unless the list holds it.
pub open spec fn with_address(v: Seq<IpAddr>, ip: IpAddr) -> Seq<IpAddr> {
    if v.contains(ip) {
        v
    } else {
        v.push(ip)
    }
}

/// The addresses among the first `n` that are known beforehand, each once.
pub open spec fn builtin(n: int) -> Seq<IpAddr>
    decreases n,
{
    if n <= 0 {
        Seq::empty()
    } else {
        match addr::ipv4(BUILTIN_V4@[n - 1]@) {
            Some(a) => with_address(builtin(n - 1), IpAddr::V4(a)),
            None => builtin(n - 1),
        }
    }
}

/// The addresses that are known beforehand.
pub fn builtin_candidates() -> (r: Vec<IpAddr>)
    ensures
        r@ == builtin(20),
        r@.no_duplicates(),
{
    let mut out: Vec<IpAddr> = Vec::new();
    let mut i: usize = 0;
    assert(out@ =~= builtin(0));
    while i < 20
        invariant
            i <= 20,
            out@ == builtin(i as int),
            out@.no_duplicates(),
        decreases 20 - i,
    {
        let cs = text::chars_of(BUILTIN_V4[i]);
        match addr::parse_ipv4(cs.as_slice()) {
            Some(a) => {
                if !among(IpAddr::V4(a), out.as_slice()) {
                    out.push(IpAddr::V4(a));
                }
            },
            None => {},
        }
        i = i + 1;
    }
    out
}

/// Whether an address comes after another in the order of how long their answers
/// took; those that took as long keep their order.
pub open spec fn by_time(all: Seq<EdgeRtt>, at: Seq<int>) -> bool {
    forall|i: int, j: int|
        0 <= i < j < at.len() ==> {
            let (a, b) = (#[trigger] at[i], #[trigger] at[j]);
            all[a].rtt_ns < all[b].rtt_ns || (all[a].rtt_ns == all[b].rtt_ns && a < b)
        }
}

/// Whether places are those of a sequence, each once.
pub open spec fn all_places(at: Seq<int>, n: int) -> bool {
    &&& at.len() == n
    &&& at.no_duplicates()
    &&& forall|i: int| 0 <= i < n ==> 0 <= #[trigger] at[i] < n
}

/// Whether some addresses are the fastest of others, in order.
pub open spec fn fastest(all: Seq<EdgeRtt>, picked: Seq<EdgeRtt>, limit: int) -> bool {
    exists|at: Seq<int>|
        #[trigger] all_places(at, all.len() as int) && by_time(all, at) && picked.len() == if all.len()
            < limit {
            all.len() as int
        } else {
            limit
        } && forall|i: int| 0 <= i < picked.len() ==> #[trigger] picked[i] == all[at[i]]
}

/// The fastest addresses, the fastest first.
pub fn pick_fastest(all: &[EdgeRtt]) -> (r: Vec<EdgeRtt>)
    ensures
        fastest(all@, r@, PICK as int),
{
    let mut at: Vec<usize> = Vec::new();
    let mut n: usize = 0;
    let ghost mut g: Seq<int> = Seq::empty();
    while n < all.len()
        invariant
            n <= all@.len(),
            at@.len() == n,
            g.len() == n,
            forall|i: int| 0 <= i < n ==> #[trigger] g[i] == at@[i],
            all_places(g, n as int),
            by_time(all@, g),
        decreases all@.len() - n,
    {
        let mut k: usize = 0;
        assert forall|i: int| 0 <= i < n implies (#[trigger] at@[i]) < n by {
            assert(g[i] == at@[i]);
        }
        while k < n && all[at[k]].rtt_ns <= all[n].rtt_ns
            invariant
                k <= n,
                n < all@.len(),
                at@.len() == n,
                forall|i: int| 0 <= i < n ==> (#[trigger] at@[i]) < n,
                forall|i: int| 0 <= i < k ==> all@[(#[trigger] at@[i]) as int].rtt_ns <= all@[n as int].rtt_ns,
            decreases n - k,
        {
            k = k + 1;
        }
        let ghost before = g;
        let ghost was = at@;
        at.insert(k, n);
        proof {
            g = before.insert(k as int, n as int);
            assert forall|i: int| 0 <= i < n + 1 implies #[trigger] g[i] == at@[i] by {
                if i < k {
                    assert(before[i] == was[i]);
                } else if i > k {
                    assert(before[i - 1] == was[i - 1]);
                }
            }
            assert forall|i: int| 0 <= i < n + 1 implies 0 <= #[trigger] g[i] < n + 1 by {
                if i < k {
                    assert(g[i] == before[i]);
                } else if i > k {
                    assert(g[i] == before[i - 1]);
                }
            }
            assert forall|i: int, j: int| 0 <= i < g.len() && 0 <= j < g.len() && i != j implies g[i]
                != g[j] by {
                let x = if i < k { i } else { i - 1 };
                let y = if j < k { j } else { j - 1 };
                if i != k && j != k {
                    assert(before[x] != before[y]);
                } else if i != k {
                    assert(before[x] < n);
                } else {
                    assert(before[y] < n);
                }
            }
            assert forall|i: int, j: int| 0 <= i < j < g.len() implies ({
                let (a, b) = (#[trigger] g[i], #[trigger] g[j]);
                all@[a].rtt_ns < all@[b].rtt_ns || (all@[a].rtt_ns == all@[b].rtt_ns && a < b)
            }) by {
                if i < k && j < k {
                    assert(g[i] == before[i] && g[j] == before[j]);
                } else if i < k && j == k {
                    assert(was[i] == before[i]);
                } else if i < k {
                    assert(g[i] == before[i] && g[j] == before[j - 1]);
                } else if i == k {
                    assert(before[k as int] == was[k as int]);
                    if j - 1 > k {
                        assert(g[j] == before[j - 1]);
                        let (a, b) = (before[k as int], before[j - 1]);
                        assert(all@[a].rtt_ns <= all@[b].rtt_ns);
                    }
                } else {
                    assert(g[i] == before[i - 1] && g[j] == before[j - 1]);
                }
            }
        }
        n = n + 1;
    }
    let m: usize = if n < PICK {
        n
    } else {
        PICK
    };
    let mut out: Vec<EdgeRtt> = Vec::new();
    let mut i: usize = 0;
    while i < m
        invariant
            i <= m,
            m <= n,
            n == all@.len(),
            at@.len() == n,
            out@.len() == i,
            all_places(g, n as int),
            forall|j: int| 0 <= j < n ==> #[trigger] g[j] == at@[j],
            forall|j: int| 0 <= j < i ==> #[trigger] out@[j] == all@[g[j]],
        decreases m - i,
    {
        assert(g[i as int] == at@[i as int]);
        out.push(all[at[i]]);
        i = i + 1;
    }
    out
}

/// The text of one pick.
pub open spec fn pick_text(e: EdgeRtt) -> Seq<char> {
    addr::ip_text(e.ip) + "="@ + text::decimal(e.rtt_ns as int / 1_000_000) + "ms"@ + if e.quic {
        ""@
    } else {
        "/tcp"@
    }
}

/// What is logged of the picks.
pub fn fmt_picks(picks: &[EdgeRtt]) -> (r: String)
    ensures
        r@ == text::joined(Seq::new(picks@.len(), |i: int| pick_text(picks@[i])), " "@),
{
    let mut parts: Vec<String> = Vec::new();
    let mut i: usize = 0;
    while i < picks.len()
        invariant
            i <= picks@.len(),
            parts@.len() == i,
            forall|j: int| 0 <= j < i ==> (#[trigger] parts@[j])@ == pick_text(picks@[j]),
        decreases picks@.len() - i,
    {
        let e = picks[i];
        let mut out = e.ip.text();
        out.append("=");
        text::push_decimal(&mut out, e.rtt_ns / 1_000_000);
        out.append("ms");
        out.append(
            if e.quic {
                ""
            } else {
                "/tcp"
            },
        );
        parts.push(out);
        i = i + 1;
    }
    assert(text::strings(parts@) =~= Seq::new(picks@.len(), |i: int| pick_text(picks@[i])));
    text::join(parts.as_slice(), " ")
}

/// The addresses among the first `n` that are not among others.
pub open spec fn others(found: Seq<IpAddr>, tried: Seq<IpAddr>, n: int) -> Seq<IpAddr>
    decreases n,
{
    if n <= 0 {
        Seq::empty()
    } else if tried.contains(found[n - 1]) {
        others(found, tried, n - 1)
    } else {
        others(found, tried, n - 1).push(found[n - 1])
    }
}

/// Whether an address is among others.
fn among(ip: IpAddr, v: &[IpAddr]) -> (r: bool)
    ensures
        r == v@.contains(ip),
{
    let mut i: usize = 0;
    while i < v.len()
        invariant
            i <= v@.len(),
            forall|j: int| 0 <= j < i ==> v@[j] != ip,
        decreases v@.len() - i,
    {
        if v[i] == ip {
            return true;
        }
        i = i + 1;
    }
    false
}

/// The addresses that were found and not tried yet.
pub fn untried(found: &[IpAddr], tried: &[IpAddr]) -> (r: Vec<IpAddr>)
    ensures
        r@ == others(found@, tried@, found@.len() as int),
{
    let mut out: Vec<IpAddr> = Vec::new();
    let mut i: usize = 0;
    assert(out@ =~= others(found@, tried@, 0));
    while i < found.len()
        invariant
            i <= found@.len(),
            out@ == others(found@, tried@, i as int),
        decreases found@.len() - i,
    {
        if !among(found[i], tried) {
            out.push(found[i]);
        }
        i = i + 1;
    }
    out
}

/// Nothing is tried twice.
pub proof fn law_nothing_tried_twice(found: Seq<IpAddr>, tried: Seq<IpAddr>, n: int)
    requires
        0 <= n <= found.len(),
    ensures
        forall|ip: IpAddr|
            #[trigger] others(found, tried, n).contains(ip) ==> !tried.contains(ip)
                && found.contains(ip),
    decreases n,
{
    if n > 0 {
        law_nothing_tried_twice(found, tried, n - 1);
        let before = others(found, tried, n - 1);
        let now = others(found, tried, n);
        assert forall|ip: IpAddr| #[trigger] now.contains(ip) implies !tried.contains(ip)
            && found.contains(ip) by {
            let j = choose|j: int| 0 <= j < now.len() && now[j] == ip;
            if j < before.len() {
                assert(before[j] == ip);
                assert(before.contains(ip));
            } else {
                assert(found[n - 1] == ip);
            }
        }
    }
}

/// The name servers that are asked, and which way: the own way first.
pub open spec fn servers(egress: Egress) -> Seq<(Seq<char>, Egress)> {
    match egress {
        Egress::Proxied => seq![(DNS_VIA_PROXY@, Egress::Proxied), (DNS_DIRECT@, Egress::Direct)],
        Egress::Direct => seq![(DNS_DIRECT@, Egress::Direct), (DNS_VIA_PROXY@, Egress::Proxied)],
    }
}

/// The name servers that are asked, and which way.
pub fn dns_plan(egress: Egress) -> (r: [(&'static str, Egress); 2])
    ensures
        (r@[0].0@, r@[0].1) == servers(egress)[0],
        (r@[1].0@, r@[1].1) == servers(egress)[1],
{
    match egress {
        Egress::Proxied => [(DNS_VIA_PROXY, Egress::Proxied), (DNS_DIRECT, Egress::Direct)],
        Egress::Direct => [(DNS_DIRECT, Egress::Direct), (DNS_VIA_PROXY, Egress::Proxied)],
    }
}

/// A packet that makes an edge tell its versions of QUIC: a long header with a
/// version that nobody has, two identities of eight bytes, and zeros up to the
/// smallest size that is answered.
pub open spec fn vn_packet(a: Seq<u8>, b: Seq<u8>) -> Seq<u8> {
    let head = seq![0xc0u8, 0x0a, 0x0a, 0x0a, 0x0a, 8] + a + seq![8u8] + b;
    head + Seq::new((1200 - head.len()) as nat, |i: int| 0u8)
}

/// A packet that makes an edge tell its versions of QUIC.
pub fn vn_probe_packet(a: &[u8], b: &[u8]) -> (r: Vec<u8>)
    requires
        a@.len() == 8,
        b@.len() == 8,
    ensures
        r@ == vn_packet(a@, b@),
        r@.len() == 1200,
{
    let mut p: Vec<u8> = Vec::new();
    p.push(0xc0);
    p.push(0x0a);
    p.push(0x0a);
    p.push(0x0a);
    p.push(0x0a);
    p.push(8);
    bytes::push_bytes(&mut p, a);
    p.push(8);
    bytes::push_bytes(&mut p, b);
    let ghost head = p@;
    assert(head =~= seq![0xc0u8, 0x0a, 0x0a, 0x0a, 0x0a, 8] + a@ + seq![8u8] + b@);
    let mut n: usize = 23;
    while n < 1200
        invariant
            23 <= n <= 1200,
            head.len() == 23,
            p@ == head + Seq::new((n - 23) as nat, |i: int| 0u8),
        decreases 1200 - n,
    {
        p.push(0);
        n = n + 1;
        assert(p@ =~= head + Seq::new((n - 23) as nat, |i: int| 0u8));
    }
    p
}

/// An identity of eight bytes, from the time and how many were made before.
pub fn connection_id(time_ns: u64, made: u64) -> (r: Vec<u8>)
    ensures
        r@ == bytes::be((time_ns ^ wrapped(made)) as int, 8),
        r@.len() == 8,
{
    let mut out: Vec<u8> = Vec::new();
    let mixed: u64 = time_ns ^ made.wrapping_mul(0x9e37_79b9_7f4a_7c15);
    bytes::push_be(&mut out, mixed, 8);
    proof {
        bytes::lemma_be_len(mixed as int, 8);
    }
    assert(out@ =~= bytes::be(mixed as int, 8));
    out
}

/// A number times a large odd one, without what does not fit into 64 bits.
pub open spec fn wrapped(n: u64) -> u64 {
    ((n * 0x9e37_79b9_7f4a_7c15) % 0x1_0000_0000_0000_0000) as u64
}

/// Whether an answer tells versions of QUIC: a long header and the version zero.
pub open spec fn tells_versions(b: Seq<u8>) -> bool {
    b.len() >= 5 && b[0] >= 128 && b[1] == 0 && b[2] == 0 && b[3] == 0 && b[4] == 0
}

/// Whether an answer tells versions of QUIC.
pub fn is_version_negotiation(buf: &[u8]) -> (r: bool)
    ensures
        r == tells_versions(buf@),
{
    buf.len() >= 5 && buf[0] >= 128 && buf[1] == 0 && buf[2] == 0 && buf[3] == 0 && buf[4] == 0
}

/// The packet that makes an edge tell its versions is not an answer itself.
pub proof fn law_probe_is_no_answer(a: Seq<u8>, b: Seq<u8>)
    requires
        a.len() == 8,
        b.len() == 8,
    ensures
        !tells_versions(vn_packet(a, b)),
        vn_packet(a, b).len() == 1200,
{
    assert(vn_packet(a, b)[1] == 0x0a);
}

/// How long a round may take, in milliseconds.
pub const ROUND_BUDGET_MS: u64 = 8_000;

/// Whether more addresses are looked for: none of the known ones answered, and there is
/// time left.
pub fn discovers(found: usize, elapsed_ms: u64) -> (r: bool)
    ensures
        r == (found == 0 && elapsed_ms < ROUND_BUDGET_MS),
{
    found == 0 && elapsed_ms < ROUND_BUDGET_MS
}

/// The first answer that holds something; nothing where there is none.
pub open spec fn first_filled(answers: Seq<Option<Vec<String>>>, i: int) -> Seq<Seq<char>>
    decreases answers.len() - i,
{
    if i < 0 || i >= answers.len() {
        Seq::empty()
    } else {
        match answers[i] {
            Some(v) => if v@.len() > 0 {
                text::strings(v@)
            } else {
                first_filled(answers, i + 1)
            },
            None => first_filled(answers, i + 1),
        }
    }
}

/// The place of the first answer that holds something.
pub fn first_answer(answers: &[Option<Vec<String>>]) -> (r: Option<usize>)
    ensures
        match r {
            Some(i) => i < answers@.len() && answers@[i as int] is Some && first_filled(answers@, 0)
                == text::strings(answers@[i as int]->0@) && answers@[i as int]->0@.len() > 0,
            None => first_filled(answers@, 0) == Seq::<Seq<char>>::empty(),
        },
{
    let mut i: usize = 0;
    while i < answers.len()
        invariant
            i <= answers@.len(),
            first_filled(answers@, 0) == first_filled(answers@, i as int),
        decreases answers@.len() - i,
    {
        match &answers[i] {
            Some(v) => if v.len() > 0 {
                return Some(i);
            },
            None => {},
        }
        i = i + 1;
    }
    None
}

/// Whether an address comes before another: IPv4 addresses first, and by their number.
pub open spec fn ip_before(a: IpAddr, b: IpAddr) -> bool {
    match (a, b) {
        (IpAddr::V4(x), IpAddr::V4(y)) => x < y,
        (IpAddr::V4(_), IpAddr::V6(_)) => true,
        (IpAddr::V6(_), IpAddr::V4(_)) => false,
        (IpAddr::V6(x), IpAddr::V6(y)) => x < y,
    }
}

/// Whether an address comes before another.
fn comes_before(a: IpAddr, b: IpAddr) -> (r: bool)
    ensures
        r == ip_before(a, b),
{
    match (a, b) {
        (IpAddr::V4(x), IpAddr::V4(y)) => x < y,
        (IpAddr::V4(_), IpAddr::V6(_)) => true,
        (IpAddr::V6(_), IpAddr::V4(_)) => false,
        (IpAddr::V6(x), IpAddr::V6(y)) => x < y,
    }
}

/// Whether addresses are in their order, each once.
pub open spec fn ip_order(v: Seq<IpAddr>) -> bool {
    forall|i: int, j: int| 0 <= i < j < v.len() ==> ip_before(#[trigger] v[i], #[trigger] v[j])
}

/// The addresses that were found, in their order and each once.
pub fn collect_edges(found: &[IpAddr]) -> (r: Vec<IpAddr>)
    ensures
        ip_order(r@),
        forall|x: IpAddr| #[trigger] r@.contains(x) <==> found@.contains(x),
{
    let mut out: Vec<IpAddr> = Vec::new();
    let mut n: usize = 0;
    while n < found.len()
        invariant
            n <= found@.len(),
            ip_order(out@),
            forall|x: IpAddr| #[trigger] out@.contains(x) <==> found@.take(n as int).contains(x),
        decreases found@.len() - n,
    {
        let x = found[n];
        let ghost before = out@;
        let len: usize = out.len();
        let mut k: usize = 0;
        while k < len && comes_before(out[k], x)
            invariant
                k <= len,
                len == out@.len(),
                forall|i: int| 0 <= i < k ==> ip_before(#[trigger] out@[i], x),
            decreases len - k,
        {
            k = k + 1;
        }
        proof {
            assert(found@.take(n + 1) =~= found@.take(n as int).push(x));
            assert forall|y: IpAddr| #[trigger] found@.take(n + 1).contains(y) <==> found@.take(
                n as int,
            ).contains(y) || y == x by {
                let a = found@.take(n as int);
                if a.contains(y) {
                    let i = choose|i: int| 0 <= i < a.len() && a[i] == y;
                    assert(found@.take(n + 1)[i] == y);
                }
                if y == x {
                    assert(found@.take(n + 1)[n as int] == x);
                }
            }
        }
        if k < len && out[k] == x {
            assert(out@.contains(x));
        } else {
            out.insert(k, x);
            proof {
                assert(out@ =~= before.insert(k as int, x));
                assert forall|i: int, j: int| 0 <= i < j < out@.len() implies ip_before(
                    #[trigger] out@[i],
                    #[trigger] out@[j],
                ) by {
                    if i < k && j > k {
                        assert(ip_before(before[i], before[j - 1]));
                    } else if i == k {
                        assert(!ip_before(before[k as int], x) && before[k as int] != x);
                        if j - 1 > k {
                            assert(ip_before(before[k as int], before[j - 1]));
                        }
                    } else if i > k {
                        assert(ip_before(before[i - 1], before[j - 1]));
                    } else if j < k {
                        assert(ip_before(before[i], before[j]));
                    }
                }
                assert forall|y: IpAddr| #[trigger] out@.contains(y) <==> before.contains(y) || y
                    == x by {
                    if before.contains(y) {
                        let i = choose|i: int| 0 <= i < before.len() && before[i] == y;
                        if i < k {
                            assert(out@[i] == y);
                        } else {
                            assert(out@[i + 1] == y);
                        }
                    }
                    if y == x {
                        assert(out@[k as int] == x);
                    }
                    if out@.contains(y) {
                        let i = choose|i: int| 0 <= i < out@.len() && out@[i] == y;
                        if i < k {
                            assert(before[i] == y);
                        } else if i > k {
                            assert(before[i - 1] == y);
                        }
                    }
                }
            }
        }
        n = n + 1;
    }
    assert(found@.take(n as int) =~= found@);
    out
}

/// What a list of candidates is asked next.
#[derive(Debug, Clone, Copy, PartialEq, Eq, Structural)]
pub enum MeasureStep {
    /// Nothing: the answers are in.
    Done,
    /// How long a TCP connection takes.
    Tcp,
}

/// What a list of candidates is asked after a round over QUIC, and after one over TCP:
/// TCP is tried only where nobody answered over QUIC, and once.
pub fn measure_next(quic_answers: usize, done_tcp: bool) -> (r: MeasureStep)
    ensures
        r == if quic_answers == 0 && !done_tcp {
            MeasureStep::Tcp
        } else {
            MeasureStep::Done
        },
{
    if quic_answers == 0 && !done_tcp {
        MeasureStep::Tcp
    } else {
        MeasureStep::Done
    }
}

/// The candidates among the first `n` that answered in a round, and how long it took.
pub open spec fn timed(
    cs: Seq<IpAddr>,
    answers: Seq<Option<u64>>,
    quic: bool,
    n: int,
) -> Seq<EdgeRtt>
    decreases n,
{
    if n <= 0 {
        Seq::empty()
    } else {
        match answers[n - 1] {
            Some(t) => timed(cs, answers, quic, n - 1).push(
                EdgeRtt { ip: cs[n - 1], rtt_ns: t, quic },
            ),
            None => timed(cs, answers, quic, n - 1),
        }
    }
}

/// The candidates that answered in a round.
fn timed_list(cs: &[IpAddr], answers: &[Option<u64>], quic: bool) -> (r: Vec<EdgeRtt>)
    requires
        answers@.len() == cs@.len(),
    ensures
        r@ == timed(cs@, answers@, quic, cs@.len() as int),
{
    let mut out: Vec<EdgeRtt> = Vec::new();
    let mut i: usize = 0;
    while i < cs.len()
        invariant
            i <= cs@.len(),
            answers@.len() == cs@.len(),
            out@ == timed(cs@, answers@, quic, i as int),
        decreases cs@.len() - i,
    {
        match answers[i] {
            Some(t) => {
                out.push(EdgeRtt { ip: cs[i], rtt_ns: t, quic });
            },
            None => {},
        }
        i = i + 1;
    }
    out
}

/// What holds of the picks of a round: there are few of them, the fastest stands
/// first, none stands twice, each answered in that round and was asked in its way, and
/// who answered and is not among them took at least as long as the last.
pub open spec fn best_of_round(
    cs: Seq<IpAddr>,
    answers: Seq<Option<u64>>,
    quic: bool,
    picked: Seq<EdgeRtt>,
) -> bool {
    &&& picked.len() <= PICK
    &&& forall|i: int, j: int|
        0 <= i < j < picked.len() ==> (#[trigger] picked[i]).rtt_ns <= (#[trigger] picked[j]).rtt_ns
    &&& forall|i: int, j: int|
        0 <= i < j < picked.len() ==> (#[trigger] picked[i]).ip != (#[trigger] picked[j]).ip
    &&& forall|k: int|
        0 <= k < picked.len() ==> (#[trigger] picked[k]).quic == quic && exists|i: int|
            0 <= i < cs.len() && #[trigger] cs[i] == picked[k].ip && answers[i] == Some(
                picked[k].rtt_ns,
            )
    &&& forall|i: int|
        0 <= i < cs.len() && (#[trigger] answers[i]) is Some && !picked_has(picked, cs[i])
            ==> picked.len() == PICK && answers[i]->0 >= picked[PICK - 1].rtt_ns
}

/// Whether an address is among the picks.
pub open spec fn picked_has(picked: Seq<EdgeRtt>, ip: IpAddr) -> bool {
    exists|k: int| 0 <= k < picked.len() && (#[trigger] picked[k]).ip == ip
}

/// The places among the first `n` of those that answered.
spec fn answered(answers: Seq<Option<u64>>, n: int) -> Seq<int>
    decreases n,
{
    if n <= 0 {
        Seq::empty()
    } else if answers[n - 1] is Some {
        answered(answers, n - 1).push(n - 1)
    } else {
        answered(answers, n - 1)
    }
}

/// What a round yields stands in the order of the candidates, and leaves out nobody who
/// answered.
proof fn lemma_timed(cs: Seq<IpAddr>, answers: Seq<Option<u64>>, quic: bool, n: int)
    requires
        0 <= n <= cs.len(),
        answers.len() == cs.len(),
    ensures
        timed(cs, answers, quic, n).len() == answered(answers, n).len(),
        forall|k: int|
            0 <= k < answered(answers, n).len() ==> 0 <= #[trigger] answered(answers, n)[k] < n
                && answers[answered(answers, n)[k]] is Some && timed(cs, answers, quic, n)[k] == (
            EdgeRtt {
                ip: cs[answered(answers, n)[k]],
                rtt_ns: answers[answered(answers, n)[k]]->0,
                quic,
            }),
        forall|j: int, k: int|
            0 <= j < k < answered(answers, n).len() ==> #[trigger] answered(answers, n)[j]
                < #[trigger] answered(answers, n)[k],
        forall|i: int|
            0 <= i < n && (#[trigger] answers[i]) is Some ==> answered(answers, n).contains(i),
    decreases n,
{
    if n > 0 {
        lemma_timed(cs, answers, quic, n - 1);
        let before = answered(answers, n - 1);
        let now = answered(answers, n);
        assert forall|i: int| 0 <= i < n && (#[trigger] answers[i]) is Some implies now.contains(
            i,
        ) by {
            if i < n - 1 {
                let k = choose|k: int| 0 <= k < before.len() && before[k] == i;
                assert(now[k] == i);
            } else {
                assert(now[now.len() - 1] == i);
            }
        }
    }
}

/// The picks are the best of one round: where the candidates are distinct, at most four
/// distinct ones that answered in it, in the order of how long they took, all asked in
/// one way, and nobody who answered faster than the last of them is left out.
pub proof fn law_picks_come_from_one_round(
    cs: Seq<IpAddr>,
    answers: Seq<Option<u64>>,
    quic: bool,
    picked: Seq<EdgeRtt>,
)
    requires
        cs.no_duplicates(),
        answers.len() == cs.len(),
        fastest(timed(cs, answers, quic, cs.len() as int), picked, PICK as int),
    ensures
        best_of_round(cs, answers, quic, picked),
{
    let n = cs.len() as int;
    let all = timed(cs, answers, quic, n);
    let pl = answered(answers, n);
    lemma_timed(cs, answers, quic, n);
    let at = choose|at: Seq<int>|
        #[trigger] all_places(at, all.len() as int) && by_time(all, at) && picked.len() == if all.len()
            < PICK {
            all.len() as int
        } else {
            PICK as int
        } && forall|i: int| 0 <= i < picked.len() ==> #[trigger] picked[i] == all[at[i]];
    assert forall|k: int| 0 <= k < picked.len() implies (#[trigger] picked[k]).quic == quic
        && exists|i: int|
        0 <= i < cs.len() && #[trigger] cs[i] == picked[k].ip && answers[i] == Some(
            picked[k].rtt_ns,
        ) by {
        let i = pl[at[k]];
        assert(picked[k] == all[at[k]]);
        assert(cs[i] == picked[k].ip);
    }
    assert forall|i: int, j: int| 0 <= i < j < picked.len() implies (#[trigger] picked[i]).ip != (
    #[trigger] picked[j]).ip && picked[i].rtt_ns <= picked[j].rtt_ns by {
        assert(at[i] != at[j]);
        let (x, y) = (pl[at[i]], pl[at[j]]);
        assert(x != y);
        assert(cs[x] != cs[y]);
    }
    assert forall|i: int|
        0 <= i < cs.len() && (#[trigger] answers[i]) is Some && !picked_has(
            picked,
            cs[i],
        ) implies picked.len() == PICK && answers[i]->0 >= picked[PICK - 1].rtt_ns by {
        let k = choose|k: int| 0 <= k < pl.len() && pl[k] == i;
        assert(all[k].ip == cs[i]);
        lemma_place_occurs(at, k);
        let j = choose|j: int| 0 <= j < at.len() && at[j] == k;
        if j < picked.len() {
            assert(picked[j].ip == cs[i]);
        } else {
            assert(picked[PICK - 1] == all[at[PICK - 1]]);
        }
    }
}

/// Among places that are those of a sequence, each occurs.
proof fn lemma_place_occurs(at: Seq<int>, k: int)
    requires
        all_places(at, at.len() as int),
        0 <= k < at.len(),
    ensures
        at.contains(k),
{
    let full = vstd::set_lib::set_int_range(0, at.len() as int);
    vstd::set_lib::lemma_int_range(0, at.len() as int);
    at.unique_seq_to_set();
    assert(at.to_set().subset_of(full));
    vstd::set_lib::lemma_subset_equality(at.to_set(), full);
    assert(at.to_set().contains(k));
}

/// How far the search for an edge has come.
#[derive(Debug, Clone, Copy, PartialEq, Eq, Structural)]
pub enum HuntStage {
    /// The candidates are asked over QUIC.
    Quic,
    /// The candidates are asked over TCP.
    Tcp,
    /// More addresses are looked for.
    Discover,
    /// It is over.
    Over,
}

/// What is done next in the search for an edge.
pub enum HuntStep {
    /// Ask every candidate, over QUIC or over TCP.
    Probe(bool),
    /// Look for more addresses.
    Discover,
    /// Take these; none where no edge can be reached.
    Done(Vec<EdgeRtt>),
}

/// What a search for an edge knows.
pub struct HuntView {
    pub candidates: Seq<IpAddr>,
    pub stage: HuntStage,
    /// The candidates were looked for.
    pub fresh: bool,
}

/// How many steps may still come.
pub open spec fn steps_left(h: HuntView) -> int {
    match h.stage {
        HuntStage::Quic => if h.fresh {
            2
        } else {
            5
        },
        HuntStage::Tcp => if h.fresh {
            1
        } else {
            4
        },
        HuntStage::Discover => 3,
        HuntStage::Over => 0,
    }
}

/// Where a search stands after a round in which `n` candidates answered.
pub open spec fn stage_after(h: HuntView, n: int, elapsed_ms: u64) -> HuntStage {
    if n > 0 {
        HuntStage::Over
    } else if h.stage is Quic {
        HuntStage::Tcp
    } else if !h.fresh && elapsed_ms < ROUND_BUDGET_MS {
        HuntStage::Discover
    } else {
        HuntStage::Over
    }
}

/// Whether candidates are those addresses that were found and not tried, in their order.
pub open spec fn newly_found(found: Seq<IpAddr>, tried: Seq<IpAddr>, cs: Seq<IpAddr>) -> bool {
    ip_order(cs) && forall|x: IpAddr| #[trigger]
        cs.contains(x) <==> found.contains(x) && !tried.contains(x)
}

/// A search for the fastest addresses of the edge: those that are known beforehand, and
/// where none of them answers, those that can be found.
pub struct EdgeHunt {
    candidates: Vec<IpAddr>,
    stage: HuntStage,
    fresh: bool,
}

impl View for EdgeHunt {
    type V = HuntView;

    closed spec fn view(&self) -> HuntView {
        HuntView { candidates: self.candidates@, stage: self.stage, fresh: self.fresh }
    }
}

impl EdgeHunt {
    /// No candidate stands twice.
    pub open spec fn wf(&self) -> bool {
        self@.candidates.no_duplicates()
    }

    /// A search begins by asking those that are known beforehand over QUIC.
    pub fn new() -> (r: EdgeHunt)
        ensures
            r.wf(),
            r@ == (HuntView { candidates: builtin(20), stage: HuntStage::Quic, fresh: false }),
    {
        EdgeHunt { candidates: builtin_candidates(), stage: HuntStage::Quic, fresh: false }
    }

    /// Who is asked.
    pub fn candidates(&self) -> (r: &Vec<IpAddr>)
        ensures
            r@ == self@.candidates,
    {
        &self.candidates
    }

    /// How far the search has come.
    pub fn stage(&self) -> (r: HuntStage)
        ensures
            r == self@.stage,
    {
        self.stage
    }

    /// A round has ended: for each candidate, how long its answer took in nanoseconds,
    /// where it came.
    pub fn measured(&mut self, answers: &[Option<u64>], elapsed_ms: u64) -> (r: HuntStep)
        requires
            old(self).wf(),
            old(self)@.stage is Quic || old(self)@.stage is Tcp,
            answers@.len() == old(self)@.candidates.len(),
        ensures
            final(self).wf(),
            ({
                let h = old(self)@;
                let quic = h.stage is Quic;
                let all = timed(h.candidates, answers@, quic, answers@.len() as int);
                &&& final(self)@ == (HuntView {
                    stage: stage_after(h, all.len() as int, elapsed_ms),
                    ..h
                })
                &&& match final(self)@.stage {
                    HuntStage::Quic => false,
                    HuntStage::Tcp => r == HuntStep::Probe(false),
                    HuntStage::Discover => r is Discover,
                    HuntStage::Over => r matches HuntStep::Done(v) && fastest(all, v@, PICK as int)
                        && best_of_round(h.candidates, answers@, quic, v@),
                }
            }),
            steps_left(final(self)@) < steps_left(old(self)@),
    {
        let quic = self.stage == HuntStage::Quic;
        let all = timed_list(self.candidates.as_slice(), answers, quic);
        let found: usize = all.len();
        let again = measure_next(found, !quic) == MeasureStep::Tcp;
        if again {
            self.stage = HuntStage::Tcp;
            return HuntStep::Probe(false);
        }
        if !self.fresh && discovers(found, elapsed_ms) {
            self.stage = HuntStage::Discover;
            return HuntStep::Discover;
        }
        self.stage = HuntStage::Over;
        let picked = pick_fastest(all.as_slice());
        proof {
            law_picks_come_from_one_round(self.candidates@, answers@, quic, picked@);
        }
        HuntStep::Done(picked)
    }

    /// More addresses were looked for: those that were not tried yet are asked, over
    /// QUIC first; where there are none, no edge can be reached.
    pub fn discovered(&mut self, found: &[IpAddr]) -> (r: HuntStep)
        requires
            old(self).wf(),
            old(self)@.stage is Discover,
        ensures
            final(self).wf(),
            exists|cs: Seq<IpAddr>| #[trigger]
                newly_found(found@, old(self)@.candidates, cs) && if cs.len() == 0 {
                    &&& final(self)@ == (HuntView { stage: HuntStage::Over, ..old(self)@ })
                    &&& r matches HuntStep::Done(v) && v@.len() == 0
                } else {
                    &&& final(self)@ == (HuntView {
                        candidates: cs,
                        stage: HuntStage::Quic,
                        fresh: true,
                    })
                    &&& r == HuntStep::Probe(true)
                },
            steps_left(final(self)@) < steps_left(old(self)@),
    {
        let list = collect_edges(found);
        let cs = untried(list.as_slice(), self.candidates.as_slice());
        proof {
            lemma_others(list@, self.candidates@, list@.len() as int);
            assert(newly_found(found@, self.candidates@, cs@));
            assert forall|i: int, j: int| 0 <= i < cs@.len() && 0 <= j < cs@.len() && i
                != j implies cs@[i] != cs@[j] by {
                if i < j {
                    assert(ip_before(cs@[i], cs@[j]));
                } else {
                    assert(ip_before(cs@[j], cs@[i]));
                }
            }
        }
        if cs.len() == 0 {
            self.stage = HuntStage::Over;
            return HuntStep::Done(Vec::new());
        }
        self.candidates = cs;
        self.stage = HuntStage::Quic;
        self.fresh = true;
        HuntStep::Probe(true)
    }
}

/// What was not tried keeps its order, and holds all that was not tried.
proof fn lemma_others(found: Seq<IpAddr>, tried: Seq<IpAddr>, n: int)
    requires
        0 <= n <= found.len(),
        ip_order(found),
    ensures
        ip_order(others(found, tried, n)),
        forall|x: IpAddr| #[trigger]
            others(found, tried, n).contains(x) <==> found.take(n).contains(x) && !tried.contains(x),
        n == found.len() ==> forall|x: IpAddr| #[trigger]
            others(found, tried, n).contains(x) <==> found.contains(x) && !tried.contains(x),
    decreases n,
{
    assert(found.take(found.len() as int) =~= found);
    if n > 0 {
        lemma_others(found, tried, n - 1);
        let before = others(found, tried, n - 1);
        let now = others(found, tried, n);
        let last = found[n - 1];
        assert(found.take(n) =~= found.take(n - 1).push(last));
        assert forall|x: IpAddr| #[trigger] found.take(n).contains(x) <==> found.take(
            n - 1,
        ).contains(x) || x == last by {
            let a = found.take(n - 1);
            if a.contains(x) {
                let i = choose|i: int| 0 <= i < a.len() && a[i] == x;
                assert(found.take(n)[i] == x);
            }
            if x == last {
                assert(found.take(n)[n - 1] == x);
            }
        }
        if !tried.contains(last) {
            assert forall|i: int, j: int| 0 <= i < j < now.len() implies ip_before(
                #[trigger] now[i],
                #[trigger] now[j],
            ) by {
                if j == now.len() - 1 {
                    assert(before[i] == now[i]);
                    assert(before.contains(now[i]));
                    let a = found.take(n - 1);
                    let k = choose|k: int| 0 <= k < a.len() && a[k] == now[i];
                    assert(found[k] == now[i]);
                    assert(ip_before(found[k], found[n - 1]));
                } else {
                    assert(before[i] == now[i] && before[j] == now[j]);
                }
            }
            assert forall|x: IpAddr| #[trigger] now.contains(x) <==> before.contains(x) || x
                == last by {
                if before.contains(x) {
                    let i = choose|i: int| 0 <= i < before.len() && before[i] == x;
                    assert(now[i] == x);
                }
                if x == last {
                    assert(now[now.len() - 1] == x);
                }
                if now.contains(x) {
                    let i = choose|i: int| 0 <= i < now.len() && now[i] == x;
                    if i < before.len() {
                        assert(before[i] == x);
                    }
                }
            }
        }
    }
}

/// What is left to try is each edge found that was not tried yet, in its order.
pub proof fn law_each_new_edge_is_tried(found: Seq<IpAddr>, tried: Seq<IpAddr>, ip: IpAddr)
    ensures
        others(found.push(ip), tried, found.len() as int + 1) == if tried.contains(ip) {
            others(found, tried, found.len() as int)
        } else {
            others(found, tried, found.len() as int).push(ip)
        },
        others(seq![], tried, 0) == Seq::<IpAddr>::empty(),
{
    lemma_others_before(found, tried, ip, found.len() as int);
}

/// What is left of the first edges does not depend on those behind them.
proof fn lemma_others_before(found: Seq<IpAddr>, tried: Seq<IpAddr>, ip: IpAddr, n: int)
    requires
        0 <= n <= found.len(),
    ensures
        others(found.push(ip), tried, n) == others(found, tried, n),
    decreases n,
{
    if n > 0 {
        lemma_others_before(found, tried, ip, n - 1);
        assert(found.push(ip)[n - 1] == found[n - 1]);
    }
}

/// The edges known from the start are the addresses of the list, all of them and no other.
pub proof fn law_edges_known_from_the_start(n: int, ip: IpAddr)
    requires
        0 <= n <= 20,
    ensures
        builtin(n).contains(ip) <==> exists|i: int|
            0 <= i < n && ip is V4 && addr::ipv4((#[trigger] BUILTIN_V4@[i])@) == Some(ip->V4_0),
    decreases n,
{
    if n > 0 {
        law_edges_known_from_the_start(n - 1, ip);
        let b = builtin(n - 1);
        if let Some(a) = addr::ipv4(BUILTIN_V4@[n - 1]@) {
            let x = IpAddr::V4(a);
            let c = b.push(x);
            assert(c[b.len() as int] == x);
            if b.contains(ip) {
                assert(c[b.index_of(ip)] == ip);
            }
            if c.contains(ip) && ip != x {
                assert(b[c.index_of(ip)] == ip);
            }
            if ip == x {
                assert(addr::ipv4(BUILTIN_V4@[n - 1]@) == Some(ip->V4_0));
            }
        }
    }
}

/// Names are asked for the way the tunnel goes first, and the other way after that.
pub proof fn law_where_names_are_asked()
    ensures
        servers(Egress::Proxied).len() == 2 && servers(Egress::Direct).len() == 2,
        servers(Egress::Proxied)[0].1 is Proxied && servers(Egress::Proxied)[1].1 is Direct,
        servers(Egress::Direct)[0].1 is Direct && servers(Egress::Direct)[1].1 is Proxied,
        servers(Egress::Direct)[0] == servers(Egress::Proxied)[1],
        servers(Egress::Direct)[1] == servers(Egress::Proxied)[0],
        servers(Egress::Direct)[0].0 == DNS_DIRECT@,
        servers(Egress::Proxied)[0].0 == DNS_VIA_PROXY@,
{
}

/// The packet that asks for versions: its first byte, a version that nobody speaks, both
/// identifiers behind their lengths, and nothing but noughts up to its full size.
pub proof fn law_layout_of_a_probe(a: Seq<u8>, b: Seq<u8>, i: int)
    requires
        a.len() == 8,
        b.len() == 8,
    ensures
        ({
            let p = vn_packet(a, b);
            &&& p.len() == 1200
            &&& p[0] == 0xc0
            &&& p.subrange(1, 5) == seq![0x0au8, 0x0a, 0x0a, 0x0a]
            &&& p[5] == 8 && p.subrange(6, 14) == a
            &&& p[14] == 8 && p.subrange(15, 23) == b
            &&& 23 <= i < 1200 ==> p[i] == 0
        }),
{
    let p = vn_packet(a, b);
    assert(p.subrange(1, 5) =~= seq![0x0au8, 0x0a, 0x0a, 0x0a]);
    assert(p.subrange(6, 14) =~= a);
    assert(p.subrange(15, 23) =~= b);
}

/// An answer that tells versions has a long header and version nought.
pub proof fn law_answers_that_tell_versions(first: u8, rest: Seq<u8>, b: Seq<u8>)
    ensures
        tells_versions(seq![first, 0, 0, 0, 0] + rest) <==> first >= 0x80,
        b.len() < 5 ==> !tells_versions(b),
        b.len() >= 5 && b.subrange(1, 5) != seq![0u8, 0, 0, 0] ==> !tells_versions(b),
{
    if tells_versions(b) {
        assert(b.subrange(1, 5) =~= seq![0u8, 0, 0, 0]);
    }
}

/// The first answer with anything in it is taken.
pub proof fn law_first_answer_with_anything(answers: Seq<Option<Vec<String>>>, k: int)
    requires
        0 <= k < answers.len(),
        answers[k] is Some,
        answers[k]->0@.len() > 0,
        forall|j: int|
            0 <= j < k ==> (#[trigger] answers[j]) is None || answers[j]->0@.len() == 0,
    ensures
        first_filled(answers, 0) == text::strings(answers[k]->0@),
{
    lemma_filled_from(answers, 0, k);
}

/// Answers with nothing in them are passed over.
proof fn lemma_filled_from(answers: Seq<Option<Vec<String>>>, i: int, k: int)
    requires
        0 <= i <= k <= answers.len(),
        forall|j: int|
            0 <= j < k ==> (#[trigger] answers[j]) is None || answers[j]->0@.len() == 0,
    ensures
        first_filled(answers, i) == first_filled(answers, k),
    decreases k - i,
{
    if i < k {
        assert(answers[i] is None || answers[i]->0@.len() == 0);
        lemma_filled_from(answers, i + 1, k);
    }
}

/// Each edge that answered is taken with its own time; one that did not is left out.
pub proof fn law_times_belong_to_their_edges(
    cs: Seq<IpAddr>,
    answers: Seq<Option<u64>>,
    ip: IpAddr,
    t: u64,
    quic: bool,
)
    requires
        cs.len() == answers.len(),
    ensures
        ({
            let n = cs.len() as int;
            let before = timed(cs, answers, quic, n);
            &&& timed(cs.push(ip), answers.push(None), quic, n + 1) == before
            &&& timed(cs.push(ip), answers.push(Some(t)), quic, n + 1) == before.push(
                EdgeRtt { ip, rtt_ns: t, quic },
            )
        }),
{
    lemma_timed_before(cs, answers, ip, None, quic, cs.len() as int);
    lemma_timed_before(cs, answers, ip, Some(t), quic, cs.len() as int);
}

/// The times of the first edges do not depend on those behind them.
proof fn lemma_timed_before(
    cs: Seq<IpAddr>,
    answers: Seq<Option<u64>>,
    ip: IpAddr,
    t: Option<u64>,
    quic: bool,
    n: int,
)
    requires
        cs.len() == answers.len(),
        0 <= n <= cs.len(),
    ensures
        timed(cs.push(ip), answers.push(t), quic, n) == timed(cs, answers, quic, n),
    decreases n,
{
    if n > 0 {
        lemma_timed_before(cs, answers, ip, t, quic, n - 1);
        assert(cs.push(ip)[n - 1] == cs[n - 1]);
        assert(answers.push(t)[n - 1] == answers[n - 1]);
    }
}

/// A hunt is over with the first answers. Without any, QUIC is followed by TCP, and TCP by
/// looking for other edges, but only once and only while there is time.
pub proof fn law_how_a_hunt_goes_on(h: HuntView, n: int, elapsed_ms: u64)
    ensures
        n > 0 ==> stage_after(h, n, elapsed_ms) is Over,
        n <= 0 && h.stage is Quic ==> stage_after(h, n, elapsed_ms) is Tcp,
        n <= 0 && h.stage is Tcp && !h.fresh && elapsed_ms < ROUND_BUDGET_MS ==> stage_after(
            h,
            n,
            elapsed_ms,
        ) is Discover,
        n <= 0 && h.stage is Tcp && (h.fresh || elapsed_ms >= ROUND_BUDGET_MS) ==> stage_after(
            h,
            n,
            elapsed_ms,
        ) is Over,
{
}

/// Addresses stand in the order of their numbers, IPv4 before IPv6.
pub proof fn law_order_of_addresses(a: u32, b: u32, x: u128, y: u128)
    ensures
        ip_before(IpAddr::V4(a), IpAddr::V4(b)) <==> a < b,
        ip_before(IpAddr::V6(x), IpAddr::V6(y)) <==> x < y,
        ip_before(IpAddr::V4(a), IpAddr::V6(x)),
        !ip_before(IpAddr::V6(x), IpAddr::V4(a)),
{
}

/// An edge is shown with its address and its time in whole thousandths of a second, and a
/// mark where it was reached over TCP.
pub proof fn law_how_an_edge_is_shown(ip: IpAddr, ms: u64, rest: u64)
    requires
        rest < 1_000_000,
        ms * 1_000_000 + rest <= u64::MAX,
    ensures
        pick_text(EdgeRtt { ip, rtt_ns: (ms * 1_000_000 + rest) as u64, quic: true })
            == addr::ip_text(ip) + "="@ + text::decimal(ms as int) + "ms"@,
        pick_text(EdgeRtt { ip, rtt_ns: (ms * 1_000_000 + rest) as u64, quic: false })
            == addr::ip_text(ip) + "="@ + text::decimal(ms as int) + "ms"@ + "/tcp"@,
{
    reveal_strlit("");
    let t = addr::ip_text(ip) + "="@ + text::decimal(ms as int) + "ms"@;
    assert(t + ""@ =~= t);
}

/// The edges that are taken are the fastest: none that was left out was faster, and of two
/// that were as fast the one found first comes first.
pub proof fn law_fastest_are_taken(all: Seq<EdgeRtt>, at: Seq<int>, i: int, j: int)
    requires
        all_places(at, all.len() as int),
        by_time(all, at),
        0 <= i < j < at.len(),
    ensures
        all[at[i]].rtt_ns <= all[at[j]].rtt_ns,
        all[at[i]].rtt_ns == all[at[j]].rtt_ns ==> at[i] < at[j],
        0 <= at[i] < all.len() && at[i] != at[j],
{
}

} // verus!
