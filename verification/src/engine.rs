//! What is done with a connection that came in.

use crate::addr::{IpAddr, SocketAddr};
use crate::inbound_proxy::Established;
use crate::ip_rules;
use crate::logging;
use crate::records;
use crate::records::InboundKind;
use crate::runtime::RouteFlags;
use crate::text;
use vstd::prelude::*;

verus! {

/// What the first bytes of a connection were found to speak.
#[derive(Debug, Clone, Copy, PartialEq, Eq, Structural)]
pub enum Proto {
    Tls,
    Http,
    Bittorrent,
    Unknown,
}

/// What the first bytes of a connection tell.
pub struct Sniffed {
    pub proto: Proto,
    /// The name that they hold.
    pub domain: Option<String>,
    /// The name is the cover name of an encrypted one.
    pub ech_outer: bool,
}

/// What the pool of made-up addresses knows of an address.
pub struct FakeIp {
    /// The address belongs to the pool.
    pub inside: bool,
    /// The name that the address was given out for.
    pub domain: Option<String>,
}

/// The names that a connection goes by.
pub struct ResolvedDomains {
    /// The name by which it is sent on.
    pub routing: Option<String>,
    /// The name under which it is counted.
    pub stats: Option<String>,
    /// Its address was made up, and nobody knows for which name.
    pub fakeip_unresolved: bool,
}

/// The names that a connection goes by, as values.
#[verifier::ext_equal]
pub struct ResolvedView {
    pub routing: Option<Seq<char>>,
    pub stats: Option<Seq<char>>,
    pub fakeip_unresolved: bool,
}

impl View for ResolvedDomains {
    type V = ResolvedView;

    open spec fn view(&self) -> ResolvedView {
        ResolvedView {
            routing: text::opt_string(self.routing),
            stats: text::opt_string(self.stats),
            fakeip_unresolved: self.fakeip_unresolved,
        }
    }
}

/// The name that the pool of made-up addresses gives for an address.
pub open spec fn looked_back(fakeip: Option<FakeIp>) -> Option<Seq<char>> {
    match fakeip {
        Some(f) => text::opt_string(f.domain),
        None => None,
    }
}

/// The names that a connection goes by. A name from the handshake comes first.
/// For a made-up address the name in the first bytes comes next and then the one
/// of the pool; for any other address the name in the first bytes, unless it is a
/// cover name.
pub open spec fn resolved(
    handshake: Option<Seq<char>>,
    sniffed: Sniffed,
    fakeip: Option<FakeIp>,
    dest: SocketAddr,
) -> ResolvedView {
    let inside = fakeip matches Some(f) && f.inside;
    let seen = text::opt_string(sniffed.domain);
    let asks_pool = handshake is None && inside && seen is None && dest.ip is V4;
    let routing = if handshake is Some {
        handshake
    } else if asks_pool {
        looked_back(fakeip)
    } else if inside || !sniffed.ech_outer {
        seen
    } else {
        None
    };
    ResolvedView {
        routing,
        stats: if routing is Some {
            routing
        } else {
            seen
        },
        fakeip_unresolved: asks_pool && looked_back(fakeip) is None,
    }
}

/// A copy of a text that may be missing.
fn copied(s: &Option<String>) -> (r: Option<String>)
    ensures
        text::opt_string(r) == text::opt_string(*s),
{
    match s {
        Some(t) => Some(t.clone()),
        None => None,
    }
}

/// The names that a connection goes by.
pub fn resolve_domains(
    handshake: Option<String>,
    sniffed: &Sniffed,
    fakeip: Option<&FakeIp>,
    dest: SocketAddr,
) -> (r: ResolvedDomains)
    ensures
        r@ == resolved(
            text::opt_string(handshake),
            *sniffed,
            match fakeip {
                Some(f) => Some(*f),
                None => None,
            },
            dest,
        ),
{
    let mut fakeip_unresolved = false;
    let inside = match fakeip {
        Some(f) => f.inside,
        None => false,
    };
    let routing = match handshake {
        Some(d) => Some(d),
        None => if inside {
            match &sniffed.domain {
                Some(d) => Some(d.clone()),
                None => match (fakeip, dest.ip) {
                    (Some(f), IpAddr::V4(_)) => match &f.domain {
                        Some(d) => Some(d.clone()),
                        None => {
                            fakeip_unresolved = true;
                            None
                        },
                    },
                    _ => None,
                },
            }
        } else if !sniffed.ech_outer {
            copied(&sniffed.domain)
        } else {
            None
        },
    };
    let stats = match &routing {
        Some(d) => Some(d.clone()),
        None => copied(&sniffed.domain),
    };
    ResolvedDomains { routing, stats, fakeip_unresolved }
}

/// A connection has a name to be counted under wherever it has one to be sent on
/// by, and then they are the same.
pub proof fn law_counted_as_routed(
    handshake: Option<Seq<char>>,
    sniffed: Sniffed,
    fakeip: Option<FakeIp>,
    dest: SocketAddr,
)
    ensures
        resolved(handshake, sniffed, fakeip, dest).routing is Some ==> resolved(
            handshake,
            sniffed,
            fakeip,
            dest,
        ).stats == resolved(handshake, sniffed, fakeip, dest).routing,
        handshake is Some ==> resolved(handshake, sniffed, fakeip, dest).routing == handshake,
        resolved(handshake, sniffed, fakeip, dest).fakeip_unresolved ==> resolved(
            handshake,
            sniffed,
            fakeip,
            dest,
        ).routing is None,
{
}

/// What a connection counts as when its first bytes told nothing.
pub fn unknown_label(inbound: InboundKind, has_domain: bool, port: u16) -> (r: records::SniffedProto)
    ensures
        r == untold(inbound, has_domain, port),
{
    match inbound {
        InboundKind::HealthCheck => if port == 80 || port == 8080 {
            records::SniffedProto::Http
        } else {
            records::SniffedProto::Tls
        },
        InboundKind::Socks5 => records::SniffedProto::Socks5,
        InboundKind::Http => records::SniffedProto::HttpProxy,
        InboundKind::TProxy => if has_domain {
            records::SniffedProto::FakeIp
        } else {
            records::SniffedProto::RealIp
        },
        InboundKind::Clash(_) => records::SniffedProto::Unknown,
    }
}

/// What a connection counts as when its first bytes told nothing: by its port for
/// a health check, and else by the way it came in.
pub open spec fn untold(inbound: InboundKind, has_domain: bool, port: u16) -> records::SniffedProto {
    match inbound {
        InboundKind::HealthCheck => if port == 80 || port == 8080 {
            records::SniffedProto::Http
        } else {
            records::SniffedProto::Tls
        },
        InboundKind::Socks5 => records::SniffedProto::Socks5,
        InboundKind::Http => records::SniffedProto::HttpProxy,
        InboundKind::TProxy => if has_domain {
            records::SniffedProto::FakeIp
        } else {
            records::SniffedProto::RealIp
        },
        InboundKind::Clash(_) => records::SniffedProto::Unknown,
    }
}

/// What a connection counts as: its group of addresses first, then its port, then
/// what its first bytes speak.
pub open spec fn counted_as(
    ip_group: Option<&'static str>,
    port_skip: bool,
    proto: Proto,
    inbound: InboundKind,
    has_domain: bool,
    port: u16,
) -> records::SniffedProto {
    if ip_group is Some {
        records::SniffedProto::IpGroup(ip_group->0)
    } else if port_skip {
        records::SniffedProto::Skipped
    } else {
        match proto {
            Proto::Tls => records::SniffedProto::Tls,
            Proto::Http => records::SniffedProto::Http,
            Proto::Bittorrent => records::SniffedProto::Bittorrent,
            Proto::Unknown => untold(inbound, has_domain, port),
        }
    }
}

/// What a connection counts as.
pub fn label(
    ip_group: Option<&'static str>,
    port_skip: bool,
    proto: Proto,
    inbound: InboundKind,
    has_domain: bool,
    port: u16,
) -> (r: records::SniffedProto)
    ensures
        r == counted_as(ip_group, port_skip, proto, inbound, has_domain, port),
{
    match ip_group {
        Some(l) => records::SniffedProto::IpGroup(l),
        None => if port_skip {
            records::SniffedProto::Skipped
        } else {
            match proto {
                Proto::Tls => records::SniffedProto::Tls,
                Proto::Http => records::SniffedProto::Http,
                Proto::Bittorrent => records::SniffedProto::Bittorrent,
                Proto::Unknown => unknown_label(inbound, has_domain, port),
            }
        },
    }
}

/// The scheme under which a connection is logged.
pub fn proto_scheme(p: Proto) -> (r: Option<&'static str>)
    ensures
        text::opt_str(r) == scheme_of(p),
{
    match p {
        Proto::Tls => Some("tls"),
        Proto::Http => Some("http"),
        Proto::Bittorrent => Some("bt"),
        Proto::Unknown => None,
    }
}

/// Ports of protocols in which the server speaks first: FTP, SSH, Telnet, SMTP,
/// POP3, IMAP and mail submission.
pub open spec fn server_speaks_first(port: u16) -> bool {
    ||| port == 21
    ||| port == 22
    ||| port == 23
    ||| port == 25
    ||| port == 110
    ||| port == 143
    ||| port == 587
}

/// Whether a port is one of a protocol in which the server speaks first.
pub fn is_server_first_port(port: u16) -> (r: bool)
    ensures
        r == server_speaks_first(port),
{
    matches!(port, 21 | 22 | 23 | 25 | 110 | 143 | 587)
}

/// A first byte with which a known protocol can start: a TLS handshake, the
/// length of a BitTorrent handshake, or a letter of an HTTP method.
pub open spec fn known_start(b: u8) -> bool {
    ||| b == 0x16
    ||| b == 0x13
    ||| b == 71
    ||| b == 80
    ||| b == 72
    ||| b == 68
    ||| b == 79
}

/// Whether a known protocol can start with a byte.
pub fn could_start_known_proto(b: u8) -> (r: bool)
    ensures
        r == known_start(b),
{
    b == 0x16 || b == 0x13 || b == 71 || b == 80 || b == 72 || b == 68 || b == 79
}

/// Whether the first bytes of a connection are looked at: the caller wants it, the
/// client speaks first, the address belongs to no group, and they did not tell
/// nothing a moment ago.
pub fn looks_inside(sniff: bool, port: u16, ip_group: Option<&'static str>, told_nothing: bool) -> (r:
    bool)
    ensures
        r == (sniff && !server_speaks_first(port) && ip_group is None && !told_nothing),
{
    sniff && !is_server_first_port(port) && ip_group.is_none() && !told_nothing
}

/// Why a connection is refused.
#[derive(Debug, Clone, Copy, PartialEq, Eq, Structural)]
pub enum Block {
    FakeIpUnresolved,
    Bittorrent,
    Unknown,
}

impl Block {
    /// The word for it in the log.
    pub fn reason(self) -> (r: &'static str)
        ensures
            r@ == reason_of(self),
    {
        match self {
            Block::FakeIpUnresolved => "fakeip-unresolved",
            Block::Bittorrent => "bittorrent",
            Block::Unknown => "unknown",
        }
    }
}

/// Whether and why a connection is refused. An address of a known group never is.
pub open spec fn refusal(
    route: RouteFlags,
    in_group: bool,
    unresolved: bool,
    proto: Proto,
    known_domain: bool,
) -> Option<Block> {
    if in_group {
        None
    } else if unresolved {
        Some(Block::FakeIpUnresolved)
    } else if proto is Bittorrent && route.block_bittorrent {
        Some(Block::Bittorrent)
    } else if proto is Unknown && route.block_unknown && !known_domain {
        Some(Block::Unknown)
    } else {
        None
    }
}

/// Whether and why a connection is refused.
pub fn should_block(
    route: RouteFlags,
    in_group: bool,
    unresolved: bool,
    proto: Proto,
    known_domain: bool,
) -> (r: Option<Block>)
    ensures
        r == refusal(route, in_group, unresolved, proto, known_domain),
{
    if in_group {
        return None;
    }
    if unresolved {
        return Some(Block::FakeIpUnresolved);
    }
    match proto {
        Proto::Bittorrent => if route.block_bittorrent {
            Some(Block::Bittorrent)
        } else {
            None
        },
        Proto::Unknown => if route.block_unknown && !known_domain {
            Some(Block::Unknown)
        } else {
            None
        },
        _ => None,
    }
}

/// With every switch off, only a made-up address without a name is refused.
pub proof fn law_nothing_blocked_unasked(
    route: RouteFlags,
    in_group: bool,
    proto: Proto,
    known_domain: bool,
)
    requires
        !route.block_bittorrent,
        !route.block_unknown,
    ensures
        refusal(route, in_group, false, proto, known_domain) is None,
{
}

/// How a connection is looked at before it is served.
#[derive(Debug, Clone, Copy)]
pub struct Look {
    /// The label of the group of its address.
    pub ip_group: Option<&'static str>,
    /// Its port is one of a protocol in which the server speaks first.
    pub port_skip: bool,
    /// Its first bytes are looked at.
    pub inside: bool,
}

/// How a connection is looked at before it is served. `told_nothing` says that the first
/// bytes of another one to the same address told nothing a moment ago.
pub fn look_plan(est: &Established, told_nothing: bool) -> (r: Look)
    ensures
        text::opt_str(r.ip_group) == ip_rules::group_of(est.dest.ip),
        r.port_skip == server_speaks_first(est.dest.port),
        r.inside == (est.sniff && !server_speaks_first(est.dest.port) && ip_rules::group_of(
            est.dest.ip,
        ) is None && !told_nothing),
{
    let ip_group = ip_rules::match_group(est.dest.ip);
    Look {
        ip_group,
        port_skip: is_server_first_port(est.dest.port),
        inside: looks_inside(est.sniff, est.dest.port, ip_group, told_nothing),
    }
}

/// What is done with a connection once its first bytes are known.
pub struct Served {
    /// It is noted that the first bytes to this address tell nothing.
    pub told_nothing: bool,
    /// The line about it in the log.
    pub flow: Option<String>,
    /// The line that says why it is refused; where there is none, it is served.
    pub refused: Option<String>,
    /// The name by which it is sent on.
    pub routing: Option<String>,
    /// The name under which it is counted.
    pub stats: Option<String>,
    /// What it counts as.
    pub label: records::SniffedProto,
    /// Its first bytes are kept to be shown.
    pub keep_head: bool,
}

/// What is done with a connection, as values.
#[verifier::ext_equal]
pub struct ServedView {
    pub told_nothing: bool,
    pub flow: Option<Seq<char>>,
    pub refused: Option<Seq<char>>,
    pub routing: Option<Seq<char>>,
    pub stats: Option<Seq<char>>,
    pub label: records::SniffedProto,
    pub keep_head: bool,
}

impl View for Served {
    type V = ServedView;

    open spec fn view(&self) -> ServedView {
        ServedView {
            told_nothing: self.told_nothing,
            flow: text::opt_string(self.flow),
            refused: text::opt_string(self.refused),
            routing: text::opt_string(self.routing),
            stats: text::opt_string(self.stats),
            label: self.label,
            keep_head: self.keep_head,
        }
    }
}

/// The scheme under which a connection is logged.
pub open spec fn scheme_of(p: Proto) -> Option<Seq<char>> {
    match p {
        Proto::Tls => Some("tls"@),
        Proto::Http => Some("http"@),
        Proto::Bittorrent => Some("bt"@),
        Proto::Unknown => None,
    }
}

/// The word for a refusal in the log.
pub open spec fn reason_of(b: Block) -> Seq<char> {
    match b {
        Block::FakeIpUnresolved => "fakeip-unresolved"@,
        Block::Bittorrent => "bittorrent"@,
        Block::Unknown => "unknown"@,
    }
}

/// What is done with a connection once its first bytes are known: it gets its names, is
/// logged where that is asked for, and is refused or counted.
pub open spec fn served(
    est: Established,
    client: IpAddr,
    look: Look,
    sniffed: Sniffed,
    peeked: int,
    fakeip: Option<FakeIp>,
    route: RouteFlags,
    ansi: bool,
) -> ServedView {
    let names = resolved(text::opt_string(est.domain), sniffed, fakeip, est.dest);
    let line = logging::flow_text(
        ansi,
        client,
        est.dest,
        scheme_of(sniffed.proto),
        names.stats,
        false,
    );
    ServedView {
        told_nothing: look.inside && sniffed.proto is Unknown,
        flow: if route.log_sniffed {
            Some(line)
        } else {
            None
        },
        refused: match refusal(
            route,
            look.ip_group is Some,
            names.fakeip_unresolved,
            sniffed.proto,
            est.domain is Some,
        ) {
            Some(b) => Some(
                line + " "@ + logging::painted(ansi, logging::RED@, "blocked"@) + " ("@ + reason_of(b)
                    + ")"@,
            ),
            None => None,
        },
        routing: names.routing,
        stats: names.stats,
        label: counted_as(
            look.ip_group,
            look.port_skip,
            sniffed.proto,
            est.inbound,
            names.stats is Some,
            est.dest.port,
        ),
        keep_head: sniffed.proto is Unknown && peeked > 0,
    }
}

/// What is done with a connection once its first bytes are known.
pub fn serve_established(
    est: &Established,
    client: IpAddr,
    look: Look,
    sniffed: &Sniffed,
    peeked: usize,
    fakeip: Option<&FakeIp>,
    route: RouteFlags,
    ansi: bool,
) -> (r: Served)
    ensures
        r@ == served(
            *est,
            client,
            look,
            *sniffed,
            peeked as int,
            match fakeip {
                Some(f) => Some(*f),
                None => None,
            },
            route,
            ansi,
        ),
{
    let known_domain = est.domain.is_some();
    let names = resolve_domains(copied(&est.domain), sniffed, fakeip, est.dest);
    let shown: Option<&str> = match &names.stats {
        Some(d) => Some(d.as_str()),
        None => None,
    };
    let line = logging::fmt_flow(ansi, client, est.dest, proto_scheme(sniffed.proto), shown, false);
    let refused = match should_block(
        route,
        look.ip_group.is_some(),
        names.fakeip_unresolved,
        sniffed.proto,
        known_domain,
    ) {
        Some(b) => {
            let mut out = line.clone();
            out.append(" ");
            out.append(logging::paint(ansi, logging::RED, "blocked").as_str());
            out.append(" (");
            out.append(b.reason());
            out.append(")");
            Some(out)
        },
        None => None,
    };
    let unknown = sniffed.proto == Proto::Unknown;
    Served {
        told_nothing: look.inside && unknown,
        flow: if route.log_sniffed {
            Some(line)
        } else {
            None
        },
        refused,
        label: label(
            look.ip_group,
            look.port_skip,
            sniffed.proto,
            est.inbound,
            names.stats.is_some(),
            est.dest.port,
        ),
        keep_head: unknown && peeked > 0,
        routing: names.routing,
        stats: names.stats,
    }
}

/// A connection to an address of a known group is served whatever the switches say.
pub proof fn law_groups_are_served(
    est: Established,
    client: IpAddr,
    look: Look,
    sniffed: Sniffed,
    peeked: int,
    fakeip: Option<FakeIp>,
    route: RouteFlags,
    ansi: bool,
)
    requires
        text::opt_str(look.ip_group) == ip_rules::group_of(est.dest.ip),
        ip_rules::group_of(est.dest.ip) is Some,
    ensures
        served(est, client, look, sniffed, peeked, fakeip, route, ansi).refused is None,
        served(est, client, look, sniffed, peeked, fakeip, route, ansi).label
            == records::SniffedProto::IpGroup(look.ip_group->0),
{
}

/// What is left to do when a connection is over.
#[derive(Debug, Clone, Copy)]
pub struct Farewell {
    /// The port towards the proxy that is forgotten.
    pub forget: Option<u16>,
    /// The bytes down and up that are added to the totals.
    pub totals: Option<(u64, u64)>,
}

/// What is left to do when a connection is over: its port is forgotten where it was
/// remembered, and what was not counted yet is added to the totals.
pub fn farewell(socks_port: u16, up: u64, down: u64) -> (r: Farewell)
    ensures
        r.forget == if socks_port != 0 {
            Some(socks_port)
        } else {
            None
        },
        r.totals == if up != 0 || down != 0 {
            Some((down, up))
        } else {
            None
        },
{
    Farewell {
        forget: if socks_port != 0 {
            Some(socks_port)
        } else {
            None
        },
        totals: if up != 0 || down != 0 {
            Some((down, up))
        } else {
            None
        },
    }
}

/// What happened while the first bytes were read.
#[derive(Debug, Clone, Copy, PartialEq, Eq, Structural)]
pub enum PeekEvent {
    /// Bytes came. They speak this, and this is the first byte of all.
    Read(Proto, Option<u8>),
    /// The client will send no more.
    End,
    /// The time ran out.
    Elapsed,
    /// The connection failed.
    Failed,
}

/// What is done next.
#[derive(Debug, Clone, Copy, PartialEq, Eq, Structural)]
pub enum PeekNext {
    Read,
    Stop,
    Fail,
}

/// What is done before more bytes are read: nothing more is read once the buffer
/// is full or the time has run out.
pub fn peek_ready(full: bool, time_left_ms: u64) -> (r: PeekNext)
    ensures
        r == if full || time_left_ms == 0 {
            PeekNext::Stop
        } else {
            PeekNext::Read
        },
{
    if full || time_left_ms == 0 {
        PeekNext::Stop
    } else {
        PeekNext::Read
    }
}

/// What is done after a read.
pub open spec fn peek_then(event: PeekEvent) -> PeekNext {
    match event {
        PeekEvent::Read(proto, first) => if proto !is Unknown {
            PeekNext::Stop
        } else if first matches Some(b) && !known_start(b) {
            PeekNext::Stop
        } else {
            PeekNext::Read
        },
        PeekEvent::End => PeekNext::Stop,
        PeekEvent::Elapsed => PeekNext::Stop,
        PeekEvent::Failed => PeekNext::Fail,
    }
}

/// What is done after a read: reading stops as soon as the protocol is known, or
/// as soon as the first byte rules every known protocol out.
pub fn peek_after(event: PeekEvent) -> (r: PeekNext)
    ensures
        r == peek_then(event),
{
    match event {
        PeekEvent::Read(proto, first) => {
            if proto != Proto::Unknown {
                return PeekNext::Stop;
            }
            match first {
                Some(b) => if could_start_known_proto(b) {
                    PeekNext::Read
                } else {
                    PeekNext::Stop
                },
                None => PeekNext::Read,
            }
        },
        PeekEvent::End => PeekNext::Stop,
        PeekEvent::Elapsed => PeekNext::Stop,
        PeekEvent::Failed => PeekNext::Fail,
    }
}

/// How the two ends of a connection are joined.
#[derive(Debug, Clone, Copy, PartialEq, Eq, Structural)]
pub struct Relay {
    /// The port towards the proxy, where it is to be remembered.
    pub remember: Option<u16>,
    /// The bytes of the handshake are sent first.
    pub send_prelude: bool,
    /// The bytes that were looked at are sent before the copying starts.
    pub send_peeked: bool,
    /// The bytes that were looked at are copied with the rest.
    pub replay_peeked: bool,
    /// The kernel copies.
    pub splice: bool,
}

/// How the two ends of a connection are joined. What was looked at reaches the
/// other end once: ahead of the copying where the kernel copies, else as its
/// first part.
pub fn relay_plan(local_port: u16, prelude: usize, peeked: usize, splice: bool) -> (r: Relay)
    ensures
        r.remember == if local_port != 0 {
            Some(local_port)
        } else {
            None
        },
        r.send_prelude == (prelude > 0),
        r.splice == splice,
        r.send_peeked == (splice && peeked > 0),
        r.replay_peeked == !splice,
{
    Relay {
        remember: if local_port != 0 {
            Some(local_port)
        } else {
            None
        },
        send_prelude: prelude > 0,
        send_peeked: splice && peeked > 0,
        replay_peeked: !splice,
        splice,
    }
}

/// How far the joining of two ends has come.
#[derive(Debug, Clone, Copy, PartialEq, Eq, Structural)]
pub enum RelayStage {
    /// The other end is connected to.
    Connect,
    /// The bytes of the handshake are sent.
    Prelude,
    /// The bytes that were looked at are sent.
    Peeked,
    /// Bytes are copied either way.
    Copy,
    /// It is over.
    Over,
}

/// What happened while two ends are joined.
#[derive(Debug, Clone, Copy, PartialEq, Eq, Structural)]
pub enum RelayEvent {
    /// The other end is connected; this is the own port towards it, or zero.
    Connected(u16),
    /// The other end cannot be reached.
    Unreachable,
    /// Bytes were sent.
    Sent,
    /// Bytes could not be sent.
    NotSent,
    /// The copying ended, well or not.
    Ended,
}

/// What is done next while two ends are joined.
#[derive(Debug, Clone, Copy, PartialEq, Eq, Structural)]
pub enum RelayStep {
    /// Send the bytes of the handshake.
    SendPrelude,
    /// Send the bytes that were looked at.
    SendPeeked,
    /// Copy either way. The bytes that were looked at are copied first where this says so,
    /// and the kernel copies where they are not.
    Copy { replay: bool },
    /// Close the ends as this says. The connection was served, whatever went wrong.
    Close { client: bool, other: bool },
}

/// What follows an event: the port that is remembered, the bytes that are counted as sent,
/// and what is done next.
#[derive(Debug, Clone, Copy, PartialEq, Eq, Structural)]
pub struct RelayMove {
    pub remember: Option<u16>,
    pub sent: usize,
    pub step: RelayStep,
}

/// The joining of two ends: how far it has come, how many bytes the handshake and the look
/// at the client left over, and whether the kernel copies.
#[derive(Debug, Clone, Copy, PartialEq, Eq, Structural)]
pub struct RelayRun {
    pub stage: RelayStage,
    pub prelude: usize,
    pub peeked: usize,
    pub splice: bool,
}

/// A joining at a later stage, and a step with nothing to remember or to count.
pub open spec fn relay_at(run: RelayRun, stage: RelayStage, step: RelayStep) -> (
    RelayRun,
    RelayMove,
) {
    (RelayRun { stage, ..run }, RelayMove { remember: None, sent: 0, step })
}

/// How the copying begins: where the kernel copies, what was looked at is sent before.
pub open spec fn relay_copy(run: RelayRun) -> (RelayRun, RelayMove) {
    if run.splice && run.peeked > 0 {
        relay_at(run, RelayStage::Peeked, RelayStep::SendPeeked)
    } else {
        relay_at(run, RelayStage::Copy, RelayStep::Copy { replay: !run.splice })
    }
}

/// What follows an event of a joining. One that does not belong where it is closes both
/// ends.
pub open spec fn relay_after(run: RelayRun, e: RelayEvent) -> (RelayRun, RelayMove) {
    match (run.stage, e) {
        (RelayStage::Connect, RelayEvent::Connected(port)) => {
            let remember = if port != 0 {
                Some(port)
            } else {
                None
            };
            let (next, m) = if run.prelude > 0 {
                relay_at(run, RelayStage::Prelude, RelayStep::SendPrelude)
            } else {
                relay_copy(run)
            };
            (next, RelayMove { remember, ..m })
        },
        (RelayStage::Connect, RelayEvent::Unreachable) => relay_at(
            run,
            RelayStage::Over,
            RelayStep::Close { client: true, other: false },
        ),
        (RelayStage::Prelude, RelayEvent::Sent) => {
            let (next, m) = relay_copy(run);
            (next, RelayMove { sent: run.prelude, ..m })
        },
        (RelayStage::Peeked, RelayEvent::Sent) => {
            let (next, m) = relay_at(run, RelayStage::Copy, RelayStep::Copy { replay: false });
            (next, RelayMove { sent: run.peeked, ..m })
        },
        (RelayStage::Copy, RelayEvent::Ended) => relay_at(
            run,
            RelayStage::Over,
            RelayStep::Close { client: false, other: false },
        ),
        _ => relay_at(run, RelayStage::Over, RelayStep::Close { client: true, other: true }),
    }
}

/// How many stages are left at most.
pub open spec fn relay_left(s: RelayStage) -> int {
    match s {
        RelayStage::Connect => 4,
        RelayStage::Prelude => 3,
        RelayStage::Peeked => 2,
        RelayStage::Copy => 1,
        RelayStage::Over => 0,
    }
}

impl RelayRun {
    /// A joining begins by connecting to the other end.
    pub fn new(prelude: usize, peeked: usize, splice: bool) -> (r: RelayRun)
        ensures
            r == (RelayRun { stage: RelayStage::Connect, prelude, peeked, splice }),
    {
        RelayRun { stage: RelayStage::Connect, prelude, peeked, splice }
    }

    /// A joining at a later stage.
    fn at(self, stage: RelayStage, step: RelayStep) -> (r: (RelayRun, RelayMove))
        ensures
            r == relay_at(self, stage, step),
    {
        (
            RelayRun { stage, prelude: self.prelude, peeked: self.peeked, splice: self.splice },
            RelayMove { remember: None, sent: 0, step },
        )
    }

    /// How the copying begins.
    fn copies(self, plan: Relay) -> (r: (RelayRun, RelayMove))
        requires
            plan.send_peeked == (self.splice && self.peeked > 0),
            plan.replay_peeked == !self.splice,
        ensures
            r == relay_copy(self),
    {
        if plan.send_peeked {
            self.at(RelayStage::Peeked, RelayStep::SendPeeked)
        } else {
            self.at(RelayStage::Copy, RelayStep::Copy { replay: plan.replay_peeked })
        }
    }

    /// Takes an event in, and says what is done next.
    pub fn next(&mut self, event: RelayEvent) -> (r: RelayMove)
        ensures
            (*final(self), r) == relay_after(*old(self), event),
    {
        let (run, m) = match (self.stage, event) {
            (RelayStage::Connect, RelayEvent::Connected(port)) => {
                let plan = relay_plan(port, self.prelude, self.peeked, self.splice);
                let (run, m) = if plan.send_prelude {
                    self.at(RelayStage::Prelude, RelayStep::SendPrelude)
                } else {
                    self.copies(plan)
                };
                (run, RelayMove { remember: plan.remember, sent: m.sent, step: m.step })
            },
            (RelayStage::Connect, RelayEvent::Unreachable) => self.at(
                RelayStage::Over,
                RelayStep::Close { client: true, other: false },
            ),
            (RelayStage::Prelude, RelayEvent::Sent) => {
                let plan = relay_plan(0, self.prelude, self.peeked, self.splice);
                let (run, m) = self.copies(plan);
                (run, RelayMove { remember: m.remember, sent: self.prelude, step: m.step })
            },
            (RelayStage::Peeked, RelayEvent::Sent) => {
                let (run, m) = self.at(RelayStage::Copy, RelayStep::Copy { replay: false });
                (run, RelayMove { remember: m.remember, sent: self.peeked, step: m.step })
            },
            (RelayStage::Copy, RelayEvent::Ended) => self.at(
                RelayStage::Over,
                RelayStep::Close { client: false, other: false },
            ),
            _ => self.at(RelayStage::Over, RelayStep::Close { client: true, other: true }),
        };
        *self = run;
        m
    }
}

/// A joining ends after a few events, and every one of them leads to a step: an end that
/// cannot be reached closes the client alone, bytes that cannot be sent close both ends,
/// and after the copying nothing is left to be closed.
pub proof fn law_relay_ends(run: RelayRun, e: RelayEvent)
    ensures
        run.stage !is Over ==> relay_left(relay_after(run, e).0.stage) < relay_left(run.stage),
        relay_after(run, e).0.stage is Over <==> relay_after(run, e).1.step is Close,
        run.stage is Connect && e is Unreachable ==> relay_after(run, e).1.step == (
        RelayStep::Close { client: true, other: false }),
        (run.stage is Prelude || run.stage is Peeked) && e is NotSent ==> relay_after(
            run,
            e,
        ).1.step == (RelayStep::Close { client: true, other: true }),
        run.stage is Copy && e is Ended ==> relay_after(run, e).1.step == (RelayStep::Close {
            client: false,
            other: false,
        }),
{
}

/// What was looked at reaches the other end once. Where the kernel copies it is sent and
/// counted before the copying, which then does not hold it; else it is copied with the
/// rest, and counted there. Bytes of the handshake are sent and counted before either.
pub proof fn law_peeked_bytes_arrive_once(prelude: usize, peeked: usize, splice: bool, port: u16)
    ensures
        ({
            let start = RelayRun { stage: RelayStage::Connect, prelude, peeked, splice };
            let (a, first) = relay_after(start, RelayEvent::Connected(port));
            let (b, second) = if prelude > 0 {
                relay_after(a, RelayEvent::Sent)
            } else {
                (a, first)
            };
            let (c, third) = if splice && peeked > 0 {
                relay_after(b, RelayEvent::Sent)
            } else {
                (b, second)
            };
            &&& prelude > 0 ==> first.step is SendPrelude && second.sent == prelude
            &&& splice && peeked > 0 ==> second.step is SendPeeked && third.sent == peeked
            &&& third.step == RelayStep::Copy { replay: !splice }
            &&& c.stage is Copy
        }),
{
}

/// An address outside the pool of made-up addresses is treated as if there were no pool:
/// it is sent on by the name of the handshake, else by the name in the first bytes where
/// that is no cover name, else by its address, and it is never refused for the pool's sake.
pub proof fn law_outside_the_pool(
    handshake: Option<Seq<char>>,
    sniffed: Sniffed,
    fakeip: Option<FakeIp>,
    dest: SocketAddr,
)
    requires
        fakeip is None || !fakeip->0.inside,
    ensures
        ({
            let r = resolved(handshake, sniffed, fakeip, dest);
            &&& r == resolved(handshake, sniffed, None, dest)
            &&& !r.fakeip_unresolved
            &&& handshake is Some ==> r.routing == handshake
            &&& handshake is None && !sniffed.ech_outer ==> r.routing == text::opt_string(
                sniffed.domain,
            )
            &&& handshake is None && sniffed.ech_outer ==> r.routing is None
        }),
{
}

/// A made-up address is never sent on by itself where a name for it is known: the name of
/// the handshake comes first, then the one in the first bytes, a cover name too, and then
/// the one that the address was given out for. Without any of them it is refused.
pub proof fn law_inside_the_pool(
    handshake: Option<Seq<char>>,
    sniffed: Sniffed,
    f: FakeIp,
    dest: SocketAddr,
)
    requires
        f.inside,
        dest.ip is V4,
    ensures
        ({
            let r = resolved(handshake, sniffed, Some(f), dest);
            &&& handshake is Some ==> r.routing == handshake
            &&& handshake is None && sniffed.domain is Some ==> r.routing == text::opt_string(
                sniffed.domain,
            )
            &&& handshake is None && sniffed.domain is None ==> r.routing == text::opt_string(
                f.domain,
            )
            &&& r.fakeip_unresolved <==> handshake is None && sniffed.domain is None && f.domain
                is None
            &&& r.fakeip_unresolved <==> r.routing is None
        }),
{
}

/// A connection without a name to be sent on by is counted under the name in its first
/// bytes, a cover name too, and under none only where they hold none.
pub proof fn law_counted_under_what_is_seen(
    handshake: Option<Seq<char>>,
    sniffed: Sniffed,
    fakeip: Option<FakeIp>,
    dest: SocketAddr,
)
    ensures
        ({
            let r = resolved(handshake, sniffed, fakeip, dest);
            &&& r.routing is Some ==> r.stats == r.routing
            &&& r.routing is None ==> r.stats == text::opt_string(sniffed.domain)
        }),
{
}

/// A connection is refused for three reasons alone: its address was made up and no name is
/// known for it, or it speaks BitTorrent and that is blocked, or nobody knows what it speaks
/// nor whom it is for and that is blocked. An address of a known group is never refused.
/// What it is sent on and counted by does not depend on whether it is refused.
pub proof fn law_why_a_connection_is_refused(
    est: Established,
    client: IpAddr,
    look: Look,
    sniffed: Sniffed,
    peeked: int,
    fakeip: Option<FakeIp>,
    route: RouteFlags,
    ansi: bool,
)
    ensures
        ({
            let r = served(est, client, look, sniffed, peeked, fakeip, route, ansi);
            let nameless = est.domain is None && sniffed.domain is None && est.dest.ip is V4
                && fakeip is Some && fakeip->0.inside && fakeip->0.domain is None;
            let torrent = sniffed.proto is Bittorrent && route.block_bittorrent;
            let obscure = sniffed.proto is Unknown && est.domain is None && route.block_unknown;
            &&& r.refused is Some <==> look.ip_group is None && (nameless || torrent || obscure)
            &&& r.refused is Some && nameless ==> text::ends(r.refused->0, "(fakeip-unresolved)"@)
            &&& r.refused is Some && !nameless && torrent ==> text::ends(
                r.refused->0,
                "(bittorrent)"@,
            )
            &&& r.refused is Some && !nameless && !torrent ==> text::ends(
                r.refused->0,
                "(unknown)"@,
            )
            &&& r.routing == resolved(text::opt_string(est.domain), sniffed, fakeip, est.dest).routing
            &&& r.stats == resolved(text::opt_string(est.domain), sniffed, fakeip, est.dest).stats
            &&& r.flow is Some <==> route.log_sniffed
            &&& r.told_nothing <==> look.inside && sniffed.proto is Unknown
            &&& r.keep_head <==> sniffed.proto is Unknown && peeked > 0
        }),
{
    let r = served(est, client, look, sniffed, peeked, fakeip, route, ansi);
    reveal_strlit("fakeip-unresolved");
    reveal_strlit("bittorrent");
    reveal_strlit("unknown");
    reveal_strlit("(fakeip-unresolved)");
    reveal_strlit("(bittorrent)");
    reveal_strlit("(unknown)");
    reveal_strlit(" (");
    reveal_strlit(")");
    let names = resolved(text::opt_string(est.domain), sniffed, fakeip, est.dest);
    let why = refusal(
        route,
        look.ip_group is Some,
        names.fakeip_unresolved,
        sniffed.proto,
        est.domain is Some,
    );
    if let Some(b) = why {
        let t = r.refused->0;
        let n = t.len() as int;
        match b {
            Block::FakeIpUnresolved => {
                assert(t.skip(n - 19) =~= "(fakeip-unresolved)"@);
            },
            Block::Bittorrent => {
                assert(t.skip(n - 12) =~= "(bittorrent)"@);
            },
            Block::Unknown => {
                assert(t.skip(n - 9) =~= "(unknown)"@);
            },
        }
    }
}

/// What a connection counts as: the group of its address before anything else, then that
/// its port keeps it from being looked at, then what it speaks. A connection that speaks
/// nothing known counts by the way it came in.
pub proof fn law_what_a_connection_counts_as(
    group: Option<&'static str>,
    skip: bool,
    proto: Proto,
    inbound: InboundKind,
    named: bool,
    port: u16,
)
    ensures
        group matches Some(g) ==> counted_as(group, skip, proto, inbound, named, port)
            == records::SniffedProto::IpGroup(g),
        group is None && skip ==> counted_as(group, skip, proto, inbound, named, port)
            == records::SniffedProto::Skipped,
        group is None && !skip && proto is Tls ==> counted_as(
            group,
            skip,
            proto,
            inbound,
            named,
            port,
        ) == records::SniffedProto::Tls,
        group is None && !skip && proto is Http ==> counted_as(
            group,
            skip,
            proto,
            inbound,
            named,
            port,
        ) == records::SniffedProto::Http,
        group is None && !skip && proto is Bittorrent ==> counted_as(
            group,
            skip,
            proto,
            inbound,
            named,
            port,
        ) == records::SniffedProto::Bittorrent,
        group is None && !skip && proto is Unknown ==> {
            let c = counted_as(group, skip, proto, inbound, named, port);
            &&& inbound is Socks5 ==> c == records::SniffedProto::Socks5
            &&& inbound is Http ==> c == records::SniffedProto::HttpProxy
            &&& inbound is TProxy && named ==> c == records::SniffedProto::FakeIp
            &&& inbound is TProxy && !named ==> c == records::SniffedProto::RealIp
            &&& inbound is HealthCheck && (port == 80 || port == 8080) ==> c
                == records::SniffedProto::Http
            &&& inbound is HealthCheck && port != 80 && port != 8080 ==> c
                == records::SniffedProto::Tls
            &&& inbound is Clash ==> c == records::SniffedProto::Unknown
        },
{
}

/// Reading goes on only as long as the first byte may still turn out to be the start of
/// TLS, of BitTorrent or of an HTTP request, and what is spoken is not known yet.
pub proof fn law_when_reading_goes_on(proto: Proto, first: u8)
    ensures
        peek_then(PeekEvent::Read(proto, Some(first))) is Read <==> proto is Unknown && (first == 22
            || first == 19 || first == 'G' as u8 || first == 'P' as u8 || first == 'H' as u8 || first
            == 'D' as u8 || first == 'O' as u8),
        !(peek_then(PeekEvent::Read(proto, Some(first))) is Fail),
        proto is Unknown <==> peek_then(PeekEvent::Read(proto, None)) is Read,
        peek_then(PeekEvent::End) is Stop,
        peek_then(PeekEvent::Elapsed) is Stop,
        peek_then(PeekEvent::Failed) is Fail,
{
}

/// The ports on which a server speaks first are those of FTP, SSH, Telnet, SMTP, POP3, IMAP
/// and the submission of mail; a connection to any other port is looked at.
pub proof fn law_who_speaks_first(port: u16)
    ensures
        server_speaks_first(port) <==> seq![21u16, 22u16, 23u16, 25u16, 110u16, 143u16, 587u16].contains(
            port,
        ),
{
    let v = seq![21u16, 22u16, 23u16, 25u16, 110u16, 143u16, 587u16];
    assert(v[0] == 21 && v[1] == 22 && v[2] == 23 && v[3] == 25 && v[4] == 110 && v[5] == 143 && v[6]
        == 587);
}

} // verus!
