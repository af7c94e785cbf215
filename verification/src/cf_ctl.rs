//! The processes that carry the tunnel, and when they are started and stopped.

use crate::cf_config;
use crate::cf_config::{CfProtocol, CfProxyMode, CloudflaredCfg, Protocol};
use crate::cf_quality;
use crate::cf_quality::{LastRound, VerdictSource};
use crate::config::OutboundMode;
use crate::text;
use vstd::prelude::*;

verus! {

/// The program that carries the tunnel.
pub const CF_BIN: &'static str = "/usr/bin/cloudflared";

/// The account under which it runs through the proxy.
pub const CF_UID: u32 = 7844;

pub const CF_GID: u32 = 7844;

/// The account under which it runs directly.
pub const CF_UID_DIRECT: u32 = 7845;

pub const CF_GID_DIRECT: u32 = 7845;

pub const CF_HOME: &'static str = "/tmp/cloudflared";

pub const CF_HOME_DIRECT: &'static str = "/tmp/cloudflared-direct";

/// The label of the traffic of the tunnel.
pub const CF_LABEL: &'static str = "cloudflared";

pub const METRICS_PROXIED: &'static str = "127.0.0.1:20241";

pub const METRICS_DIRECT: &'static str = "127.0.0.1:20242";

/// The proxy through which the gateway itself goes out.
pub const HEALTH_SOCKS5: &'static str = "socks5h://127.0.0.1:1079";

/// Where the program is fetched.
pub const CF_RELEASE_BASE: &'static str = "https://github.com/cloudflare/cloudflared/releases/latest/download/";

/// The pause between two looks at the processes, in seconds.
pub const MONITOR_INTERVAL_SEC: u64 = 30;

/// For how long nothing is started after the gateway came up, in milliseconds.
pub const STARTUP_GRACE_MS: u64 = 60_000;

/// The pause after a failed download, in milliseconds, where there is a proxy.
pub const DOWNLOAD_RETRY_PROXY_MS: u64 = 300_000;

/// The same, where there is none.
pub const DOWNLOAD_RETRY_DIRECT_MS: u64 = 60_000;

/// The pause between two looks for a newer program, in milliseconds.
pub const UPDATE_INTERVAL_MS: u64 = 86_400_000;

/// How often a process may be found without a connection before it is restarted.
pub const READY_MISSES: u32 = 3;

/// How long a process may be without a connection before the protocols are
/// compared again, in milliseconds.
pub const RESCORE_AFTER_MS: u64 = 180_000;

/// Which way a process goes out.
#[derive(Debug, Clone, Copy, PartialEq, Eq, Structural)]
pub enum Egress {
    Proxied,
    Direct,
}

/// The name of a way out.
pub open spec fn egress_text(e: Egress) -> Seq<char> {
    match e {
        Egress::Proxied => "proxy"@,
        Egress::Direct => "direct"@,
    }
}

/// The home of a process.
pub open spec fn home_of(e: Egress) -> Seq<char> {
    match e {
        Egress::Proxied => CF_HOME@,
        Egress::Direct => CF_HOME_DIRECT@,
    }
}

/// The account of a process.
pub open spec fn account_of(e: Egress) -> (u32, u32) {
    match e {
        Egress::Proxied => (CF_UID, CF_GID),
        Egress::Direct => (CF_UID_DIRECT, CF_GID_DIRECT),
    }
}

/// The name of the account of a process.
pub open spec fn user_of(e: Egress) -> Seq<char> {
    match e {
        Egress::Proxied => "cloudflared"@,
        Egress::Direct => "cloudflared-direct"@,
    }
}

/// Where a process tells its counters.
pub open spec fn metrics_of(e: Egress) -> Seq<char> {
    match e {
        Egress::Proxied => METRICS_PROXIED@,
        Egress::Direct => METRICS_DIRECT@,
    }
}

impl Egress {
    /// Both ways out, in the order in which they are served.
    pub const ALL: [Egress; 2] = [Egress::Direct, Egress::Proxied];

    /// The name of the way out.
    pub fn as_str(self) -> (r: &'static str)
        ensures
            r@ == egress_text(self),
    {
        match self {
            Egress::Proxied => "proxy",
            Egress::Direct => "direct",
        }
    }

    /// The place of the way out among both.
    pub fn idx(self) -> (r: usize)
        ensures
            r < 2,
            Egress::ALL@[r as int] == self,
    {
        match self {
            Egress::Direct => 0,
            Egress::Proxied => 1,
        }
    }

    /// The account of the process.
    pub fn uid_gid(self) -> (r: (u32, u32))
        ensures
            r == account_of(self),
    {
        match self {
            Egress::Proxied => (CF_UID, CF_GID),
            Egress::Direct => (CF_UID_DIRECT, CF_GID_DIRECT),
        }
    }

    /// The home of the process.
    pub fn home(self) -> (r: &'static str)
        ensures
            r@ == home_of(self),
    {
        match self {
            Egress::Proxied => CF_HOME,
            Egress::Direct => CF_HOME_DIRECT,
        }
    }

    /// The directory in which a newer program is prepared.
    pub fn upd_dir(self) -> (r: String)
        ensures
            r@ == home_of(self) + "/upd"@,
    {
        let mut out = self.home().to_owned();
        out.append("/upd");
        out
    }

    /// The proxy through which the process goes out; empty for none.
    pub fn proxy_arg(self) -> (r: &'static str)
        ensures
            r@ == match self {
                Egress::Proxied => HEALTH_SOCKS5@,
                Egress::Direct => ""@,
            },
    {
        match self {
            Egress::Proxied => HEALTH_SOCKS5,
            Egress::Direct => "",
        }
    }

    /// Where the process tells its counters.
    pub fn metrics_addr(self) -> (r: &'static str)
        ensures
            r@ == metrics_of(self),
    {
        match self {
            Egress::Proxied => METRICS_PROXIED,
            Egress::Direct => METRICS_DIRECT,
        }
    }

    /// The name of the account of the process.
    pub fn user_name(self) -> (r: &'static str)
        ensures
            r@ == user_of(self),
    {
        match self {
            Egress::Proxied => "cloudflared",
            Egress::Direct => "cloudflared-direct",
        }
    }

    /// The way out of the process of an account.
    pub fn from_uid(uid: u32) -> (r: Option<Egress>)
        ensures
            r == if uid == CF_UID {
                Some(Egress::Proxied)
            } else if uid == CF_UID_DIRECT {
                Some(Egress::Direct)
            } else {
                None
            },
    {
        if uid == CF_UID {
            Some(Egress::Proxied)
        } else if uid == CF_UID_DIRECT {
            Some(Egress::Direct)
        } else {
            None
        }
    }
}

/// The two processes share no account, no home and no port.
pub proof fn law_egresses_are_separate()
    ensures
        account_of(Egress::Direct).0 != account_of(Egress::Proxied).0,
        home_of(Egress::Direct) != home_of(Egress::Proxied),
        metrics_of(Egress::Direct) != metrics_of(Egress::Proxied),
        user_of(Egress::Direct) != user_of(Egress::Proxied),
{
    reveal_strlit("/tmp/cloudflared");
    reveal_strlit("/tmp/cloudflared-direct");
    reveal_strlit("127.0.0.1:20241");
    reveal_strlit("127.0.0.1:20242");
    reveal_strlit("cloudflared");
    reveal_strlit("cloudflared-direct");
    assert(CF_HOME@.len() == 16);
    assert(CF_HOME_DIRECT@.len() == 23);
    assert(METRICS_PROXIED@[14] == '1');
    assert(METRICS_DIRECT@[14] == '2');
    assert("cloudflared"@.len() == 11);
    assert("cloudflared-direct"@.len() == 18);
}

/// Why a process uses its protocol.
#[derive(Debug, Clone, Copy, PartialEq, Eq, Structural)]
pub enum ProtocolWhy {
    Unknown,
    Locked,
    Initial,
    Scored,
    Fallback,
}

impl Default for ProtocolWhy {
    fn default() -> (r: Self)
        ensures
            r == ProtocolWhy::Unknown,
    {
        ProtocolWhy::Unknown
    }
}

impl ProtocolWhy {
    /// The reason that a verdict gives.
    pub open spec fn told(v: VerdictSource) -> ProtocolWhy {
        match v {
            VerdictSource::Scored => ProtocolWhy::Scored,
            VerdictSource::Fallback => ProtocolWhy::Fallback,
        }
    }

    /// The reason that a verdict gives.
    pub fn of(v: VerdictSource) -> (r: ProtocolWhy)
        ensures
            r == ProtocolWhy::told(v),
    {
        match v {
            VerdictSource::Scored => ProtocolWhy::Scored,
            VerdictSource::Fallback => ProtocolWhy::Fallback,
        }
    }

    /// The text of the reason.
    pub fn as_str(self) -> (r: &'static str)
        ensures
            r@ == match self {
                ProtocolWhy::Unknown => "unknown"@,
                ProtocolWhy::Locked => "locked"@,
                ProtocolWhy::Initial => "initial preference (not scored yet)"@,
                ProtocolWhy::Scored => "scored"@,
                ProtocolWhy::Fallback => "fallback: the preferred transport would not register"@,
            },
    {
        match self {
            ProtocolWhy::Unknown => "unknown",
            ProtocolWhy::Locked => "locked",
            ProtocolWhy::Initial => "initial preference (not scored yet)",
            ProtocolWhy::Scored => "scored",
            ProtocolWhy::Fallback => "fallback: the preferred transport would not register",
        }
    }
}

/// Whether the program is there.
#[derive(Debug, Clone, Copy, PartialEq, Eq, Structural)]
pub enum BinaryState {
    Ready,
    EgressDown,
    DownloadFailed,
}

impl BinaryState {
    /// What is said of it.
    pub fn note(self) -> (r: &'static str)
        ensures
            r@ == missing_note(self),
    {
        match self {
            BinaryState::Ready => "",
            BinaryState::EgressDown => "waiting for a usable egress to download cloudflared",
            BinaryState::DownloadFailed => "cloudflared binary missing (download failed)",
        }
    }
}

/// Whether a process is wanted on a way out. Without a proxy there is only the
/// direct way.
pub open spec fn wanted(egress: Egress, mode: CfProxyMode, outbound: OutboundMode) -> bool {
    if outbound is Free {
        egress is Direct
    } else {
        match egress {
            Egress::Direct => !(mode is Yes),
            Egress::Proxied => !(mode is No),
        }
    }
}

/// Whether a process is wanted on a way out.
pub fn want_egress(egress: Egress, mode: CfProxyMode, outbound: OutboundMode) -> (r: bool)
    ensures
        r == wanted(egress, mode, outbound),
{
    match outbound {
        OutboundMode::Free => egress == Egress::Direct,
        _ => match egress {
            Egress::Direct => mode != CfProxyMode::Yes,
            Egress::Proxied => mode != CfProxyMode::No,
        },
    }
}

/// Whatever the settings, at least one process is wanted; both are exactly where
/// both ways are asked for and there is a proxy.
pub proof fn law_some_replica_wanted(mode: CfProxyMode, outbound: OutboundMode)
    ensures
        wanted(Egress::Direct, mode, outbound) || wanted(Egress::Proxied, mode, outbound),
        (wanted(Egress::Direct, mode, outbound) && wanted(Egress::Proxied, mode, outbound)) == (
        mode is Both && !(outbound is Free)),
{
}

/// A step of the attempts to bring a process up: its protocol, why it is used,
/// and whether the edges are picked beforehand.
pub type Rung = (Protocol, ProtocolWhy, bool);

/// The attempts to bring a process up. A fixed protocol has one. Else QUIC comes
/// first, unless the other one is remembered, then HTTP/2 with picked edges and
/// then with any.
pub open spec fn rungs(
    policy: CfProtocol,
    remembered: Option<(Protocol, VerdictSource)>,
) -> Seq<Rung> {
    match policy {
        CfProtocol::Fixed(p) => seq![(p, ProtocolWhy::Locked, true)],
        CfProtocol::Auto => {
            let first = match remembered {
                Some((_, src)) => ProtocolWhy::told(src),
                None => ProtocolWhy::Initial,
            };
            if remembered matches Some((p, _)) && p is Http2 {
                seq![(Protocol::Http2, first, true), (Protocol::Http2, ProtocolWhy::Fallback, false)]
            } else {
                seq![
                    (Protocol::Quic, first, true),
                    (Protocol::Http2, ProtocolWhy::Fallback, true),
                    (Protocol::Http2, ProtocolWhy::Fallback, false),
                ]
            }
        },
    }
}

/// The attempts to bring a process up.
pub fn ladder_for(policy: CfProtocol, remembered: Option<(Protocol, VerdictSource)>) -> (r: Vec<Rung>)
    ensures
        r@ == rungs(policy, remembered),
        r@.len() > 0,
{
    let mut out: Vec<Rung> = Vec::new();
    match policy {
        CfProtocol::Fixed(p) => {
            out.push((p, ProtocolWhy::Locked, true));
        },
        CfProtocol::Auto => {
            let (first, skip) = match remembered {
                Some((p, src)) => (ProtocolWhy::of(src), p == Protocol::Http2),
                None => (ProtocolWhy::Initial, false),
            };
            if skip {
                out.push((Protocol::Http2, first, true));
            } else {
                out.push((Protocol::Quic, first, true));
                out.push((Protocol::Http2, ProtocolWhy::Fallback, true));
            }
            out.push((Protocol::Http2, ProtocolWhy::Fallback, false));
        },
    }
    assert(out@ =~= rungs(policy, remembered));
    out
}

/// The last attempt of a free choice never picks edges and never uses QUIC.
pub proof fn law_ladder_ends_safely(remembered: Option<(Protocol, VerdictSource)>)
    ensures
        rungs(CfProtocol::Auto, remembered).last().0 == Protocol::Http2,
        !rungs(CfProtocol::Auto, remembered).last().2,
        2 <= rungs(CfProtocol::Auto, remembered).len() <= 3,
{
}

/// What stands for the state in which a process was started.
pub open spec fn stamped(base: Seq<char>, proto: Protocol) -> Seq<char> {
    base + "#proto="@ + cf_config::protocol_text(proto)
}

/// What stands for the state in which a process was started.
pub fn stamp_with(base: &str, proto: Protocol) -> (r: String)
    ensures
        r@ == stamped(base@, proto),
{
    let mut out = base.to_owned();
    out.append("#proto=");
    out.append(proto.as_str());
    out
}

/// The stamp without its protocol.
pub open spec fn base_of(stamp: Seq<char>) -> Seq<char> {
    match text::cut_str(stamp, "#proto="@) {
        Some((base, _)) => base,
        None => stamp,
    }
}

/// The stamp without its protocol.
pub fn stamp_base_of(stamp: &str) -> (r: String)
    ensures
        r@ == base_of(stamp@),
{
    let cs = text::chars_of(stamp);
    match text::split_once_str(cs.as_slice(), "#proto=") {
        Some((base, _)) => text::str_of(base),
        None => text::str_of(cs.as_slice()),
    }
}

/// A stamp differs with the protocol, and without it gives back what it was made
/// from, as long as that holds no protocol itself.
pub proof fn law_stamps(base: Seq<char>, proto: Protocol)
    requires
        !text::holds(base, "#proto="@),
    ensures
        base_of(stamped(base, proto)) == base,
        stamped(base, Protocol::Quic) != stamped(base, Protocol::Http2),
{
    let p = "#proto="@;
    let s = stamped(base, proto);
    reveal_strlit("#proto=");
    assert(p.len() == 7);
    cf_config::law_protocol_names(proto);
    let n = base.len() as int;
    assert(s.skip(n) =~= p + cf_config::protocol_text(proto));
    assert(text::starts(s.skip(n), p)) by {
        assert((p + cf_config::protocol_text(proto)).take(p.len() as int) =~= p);
    }
    assert forall|j: int| 0 <= j < n implies !text::starts(#[trigger] s.skip(j), p) by {
        if text::starts(s.skip(j), p) {
            if j + 7 <= n {
                assert(s.skip(j).take(7) =~= base.skip(j).take(7));
                assert(text::starts(base.skip(j), p));
                assert(text::holds(base, p));
            } else {
                let k = n - j;
                assert(s.skip(j).take(7)[k] == s[n]);
                assert(s[n] == p[0]);
                assert(s.skip(j).take(7)[k] == p[k]);
                assert(p[k] != p[0]);
            }
        }
    }
    text::lemma_sub_from(s, p, 0, n);
    assert(s.take(n) =~= base);
    assert(stamped(base, Protocol::Quic).len() != stamped(base, Protocol::Http2).len()) by {
        reveal_strlit("quic");
        reveal_strlit("http2");
        assert("quic"@.len() == 4);
        assert("http2"@.len() == 5);
    }
}

/// The mark of the last reload, cut to a length; `None` for an empty one.
pub open spec fn reload_mark(raw: Option<Seq<char>>) -> Option<Seq<char>> {
    match raw {
        Some(s) => {
            let t = text::trimmed(s);
            let g = if t.len() > 32 {
                t.take(32)
            } else {
                t
            };
            if g.len() > 0 {
                Some(g)
            } else {
                None
            }
        },
        None => None,
    }
}

/// The mark of the last reload.
pub fn reload_gen(raw: Option<&str>) -> (r: Option<String>)
    ensures
        text::opt_string(r) == reload_mark(text::opt_str(raw)),
{
    match raw {
        Some(s) => {
            let cs = text::chars_of(s);
            let t = text::trim(cs.as_slice());
            let n: usize = if t.len() > 32 {
                32
            } else {
                t.len()
            };
            let g = vstd::slice::slice_subrange(t, 0, n);
            assert(g@ =~= if t@.len() > 32 {
                t@.take(32)
            } else {
                t@
            });
            if g.len() > 0 {
                Some(text::str_of(g))
            } else {
                None
            }
        },
        None => None,
    }
}

/// The state of the proxy, where it can be used.
pub open spec fn proxy_state(
    mode: OutboundMode,
    clash_pid: Option<u32>,
    marker: Seq<char>,
    tun_up: bool,
) -> Option<Seq<char>> {
    match mode {
        OutboundMode::Yaml | OutboundMode::Suburl => match clash_pid {
            Some(pid) => Some(
                "clash:"@ + text::decimal(pid as int) + ":"@ + text::trimmed(marker),
            ),
            None => None,
        },
        OutboundMode::Ovpn => if tun_up {
            Some("ovpn:up"@)
        } else {
            None
        },
        _ => Some("direct"@),
    }
}

/// The state of the proxy, where it can be used.
pub fn proxy_stamp(mode: OutboundMode, clash_pid: Option<u32>, marker: &str, tun_up: bool) -> (r: Option<
    String,
>)
    ensures
        text::opt_string(r) == proxy_state(mode, clash_pid, marker@, tun_up),
{
    match mode {
        OutboundMode::Yaml | OutboundMode::Suburl => match clash_pid {
            Some(pid) => {
                let mut out = "clash:".to_owned();
                text::push_decimal(&mut out, pid as u64);
                out.append(":");
                let cs = text::chars_of(marker);
                text::push_chars(&mut out, text::trim(cs.as_slice()));
                Some(out)
            },
            None => None,
        },
        OutboundMode::Ovpn => if tun_up {
            Some("ovpn:up".to_owned())
        } else {
            None
        },
        _ => Some("direct".to_owned()),
    }
}

/// What a stamp is made from: the state of the way out and the last reload.
pub open spec fn state_of(
    egress: Egress,
    proxy: Option<Seq<char>>,
    reload: Option<Seq<char>>,
) -> Option<Seq<char>> {
    let base = match egress {
        Egress::Proxied => proxy,
        Egress::Direct => Some("direct-egress"@),
    };
    match base {
        Some(b) => Some(
            match reload {
                Some(g) => b + "#reload="@ + g,
                None => b,
            },
        ),
        None => None,
    }
}

/// What a stamp is made from; `None` where the way out cannot be used.
pub fn stamp_base(egress: Egress, proxy: Option<String>, reload: Option<String>) -> (r: Option<String>)
    ensures
        text::opt_string(r) == state_of(egress, text::opt_string(proxy), text::opt_string(reload)),
{
    let base = match egress {
        Egress::Proxied => match proxy {
            Some(p) => p,
            None => return None,
        },
        Egress::Direct => "direct-egress".to_owned(),
    };
    match reload {
        Some(g) => {
            let mut out = base;
            out.append("#reload=");
            out.append(g.as_str());
            Some(out)
        },
        None => Some(base),
    }
}

/// The protocol that a process should use: the fixed one, else the one of the last
/// verdict that counts.
pub open spec fn desired(policy: CfProtocol, fresh: Option<(Protocol, VerdictSource)>) -> Protocol {
    match policy {
        CfProtocol::Fixed(p) => p,
        CfProtocol::Auto => match fresh {
            Some((p, _)) => p,
            None => policy.start(),
        },
    }
}

/// The protocol that a process should use.
pub fn desired_protocol(policy: CfProtocol, fresh: Option<(Protocol, VerdictSource)>) -> (r: Protocol)
    ensures
        r == desired(policy, fresh),
{
    match policy {
        CfProtocol::Fixed(p) => p,
        CfProtocol::Auto => match fresh {
            Some((p, _)) => p,
            None => policy.initial(),
        },
    }
}

/// Whether the proxy can be used for downloads: where there is one it must be up.
pub fn proxy_chores_possible(mode: OutboundMode, proxy_up: bool) -> (r: bool)
    ensures
        r == match mode {
            OutboundMode::Free | OutboundMode::Socks5 => true,
            _ => proxy_up,
        },
{
    match mode {
        OutboundMode::Free | OutboundMode::Socks5 => true,
        _ => proxy_up,
    }
}

/// Why a process uses its protocol, as far as is known now: a verdict for the same
/// protocol that came later counts.
pub open spec fn why(
    running: Option<Protocol>,
    at_spawn: ProtocolWhy,
    fresh: Option<(Protocol, VerdictSource)>,
) -> ProtocolWhy {
    match (running, fresh) {
        (Some(r), Some((p, src))) => if p == r {
            ProtocolWhy::told(src)
        } else {
            at_spawn
        },
        _ => at_spawn,
    }
}

/// Why a process uses its protocol, as far as is known now.
pub fn why_now(
    running: Option<Protocol>,
    at_spawn: ProtocolWhy,
    fresh: Option<(Protocol, VerdictSource)>,
) -> (r: ProtocolWhy)
    ensures
        r == why(running, at_spawn, fresh),
{
    match (running, fresh) {
        (Some(r), Some((p, src))) => if p == r {
            ProtocolWhy::of(src)
        } else {
            at_spawn
        },
        _ => at_spawn,
    }
}

/// A process that carries the tunnel.
pub struct Proc {
    pub pid: Option<u32>,
    pub token: Option<String>,
    pub stamp: Option<String>,
    pub edges: Vec<String>,
    pub note: Option<&'static str>,
    pub protocol: Option<Protocol>,
    pub protocol_why: ProtocolWhy,
    pub ready_misses: u32,
    /// Since when it is without a connection, in milliseconds.
    pub unready_since: Option<u64>,
}

impl Proc {
    /// No process.
    pub fn none() -> (r: Proc)
        ensures
            r.pid is None,
            r.token is None,
            r.stamp is None,
            r.edges@.len() == 0,
            r.note is None,
            r.protocol is None,
            r.protocol_why == ProtocolWhy::Unknown,
            r.ready_misses == 0,
            r.unready_since is None,
    {
        Proc {
            pid: None,
            token: None,
            stamp: None,
            edges: Vec::new(),
            note: None,
            protocol: None,
            protocol_why: ProtocolWhy::Unknown,
            ready_misses: 0,
            unready_since: None,
        }
    }

    /// The process was stopped: what it was started with is forgotten. What is said
    /// of it and the protocol that it used stay.
    pub fn stopped(&mut self)
        ensures
            final(self).pid is None,
            final(self).token is None,
            final(self).stamp is None,
            final(self).edges@.len() == 0,
            final(self).note == old(self).note,
            final(self).protocol == old(self).protocol,
            final(self).protocol_why == old(self).protocol_why,
            final(self).ready_misses == old(self).ready_misses,
            final(self).unready_since == old(self).unready_since,
    {
        self.pid = None;
        self.token = None;
        self.stamp = None;
        self.edges = Vec::new();
    }

    /// A process was started.
    pub fn started(
        &mut self,
        pid: u32,
        token: &str,
        base: &str,
        proto: Protocol,
        why: ProtocolWhy,
        edges: Vec<String>,
    )
        ensures
            final(self).pid == Some(pid),
            text::opt_string(final(self).token) == Some(token@),
            text::opt_string(final(self).stamp) == Some(stamped(base@, proto)),
            final(self).edges == edges,
            final(self).note is None,
            final(self).protocol == Some(proto),
            final(self).protocol_why == why,
            final(self).ready_misses == 0,
            final(self).unready_since is None,
    {
        self.pid = Some(pid);
        self.token = Some(token.to_owned());
        self.stamp = Some(stamp_with(base, proto));
        self.edges = edges;
        self.note = None;
        self.protocol = Some(proto);
        self.protocol_why = why;
        self.ready_misses = 0;
        self.unready_since = None;
    }

    /// Starts to count anew how long the process is without a connection.
    pub fn forgive(&mut self)
        ensures
            final(self).ready_misses == 0,
            final(self).unready_since is None,
            same_process(*old(self), *final(self)),
    {
        self.ready_misses = 0;
        self.unready_since = None;
    }
}

/// Whether two records are of one process, apart from how long it is without a
/// connection.
pub open spec fn same_process(a: Proc, b: Proc) -> bool {
    &&& a.pid == b.pid
    &&& a.token == b.token
    &&& a.stamp == b.stamp
    &&& a.edges == b.edges
    &&& a.note == b.note
    &&& a.protocol == b.protocol
    &&& a.protocol_why == b.protocol_why
}

/// What is done with a process after a look at it.
#[derive(Debug, Clone, Copy, PartialEq, Eq, Structural)]
pub enum Watch {
    /// Nothing.
    Leave,
    /// It is stopped, and comes up again.
    Restart,
    /// It is stopped, and the protocols are compared.
    Rescore,
}

/// Since when a process is without a connection, once it is found so.
pub open spec fn down_since(p: Proc, now_ms: u64) -> u64 {
    match p.unready_since {
        Some(t) => t,
        None => now_ms,
    }
}

/// How often a process was found without a connection, once it is found so again.
pub open spec fn missed(p: Proc) -> u32 {
    if p.ready_misses < u32::MAX {
        (p.ready_misses + 1) as u32
    } else {
        u32::MAX
    }
}

/// What is done with a process after a look at it. One that has a connection, and
/// one that was never started, is left alone.
pub open spec fn watched(p: Proc, ready: u64, now_ms: u64, adaptive: bool) -> Watch {
    if ready >= 1 || p.protocol is None {
        Watch::Leave
    } else if now_ms - down_since(p, now_ms) >= RESCORE_AFTER_MS && adaptive {
        Watch::Rescore
    } else if missed(p) >= READY_MISSES {
        Watch::Restart
    } else {
        Watch::Leave
    }
}

/// Looks at a process that should run.
pub fn watch(p: &mut Proc, ready: u64, now_ms: u64, adaptive: bool) -> (r: Watch)
    ensures
        r == watched(*old(p), ready, now_ms, adaptive),
        same_process(*old(p), *final(p)),
        if ready >= 1 {
            final(p).ready_misses == 0 && final(p).unready_since is None
        } else if old(p).protocol is None {
            final(p).ready_misses == old(p).ready_misses && final(p).unready_since
                == old(p).unready_since
        } else {
            match r {
                Watch::Rescore => final(p).ready_misses == 0 && final(p).unready_since is None,
                Watch::Restart => final(p).ready_misses == 0 && final(p).unready_since == Some(
                    down_since(*old(p), now_ms),
                ),
                Watch::Leave => final(p).ready_misses == missed(*old(p)) && final(p).unready_since
                    == Some(down_since(*old(p), now_ms)),
            }
        },
{
    if ready >= 1 {
        p.forgive();
        return Watch::Leave;
    }
    if p.protocol.is_none() {
        return Watch::Leave;
    }
    p.ready_misses = p.ready_misses.saturating_add(1);
    let since: u64 = match p.unready_since {
        Some(t) => t,
        None => now_ms,
    };
    p.unready_since = Some(since);
    if now_ms.saturating_sub(since) >= RESCORE_AFTER_MS && adaptive {
        p.forgive();
        return Watch::Rescore;
    }
    if p.ready_misses >= READY_MISSES {
        p.ready_misses = 0;
        return Watch::Restart;
    }
    Watch::Leave
}

/// A process is left alone for as long as it has a connection, and one without it
/// is not restarted before it was found so several times.
pub proof fn law_patience(p: Proc, ready: u64, now_ms: u64)
    ensures
        ready >= 1 ==> watched(p, ready, now_ms, true) == Watch::Leave,
        ready >= 1 ==> watched(p, ready, now_ms, false) == Watch::Leave,
        p.ready_misses + 1 < READY_MISSES ==> watched(p, ready, now_ms, false) == Watch::Leave,
{
}

/// What is done with a process when the settings are looked at.
pub enum Step {
    /// Nothing.
    Leave,
    /// It is stopped.
    Stop,
    /// It is stopped where it runs, and this is said of it.
    Hold(&'static str),
    /// It is started, with this state.
    Start(String),
}

/// Whether a process must be started: it does not run, or it runs with another key
/// or in another state.
pub open spec fn must_start(p: Proc, running: bool, token: Seq<char>, stamp: Seq<char>) -> bool {
    ||| !running
    ||| text::opt_string(p.token) != Some(token)
    ||| text::opt_string(p.stamp) != Some(stamp)
}

/// What is done with a process, as values.
pub enum StepView {
    Leave,
    Stop,
    Hold(Seq<char>),
    Start(Seq<char>),
}

impl View for Step {
    type V = StepView;

    open spec fn view(&self) -> StepView {
        match *self {
            Step::Leave => StepView::Leave,
            Step::Stop => StepView::Stop,
            Step::Hold(n) => StepView::Hold(n@),
            Step::Start(s) => StepView::Start(s@),
        }
    }
}

/// What is done with a process when the settings are looked at. One that is not wanted
/// is stopped, one whose way out is not there is held, and one that does not run as it
/// should is started.
pub open spec fn step_of(
    p: Proc,
    running: bool,
    is_wanted: bool,
    token: Seq<char>,
    stamp: Option<Seq<char>>,
) -> StepView {
    if !is_wanted {
        if running {
            StepView::Stop
        } else {
            StepView::Leave
        }
    } else {
        match stamp {
            None => StepView::Hold("proxy engine not ready"@),
            Some(s) => if must_start(p, running, token, s) {
                StepView::Start(s)
            } else {
                StepView::Leave
            },
        }
    }
}

/// What is done with a process when the settings are looked at.
pub fn plan_replica(
    p: &Proc,
    running: bool,
    is_wanted: bool,
    token: &str,
    stamp: Option<String>,
) -> (r: Step)
    ensures
        r@ == step_of(*p, running, is_wanted, token@, text::opt_string(stamp)),
{
    if !is_wanted {
        if running {
            return Step::Stop;
        }
        return Step::Leave;
    }
    let s = match stamp {
        Some(s) => s,
        None => return Step::Hold("proxy engine not ready"),
    };
    let same_token = match &p.token {
        Some(t) => text::same_str(t.as_str(), token),
        None => false,
    };
    let same_stamp = match &p.stamp {
        Some(t) => text::same_str(t.as_str(), s.as_str()),
        None => false,
    };
    if !running || !same_token || !same_stamp {
        Step::Start(s)
    } else {
        Step::Leave
    }
}

/// What a look at the settings comes to.
pub struct Tick {
    /// What was remembered of the protocols is forgotten.
    pub forget: bool,
    pub direct: Step,
    pub proxied: Step,
}

/// A process as it is found: what is known of it, whether it runs, and the state that
/// it should be in.
pub struct Found {
    pub proc: Proc,
    pub running: bool,
    pub stamp: Option<String>,
}

/// What is done with a process. Without a key to the tunnel it is stopped.
pub open spec fn tick_step(cfg: CloudflaredCfg, mode: OutboundMode, egress: Egress, f: Found) -> StepView {
    match cfg.key() {
        None => if f.running {
            StepView::Stop
        } else {
            StepView::Leave
        },
        Some(token) => step_of(
            f.proc,
            f.running,
            wanted(egress, cfg.proxy, mode),
            token,
            text::opt_string(f.stamp),
        ),
    }
}

/// What is done with one process.
fn tick_one(cfg: &CloudflaredCfg, mode: OutboundMode, egress: Egress, f: Found) -> (r: Step)
    ensures
        r@ == tick_step(*cfg, mode, egress, f),
{
    match cfg.token() {
        None => if f.running {
            Step::Stop
        } else {
            Step::Leave
        },
        Some(token) => plan_replica(
            &f.proc,
            f.running,
            want_egress(egress, cfg.proxy, mode),
            token,
            f.stamp,
        ),
    }
}

/// What a look at the settings comes to, for either process. Where the protocol is set,
/// what was remembered of the protocols is forgotten.
pub fn tick_locked(cfg: &CloudflaredCfg, mode: OutboundMode, direct: Found, proxied: Found) -> (r: Tick)
    ensures
        r.forget == (cfg.key() is Some && cfg.protocol !is Auto),
        r.direct@ == tick_step(*cfg, mode, Egress::Direct, direct),
        r.proxied@ == tick_step(*cfg, mode, Egress::Proxied, proxied),
{
    Tick {
        forget: cfg.token().is_some() && !cfg.protocol.adaptive(),
        direct: tick_one(cfg, mode, Egress::Direct, direct),
        proxied: tick_one(cfg, mode, Egress::Proxied, proxied),
    }
}

/// Without a key to the tunnel nothing is started and nothing goes on running.
pub proof fn law_no_key_no_tunnel(cfg: CloudflaredCfg, mode: OutboundMode, egress: Egress, f: Found)
    requires
        cfg.key() is None,
    ensures
        tick_step(cfg, mode, egress, f) == if f.running {
            StepView::Stop
        } else {
            StepView::Leave
        },
{
}

/// A look that follows a start finds nothing to do, as long as the settings and the
/// state stay the same.
pub proof fn law_tick_settles(
    cfg: CloudflaredCfg,
    mode: OutboundMode,
    egress: Egress,
    f: Found,
    after: Found,
)
    requires
        tick_step(cfg, mode, egress, f) is Start,
        after.running,
        text::opt_string(after.proc.token) == cfg.key(),
        text::opt_string(after.proc.stamp) == text::opt_string(f.stamp),
        text::opt_string(after.stamp) == text::opt_string(f.stamp),
    ensures
        tick_step(cfg, mode, egress, after) == StepView::Leave,
{
}

/// What is done while nothing has to be started.
#[derive(Debug, Clone, Copy, PartialEq, Eq, Structural)]
pub struct Idle {
    /// The protocols are compared.
    pub score: bool,
    /// A newer program is looked for.
    pub update: bool,
}

/// What is done while nothing has to be started.
pub fn idle_plan(adaptive: bool, up_ms: u64, update_due: bool, chores: bool) -> (r: Idle)
    ensures
        r.score == (adaptive && up_ms >= STARTUP_GRACE_MS),
        r.update == (update_due && chores),
{
    Idle { score: adaptive && up_ms >= STARTUP_GRACE_MS, update: update_due && chores }
}

/// Whether processes may be started now.
#[derive(Debug, Clone, Copy)]
pub enum Gate {
    /// Not yet; this is said of them.
    Wait(&'static str),
    /// The program has to be fetched first.
    Fetch,
    /// Now. A newer program is looked for before, where that is possible.
    Go(bool),
}

/// Whether processes may be started now: the gateway has settled, and the program
/// is there. Without the program the proxy must be up to fetch it. The direct way
/// never waits for the proxy otherwise.
pub fn start_gate(up_ms: u64, binary: bool, chores: bool) -> (r: Gate)
    ensures
        match r {
            Gate::Wait(note) => if up_ms < STARTUP_GRACE_MS {
                note@ == "waiting for system to settle"@
            } else {
                !binary && !chores && note@ == "waiting for the proxy to download cloudflared"@
            },
            Gate::Fetch => up_ms >= STARTUP_GRACE_MS && !binary && chores,
            Gate::Go(update) => up_ms >= STARTUP_GRACE_MS && binary && update == chores,
        },
{
    if up_ms < STARTUP_GRACE_MS {
        return Gate::Wait("waiting for system to settle");
    }
    if !binary {
        if !chores {
            return Gate::Wait("waiting for the proxy to download cloudflared");
        }
        return Gate::Fetch;
    }
    Gate::Go(chores)
}

/// How far a tick has come: what is waited for next.
#[derive(Debug, Clone, Copy, PartialEq, Eq, Structural)]
pub enum Stage {
    /// The connections of the processes are looked at.
    Watch,
    /// Processes are stopped or held.
    Settle,
    /// Nothing has to be started, and a newer program is to be looked for.
    Idle,
    /// The program is fetched, with nothing to be started.
    IdleFetch,
    /// A newer program is looked for, with nothing to be started.
    IdleUpdate,
    /// The program is fetched.
    Fetch,
    /// A newer program is looked for before processes are started.
    Update,
    /// Processes are started.
    Start,
    /// Nothing more.
    Over,
}

/// What happened during a tick.
pub enum TickEvent {
    /// The connections were looked at, and the protocols compared where that was asked
    /// for: the direct and the proxied process are found like this.
    Watched(Found, Found),
    /// Processes were stopped and held. The gateway is up for so long, a newer program
    /// is due or not, the proxy is there for chores or not, and the program is there or
    /// not.
    Settled { up_ms: u64, update_due: bool, chores: bool, binary: bool },
    /// What is done while nothing has to be started was done.
    Rested,
    /// The program was fetched or not; the proxy is there for chores or not.
    Fetched { state: BinaryState, chores: bool },
    /// A newer program was looked for: whether the program changed, and the states that
    /// the direct and the proxied process should be in now.
    Updated { changed: bool, direct: Option<String>, proxied: Option<String> },
    /// Processes were started.
    Started,
}

/// What is done in a tick.
pub enum TickAct {
    /// Every process that runs is stopped.
    StopAll,
    /// What was remembered of the protocols is forgotten where this says so. Then the
    /// connections of the processes are looked at.
    Watch(bool),
    /// The direct and the proxied process are stopped or held; none is started yet.
    Settle(Step, Step),
    /// Nothing has to be started.
    Idle(Idle),
    /// This is said of the processes that wait to be started: the direct and the
    /// proxied one, or one of them.
    Note(&'static str, bool, bool),
    /// The program is fetched.
    Fetch,
    /// A newer program is looked for.
    Update,
    /// These processes are started, one after the other.
    Start(Vec<(Egress, String)>),
    /// The protocols are compared in the background.
    Score,
    /// Nothing.
    Done,
}

/// What is done in a tick, as values.
pub enum TickActView {
    StopAll,
    Watch(bool),
    Settle(StepView, StepView),
    Idle(Idle),
    Note(Seq<char>, bool, bool),
    Fetch,
    Update,
    Start(Seq<(Egress, Seq<char>)>),
    Score,
    Done,
}

/// Processes and the states that they are started in, as values.
pub open spec fn starts(v: Seq<(Egress, String)>) -> Seq<(Egress, Seq<char>)> {
    v.map_values(|s: (Egress, String)| (s.0, s.1@))
}

impl View for TickAct {
    type V = TickActView;

    open spec fn view(&self) -> TickActView {
        match *self {
            TickAct::StopAll => TickActView::StopAll,
            TickAct::Watch(f) => TickActView::Watch(f),
            TickAct::Settle(d, p) => TickActView::Settle(d@, p@),
            TickAct::Idle(i) => TickActView::Idle(i),
            TickAct::Note(n, d, p) => TickActView::Note(n@, d, p),
            TickAct::Fetch => TickActView::Fetch,
            TickAct::Update => TickActView::Update,
            TickAct::Start(v) => TickActView::Start(starts(v@)),
            TickAct::Score => TickActView::Score,
            TickAct::Done => TickActView::Done,
        }
    }
}

/// The state that a process is to be started in, where it is.
pub open spec fn start_in(s: StepView) -> Option<Seq<char>> {
    match s {
        StepView::Start(t) => Some(t),
        _ => None,
    }
}

/// A process in a list of those that are started, where it is.
pub open spec fn listed(egress: Egress, s: Option<Seq<char>>) -> Seq<(Egress, Seq<char>)> {
    match s {
        Some(t) => seq![(egress, t)],
        None => seq![],
    }
}

/// Processes in the order in which they are started: the direct one comes first, as it
/// never waits for the proxy.
pub open spec fn listed_both(d: Option<Seq<char>>, p: Option<Seq<char>>) -> Seq<(Egress, Seq<char>)> {
    listed(Egress::Direct, d) + listed(Egress::Proxied, p)
}

/// The state that a process is started in because the program changed: it is wanted, its
/// way out is there, and it is not about to be started anyway.
pub open spec fn joining(
    cfg: CloudflaredCfg,
    mode: OutboundMode,
    egress: Egress,
    planned: Option<Seq<char>>,
    now: Option<Seq<char>>,
) -> Option<Seq<char>> {
    if wanted(egress, cfg.proxy, mode) && planned is None {
        now
    } else {
        None
    }
}

/// A tick: how far it has come, and the states in which the direct and the proxied
/// process are to be started, where they are.
pub struct RoundView {
    pub stage: Stage,
    pub direct: Option<Seq<char>>,
    pub proxied: Option<Seq<char>>,
}

/// A tick at a later stage.
pub open spec fn later(r: RoundView, stage: Stage) -> RoundView {
    RoundView { stage, ..r }
}

/// How a tick starts. Without a key to the tunnel it is over at once.
pub open spec fn tick_begin(cfg: CloudflaredCfg) -> (RoundView, TickActView) {
    if cfg.key() is None {
        (RoundView { stage: Stage::Over, direct: None, proxied: None }, TickActView::StopAll)
    } else {
        (
            RoundView { stage: Stage::Watch, direct: None, proxied: None },
            TickActView::Watch(cfg.protocol !is Auto),
        )
    }
}

/// What follows once the program is there: a newer one is looked for where the proxy can
/// do that, and else the processes are started at once.
pub open spec fn with_program(r: RoundView, chores: bool) -> (RoundView, TickActView) {
    if chores {
        (later(r, Stage::Update), TickActView::Update)
    } else {
        (later(r, Stage::Start), TickActView::Start(listed_both(r.direct, r.proxied)))
    }
}

/// What follows once processes were stopped and held.
pub open spec fn after_settling(
    r: RoundView,
    cfg: CloudflaredCfg,
    up_ms: u64,
    update_due: bool,
    chores: bool,
    binary: bool,
) -> (RoundView, TickActView) {
    if r.direct is None && r.proxied is None {
        let idle = Idle {
            score: cfg.protocol is Auto && up_ms >= STARTUP_GRACE_MS,
            update: update_due && chores,
        };
        (
            later(
                r,
                if idle.update {
                    Stage::Idle
                } else {
                    Stage::Over
                },
            ),
            TickActView::Idle(idle),
        )
    } else if up_ms < STARTUP_GRACE_MS {
        (
            later(r, Stage::Over),
            TickActView::Note("waiting for system to settle"@, r.direct is Some, r.proxied is Some),
        )
    } else if binary {
        with_program(r, chores)
    } else if chores {
        (later(r, Stage::Fetch), TickActView::Fetch)
    } else {
        (
            later(r, Stage::Over),
            TickActView::Note(
                "waiting for the proxy to download cloudflared"@,
                r.direct is Some,
                r.proxied is Some,
            ),
        )
    }
}

/// What is said while the program is missing.
pub open spec fn missing_note(s: BinaryState) -> Seq<char> {
    match s {
        BinaryState::Ready => ""@,
        BinaryState::EgressDown => "waiting for a usable egress to download cloudflared"@,
        BinaryState::DownloadFailed => "cloudflared binary missing (download failed)"@,
    }
}

/// What follows an event of a tick. One that does not belong where the tick is ends it.
pub open spec fn tick_next(r: RoundView, cfg: CloudflaredCfg, mode: OutboundMode, e: TickEvent) -> (
    RoundView,
    TickActView,
) {
    match (r.stage, e) {
        (Stage::Watch, TickEvent::Watched(direct, proxied)) => {
            let d = tick_step(cfg, mode, Egress::Direct, direct);
            let p = tick_step(cfg, mode, Egress::Proxied, proxied);
            (
                RoundView { stage: Stage::Settle, direct: start_in(d), proxied: start_in(p) },
                TickActView::Settle(d, p),
            )
        },
        (Stage::Settle, TickEvent::Settled { up_ms, update_due, chores, binary }) => after_settling(
            r,
            cfg,
            up_ms,
            update_due,
            chores,
            binary,
        ),
        (Stage::Idle, TickEvent::Rested) => (later(r, Stage::IdleFetch), TickActView::Fetch),
        (Stage::IdleFetch, TickEvent::Fetched { state, .. }) => if state is Ready {
            (later(r, Stage::IdleUpdate), TickActView::Update)
        } else {
            (later(r, Stage::Over), TickActView::Done)
        },
        (Stage::IdleUpdate, TickEvent::Updated { changed, direct, proxied }) => (
            later(r, Stage::Over),
            if changed {
                TickActView::Start(
                    listed_both(
                        joining(cfg, mode, Egress::Direct, None, text::opt_string(direct)),
                        joining(cfg, mode, Egress::Proxied, None, text::opt_string(proxied)),
                    ),
                )
            } else {
                TickActView::Done
            },
        ),
        (Stage::Fetch, TickEvent::Fetched { state, chores }) => if state is Ready {
            with_program(r, chores)
        } else {
            (
                later(r, Stage::Over),
                TickActView::Note(missing_note(state), r.direct is Some, r.proxied is Some),
            )
        },
        (Stage::Update, TickEvent::Updated { changed, direct, proxied }) => (
            later(r, Stage::Start),
            TickActView::Start(
                listed_both(r.direct, r.proxied) + if changed {
                    listed_both(
                        joining(cfg, mode, Egress::Direct, r.direct, text::opt_string(direct)),
                        joining(cfg, mode, Egress::Proxied, r.proxied, text::opt_string(proxied)),
                    )
                } else {
                    seq![]
                },
            ),
        ),
        (Stage::Start, TickEvent::Started) => (
            later(r, Stage::Over),
            if cfg.protocol is Auto {
                TickActView::Score
            } else {
                TickActView::Done
            },
        ),
        _ => (later(r, Stage::Over), TickActView::Done),
    }
}

/// Appends a process to those that are started, where it is.
fn list_start(out: &mut Vec<(Egress, String)>, egress: Egress, s: &Option<String>)
    ensures
        starts(final(out)@) == starts(old(out)@) + listed(egress, text::opt_string(*s)),
{
    match s {
        Some(t) => {
            let ghost before = out@;
            out.push((egress, t.clone()));
            assert(starts(out@) =~= starts(before) + seq![(egress, t@)]);
        },
        None => {
            assert(starts(out@) =~= starts(out@) + Seq::<(Egress, Seq<char>)>::empty());
        },
    }
}

/// A tick of the supervisor: it takes what happened, and says what is done next.
pub struct Round {
    stage: Stage,
    direct: Option<String>,
    proxied: Option<String>,
}

impl View for Round {
    type V = RoundView;

    closed spec fn view(&self) -> RoundView {
        RoundView {
            stage: self.stage,
            direct: text::opt_string(self.direct),
            proxied: text::opt_string(self.proxied),
        }
    }
}

impl Round {
    /// Starts a tick.
    pub fn begin(cfg: &CloudflaredCfg) -> (r: (Round, TickAct))
        ensures
            (r.0@, r.1@) == tick_begin(*cfg),
    {
        if cfg.token().is_none() {
            (Round { stage: Stage::Over, direct: None, proxied: None }, TickAct::StopAll)
        } else {
            (
                Round { stage: Stage::Watch, direct: None, proxied: None },
                TickAct::Watch(!cfg.protocol.adaptive()),
            )
        }
    }

    /// Whether the tick is over.
    pub fn over(&self) -> (r: bool)
        ensures
            r == (self@.stage is Over),
    {
        match self.stage {
            Stage::Over => true,
            _ => false,
        }
    }

    /// Takes an event in, and says what is done next.
    pub fn next(&mut self, cfg: &CloudflaredCfg, mode: OutboundMode, event: TickEvent) -> (r: TickAct)
        ensures
            (final(self)@, r@) == tick_next(old(self)@, *cfg, mode, event),
    {
        match (self.stage, event) {
            (Stage::Watch, TickEvent::Watched(direct, proxied)) => {
                let t = tick_locked(cfg, mode, direct, proxied);
                self.stage = Stage::Settle;
                self.direct = match &t.direct {
                    Step::Start(s) => Some(s.clone()),
                    _ => None,
                };
                self.proxied = match &t.proxied {
                    Step::Start(s) => Some(s.clone()),
                    _ => None,
                };
                TickAct::Settle(t.direct, t.proxied)
            },
            (Stage::Settle, TickEvent::Settled { up_ms, update_due, chores, binary }) => {
                if self.direct.is_none() && self.proxied.is_none() {
                    let idle = idle_plan(cfg.protocol.adaptive(), up_ms, update_due, chores);
                    self.stage = if idle.update {
                        Stage::Idle
                    } else {
                        Stage::Over
                    };
                    TickAct::Idle(idle)
                } else {
                    match start_gate(up_ms, binary, chores) {
                        Gate::Wait(note) => {
                            self.stage = Stage::Over;
                            TickAct::Note(note, self.direct.is_some(), self.proxied.is_some())
                        },
                        Gate::Fetch => {
                            self.stage = Stage::Fetch;
                            TickAct::Fetch
                        },
                        Gate::Go(update) => self.go(update),
                    }
                }
            },
            (Stage::Idle, TickEvent::Rested) => {
                self.stage = Stage::IdleFetch;
                TickAct::Fetch
            },
            (Stage::IdleFetch, TickEvent::Fetched { state, chores: _ }) => match state {
                BinaryState::Ready => {
                    self.stage = Stage::IdleUpdate;
                    TickAct::Update
                },
                _ => {
                    self.stage = Stage::Over;
                    TickAct::Done
                },
            },
            (Stage::IdleUpdate, TickEvent::Updated { changed, direct, proxied }) => {
                self.stage = Stage::Over;
                if changed {
                    let mut out: Vec<(Egress, String)> = Vec::new();
                    assert(starts(out@) =~= Seq::<(Egress, Seq<char>)>::empty());
                    if want_egress(Egress::Direct, cfg.proxy, mode) {
                        list_start(&mut out, Egress::Direct, &direct);
                    }
                    if want_egress(Egress::Proxied, cfg.proxy, mode) {
                        list_start(&mut out, Egress::Proxied, &proxied);
                    }
                    proof {
                        let d = joining(*cfg, mode, Egress::Direct, None, text::opt_string(direct));
                        let p = joining(*cfg, mode, Egress::Proxied, None, text::opt_string(proxied));
                        assert(starts(out@) =~= listed_both(d, p));
                    }
                    TickAct::Start(out)
                } else {
                    TickAct::Done
                }
            },
            (Stage::Fetch, TickEvent::Fetched { state, chores }) => match state {
                BinaryState::Ready => self.go(chores),
                _ => {
                    self.stage = Stage::Over;
                    TickAct::Note(state.note(), self.direct.is_some(), self.proxied.is_some())
                },
            },
            (Stage::Update, TickEvent::Updated { changed, direct, proxied }) => {
                self.stage = Stage::Start;
                let mut out = self.planned();
                let ghost first = starts(out@);
                if changed {
                    if want_egress(Egress::Direct, cfg.proxy, mode) && self.direct.is_none() {
                        list_start(&mut out, Egress::Direct, &direct);
                    }
                    if want_egress(Egress::Proxied, cfg.proxy, mode) && self.proxied.is_none() {
                        list_start(&mut out, Egress::Proxied, &proxied);
                    }
                    proof {
                        let d = joining(
                            *cfg,
                            mode,
                            Egress::Direct,
                            self@.direct,
                            text::opt_string(direct),
                        );
                        let p = joining(
                            *cfg,
                            mode,
                            Egress::Proxied,
                            self@.proxied,
                            text::opt_string(proxied),
                        );
                        assert(starts(out@) =~= first + listed_both(d, p));
                    }
                } else {
                    assert(starts(out@) =~= first + Seq::<(Egress, Seq<char>)>::empty());
                }
                TickAct::Start(out)
            },
            (Stage::Start, TickEvent::Started) => {
                self.stage = Stage::Over;
                if cfg.protocol.adaptive() {
                    TickAct::Score
                } else {
                    TickAct::Done
                }
            },
            _ => {
                self.stage = Stage::Over;
                TickAct::Done
            },
        }
    }

    /// The processes that are to be started.
    fn planned(&self) -> (r: Vec<(Egress, String)>)
        ensures
            starts(r@) == listed_both(self@.direct, self@.proxied),
    {
        let mut out: Vec<(Egress, String)> = Vec::new();
        assert(starts(out@) =~= Seq::<(Egress, Seq<char>)>::empty());
        list_start(&mut out, Egress::Direct, &self.direct);
        list_start(&mut out, Egress::Proxied, &self.proxied);
        assert(starts(out@) =~= listed_both(self@.direct, self@.proxied));
        out
    }

    /// What follows once the program is there.
    fn go(&mut self, chores: bool) -> (r: TickAct)
        ensures
            (final(self)@, r@) == with_program(old(self)@, chores),
    {
        if chores {
            self.stage = Stage::Update;
            TickAct::Update
        } else {
            self.stage = Stage::Start;
            TickAct::Start(self.planned())
        }
    }
}

/// How many stages of a tick are left at most.
pub open spec fn stages_left(s: Stage) -> int {
    match s {
        Stage::Watch => 5,
        Stage::Settle => 4,
        Stage::Fetch => 3,
        Stage::Idle => 3,
        Stage::IdleFetch => 2,
        Stage::IdleUpdate => 1,
        Stage::Update => 2,
        Stage::Start => 1,
        Stage::Over => 0,
    }
}

/// Every event brings a tick nearer to its end, so that none goes on for ever.
pub proof fn law_tick_ends(r: RoundView, cfg: CloudflaredCfg, mode: OutboundMode, e: TickEvent)
    ensures
        r.stage !is Over ==> stages_left(tick_next(r, cfg, mode, e).0.stage) < stages_left(r.stage),
        r.stage is Over ==> tick_next(r, cfg, mode, e).0.stage is Over,
        r.stage is Over ==> tick_next(r, cfg, mode, e).1 is Done,
{
}

/// Nothing is started before the connections were looked at and processes that may not run
/// were stopped, nor before the gateway has settled and the program is there.
pub proof fn law_tick_order(r: RoundView, cfg: CloudflaredCfg, mode: OutboundMode, e: TickEvent)
    requires
        tick_next(r, cfg, mode, e).1 is Start,
    ensures
        r.stage is Settle || r.stage is Fetch || r.stage is Update || r.stage is IdleUpdate,
        r.stage is Settle ==> (e matches TickEvent::Settled { up_ms, binary, chores, .. } && up_ms
            >= STARTUP_GRACE_MS && binary && !chores),
        r.stage is Fetch ==> (e matches TickEvent::Fetched { state, .. } && state is Ready),
        r.stage is IdleUpdate ==> (e matches TickEvent::Updated { changed, .. } && changed),
        !(tick_begin(cfg).1 is Start),
{
}

/// A newer program is looked for only where the program is there: it was found while
/// processes wait to be started, or it was fetched just before.
pub proof fn law_update_needs_the_program(
    r: RoundView,
    cfg: CloudflaredCfg,
    mode: OutboundMode,
    e: TickEvent,
)
    requires
        tick_next(r, cfg, mode, e).1 is Update,
    ensures
        match e {
            TickEvent::Settled { binary, chores, .. } => r.stage is Settle && binary && chores,
            TickEvent::Fetched { state, chores } => state is Ready && (r.stage is IdleFetch
                || r.stage is Fetch && chores),
            _ => false,
        },
        tick_next(r, cfg, mode, e).0.stage is Update || tick_next(r, cfg, mode, e).0.stage
            is IdleUpdate,
{
}

/// Whether only processes that are wanted are to be started.
pub open spec fn plans_wanted(r: RoundView, cfg: CloudflaredCfg, mode: OutboundMode) -> bool {
    &&& r.direct is Some ==> wanted(Egress::Direct, cfg.proxy, mode)
    &&& r.proxied is Some ==> wanted(Egress::Proxied, cfg.proxy, mode)
}

/// Only processes that are wanted are ever started, as long as the settings stay the same
/// during a tick.
pub proof fn law_only_wanted_start(r: RoundView, cfg: CloudflaredCfg, mode: OutboundMode, e: TickEvent)
    requires
        plans_wanted(r, cfg, mode),
    ensures
        plans_wanted(tick_begin(cfg).0, cfg, mode),
        plans_wanted(tick_next(r, cfg, mode, e).0, cfg, mode),
        tick_next(r, cfg, mode, e).1 matches TickActView::Start(v) ==> forall|i: int|
            0 <= i < v.len() ==> wanted((#[trigger] v[i]).0, cfg.proxy, mode),
{
}

/// Whether an attempt can go on: where edges should be picked and none answered,
/// the way out itself must work.
pub fn rung_possible(pin_edges: bool, edges: usize, link_ready: bool) -> (r: bool)
    ensures
        r == !(pin_edges && edges == 0 && !link_ready),
{
    !(pin_edges && edges == 0 && !link_ready)
}

/// What follows an attempt to bring a process up.
#[derive(Debug, Clone, Copy, PartialEq, Eq, Structural)]
pub enum RungEnd {
    /// It is stopped and the next attempt is made.
    Next,
    /// It stays, and its protocol is noted as the one that works.
    KeepNoted,
    /// It stays.
    Keep,
}

/// Whether the process is waited for after an attempt: only where another attempt
/// could follow.
pub fn waits_ready(adaptive: bool, i: usize, last: usize) -> (r: bool)
    ensures
        r == (adaptive && i < last),
{
    adaptive && i < last
}

/// What follows an attempt to bring a process up.
pub fn after_rung(adaptive: bool, i: usize, last: usize, ready: bool) -> (r: RungEnd)
    ensures
        r == if adaptive && i < last && !ready {
            RungEnd::Next
        } else if adaptive && i > 0 {
            RungEnd::KeepNoted
        } else {
            RungEnd::Keep
        },
{
    if waits_ready(adaptive, i, last) && !ready {
        RungEnd::Next
    } else if adaptive && i > 0 {
        RungEnd::KeepNoted
    } else {
        RungEnd::Keep
    }
}

/// The attempts to bring a process up, one after the other.
pub struct Climb {
    rungs: Vec<Rung>,
    at: usize,
    adaptive: bool,
}

impl Climb {
    /// The attempts.
    pub closed spec fn ladder(&self) -> Seq<Rung> {
        self.rungs@
    }

    /// The place of the attempt that is made.
    pub closed spec fn place(&self) -> int {
        self.at as int
    }

    /// Whether the protocol may change.
    pub closed spec fn may_change(&self) -> bool {
        self.adaptive
    }

    /// There is an attempt.
    pub open spec fn wf(&self) -> bool {
        0 <= self.place() < self.ladder().len()
    }

    /// The first attempt is made.
    pub fn new(policy: CfProtocol, fresh: Option<(Protocol, VerdictSource)>) -> (r: Climb)
        ensures
            r.wf(),
            r.ladder() == rungs(policy, fresh),
            r.place() == 0,
            r.may_change() == (policy is Auto),
    {
        Climb { rungs: ladder_for(policy, fresh), at: 0, adaptive: policy.adaptive() }
    }

    /// The attempt that is made: the protocol, why it is tried, and whether edges are
    /// picked for it.
    pub fn rung(&self) -> (r: Rung)
        requires
            self.wf(),
        ensures
            r == self.ladder()[self.place()],
    {
        self.rungs[self.at]
    }

    /// Whether the process is waited for: only where another attempt could follow.
    pub fn waits(&self) -> (r: bool)
        requires
            self.wf(),
        ensures
            r == (self.may_change() && self.place() < self.ladder().len() - 1),
    {
        waits_ready(self.adaptive, self.at, self.rungs.len() - 1)
    }

    /// What follows the attempt. The next one is made where the process did not come up
    /// and there is a next one; an attempt that is kept stays.
    pub fn finish(&mut self, ready: bool) -> (r: RungEnd)
        requires
            old(self).wf(),
        ensures
            final(self).wf(),
            final(self).ladder() == old(self).ladder(),
            final(self).may_change() == old(self).may_change(),
            r == climb_end(
                old(self).may_change(),
                old(self).place(),
                old(self).ladder().len() - 1,
                ready,
            ),
            final(self).place() == old(self).place() + if r == RungEnd::Next {
                1int
            } else {
                0
            },
    {
        let r = after_rung(self.adaptive, self.at, self.rungs.len() - 1, ready);
        match r {
            RungEnd::Next => {
                self.at = self.at + 1;
            },
            _ => {},
        }
        r
    }
}

/// What follows an attempt to bring a process up.
pub open spec fn climb_end(adaptive: bool, i: int, last: int, ready: bool) -> RungEnd {
    if adaptive && i < last && !ready {
        RungEnd::Next
    } else if adaptive && i > 0 {
        RungEnd::KeepNoted
    } else {
        RungEnd::Keep
    }
}

/// The last attempt is kept whether the process comes up at once or not, so that there
/// are at most as many attempts as the ladder has.
pub proof fn law_climb_ends(adaptive: bool, last: int, ready: bool)
    ensures
        climb_end(adaptive, last, last, ready) != RungEnd::Next,
        !adaptive ==> climb_end(adaptive, 0, last, ready) == RungEnd::Keep,
{
}

/// What is known of the program.
#[derive(Debug, Clone, Copy, PartialEq, Eq, Structural)]
pub struct Program {
    /// When it was last fetched, in milliseconds.
    pub last_download: Option<u64>,
    /// When a newer one was last looked for, in milliseconds.
    pub last_update: Option<u64>,
    /// Whether the way out worked at the last attempt.
    pub link_ok: bool,
}

/// What is done to have the program.
#[derive(Debug, Clone, Copy, PartialEq, Eq, Structural)]
pub enum Fetch {
    /// Nothing more: this is its state.
    Settled(BinaryState),
    /// It is fetched now.
    Download,
}

/// What is done to have the program. It is fetched where the way out works, and at
/// once where it has just come back; else not before a pause is over.
pub open spec fn fetch_plan(g: Program, present: bool, link: bool, now_ms: u64, retry_ms: u64) -> Fetch {
    if present {
        Fetch::Settled(BinaryState::Ready)
    } else if !link {
        Fetch::Settled(BinaryState::EgressDown)
    } else if g.link_ok && (g.last_download matches Some(t) && now_ms - t < retry_ms) {
        Fetch::Settled(BinaryState::DownloadFailed)
    } else {
        Fetch::Download
    }
}

impl Program {
    /// Nothing is known.
    pub fn new() -> (r: Program)
        ensures
            r.last_download is None,
            r.last_update is None,
            !r.link_ok,
    {
        Program { last_download: None, last_update: None, link_ok: false }
    }

    /// What is done to have the program.
    pub fn ensure_binary(&mut self, present: bool, link: bool, now_ms: u64, retry_ms: u64) -> (r: Fetch)
        ensures
            r == fetch_plan(*old(self), present, link, now_ms, retry_ms),
            final(self).last_update == old(self).last_update,
            final(self).link_ok == if present {
                old(self).link_ok
            } else {
                link
            },
            final(self).last_download == if r is Download {
                Some(now_ms)
            } else {
                old(self).last_download
            },
    {
        if present {
            return Fetch::Settled(BinaryState::Ready);
        }
        if !link {
            self.link_ok = false;
            return Fetch::Settled(BinaryState::EgressDown);
        }
        let came_back = !self.link_ok;
        self.link_ok = true;
        if !came_back {
            match self.last_download {
                Some(t) => if now_ms < t || now_ms - t < retry_ms {
                    return Fetch::Settled(BinaryState::DownloadFailed);
                },
                None => {},
            }
        }
        self.last_download = Some(now_ms);
        Fetch::Download
    }

    /// Whether a newer program is to be looked for.
    pub fn update_due(&self, now_ms: u64) -> (r: bool)
        ensures
            r == match self.last_update {
                Some(t) => now_ms - t >= UPDATE_INTERVAL_MS,
                None => true,
            },
    {
        match self.last_update {
            Some(t) => now_ms.saturating_sub(t) >= UPDATE_INTERVAL_MS,
            None => true,
        }
    }
}

/// An attempt that was not made does not start the pause.
pub proof fn law_no_pause_without_attempt(g: Program, now_ms: u64, later_ms: u64, retry_ms: u64)
    requires
        g.last_download is None,
    ensures
        fetch_plan(g, false, false, now_ms, retry_ms) == Fetch::Settled(BinaryState::EgressDown),
        fetch_plan(g, false, true, later_ms, retry_ms) == Fetch::Download,
{
}

/// The pause after a failed download, in milliseconds.
pub fn download_retry(mode: OutboundMode) -> (r: u64)
    ensures
        r == match mode {
            OutboundMode::Free => DOWNLOAD_RETRY_DIRECT_MS,
            _ => DOWNLOAD_RETRY_PROXY_MS,
        },
{
    match mode {
        OutboundMode::Free => DOWNLOAD_RETRY_DIRECT_MS,
        _ => DOWNLOAD_RETRY_PROXY_MS,
    }
}

/// Whether there is room to prepare a newer program: three times its size, where
/// that is known.
pub fn room_for_update(free: Option<u64>, need: u64) -> (r: bool)
    ensures
        r == match free {
            Some(f) => f >= need * 3,
            None => true,
        },
{
    match free {
        Some(f) => f as u128 >= need as u128 * 3,
        None => true,
    }
}

/// Whether a file was replaced: it is there, and its size or time is another.
pub fn replaced(before: Option<(u64, u128)>, after: Option<(u64, u128)>) -> (r: bool)
    ensures
        r == (after is Some && after != before),
{
    match (before, after) {
        (_, None) => false,
        (None, Some(_)) => true,
        (Some(b), Some(a)) => a.0 != b.0 || a.1 != b.1,
    }
}

/// The name of the program for a machine.
pub fn cf_asset(arm: bool) -> (r: &'static str)
    ensures
        r@ == if arm {
            "cloudflared-linux-arm64"@
        } else {
            "cloudflared-linux-amd64"@
        },
{
    if arm {
        "cloudflared-linux-arm64"
    } else {
        "cloudflared-linux-amd64"
    }
}

/// The number of a machine in a program.
pub open spec fn machine_of(arm: bool) -> u16 {
    if arm {
        0xb7
    } else {
        0x3e
    }
}

/// The number of a machine in a program.
pub fn cf_elf_machine(arm: bool) -> (r: u16)
    ensures
        r == machine_of(arm),
{
    if arm {
        0xb7
    } else {
        0x3e
    }
}

/// Why a file is not the program.
#[derive(Debug, Clone, Copy, PartialEq, Eq, Structural)]
pub enum ElfErr {
    TooSmall(u64),
    NotElf,
    Machine(u16),
}

/// The text of why a file is not the program.
pub open spec fn elf_err_text(e: ElfErr, arm: bool) -> Seq<char> {
    match e {
        ElfErr::TooSmall(n) => "too small: "@ + text::decimal(n as int) + " bytes"@,
        ElfErr::NotElf => "not an ELF"@,
        ElfErr::Machine(m) => "ELF e_machine 0x"@ + text::written(m as int, 16) + ", expected 0x"@
            + text::written(machine_of(arm) as int, 16),
    }
}

impl ElfErr {
    /// The text of why a file is not the program.
    pub fn text(self, arm: bool) -> (r: String)
        ensures
            r@ == elf_err_text(self, arm),
    {
        match self {
            ElfErr::TooSmall(n) => {
                let mut out = "too small: ".to_owned();
                text::push_decimal(&mut out, n);
                out.append(" bytes");
                out
            },
            ElfErr::NotElf => "not an ELF".to_owned(),
            ElfErr::Machine(m) => {
                let mut out = "ELF e_machine 0x".to_owned();
                text::push_chars(&mut out, text::write_number(m as u64, 16).as_slice());
                out.append(", expected 0x");
                text::push_chars(
                    &mut out,
                    text::write_number(cf_elf_machine(arm) as u64, 16).as_slice(),
                );
                out
            },
        }
    }
}

/// What a file is: its size and its first bytes tell.
pub open spec fn elf_verdict(len: u64, head: Seq<u8>, arm: bool) -> Result<(), ElfErr> {
    let machine = head[18] + head[19] * 256;
    if len < 1_000_000 {
        Err(ElfErr::TooSmall(len))
    } else if !(head[0] == 0x7f && head[1] == 69 && head[2] == 76 && head[3] == 70) {
        Err(ElfErr::NotElf)
    } else if machine != machine_of(arm) {
        Err(ElfErr::Machine(machine as u16))
    } else {
        Ok(())
    }
}

/// Whether a file is the program for a machine: not too small, an executable, and
/// made for the machine.
pub fn verify_elf(len: u64, head: &[u8], arm: bool) -> (r: Result<(), ElfErr>)
    requires
        head@.len() >= 20,
    ensures
        r == elf_verdict(len, head@, arm),
{
    if len < 1_000_000 {
        return Err(ElfErr::TooSmall(len));
    }
    if !(head[0] == 0x7f && head[1] == 69 && head[2] == 76 && head[3] == 70) {
        return Err(ElfErr::NotElf);
    }
    let machine: u16 = head[18] as u16 + head[19] as u16 * 256;
    if machine != cf_elf_machine(arm) {
        return Err(ElfErr::Machine(machine));
    }
    Ok(())
}

/// Whether a line of the log is chatter that the gateway itself causes.
pub fn is_noise(line: &str) -> (r: bool)
    ensures
        r == ((text::holds(line@, "Collection started collector="@) || text::holds(
            line@,
            "Collection finished collector="@,
        )) && text::holds(line@, " INF "@)),
{
    let cs = text::chars_of(line);
    (text::contains(cs.as_slice(), "Collection started collector=") || text::contains(
        cs.as_slice(),
        "Collection finished collector=",
    )) && text::contains(cs.as_slice(), " INF ")
}

/// Whether a character ends a line.
pub open spec fn line_ends() -> spec_fn(char) -> bool {
    |c: char| c == '\r' || c == '\n'
}

/// A line of the log as it is kept; `None` for one that is empty or chatter.
pub open spec fn log_line(egress: Egress, raw: Seq<char>) -> Option<Seq<char>> {
    let t = text::trim_end_of(raw, line_ends());
    let noise = (text::holds(t, "Collection started collector="@) || text::holds(
        t,
        "Collection finished collector="@,
    )) && text::holds(t, " INF "@);
    if t.len() == 0 || noise {
        None
    } else {
        Some("["@ + egress_text(egress) + "] "@ + t)
    }
}

/// A line of the log as it is kept.
pub fn pump_line(egress: Egress, raw: &str) -> (r: Option<String>)
    ensures
        text::opt_string(r) == log_line(egress, raw@),
{
    let cs = text::chars_of(raw);
    let n: usize = cs.len();
    let mut end: usize = n;
    while end > 0 && (cs[end - 1] == '\r' || cs[end - 1] == '\n')
        invariant
            end <= n,
            n == cs@.len(),
            forall|j: int| end <= j < n ==> line_ends()(#[trigger] cs@[j]),
        decreases end,
    {
        end = end - 1;
    }
    proof {
        text::lemma_trail(cs@, line_ends(), n - end);
    }
    let t = vstd::slice::slice_subrange(cs.as_slice(), 0, end);
    assert(t@ =~= text::trim_end_of(raw@, line_ends()));
    let line = text::str_of(t);
    if t.len() == 0 || is_noise(line.as_str()) {
        return None;
    }
    let mut out = "[".to_owned();
    out.append(egress.as_str());
    out.append("] ");
    out.append(line.as_str());
    assert(out@ =~= "["@ + egress_text(egress) + "] "@ + t@);
    Some(out)
}

/// The arguments of a process.
pub open spec fn replica_args(
    token: Seq<char>,
    egress: Egress,
    proto: Protocol,
    edges: Seq<Seq<char>>,
) -> Seq<Seq<char>> {
    seq![
        "tunnel"@,
        "--no-autoupdate"@,
        "--protocol"@,
        cf_config::protocol_text(proto),
        "--metrics"@,
        metrics_of(egress),
    ] + edge_args(edges, edges.len() as int) + seq!["run"@, "--token"@, token]
}

/// The arguments for the first `n` edges.
pub open spec fn edge_args(edges: Seq<Seq<char>>, n: int) -> Seq<Seq<char>>
    decreases n,
{
    if n <= 0 {
        Seq::empty()
    } else {
        edge_args(edges, n - 1).push("--edge"@).push(edges[n - 1])
    }
}

/// The arguments of a process.
pub fn replica_argv(token: &str, egress: Egress, proto: Protocol, edges: &[String]) -> (r: Vec<String>)
    ensures
        text::strings(r@) == replica_args(token@, egress, proto, text::strings(edges@)),
{
    let ghost es = text::strings(edges@);
    let mut argv: Vec<String> = Vec::new();
    argv.push("tunnel".to_owned());
    argv.push("--no-autoupdate".to_owned());
    argv.push("--protocol".to_owned());
    argv.push(proto.as_str().to_owned());
    argv.push("--metrics".to_owned());
    argv.push(egress.metrics_addr().to_owned());
    let ghost head = text::strings(argv@);
    assert(head =~= seq![
        "tunnel"@,
        "--no-autoupdate"@,
        "--protocol"@,
        cf_config::protocol_text(proto),
        "--metrics"@,
        metrics_of(egress),
    ]);
    let mut i: usize = 0;
    assert(text::strings(argv@) =~= head + edge_args(es, 0));
    while i < edges.len()
        invariant
            i <= edges@.len(),
            es == text::strings(edges@),
            text::strings(argv@) == head + edge_args(es, i as int),
        decreases edges@.len() - i,
    {
        let ghost before = text::strings(argv@);
        argv.push("--edge".to_owned());
        argv.push(edges[i].clone());
        assert(es[i as int] == edges@[i as int]@);
        assert(text::strings(argv@) =~= before.push("--edge"@).push(es[i as int]));
        assert(text::strings(argv@) =~= head + edge_args(es, i + 1));
        i = i + 1;
    }
    let ghost before = text::strings(argv@);
    argv.push("run".to_owned());
    argv.push("--token".to_owned());
    argv.push(token.to_owned());
    assert(text::strings(argv@) =~= before + seq!["run"@, "--token"@, token@]);
    argv
}

/// The line of an account.
pub open spec fn passwd_text(e: Egress) -> Seq<char> {
    user_of(e) + ":x:"@ + text::decimal(account_of(e).0 as int) + ":"@ + text::decimal(
        account_of(e).1 as int,
    ) + ":"@ + user_of(e) + ":"@ + home_of(e) + ":/bin/false\n"@
}

/// The line of an account.
pub fn passwd_line(e: Egress) -> (r: String)
    ensures
        r@ == passwd_text(e),
{
    let (uid, gid) = e.uid_gid();
    let mut out = e.user_name().to_owned();
    out.append(":x:");
    text::push_decimal(&mut out, uid as u64);
    out.append(":");
    text::push_decimal(&mut out, gid as u64);
    out.append(":");
    out.append(e.user_name());
    out.append(":");
    out.append(e.home());
    out.append(":/bin/false\n");
    assert(out@ =~= passwd_text(e));
    out
}

/// The line of the group of an account.
pub fn group_line(e: Egress) -> (r: String)
    ensures
        r@ == user_of(e) + ":x:"@ + text::decimal(account_of(e).1 as int) + ":\n"@,
{
    let (_, gid) = e.uid_gid();
    let mut out = e.user_name().to_owned();
    out.append(":x:");
    text::push_decimal(&mut out, gid as u64);
    out.append(":\n");
    out
}

/// Whether a line starts with a text, from a place on.
pub open spec fn any_starts(ls: Seq<Seq<char>>, prefix: Seq<char>) -> bool {
    exists|i: int| 0 <= i < ls.len() && text::starts(#[trigger] ls[i], prefix)
}

/// What is added to a file of accounts so that it holds a line; `None` where one
/// with the same start is there. A last line without an end is ended first.
pub open spec fn addition(existing: Seq<char>, prefix: Seq<char>, line: Seq<char>) -> Option<Seq<char>> {
    if any_starts(text::lines(existing), prefix) {
        None
    } else if existing.len() > 0 && existing.last() != '\n' {
        Some("\n"@ + line)
    } else {
        Some(line)
    }
}

/// What is added to a file of accounts so that it holds a line.
pub fn append_line_if_missing(existing: &str, prefix: &str, line: &str) -> (r: Option<String>)
    ensures
        text::opt_string(r) == addition(existing@, prefix@, line@),
{
    let cs = text::chars_of(existing);
    let ls = text::lines_of(cs.as_slice());
    let ghost all = text::lines(existing@);
    let mut i: usize = 0;
    while i < ls.len()
        invariant
            i <= ls@.len(),
            all == text::texts(ls@),
            all == text::lines(existing@),
            forall|j: int| 0 <= j < i ==> !text::starts(#[trigger] all[j], prefix@),
        decreases ls@.len() - i,
    {
        assert(all[i as int] == ls@[i as int]@);
        if text::starts_with(ls[i], prefix) {
            assert(any_starts(all, prefix@));
            return None;
        }
        i = i + 1;
    }
    let n: usize = cs.len();
    if n > 0 && cs[n - 1] != '\n' {
        let mut out = "\n".to_owned();
        out.append(line);
        Some(out)
    } else {
        Some(line.to_owned())
    }
}

/// The account of a process, from a place in the lines of its status on.
pub open spec fn uid_from(ls: Seq<Seq<char>>, i: int) -> Option<u32>
    decreases ls.len() - i,
{
    if i < 0 || i >= ls.len() {
        None
    } else {
        match text::after(ls[i], "Uid:"@) {
            Some(rest) => {
                let w = text::words(rest);
                if w.len() > 0 {
                    match text::number(w[0], 10, u32::MAX as int) {
                        Some(n) => Some(n as u32),
                        None => None,
                    }
                } else {
                    None
                }
            },
            None => uid_from(ls, i + 1),
        }
    }
}

/// The account of a process, from its status.
pub fn proc_uid(status: &str) -> (r: Option<u32>)
    ensures
        r == uid_from(text::lines(status@), 0),
{
    let cs = text::chars_of(status);
    let ls = text::lines_of(cs.as_slice());
    let ghost all = text::lines(status@);
    let mut i: usize = 0;
    while i < ls.len()
        invariant
            i <= ls@.len(),
            all == text::texts(ls@),
            all == text::lines(status@),
            uid_from(all, 0) == uid_from(all, i as int),
        decreases ls@.len() - i,
    {
        assert(all[i as int] == ls@[i as int]@);
        match text::strip_prefix(ls[i], "Uid:") {
            Some(rest) => {
                let w = text::words_of(rest);
                assert(text::words(rest@) == text::texts(w@));
                if w.len() == 0 {
                    return None;
                }
                assert(text::words(rest@)[0] == w@[0]@);
                return match text::parse_number(w[0], 10, u32::MAX as u64) {
                    Some(n) => Some(n as u32),
                    None => None,
                };
            },
            None => {},
        }
        i = i + 1;
    }
    None
}

/// Whether the name of a process is that of the program.
pub fn proc_is_cf(comm: Option<&str>) -> (r: bool)
    ensures
        r == match comm {
            Some(c) => text::trimmed(c@) == CF_LABEL@,
            None => false,
        },
{
    match comm {
        Some(c) => {
            let cs = text::chars_of(c);
            text::same(text::trim(cs.as_slice()), CF_LABEL)
        },
        None => false,
    }
}

/// The version that the program tells.
pub open spec fn version_in(out: Option<Seq<char>>) -> Seq<char> {
    match out {
        Some(o) => {
            let ls = text::lines(o);
            let v = if ls.len() > 0 {
                text::trimmed(ls[0])
            } else {
                Seq::empty()
            };
            if v.len() > 0 {
                v
            } else {
                "unknown"@
            }
        },
        None => "unknown"@,
    }
}

/// The version that the program tells.
pub fn cf_version(out: Option<&str>) -> (r: String)
    ensures
        r@ == version_in(text::opt_str(out)),
{
    match out {
        Some(o) => {
            let cs = text::chars_of(o);
            let ls = text::lines_of(cs.as_slice());
            assert(text::lines(o@) == text::texts(ls@));
            if ls.len() == 0 {
                return "unknown".to_owned();
            }
            assert(text::lines(o@)[0] == ls@[0]@);
            let v = text::trim(ls[0]);
            if v.len() > 0 {
                text::str_of(v)
            } else {
                "unknown".to_owned()
            }
        },
        None => "unknown".to_owned(),
    }
}

/// What is said of a process: why it does not run, or `None` where it does.
pub open spec fn note_of(
    enabled: bool,
    is_wanted: bool,
    mode: OutboundMode,
    egress: Egress,
    running: bool,
    note: Option<&'static str>,
) -> Option<Seq<char>> {
    if !enabled {
        Some("no token"@)
    } else if !is_wanted {
        Some(
            if mode is Free {
                "no separate proxy egress in free mode"@
            } else if egress is Direct {
                "disabled by cf_proxy=yes"@
            } else {
                "disabled by cf_proxy=no"@
            },
        )
    } else if running {
        None
    } else {
        match note {
            Some(n) => Some(n@),
            None => Some("starting"@),
        }
    }
}

/// What is said of a process.
pub fn status_note(
    enabled: bool,
    is_wanted: bool,
    mode: OutboundMode,
    egress: Egress,
    running: bool,
    note: Option<&'static str>,
) -> (r: Option<&'static str>)
    ensures
        text::opt_str(r) == note_of(enabled, is_wanted, mode, egress, running, note),
{
    if !enabled {
        return Some("no token");
    }
    if !is_wanted {
        return match (mode, egress) {
            (OutboundMode::Free, _) => Some("no separate proxy egress in free mode"),
            (_, Egress::Direct) => Some("disabled by cf_proxy=yes"),
            (_, Egress::Proxied) => Some("disabled by cf_proxy=no"),
        };
    }
    if running {
        return None;
    }
    match note {
        Some(n) => Some(n),
        None => Some("starting"),
    }
}

/// How a process is.
pub struct CfProcStatus {
    pub egress: Egress,
    pub running: bool,
    pub pid: Option<u32>,
    pub uptime: Option<u64>,
    pub wanted: bool,
    pub note: Option<&'static str>,
    pub metrics: &'static str,
    pub edges: Vec<String>,
    pub uid: u32,
    pub protocol: Option<Protocol>,
    pub protocol_why: ProtocolWhy,
    pub next_probe_min: Option<u64>,
    /// The latest comparison of the protocols.
    pub last_round: Option<LastRound>,
}

/// How the tunnel is.
pub struct CfStatus {
    pub enabled: bool,
    pub proxy_mode: CfProxyMode,
    pub protocol: CfProtocol,
    pub binary: bool,
    pub version: Option<String>,
    pub procs: Vec<CfProcStatus>,
}

/// What a look at a process found.
pub struct Look {
    /// Its number, where it runs.
    pub pid: Option<u32>,
    pub uptime: Option<u64>,
    /// The verdict that counts.
    pub fresh: Option<(Protocol, VerdictSource)>,
    /// How long the next comparison has to wait, in seconds.
    pub wait_sec: u64,
    /// The latest comparison of the protocols.
    pub last_round: Option<LastRound>,
}

/// A copy of texts.
fn copy_texts(v: &Vec<String>) -> (r: Vec<String>)
    ensures
        text::strings(r@) == text::strings(v@),
{
    let mut out: Vec<String> = Vec::new();
    let mut i: usize = 0;
    while i < v.len()
        invariant
            i <= v@.len(),
            out@.len() == i,
            forall|j: int| 0 <= j < i ==> (#[trigger] out@[j])@ == v@[j]@,
        decreases v@.len() - i,
    {
        out.push(v[i].clone());
        i = i + 1;
    }
    assert(text::strings(out@) =~= text::strings(v@));
    out
}

/// What the status says of a process.
pub open spec fn status_ok(
    r: CfProcStatus,
    egress: Egress,
    p: Proc,
    look: Look,
    cfg: CloudflaredCfg,
    mode: OutboundMode,
) -> bool {
    let enabled = cfg.key() is Some;
    &&& r.egress == egress
    &&& r.running == (look.pid is Some)
    &&& r.pid == look.pid
    &&& r.uptime == look.uptime
    &&& r.wanted == (enabled && wanted(egress, cfg.proxy, mode))
    &&& text::opt_str(r.note) == note_of(enabled, r.wanted, mode, egress, r.running, p.note)
    &&& r.metrics@ == metrics_of(egress)
    &&& text::strings(r.edges@) == text::strings(p.edges@)
    &&& r.uid == account_of(egress).0
    &&& r.protocol == p.protocol
    &&& r.protocol_why == why(p.protocol, p.protocol_why, look.fresh)
    &&& r.next_probe_min == if r.wanted && cfg.protocol is Auto {
        Some((look.wait_sec / 60) as u64)
    } else {
        None
    }
    &&& cf_quality::opt_round(r.last_round) == if cfg.protocol is Auto {
        cf_quality::opt_round(look.last_round)
    } else {
        None
    }
}

/// What the status says of a process.
pub fn proc_status(egress: Egress, p: &Proc, look: &Look, cfg: &CloudflaredCfg, mode: OutboundMode) -> (r:
    CfProcStatus)
    ensures
        status_ok(r, egress, *p, *look, *cfg, mode),
{
    let enabled = cfg.token().is_some();
    let is_wanted = enabled && want_egress(egress, cfg.proxy, mode);
    let running = look.pid.is_some();
    CfProcStatus {
        egress,
        running,
        pid: look.pid,
        uptime: look.uptime,
        wanted: is_wanted,
        note: status_note(enabled, is_wanted, mode, egress, running, p.note),
        metrics: egress.metrics_addr(),
        edges: copy_texts(&p.edges),
        uid: egress.uid_gid().0,
        protocol: p.protocol,
        protocol_why: why_now(p.protocol, p.protocol_why, look.fresh),
        next_probe_min: if is_wanted && cfg.protocol.adaptive() {
            Some(look.wait_sec / 60)
        } else {
            None
        },
        last_round: if cfg.protocol.adaptive() {
            cf_quality::copy_round(&look.last_round)
        } else {
            None
        },
    }
}

/// How the tunnel is: what the settings ask for, whether the program is there and which
/// one it is, and how either process is.
pub fn status(
    cfg: &CloudflaredCfg,
    mode: OutboundMode,
    direct: (&Proc, &Look),
    proxied: (&Proc, &Look),
    version: Option<String>,
) -> (r: CfStatus)
    ensures
        r.enabled == (cfg.key() is Some),
        r.proxy_mode == cfg.proxy,
        r.protocol == cfg.protocol,
        r.binary == (version is Some),
        text::opt_string(r.version) == text::opt_string(version),
        r.procs@.len() == 2,
        status_ok(r.procs@[0], Egress::Direct, *direct.0, *direct.1, *cfg, mode),
        status_ok(r.procs@[1], Egress::Proxied, *proxied.0, *proxied.1, *cfg, mode),
{
    let mut procs: Vec<CfProcStatus> = Vec::new();
    procs.push(proc_status(Egress::Direct, direct.0, direct.1, cfg, mode));
    procs.push(proc_status(Egress::Proxied, proxied.0, proxied.1, cfg, mode));
    CfStatus {
        enabled: cfg.token().is_some(),
        proxy_mode: cfg.proxy,
        protocol: cfg.protocol,
        binary: version.is_some(),
        version,
        procs,
    }
}

/// Why a restart is refused; `None` where it is not.
pub fn restart_refusal(cfg: &CloudflaredCfg, which: Option<Egress>, mode: OutboundMode) -> (r: Option<
    &'static str,
>)
    ensures
        text::opt_str(r) == if cfg.key() is None {
            Some("cloudflared_token not configured"@)
        } else if which matches Some(e) && !wanted(e, cfg.proxy, mode) {
            Some("that replica is disabled in this configuration"@)
        } else {
            None
        },
{
    if cfg.token().is_none() {
        return Some("cloudflared_token not configured");
    }
    match which {
        Some(e) => if !want_egress(e, cfg.proxy, mode) {
            return Some("that replica is disabled in this configuration");
        },
        None => {},
    }
    None
}

/// Whether the protocols of a running process are compared.
pub fn scoring_wanted(cfg: &CloudflaredCfg, egress: Egress, mode: OutboundMode) -> (r: bool)
    ensures
        r == (cfg.key() is Some && cfg.protocol is Auto && wanted(egress, cfg.proxy, mode)),
{
    cfg.token().is_some() && cfg.protocol.adaptive() && want_egress(egress, cfg.proxy, mode)
}

/// Whether the protocols of a process are compared in the background: there is no
/// verdict that counts, and the next comparison need not wait.
pub fn scores_now(
    cfg: &CloudflaredCfg,
    egress: Egress,
    mode: OutboundMode,
    kept: Option<&str>,
    gate: &str,
    now: u64,
) -> (r: bool)
    ensures
        r ==> wanted(egress, cfg.proxy, mode),
        r ==> cf_quality::fresh(text::opt_str(kept), now) is None,
        r == (wanted(egress, cfg.proxy, mode) && cf_quality::fresh(text::opt_str(kept), now) is None
            && {
            let (at, fails) = cf_quality::gate_in(gate@);
            let since: int = if now > at {
                now - at
            } else {
                0
            };
            cf_quality::pause(fails, false) <= since
        }),
{
    want_egress(egress, cfg.proxy, mode) && cf_quality::fresh_verdict(kept, now).is_none()
        && cf_quality::probe_wait(gate, now) == 0
}

/// Each way out has its own account, home, user and metrics, and nobody else's.
pub proof fn law_what_a_way_out_has()
    ensures
        account_of(Egress::Proxied) == (7844u32, 7844u32),
        account_of(Egress::Direct) == (7845u32, 7845u32),
        home_of(Egress::Proxied) == "/tmp/cloudflared"@,
        home_of(Egress::Direct) == "/tmp/cloudflared-direct"@,
        user_of(Egress::Proxied) == "cloudflared"@,
        user_of(Egress::Direct) == "cloudflared-direct"@,
        metrics_of(Egress::Proxied) == "127.0.0.1:20241"@,
        metrics_of(Egress::Direct) == "127.0.0.1:20242"@,
        egress_text(Egress::Proxied) == "proxy"@,
        egress_text(Egress::Direct) == "direct"@,
{
}

/// Without a proxy only the direct replica runs. With one, the setting decides: always
/// through it, never through it, or both ways at once.
pub proof fn law_which_replicas_run(mode: CfProxyMode, outbound: OutboundMode)
    ensures
        outbound is Free ==> wanted(Egress::Direct, mode, outbound) && !wanted(
            Egress::Proxied,
            mode,
            outbound,
        ),
        !(outbound is Free) && mode is Yes ==> wanted(Egress::Proxied, mode, outbound) && !wanted(
            Egress::Direct,
            mode,
            outbound,
        ),
        !(outbound is Free) && mode is No ==> wanted(Egress::Direct, mode, outbound) && !wanted(
            Egress::Proxied,
            mode,
            outbound,
        ),
        !(outbound is Free) && mode is Both ==> wanted(Egress::Direct, mode, outbound) && wanted(
            Egress::Proxied,
            mode,
            outbound,
        ),
{
}

/// A fixed transport is the only one tried. Otherwise what was found best is tried first,
/// with the edges pinned, and the last try is always over HTTP/2 with the edges left open.
pub proof fn law_what_is_tried(
    fixed: Protocol,
    best: Protocol,
    source: VerdictSource,
    remembered: Option<(Protocol, VerdictSource)>,
    i: int,
)
    ensures
        rungs(CfProtocol::Fixed(fixed), remembered).len() == 1,
        rungs(CfProtocol::Fixed(fixed), remembered)[0] == (fixed, ProtocolWhy::Locked, true),
        ({
            let r = rungs(CfProtocol::Auto, Some((best, source)));
            &&& r[0].0 == best
            &&& r[0].2
            &&& source is Scored ==> r[0].1 == ProtocolWhy::Scored
            &&& source is Fallback ==> r[0].1 == ProtocolWhy::Fallback
        }),
        rungs(CfProtocol::Auto, None)[0] == (Protocol::Quic, ProtocolWhy::Initial, true),
        ({
            let r = rungs(CfProtocol::Auto, remembered);
            &&& 0 < i < r.len() ==> r[i].0 == Protocol::Http2 && r[i].1 == ProtocolWhy::Fallback
            &&& 0 <= i < r.len() ==> (r[i].2 <==> i < r.len() - 1)
            &&& r.len() == if r[0].0 is Http2 {
                2int
            } else {
                3
            }
        }),
{
}

/// A transport is wanted by the setting where it fixes one, else by what was found best, and
/// by what stands first where nothing was found.
pub proof fn law_which_transport(
    p: Protocol,
    q: Protocol,
    source: VerdictSource,
    fresh: Option<(Protocol, VerdictSource)>,
)
    ensures
        desired(CfProtocol::Fixed(p), fresh) == p,
        desired(CfProtocol::Auto, Some((q, source))) == q,
        desired(CfProtocol::Auto, None) == Protocol::Quic,
        desired(CfProtocol::Auto, fresh) == rungs(CfProtocol::Auto, fresh)[0].0,
        desired(CfProtocol::Fixed(p), fresh) == rungs(CfProtocol::Fixed(p), fresh)[0].0,
{
}

/// The reason shown is that of a finding where it is about the transport in use, and
/// otherwise the one from the start.
pub proof fn law_why_a_transport_runs(
    p: Protocol,
    q: Protocol,
    at_spawn: ProtocolWhy,
    fresh: Option<(Protocol, VerdictSource)>,
)
    ensures
        why(None, at_spawn, fresh) == at_spawn,
        why(Some(p), at_spawn, None) == at_spawn,
        why(Some(p), at_spawn, Some((p, VerdictSource::Scored))) == ProtocolWhy::Scored,
        why(Some(p), at_spawn, Some((p, VerdictSource::Fallback))) == ProtocolWhy::Fallback,
        p != q ==> why(Some(p), at_spawn, Some((q, VerdictSource::Scored))) == at_spawn,
        p != q ==> why(Some(p), at_spawn, Some((q, VerdictSource::Fallback))) == at_spawn,
{
}

/// A reload is marked by what its file holds without the blanks around it, cut to a length.
pub proof fn law_marks_of_reloads(a: Seq<char>, s: Seq<char>, b: Seq<char>)
    requires
        s.len() > 0,
        !text::is_space(s[0]) && !text::is_space(s.last()),
        forall|i: int| 0 <= i < a.len() ==> text::is_space(#[trigger] a[i]),
        forall|i: int| 0 <= i < b.len() ==> text::is_space(#[trigger] b[i]),
    ensures
        s.len() <= 32 ==> reload_mark(Some(a + s + b)) == Some(s),
        s.len() > 32 ==> reload_mark(Some(a + s + b)) == Some(s.subrange(0, 32)),
        reload_mark(Some(a)) is None,
        reload_mark(None) is None,
{
    text::law_trimming(a, s, b);
    let e = Seq::<char>::empty();
    text::law_trimming(a, e, e);
    assert(a + e + e =~= a);
    if s.len() > 32 {
        assert(s.take(32) =~= s.subrange(0, 32));
    }
}

/// The state of the proxy changes with the engine that runs it, and there is none while the
/// engine is down. The direct replica does not depend on it, and a reload changes either.
pub proof fn law_states_of_the_proxy(
    pid: u32,
    other: u32,
    marker: Seq<char>,
    tun_up: bool,
    clash_pid: Option<u32>,
    base: Seq<char>,
    g: Seq<char>,
    proxy: Option<Seq<char>>,
)
    ensures
        proxy_state(OutboundMode::Suburl, None, marker, tun_up) is None,
        proxy_state(OutboundMode::Yaml, None, marker, tun_up) is None,
        proxy_state(OutboundMode::Suburl, Some(pid), marker, tun_up) == Some(
            "clash:"@ + text::decimal(pid as int) + ":"@ + text::trimmed(marker),
        ),
        proxy_state(OutboundMode::Yaml, Some(pid), marker, tun_up) == proxy_state(
            OutboundMode::Suburl,
            Some(pid),
            marker,
            !tun_up,
        ),
        proxy_state(OutboundMode::Ovpn, clash_pid, marker, true) == Some("ovpn:up"@),
        proxy_state(OutboundMode::Ovpn, clash_pid, marker, false) is None,
        proxy_state(OutboundMode::Free, clash_pid, marker, tun_up) == Some("direct"@),
        proxy_state(OutboundMode::Socks5, clash_pid, marker, tun_up) == Some("direct"@),
        state_of(Egress::Proxied, None, Some(g)) is None,
        state_of(Egress::Proxied, Some(base), None) == Some(base),
        state_of(Egress::Proxied, Some(base), Some(g)) == Some(base + "#reload="@ + g),
        state_of(Egress::Direct, proxy, None) == Some("direct-egress"@),
        state_of(Egress::Direct, proxy, Some(g)) == Some("direct-egress"@ + "#reload="@ + g),
{
}

/// A replica without a connection is started anew at the third look in a row, and has its
/// transport chosen anew once it has been down for three minutes where that may change. One
/// that is up, or that is not running, is left alone.
pub proof fn law_when_a_replica_is_helped(p: Proc, ready: u64, now_ms: u64, adaptive: bool)
    requires
        p.unready_since matches Some(t) ==> t <= now_ms,
    ensures
        ready > 0 || p.protocol is None ==> watched(p, ready, now_ms, adaptive) == Watch::Leave,
        ready == 0 && p.protocol is Some ==> {
            let long = p.unready_since is Some && now_ms - p.unready_since->0 >= 180_000;
            &&& watched(p, ready, now_ms, adaptive) == Watch::Rescore <==> long && adaptive
            &&& watched(p, ready, now_ms, adaptive) == Watch::Restart <==> !(long && adaptive)
                && p.ready_misses >= 2
            &&& watched(p, ready, now_ms, adaptive) == Watch::Leave <==> !(long && adaptive)
                && p.ready_misses < 2
        },
{
}

/// A replica that is not wanted is stopped. One that is wanted is started where it does not
/// run or runs with another key or in another state, and waits while the proxy is down.
pub proof fn law_when_a_replica_starts(
    p: Proc,
    running: bool,
    token: Seq<char>,
    stamp: Option<Seq<char>>,
)
    ensures
        step_of(p, true, false, token, stamp) == StepView::Stop,
        step_of(p, false, false, token, stamp) == StepView::Leave,
        stamp is None ==> step_of(p, running, true, token, stamp) == StepView::Hold(
            "proxy engine not ready"@,
        ),
        stamp is Some ==> {
            let same = running && p.token is Some && p.token->0@ == token && p.stamp is Some
                && p.stamp->0@ == stamp->0;
            step_of(p, running, true, token, stamp) == if same {
                StepView::Leave
            } else {
                StepView::Start(stamp->0)
            }
        },
{
}

/// A round starts what was planned for each way out with its own state, the direct one
/// first, and after an update also those that ran before, each of them once.
pub proof fn law_what_a_round_starts(
    r: RoundView,
    cfg: CloudflaredCfg,
    mode: OutboundMode,
    d: String,
    p: String,
)
    requires
        r.stage is Update,
        r.direct is Some,
        r.proxied is None,
    ensures
        ({
            let kept = tick_next(
                r,
                cfg,
                mode,
                TickEvent::Updated { changed: false, direct: Some(d), proxied: Some(p) },
            ).1;
            let renewed = tick_next(
                r,
                cfg,
                mode,
                TickEvent::Updated { changed: true, direct: Some(d), proxied: Some(p) },
            ).1;
            &&& kept == TickActView::Start(seq![(Egress::Direct, r.direct->0)])
            &&& wanted(Egress::Proxied, cfg.proxy, mode) ==> renewed == TickActView::Start(
                seq![(Egress::Direct, r.direct->0), (Egress::Proxied, p@)],
            )
            &&& !wanted(Egress::Proxied, cfg.proxy, mode) ==> renewed == kept
        }),
{
    let one = seq![(Egress::Direct, r.direct->0)];
    let e = Seq::<(Egress, Seq<char>)>::empty();
    assert(listed_both(r.direct, r.proxied) =~= one);
    assert(one + seq![] =~= one);
    assert(listed_both(None, None) =~= e);
    assert(one + listed_both(None, Some(p@)) =~= seq![
        (Egress::Direct, r.direct->0),
        (Egress::Proxied, p@),
    ]);
    assert(one + e =~= one);
}

/// The same with the ways out the other way round, and with both of them planned.
pub proof fn law_what_a_round_starts_of_both(
    r: RoundView,
    cfg: CloudflaredCfg,
    mode: OutboundMode,
    d: String,
    p: String,
    changed: bool,
)
    requires
        r.stage is Update,
        r.proxied is Some,
    ensures
        ({
            let act = tick_next(
                r,
                cfg,
                mode,
                TickEvent::Updated { changed, direct: Some(d), proxied: Some(p) },
            ).1;
            &&& r.direct is Some ==> act == TickActView::Start(
                seq![(Egress::Direct, r.direct->0), (Egress::Proxied, r.proxied->0)],
            )
            &&& r.direct is None && changed && wanted(Egress::Direct, cfg.proxy, mode) ==> act
                == TickActView::Start(
                seq![(Egress::Proxied, r.proxied->0), (Egress::Direct, d@)],
            )
            &&& r.direct is None && !(changed && wanted(Egress::Direct, cfg.proxy, mode)) ==> act
                == TickActView::Start(seq![(Egress::Proxied, r.proxied->0)])
        }),
{
    let e = Seq::<(Egress, Seq<char>)>::empty();
    let one = seq![(Egress::Proxied, r.proxied->0)];
    assert(listed_both(None, None) =~= e);
    assert(listed_both(None, r.proxied) =~= one);
    assert(one + e =~= one);
    assert(one + listed_both(Some(d@), None) =~= seq![
        (Egress::Proxied, r.proxied->0),
        (Egress::Direct, d@),
    ]);
    if r.direct is Some {
        let both = seq![(Egress::Direct, r.direct->0), (Egress::Proxied, r.proxied->0)];
        assert(listed_both(r.direct, r.proxied) =~= both);
        assert(both + e =~= both);
    }
}

/// A round plans for each way out what it found of that one.
pub proof fn law_what_a_round_plans(
    r: RoundView,
    cfg: CloudflaredCfg,
    mode: OutboundMode,
    direct: Found,
    proxied: Found,
)
    requires
        r.stage is Watch,
    ensures
        ({
            let (next, act) = tick_next(r, cfg, mode, TickEvent::Watched(direct, proxied));
            let d = tick_step(cfg, mode, Egress::Direct, direct);
            let p = tick_step(cfg, mode, Egress::Proxied, proxied);
            &&& act == TickActView::Settle(d, p)
            &&& next.stage is Settle
            &&& next.direct is Some <==> d is Start
            &&& next.proxied is Some <==> p is Start
            &&& d is Start ==> d == StepView::Start(next.direct->0)
            &&& p is Start ==> p == StepView::Start(next.proxied->0)
        }),
        tick_step(cfg, mode, Egress::Direct, direct) is Start ==> cfg.key() is Some && wanted(
            Egress::Direct,
            cfg.proxy,
            mode,
        ) && direct.stamp is Some,
        cfg.key() is Some && wanted(Egress::Direct, cfg.proxy, mode) && direct.stamp is Some
            && !direct.running ==> tick_step(cfg, mode, Egress::Direct, direct) == StepView::Start(
            direct.stamp->0@,
        ),
        cfg.key() is Some && wanted(Egress::Proxied, cfg.proxy, mode) && proxied.stamp is Some
            && !proxied.running ==> tick_step(cfg, mode, Egress::Proxied, proxied)
            == StepView::Start(proxied.stamp->0@),
{
}

/// Nothing is started in the first minute, nor without the program, which is fetched where
/// that can be done. With nothing to start, a round scores and updates where these are due.
pub proof fn law_what_a_round_waits_for(
    r: RoundView,
    cfg: CloudflaredCfg,
    mode: OutboundMode,
    up_ms: u64,
    update_due: bool,
    chores: bool,
    binary: bool,
)
    requires
        r.stage is Settle,
    ensures
        ({
            let (next, act) = tick_next(
                r,
                cfg,
                mode,
                TickEvent::Settled { up_ms, update_due, chores, binary },
            );
            let nothing = r.direct is None && r.proxied is None;
            &&& nothing ==> act is Idle && {
                let idle = act->Idle_0;
                &&& idle.score <==> cfg.protocol is Auto && up_ms >= 60_000
                &&& idle.update <==> update_due && chores
                &&& next.stage is Over <==> !(update_due && chores)
            }
            &&& !nothing && up_ms < 60_000 ==> next.stage is Over && act == TickActView::Note(
                "waiting for system to settle"@,
                r.direct is Some,
                r.proxied is Some,
            )
            &&& !nothing && up_ms >= 60_000 && binary && chores ==> act is Update
            &&& !nothing && up_ms >= 60_000 && binary && !chores ==> act is Start
            &&& !nothing && up_ms >= 60_000 && !binary && chores ==> act is Fetch
            &&& !nothing && up_ms >= 60_000 && !binary && !chores ==> act == TickActView::Note(
                "waiting for the proxy to download cloudflared"@,
                r.direct is Some,
                r.proxied is Some,
            )
            &&& next.direct == r.direct && next.proxied == r.proxied
        }),
{
}

/// After the start the transports are scored where they may change.
pub proof fn law_scoring_follows_a_start(r: RoundView, cfg: CloudflaredCfg, mode: OutboundMode)
    requires
        r.stage is Start,
    ensures
        tick_next(r, cfg, mode, TickEvent::Started).1 is Score <==> cfg.protocol is Auto,
        tick_next(r, cfg, mode, TickEvent::Started).1 is Done <==> !(cfg.protocol is Auto),
        tick_next(r, cfg, mode, TickEvent::Started).0.stage is Over,
{
}

/// A program that is there is not fetched. One that is not there is fetched where there is a
/// way to it, but not again too soon after a try over a way that was already up.
pub proof fn law_when_the_program_is_fetched(
    g: Program,
    present: bool,
    link: bool,
    now_ms: u64,
    retry_ms: u64,
)
    ensures
        present ==> fetch_plan(g, present, link, now_ms, retry_ms) == Fetch::Settled(
            BinaryState::Ready,
        ),
        !present && !link ==> fetch_plan(g, present, link, now_ms, retry_ms) == Fetch::Settled(
            BinaryState::EgressDown,
        ),
        !present && link && g.link_ok && g.last_download is Some && now_ms < g.last_download->0
            + retry_ms ==> fetch_plan(g, present, link, now_ms, retry_ms) == Fetch::Settled(
            BinaryState::DownloadFailed,
        ),
        !present && link && g.last_download is Some && now_ms >= g.last_download->0 + retry_ms
            ==> fetch_plan(g, present, link, now_ms, retry_ms) == Fetch::Download,
        !present && link && !g.link_ok ==> fetch_plan(g, present, link, now_ms, retry_ms)
            == Fetch::Download,
{
}

/// A program is taken where it is large enough, starts as programs do, and is made for this
/// machine.
pub proof fn law_which_programs_are_taken(len: u64, head: Seq<u8>, arm: bool)
    requires
        head.len() >= 20,
    ensures
        elf_verdict(len, head, arm) is Ok <==> {
            &&& len >= 1_000_000
            &&& head.subrange(0, 4) == seq![0x7fu8, 0x45, 0x4c, 0x46]
            &&& head[19] == 0
            &&& head[18] == if arm {
                0xb7u8
            } else {
                0x3eu8
            }
        },
        len < 1_000_000 ==> elf_verdict(len, head, arm) == Err::<(), ElfErr>(ElfErr::TooSmall(len)),
        len >= 1_000_000 && head[0] != 0x7f ==> elf_verdict(len, head, arm) == Err::<(), ElfErr>(
            ElfErr::NotElf,
        ),
        elf_verdict(len, head, arm) matches Err(ElfErr::Machine(m)) ==> m == head[18] + 0x100
            * head[19],
{
    let h = head.subrange(0, 4);
    assert(h[0] == head[0] && h[1] == head[1] && h[2] == head[2] && h[3] == head[3]);
    if head[0] == 0x7f && head[1] == 0x45 && head[2] == 0x4c && head[3] == 0x46 {
        assert(h =~= seq![0x7fu8, 0x45, 0x4c, 0x46]);
    }
}

/// A line is logged behind the name of its way out, without the end of the line.
pub proof fn law_logged_lines(e: Egress, s: Seq<char>)
    requires
        s.len() > 0,
        s.last() != '\r' && s.last() != '\n',
        !text::holds(s, " INF "@),
    ensures
        log_line(e, s + seq!['\n']) == log_line(e, s),
        log_line(e, s + seq!['\r', '\n']) == log_line(e, s),
        log_line(Egress::Direct, s) == Some("[direct] "@ + s),
        log_line(Egress::Proxied, s) == Some("[proxy] "@ + s),
        log_line(e, seq!['\n']) is None,
{
    let f = line_ends();
    let a = s + seq!['\n'];
    let b = s + seq!['\r', '\n'];
    assert(b.drop_last() =~= s + seq!['\r']);
    assert((s + seq!['\r']).drop_last() =~= s);
    assert(a.drop_last() =~= s);
    reveal_with_fuel(text::trail, 3);
    assert(a.last() == '\n' && b.last() == '\n' && (s + seq!['\r']).last() == '\r');
    assert(text::trail(s, f) == 0);
    assert(a.take(s.len() as int) =~= s);
    assert(b.take(s.len() as int) =~= s);
    assert(s.take(s.len() as int) =~= s);
    assert(seq!['\n'].drop_last().len() == 0);
    reveal_strlit("[");
    reveal_strlit("] ");
    reveal_strlit("direct");
    reveal_strlit("proxy");
    reveal_strlit("[direct] ");
    reveal_strlit("[proxy] ");
    assert("["@ + "direct"@ + "] "@ + s =~= "[direct] "@ + s);
    assert("["@ + "proxy"@ + "] "@ + s =~= "[proxy] "@ + s);
}

/// A replica is run with its transport, the metrics of its way out, its edges in their order
/// each behind its mark, and its key at the end.
pub proof fn law_how_a_replica_is_run(
    token: Seq<char>,
    egress: Egress,
    proto: Protocol,
    edges: Seq<Seq<char>>,
    i: int,
)
    requires
        0 <= i < edges.len(),
    ensures
        ({
            let v = replica_args(token, egress, proto, edges);
            let n = edges.len() as int;
            &&& v.len() == 9 + 2 * n
            &&& v[0] == "tunnel"@ && v[1] == "--no-autoupdate"@
            &&& v[2] == "--protocol"@
            &&& v[3] == if proto is Quic {
                "quic"@
            } else {
                "http2"@
            }
            &&& v[4] == "--metrics"@
            &&& v[5] == if egress is Proxied {
                "127.0.0.1:20241"@
            } else {
                "127.0.0.1:20242"@
            }
            &&& v[6 + 2 * i] == "--edge"@ && v[7 + 2 * i] == edges[i]
            &&& v[6 + 2 * n] == "run"@ && v[7 + 2 * n] == "--token"@ && v[8 + 2 * n] == token
        }),
{
    let n = edges.len() as int;
    lemma_edge_args(edges, n, i);
}

/// The edges stand in pairs, each behind its mark.
proof fn lemma_edge_args(edges: Seq<Seq<char>>, n: int, i: int)
    requires
        0 <= n <= edges.len(),
    ensures
        edge_args(edges, n).len() == 2 * n,
        0 <= i < n ==> edge_args(edges, n)[2 * i] == "--edge"@ && edge_args(edges, n)[2 * i + 1]
            == edges[i],
    decreases n,
{
    if n > 0 {
        lemma_edge_args(edges, n - 1, i);
    }
}

/// A line of accounts is added only where none of its kind is there, and always on a line of
/// its own.
pub proof fn law_added_lines(
    existing: Seq<char>,
    prefix: Seq<char>,
    line: Seq<char>,
)
    ensures
        addition(existing, prefix, line) is None <==> exists|i: int|
            0 <= i < text::lines(existing).len() && text::starts(
                #[trigger] text::lines(existing)[i],
                prefix,
            ),
        addition(existing, prefix, line) matches Some(t) ==> {
            let all = existing + t;
            &&& all.subrange(all.len() - line.len(), all.len() as int) == line
            &&& all.len() == line.len() || all[all.len() - line.len() - 1] == '\n'
            &&& t.len() <= line.len() + 1
        },
{
    reveal_strlit("\n");
    if let Some(t) = addition(existing, prefix, line) {
        let all = existing + t;
        assert(all.subrange(all.len() - line.len(), all.len() as int) =~= line);
    }
}

/// The user of a process is the first number on the first line that gives it.
pub proof fn law_user_of_a_process(ls: Seq<Seq<char>>, k: int, uid: u32, rest: Seq<char>)
    requires
        0 <= k < ls.len(),
        forall|j: int| 0 <= j < k ==> !text::starts(#[trigger] ls[j], "Uid:"@),
        ls[k] == "Uid:"@ + ("\t"@ + text::decimal(uid as int) + rest),
        rest.len() > 0 ==> rest[0] == '\t',
    ensures
        uid_from(ls, 0) == Some(uid),
{
    lemma_uid_from(ls, 0, k);
    let d = text::decimal(uid as int);
    reveal_strlit("\t");
    let t = "\t"@ + d + rest;
    text::lemma_after("Uid:"@, t);
    text::law_number_round_trip(uid as int, u32::MAX as int);
    text::lemma_first_word(d, rest);
    text::lemma_space_first('\t', d + rest);
    assert(t =~= seq!['\t'] + (d + rest));
    assert(text::words(t)[0] == d);
}

/// Other lines are passed over.
proof fn lemma_uid_from(ls: Seq<Seq<char>>, i: int, k: int)
    requires
        0 <= i <= k <= ls.len(),
        forall|j: int| i <= j < k ==> !text::starts(#[trigger] ls[j], "Uid:"@),
    ensures
        uid_from(ls, i) == uid_from(ls, k),
    decreases k - i,
{
    if i < k {
        lemma_uid_from(ls, i + 1, k);
    }
}

/// What is shown of a replica that does not run says why: there is no key, it is not wanted,
/// or what it waits for. Of one that runs nothing is said.
pub proof fn law_what_is_said_of_a_replica(
    mode: OutboundMode,
    egress: Egress,
    note: Option<&'static str>,
    running: bool,
    is_wanted: bool,
)
    ensures
        note_of(false, is_wanted, mode, egress, running, note) == Some("no token"@),
        note_of(true, true, mode, egress, true, note) is None,
        note is None ==> note_of(true, true, mode, egress, false, note) == Some("starting"@),
        note is Some ==> note_of(true, true, mode, egress, false, note) == Some(note->0@),
        mode is Free ==> note_of(true, false, mode, egress, running, note) == Some(
            "no separate proxy egress in free mode"@,
        ),
        !(mode is Free) ==> note_of(true, false, mode, Egress::Direct, running, note) == Some(
            "disabled by cf_proxy=yes"@,
        ),
        !(mode is Free) ==> note_of(true, false, mode, Egress::Proxied, running, note) == Some(
            "disabled by cf_proxy=no"@,
        ),
{
}

/// The status of a replica is made of what was seen of that replica, each in its place.
pub proof fn law_status_tells_what_was_seen(
    r: CfProcStatus,
    egress: Egress,
    p: Proc,
    look: Look,
    cfg: CloudflaredCfg,
    mode: OutboundMode,
)
    requires
        status_ok(r, egress, p, look, cfg, mode),
    ensures
        r.egress == egress && r.pid == look.pid && r.uptime == look.uptime,
        r.running <==> look.pid is Some,
        r.wanted <==> cfg.key() is Some && wanted(egress, cfg.proxy, mode),
        r.protocol == p.protocol,
        r.uid == if egress is Proxied {
            7844u32
        } else {
            7845u32
        },
        r.edges@.len() == p.edges@.len(),
        forall|i: int| 0 <= i < p.edges@.len() ==> (#[trigger] r.edges@[i])@ == p.edges@[i]@,
        r.next_probe_min is Some <==> r.wanted && cfg.protocol is Auto,
        r.next_probe_min matches Some(m) ==> m * 60 <= look.wait_sec < m * 60 + 60,
        look.pid is Some && r.wanted ==> r.note is None,
        look.pid is None ==> r.note is Some,
        cfg.protocol is Auto && look.last_round is Some ==> r.last_round is Some,
        !(cfg.protocol is Auto) || look.last_round is None ==> r.last_round is None,
{
    let a = text::strings(r.edges@);
    let b = text::strings(p.edges@);
    assert(a.len() == b.len());
    assert forall|i: int| 0 <= i < p.edges@.len() implies (#[trigger] r.edges@[i])@ == p.edges@[i]@ by {
        assert(a[i] == b[i]);
    }
}

/// The steps of a climb: on to the next where the transport may change, this one is not
/// ready and there is another; otherwise this one stays, with a note where it is not the
/// first.
pub proof fn law_when_a_climb_goes_on(adaptive: bool, i: int, last: int, ready: bool)
    ensures
        climb_end(adaptive, i, last, ready) == RungEnd::Next <==> adaptive && !ready && i < last,
        climb_end(adaptive, i, last, ready) == RungEnd::KeepNoted <==> adaptive && i > 0 && (ready
            || i >= last),
{
}

/// A version is the first line of what the program says of itself.
pub proof fn law_which_version(out: Seq<char>)
    ensures
        version_in(None) == "unknown"@,
        text::lines(out).len() > 0 && text::trimmed(text::lines(out)[0]).len() > 0 ==> version_in(
            Some(out),
        ) == text::trimmed(text::lines(out)[0]),
        text::lines(out).len() == 0 ==> version_in(Some(out)) == "unknown"@,
        text::lines(out).len() > 0 && text::trimmed(text::lines(out)[0]).len() == 0 ==> version_in(
            Some(out),
        ) == "unknown"@,
{
}

/// The line of an account names its user, its number, its group and its home, in that order
/// and between colons.
#[verifier::rlimit(40)]
pub proof fn law_lines_of_accounts()
    ensures
        passwd_text(Egress::Proxied)
            == "cloudflared:x:7844:7844:cloudflared:/tmp/cloudflared:/bin/false\n"@,
        passwd_text(Egress::Direct)
            == "cloudflared-direct:x:7845:7845:cloudflared-direct:/tmp/cloudflared-direct:/bin/false\n"@,
{
    reveal_strlit("cloudflared");
    reveal_strlit("cloudflared-direct");
    reveal_strlit(":x:");
    reveal_strlit(":");
    reveal_strlit("/tmp/cloudflared");
    reveal_strlit("/tmp/cloudflared-direct");
    reveal_strlit(":/bin/false\n");
    reveal_strlit("cloudflared:x:7844:7844:cloudflared:/tmp/cloudflared:/bin/false\n");
    reveal_strlit(
        "cloudflared-direct:x:7845:7845:cloudflared-direct:/tmp/cloudflared-direct:/bin/false\n",
    );
    reveal_with_fuel(text::written, 5);
    assert(text::decimal(7844) =~= seq!['7', '8', '4', '4']);
    assert(text::decimal(7845) =~= seq!['7', '8', '4', '5']);
    assert(passwd_text(Egress::Proxied)
        =~= "cloudflared:x:7844:7844:cloudflared:/tmp/cloudflared:/bin/false\n"@);
    assert(passwd_text(Egress::Direct)
        =~= "cloudflared-direct:x:7845:7845:cloudflared-direct:/tmp/cloudflared-direct:/bin/false\n"@);
}

/// What the program tells of its own collecting is left out, its beginning and its end alike,
/// but only where it is merely told.
pub proof fn law_what_is_not_logged(e: Egress, s: Seq<char>)
    requires
        s.len() > 0,
        s.last() != '\r' && s.last() != '\n',
    ensures
        log_line(e, s) is None <==> text::holds(s, " INF "@) && (text::holds(
            s,
            "Collection started collector="@,
        ) || text::holds(s, "Collection finished collector="@)),
{
    assert(text::trail(s, line_ends()) == 0);
    assert(s.take(s.len() as int) =~= s);
}

} // verus!
