//! The configuration of a gateway in production: fixed values, what the settings
//! file of the gateway says, and sizes that follow from the machine.

use crate::addr;
use crate::addr::{IpAddr, SocketAddr};
use crate::cidr;
use crate::cidr::Ipv4Net;
use crate::config;
use crate::config::{
    AclCfg, CidrAcl, Config, DnsCfg, DnsResolverCfg, InboundCfg, InboundProxyCfg, LogCfg,
    OutboundCfg, OutboundMode, ReportCfg, RouteCfg, SocksCfg, StatsCfg, WebCfg,
};
use crate::table::Table;
use crate::text;
use vstd::prelude::*;

verus! {

/// The settings file of the gateway.
pub const PPGW_INI: &'static str = "/tmp/ppgw.ini";

/// Where the settings that are in force are kept.
pub const RUNNING_SNAPSHOT: &'static str = "/tmp/sniffbox_running.ini";

// ---------------------------------------------------------------------------
// The settings file
// ---------------------------------------------------------------------------

/// The settings of the gateway.
pub struct PpgwIni {
    kv: Table<String>,
}

impl View for PpgwIni {
    type V = Map<Seq<char>, Seq<char>>;

    closed spec fn view(&self) -> Map<Seq<char>, Seq<char>> {
        config::section_map(self.kv)
    }
}

/// A value without white space and then quotes at its ends.
pub open spec fn unquoted(v: Seq<char>) -> Seq<char> {
    text::trim_of(text::trim_of(text::trimmed(v), text::only('"')), text::only('\''))
}

/// The key and the value of a line; blank lines, comments and lines without an
/// equals sign hold none.
pub open spec fn ppgw_line(raw: Seq<char>) -> Option<(Seq<char>, Seq<char>)> {
    let t = text::trimmed(raw);
    if t.len() == 0 || t[0] == '#' || t[0] == ';' {
        None
    } else {
        match text::cut(t, '=') {
            Some((k, v)) => Some((text::trimmed(k), unquoted(v))),
            None => None,
        }
    }
}

/// The settings of the first `n` lines.
pub open spec fn ppgw_run(ls: Seq<Seq<char>>, n: int) -> Map<Seq<char>, Seq<char>>
    decreases n,
{
    if n <= 0 {
        Map::empty()
    } else {
        match ppgw_line(ls[n - 1]) {
            Some((k, v)) => ppgw_run(ls, n - 1).insert(k, v),
            None => ppgw_run(ls, n - 1),
        }
    }
}

/// The settings that a text holds.
pub open spec fn ppgw_of(s: Seq<char>) -> Map<Seq<char>, Seq<char>> {
    let ls = text::lines(s);
    ppgw_run(ls, ls.len() as int)
}

/// Reads settings.
pub fn parse_ppgw(s: &str) -> (r: Table<String>)
    ensures
        r.wf(),
        config::section_map(r) == ppgw_of(s@),
{
    let cs = text::chars_of(s);
    let ls = text::lines_of(&cs);
    let ghost all = text::lines(s@);
    let mut out: Table<String> = Table::new();
    assert(config::section_map(out) =~= Map::<Seq<char>, Seq<char>>::empty());
    let mut i: usize = 0;
    while i < ls.len()
        invariant
            i <= ls@.len(),
            all == text::texts(ls@),
            out.wf(),
            config::section_map(out) == ppgw_run(all, i as int),
        decreases ls@.len() - i,
    {
        assert(all[i as int] == ls@[i as int]@);
        let line = text::trim(ls[i]);
        i = i + 1;
        if line.len() == 0 || line[0] == '#' || line[0] == ';' {
            continue ;
        }
        match text::split_once(line, '=') {
            Some((k, v)) => {
                assert(text::cut(line@, '=') == Some((k@, v@)));
                let ghost before = out;
                let key = text::str_of(text::trim(k));
                let val = text::str_of(
                    text::trim_char(text::trim_char(text::trim(v), '"'), '\''),
                );
                out.insert(key, val);
                assert(config::section_map(out) =~= config::section_map(before).insert(
                    key@,
                    val@,
                ));
            },
            None => {},
        }
    }
    out
}

/// The truth value that a text writes, with white space and then double quotes
/// around it and in any case.
pub open spec fn yesno(s: Seq<char>) -> Option<bool> {
    config::bool_of(text::trim_of(text::trimmed(s), text::only('"')))
}

/// Reads a truth value.
pub fn parse_yesno(s: &str) -> (r: Option<bool>)
    ensures
        r == yesno(s@),
{
    let cs = text::chars_of(s);
    yesno_chars(&cs)
}

/// Reads a truth value.
fn yesno_chars(cs: &[char]) -> (r: Option<bool>)
    ensures
        r == yesno(cs@),
{
    let l = text::to_lower(text::trim_char(text::trim(cs), '"'));
    if text::same(&l, "yes") || text::same(&l, "true") || text::same(&l, "on") || text::same(
        &l,
        "1",
    ) {
        Some(true)
    } else if text::same(&l, "no") || text::same(&l, "false") || text::same(&l, "off")
        || text::same(&l, "0") {
        Some(false)
    } else {
        None
    }
}

/// A setting that is there and not empty.
pub open spec fn setting(m: Map<Seq<char>, Seq<char>>, key: Seq<char>) -> Option<Seq<char>> {
    if m.contains_key(key) && m[key].len() > 0 {
        Some(m[key])
    } else {
        None
    }
}

/// A truth value among the settings.
pub open spec fn bool_setting(m: Map<Seq<char>, Seq<char>>, key: Seq<char>) -> Option<bool> {
    match setting(m, key) {
        Some(s) => yesno(s),
        None => None,
    }
}

/// A number among the settings.
pub open spec fn num_setting(m: Map<Seq<char>, Seq<char>>, key: Seq<char>, max: int) -> Option<int> {
    match setting(m, key) {
        Some(s) => text::number(s, 10, max),
        None => None,
    }
}

/// A socket address among the settings.
pub open spec fn socket_setting(m: Map<Seq<char>, Seq<char>>, key: Seq<char>) -> Option<SocketAddr> {
    match setting(m, key) {
        Some(s) => addr::socket(s),
        None => None,
    }
}

/// A network among the settings.
pub open spec fn cidr_setting(m: Map<Seq<char>, Seq<char>>, key: Seq<char>) -> Option<Ipv4Net> {
    match setting(m, key) {
        Some(s) => cidr::ipv4_net(s),
        None => None,
    }
}

/// A list of networks among the settings, empty where it cannot be read.
pub open spec fn acl_setting(m: Map<Seq<char>, Seq<char>>, key: Seq<char>) -> Seq<Ipv4Net> {
    match setting(m, key) {
        Some(s) => match config::acl_of(s) {
            Ok(nets) => nets,
            Err(_) => seq![],
        },
        None => seq![],
    }
}

/// A user and a password among the settings.
pub open spec fn userpass_setting(m: Map<Seq<char>, Seq<char>>, key: Seq<char>) -> Option<
    (Seq<char>, Seq<char>),
> {
    match setting(m, key) {
        Some(s) => text::cut(s, ':'),
        None => None,
    }
}

/// A host under one key and a port under another, as a socket address.
pub open spec fn host_port_setting(
    m: Map<Seq<char>, Seq<char>>,
    host: Seq<char>,
    port: Seq<char>,
    absent: int,
) -> Option<SocketAddr> {
    match setting(m, host) {
        Some(h) => addr::socket(
            h + ":"@ + text::decimal(config::or(num_setting(m, port, u16::MAX as int), absent)),
        ),
        None => None,
    }
}

/// The same, with an address that stands where the host is not set.
pub open spec fn host_port_else(
    m: Map<Seq<char>, Seq<char>>,
    host: Seq<char>,
    port: Seq<char>,
    absent: int,
    fallback: Option<IpAddr>,
) -> Option<SocketAddr> {
    match (setting(m, host), fallback) {
        (Some(_), _) => host_port_setting(m, host, port, absent),
        (None, Some(ip)) => Some(
            (SocketAddr {
                ip,
                port: config::or(num_setting(m, port, u16::MAX as int), absent) as u16,
                scope: 0,
            }),
        ),
        (None, None) => None,
    }
}

/// The upstream server: the gateway itself where no host is set and its address is known.
pub open spec fn upstream_setting(m: Map<Seq<char>, Seq<char>>, own: Option<IpAddr>) -> Option<
    SocketAddr,
> {
    host_port_else(m, "socks5_ip"@, "socks5_port"@, 7890, own)
}

/// The name server for connections that go out directly: 1.0.0.1 where none is set.
pub open spec fn resolver_setting(m: Map<Seq<char>, Seq<char>>) -> Option<SocketAddr> {
    host_port_else(m, "dns_ip"@, "dns_port"@, 53, Some(IpAddr::V4(0x0100_0001)))
}

/// The name and the password for the upstream server; a name without a password
/// has an empty one.
pub open spec fn socks5_auth_setting(m: Map<Seq<char>, Seq<char>>) -> Option<
    (Seq<char>, Seq<char>),
> {
    match setting(m, "socks5_username"@) {
        Some(u) => Some((u, config::or(setting(m, "socks5_password"@), seq![]))),
        None => None,
    }
}

/// What one item of the setting `box` changes.
pub open spec fn route_item(c: RouteCfg, item: Seq<char>) -> RouteCfg {
    match text::cut(item, '=') {
        None => c,
        Some((k, v)) => match yesno(text::trimmed(v)) {
            None => c,
            Some(b) => {
                let key = text::trimmed(k);
                if key == "route.block_bittorrent"@ {
                    RouteCfg { block_bittorrent: b, ..c }
                } else if key == "route.block_quic"@ {
                    RouteCfg { block_quic: b, ..c }
                } else if key == "route.block_unknown"@ {
                    RouteCfg { block_unknown: b, ..c }
                } else {
                    c
                }
            },
        },
    }
}

/// What the first `n` items of the setting `box` change.
pub open spec fn route_run(c: RouteCfg, items: Seq<Seq<char>>, n: int) -> RouteCfg
    decreases n,
{
    if n <= 0 {
        c
    } else {
        route_item(route_run(c, items, n - 1), items[n - 1])
    }
}

/// The routes where the setting `box` does not say.
pub open spec fn base_route() -> RouteCfg {
    RouteCfg { block_bittorrent: true, block_quic: true, block_unknown: false, log_sniffed: true }
}

/// The routes that the settings give.
pub open spec fn route_setting(m: Map<Seq<char>, Seq<char>>) -> RouteCfg {
    match setting(m, "box"@) {
        Some(s) => {
            let items = text::split(s, ',');
            route_run(base_route(), items, items.len() as int)
        },
        None => base_route(),
    }
}

impl PpgwIni {
    #[verifier::type_invariant]
    spec fn wf(&self) -> bool {
        self.kv.wf()
    }

    /// Settings that say nothing.
    pub fn empty() -> (r: PpgwIni)
        ensures
            r@ == Map::<Seq<char>, Seq<char>>::empty(),
    {
        let r = PpgwIni { kv: Table::new() };
        assert(r@ =~= Map::<Seq<char>, Seq<char>>::empty());
        r
    }

    /// Reads settings.
    pub fn parse(s: &str) -> (r: PpgwIni)
        ensures
            r@ == ppgw_of(s@),
    {
        PpgwIni { kv: parse_ppgw(s) }
    }

    /// A setting.
    pub fn str(&self, key: &str) -> (r: Option<&str>)
        ensures
            text::opt_str(r) == setting(self@, key@),
    {
        proof {
            use_type_invariant(self);
        }
        match self.kv.get(key) {
            Some(v) => if v.as_str().is_empty() {
                None
            } else {
                Some(v.as_str())
            },
            None => None,
        }
    }

    /// A truth value.
    pub fn bool(&self, key: &str) -> (r: Option<bool>)
        ensures
            r == bool_setting(self@, key@),
    {
        match self.str(key) {
            Some(s) => parse_yesno(s),
            None => None,
        }
    }

    /// A number of at most `max`.
    pub fn num(&self, key: &str, max: u64) -> (r: Option<u64>)
        ensures
            text::opt_int(r) == num_setting(self@, key@, max as int),
            r matches Some(v) ==> v <= max,
    {
        match self.str(key) {
            Some(s) => {
                let cs = text::chars_of(s);
                text::parse_number(&cs, 10, max)
            },
            None => None,
        }
    }

    /// A network.
    pub fn cidr(&self, key: &str) -> (r: Option<Ipv4Net>)
        ensures
            r == cidr_setting(self@, key@),
            r matches Some(n) ==> n.wf(),
    {
        match self.str(key) {
            Some(s) => Ipv4Net::parse(s),
            None => None,
        }
    }

    /// A socket address.
    pub fn socket(&self, key: &str) -> (r: Option<SocketAddr>)
        ensures
            r == socket_setting(self@, key@),
    {
        match self.str(key) {
            Some(s) => SocketAddr::parse(s),
            None => None,
        }
    }

    /// A list of networks.
    pub fn acl(&self, key: &str) -> (r: CidrAcl)
        ensures
            r@ == acl_setting(self@, key@),
    {
        match self.str(key) {
            Some(s) => match CidrAcl::parse(s) {
                Ok(a) => a,
                Err(_) => CidrAcl::default(),
            },
            None => CidrAcl::default(),
        }
    }

    /// A user and a password.
    pub fn userpass(&self, key: &str) -> (r: Option<(String, String)>)
        ensures
            config::opt_pair(r) == userpass_setting(self@, key@),
    {
        match self.str(key) {
            Some(s) => {
                let cs = text::chars_of(s);
                match text::split_once(&cs, ':') {
                    Some((u, p)) => {
                        assert(text::cut(s@, ':') == Some((u@, p@)));
                        Some((text::str_of(u), text::str_of(p)))
                    },
                    None => None,
                }
            },
            None => None,
        }
    }

    /// A host under one key and a port under another, and an address that stands where
    /// the host is not set.
    fn host_port(&self, host: &str, port: &str, absent: u16, fallback: Option<IpAddr>) -> (r: Option<
        SocketAddr,
    >)
        ensures
            r == host_port_else(self@, host@, port@, absent as int, fallback),
    {
        let p: u64 = match self.num(port, u16::MAX as u64) {
            Some(p) => p,
            None => absent as u64,
        };
        match self.str(host) {
            Some(h) => {
                let mut s = h.to_owned();
                s.append(":");
                text::push_decimal(&mut s, p);
                SocketAddr::parse(s.as_str())
            },
            None => match fallback {
                Some(ip) => Some(SocketAddr::new(ip, p as u16)),
                None => None,
            },
        }
    }

    /// The upstream server; `own` is the address of the gateway.
    pub fn socks5_upstream(&self, own: Option<IpAddr>) -> (r: Option<SocketAddr>)
        ensures
            r == upstream_setting(self@, own),
    {
        self.host_port("socks5_ip", "socks5_port", 7890, own)
    }

    /// The name and the password for the upstream server.
    pub fn socks5_auth(&self) -> (r: Option<(String, String)>)
        ensures
            config::opt_pair(r) == socks5_auth_setting(self@),
    {
        match self.str("socks5_username") {
            Some(user) => {
                let pass = match self.str("socks5_password") {
                    Some(p) => p.to_owned(),
                    None => String::new(),
                };
                Some((user.to_owned(), pass))
            },
            None => None,
        }
    }

    /// The name server for connections that go out directly.
    pub fn dns_resolver(&self) -> (r: Option<SocketAddr>)
        ensures
            r == resolver_setting(self@),
    {
        self.host_port("dns_ip", "dns_port", 53, Some(IpAddr::V4(0x0100_0001)))
    }

    /// The routes.
    pub fn route(&self) -> (r: RouteCfg)
        ensures
            r == route_setting(self@),
    {
        let mut c = RouteCfg {
            block_bittorrent: true,
            block_quic: true,
            block_unknown: false,
            log_sniffed: true,
        };
        let s = match self.str("box") {
            Some(s) => s,
            None => return c,
        };
        let cs = text::chars_of(s);
        let items = text::split_char(&cs, ',');
        let ghost all = text::split(s@, ',');
        let mut i: usize = 0;
        while i < items.len()
            invariant
                i <= items@.len(),
                all == text::texts(items@),
                c == route_run(base_route(), all, i as int),
            decreases items@.len() - i,
        {
            assert(all[i as int] == items@[i as int]@);
            let item = items[i];
            i = i + 1;
            let (k, v) = match text::split_once(item, '=') {
                Some(kv) => kv,
                None => continue ,
            };
            assert(text::cut(item@, '=') == Some((k@, v@)));
            let b = match yesno_chars(text::trim(v)) {
                Some(b) => b,
                None => continue ,
            };
            let key = text::trim(k);
            if text::same(key, "route.block_bittorrent") {
                c.block_bittorrent = b;
            } else if text::same(key, "route.block_quic") {
                c.block_quic = b;
            } else if text::same(key, "route.block_unknown") {
                c.block_unknown = b;
            }
        }
        c
    }
}

/// A setting in the text of a settings file.
pub fn ini_value(file: &str, key: &str) -> (r: Option<String>)
    ensures
        text::opt_string(r) == setting(ppgw_of(file@), key@),
{
    let p = PpgwIni::parse(file);
    match p.str(key) {
        Some(s) => Some(s.to_owned()),
        None => None,
    }
}

// ---------------------------------------------------------------------------
// Sizes that follow from the machine
// ---------------------------------------------------------------------------

/// How many workers there are on a machine with `cpus` processors.
pub fn auto_workers(cpus: usize) -> (r: usize)
    ensures
        r == config::min_of(cpus as int, 8),
{
    if cpus <= 8 {
        cpus
    } else {
        8
    }
}

/// A number brought between two bounds.
fn clamp(n: usize, lo: usize, hi: usize) -> (r: usize)
    ensures
        r == config::clamped(n as int, lo as int, hi as int),
{
    if n < lo {
        lo
    } else if n > hi {
        hi
    } else {
        n
    }
}

/// The smallest and the largest size of the pool of connections.
pub fn auto_pool(cpus: usize) -> (r: (usize, usize))
    requires
        cpus * 32 <= usize::MAX,
    ensures
        r.0 == config::clamped(cpus * 4, 8, 64),
        r.1 == config::clamped(cpus * 32, 64, 1024),
{
    (clamp(cpus * 4, 8, 64), clamp(cpus * 32, 64, 1024))
}

/// How many sockets for replies are kept.
pub fn auto_spoof_cache_cap(cpus: usize) -> (r: usize)
    requires
        cpus * 512 <= usize::MAX,
    ensures
        r == config::clamped(cpus * 512, 1024, 8192),
{
    clamp(cpus * 512, 1024, 8192)
}

/// Whether the network configuration has an IPv6 interface.
pub fn ipv6_enabled(network: &str) -> (r: bool)
    ensures
        r == text::holds(network@, "eth06"@),
{
    let cs = text::chars_of(network);
    text::contains(&cs, "eth06")
}

// ---------------------------------------------------------------------------
// The configuration
// ---------------------------------------------------------------------------

/// The password of the administration pages: the one of the environment, then the
/// one of the settings, and else a fixed one.
pub open spec fn password_of(m: Map<Seq<char>, Seq<char>>, env: Option<Seq<char>>) -> Seq<char> {
    match env {
        Some(e) => if e.len() > 0 {
            e
        } else {
            config::or(setting(m, "clash_web_password"@), "clashpass"@)
        },
        None => config::or(setting(m, "clash_web_password"@), "clashpass"@),
    }
}

/// The password of the administration pages.
pub fn web_password(p: &PpgwIni, env: Option<&str>) -> (r: String)
    ensures
        r@ == password_of(p@, text::opt_str(env)),
{
    if let Some(e) = env {
        if !e.is_empty() {
            return e.to_owned();
        }
    }
    match p.str("clash_web_password") {
        Some(s) => s.to_owned(),
        None => "clashpass".to_owned(),
    }
}

/// The mode among the settings.
pub open spec fn mode_setting(m: Map<Seq<char>, Seq<char>>) -> OutboundMode {
    match setting(m, "mode"@) {
        Some(s) => config::mode_of(s),
        None => OutboundMode::Free,
    }
}

/// The configuration of a gateway with given settings, processors, IPv6 interface,
/// password in the environment, and address.
pub open spec fn production_view(
    m: Map<Seq<char>, Seq<char>>,
    cpus: usize,
    ipv6: bool,
    env: Option<Seq<char>>,
    own: Option<IpAddr>,
) -> config::ConfigView {
    let udp = config::or(bool_setting(m, "udp_enable"@), false);
    let mode = mode_setting(m);
    config::ConfigView {
        log: config::LogView { level: "info"@, timestamp: true },
        inbound: InboundCfg {
            listen: config::v4_socket(0x7f00_0001, 1081),
            listen6: if ipv6 {
                Some((SocketAddr { ip: IpAddr::V6(1), port: 1081, scope: 0 }))
            } else {
                None
            },
            sniff_timeout_ms: 300,
            splice_copy: true,
            splice_threshold: config::or(
                num_setting(m, "splice_threshold"@, u64::MAX as int),
                0x10_0000,
            ) as u64,
            udp,
            udp_idle_sec: 60,
            udp_workers: config::min_of(cpus as int, 8) as usize,
            tcp_workers: config::min_of(cpus as int, 8) as usize,
            spoof_cache_cap: config::clamped(cpus * 512, 1024, 8192) as usize,
            tune_sysctl: true,
        },
        socks5: SocksCfg {
            server: config::v4_socket(0x7f00_0001, 1080),
            pool_min: config::clamped(cpus * 4, 8, 64) as usize,
            pool_max: config::clamped(cpus * 32, 64, 1024) as usize,
            pool_idle_sec: 300,
        },
        route: route_setting(m),
        stats: Some(
            (StatsCfg {
                enabled: config::or(bool_setting(m, "net_rec"@), false),
                max_rec: config::or(num_setting(m, "max_rec"@, usize::MAX as int), 5000) as usize,
                net_cleanday: config::or(num_setting(m, "net_cleanday"@, u8::MAX as int), 0) as u8,
                traffic_window_min: config::or(
                    num_setting(m, "traffic_window_min"@, u32::MAX as int),
                    60,
                ) as u32,
            }),
        ),
        dns: Some(
            (DnsCfg {
                enabled: true,
                listen: config::v4_socket(0, 53),
                fake_cidr: config::or(
                    cidr_setting(m, "fake_cidr"@),
                    Ipv4Net { addr: 0x0700_0000, prefix: 8 },
                ),
                ttl: 3,
                max_entries: None,
                max_mem_pct: 30,
                shards: 16,
            }),
        ),
        web: config::WebView {
            listen: config::v4_socket(
                0,
                config::or(num_setting(m, "clash_web_port"@, u16::MAX as int), 80) as u16,
            ),
            password: password_of(m, env),
            admin_cidr: acl_setting(m, "admin_cidr"@),
            clash_sock: "/tmp/clash.sock"@,
            webroot: "/etc/config/clash/clash-dashboard"@,
            screen_dev: "/dev/vcs1"@,
            reload_cmd: seq!["/usr/bin/ppg.sh"@, "reload"@],
        },
        acl: acl_setting(m, "proxy_cidr"@),
        inbound_proxy: config::InboundProxyView {
            enabled: true,
            listen_port: 1080,
            auth: userpass_setting(m, "openport_auth"@),
            udp: true,
        },
        outbound: config::OutboundView {
            mode,
            upstream: upstream_setting(m, own),
            auth: socks5_auth_setting(m),
            resolver: resolver_setting(m),
            bind_device: if mode is Ovpn {
                Some("tun114"@)
            } else {
                None
            },
        },
        report: config::ReportView {
            pplog: socket_setting(m, "pplog"@),
            pplog_uuid: match setting(m, "pplog_uuid"@) {
                Some(s) => config::uuid_of(s),
                None => None,
            },
        },
    }
}

/// Builds the configuration of a gateway; `own` is its address, where that is known.
/// Whether UDP may pass the gateway changes nothing for the proxy of the local network.
pub fn build(
    p: &PpgwIni,
    cpus: usize,
    ipv6: bool,
    env_password: Option<&str>,
    own: Option<IpAddr>,
) -> (r: Config)
    requires
        cpus * 512 <= usize::MAX,
    ensures
        r@ == production_view(p@, cpus, ipv6, text::opt_str(env_password), own),
        r.dns matches Some(d) && d.fake_cidr.wf(),
{
    let workers = auto_workers(cpus);
    let (pool_min, pool_max) = auto_pool(cpus);
    let udp = match p.bool("udp_enable") {
        Some(b) => b,
        None => false,
    };
    let inbound = InboundCfg {
        listen: SocketAddr::new(IpAddr::V4(0x7f00_0001), 1081),
        listen6: if ipv6 {
            Some(SocketAddr::new(IpAddr::V6(1), 1081))
        } else {
            None
        },
        sniff_timeout_ms: 300,
        splice_copy: true,
        splice_threshold: match p.num("splice_threshold", u64::MAX) {
            Some(n) => n,
            None => 0x10_0000,
        },
        udp,
        udp_idle_sec: 60,
        udp_workers: workers,
        tcp_workers: workers,
        spoof_cache_cap: auto_spoof_cache_cap(cpus),
        tune_sysctl: true,
    };
    let socks5 = SocksCfg {
        server: SocketAddr::new(IpAddr::V4(0x7f00_0001), 1080),
        pool_min,
        pool_max,
        pool_idle_sec: 300,
    };
    let stats = StatsCfg {
        enabled: match p.bool("net_rec") {
            Some(b) => b,
            None => false,
        },
        max_rec: match p.num("max_rec", usize::MAX as u64) {
            Some(n) => n as usize,
            None => 5000,
        },
        net_cleanday: match p.num("net_cleanday", u8::MAX as u64) {
            Some(n) => n as u8,
            None => 0,
        },
        traffic_window_min: match p.num("traffic_window_min", u32::MAX as u64) {
            Some(n) => n as u32,
            None => 60,
        },
    };
    let dns = DnsCfg {
        enabled: true,
        listen: SocketAddr::new(IpAddr::V4(0), 53),
        fake_cidr: match p.cidr("fake_cidr") {
            Some(n) => n,
            None => Ipv4Net { addr: 0x0700_0000, prefix: 8 },
        },
        ttl: 3,
        max_entries: None,
        max_mem_pct: 30,
        shards: 16,
    };
    let mut reload_cmd: Vec<String> = Vec::new();
    reload_cmd.push("/usr/bin/ppg.sh".to_owned());
    reload_cmd.push("reload".to_owned());
    assert(text::strings(reload_cmd@) =~= seq!["/usr/bin/ppg.sh"@, "reload"@]);
    let web = WebCfg {
        listen: SocketAddr::new(
            IpAddr::V4(0),
            match p.num("clash_web_port", u16::MAX as u64) {
                Some(n) => n as u16,
                None => 80,
            },
        ),
        password: web_password(p, env_password),
        admin_cidr: p.acl("admin_cidr"),
        clash_sock: "/tmp/clash.sock".to_owned(),
        webroot: "/etc/config/clash/clash-dashboard".to_owned(),
        screen_dev: "/dev/vcs1".to_owned(),
        reload_cmd,
    };
    let mode = match p.str("mode") {
        Some(s) => OutboundMode::parse(s),
        None => OutboundMode::default(),
    };
    let outbound = OutboundCfg {
        mode,
        upstream: p.socks5_upstream(own),
        auth: p.socks5_auth(),
        resolver: DnsResolverCfg { server: p.dns_resolver() },
        bind_device: if mode == OutboundMode::Ovpn {
            Some("tun114".to_owned())
        } else {
            None
        },
    };
    Config {
        log: LogCfg { level: "info".to_owned(), timestamp: true },
        inbound,
        socks5,
        route: p.route(),
        stats: Some(stats),
        dns: Some(dns),
        web,
        acl: AclCfg { proxy_cidr: p.acl("proxy_cidr") },
        inbound_proxy: InboundProxyCfg {
            enabled: true,
            listen_port: 1080,
            auth: p.userpass("openport_auth"),
            udp: true,
        },
        outbound,
        report: ReportCfg {
            pplog: p.socket("pplog"),
            pplog_uuid: match p.str("pplog_uuid") {
                Some(s) => config::parse_uuid(s),
                None => None,
            },
        },
    }
}

/// The configuration of a gateway in production, from the text of its settings
/// file; settings that cannot be read say nothing.
pub fn build_production(
    settings: Option<&str>,
    cpus: usize,
    ipv6: bool,
    env_password: Option<&str>,
    own: Option<IpAddr>,
) -> (r: Config)
    requires
        cpus * 512 <= usize::MAX,
    ensures
        r@ == production_view(
            match settings {
                Some(s) => ppgw_of(s@),
                None => Map::empty(),
            },
            cpus,
            ipv6,
            text::opt_str(env_password),
            own,
        ),
        r.dns matches Some(d) && d.fake_cidr.wf(),
{
    let p = match settings {
        Some(s) => PpgwIni::parse(s),
        None => PpgwIni::empty(),
    };
    build(&p, cpus, ipv6, env_password, own)
}

// ---------------------------------------------------------------------------
// Laws
// ---------------------------------------------------------------------------

/// Whatever the settings say, the configuration of a gateway keeps to the bounds
/// that are asked of a configuration file.
pub proof fn law_production_is_sane(
    m: Map<Seq<char>, Seq<char>>,
    cpus: usize,
    ipv6: bool,
    env: Option<Seq<char>>,
    own: Option<IpAddr>,
)
    ensures
        config::sane(production_view(m, cpus, ipv6, env, own)),
{
}

/// What no setting changes: where the gateway listens, but for the port of its pages, that
/// its name server runs, and that the proxy of the local network is on and takes UDP.
pub proof fn law_fixed_values(
    m: Map<Seq<char>, Seq<char>>,
    n: Map<Seq<char>, Seq<char>>,
    cpus: usize,
    ipv6: bool,
    env: Option<Seq<char>>,
    own: Option<IpAddr>,
)
    ensures
        ({
            let a = production_view(m, cpus, ipv6, env, own);
            let b = production_view(n, cpus, ipv6, env, own);
            &&& a.log == b.log
            &&& a.socks5 == b.socks5
            &&& a.inbound.listen == b.inbound.listen
            &&& a.inbound.listen6 == b.inbound.listen6
            &&& a.dns matches Some(d) && d.enabled
            &&& a.inbound_proxy.enabled
            &&& a.inbound_proxy.udp
            &&& a.inbound_proxy.listen_port == b.inbound_proxy.listen_port
            &&& a.web.listen.ip == b.web.listen.ip
        }),
{
}

/// What a gateway does about the switches and numbers of its settings: each has its own
/// key, an empty value counts as none, and a value that cannot be read as none too.
pub proof fn law_settings_by_their_keys(
    m: Map<Seq<char>, Seq<char>>,
    cpus: usize,
    ipv6: bool,
    env: Option<Seq<char>>,
    own: Option<IpAddr>,
)
    ensures
        ({
            let c = production_view(m, cpus, ipv6, env, own);
            let given = |k: Seq<char>| m.contains_key(k) && m[k].len() > 0;
            &&& given("mode"@) ==> c.outbound.mode == config::mode_of(m["mode"@])
            &&& !given("mode"@) ==> c.outbound.mode is Free
            &&& c.inbound.udp <==> given("udp_enable"@) && yesno(m["udp_enable"@]) == Some(true)
            &&& c.stats matches Some(s) && (s.enabled <==> given("net_rec"@) && yesno(m["net_rec"@])
                == Some(true))
            &&& given("pplog"@) ==> c.report.pplog == addr::socket(m["pplog"@])
            &&& !given("pplog"@) ==> c.report.pplog is None
            &&& given("pplog_uuid"@) ==> c.report.pplog_uuid == config::uuid_of(m["pplog_uuid"@])
            &&& !given("pplog_uuid"@) ==> c.report.pplog_uuid is None
            &&& !given("openport_auth"@) ==> c.inbound_proxy.auth is None
            &&& c.inbound_proxy.auth matches Some((u, p)) ==> m["openport_auth"@] == u + seq![':']
                + p
            &&& !given("admin_cidr"@) ==> c.web.admin_cidr.len() == 0
            &&& given("admin_cidr"@) && config::acl_of(m["admin_cidr"@]) is Ok ==> config::acl_of(
                m["admin_cidr"@],
            ) == Ok::<Seq<Ipv4Net>, Seq<char>>(c.web.admin_cidr)
            &&& !given("proxy_cidr"@) ==> c.acl.len() == 0
            &&& given("proxy_cidr"@) && config::acl_of(m["proxy_cidr"@]) is Ok ==> config::acl_of(
                m["proxy_cidr"@],
            ) == Ok::<Seq<Ipv4Net>, Seq<char>>(c.acl)
            &&& c.outbound.bind_device is Some <==> c.outbound.mode is Ovpn
            &&& c.outbound.bind_device matches Some(d) ==> d == "tun114"@
            &&& given("fake_cidr"@) && cidr::ipv4_net(m["fake_cidr"@]) is Some ==> c.dns is Some
                && cidr::ipv4_net(m["fake_cidr"@]) == Some(c.dns->0.fake_cidr)
            &&& !given("fake_cidr"@) ==> c.dns is Some && c.dns->0.fake_cidr.addr == 0x0700_0000
                && c.dns->0.fake_cidr.prefix == 8
            &&& c.inbound.listen == (SocketAddr { ip: IpAddr::V4(0x7f00_0001), port: 1081, scope: 0 })
            &&& c.socks5.server == (SocketAddr { ip: IpAddr::V4(0x7f00_0001), port: 1080, scope: 0 })
            &&& c.inbound.listen6 is Some <==> ipv6
            &&& c.web.listen.port == 80 || (given("clash_web_port"@) && text::number(
                m["clash_web_port"@],
                10,
                c.web.listen.port as int,
            ) == Some(c.web.listen.port as int))
        }),
{
    if m.contains_key("openport_auth"@) {
        let raw = m["openport_auth"@];
        text::lemma_first_bounds(raw, ':');
        let i = text::first(raw, ':');
        if i < raw.len() {
            assert(raw =~= raw.take(i) + seq![':'] + raw.skip(i + 1));
        }
    }
    if m.contains_key("clash_web_port"@) {
        let d = text::unsigned(m["clash_web_port"@]);
        if text::all_digits(d, 10) {
            text::lemma_value_nonneg(d, 10);
        }
    }
}

/// The proxy that a gateway is sent through is the one at the address and port that the
/// settings name, at its own address where they name none, with the name and the password
/// that they hold. The name server is found in the same way.
pub proof fn law_settings_of_servers(
    m: Map<Seq<char>, Seq<char>>,
    a: u32,
    port: u16,
    own: IpAddr,
)
    ensures
        m.contains_key("socks5_ip"@) && m["socks5_ip"@] == addr::v4_text(a) && m.contains_key(
            "socks5_port"@,
        ) && m["socks5_port"@] == text::decimal(port as int) ==> upstream_setting(m, Some(own))
            == Some(SocketAddr { ip: IpAddr::V4(a), port, scope: 0 }),
        m.contains_key("socks5_ip"@) && m["socks5_ip"@] == addr::v4_text(a) && !m.contains_key(
            "socks5_port"@,
        ) ==> upstream_setting(m, Some(own)) == Some(
            SocketAddr { ip: IpAddr::V4(a), port: 7890, scope: 0 },
        ),
        !m.contains_key("socks5_ip"@) && m.contains_key("socks5_port"@) && m["socks5_port"@]
            == text::decimal(port as int) ==> upstream_setting(m, Some(own)) == Some(
            SocketAddr { ip: own, port, scope: 0 },
        ),
        !m.contains_key("socks5_ip"@) ==> upstream_setting(m, None) is None,
        m.contains_key("dns_ip"@) && m["dns_ip"@] == addr::v4_text(a) && m.contains_key(
            "dns_port"@,
        ) && m["dns_port"@] == text::decimal(port as int) ==> resolver_setting(m) == Some(
            SocketAddr { ip: IpAddr::V4(a), port, scope: 0 },
        ),
        m.contains_key("dns_ip"@) && m["dns_ip"@] == addr::v4_text(a) && !m.contains_key(
            "dns_port"@,
        ) ==> resolver_setting(m) == Some(SocketAddr { ip: IpAddr::V4(a), port: 53, scope: 0 }),
        !m.contains_key("dns_ip"@) && !m.contains_key("dns_port"@) ==> resolver_setting(m) == Some(
            SocketAddr { ip: IpAddr::V4(0x0100_0001), port: 53, scope: 0 },
        ),
        socks5_auth_setting(m) matches Some((u, p)) ==> {
            &&& m.contains_key("socks5_username"@) && u == m["socks5_username"@]
            &&& m.contains_key("socks5_password"@) ==> p == m["socks5_password"@]
            &&& !m.contains_key("socks5_password"@) ==> p.len() == 0
        },
        socks5_auth_setting(m) is None <==> !(m.contains_key("socks5_username"@)
            && m["socks5_username"@].len() > 0),
{
    addr::law_v4_round_trip(a, port);
    addr::law_v4_round_trip(a, 7890);
    addr::law_v4_round_trip(a, 53);
    addr::lemma_v4_plain(a);
    text::law_number_round_trip(port as int, u16::MAX as int);
}

/// The password of the pages is the one of the environment where that holds one, else the
/// one of the settings, else the usual one.
pub proof fn law_which_password(m: Map<Seq<char>, Seq<char>>, env: Option<Seq<char>>)
    ensures
        env matches Some(e) ==> (e.len() > 0 ==> password_of(m, env) == e),
        (env is None || env->0.len() == 0) && m.contains_key("clash_web_password"@)
            && m["clash_web_password"@].len() > 0 ==> password_of(m, env)
            == m["clash_web_password"@],
        (env is None || env->0.len() == 0) && !(m.contains_key("clash_web_password"@)
            && m["clash_web_password"@].len() > 0) ==> password_of(m, env) == "clashpass"@,
{
}

/// A setting that no gateway knows makes no difference.
#[verifier::rlimit(90)]
pub proof fn law_other_keys_make_no_difference(
    m: Map<Seq<char>, Seq<char>>,
    key: Seq<char>,
    value: Seq<char>,
    cpus: usize,
    ipv6: bool,
    env: Option<Seq<char>>,
    own: Option<IpAddr>,
)
    requires
        !seq![
            "mode"@,
            "udp_enable"@,
            "splice_threshold"@,
            "box"@,
            "net_rec"@,
            "max_rec"@,
            "net_cleanday"@,
            "traffic_window_min"@,
            "fake_cidr"@,
            "clash_web_port"@,
            "clash_web_password"@,
            "admin_cidr"@,
            "proxy_cidr"@,
            "openport_auth"@,
            "socks5_ip"@,
            "socks5_port"@,
            "socks5_username"@,
            "socks5_password"@,
            "dns_ip"@,
            "dns_port"@,
            "pplog"@,
            "pplog_uuid"@,
        ].contains(key),
    ensures
        production_view(m.insert(key, value), cpus, ipv6, env, own) == production_view(
            m,
            cpus,
            ipv6,
            env,
            own,
        ),
{
    let known = seq![
        "mode"@,
        "udp_enable"@,
        "splice_threshold"@,
        "box"@,
        "net_rec"@,
        "max_rec"@,
        "net_cleanday"@,
        "traffic_window_min"@,
        "fake_cidr"@,
        "clash_web_port"@,
        "clash_web_password"@,
        "admin_cidr"@,
        "proxy_cidr"@,
        "openport_auth"@,
        "socks5_ip"@,
        "socks5_port"@,
        "socks5_username"@,
        "socks5_password"@,
        "dns_ip"@,
        "dns_port"@,
        "pplog"@,
        "pplog_uuid"@,
    ];
    assert(known[0] == "mode"@ && known[1] == "udp_enable"@ && known[2] == "splice_threshold"@
        && known[3] == "box"@ && known[4] == "net_rec"@ && known[5] == "max_rec"@ && known[6]
        == "net_cleanday"@ && known[7] == "traffic_window_min"@ && known[8] == "fake_cidr"@
        && known[9] == "clash_web_port"@ && known[10] == "clash_web_password"@ && known[11]
        == "admin_cidr"@ && known[12] == "proxy_cidr"@ && known[13] == "openport_auth"@ && known[14]
        == "socks5_ip"@ && known[15] == "socks5_port"@ && known[16] == "socks5_username"@
        && known[17] == "socks5_password"@ && known[18] == "dns_ip"@ && known[19] == "dns_port"@
        && known[20] == "pplog"@ && known[21] == "pplog_uuid"@);
}

/// A line of the settings sets its key to its value without the quotes around it, a comment
/// sets nothing, and a later line takes the place of an earlier one with the same key.
#[verifier::rlimit(50)]
pub proof fn law_lines_of_settings(
    ls: Seq<Seq<char>>,
    n: int,
    key: Seq<char>,
    value: Seq<char>,
)
    requires
        0 < n <= ls.len(),
        key.len() > 0,
        !text::is_space(key[0]) && !text::is_space(key.last()),
        key[0] != '#' && key[0] != ';',
        forall|i: int| 0 <= i < key.len() ==> #[trigger] key[i] != '=',
        value.len() > 0,
        forall|i: int|
            0 <= i < value.len() ==> #[trigger] value[i] != '"' && value[i] != '\'',
        !text::is_space(value[0]) && !text::is_space(value.last()),
    ensures
        ls[n - 1] == key + "="@ + value || ls[n - 1] == key + "=\""@ + value + "\""@ || ls[n - 1]
            == key + "='"@ + value + "'"@ ==> ppgw_run(ls, n) == ppgw_run(ls, n - 1).insert(
            key,
            value,
        ),
        ls[n - 1] == "#"@ + key + "="@ + value || ls[n - 1] == ";"@ + key + "="@ + value || ls[n
            - 1] == key ==> ppgw_run(ls, n) == ppgw_run(ls, n - 1),
{
    reveal_strlit("=");
    reveal_strlit("=\"");
    reveal_strlit("\"");
    reveal_strlit("='");
    reveal_strlit("'");
    reveal_strlit("#");
    reveal_strlit(";");
    let e = Seq::<char>::empty();
    text::law_trimming(e, key, e);
    lemma_setting_line(key, value);
    lemma_setting_line(key, "\""@ + value + "\""@);
    lemma_setting_line(key, "'"@ + value + "'"@);
    assert(key + "=\""@ + value + "\""@ =~= key + "="@ + ("\""@ + value + "\""@));
    assert(key + "='"@ + value + "'"@ =~= key + "="@ + ("'"@ + value + "'"@));
    let dq = text::only('"');
    let sq = text::only('\'');
    text::law_trimming(e, value, e);
    assert(e + value + e =~= value);
    text::lemma_trim_around(e, value, e, dq);
    text::lemma_trim_around(e, value, e, sq);
    text::lemma_trim_around("\""@, value, "\""@, dq);
    text::lemma_trim_around("'"@, value, "'"@, sq);
    let q = "'"@ + value + "'"@;
    assert(q[0] == '\'' && q.last() == '\'');
    text::lemma_trim_around(e, q, e, dq);
    assert(e + q + e =~= q);
    text::law_trimming(e, q, e);
    let w = "\""@ + value + "\""@;
    assert(w[0] == '"' && w.last() == '"');
    text::law_trimming(e, w, e);
    let h = "#"@ + key + "="@ + value;
    assert(h[0] == '#' && h.last() == value.last());
    text::law_trimming(e, h, e);
    let s = ";"@ + key + "="@ + value;
    assert(s[0] == ';' && s.last() == value.last());
    text::law_trimming(e, s, e);
    text::lemma_no_cut(key, '=');
}

/// A line with a key and a value is cut at the equal sign.
proof fn lemma_setting_line(key: Seq<char>, value: Seq<char>)
    requires
        key.len() > 0,
        !text::is_space(key[0]) && !text::is_space(key.last()),
        key[0] != '#' && key[0] != ';',
        forall|i: int| 0 <= i < key.len() ==> #[trigger] key[i] != '=',
        value.len() > 0,
        !text::is_space(value[0]) && !text::is_space(value.last()),
    ensures
        ppgw_line(key + "="@ + value) == Some((key, unquoted(value))),
{
    reveal_strlit("=");
    let e = Seq::<char>::empty();
    let t = key + "="@ + value;
    assert(t[0] == key[0] && t.last() == value.last());
    text::law_trimming(e, t, e);
    text::law_trimming(e, key, e);
    assert(t =~= key + seq!['='] + value);
    text::lemma_cut_first(key, value, '=');
}

/// What is blocked: BitTorrent and QUIC unless an item of the list says otherwise, and what
/// is unknown only where one says so. The last item on something counts, and an item
/// changes nothing but what it names.
pub proof fn law_what_is_blocked(c: RouteCfg, key: Seq<char>, on: bool)
    requires
        key.len() > 0,
        !text::is_space(key[0]) && !text::is_space(key.last()),
        forall|i: int| 0 <= i < key.len() ==> #[trigger] key[i] != '=',
    ensures
        ({
            let r = route_item(
                c,
                key + "="@ + if on {
                    "yes"@
                } else {
                    "no"@
                },
            );
            &&& r.block_bittorrent == if key == "route.block_bittorrent"@ {
                on
            } else {
                c.block_bittorrent
            }
            &&& r.block_quic == if key == "route.block_quic"@ {
                on
            } else {
                c.block_quic
            }
            &&& r.block_unknown == if key == "route.block_unknown"@ {
                on
            } else {
                c.block_unknown
            }
            &&& r.log_sniffed == c.log_sniffed
        }),
        base_route().block_bittorrent && base_route().block_quic && !base_route().block_unknown
            && base_route().log_sniffed,
{
    reveal_strlit("=");
    reveal_strlit("yes");
    reveal_strlit("no");
    reveal_strlit("route.block_bittorrent");
    reveal_strlit("route.block_quic");
    reveal_strlit("route.block_unknown");
    assert("route.block_bittorrent"@.len() == 22 && "route.block_quic"@.len() == 16
        && "route.block_unknown"@.len() == 19);
    let v = if on {
        "yes"@
    } else {
        "no"@
    };
    let e = Seq::<char>::empty();
    assert(key + "="@ + v =~= key + seq!['='] + v);
    text::lemma_cut_first(key, v, '=');
    text::law_trimming(e, key, e);
    text::law_trimming(e, v, e);
    text::lemma_trim_around(e, v, e, text::only('"'));
    assert(e + v + e =~= v);
    config::law_words_for_a_switch(v);
    assert(text::same_nocase("yes"@, "yes"@) && text::same_nocase("no"@, "no"@));
}

} // verus!
