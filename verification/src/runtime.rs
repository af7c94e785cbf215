//! What runs of the gateway share, and what a reload changes of it.

use crate::addr;
use crate::addr::{IpAddr, SocketAddr};
use crate::config;
use crate::config::{CidrAcl, Config, OutboundMode, RouteCfg};
use crate::production;
use crate::records::{ConnSample, RecordKind, Transport};
use crate::text;
use vstd::prelude::*;

verus! {

/// For how long after a request the traffic is kept up to date, in milliseconds.
pub const TRAFFIC_DEMAND_WINDOW_MS: u64 = 30_000;

/// Whether the traffic is still asked for: it was, and not too long ago.
pub open spec fn demanded(last: int, now: int) -> bool {
    last != 0 && now - last <= TRAFFIC_DEMAND_WINDOW_MS
}

/// Whether the traffic is still asked for.
pub fn in_demand(last: u64, now: u64) -> (r: bool)
    ensures
        r == demanded(last as int, now as int),
{
    last != 0 && (now < last || now - last <= TRAFFIC_DEMAND_WINDOW_MS)
}

// ---------------------------------------------------------------------------
// Routes
// ---------------------------------------------------------------------------

/// Which traffic is let through and logged.
#[derive(Debug, Clone, Copy, PartialEq, Eq, Structural)]
pub struct RouteFlags {
    pub block_bittorrent: bool,
    pub block_quic: bool,
    pub block_unknown: bool,
    pub log_sniffed: bool,
}

/// The flags of a configuration.
pub open spec fn flags_of(c: RouteCfg) -> RouteFlags {
    RouteFlags {
        block_bittorrent: c.block_bittorrent,
        block_quic: c.block_quic,
        block_unknown: c.block_unknown,
        log_sniffed: c.log_sniffed,
    }
}

/// Routes in one byte.
#[derive(Debug)]
pub struct AtomicRoute {
    bits: u8,
}

/// The flag of BitTorrent.
pub const BT: u8 = 1;

/// The flag of QUIC.
pub const QUIC: u8 = 2;

/// The flag of unknown traffic.
pub const UNKNOWN: u8 = 4;

/// The flag of the log.
pub const LOG: u8 = 8;

/// A flag where it is set.
spec fn flag(set: bool, f: u8) -> u8 {
    if set {
        f
    } else {
        0
    }
}

/// The byte of some flags.
pub closed spec fn packed(c: RouteFlags) -> u8 {
    flag(c.block_bittorrent, BT) | flag(c.block_quic, QUIC) | flag(c.block_unknown, UNKNOWN) | flag(
        c.log_sniffed,
        LOG,
    )
}

impl View for AtomicRoute {
    type V = RouteFlags;

    closed spec fn view(&self) -> RouteFlags {
        RouteFlags {
            block_bittorrent: self.bits & BT != 0,
            block_quic: self.bits & QUIC != 0,
            block_unknown: self.bits & UNKNOWN != 0,
            log_sniffed: self.bits & LOG != 0,
        }
    }
}

/// The flags can be read back from the byte.
proof fn lemma_packed(a: u8, b: u8, c: u8, d: u8)
    requires
        a == 0 || a == 1,
        b == 0 || b == 2,
        c == 0 || c == 4,
        d == 0 || d == 8,
    ensures
        ((a | b | c | d) & 1 != 0) == (a != 0),
        ((a | b | c | d) & 2 != 0) == (b != 0),
        ((a | b | c | d) & 4 != 0) == (c != 0),
        ((a | b | c | d) & 8 != 0) == (d != 0),
{
    assert(((a | b | c | d) & 1 != 0) == (a != 0) && ((a | b | c | d) & 2 != 0) == (b != 0) && ((a
        | b | c | d) & 4 != 0) == (c != 0) && ((a | b | c | d) & 8 != 0) == (d != 0))
        by (bit_vector)
        requires
            a == 0 || a == 1,
            b == 0 || b == 2,
            c == 0 || c == 4,
            d == 0 || d == 8,
    ;
}

impl AtomicRoute {
    /// The byte of some routes.
    fn pack(c: &RouteCfg) -> (r: u8)
        ensures
            r == packed(flags_of(*c)),
    {
        let a: u8 = if c.block_bittorrent {
            BT
        } else {
            0
        };
        let b: u8 = if c.block_quic {
            QUIC
        } else {
            0
        };
        let u: u8 = if c.block_unknown {
            UNKNOWN
        } else {
            0
        };
        let l: u8 = if c.log_sniffed {
            LOG
        } else {
            0
        };
        a | b | u | l
    }

    /// The routes of a configuration.
    pub fn new(c: &RouteCfg) -> (r: AtomicRoute)
        ensures
            r@ == flags_of(*c),
    {
        proof {
            let f = flags_of(*c);
            lemma_packed(
                flag(f.block_bittorrent, BT),
                flag(f.block_quic, QUIC),
                flag(f.block_unknown, UNKNOWN),
                flag(f.log_sniffed, LOG),
            );
        }
        AtomicRoute { bits: AtomicRoute::pack(c) }
    }

    /// Takes the routes of a configuration.
    pub fn store(&mut self, c: &RouteCfg)
        ensures
            final(self)@ == flags_of(*c),
    {
        *self = AtomicRoute::new(c);
    }

    /// The flags.
    pub fn load(&self) -> (r: RouteFlags)
        ensures
            r == self@,
    {
        RouteFlags {
            block_bittorrent: self.bits & BT != 0,
            block_quic: self.bits & QUIC != 0,
            block_unknown: self.bits & UNKNOWN != 0,
            log_sniffed: self.bits & LOG != 0,
        }
    }
}

// ---------------------------------------------------------------------------
// Shared state
// ---------------------------------------------------------------------------

/// What runs of the gateway share of the configuration.
pub struct SharedState {
    pub route: AtomicRoute,
    pub listen_addr: SocketAddr,
    outbound_mode: OutboundMode,
    proxy_acl: CidrAcl,
    splice_copy: bool,
    splice_threshold: u64,
    sniff_timeout_ms: u64,
    max_rec: usize,
    net_cleanday: u8,
    admin_acl: CidrAcl,
    web_password: String,
    openport_auth: Option<(String, String)>,
}

/// The values of the shared state.
pub struct SharedView {
    pub route: RouteFlags,
    pub listen_addr: SocketAddr,
    pub outbound_mode: OutboundMode,
    pub proxy_acl: Seq<crate::cidr::Ipv4Net>,
    pub splice_copy: bool,
    pub splice_threshold: u64,
    pub sniff_timeout_ms: u64,
    pub max_rec: int,
    pub net_cleanday: int,
    pub admin_acl: Seq<crate::cidr::Ipv4Net>,
    pub web_password: Seq<char>,
    pub openport_auth: Option<(Seq<char>, Seq<char>)>,
}

impl View for SharedState {
    type V = SharedView;

    closed spec fn view(&self) -> SharedView {
        SharedView {
            route: self.route@,
            listen_addr: self.listen_addr,
            outbound_mode: self.outbound_mode,
            proxy_acl: self.proxy_acl@,
            splice_copy: self.splice_copy,
            splice_threshold: self.splice_threshold,
            sniff_timeout_ms: self.sniff_timeout_ms,
            max_rec: self.max_rec as int,
            net_cleanday: self.net_cleanday as int,
            admin_acl: self.admin_acl@,
            web_password: self.web_password@,
            openport_auth: config::opt_pair(self.openport_auth),
        }
    }
}

/// How many records are kept.
pub open spec fn max_rec_of(c: config::ConfigView) -> int {
    match c.stats {
        Some(s) => s.max_rec as int,
        None => 5000,
    }
}

/// On which day records are cleared.
pub open spec fn cleanday_of(c: config::ConfigView) -> int {
    match c.stats {
        Some(s) => s.net_cleanday as int,
        None => 0,
    }
}

/// The shared state of a configuration.
pub open spec fn shared_of(c: config::ConfigView) -> SharedView {
    SharedView {
        route: flags_of(c.route),
        listen_addr: c.inbound.listen,
        outbound_mode: c.outbound.mode,
        proxy_acl: c.acl,
        splice_copy: c.inbound.splice_copy,
        splice_threshold: c.inbound.splice_threshold,
        sniff_timeout_ms: c.inbound.sniff_timeout_ms,
        max_rec: max_rec_of(c),
        net_cleanday: cleanday_of(c),
        admin_acl: c.web.admin_cidr,
        web_password: c.web.password,
        openport_auth: c.inbound_proxy.auth,
    }
}

/// The shared state after a reload: everything of the new configuration but the
/// address and the mode, which stay until a restart.
pub open spec fn reloaded(before: SharedView, c: config::ConfigView) -> SharedView {
    SharedView {
        listen_addr: before.listen_addr,
        outbound_mode: before.outbound_mode,
        ..shared_of(c)
    }
}

/// Whether an address is one of the machine itself.
pub open spec fn is_loopback(ip: IpAddr) -> bool {
    match ip {
        IpAddr::V4(a) => a / 0x100_0000 == 127,
        IpAddr::V6(a) => a == 1,
    }
}

/// Whether an address is one of the machine itself.
pub fn loopback(ip: IpAddr) -> (r: bool)
    ensures
        r == is_loopback(ip),
{
    match ip {
        IpAddr::V4(a) => a / 0x100_0000 == 127,
        IpAddr::V6(a) => a == 1,
    }
}

/// What a reload cannot change without a restart.
#[derive(Debug, Clone, Copy, PartialEq, Eq, Structural)]
pub struct RestartNotes {
    pub mode: bool,
    pub listen: bool,
}

/// How many records are kept.
pub fn stats_max_rec(c: &Config) -> (r: usize)
    ensures
        r == max_rec_of(c@),
{
    match c.stats {
        Some(s) => s.max_rec,
        None => 5000,
    }
}

/// On which day records are cleared.
pub fn stats_net_cleanday(c: &Config) -> (r: u8)
    ensures
        r == cleanday_of(c@),
{
    match c.stats {
        Some(s) => s.net_cleanday,
        None => 0,
    }
}

/// Over how many seconds traffic is summed up, at least a minute.
pub fn agg_window_secs(c: &Config) -> (r: u64)
    ensures
        r == 60 * config::max_of(
            match c.stats {
                Some(s) => s.traffic_window_min as int,
                None => 60,
            },
            1,
        ),
{
    let min: u64 = match c.stats {
        Some(s) => s.traffic_window_min as u64,
        None => 60,
    };
    if min < 1 {
        60
    } else {
        60 * min
    }
}

/// A copy of a user and a password.
fn copy_auth(a: &Option<(String, String)>) -> (r: Option<(String, String)>)
    ensures
        config::opt_pair(r) == config::opt_pair(*a),
{
    match a {
        Some((u, p)) => Some((u.clone(), p.clone())),
        None => None,
    }
}

impl SharedState {
    /// The shared state of a configuration.
    pub fn new(c: &Config) -> (r: SharedState)
        ensures
            r@ == shared_of(c@),
    {
        SharedState {
            route: AtomicRoute::new(&c.route),
            listen_addr: c.inbound.listen,
            outbound_mode: c.outbound.mode,
            proxy_acl: c.acl.proxy_cidr.clone(),
            splice_copy: c.inbound.splice_copy,
            splice_threshold: c.inbound.splice_threshold,
            sniff_timeout_ms: c.inbound.sniff_timeout_ms,
            max_rec: stats_max_rec(c),
            net_cleanday: stats_net_cleanday(c),
            admin_acl: c.web.admin_cidr.clone(),
            web_password: c.web.password.clone(),
            openport_auth: copy_auth(&c.inbound_proxy.auth),
        }
    }

    /// Takes a new configuration, and tells what of it needs a restart.
    pub fn reload(&mut self, c: &Config) -> (r: RestartNotes)
        ensures
            final(self)@ == reloaded(old(self)@, c@),
            r == (RestartNotes {
                mode: c@.outbound.mode != old(self)@.outbound_mode,
                listen: c@.inbound.listen != old(self)@.listen_addr,
            }),
    {
        self.route.store(&c.route);
        self.splice_copy = c.inbound.splice_copy;
        self.splice_threshold = c.inbound.splice_threshold;
        self.sniff_timeout_ms = c.inbound.sniff_timeout_ms;
        self.proxy_acl = c.acl.proxy_cidr.clone();
        self.max_rec = stats_max_rec(c);
        self.net_cleanday = stats_net_cleanday(c);
        self.admin_acl = c.web.admin_cidr.clone();
        self.openport_auth = copy_auth(&c.inbound_proxy.auth);
        self.web_password = c.web.password.clone();
        RestartNotes {
            mode: c.outbound.mode != self.outbound_mode,
            listen: c.inbound.listen != self.listen_addr,
        }
    }

    /// Whether data is copied within the kernel.
    pub fn splice_copy(&self) -> (r: bool)
        ensures
            r == self@.splice_copy,
    {
        self.splice_copy
    }

    /// From how many bytes on data is copied within the kernel.
    pub fn splice_threshold(&self) -> (r: u64)
        ensures
            r == self@.splice_threshold,
    {
        self.splice_threshold
    }

    /// For how long the first bytes of a connection are waited for.
    pub fn sniff_timeout_ms(&self) -> (r: u64)
        ensures
            r == self@.sniff_timeout_ms,
    {
        self.sniff_timeout_ms
    }

    /// What is refused and what is logged.
    pub fn route_flags(&self) -> (r: RouteFlags)
        ensures
            r == self@.route,
    {
        self.route.load()
    }

    /// How many records are kept.
    pub fn max_rec(&self) -> (r: usize)
        ensures
            r == self@.max_rec,
    {
        self.max_rec
    }

    /// On which day records are cleared.
    pub fn net_cleanday(&self) -> (r: u8)
        ensures
            r == self@.net_cleanday,
    {
        self.net_cleanday
    }

    /// The password of the administration pages.
    pub fn web_password(&self) -> (r: &str)
        ensures
            r@ == self@.web_password,
    {
        self.web_password.as_str()
    }

    /// The user and the password of the proxy of the local network.
    pub fn openport_auth(&self) -> (r: &Option<(String, String)>)
        ensures
            config::opt_pair(*r) == self@.openport_auth,
    {
        &self.openport_auth
    }

    /// Whether an address may use the proxy: the machine itself always may.
    pub fn proxy_allowed(&self, ip: IpAddr) -> (r: bool)
        ensures
            r == (is_loopback(ip) || config::allowed(self@.proxy_acl, ip)),
    {
        loopback(ip) || self.proxy_acl.allows(ip)
    }

    /// Whether an address may use the administration pages: the machine itself
    /// always may.
    pub fn admin_allowed(&self, ip: IpAddr) -> (r: bool)
        ensures
            r == (is_loopback(ip) || config::allowed(self@.admin_acl, ip)),
    {
        loopback(ip) || self.admin_acl.allows(ip)
    }

    /// The networks that may use the proxy.
    pub fn proxy_cidr(&self) -> (r: Vec<String>)
        ensures
            text::strings(r@) == net_texts(self@.proxy_acl),
    {
        texts_of_nets(&self.proxy_acl)
    }

    /// The networks that may use the administration pages.
    pub fn admin_cidr(&self) -> (r: Vec<String>)
        ensures
            text::strings(r@) == net_texts(self@.admin_acl),
    {
        texts_of_nets(&self.admin_acl)
    }
}

/// The texts of networks.
pub open spec fn net_texts(nets: Seq<crate::cidr::Ipv4Net>) -> Seq<Seq<char>> {
    Seq::new(
        nets.len(),
        |i: int|
            addr::v4_text(nets[i].addr) + seq!['/'] + text::decimal(nets[i].prefix as int),
    )
}

/// The texts of the networks of a list.
fn texts_of_nets(acl: &CidrAcl) -> (r: Vec<String>)
    ensures
        text::strings(r@) == net_texts(acl@),
{
    let nets = acl.nets();
    let mut out: Vec<String> = Vec::new();
    let mut i: usize = 0;
    while i < nets.len()
        invariant
            i <= nets@.len(),
            nets@ == acl@,
            text::strings(out@) == net_texts(acl@).take(i as int),
        decreases nets@.len() - i,
    {
        let ghost before = text::strings(out@);
        out.push(nets[i].text());
        assert(text::strings(out@) =~= before.push(net_texts(acl@)[i as int]));
        i = i + 1;
        assert(net_texts(acl@).take(i as int) =~= net_texts(acl@).take(i - 1).push(
            net_texts(acl@)[i - 1],
        ));
    }
    assert(net_texts(acl@).take(i as int) =~= net_texts(acl@));
    out
}

/// What a reload does not change: where the gateway listens and in which mode.
/// Everything else is as if the gateway had started with the new configuration,
/// and reloading twice is as reloading once.
pub proof fn law_reload(before: SharedView, a: config::ConfigView, b: config::ConfigView)
    ensures
        reloaded(reloaded(before, a), b) == reloaded(before, b),
        reloaded(before, b).listen_addr == before.listen_addr,
        reloaded(before, b).outbound_mode == before.outbound_mode,
        before.listen_addr == b.inbound.listen && before.outbound_mode == b.outbound.mode
            ==> reloaded(before, b) == shared_of(b),
{
}

// ---------------------------------------------------------------------------
// Environment and settings
// ---------------------------------------------------------------------------

/// A value of the environment that is not blank, else a setting.
pub open spec fn env_or_setting(
    env: Option<Seq<char>>,
    m: Map<Seq<char>, Seq<char>>,
    key: Seq<char>,
) -> Option<Seq<char>> {
    match env {
        Some(e) => if text::trimmed(e).len() > 0 {
            Some(e)
        } else {
            production::setting(m, key)
        },
        None => production::setting(m, key),
    }
}

/// A value of the environment that is not blank, else a setting in the text of the
/// settings file.
pub fn env_or_ini(env: Option<&str>, file: &str, key: &str) -> (r: Option<String>)
    ensures
        text::opt_string(r) == env_or_setting(
            text::opt_str(env),
            production::ppgw_of(file@),
            key@,
        ),
{
    if let Some(e) = env {
        let cs = text::chars_of(e);
        if text::trim(&cs).len() > 0 {
            return Some(e.to_owned());
        }
    }
    production::ini_value(file, key)
}

/// A truth value of the environment or the settings; what is not there or not
/// understood is false.
pub open spec fn truth(v: Option<Seq<char>>) -> bool {
    match v {
        Some(s) => production::yesno(s) == Some(true),
        None => false,
    }
}

/// A truth value of the environment or the settings.
pub fn env_bool(env: Option<&str>, file: &str, key: &str) -> (r: bool)
    ensures
        r == truth(
            env_or_setting(text::opt_str(env), production::ppgw_of(file@), key@),
        ),
{
    match env_or_ini(env, file, key) {
        Some(s) => match production::parse_yesno(s.as_str()) {
            Some(b) => b,
            None => false,
        },
        None => false,
    }
}

/// Whether a subscription is one of the gateway's own kind: a prefix and then an
/// address that is not blank.
pub open spec fn is_ppsub(suburl: Option<Seq<char>>) -> bool {
    match suburl {
        Some(s) => match text::after(text::trimmed(s), "ppsub@"@) {
            Some(url) => text::trimmed(url).len() > 0,
            None => false,
        },
        None => false,
    }
}

/// Whether a subscription is one of the gateway's own kind.
pub fn is_ppsub_suburl(suburl: Option<&str>) -> (r: bool)
    ensures
        r == is_ppsub(text::opt_str(suburl)),
{
    match suburl {
        Some(s) => {
            let cs = text::chars_of(s);
            match text::strip_prefix(text::trim(&cs), "ppsub@") {
                Some(url) => text::trim(url).len() > 0,
                None => false,
            }
        },
        None => false,
    }
}

/// Whether the gateway runs from a subscription of its own kind.
pub open spec fn ppsub_runs(
    env_mode: Option<Seq<char>>,
    env_suburl: Option<Seq<char>>,
    m: Map<Seq<char>, Seq<char>>,
) -> bool {
    &&& env_or_setting(env_mode, m, "mode"@) matches Some(s) && text::trim_of(
        text::trimmed(s),
        text::only('"'),
    ) == "suburl"@
    &&& is_ppsub(env_or_setting(env_suburl, m, "suburl"@))
}

/// Whether the gateway runs from a subscription of its own kind, by its environment
/// and its settings file.
pub fn ppsub_active(env_mode: Option<&str>, env_suburl: Option<&str>, file: &str) -> (r: bool)
    ensures
        r == ppsub_runs(
            text::opt_str(env_mode),
            text::opt_str(env_suburl),
            production::ppgw_of(file@),
        ),
{
    let mode = match env_or_ini(env_mode, file, "mode") {
        Some(m) => m,
        None => return false,
    };
    let cs = text::chars_of(mode.as_str());
    if !text::same(text::trim_char(text::trim(&cs), '"'), "suburl") {
        return false;
    }
    match env_or_ini(env_suburl, file, "suburl") {
        Some(s) => is_ppsub_suburl(Some(s.as_str())),
        None => is_ppsub_suburl(None),
    }
}

/// The name of a mode.
pub open spec fn mode_text(m: OutboundMode) -> Seq<char> {
    match m {
        OutboundMode::Free => "free"@,
        OutboundMode::Socks5 => "socks5"@,
        OutboundMode::Ovpn => "ovpn"@,
        OutboundMode::Yaml => "yaml"@,
        OutboundMode::Suburl => "suburl"@,
    }
}

/// The mode that is shown: the one of the environment where it is not blank, else
/// the one in force.
pub fn mode_string(env: Option<&str>, m: OutboundMode) -> (r: String)
    ensures
        r@ == match text::opt_str(env) {
            Some(e) => if text::trimmed(e).len() > 0 {
                text::trimmed(e)
            } else {
                mode_text(m)
            },
            None => mode_text(m),
        },
{
    if let Some(e) = env {
        let cs = text::chars_of(e);
        let t = text::trim(&cs);
        if t.len() > 0 {
            return text::str_of(t);
        }
    }
    match m {
        OutboundMode::Free => "free".to_owned(),
        OutboundMode::Socks5 => "socks5".to_owned(),
        OutboundMode::Ovpn => "ovpn".to_owned(),
        OutboundMode::Yaml => "yaml".to_owned(),
        OutboundMode::Suburl => "suburl".to_owned(),
    }
}

/// The items of the first `n` pieces that are not blank.
pub open spec fn list_run(items: Seq<Seq<char>>, n: int) -> Seq<Seq<char>>
    decreases n,
{
    if n <= 0 {
        seq![]
    } else if text::trimmed(items[n - 1]).len() > 0 {
        list_run(items, n - 1).push(text::trimmed(items[n - 1]))
    } else {
        list_run(items, n - 1)
    }
}

/// The items of a list with commas.
pub fn comma_list(s: &str) -> (r: Vec<String>)
    ensures
        text::strings(r@) == list_run(text::split(s@, ','), text::split(s@, ',').len() as int),
{
    let cs = text::chars_of(s);
    let items = text::split_char(&cs, ',');
    let ghost all = text::split(s@, ',');
    let mut out: Vec<String> = Vec::new();
    let mut i: usize = 0;
    assert(text::strings(out@) =~= Seq::<Seq<char>>::empty());
    while i < items.len()
        invariant
            i <= items@.len(),
            all == text::texts(items@),
            text::strings(out@) == list_run(all, i as int),
        decreases items@.len() - i,
    {
        assert(all[i as int] == items@[i as int]@);
        let t = text::trim(items[i]);
        if t.len() > 0 {
            let ghost before = text::strings(out@);
            out.push(text::str_of(t));
            assert(text::strings(out@) =~= before.push(t@));
        }
        i = i + 1;
    }
    out
}

/// What stays the same while the gateway runs.
#[derive(Debug, Clone)]
pub struct InfoStatic {
    pub mode: OutboundMode,
    pub openport_enabled: bool,
    pub openport_port: u16,
    pub udp_enable: bool,
    pub net_rec: bool,
    pub pplog: Option<SocketAddr>,
    pub dns_resolver: Option<SocketAddr>,
    pub clash_sock: String,
}

impl InfoStatic {
    /// What a configuration says of it.
    pub fn from_cfg(c: &Config) -> (r: InfoStatic)
        ensures
            r.mode == c@.outbound.mode,
            r.openport_enabled == c@.inbound_proxy.enabled,
            r.openport_port == c@.inbound_proxy.listen_port,
            r.udp_enable == c@.inbound_proxy.udp,
            r.net_rec == (c@.stats matches Some(s) && s.enabled),
            r.pplog == c@.report.pplog,
            r.dns_resolver == c@.outbound.resolver,
            r.clash_sock@ == c@.web.clash_sock,
    {
        InfoStatic {
            mode: c.outbound.mode,
            openport_enabled: c.inbound_proxy.enabled,
            openport_port: c.inbound_proxy.listen_port,
            udp_enable: c.inbound_proxy.udp,
            net_rec: match c.stats {
                Some(s) => s.enabled,
                None => false,
            },
            pplog: c.report.pplog,
            dns_resolver: c.outbound.resolver.server,
            clash_sock: c.web.clash_sock.clone(),
        }
    }
}

// ---------------------------------------------------------------------------
// Connections
// ---------------------------------------------------------------------------

/// What a connection has counted beyond what was taken from it.
pub open spec fn undrained(total: int, drained: int) -> int {
    config::max_of(total - drained, 0)
}

/// What the first `n` connections have sent beyond what was taken from them.
pub open spec fn live_up(v: Seq<ConnSample>, n: int) -> int
    decreases n,
{
    if n <= 0 {
        0
    } else {
        live_up(v, n - 1) + undrained(v[n - 1].upload as int, v[n - 1].drained_up as int)
    }
}

/// What the first `n` connections have received beyond what was taken from them.
pub open spec fn live_down(v: Seq<ConnSample>, n: int) -> int
    decreases n,
{
    if n <= 0 {
        0
    } else {
        live_down(v, n - 1) + undrained(v[n - 1].download as int, v[n - 1].drained_down as int)
    }
}

/// What was received and sent in all: the totals that were taken and what
/// connections have counted since.
pub fn live_totals(down: u64, up: u64, v: &[ConnSample]) -> (r: (u128, u128))
    ensures
        r.0 == down + live_down(v@, v@.len() as int),
        r.1 == up + live_up(v@, v@.len() as int),
{
    let mut d: u128 = down as u128;
    let mut u: u128 = up as u128;
    let mut i: usize = 0;
    while i < v.len()
        invariant
            i <= v@.len(),
            d == down + live_down(v@, i as int),
            u == up + live_up(v@, i as int),
            d <= (i + 1) * 0xffff_ffff_ffff_ffff,
            u <= (i + 1) * 0xffff_ffff_ffff_ffff,
        decreases v@.len() - i,
    {
        let s = v[i];
        assert((i + 1) * 0xffff_ffff_ffff_ffff + 0xffff_ffff_ffff_ffff <= 0x1_0000_0000_0000_0000
            * 0xffff_ffff_ffff_ffff) by (nonlinear_arith)
            requires
                i < 0xffff_ffff_ffff_ffff,
        ;
        let du: u64 = if s.upload > s.drained_up {
            s.upload - s.drained_up
        } else {
            0
        };
        let dd: u64 = if s.download > s.drained_down {
            s.download - s.drained_down
        } else {
            0
        };
        u = u + du as u128;
        d = d + dd as u128;
        i = i + 1;
    }
    (d, u)
}

/// How many connections there are, and of which kinds.
#[derive(Debug, Clone, Copy, PartialEq, Eq, Structural)]
pub struct ConnStats {
    pub active: u64,
    pub tcp: u64,
    pub udp: u64,
    pub clients: u64,
    pub fakeip: u64,
    pub realip: u64,
}

/// How many of the first `n` connections have a property.
pub open spec fn count(v: Seq<ConnSample>, f: spec_fn(ConnSample) -> bool, n: int) -> int
    decreases n,
{
    if n <= 0 {
        0
    } else {
        count(v, f, n - 1) + if f(v[n - 1]) {
            1int
        } else {
            0int
        }
    }
}

/// Connections that are open.
pub open spec fn open_conn() -> spec_fn(ConnSample) -> bool {
    |s: ConnSample| !s.closed
}

/// Open connections over a transport.
pub open spec fn open_over(t: Transport) -> spec_fn(ConnSample) -> bool {
    |s: ConnSample| !s.closed && s.transport == t
}

/// Open connections of clients to an address of the gateway's own, or to others.
pub open spec fn open_to(net: Option<crate::cidr::Ipv4Net>, own: bool) -> spec_fn(
    ConnSample,
) -> bool {
    |s: ConnSample| !s.closed && s.kind is Client && own_address(net, s.dst) == own
}

/// Whether an address is one that the gateway gives out.
pub open spec fn own_address(net: Option<crate::cidr::Ipv4Net>, ip: IpAddr) -> bool {
    net matches Some(n) && ip matches IpAddr::V4(a) && n.has(a)
}

/// The clients of the first `n` connections that are open.
pub open spec fn client_set(v: Seq<ConnSample>, n: int) -> Set<IpAddr>
    decreases n,
{
    if n <= 0 {
        Set::empty()
    } else if !v[n - 1].closed && v[n - 1].kind is Client {
        client_set(v, n - 1).insert(v[n - 1].src)
    } else {
        client_set(v, n - 1)
    }
}

/// Whether a vector holds an address.
fn has_ip(v: &Vec<IpAddr>, ip: IpAddr) -> (r: bool)
    ensures
        r == v@.contains(ip),
{
    let mut i: usize = 0;
    while i < v.len()
        invariant
            i <= v@.len(),
            forall|j: int| 0 <= j < i ==> #[trigger] v@[j] != ip,
        decreases v@.len() - i,
    {
        if v[i] == ip {
            assert(v@[i as int] == ip);
            return true;
        }
        i = i + 1;
    }
    false
}

/// Counts connections. Clients are the different addresses that open connections
/// come from; connections of the gateway itself have no client.
pub fn conn_stats(v: &[ConnSample], net: Option<crate::cidr::Ipv4Net>) -> (r: ConnStats)
    requires
        net matches Some(n) ==> n.wf(),
    ensures
        r.active == count(v@, open_conn(), v@.len() as int),
        r.tcp == count(v@, open_over(Transport::Tcp), v@.len() as int),
        r.udp == count(v@, open_over(Transport::Udp), v@.len() as int),
        r.clients == client_set(v@, v@.len() as int).len(),
        r.fakeip == count(v@, open_to(net, true), v@.len() as int),
        r.realip == count(v@, open_to(net, false), v@.len() as int),
{
    let mut s = ConnStats { active: 0, tcp: 0, udp: 0, clients: 0, fakeip: 0, realip: 0 };
    let mut seen: Vec<IpAddr> = Vec::new();
    let mut i: usize = 0;
    proof {
        assert(seen@.to_set() =~= Set::<IpAddr>::empty());
    }
    while i < v.len()
        invariant
            i <= v@.len(),
            net matches Some(n) ==> n.wf(),
            s.active == count(v@, open_conn(), i as int),
            s.tcp == count(v@, open_over(Transport::Tcp), i as int),
            s.udp == count(v@, open_over(Transport::Udp), i as int),
            s.fakeip == count(v@, open_to(net, true), i as int),
            s.realip == count(v@, open_to(net, false), i as int),
            s.active <= i,
            s.tcp <= i,
            s.udp <= i,
            s.fakeip <= i,
            s.realip <= i,
            seen@.no_duplicates(),
            seen@.to_set() == client_set(v@, i as int),
        decreases v@.len() - i,
    {
        let c = v[i];
        i = i + 1;
        if c.closed {
            continue ;
        }
        s.active = s.active + 1;
        match c.transport {
            Transport::Tcp => {
                s.tcp = s.tcp + 1;
            },
            Transport::Udp => {
                s.udp = s.udp + 1;
            },
        }
        if c.kind == RecordKind::Internal {
            continue ;
        }
        if !has_ip(&seen, c.src) {
            let ghost before = seen@;
            seen.push(c.src);
            proof {
                assert(seen@.to_set() =~= before.to_set().insert(c.src)) by {
                    assert(seen@ =~= before.push(c.src));
                    assert forall|x: IpAddr| seen@.to_set().contains(x) == before.to_set().insert(
                        c.src,
                    ).contains(x) by {
                        if before.contains(x) {
                            let j = choose|j: int| 0 <= j < before.len() && before[j] == x;
                            assert(seen@[j] == x);
                        }
                        if x == c.src {
                            assert(seen@[before.len() as int] == x);
                        }
                    }
                }
            }
        } else {
            assert(client_set(v@, i as int) =~= client_set(v@, i - 1)) by {
                assert(seen@.to_set().contains(c.src));
            }
        }
        let own = match net {
            Some(n) => match c.dst {
                IpAddr::V4(a) => n.contains(a),
                IpAddr::V6(_) => false,
            },
            None => false,
        };
        if own {
            s.fakeip = s.fakeip + 1;
        } else {
            s.realip = s.realip + 1;
        }
    }
    proof {
        seen@.unique_seq_to_set();
    }
    s.clients = seen.len() as u64;
    s
}

/// Every open connection is over one transport, and every open connection of a
/// client goes to an address of the gateway's own or to another.
pub proof fn law_counts_add_up(v: Seq<ConnSample>, net: Option<crate::cidr::Ipv4Net>, n: int)
    requires
        0 <= n <= v.len(),
    ensures
        count(v, open_over(Transport::Tcp), n) + count(v, open_over(Transport::Udp), n) == count(
            v,
            open_conn(),
            n,
        ),
        count(v, open_to(net, true), n) + count(v, open_to(net, false), n) <= count(
            v,
            open_conn(),
            n,
        ),
    decreases n,
{
    if n > 0 {
        law_counts_add_up(v, net, n - 1);
    }
}

// ---------------------------------------------------------------------------
// Room for names
// ---------------------------------------------------------------------------

/// How many names fit: a share of the memory, no more than there are addresses and
/// no fewer than 4096 where there are that many.
pub open spec fn entries_for(mem: Option<u64>, pct: int, usable: int, per_entry: int) -> int {
    match mem {
        Some(bytes) => config::clamped(
            config::min_of(bytes * pct, u64::MAX as int) / 100 / per_entry,
            config::min_of(4096, usable),
            usable,
        ),
        None => config::min_of(65_536, usable),
    }
}

/// How many names fit.
pub fn auto_max_entries(mem: Option<u64>, pct: u8, usable: u32, per_entry: u64) -> (r: usize)
    requires
        per_entry > 0,
    ensures
        r == entries_for(mem, pct as int, usable as int, per_entry as int),
        r <= usable,
{
    match mem {
        Some(bytes) => {
            assert(bytes * pct <= 0xffff_ffff_ffff_ffff * 255) by (nonlinear_arith)
                requires
                    bytes <= 0xffff_ffff_ffff_ffff,
                    pct <= 255,
            ;
            let wide: u128 = (bytes as u128) * (pct as u128);
            let budget: u64 = if wide > u64::MAX as u128 {
                u64::MAX / 100
            } else {
                (wide as u64) / 100
            };
            let n: u64 = budget / per_entry;
            let floor: u64 = if usable < 4096 {
                usable as u64
            } else {
                4096
            };
            if n < floor {
                floor as usize
            } else if n > usable as u64 {
                usable as usize
            } else {
                n as usize
            }
        },
        None => if usable < 65_536 {
            usable as usize
        } else {
            65_536
        },
    }
}

/// The bytes in the first line, from line `i` on, that has a label and then a
/// number of kilobytes.
pub open spec fn available(ls: Seq<Seq<char>>, i: int) -> Option<int>
    decreases ls.len() - i,
{
    if i < 0 || i >= ls.len() {
        None
    } else {
        let here = match text::after(ls[i], "MemAvailable:"@) {
            Some(rest) => if text::words(rest).len() > 0 {
                text::number(text::words(rest)[0], 10, u64::MAX as int)
            } else {
                None
            },
            None => None,
        };
        match here {
            Some(kb) => Some(kb * 1024),
            None => available(ls, i + 1),
        }
    }
}

/// The memory that is available, in bytes.
pub fn mem_available_bytes(s: &str) -> (r: Option<u128>)
    ensures
        match r {
            Some(b) => available(text::lines(s@), 0) == Some(b as int),
            None => available(text::lines(s@), 0) is None,
        },
{
    let cs = text::chars_of(s);
    let ls = text::lines_of(&cs);
    let ghost all = text::lines(s@);
    let mut i: usize = 0;
    while i < ls.len()
        invariant
            i <= ls@.len(),
            all == text::texts(ls@),
            all == text::lines(s@),
            available(all, 0) == available(all, i as int),
        decreases ls@.len() - i,
    {
        assert(all[i as int] == ls@[i as int]@);
        if let Some(rest) = text::strip_prefix(ls[i], "MemAvailable:") {
            let w = text::words_of(rest);
            let ghost ws = text::words(rest@);
            assert(ws.len() == w@.len());
            if w.len() > 0 {
                assert(ws[0] == w@[0]@);
                if let Some(kb) = text::parse_number(w[0], 10, u64::MAX) {
                    return Some((kb as u128) * 1024);
                }
            }
        }
        i = i + 1;
    }
    None
}

/// More memory or a larger share of it never makes room for fewer names.
pub proof fn law_room_grows(a: u64, b: u64, p: int, q: int, usable: int, per_entry: int)
    requires
        a <= b,
        0 <= p <= q,
        usable >= 0,
        per_entry > 0,
    ensures
        entries_for(Some(a), p, usable, per_entry) <= entries_for(Some(b), q, usable, per_entry),
{
    let x = config::min_of(a * p, u64::MAX as int) / 100;
    let y = config::min_of(b * q, u64::MAX as int) / 100;
    assert(a * p <= b * q) by (nonlinear_arith)
        requires
            a <= b,
            0 <= p <= q,
    ;
    assert(x <= y);
    assert(x / per_entry <= y / per_entry) by (nonlinear_arith)
        requires
            x <= y,
            per_entry > 0,
    ;
}

/// What a running gateway goes by is what its configuration holds, each value in its own
/// place.
pub proof fn law_shared_values(c: config::ConfigView)
    ensures
        ({
            let s = shared_of(c);
            &&& s.route.block_bittorrent == c.route.block_bittorrent
            &&& s.route.block_quic == c.route.block_quic
            &&& s.route.block_unknown == c.route.block_unknown
            &&& s.route.log_sniffed == c.route.log_sniffed
            &&& s.listen_addr == c.inbound.listen
            &&& s.outbound_mode == c.outbound.mode
            &&& s.proxy_acl == c.acl
            &&& s.admin_acl == c.web.admin_cidr
            &&& s.web_password == c.web.password
            &&& s.openport_auth == c.inbound_proxy.auth
            &&& s.splice_copy == c.inbound.splice_copy
            &&& s.splice_threshold == c.inbound.splice_threshold
            &&& s.sniff_timeout_ms == c.inbound.sniff_timeout_ms
            &&& c.stats matches Some(x) ==> s.max_rec == x.max_rec && s.net_cleanday
                == x.net_cleanday
            &&& c.stats is None ==> s.max_rec == 5000 && s.net_cleanday == 0
        }),
{
}

/// The addresses of the machine alone.
pub proof fn law_own_addresses(a: int, b: int, c: int, d: int, six: u128)
    requires
        0 <= a <= 255,
        0 <= b <= 255,
        0 <= c <= 255,
        0 <= d <= 255,
    ensures
        is_loopback(IpAddr::V4((a * 0x100_0000 + b * 0x1_0000 + c * 0x100 + d) as u32)) <==> a
            == 127,
        is_loopback(IpAddr::V6(six)) <==> six == 1,
{
}

/// A connection adds to the totals what it carried and what was not counted of it before,
/// up to what went up and down to what came down, and the order of connections makes no
/// difference.
pub proof fn law_totals_of_live_connections(v: Seq<ConnSample>, s: ConnSample)
    ensures
        live_up(v.push(s), v.len() as int + 1) == live_up(v, v.len() as int) + if s.upload
            > s.drained_up {
            s.upload - s.drained_up
        } else {
            0
        },
        live_down(v.push(s), v.len() as int + 1) == live_down(v, v.len() as int) + if s.download
            > s.drained_down {
            s.download - s.drained_down
        } else {
            0
        },
        live_up(seq![], 0) == 0 && live_down(seq![], 0) == 0,
{
    lemma_live_prefix(v, s, v.len() as int);
}

/// What the first connections carried does not depend on those behind them.
proof fn lemma_live_prefix(v: Seq<ConnSample>, s: ConnSample, n: int)
    requires
        0 <= n <= v.len(),
    ensures
        live_up(v.push(s), n) == live_up(v, n),
        live_down(v.push(s), n) == live_down(v, n),
    decreases n,
{
    if n > 0 {
        lemma_live_prefix(v, s, n - 1);
        assert(v.push(s)[n - 1] == v[n - 1]);
    }
}

/// A connection is counted while it is open: once among all, once by what carries it, and
/// one of a client once by whether its address was made up.
pub proof fn law_each_connection_counts_once(
    v: Seq<ConnSample>,
    s: ConnSample,
    net: Option<crate::cidr::Ipv4Net>,
)
    ensures
        ({
            let n = v.len() as int;
            let w = v.push(s);
            let one = |b: bool|
                if b {
                    1int
                } else {
                    0int
                };
            let made_up = net is Some && s.dst is V4 && net->0.has(s.dst->V4_0);
            &&& count(w, open_conn(), n + 1) == count(v, open_conn(), n) + one(!s.closed)
            &&& count(w, open_over(Transport::Tcp), n + 1) == count(
                v,
                open_over(Transport::Tcp),
                n,
            ) + one(!s.closed && s.transport is Tcp)
            &&& count(w, open_over(Transport::Udp), n + 1) == count(
                v,
                open_over(Transport::Udp),
                n,
            ) + one(!s.closed && s.transport is Udp)
            &&& count(w, open_to(net, true), n + 1) == count(v, open_to(net, true), n) + one(
                !s.closed && s.kind is Client && made_up,
            )
            &&& count(w, open_to(net, false), n + 1) == count(v, open_to(net, false), n) + one(
                !s.closed && s.kind is Client && !made_up,
            )
        }),
{
    let n = v.len() as int;
    lemma_count_prefix(v, s, open_conn(), n);
    lemma_count_prefix(v, s, open_over(Transport::Tcp), n);
    lemma_count_prefix(v, s, open_over(Transport::Udp), n);
    lemma_count_prefix(v, s, open_to(net, true), n);
    lemma_count_prefix(v, s, open_to(net, false), n);
    assert(v.push(s)[n] == s);
}

/// How many of the first connections are of a kind does not depend on those behind them.
proof fn lemma_count_prefix(
    v: Seq<ConnSample>,
    s: ConnSample,
    f: spec_fn(ConnSample) -> bool,
    n: int,
)
    requires
        0 <= n <= v.len(),
    ensures
        count(v.push(s), f, n) == count(v, f, n),
    decreases n,
{
    if n > 0 {
        lemma_count_prefix(v, s, f, n - 1);
        assert(v.push(s)[n - 1] == v[n - 1]);
    }
}

/// The clients are those from whom an open connection of a client comes.
pub proof fn law_who_the_clients_are(v: Seq<ConnSample>, n: int, ip: IpAddr)
    requires
        0 <= n <= v.len(),
    ensures
        client_set(v, n).contains(ip) <==> exists|i: int|
            0 <= i < n && (#[trigger] v[i]).src == ip && !v[i].closed && v[i].kind is Client,
    decreases n,
{
    if n > 0 {
        law_who_the_clients_are(v, n - 1, ip);
    }
}

/// There is room for as many names as the share of the memory holds, but for at least a few
/// thousand and for no more than there are addresses. Where the memory is not known there is
/// room for a usual number.
pub proof fn law_room_for_names(mem: u64, pct: int, usable: int, per_entry: int)
    requires
        0 <= pct <= 100,
        usable >= 0,
        per_entry > 0,
    ensures
        ({
            let n = entries_for(Some(mem), pct, usable, per_entry);
            &&& n <= usable
            &&& usable >= 4096 ==> n >= 4096
            &&& usable < 4096 ==> n == usable
            &&& n > 4096 ==> n * per_entry * 100 <= mem * pct
        }),
        entries_for(None, pct, usable, per_entry) == if usable < 65536 {
            usable
        } else {
            65536
        },
{
    let x = config::min_of(mem * pct, u64::MAX as int);
    assert(0 <= mem * pct) by (nonlinear_arith)
        requires
            0 <= mem,
            0 <= pct,
    ;
    let y = x / 100;
    let z = y / per_entry;
    assert(z * per_entry <= y) by (nonlinear_arith)
        requires
            z == y / per_entry,
            per_entry > 0,
            y >= 0,
    ;
    let n = entries_for(Some(mem), pct, usable, per_entry);
    if n > 4096 {
        assert(n <= z);
        assert(n * per_entry <= z * per_entry) by (nonlinear_arith)
            requires
                n <= z,
                per_entry > 0,
        ;
    }
}

/// The memory that is free is what the first line on it says, in units of 1024 bytes.
pub proof fn law_free_memory(ls: Seq<Seq<char>>, k: int, kb: u64)
    requires
        0 <= k < ls.len(),
        forall|j: int| 0 <= j < k ==> !text::starts(#[trigger] ls[j], "MemAvailable:"@),
        ls[k] == "MemAvailable:"@ + text::decimal(kb as int),
    ensures
        available(ls, 0) == Some(kb * 1024),
{
    lemma_available_from(ls, 0, k);
    let d = text::decimal(kb as int);
    text::lemma_after("MemAvailable:"@, d);
    text::law_number_round_trip(kb as int, u64::MAX as int);
    let e = Seq::<char>::empty();
    text::lemma_first_word(d, e);
    assert(d + e =~= d);
}

/// Other lines are passed over.
proof fn lemma_available_from(ls: Seq<Seq<char>>, i: int, k: int)
    requires
        0 <= i <= k <= ls.len(),
        forall|j: int| i <= j < k ==> !text::starts(#[trigger] ls[j], "MemAvailable:"@),
    ensures
        available(ls, i) == available(ls, k),
    decreases k - i,
{
    if i < k {
        lemma_available_from(ls, i + 1, k);
    }
}

/// Subscriptions are in use where the mode is the one for them and the address names one
/// behind its mark. What the environment says comes before what the settings say.
pub proof fn law_subscriptions_in_use(
    mode: Option<Seq<char>>,
    url: Option<Seq<char>>,
    m: Map<Seq<char>, Seq<char>>,
    address: Seq<char>,
)
    ensures
        ppsub_runs(mode, url, m) ==> {
            &&& mode is Some || m.contains_key("mode"@)
            &&& url is Some || m.contains_key("suburl"@)
        },
        address.len() > 0 && !text::is_space(address[0]) && !text::is_space(address.last()) ==> {
            &&& is_ppsub(Some("ppsub@"@ + address))
            &&& !text::starts(address, "ppsub@"@) ==> !is_ppsub(Some(address))
            &&& ppsub_runs(Some("suburl"@), Some("ppsub@"@ + address), m)
            &&& !ppsub_runs(Some("yaml"@), Some("ppsub@"@ + address), m)
            &&& !text::starts(address, "ppsub@"@) ==> !ppsub_runs(
                Some("suburl"@),
                Some(address),
                m,
            )
            &&& env_or_setting(Some(address), m, "mode"@) == Some(address)
        },
        mode is None && m.contains_key("mode"@) && m["mode"@].len() > 0 ==> env_or_setting(
            mode,
            m,
            "mode"@,
        ) == Some(m["mode"@]),
        !is_ppsub(None),
{
    reveal_strlit("ppsub@");
    reveal_strlit("suburl");
    reveal_strlit("yaml");
    let e = Seq::<char>::empty();
    if address.len() > 0 && !text::is_space(address[0]) && !text::is_space(address.last()) {
        let t = "ppsub@"@ + address;
        assert(t[0] == 'p' && t.last() == address.last());
        text::law_trimming(e, t, e);
        text::law_trimming(e, address, e);
        text::lemma_after("ppsub@"@, address);
        text::law_trimming(e, "suburl"@, e);
        text::law_trimming(e, "yaml"@, e);
        text::lemma_trim_around(e, "suburl"@, e, text::only('"'));
        text::lemma_trim_around(e, "yaml"@, e, text::only('"'));
        assert(e + "suburl"@ + e =~= "suburl"@);
        assert(e + "yaml"@ + e =~= "yaml"@);
        assert("suburl"@.len() == 6 && "yaml"@.len() == 4);
    }
}

/// The name under which a mode is shown is one under which the settings know it.
pub proof fn law_modes_are_shown_by_name(m: OutboundMode)
    ensures
        config::mode_of(mode_text(m)) == m,
{
    reveal_strlit("free");
    reveal_strlit("socks5");
    reveal_strlit("ovpn");
    reveal_strlit("yaml");
    reveal_strlit("suburl");
    let e = Seq::<char>::empty();
    let t = mode_text(m);
    text::law_trimming(e, t, e);
    config::law_names_of_modes(t);
    assert(text::lowered("free"@) =~= "free"@);
    assert(text::lowered("ovpn"@) =~= "ovpn"@);
    assert(text::lowered("yaml"@) =~= "yaml"@);
    assert(text::lowered("socks5"@) =~= "socks5"@);
    assert(text::lowered("suburl"@) =~= "suburl"@);
    assert("free"@[0] == 'f' && "ovpn"@[0] == 'o' && "yaml"@[0] == 'y' && "socks5"@[0] == 's');
}

/// A list between commas is made of what stands between them without the blanks around it;
/// empty items are left out, and the others stay in their order.
pub proof fn law_items_of_a_list(items: Seq<Seq<char>>, item: Seq<char>)
    ensures
        list_run(items.push(item), items.len() as int + 1) == if text::trimmed(item).len() > 0 {
            list_run(items, items.len() as int).push(text::trimmed(item))
        } else {
            list_run(items, items.len() as int)
        },
        list_run(seq![], 0) == Seq::<Seq<char>>::empty(),
{
    lemma_list_prefix(items, item, items.len() as int);
}

/// The first items of a list do not depend on those behind them.
proof fn lemma_list_prefix(items: Seq<Seq<char>>, item: Seq<char>, n: int)
    requires
        0 <= n <= items.len(),
    ensures
        list_run(items.push(item), n) == list_run(items, n),
    decreases n,
{
    if n > 0 {
        lemma_list_prefix(items, item, n - 1);
        assert(items.push(item)[n - 1] == items[n - 1]);
    }
}

/// Figures are in demand for half a minute after somebody asked for them, and never before.
pub proof fn law_in_demand(last: int, now: int)
    requires
        0 <= last,
    ensures
        demanded(0, now) == false,
        last > 0 ==> (demanded(last, now) <==> now <= last + 30_000),
{
}

} // verus!
