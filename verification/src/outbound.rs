//! Which way connections go out.

use crate::addr::{IpAddr, SocketAddr};
use crate::config;
use crate::config::{Config, OutboundMode};
use crate::resolver;
use crate::resolver::Resolver;
use crate::text;
use vstd::prelude::*;

verus! {

/// How long a direct connection may take to come up, in seconds.
pub const DIRECT_CONNECT_TIMEOUT_SEC: u64 = 10;

/// Why a connection is refused while the tunnel is not ready.
pub const NOT_READY: &'static str = "ovpn tunnel (tun114) not ready";

/// Connections that go out directly.
pub struct DirectOutbound {
    pub resolver: Resolver,
    pub bind_device: Option<String>,
    pub so_mark: Option<u32>,
    pub tun_ready: bool,
}

/// Connections that go out through a proxy.
pub struct SocksOutbound {
    pub target: SocketAddr,
    pub auth: Option<(String, String)>,
    pub pool_min: usize,
    pub pool_max: usize,
    pub pool_idle_sec: u64,
}

/// Which way connections go out.
pub enum Outbound {
    Socks5(SocksOutbound),
    Direct(DirectOutbound),
}

/// Which way connections go out, as values.
pub enum OutboundPlan {
    /// The proxy, with a name and a password where it asks for them, and how many
    /// connections to it are kept and for how long.
    Socks5 {
        target: SocketAddr,
        auth: Option<(Seq<char>, Seq<char>)>,
        pool: (usize, usize, u64),
    },
    /// The name server, the device that connections are bound to, their mark, and
    /// whether the device is ready.
    Direct { server: SocketAddr, bind_device: Option<Seq<char>>, so_mark: Option<u32>, ready: bool },
}

impl View for Outbound {
    type V = OutboundPlan;

    open spec fn view(&self) -> OutboundPlan {
        match *self {
            Outbound::Socks5(p) => OutboundPlan::Socks5 {
                target: p.target,
                auth: config::opt_pair(p.auth),
                pool: (p.pool_min, p.pool_max, p.pool_idle_sec),
            },
            Outbound::Direct(d) => OutboundPlan::Direct {
                server: d.resolver.asks(),
                bind_device: text::opt_string(d.bind_device),
                so_mark: d.so_mark,
                ready: d.tun_ready,
            },
        }
    }
}

/// Which way a configuration asks for. The modes with clash go to its own proxy,
/// without a password.
pub open spec fn planned(
    cfg: config::ConfigView,
    conf: Option<Seq<char>>,
    device_up: bool,
) -> OutboundPlan {
    let pool = (cfg.socks5.pool_min, cfg.socks5.pool_max, cfg.socks5.pool_idle_sec);
    match cfg.outbound.mode {
        OutboundMode::Yaml | OutboundMode::Suburl => OutboundPlan::Socks5 {
            target: cfg.socks5.server,
            auth: None,
            pool,
        },
        OutboundMode::Socks5 => OutboundPlan::Socks5 {
            target: match cfg.outbound.upstream {
                Some(u) => u,
                None => cfg.socks5.server,
            },
            auth: cfg.outbound.auth,
            pool,
        },
        OutboundMode::Free | OutboundMode::Ovpn => OutboundPlan::Direct {
            server: resolver::chosen_server(cfg.outbound.resolver, conf),
            bind_device: cfg.outbound.bind_device,
            so_mark: None,
            ready: cfg.outbound.bind_device is None || device_up,
        },
    }
}

/// What is done to connect.
#[derive(Debug, Clone, Copy, PartialEq, Eq, Structural)]
pub enum Connect {
    /// The proxy is asked for the connection.
    Proxy(SocketAddr),
    /// The connection is refused: the tunnel is not ready.
    NotReady,
    /// The name is resolved first; the port is this one.
    Resolve(u16),
    /// The address is connected to.
    Dial(SocketAddr),
}

/// Where packets without a connection go.
pub enum UdpUpstream {
    Socks5 { target: SocketAddr, auth: Option<(String, String)> },
    Direct { server: SocketAddr, bind_device: Option<String>, so_mark: Option<u32> },
}

/// A copy of a name and a password.
fn copy_auth(a: &Option<(String, String)>) -> (r: Option<(String, String)>)
    ensures
        config::opt_pair(r) == config::opt_pair(*a),
{
    match a {
        Some(p) => Some((p.0.clone(), p.1.clone())),
        None => None,
    }
}

/// A copy of a text that may be missing.
fn copy_text(a: &Option<String>) -> (r: Option<String>)
    ensures
        text::opt_string(r) == text::opt_string(*a),
{
    match a {
        Some(s) => Some(s.clone()),
        None => None,
    }
}

/// Whether connections can go out.
pub open spec fn open_way(p: OutboundPlan) -> bool {
    match p {
        OutboundPlan::Direct { bind_device: Some(_), ready, .. } => ready,
        _ => true,
    }
}

/// What is done to connect.
pub open spec fn first_step(p: OutboundPlan, dest: SocketAddr, named: bool) -> Connect {
    match p {
        OutboundPlan::Socks5 { target, .. } => Connect::Proxy(target),
        OutboundPlan::Direct { .. } => if !open_way(p) {
            Connect::NotReady
        } else if named {
            Connect::Resolve(dest.port)
        } else {
            Connect::Dial(dest)
        },
    }
}

/// What a direct way knows of names is the same in two states: the answers that are kept,
/// the names that are asked for, and the next question.
pub open spec fn same_names(a: Outbound, b: Outbound) -> bool {
    match (a, b) {
        (Outbound::Direct(x), Outbound::Direct(y)) => {
            &&& x.resolver.answers() == y.resolver.answers()
            &&& x.resolver.asked() == y.resolver.asked()
            &&& x.resolver.question() == y.resolver.question()
        },
        (Outbound::Socks5(_), Outbound::Socks5(_)) => true,
        _ => false,
    }
}

/// The way with the sizes of the pool that a configuration asks for.
pub open spec fn resized(p: OutboundPlan, cfg: config::ConfigView) -> OutboundPlan {
    match p {
        OutboundPlan::Socks5 { target, auth, .. } => OutboundPlan::Socks5 {
            target,
            auth,
            pool: (cfg.socks5.pool_min, cfg.socks5.pool_max, cfg.socks5.pool_idle_sec),
        },
        other => other,
    }
}

/// The way after a reload: only the name server of a direct way changes.
pub open spec fn reloaded(
    p: OutboundPlan,
    cfg: config::ConfigView,
    conf: Option<Seq<char>>,
) -> OutboundPlan {
    match p {
        OutboundPlan::Direct { bind_device, so_mark, ready, .. } => OutboundPlan::Direct {
            server: resolver::chosen_server(cfg.outbound.resolver, conf),
            bind_device,
            so_mark,
            ready,
        },
        other => other,
    }
}

impl Outbound {
    /// Which way a configuration asks for: `conf` is the text of the system's
    /// settings for names, and `device_up` tells whether the device is there.
    pub fn build(cfg: &Config, conf: Option<&str>, device_up: bool) -> (r: Outbound)
        ensures
            r@ == planned(cfg@, text::opt_str(conf), device_up),
            r matches Outbound::Direct(d) ==> d.resolver.answers() == resolver::no_answers()
                && d.resolver.asked() == resolver::nothing_asked() && d.resolver.question() == 1,
    {
        match cfg.outbound.mode {
            OutboundMode::Yaml | OutboundMode::Suburl => Outbound::Socks5(
                SocksOutbound {
                    target: cfg.socks5.server,
                    auth: None,
                    pool_min: cfg.socks5.pool_min,
                    pool_max: cfg.socks5.pool_max,
                    pool_idle_sec: cfg.socks5.pool_idle_sec,
                },
            ),
            OutboundMode::Socks5 => Outbound::Socks5(
                SocksOutbound {
                    target: match cfg.outbound.upstream {
                        Some(u) => u,
                        None => cfg.socks5.server,
                    },
                    auth: copy_auth(&cfg.outbound.auth),
                    pool_min: cfg.socks5.pool_min,
                    pool_max: cfg.socks5.pool_max,
                    pool_idle_sec: cfg.socks5.pool_idle_sec,
                },
            ),
            OutboundMode::Free | OutboundMode::Ovpn => Outbound::Direct(
                DirectOutbound {
                    resolver: Resolver::from_cfg(cfg.outbound.resolver.server, conf),
                    bind_device: copy_text(&cfg.outbound.bind_device),
                    so_mark: None,
                    tun_ready: cfg.outbound.bind_device.is_none() || device_up,
                },
            ),
        }
    }

    /// Takes a new configuration in: only the name server of a direct way changes.
    pub fn reload(&mut self, cfg: &Config, conf: Option<&str>)
        ensures
            final(self)@ == reloaded(old(self)@, cfg@, text::opt_str(conf)),
            same_names(*old(self), *final(self)),
    {
        match self {
            Outbound::Direct(d) => d.resolver.set_from_cfg(cfg.outbound.resolver.server, conf),
            Outbound::Socks5(_) => {},
        }
    }

    /// Takes the sizes of the pool in that a configuration asks for, where there is one.
    pub fn resize_pool(&mut self, cfg: &Config)
        ensures
            final(self)@ == resized(old(self)@, cfg@),
            same_names(*old(self), *final(self)),
    {
        match self {
            Outbound::Socks5(p) => {
                p.pool_min = cfg.socks5.pool_min;
                p.pool_max = cfg.socks5.pool_max;
                p.pool_idle_sec = cfg.socks5.pool_idle_sec;
            },
            Outbound::Direct(_) => {},
        }
    }

    /// Whether connections go out directly.
    pub fn is_direct(&self) -> (r: bool)
        ensures
            r == (self@ is Direct),
    {
        match self {
            Outbound::Direct(_) => true,
            Outbound::Socks5(_) => false,
        }
    }

    /// Whether the tunnel is ready, where there is one that has to be.
    pub fn tun_ready(&self) -> (r: Option<bool>)
        ensures
            r == match self@ {
                OutboundPlan::Direct { bind_device: Some(_), ready, .. } => Some(ready),
                _ => None,
            },
    {
        match self {
            Outbound::Direct(d) => if d.bind_device.is_some() {
                Some(d.tun_ready)
            } else {
                None
            },
            Outbound::Socks5(_) => None,
        }
    }

    /// Whether connections can go out: only a tunnel that is not ready stops them.
    pub fn tun_ready_ok(&self) -> (r: bool)
        ensures
            r == open_way(self@),
    {
        match self.tun_ready() {
            Some(ready) => ready,
            None => true,
        }
    }

    /// Takes in whether the tunnel is ready.
    pub fn set_ready(&mut self, now: bool)
        ensures
            final(self)@ == match old(self)@ {
                OutboundPlan::Direct { server, bind_device, so_mark, ready: _ } => OutboundPlan::Direct {
                    server,
                    bind_device,
                    so_mark,
                    ready: now,
                },
                other => other,
            },
            same_names(*old(self), *final(self)),
    {
        match self {
            Outbound::Direct(d) => {
                d.tun_ready = now;
            },
            Outbound::Socks5(_) => {},
        }
    }

    /// The proxy, where connections go out through one.
    pub fn socks5_pool(&self) -> (r: Option<&SocksOutbound>)
        ensures
            match r {
                Some(p) => *self == Outbound::Socks5(*p),
                None => self@ is Direct,
            },
    {
        match self {
            Outbound::Socks5(p) => Some(p),
            Outbound::Direct(_) => None,
        }
    }

    /// Where packets without a connection go.
    pub fn udp_upstream(&self) -> (r: UdpUpstream)
        ensures
            match (r, self@) {
                (
                    UdpUpstream::Socks5 { target, auth },
                    OutboundPlan::Socks5 { target: t, auth: a, .. },
                ) => target == t && config::opt_pair(auth) == a,
                (
                    UdpUpstream::Direct { server, bind_device, so_mark },
                    OutboundPlan::Direct { server: s, bind_device: d, so_mark: m, .. },
                ) => server == s && text::opt_string(bind_device) == d && so_mark == m,
                _ => false,
            },
    {
        match self {
            Outbound::Socks5(p) => UdpUpstream::Socks5 {
                target: p.target,
                auth: copy_auth(&p.auth),
            },
            Outbound::Direct(d) => UdpUpstream::Direct {
                server: d.resolver.server(),
                bind_device: copy_text(&d.bind_device),
                so_mark: d.so_mark,
            },
        }
    }

    /// What is done to connect. The tunnel is looked at before any name is resolved.
    pub fn connect_tcp(&self, dest: SocketAddr, domain: Option<&str>) -> (r: Connect)
        ensures
            r == first_step(self@, dest, domain is Some),
    {
        match self {
            Outbound::Socks5(p) => Connect::Proxy(p.target),
            Outbound::Direct(_) => if !self.tun_ready_ok() {
                Connect::NotReady
            } else if domain.is_some() {
                Connect::Resolve(dest.port)
            } else {
                Connect::Dial(dest)
            },
        }
    }
}

/// The address that is connected to once its name was resolved.
pub fn resolved_addr(ip: u32, port: u16) -> (r: SocketAddr)
    ensures
        r == (SocketAddr { ip: IpAddr::V4(ip), port, scope: 0 }),
{
    SocketAddr::new(IpAddr::V4(ip), port)
}

/// A tunnel that is not ready lets nothing out and asks for no name.
pub proof fn law_closed_gate(p: OutboundPlan, dest: SocketAddr, named: bool)
    requires
        !open_way(p),
    ensures
        first_step(p, dest, named) == Connect::NotReady,
{
}

/// A reload never changes which way connections go out, whatever becomes of the pool, and
/// lets no closed tunnel be passed.
pub proof fn law_reload_keeps_the_way(
    p: OutboundPlan,
    cfg: config::ConfigView,
    conf: Option<Seq<char>>,
    dest: SocketAddr,
    named: bool,
)
    ensures
        first_step(reloaded(p, cfg, conf), dest, named) == first_step(p, dest, named),
        open_way(reloaded(p, cfg, conf)) == open_way(p),
        first_step(resized(p, cfg), dest, named) == first_step(p, dest, named),
{
}

/// The modes that clash runs send every connection to its proxy, without a name or a
/// password, whatever its destination and whatever the devices and name servers are like.
/// The way is direct for the two modes that need no proxy, and for no other.
pub proof fn law_clash_takes_every_connection(
    cfg: config::ConfigView,
    conf: Option<Seq<char>>,
    device_up: bool,
    dest: SocketAddr,
    named: bool,
)
    ensures
        cfg.outbound.mode is Yaml || cfg.outbound.mode is Suburl ==> {
            let p = planned(cfg, conf, device_up);
            &&& p matches OutboundPlan::Socks5 { target, auth, .. } && target == cfg.socks5.server
                && auth is None
            &&& first_step(p, dest, named) == Connect::Proxy(cfg.socks5.server)
        },
        planned(cfg, conf, device_up) is Direct <==> cfg.outbound.mode is Free
            || cfg.outbound.mode is Ovpn,
        first_step(planned(cfg, conf, device_up), dest, named) is Proxy
            <==> !(cfg.outbound.mode is Free || cfg.outbound.mode is Ovpn),
{
}

/// A proxy of one's own is the one that the settings name, with the name and the password
/// that they hold, and without an address it is the one that clash has. Changing the
/// destination, the devices or the name servers changes nothing about it.
pub proof fn law_own_proxy_is_the_named_one(
    cfg: config::ConfigView,
    conf: Option<Seq<char>>,
    device_up: bool,
    dest: SocketAddr,
    named: bool,
)
    requires
        cfg.outbound.mode is Socks5,
    ensures
        cfg.outbound.upstream matches Some(u) ==> first_step(
            planned(cfg, conf, device_up),
            dest,
            named,
        ) == Connect::Proxy(u),
        cfg.outbound.upstream is None ==> first_step(planned(cfg, conf, device_up), dest, named)
            == Connect::Proxy(cfg.socks5.server),
        planned(cfg, conf, device_up) matches OutboundPlan::Socks5 { auth, .. } && auth
            == cfg.outbound.auth,
        forall|c: Option<Seq<char>>, up: bool|
            #[trigger] planned(cfg, c, up) == planned(cfg, conf, device_up),
{
}

/// A direct way goes to the destination itself. A destination that is known by a name is
/// looked up first, on its own port, and one that is not is dialled as it is. With a device
/// of its own the way is open only while that is there, and without one always.
pub proof fn law_direct_goes_to_the_destination(
    cfg: config::ConfigView,
    conf: Option<Seq<char>>,
    device_up: bool,
    dest: SocketAddr,
)
    requires
        cfg.outbound.mode is Free || cfg.outbound.mode is Ovpn,
    ensures
        ({
            let p = planned(cfg, conf, device_up);
            let shut = cfg.outbound.bind_device is Some && !device_up;
            &&& first_step(p, dest, false) == if shut {
                Connect::NotReady
            } else {
                Connect::Dial(dest)
            }
            &&& first_step(p, dest, true) == if shut {
                Connect::NotReady
            } else {
                Connect::Resolve(dest.port)
            }
            &&& p matches OutboundPlan::Direct { server, bind_device, so_mark, .. } && bind_device
                == cfg.outbound.bind_device && so_mark is None && server
                == resolver::chosen_server(cfg.outbound.resolver, conf)
        }),
{
}

/// A reload does what building anew would do to the name server of a direct way, and
/// changing the sizes of the pool does what building anew would do to those of a proxy;
/// each leaves the other kind of way as it was.
pub proof fn law_changes_are_taken_in(
    old_cfg: config::ConfigView,
    cfg: config::ConfigView,
    conf: Option<Seq<char>>,
    now: Option<Seq<char>>,
    up: bool,
)
    requires
        cfg.outbound.mode == old_cfg.outbound.mode,
    ensures
        ({
            let was = planned(old_cfg, conf, up);
            &&& cfg.outbound.bind_device == old_cfg.outbound.bind_device && was is Direct
                ==> reloaded(was, cfg, now) == planned(cfg, now, up)
            &&& was is Socks5 ==> reloaded(was, cfg, now) == was
            &&& was is Direct ==> resized(was, cfg) == was
            &&& was is Socks5 && cfg.socks5.server == old_cfg.socks5.server
                && cfg.outbound.upstream == old_cfg.outbound.upstream && cfg.outbound.auth
                == old_cfg.outbound.auth ==> resized(was, cfg) == planned(cfg, now, up)
        }),
{
}

/// Where the names that are known stay the same, so do the answers, the questions and their
/// count, and the way out is of the same kind.
pub proof fn law_known_names_stay(a: Outbound, b: Outbound)
    requires
        same_names(a, b),
    ensures
        a is Direct <==> b is Direct,
        a is Direct ==> {
            let x = a->Direct_0.resolver;
            let y = b->Direct_0.resolver;
            &&& x.answers() == y.answers()
            &&& x.asked() == y.asked()
            &&& x.question() == y.question()
        },
        same_names(b, a),
{
}

} // verus!
