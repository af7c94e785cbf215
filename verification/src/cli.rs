//! The command line, and what the program starts.

use crate::addr;
use crate::addr::{IpAddr, SocketAddr};
use crate::config;
use crate::config::{Config, ConfigErr, OutboundMode};
use crate::inbound_proxy::InboundProxyParams;
use crate::pplog;
use crate::pplog::ReportPlan;
use crate::production;
use crate::text;
use vstd::prelude::*;

verus! {

/// How the program is called.
pub const USAGE: &'static str = "sniffbox — TPROXY sniff + SOCKS5 forwarder\nusage: sniffbox [-c <ini>] [--listen <ip:port>] [--log-level <lvl>]\n       sniffbox -h | -V\nwithout -c: production mode (fixed defaults + /tmp/ppgw.ini + auto-tuned)";

/// How many files the program wants to have open.
pub const NOFILE_TARGET: u64 = 1_048_576;

/// When the list of nodes is looked at again after the start, in seconds.
pub const WARM_MARKS_SEC: [u64; 4] = [10, 30, 60, 90];

/// How long a look at the list of nodes serves, in seconds.
pub const WARM_GAP_SEC: u64 = 5;

/// The time between two looks at the connections of clash, in milliseconds.
pub const CLASH_POLL_MS: u64 = 900;

/// Where the configuration comes from.
#[derive(Debug)]
pub enum ConfigSource {
    /// A file.
    File(String),
    /// The settings of a gateway in production.
    Production,
}

/// Where the configuration comes from, as values.
pub enum SourceView {
    File(Seq<char>),
    Production,
}

impl View for ConfigSource {
    type V = SourceView;

    open spec fn view(&self) -> SourceView {
        match *self {
            ConfigSource::File(p) => SourceView::File(p@),
            ConfigSource::Production => SourceView::Production,
        }
    }
}

/// What a source gives, from the text of its file or why that could not be read.
pub open spec fn loaded(
    s: SourceView,
    content: Result<Seq<char>, Seq<char>>,
    cpus: usize,
    ipv6: bool,
    env_password: Option<Seq<char>>,
    own: Option<IpAddr>,
) -> Result<config::ConfigView, config::ErrView> {
    match s {
        SourceView::File(_) => match content {
            Ok(t) => config::config_of(t, cpus),
            Err(e) => Err(config::ErrView::Io(e)),
        },
        SourceView::Production => Ok(
            production::production_view(
                match content {
                    Ok(t) => production::ppgw_of(t),
                    Err(_) => Map::empty(),
                },
                cpus,
                ipv6,
                env_password,
                own,
            ),
        ),
    }
}

/// What a text or the reason why there is none holds.
pub open spec fn content_view(c: Result<&str, &str>) -> Result<Seq<char>, Seq<char>> {
    match c {
        Ok(t) => Ok(t@),
        Err(e) => Err(e@),
    }
}

impl ConfigSource {
    /// The file that the source is in.
    pub fn path(&self) -> (r: &str)
        ensures
            r@ == match self@ {
                SourceView::File(p) => p,
                SourceView::Production => production::PPGW_INI@,
            },
    {
        match self {
            ConfigSource::File(p) => p.as_str(),
            ConfigSource::Production => production::PPGW_INI,
        }
    }

    /// Reads the configuration, from the text of the file or why that could not be
    /// read; `own` is the address of the gateway, where that is known. Settings of production that cannot be read say nothing.
    pub fn load(
        &self,
        content: Result<&str, &str>,
        cpus: usize,
        ipv6: bool,
        env_password: Option<&str>,
        own: Option<IpAddr>,
    ) -> (r: Result<Config, ConfigErr>)
        requires
            cpus * 512 <= usize::MAX,
        ensures
            config::view_res(r) == loaded(
                self@,
                content_view(content),
                cpus,
                ipv6,
                text::opt_str(env_password),
                own,
            ),
    {
        match self {
            ConfigSource::File(_) => match content {
                Ok(t) => Config::from_text(t, cpus),
                Err(e) => Err(ConfigErr::Io(e.to_owned())),
            },
            ConfigSource::Production => {
                let settings = match content {
                    Ok(t) => Some(t),
                    Err(_) => None,
                };
                Ok(production::build_production(settings, cpus, ipv6, env_password, own))
            },
        }
    }

    /// The source, as the log names it.
    pub fn describe(&self) -> (r: String)
        ensures
            r@ == match self@ {
                SourceView::File(p) => p,
                SourceView::Production => "<production: fixed + "@ + production::PPGW_INI@ + ">"@,
            },
    {
        match self {
            ConfigSource::File(p) => p.clone(),
            ConfigSource::Production => {
                let mut out = String::new();
                out.append("<production: fixed + ");
                out.append(production::PPGW_INI);
                out.append(">");
                assert(out@ =~= "<production: fixed + "@ + production::PPGW_INI@ + ">"@);
                out
            },
        }
    }

    /// From where to where the running configuration is copied, where it is.
    pub fn write_running_snapshot(&self) -> (r: Option<(&'static str, &'static str)>)
        ensures
            match r {
                Some((from, to)) => self@ is Production && from@ == production::PPGW_INI@ && to@
                    == production::RUNNING_SNAPSHOT@,
                None => self@ is File,
            },
    {
        match self {
            ConfigSource::File(_) => None,
            ConfigSource::Production => Some((production::PPGW_INI, production::RUNNING_SNAPSHOT)),
        }
    }
}

/// What the command line sets in place of the configuration.
#[derive(Debug)]
pub struct Overrides {
    pub listen: Option<SocketAddr>,
    pub log_level: Option<String>,
}

/// A configuration with what the command line sets.
pub open spec fn overridden(
    c: config::ConfigView,
    listen: Option<SocketAddr>,
    level: Option<Seq<char>>,
) -> config::ConfigView {
    config::ConfigView {
        inbound: config::InboundCfg {
            listen: match listen {
                Some(l) => l,
                None => c.inbound.listen,
            },
            ..c.inbound
        },
        log: config::LogView {
            level: match level {
                Some(l) => l,
                None => c.log.level,
            },
            ..c.log
        },
        ..c
    }
}

impl Overrides {
    /// Sets in a configuration what the command line sets.
    pub fn apply(&self, cfg: &mut Config)
        ensures
            final(cfg)@ == overridden(old(cfg)@, self.listen, text::opt_string(self.log_level)),
    {
        match self.listen {
            Some(l) => {
                cfg.inbound.listen = l;
            },
            None => {},
        }
        match &self.log_level {
            Some(l) => {
                cfg.log.level = l.clone();
            },
            None => {},
        }
    }
}

/// What a run of the program was asked for.
#[derive(Debug)]
pub struct RunArgs {
    pub source: ConfigSource,
    pub overrides: Overrides,
}

/// What the command line asks for.
#[derive(Debug)]
pub enum ParsedArgs {
    /// To run.
    Run(RunArgs),
    /// To print something and to end.
    PrintAndExit(String),
}

/// What the command line asks for, as values.
pub enum ArgsView {
    Run { path: Option<Seq<char>>, listen: Option<SocketAddr>, log_level: Option<Seq<char>> },
    Print(Seq<char>),
}

impl View for ParsedArgs {
    type V = ArgsView;

    open spec fn view(&self) -> ArgsView {
        match *self {
            ParsedArgs::Run(r) => ArgsView::Run {
                path: match r.source {
                    ConfigSource::File(p) => Some(p@),
                    ConfigSource::Production => None,
                },
                listen: r.overrides.listen,
                log_level: text::opt_string(r.overrides.log_level),
            },
            ParsedArgs::PrintAndExit(m) => ArgsView::Print(m@),
        }
    }
}

/// What the words of the command line ask for from a place on, with what was set
/// before. The last of several settings counts; the first word that asks for a text
/// or cannot be taken decides.
pub open spec fn asked(
    args: Seq<Seq<char>>,
    i: int,
    path: Option<Seq<char>>,
    listen: Option<SocketAddr>,
    log_level: Option<Seq<char>>,
    version: Seq<char>,
) -> Result<ArgsView, Seq<char>>
    decreases args.len() - i,
{
    if i < 0 || i >= args.len() {
        Ok(ArgsView::Run { path, listen, log_level })
    } else if args[i] == "-c"@ || args[i] == "--config"@ {
        if i + 1 < args.len() {
            asked(args, i + 2, Some(args[i + 1]), listen, log_level, version)
        } else {
            Err("missing value for -c"@)
        }
    } else if args[i] == "--listen"@ {
        if i + 1 < args.len() {
            match addr::socket(args[i + 1]) {
                Some(a) => asked(args, i + 2, path, Some(a), log_level, version),
                None => Err("--listen: invalid socket addr: invalid socket address syntax"@),
            }
        } else {
            Err("missing value for --listen"@)
        }
    } else if args[i] == "--log-level"@ {
        if i + 1 < args.len() {
            asked(args, i + 2, path, listen, Some(args[i + 1]), version)
        } else {
            Err("missing value for --log-level"@)
        }
    } else if args[i] == "-h"@ || args[i] == "--help"@ {
        Ok(ArgsView::Print(USAGE@))
    } else if args[i] == "-V"@ || args[i] == "--version"@ {
        Ok(ArgsView::Print("sniffbox "@ + version))
    } else {
        Err("unknown arg: "@ + args[i])
    }
}

/// A result with the values in it.
pub open spec fn args_view(r: Result<ParsedArgs, String>) -> Result<ArgsView, Seq<char>> {
    match r {
        Ok(p) => Ok(p@),
        Err(e) => Err(e@),
    }
}

/// A copy of a text that may be missing.
fn copy_text(a: &Option<String>) -> (r: Option<String>)
    ensures
        text::opt_string(r) == text::opt_string(*a),
{
    match a {
        Some(s) => Some(s.clone()),
        None => None,
    }
}

/// What the command line asks for. Its first word is the name of the program.
pub fn parse_args(args: &[String], version: &str) -> (r: Result<ParsedArgs, String>)
    ensures
        args_view(r) == asked(text::strings(args@), 1, None, None, None, version@),
{
    let ghost all = text::strings(args@);
    let mut path: Option<String> = None;
    let mut listen: Option<SocketAddr> = None;
    let mut log_level: Option<String> = None;
    let mut i: usize = 1;
    while i < args.len()
        invariant
            1 <= i,
            all == text::strings(args@),
            asked(all, 1, None, None, None, version@) == asked(
                all,
                i as int,
                text::opt_string(path),
                listen,
                text::opt_string(log_level),
                version@,
            ),
        decreases args@.len() - i,
    {
        assert(all[i as int] == args@[i as int]@);
        let a = args[i].as_str();
        if text::same_str(a, "-c") || text::same_str(a, "--config") {
            if i + 1 >= args.len() {
                return Err("missing value for -c".to_owned());
            }
            assert(all[i + 1] == args@[i + 1]@);
            path = Some(args[i + 1].clone());
        } else if text::same_str(a, "--listen") {
            if i + 1 >= args.len() {
                return Err("missing value for --listen".to_owned());
            }
            assert(all[i + 1] == args@[i + 1]@);
            match SocketAddr::parse(args[i + 1].as_str()) {
                Some(s) => {
                    listen = Some(s);
                },
                None => return Err(
                    "--listen: invalid socket addr: invalid socket address syntax".to_owned(),
                ),
            }
        } else if text::same_str(a, "--log-level") {
            if i + 1 >= args.len() {
                return Err("missing value for --log-level".to_owned());
            }
            assert(all[i + 1] == args@[i + 1]@);
            log_level = Some(args[i + 1].clone());
        } else if text::same_str(a, "-h") || text::same_str(a, "--help") {
            return Ok(ParsedArgs::PrintAndExit(USAGE.to_owned()));
        } else if text::same_str(a, "-V") || text::same_str(a, "--version") {
            let mut out = "sniffbox ".to_owned();
            out.append(version);
            return Ok(ParsedArgs::PrintAndExit(out));
        } else {
            let mut out = "unknown arg: ".to_owned();
            out.append(a);
            return Err(out);
        }
        i = i + 2;
    }
    let source = match path {
        Some(p) => ConfigSource::File(p),
        None => ConfigSource::Production,
    };
    Ok(ParsedArgs::Run(RunArgs { source, overrides: Overrides { listen, log_level } }))
}

// ---------------------------------------------------------------------------
// Limits of the system
// ---------------------------------------------------------------------------

/// How many open files are asked for first: as many as the program wants, or as the
/// limit allows where that is more.
pub fn nofile_want(hard: u64) -> (r: u64)
    ensures
        r == if hard > NOFILE_TARGET {
            hard
        } else {
            NOFILE_TARGET
        },
{
    if hard > NOFILE_TARGET {
        hard
    } else {
        NOFILE_TARGET
    }
}

/// How many are asked for where that was refused: as many as the limit allows, where
/// they are more than now.
pub fn nofile_fallback(soft: u64, hard: u64) -> (r: Option<u64>)
    ensures
        r == if soft < hard {
            Some(hard)
        } else {
            None
        },
{
    if soft < hard {
        Some(hard)
    } else {
        None
    }
}

/// A setting of the kernel, the least value that it should have, and what it is for.
pub type Raise = (&'static str, i64, &'static str);

/// The settings of the kernel that are raised.
pub const RAISE: [Raise; 6] = [
    ("net.core.rmem_max", 16_777_216, "max recv socket buf"),
    ("net.core.wmem_max", 16_777_216, "max send socket buf"),
    ("net.core.somaxconn", 8192, "listen accept queue cap"),
    ("net.core.netdev_max_backlog", 32768, "per-CPU ingress queue (high PPS)"),
    ("net.ipv4.tcp_max_syn_backlog", 16384, "SYN half-open queue"),
    ("fs.file-max", 1_048_576, "system-wide max open fds"),
];

/// A name whose parts are parted by another sign.
pub open spec fn slashed(key: Seq<char>) -> Seq<char> {
    Seq::new(
        key.len(),
        |i: int|
            if key[i] == '.' {
                '/'
            } else {
                key[i]
            },
    )
}

/// The file of a setting of the kernel.
pub fn sysctl_path(key: &str) -> (r: String)
    ensures
        r@ == "/proc/sys/"@ + slashed(key@),
{
    let cs = text::chars_of(key);
    let mut out = "/proc/sys/".to_owned();
    let ghost start = out@;
    let mut i: usize = 0;
    assert(out@ =~= start + slashed(key@).take(0));
    while i < cs.len()
        invariant
            i <= cs@.len(),
            cs@ == key@,
            out@ == start + slashed(key@).take(i as int),
        decreases cs@.len() - i,
    {
        out.push(
            if cs[i] == '.' {
                '/'
            } else {
                cs[i]
            },
        );
        assert(out@ =~= start + slashed(key@).take(i + 1));
        i = i + 1;
    }
    assert(slashed(key@).take(i as int) =~= slashed(key@));
    out
}

/// The value that is written to a setting of the kernel, where it is: none where its
/// value reaches the target. One that cannot be read does not.
pub open spec fn raised(current: Option<Seq<char>>, target: i64) -> Option<Seq<char>> {
    let now = match current {
        Some(s) => text::signed_number(text::trimmed(s)),
        None => None,
    };
    if now matches Some(n) && n >= target {
        None
    } else {
        Some(text::signed_decimal(target as int))
    }
}

/// The value that is written to a setting of the kernel, where it is.
pub fn raise_sysctl(current: Option<&str>, target: i64) -> (r: Option<String>)
    ensures
        text::opt_string(r) == raised(text::opt_str(current), target),
{
    let now: Option<i64> = match current {
        Some(s) => {
            let cs = text::chars_of(s);
            text::parse_i64(text::trim(cs.as_slice()))
        },
        None => None,
    };
    match now {
        Some(n) => if n >= target {
            return None;
        },
        None => {},
    }
    let mut out = String::new();
    text::push_signed(&mut out, target);
    assert(out@ =~= text::signed_decimal(target as int));
    Some(out)
}

/// Whether packets are to wait in fair queues: not where they do in some form.
pub fn wants_fq(qdisc: &str) -> (r: bool)
    ensures
        r == !text::starts(text::trimmed(qdisc@), "fq"@),
{
    let cs = text::chars_of(qdisc);
    !text::starts_with(text::trim(cs.as_slice()), "fq")
}

/// What is done about how the kernel avoids congestion.
#[derive(Debug, Clone, Copy, PartialEq, Eq, Structural)]
pub enum Congestion {
    /// The kernel has no better way.
    Unavailable,
    /// The better way is set.
    SetBbr,
    /// The way was chosen by somebody and stays.
    Keep,
}

/// What is done about how the kernel avoids congestion, from the ways that it has
/// and the one in use.
pub open spec fn congestion_of(avail: Seq<char>, current: Seq<char>) -> Congestion {
    if !text::words(avail).contains("bbr"@) {
        Congestion::Unavailable
    } else if text::trimmed(current) == "cubic"@ || text::trimmed(current) == "reno"@ {
        Congestion::SetBbr
    } else {
        Congestion::Keep
    }
}

/// What is done about how the kernel avoids congestion.
pub fn enable_bbr(avail: &str, current: &str) -> (r: Congestion)
    ensures
        r == congestion_of(avail@, current@),
{
    let cs = text::chars_of(avail);
    let w = text::words_of(cs.as_slice());
    let ghost all = text::words(avail@);
    let mut found = false;
    let mut i: usize = 0;
    while i < w.len()
        invariant
            i <= w@.len(),
            all == text::texts(w@),
            found == exists|j: int| 0 <= j < i && #[trigger] all[j] == "bbr"@,
        decreases w@.len() - i,
    {
        assert(all[i as int] == w@[i as int]@);
        if text::same(w[i], "bbr") {
            found = true;
        }
        i = i + 1;
    }
    assert(found == all.contains("bbr"@));
    if !found {
        return Congestion::Unavailable;
    }
    let now = text::chars_of(current);
    let t = text::trim(now.as_slice());
    if text::same(t, "cubic") || text::same(t, "reno") {
        Congestion::SetBbr
    } else {
        Congestion::Keep
    }
}

// ---------------------------------------------------------------------------
// What the program starts
// ---------------------------------------------------------------------------

/// What the program starts.
#[derive(Debug, Clone, Copy)]
pub struct RunPlan {
    /// What becomes of reports.
    pub report: ReportPlan,
    /// Whether the process of the virtual private network is kept up.
    pub ovpn: bool,
    /// Where connections are accepted, and by how many.
    pub listen: SocketAddr,
    pub listen6: Option<SocketAddr>,
    pub tcp_workers: usize,
    /// Whether traffic is counted.
    pub stats: bool,
    /// Whether clash is watched and controlled.
    pub clash: bool,
    /// Where names are answered.
    pub dns: Option<SocketAddr>,
    /// How many listeners there are for packets without a connection, of either
    /// family.
    pub udp: bool,
    pub udp6: Option<SocketAddr>,
    pub udp_workers: usize,
    pub udp_idle_sec: u64,
    pub spoof_cache_cap: usize,
    /// How the proxy runs.
    pub proxy: InboundProxyParams,
    /// Whether the web can have the gateway read its settings anew.
    pub reload_cmd: bool,
}

/// Decides what the program starts. Clash is looked at only in the modes that go
/// through it, and names are answered only where the addresses for them exist.
pub fn run_plan(cfg: &Config, fakeip: bool) -> (r: RunPlan)
    ensures
        match r.report {
            ReportPlan::Send(a, u) => cfg.report.pplog == Some(a) && cfg.report.pplog_uuid == Some(u),
            ReportPlan::NoKey => cfg.report.pplog is Some && cfg.report.pplog_uuid is None,
            ReportPlan::Off => cfg.report.pplog is None,
        },
        r.ovpn == (cfg.outbound.mode == OutboundMode::Ovpn),
        r.listen == cfg.inbound.listen,
        r.listen6 == cfg.inbound.listen6,
        r.tcp_workers == if cfg.inbound.tcp_workers == 0 {
            1
        } else {
            cfg.inbound.tcp_workers
        },
        r.stats == (cfg.stats matches Some(s) && s.enabled),
        r.clash == (cfg.outbound.mode == OutboundMode::Yaml || cfg.outbound.mode
            == OutboundMode::Suburl),
        r.dns == match cfg.dns {
            Some(d) => if d.enabled && fakeip {
                Some(d.listen)
            } else {
                None
            },
            None => None,
        },
        r.udp == cfg.inbound.udp,
        r.udp6 == if cfg.inbound.udp {
            cfg.inbound.listen6
        } else {
            None
        },
        r.udp_workers == cfg.inbound.udp_workers,
        r.udp_idle_sec == cfg.inbound.udp_idle_sec,
        r.spoof_cache_cap == cfg.inbound.spoof_cache_cap,
        r.proxy == (InboundProxyParams {
            listen_port: cfg.inbound_proxy.listen_port,
            udp: cfg.inbound_proxy.udp,
            udp_idle_sec: cfg.inbound.udp_idle_sec,
        }),
        r.reload_cmd == (cfg.web.reload_cmd@.len() > 0),
{
    RunPlan {
        report: pplog::report_plan(&cfg.report),
        ovpn: cfg.outbound.mode == OutboundMode::Ovpn,
        listen: cfg.inbound.listen,
        listen6: cfg.inbound.listen6,
        tcp_workers: if cfg.inbound.tcp_workers == 0 {
            1
        } else {
            cfg.inbound.tcp_workers
        },
        stats: match &cfg.stats {
            Some(s) => s.enabled,
            None => false,
        },
        clash: cfg.outbound.mode.via_clash(),
        dns: match &cfg.dns {
            Some(d) => if d.enabled && fakeip {
                Some(d.listen)
            } else {
                None
            },
            None => None,
        },
        udp: cfg.inbound.udp,
        udp6: if cfg.inbound.udp {
            cfg.inbound.listen6
        } else {
            None
        },
        udp_workers: cfg.inbound.udp_workers,
        udp_idle_sec: cfg.inbound.udp_idle_sec,
        spoof_cache_cap: cfg.inbound.spoof_cache_cap,
        proxy: InboundProxyParams {
            listen_port: cfg.inbound_proxy.listen_port,
            udp: cfg.inbound_proxy.udp,
            udp_idle_sec: cfg.inbound.udp_idle_sec,
        },
        reload_cmd: cfg.web.reload_cmd.len() > 0,
    }
}

/// What becomes of a listener that could not be made.
#[derive(Debug, Clone, Copy, PartialEq, Eq, Structural)]
pub enum BindFailure {
    /// The program ends.
    Fatal,
    /// The program goes on without the family.
    Skip,
    /// The program goes on with fewer listeners.
    Fewer,
}

/// What becomes of a listener that could not be made: the first of the main family
/// is needed.
pub fn bind_failure(made: usize, main: bool) -> (r: BindFailure)
    ensures
        r == if made > 0 {
            BindFailure::Fewer
        } else if main {
            BindFailure::Fatal
        } else {
            BindFailure::Skip
        },
{
    if made > 0 {
        BindFailure::Fewer
    } else if main {
        BindFailure::Fatal
    } else {
        BindFailure::Skip
    }
}

/// How long is waited before the list of nodes is looked at for a mark, in
/// milliseconds; not at all once the mark has passed.
pub fn warm_wait(mark_sec: u64, elapsed_ms: u64) -> (r: Option<u128>)
    ensures
        r == if elapsed_ms <= mark_sec * 1000 {
            Some((mark_sec * 1000 - elapsed_ms) as u128)
        } else {
            None
        },
{
    let mark: u128 = mark_sec as u128 * 1000;
    let elapsed: u128 = elapsed_ms as u128;
    if elapsed <= mark {
        Some(mark - elapsed)
    } else {
        None
    }
}

/// Whether the list of nodes is looked at again when somebody asks for it.
pub fn warm_due(elapsed_ms: u64) -> (r: bool)
    ensures
        r == (elapsed_ms >= WARM_GAP_SEC * 1000),
{
    elapsed_ms >= WARM_GAP_SEC * 1000
}

/// The order in which settings stand on the command line makes no difference to a
/// run: of two different ones, either may come first.
pub proof fn law_order_makes_no_difference(
    path: Seq<char>,
    level: Seq<char>,
    name: Seq<char>,
    version: Seq<char>,
)
    ensures
        asked(seq![name, "-c"@, path, "--log-level"@, level], 1, None, None, None, version)
            == asked(seq![name, "--log-level"@, level, "-c"@, path], 1, None, None, None, version),
        asked(seq![name, "-c"@, path, "--log-level"@, level], 1, None, None, None, version) == Ok::<
            ArgsView,
            Seq<char>,
        >(ArgsView::Run { path: Some(path), listen: None, log_level: Some(level) }),
{
    reveal_strlit("-c");
    reveal_strlit("--config");
    reveal_strlit("--listen");
    reveal_strlit("--log-level");
    reveal_with_fuel(asked, 4);
    assert("-c"@.len() == 2);
    assert("--config"@.len() == 8);
    assert("--listen"@.len() == 8);
    assert("--log-level"@.len() == 11);
}

/// Each setting on the command line is taken for what it is, wherever it stands and whatever
/// was said before: a file for the configuration, an address to listen on, a level for the
/// log. What was said last of each counts.
pub proof fn law_settings_on_the_command_line(
    args: Seq<Seq<char>>,
    i: int,
    path: Option<Seq<char>>,
    listen: Option<SocketAddr>,
    level: Option<Seq<char>>,
    version: Seq<char>,
)
    requires
        0 <= i,
        i + 2 == args.len(),
    ensures
        args[i] == "--config"@ || args[i] == "-c"@ ==> asked(args, i, path, listen, level, version)
            == Ok::<ArgsView, Seq<char>>(
            ArgsView::Run { path: Some(args[i + 1]), listen, log_level: level },
        ),
        args[i] == "--listen"@ && addr::socket(args[i + 1]) is Some ==> asked(
            args,
            i,
            path,
            listen,
            level,
            version,
        ) == Ok::<ArgsView, Seq<char>>(
            ArgsView::Run { path, listen: addr::socket(args[i + 1]), log_level: level },
        ),
        args[i] == "--listen"@ && addr::socket(args[i + 1]) is None ==> asked(
            args,
            i,
            path,
            listen,
            level,
            version,
        ) is Err,
        args[i] == "--log-level"@ ==> asked(args, i, path, listen, level, version) == Ok::<
            ArgsView,
            Seq<char>,
        >(ArgsView::Run { path, listen, log_level: Some(args[i + 1]) }),
{
    lemma_names_differ();
    lemma_nothing_more(args, i + 2, Some(args[i + 1]), listen, level, version);
    lemma_nothing_more(args, i + 2, path, addr::socket(args[i + 1]), level, version);
    lemma_nothing_more(args, i + 2, path, listen, Some(args[i + 1]), version);
}

/// A setting before others leaves to them what it does not set.
pub proof fn law_settings_one_after_another(
    args: Seq<Seq<char>>,
    i: int,
    path: Option<Seq<char>>,
    listen: Option<SocketAddr>,
    level: Option<Seq<char>>,
    version: Seq<char>,
)
    requires
        0 <= i,
        i + 2 < args.len(),
    ensures
        args[i] == "--config"@ || args[i] == "-c"@ ==> asked(args, i, path, listen, level, version)
            == asked(args, i + 2, Some(args[i + 1]), listen, level, version),
        args[i] == "--listen"@ && addr::socket(args[i + 1]) is Some ==> asked(
            args,
            i,
            path,
            listen,
            level,
            version,
        ) == asked(args, i + 2, path, addr::socket(args[i + 1]), level, version),
        args[i] == "--log-level"@ ==> asked(args, i, path, listen, level, version) == asked(
            args,
            i + 2,
            path,
            listen,
            Some(args[i + 1]),
            version,
        ),
{
    lemma_names_differ();
}

/// Without anything more the settings are those that were said.
pub proof fn law_no_settings(name: Seq<char>, version: Seq<char>)
    ensures
        asked(seq![name], 1, None, None, None, version) == Ok::<ArgsView, Seq<char>>(
            ArgsView::Run { path: None, listen: None, log_level: None },
        ),
{
}

/// Behind the last argument there is nothing more.
proof fn lemma_nothing_more(
    args: Seq<Seq<char>>,
    i: int,
    path: Option<Seq<char>>,
    listen: Option<SocketAddr>,
    level: Option<Seq<char>>,
    version: Seq<char>,
)
    requires
        i >= args.len(),
    ensures
        asked(args, i, path, listen, level, version) == Ok::<ArgsView, Seq<char>>(
            ArgsView::Run { path, listen, log_level: level },
        ),
{
}

/// The names of the settings differ.
proof fn lemma_names_differ()
    ensures
        "-c"@ != "--listen"@,
        "-c"@ != "--log-level"@,
        "--config"@ != "--listen"@,
        "--config"@ != "--log-level"@,
        "--listen"@ != "--log-level"@,
{
    reveal_strlit("-c");
    reveal_strlit("--config");
    reveal_strlit("--listen");
    reveal_strlit("--log-level");
    assert("-c"@.len() == 2 && "--log-level"@.len() == 11);
    assert("--config"@[2] == 'c' && "--listen"@[2] == 'l');
}

/// Asking for help or for the version ends the run, and so do a setting without its value
/// and one that nobody knows.
#[verifier::rlimit(40)]
pub proof fn law_what_ends_a_run(name: Seq<char>, other: Seq<char>, version: Seq<char>)
    ensures
        asked(seq![name, "-h"@], 1, None, None, None, version) == Ok::<ArgsView, Seq<char>>(
            ArgsView::Print(USAGE@),
        ),
        asked(seq![name, "--help"@], 1, None, None, None, version) == Ok::<ArgsView, Seq<char>>(
            ArgsView::Print(USAGE@),
        ),
        asked(seq![name, "-V"@], 1, None, None, None, version) == Ok::<ArgsView, Seq<char>>(
            ArgsView::Print("sniffbox "@ + version),
        ),
        asked(seq![name, "--version"@], 1, None, None, None, version) == Ok::<ArgsView, Seq<char>>(
            ArgsView::Print("sniffbox "@ + version),
        ),
        asked(seq![name, "-c"@], 1, None, None, None, version) is Err,
        asked(seq![name, "--listen"@], 1, None, None, None, version) is Err,
        asked(seq![name, "--log-level"@], 1, None, None, None, version) is Err,
        !seq![
            "-c"@,
            "--config"@,
            "--listen"@,
            "--log-level"@,
            "-h"@,
            "--help"@,
            "-V"@,
            "--version"@,
        ].contains(other) ==> asked(seq![name, other], 1, None, None, None, version) is Err,
{
    reveal_strlit("-c");
    reveal_strlit("--config");
    reveal_strlit("--listen");
    reveal_strlit("--log-level");
    reveal_strlit("-h");
    reveal_strlit("--help");
    reveal_strlit("-V");
    reveal_strlit("--version");
    reveal_with_fuel(asked, 3);
    assert("-c"@[1] == 'c' && "-h"@[1] == 'h' && "-V"@[1] == 'V');
    assert("--config"@[2] == 'c' && "--listen"@[3] == 'i' && "--log-level"@[3] == 'o');
    assert("--help"@[2] == 'h' && "--version"@[2] == 'v' && "--listen"@[2] == 'l' && "--log-level"@[2]
        == 'l');
    let known = seq![
        "-c"@,
        "--config"@,
        "--listen"@,
        "--log-level"@,
        "-h"@,
        "--help"@,
        "-V"@,
        "--version"@,
    ];
    assert(known[0] == "-c"@ && known[1] == "--config"@ && known[2] == "--listen"@ && known[3]
        == "--log-level"@ && known[4] == "-h"@ && known[5] == "--help"@ && known[6] == "-V"@
        && known[7] == "--version"@);
}

/// What stands on the command line takes the place of what the configuration says of the
/// same, and changes nothing else of it.
pub proof fn law_command_line_comes_first(
    c: config::ConfigView,
    listen: Option<SocketAddr>,
    level: Option<Seq<char>>,
)
    ensures
        ({
            let r = overridden(c, listen, level);
            &&& listen matches Some(l) ==> r.inbound.listen == l
            &&& listen is None ==> r.inbound == c.inbound
            &&& level matches Some(l) ==> r.log.level == l
            &&& level is None ==> r.log == c.log
            &&& overridden(r, listen, level) == r
            &&& overridden(r, Some(c.inbound.listen), Some(c.log.level)) == c
        }),
{
}

/// A file that cannot be read stops the gateway, and settings that cannot be read leave it
/// as if there were none.
pub proof fn law_unreadable_settings(
    path: Seq<char>,
    why: Seq<char>,
    t: Seq<char>,
    cpus: usize,
    ipv6: bool,
    env: Option<Seq<char>>,
    own: Option<IpAddr>,
)
    ensures
        loaded(SourceView::File(path), Err(why), cpus, ipv6, env, own) == Err::<
            config::ConfigView,
            config::ErrView,
        >(config::ErrView::Io(why)),
        loaded(SourceView::File(path), Ok(t), cpus, ipv6, env, own) == config::config_of(t, cpus),
        loaded(SourceView::Production, Err(why), cpus, ipv6, env, own) == loaded(
            SourceView::Production,
            Ok(""@),
            cpus,
            ipv6,
            env,
            own,
        ),
        loaded(SourceView::Production, Ok(t), cpus, ipv6, env, own) == Ok::<
            config::ConfigView,
            config::ErrView,
        >(production::production_view(production::ppgw_of(t), cpus, ipv6, env, own)),
{
    reveal_strlit("");
    assert(""@ =~= Seq::<char>::empty());
    assert(text::lines(""@).len() == 0);
}

/// A value of the kernel is only ever raised: one that is as high already is left alone,
/// and one that is lower or cannot be read is set to what is wanted.
pub proof fn law_values_are_only_raised(now: int, target: i64)
    requires
        0 <= now <= i64::MAX,
        0 <= target,
    ensures
        raised(Some(text::decimal(now)), target) is None <==> now >= target,
        now < target ==> raised(Some(text::decimal(now)), target) == Some(
            text::decimal(target as int),
        ),
        raised(None, target) == Some(text::decimal(target as int)),
{
    text::law_number_round_trip(now, i64::MAX as int);
    text::lemma_written(now, 10);
    let d = text::decimal(now);
    let e = Seq::<char>::empty();
    text::law_trimming(e, d, e);
    assert(text::is_digit(d[0], 10));
}

/// The path of a value of the kernel is its name with a slash for every point.
pub proof fn law_paths_of_kernel_values(key: Seq<char>)
    ensures
        slashed(key).len() == key.len(),
        forall|i: int|
            0 <= i < key.len() ==> #[trigger] slashed(key)[i] == if key[i] == '.' {
                '/'
            } else {
                key[i]
            },
{
}

/// The way in which the kernel shares the line is changed only from the two that it has by
/// itself, and only to one that it offers.
pub proof fn law_when_the_line_is_shared_anew(avail: Seq<char>, current: Seq<char>)
    ensures
        !text::words(avail).contains("bbr"@) ==> congestion_of(avail, current) is Unavailable,
        congestion_of(avail, current) is SetBbr <==> text::words(avail).contains("bbr"@) && (
        text::trimmed(current) == "cubic"@ || text::trimmed(current) == "reno"@),
{
}

} // verus!
