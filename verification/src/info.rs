//! What the panel is told of the gateway and its connections.

use crate::addr;
use crate::addr::SocketAddr;
use crate::civil;
use crate::json;
use crate::json::{Json, Shape};
use crate::production;
use crate::records;
use crate::records::{ConnSample, InboundKind, RecordKind};
use crate::runtime;
use crate::runtime::{InfoStatic, SharedState};
use crate::sysinfo::{ClashVersion, Iface};
use crate::text;
use vstd::prelude::*;

verus! {

// ---------------------------------------------------------------------------
// Connections
// ---------------------------------------------------------------------------

/// A connection as it is listed.
pub struct ConnRow {
    pub id: u64,
    pub sample: ConnSample,
    pub inbound: InboundKind,
    pub src_port: u16,
    pub dst_port: u16,
    /// The name that is shown.
    pub shown: String,
    /// The name that was found.
    pub domain: Option<String>,
    /// When it was opened, in milliseconds after the start of 1970.
    pub created_ms: u64,
}

/// The type of a connection in listings.
pub open spec fn type_text(kind: RecordKind, inbound: InboundKind) -> Seq<char> {
    match kind {
        RecordKind::Internal => "Inner"@,
        RecordKind::Client => records::inbound_text(inbound),
    }
}

/// The name of a transport.
pub open spec fn transport_text(t: records::Transport) -> Seq<char> {
    match t {
        records::Transport::Tcp => "tcp"@,
        records::Transport::Udp => "udp"@,
    }
}

/// What a listing says of the ends of a connection.
pub open spec fn meta_fields(r: ConnRow) -> Seq<(Seq<char>, Shape)> {
    seq![
        ("network"@, Shape::Text(transport_text(r.sample.transport))),
        ("type"@, Shape::Text(type_text(r.sample.kind, r.inbound))),
        ("sourceIP"@, Shape::Text(addr::ip_text(r.sample.src))),
        ("sourcePort"@, Shape::Text(text::decimal(r.src_port as int))),
        ("destinationIP"@, Shape::Text(addr::ip_text(r.sample.dst))),
        ("destinationPort"@, Shape::Text(text::decimal(r.dst_port as int))),
        ("host"@, Shape::Text(r.shown@)),
        ("dnsMode"@, Shape::Text("normal"@)),
        ("processPath"@, Shape::Text(""@)),
        ("specialProxy"@, Shape::Text(""@)),
        (
            "sniffHost"@,
            Shape::Text(
                match r.domain {
                    Some(d) => d@,
                    None => ""@,
                },
            ),
        ),
    ]
}

/// What a listing says of a connection.
pub open spec fn conn_fields(r: ConnRow) -> Seq<(Seq<char>, Shape)> {
    seq![
        ("id"@, Shape::Text(text::decimal(r.id as int))),
        ("metadata"@, Shape::Object(meta_fields(r))),
        ("upload"@, json::whole_shape(r.sample.upload as int)),
        ("download"@, json::whole_shape(r.sample.download as int)),
        ("start"@, Shape::Text(civil::moment(r.created_ms as int))),
        ("chains"@, Shape::List(Seq::empty())),
        ("rule"@, Shape::Text(""@)),
        ("rulePayload"@, Shape::Text(""@)),
    ]
}

/// What a listing says of a connection.
pub fn conn_json(r: &ConnRow) -> (j: Json)
    ensures
        j@ == Shape::Object(conn_fields(*r)),
{
    let mut m: Vec<(String, Json)> = Vec::new();
    json::add_field(&mut m, "network", json::words_of(r.sample.transport.as_str()));
    json::add_field(
        &mut m,
        "type",
        json::words_of(records::conn_type(r.sample.kind, r.inbound)),
    );
    json::add_field(&mut m, "sourceIP", Json::Text(r.sample.src.text()));
    json::add_field(&mut m, "sourcePort", Json::Text(text::decimal_of(r.src_port as u64)));
    json::add_field(&mut m, "destinationIP", Json::Text(r.sample.dst.text()));
    json::add_field(&mut m, "destinationPort", Json::Text(text::decimal_of(r.dst_port as u64)));
    json::add_field(&mut m, "host", json::words_of(r.shown.as_str()));
    json::add_field(&mut m, "dnsMode", json::words_of("normal"));
    json::add_field(&mut m, "processPath", json::words_of(""));
    json::add_field(&mut m, "specialProxy", json::words_of(""));
    let sniffed: &str = match &r.domain {
        Some(d) => d.as_str(),
        None => "",
    };
    json::add_field(&mut m, "sniffHost", json::words_of(sniffed));
    assert(json::entries(m@) =~= meta_fields(*r));
    let start = civil::rfc3339_ms(r.created_ms);
    proof {
        civil::law_one_moment(start@, r.created_ms as int);
    }
    let mut es: Vec<(String, Json)> = Vec::new();
    json::add_field(&mut es, "id", Json::Text(text::decimal_of(r.id)));
    json::add_field(&mut es, "metadata", Json::Object(m));
    json::add_field(&mut es, "upload", json::whole_of(r.sample.upload));
    json::add_field(&mut es, "download", json::whole_of(r.sample.download));
    json::add_field(&mut es, "start", Json::Text(start));
    json::add_field(&mut es, "chains", Json::List(Vec::new()));
    json::add_field(&mut es, "rule", json::words_of(""));
    json::add_field(&mut es, "rulePayload", json::words_of(""));
    assert(json::entries(es@) =~= conn_fields(*r));
    Json::Object(es)
}

/// The counters of connections.
pub open spec fn samples(v: Seq<ConnRow>) -> Seq<ConnSample> {
    v.map_values(|r: ConnRow| r.sample)
}

/// What a listing says of the open ones among the first `n` connections.
pub open spec fn open_run(v: Seq<ConnRow>, n: int) -> Seq<Shape>
    decreases n,
{
    if n <= 0 {
        Seq::empty()
    } else if v[n - 1].sample.closed {
        open_run(v, n - 1)
    } else {
        open_run(v, n - 1).push(Shape::Object(conn_fields(v[n - 1])))
    }
}

/// The listing of the connections: what was received and sent in all, and the
/// connections that are open.
pub open spec fn listing(down: u64, up: u64, v: Seq<ConnRow>) -> Seq<(Seq<char>, Shape)> {
    let s = samples(v);
    seq![
        ("downloadTotal"@, json::whole_shape(down + runtime::live_down(s, s.len() as int))),
        ("uploadTotal"@, json::whole_shape(up + runtime::live_up(s, s.len() as int))),
        ("connections"@, Shape::List(open_run(v, v.len() as int))),
    ]
}

/// Whether what was received and sent in all can be counted.
pub open spec fn countable(down: u64, up: u64, s: Seq<ConnSample>) -> bool {
    &&& down + runtime::live_down(s, s.len() as int) <= u64::MAX
    &&& up + runtime::live_up(s, s.len() as int) <= u64::MAX
}

/// The counters of connections.
fn samples_of(v: &[ConnRow]) -> (r: Vec<ConnSample>)
    ensures
        r@ == samples(v@),
{
    let mut out: Vec<ConnSample> = Vec::new();
    let mut i: usize = 0;
    while i < v.len()
        invariant
            i <= v@.len(),
            out@ =~= samples(v@).take(i as int),
        decreases v@.len() - i,
    {
        out.push(v[i].sample);
        i = i + 1;
    }
    assert(samples(v@).take(i as int) =~= samples(v@));
    out
}

/// The listing of the connections, as a text; `down` and `up` are the totals that were
/// taken from connections before.
pub fn connections_snapshot(down: u64, up: u64, v: &[ConnRow]) -> (r: String)
    requires
        countable(down, up, samples(v@)),
    ensures
        r@ == json::json_text(Shape::Object(listing(down, up, v@))),
{
    let s = samples_of(v);
    let (d, u) = runtime::live_totals(down, up, s.as_slice());
    let mut rows: Vec<Json> = Vec::new();
    let mut i: usize = 0;
    while i < v.len()
        invariant
            i <= v@.len(),
            json::shapes(rows@) == open_run(v@, i as int),
        decreases v@.len() - i,
    {
        if !v[i].sample.closed {
            json::push(&mut rows, conn_json(&v[i]));
        }
        i = i + 1;
    }
    let mut es: Vec<(String, Json)> = Vec::new();
    json::add_field(&mut es, "downloadTotal", json::whole_of(d as u64));
    json::add_field(&mut es, "uploadTotal", json::whole_of(u as u64));
    json::add_field(&mut es, "connections", Json::List(rows));
    assert(json::entries(es@) =~= listing(down, up, v@));
    json::write(&Json::Object(es))
}

// ---------------------------------------------------------------------------
// What does not change
// ---------------------------------------------------------------------------

/// What the environment says, where it says something.
pub struct Surroundings {
    pub mode: Option<String>,
    pub suburl: Option<String>,
    pub dns_ip: Option<String>,
    pub dns_port: Option<String>,
    pub ex_dns: Option<String>,
    pub dns_burn: Option<String>,
}

/// What the machine is.
pub struct Machine {
    pub version: String,
    pub clash: Option<ClashVersion>,
    pub kernel: String,
    pub mem_total: u64,
    pub cpu_model: String,
    pub cpu_cores: u64,
    pub ifaces: Vec<Iface>,
    pub nameservers: Vec<String>,
    pub fakeip_cidr: Option<String>,
}

/// A text that may be missing.
pub open spec fn opt_text(s: Option<Seq<char>>) -> Shape {
    match s {
        Some(t) => Shape::Text(t),
        None => Shape::Null,
    }
}

/// What is said of an interface.
pub open spec fn iface_fields(i: Iface) -> Seq<(Seq<char>, Shape)> {
    seq![
        ("name"@, Shape::Text(i.name@)),
        ("ipv4"@, Shape::List(json::text_shapes(text::strings(i.ipv4@)))),
        ("ipv6"@, Shape::List(json::text_shapes(text::strings(i.ipv6@)))),
        ("mac"@, opt_text(text::opt_string(i.mac))),
        ("gateway"@, opt_text(text::opt_string(i.gateway))),
    ]
}

/// What is said of the first `n` interfaces.
pub open spec fn ifaces_run(v: Seq<Iface>, n: int) -> Seq<Shape>
    decreases n,
{
    if n <= 0 {
        Seq::empty()
    } else {
        ifaces_run(v, n - 1).push(Shape::Object(iface_fields(v[n - 1])))
    }
}

/// A text that may be missing.
fn opt_words_of(s: &Option<String>) -> (r: Json)
    ensures
        r@ == opt_text(text::opt_string(*s)),
{
    match s {
        Some(t) => json::words_of(t.as_str()),
        None => Json::Null,
    }
}

/// What is said of interfaces.
fn ifaces_json(v: &Vec<Iface>) -> (r: Json)
    ensures
        r@ == Shape::List(ifaces_run(v@, v@.len() as int)),
{
    let mut out: Vec<Json> = Vec::new();
    let mut i: usize = 0;
    while i < v.len()
        invariant
            i <= v@.len(),
            json::shapes(out@) == ifaces_run(v@, i as int),
        decreases v@.len() - i,
    {
        let mut es: Vec<(String, Json)> = Vec::new();
        json::add_field(&mut es, "name", json::words_of(v[i].name.as_str()));
        json::add_field(&mut es, "ipv4", json::list_of_words(&v[i].ipv4));
        json::add_field(&mut es, "ipv6", json::list_of_words(&v[i].ipv6));
        json::add_field(&mut es, "mac", opt_words_of(&v[i].mac));
        json::add_field(&mut es, "gateway", opt_words_of(&v[i].gateway));
        assert(json::entries(es@) =~= iface_fields(v@[i as int]));
        json::push(&mut out, Json::Object(es));
        i = i + 1;
    }
    Json::List(out)
}

/// What the environment or else the settings say.
pub open spec fn said(env: Option<String>, file: Seq<char>, key: Seq<char>) -> Option<Seq<char>> {
    runtime::env_or_setting(text::opt_string(env), production::ppgw_of(file), key)
}

/// What the environment or else the settings say.
fn ask(env: &Option<String>, file: &str, key: &str) -> (r: Option<String>)
    ensures
        text::opt_string(r) == said(*env, file@, key@),
{
    let e: Option<&str> = match env {
        Some(s) => Some(s.as_str()),
        None => None,
    };
    runtime::env_or_ini(e, file, key)
}

/// A text that may be missing, with nothing around it.
pub open spec fn bare(s: Option<Seq<char>>) -> Seq<char> {
    match s {
        Some(t) => text::trimmed(t),
        None => Seq::empty(),
    }
}

/// The server that names are trusted from: what the surroundings say, with its port or 53,
/// and else what the configuration says.
pub open spec fn trusted(env: Surroundings, file: Seq<char>, server: Option<SocketAddr>) -> Shape {
    let ip = bare(said(env.dns_ip, file, "dns_ip"@));
    if ip.len() > 0 {
        let port: int = match said(env.dns_port, file, "dns_port"@) {
            Some(p) => match text::number(text::trimmed(p), 10, 65535) {
                Some(n) => n,
                None => 53,
            },
            None => 53,
        };
        Shape::Object(seq![("ip"@, Shape::Text(ip)), ("port"@, json::whole_shape(port))])
    } else {
        match server {
            Some(s) => Shape::Object(
                seq![
                    ("ip"@, Shape::Text(addr::ip_text(s.ip))),
                    ("port"@, json::whole_shape(s.port as int)),
                ],
            ),
            None => Shape::Null,
        }
    }
}

/// A server with its port.
fn server_json(ip: String, port: u64) -> (r: Json)
    ensures
        r@ == Shape::Object(
            seq![("ip"@, Shape::Text(ip@)), ("port"@, json::whole_shape(port as int))],
        ),
{
    let ghost shown = ip@;
    let mut es: Vec<(String, Json)> = Vec::new();
    json::add_field(&mut es, "ip", Json::Text(ip));
    json::add_field(&mut es, "port", json::whole_of(port));
    assert(json::entries(es@) =~= seq![
        ("ip"@, Shape::Text(shown)),
        ("port"@, json::whole_shape(port as int)),
    ]);
    Json::Object(es)
}

/// The server that names are trusted from.
fn trusted_json(env: &Surroundings, file: &str, server: Option<SocketAddr>) -> (r: Json)
    ensures
        r@ == trusted(*env, file@, server),
{
    match ask(&env.dns_ip, file, "dns_ip") {
        Some(s) => {
            let cs = text::chars_of(s.as_str());
            let ip = text::trim(cs.as_slice());
            if ip.len() > 0 {
                let port: u64 = match ask(&env.dns_port, file, "dns_port") {
                    Some(p) => {
                        let ps = text::chars_of(p.as_str());
                        match text::parse_number(text::trim(ps.as_slice()), 10, 65535) {
                            Some(n) => n,
                            None => 53,
                        }
                    },
                    None => 53,
                };
                return server_json(text::str_of(ip), port);
            }
        },
        None => {},
    }
    match server {
        Some(s) => server_json(s.ip.text(), s.port as u64),
        None => Json::Null,
    }
}

/// How the gateway works, in a word.
pub open spec fn mode_shown(env: Surroundings, stat: InfoStatic) -> Seq<char> {
    if bare(text::opt_string(env.mode)).len() > 0 {
        bare(text::opt_string(env.mode))
    } else {
        runtime::mode_text(stat.mode)
    }
}

/// Whether the nodes come from a list of subscriptions.
pub open spec fn subscribes(env: Surroundings, file: Seq<char>, stat: InfoStatic) -> bool {
    mode_shown(env, stat) == "suburl"@ && runtime::is_ppsub(said(env.suburl, file, "suburl"@))
}

/// Servers that are asked besides.
pub open spec fn others(env: Surroundings, file: Seq<char>) -> Seq<Seq<char>> {
    let s = match said(env.ex_dns, file, "ex_dns"@) {
        Some(t) => t,
        None => Seq::empty(),
    };
    runtime::list_run(text::split(s, ','), text::split(s, ',').len() as int)
}

/// Where names are looked up.
pub open spec fn dns_fields(env: Surroundings, file: Seq<char>, m: Machine, stat: InfoStatic) -> Seq<
    (Seq<char>, Shape),
> {
    seq![
        ("trusted"@, trusted(env, file, stat.dns_resolver)),
        ("ex_dns"@, Shape::List(json::text_shapes(others(env, file)))),
        ("system"@, Shape::List(json::text_shapes(text::strings(m.nameservers@)))),
    ]
}

/// What the gateway does besides.
pub open spec fn feature_fields(
    env: Surroundings,
    file: Seq<char>,
    stat: InfoStatic,
    shared: runtime::SharedView,
) -> Seq<(Seq<char>, Shape)> {
    seq![
        ("dns_burn"@, Shape::Bool(runtime::truth(said(env.dns_burn, file, "dns_burn"@)))),
        ("net_rec"@, Shape::Bool(stat.net_rec)),
        ("openport"@, Shape::Bool(stat.openport_enabled)),
        ("openport_port"@, json::whole_shape(stat.openport_port as int)),
        ("udp_enable"@, Shape::Bool(stat.udp_enable)),
        ("max_rec"@, json::whole_shape(shared.max_rec)),
        ("net_cleanday"@, json::whole_shape(shared.net_cleanday)),
    ]
}

/// What is refused.
pub open spec fn route_fields(f: runtime::RouteFlags) -> Seq<(Seq<char>, Shape)> {
    seq![
        ("block_bittorrent"@, Shape::Bool(f.block_bittorrent)),
        ("block_quic"@, Shape::Bool(f.block_quic)),
        ("block_unknown"@, Shape::Bool(f.block_unknown)),
    ]
}

/// Who may use the gateway and its panel.
pub open spec fn acl_fields(shared: runtime::SharedView) -> Seq<(Seq<char>, Shape)> {
    seq![
        ("admin_cidr"@, Shape::List(json::text_shapes(runtime::net_texts(shared.admin_acl)))),
        ("proxy_cidr"@, Shape::List(json::text_shapes(runtime::net_texts(shared.proxy_acl)))),
    ]
}

/// What does not change while the gateway runs.
pub open spec fn static_fields(
    env: Surroundings,
    file: Seq<char>,
    m: Machine,
    stat: InfoStatic,
    shared: runtime::SharedView,
) -> Seq<(Seq<char>, Shape)> {
    seq![
        ("version"@, Shape::Text(m.version@)),
        (
            "clash_version"@,
            match m.clash {
                Some(v) => Shape::Text(v.version@),
                None => Shape::Null,
            },
        ),
        (
            "clash_meta"@,
            Shape::Bool(
                match m.clash {
                    Some(v) => v.meta,
                    None => false,
                },
            ),
        ),
        ("mode"@, Shape::Text(mode_shown(env, stat))),
        ("ppsub"@, Shape::Bool(subscribes(env, file, stat))),
        ("kernel"@, Shape::Text(m.kernel@)),
        ("memory"@, Shape::Object(seq![("total"@, json::whole_shape(m.mem_total as int))])),
        (
            "cpu"@,
            Shape::Object(
                seq![
                    ("model"@, Shape::Text(m.cpu_model@)),
                    ("cores"@, json::whole_shape(m.cpu_cores as int)),
                ],
            ),
        ),
        ("interfaces"@, Shape::List(ifaces_run(m.ifaces@, m.ifaces@.len() as int))),
        (
            "dns"@,
            Shape::Object(dns_fields(env, file, m, stat)),
        ),
        (
            "features"@,
            Shape::Object(feature_fields(env, file, stat, shared)),
        ),
        (
            "route"@,
            Shape::Object(route_fields(shared.route)),
        ),
        (
            "acl"@,
            Shape::Object(acl_fields(shared)),
        ),
        (
            "fakeip"@,
            Shape::Object(seq![("cidr"@, opt_text(text::opt_string(m.fakeip_cidr)))]),
        ),
        (
            "pplog"@,
            match stat.pplog {
                Some(a) => Shape::Text(addr::socket_text(a)),
                None => Shape::Null,
            },
        ),
    ]
}

/// An object with one field.
fn one_field(key: &str, v: Json) -> (r: Json)
    ensures
        r@ == Shape::Object(seq![(key@, v@)]),
{
    let ghost shown = v@;
    let mut es: Vec<(String, Json)> = Vec::new();
    json::add_field(&mut es, key, v);
    assert(json::entries(es@) =~= seq![(key@, shown)]);
    Json::Object(es)
}

/// Where names are looked up.
fn dns_json(env: &Surroundings, file: &str, m: &Machine, stat: &InfoStatic) -> (r: Json)
    ensures
        r@ == Shape::Object(dns_fields(*env, file@, *m, *stat)),
{
    let ex = match ask(&env.ex_dns, file, "ex_dns") {
        Some(s) => runtime::comma_list(s.as_str()),
        None => {
            let none = String::new();
            assert(none@ =~= Seq::<char>::empty());
            runtime::comma_list(none.as_str())
        },
    };
    let mut es: Vec<(String, Json)> = Vec::new();
    json::add_field(&mut es, "trusted", trusted_json(env, file, stat.dns_resolver));
    json::add_field(&mut es, "ex_dns", json::list_of_words(&ex));
    json::add_field(&mut es, "system", json::list_of_words(&m.nameservers));
    assert(json::entries(es@) =~= dns_fields(*env, file@, *m, *stat));
    Json::Object(es)
}

/// What the gateway does besides.
fn features_json(env: &Surroundings, file: &str, stat: &InfoStatic, shared: &SharedState) -> (r: Json)
    ensures
        r@ == Shape::Object(feature_fields(*env, file@, *stat, shared@)),
{
    let burn: Option<&str> = match &env.dns_burn {
        Some(s) => Some(s.as_str()),
        None => None,
    };
    let mut es: Vec<(String, Json)> = Vec::new();
    json::add_field(&mut es, "dns_burn", Json::Bool(runtime::env_bool(burn, file, "dns_burn")));
    json::add_field(&mut es, "net_rec", Json::Bool(stat.net_rec));
    json::add_field(&mut es, "openport", Json::Bool(stat.openport_enabled));
    json::add_field(&mut es, "openport_port", json::whole_of(stat.openport_port as u64));
    json::add_field(&mut es, "udp_enable", Json::Bool(stat.udp_enable));
    json::add_field(&mut es, "max_rec", json::whole_of(shared.max_rec() as u64));
    json::add_field(&mut es, "net_cleanday", json::whole_of(shared.net_cleanday() as u64));
    assert(json::entries(es@) =~= feature_fields(*env, file@, *stat, shared@));
    Json::Object(es)
}

/// What is refused.
fn route_json(f: runtime::RouteFlags) -> (r: Json)
    ensures
        r@ == Shape::Object(route_fields(f)),
{
    let mut es: Vec<(String, Json)> = Vec::new();
    json::add_field(&mut es, "block_bittorrent", Json::Bool(f.block_bittorrent));
    json::add_field(&mut es, "block_quic", Json::Bool(f.block_quic));
    json::add_field(&mut es, "block_unknown", Json::Bool(f.block_unknown));
    assert(json::entries(es@) =~= route_fields(f));
    Json::Object(es)
}

/// Who may use the gateway and its panel.
fn acl_json(shared: &SharedState) -> (r: Json)
    ensures
        r@ == Shape::Object(acl_fields(shared@)),
{
    let mut es: Vec<(String, Json)> = Vec::new();
    json::add_field(&mut es, "admin_cidr", json::list_of_words(&shared.admin_cidr()));
    json::add_field(&mut es, "proxy_cidr", json::list_of_words(&shared.proxy_cidr()));
    assert(json::entries(es@) =~= acl_fields(shared@));
    Json::Object(es)
}

/// How the gateway works, in a word.
fn mode_word(env: &Surroundings, stat: &InfoStatic) -> (r: String)
    ensures
        r@ == mode_shown(*env, *stat),
{
    let mode: Option<&str> = match &env.mode {
        Some(s) => Some(s.as_str()),
        None => None,
    };
    runtime::mode_string(mode, stat.mode)
}

/// Whether the nodes come from a list of subscriptions.
fn is_ppsub(env: &Surroundings, file: &str, stat: &InfoStatic) -> (r: bool)
    ensures
        r == subscribes(*env, file@, *stat),
{
    if !text::same_str(mode_word(env, stat).as_str(), "suburl") {
        return false;
    }
    match ask(&env.suburl, file, "suburl") {
        Some(s) => runtime::is_ppsub_suburl(Some(s.as_str())),
        None => runtime::is_ppsub_suburl(None),
    }
}

/// What does not change while the gateway runs; `file` holds the settings.
pub fn static_value(
    env: &Surroundings,
    file: &str,
    m: &Machine,
    stat: &InfoStatic,
    shared: &SharedState,
) -> (r: Json)
    ensures
        r@ == Shape::Object(static_fields(*env, file@, *m, *stat, shared@)),
{
    let mut cpu: Vec<(String, Json)> = Vec::new();
    json::add_field(&mut cpu, "model", json::words_of(m.cpu_model.as_str()));
    json::add_field(&mut cpu, "cores", json::whole_of(m.cpu_cores));
    assert(json::entries(cpu@) =~= seq![
        ("model"@, Shape::Text(m.cpu_model@)),
        ("cores"@, json::whole_shape(m.cpu_cores as int)),
    ]);
    let (clash, meta) = match &m.clash {
        Some(v) => (json::words_of(v.version.as_str()), v.meta),
        None => (Json::Null, false),
    };
    let report = match stat.pplog {
        Some(a) => Json::Text(a.text()),
        None => Json::Null,
    };
    let mut es: Vec<(String, Json)> = Vec::new();
    json::add_field(&mut es, "version", json::words_of(m.version.as_str()));
    json::add_field(&mut es, "clash_version", clash);
    json::add_field(&mut es, "clash_meta", Json::Bool(meta));
    json::add_field(&mut es, "mode", Json::Text(mode_word(env, stat)));
    json::add_field(&mut es, "ppsub", Json::Bool(is_ppsub(env, file, stat)));
    json::add_field(&mut es, "kernel", json::words_of(m.kernel.as_str()));
    json::add_field(&mut es, "memory", one_field("total", json::whole_of(m.mem_total)));
    json::add_field(&mut es, "cpu", Json::Object(cpu));
    json::add_field(&mut es, "interfaces", ifaces_json(&m.ifaces));
    json::add_field(&mut es, "dns", dns_json(env, file, m, stat));
    json::add_field(&mut es, "features", features_json(env, file, stat, shared));
    json::add_field(&mut es, "route", route_json(shared.route_flags()));
    json::add_field(&mut es, "acl", acl_json(shared));
    json::add_field(&mut es, "fakeip", one_field("cidr", opt_words_of(&m.fakeip_cidr)));
    json::add_field(&mut es, "pplog", report);
    assert(json::entries(es@) =~= static_fields(*env, file@, *m, *stat, shared@));
    Json::Object(es)
}

// ---------------------------------------------------------------------------
// What changes
// ---------------------------------------------------------------------------

/// What processors and processes have used so far, in ticks of the clock.
pub struct InfoSample {
    /// All ticks of all processors, and the idle ones.
    pub cpu: Option<(u128, u128)>,
    /// The same for each processor.
    pub cores: Vec<(u128, u128)>,
    /// The ticks of the gateway itself.
    pub own: Option<u128>,
    /// The number of the process of clash and its ticks.
    pub clash: Option<(u32, u128)>,
    /// The number of the process of openvpn and its ticks.
    pub ovpn: Option<(u32, u128)>,
}

/// A part of a whole. Of nothing, every part is nothing.
#[derive(Debug, Clone, Copy, PartialEq, Eq, Structural)]
pub struct Share {
    pub part: u128,
    pub whole: u128,
}

/// What was used between two samples.
pub struct Used {
    pub cpu: Share,
    pub cores: Vec<Share>,
    pub own: Share,
    pub clash: Share,
    pub ovpn: Share,
}

/// The difference of two numbers, where the first one is not smaller.
pub open spec fn grown(from: int, to: int) -> int {
    if to > from {
        to - from
    } else {
        0
    }
}

/// How busy processors were between two samples.
pub open spec fn busy(from: (u128, u128), to: (u128, u128)) -> Share {
    let all = grown(from.0 as int, to.0 as int);
    Share {
        part: grown(grown(from.1 as int, to.1 as int), all) as u128,
        whole: all as u128,
    }
}

/// No share.
pub open spec fn no_share() -> Share {
    Share { part: 0, whole: 0 }
}

/// How much of all ticks a process used, at most all of them.
pub open spec fn share_of(from: u128, to: u128, all: u128) -> Share {
    let d = grown(from as int, to as int) as u128;
    Share {
        part: if d < all {
            d
        } else {
            all
        },
        whole: all,
    }
}

/// How many ticks passed between two samples.
pub open spec fn passed(from: InfoSample, to: InfoSample) -> u128 {
    match (from.cpu, to.cpu) {
        (Some(a), Some(b)) => grown(a.0 as int, b.0 as int) as u128,
        _ => 0,
    }
}

/// How much of all ticks a process used that has a number: nothing is known where it is
/// not the same process.
pub open spec fn share_of_process(
    from: Option<(u32, u128)>,
    to: Option<(u32, u128)>,
    all: u128,
) -> Share {
    match (from, to) {
        (Some(a), Some(b)) => if a.0 == b.0 {
            share_of(a.1, b.1, all)
        } else {
            no_share()
        },
        _ => no_share(),
    }
}

/// How busy each processor was; nothing is known where their number changed.
pub open spec fn busy_cores(from: Seq<(u128, u128)>, to: Seq<(u128, u128)>) -> Seq<Share> {
    if from.len() == to.len() {
        Seq::new(to.len(), |i: int| busy(from[i], to[i]))
    } else {
        Seq::empty()
    }
}

/// The difference of two numbers, where the first one is not smaller.
fn growth(from: u128, to: u128) -> (r: u128)
    ensures
        r == grown(from as int, to as int),
{
    if to > from {
        to - from
    } else {
        0
    }
}

/// How busy processors were between two samples.
fn busy_between(from: (u128, u128), to: (u128, u128)) -> (r: Share)
    ensures
        r == busy(from, to),
{
    let all = growth(from.0, to.0);
    Share { part: growth(growth(from.1, to.1), all), whole: all }
}

/// How much of all ticks a process used.
fn share(from: u128, to: u128, all: u128) -> (r: Share)
    ensures
        r == share_of(from, to, all),
{
    let d = growth(from, to);
    Share {
        part: if d < all {
            d
        } else {
            all
        },
        whole: all,
    }
}

/// How much of all ticks a process used that has a number.
fn process_share(from: Option<(u32, u128)>, to: Option<(u32, u128)>, all: u128) -> (r: Share)
    ensures
        r == share_of_process(from, to, all),
{
    match (from, to) {
        (Some(a), Some(b)) => if a.0 == b.0 {
            share(a.1, b.1, all)
        } else {
            Share { part: 0, whole: 0 }
        },
        _ => Share { part: 0, whole: 0 },
    }
}

impl InfoSample {
    /// Nothing is known yet.
    pub fn empty() -> (r: InfoSample)
        ensures
            r.cpu is None,
            r.cores@.len() == 0,
            r.own is None,
            r.clash is None,
            r.ovpn is None,
    {
        InfoSample { cpu: None, cores: Vec::new(), own: None, clash: None, ovpn: None }
    }

    /// What was used since the last sample, and takes a new one.
    pub fn take(&mut self, now: InfoSample) -> (r: Used)
        ensures
            *final(self) == now,
            r.cpu == match (old(self).cpu, now.cpu) {
                (Some(a), Some(b)) => busy(a, b),
                _ => no_share(),
            },
            r.cores@ == busy_cores(old(self).cores@, now.cores@),
            r.own == match (old(self).own, now.own) {
                (Some(a), Some(b)) => share_of(a, b, passed(*old(self), now)),
                _ => no_share(),
            },
            r.clash == share_of_process(old(self).clash, now.clash, passed(*old(self), now)),
            r.ovpn == share_of_process(old(self).ovpn, now.ovpn, passed(*old(self), now)),
    {
        let none = Share { part: 0, whole: 0 };
        let (cpu, all) = match (self.cpu, now.cpu) {
            (Some(a), Some(b)) => (busy_between(a, b), growth(a.0, b.0)),
            _ => (none, 0u128),
        };
        let mut cores: Vec<Share> = Vec::new();
        if self.cores.len() == now.cores.len() {
            let mut i: usize = 0;
            while i < now.cores.len()
                invariant
                    i <= now.cores@.len(),
                    self.cores@.len() == now.cores@.len(),
                    cores@ =~= busy_cores(self.cores@, now.cores@).take(i as int),
                decreases now.cores@.len() - i,
            {
                cores.push(busy_between(self.cores[i], now.cores[i]));
                i = i + 1;
            }
            assert(busy_cores(self.cores@, now.cores@).take(i as int) =~= busy_cores(
                self.cores@,
                now.cores@,
            ));
        } else {
            assert(cores@ =~= busy_cores(self.cores@, now.cores@));
        }
        let own = match (self.own, now.own) {
            (Some(a), Some(b)) => share(a, b, all),
            _ => none,
        };
        let clash = process_share(self.clash, now.clash, all);
        let ovpn = process_share(self.ovpn, now.ovpn, all);
        *self = now;
        Used { cpu, cores, own, clash, ovpn }
    }
}

/// No part is more than the whole.
pub proof fn law_shares_fit(from: (u128, u128), to: (u128, u128), a: u128, b: u128, all: u128)
    ensures
        busy(from, to).part <= busy(from, to).whole,
        share_of(a, b, all).part <= share_of(a, b, all).whole,
{
}

/// What was used, in tenths of a percent.
pub struct Usage {
    pub cpu: u64,
    pub cores: Vec<u64>,
    pub own: u64,
    pub clash: Option<u64>,
    pub ovpn: Option<u64>,
}

/// What is known of the moment.
pub struct Moment {
    /// The time, in seconds after the start of 1970.
    pub timestamp: u64,
    /// How long the machine has run, in seconds.
    pub uptime: u64,
    pub available: u64,
    pub own_rss: u64,
    pub own_uptime: Option<u64>,
    pub clash_rss: Option<u64>,
    pub clash_uptime: Option<u64>,
    pub ovpn_rss: Option<u64>,
    pub ovpn_uptime: Option<u64>,
    /// How many addresses are given out for names.
    pub mapped: Option<u64>,
}

/// A whole number that may be missing.
pub open spec fn opt_count(n: Option<u64>) -> Shape {
    match n {
        Some(x) => json::whole_shape(x as int),
        None => Shape::Null,
    }
}

/// A number of tenths that may be missing.
pub open spec fn opt_tenths(n: Option<u64>) -> Shape {
    match n {
        Some(x) => json::tenths_shape(x as int),
        None => Shape::Null,
    }
}

/// A number of tenths that may be missing.
fn opt_tenths_of(n: Option<u64>) -> (r: Json)
    ensures
        r@ == opt_tenths(n),
{
    match n {
        Some(x) => json::tenths_of(x),
        None => Json::Null,
    }
}

/// What memory is used.
pub open spec fn memory_fields(t: Moment) -> Seq<(Seq<char>, Shape)> {
    seq![
        ("available"@, json::whole_shape(t.available as int)),
        ("sniffbox_rss"@, json::whole_shape(t.own_rss as int)),
        ("sniffbox_uptime"@, opt_count(t.own_uptime)),
        ("clash_rss"@, opt_count(t.clash_rss)),
        ("clash_uptime"@, opt_count(t.clash_uptime)),
        ("ovpn_rss"@, opt_count(t.ovpn_rss)),
        ("ovpn_uptime"@, opt_count(t.ovpn_uptime)),
    ]
}

/// What processors are used.
pub open spec fn cpu_fields(u: Usage) -> Seq<(Seq<char>, Shape)> {
    seq![
        ("usage"@, json::tenths_shape(u.cpu as int)),
        ("per_core"@, Shape::List(u.cores@.map_values(|n: u64| json::tenths_shape(n as int)))),
        ("sniffbox"@, json::tenths_shape(u.own as int)),
        ("clash"@, opt_tenths(u.clash)),
        ("ovpn"@, opt_tenths(u.ovpn)),
    ]
}

/// How many connections there are.
pub open spec fn conn_fields_of(s: runtime::ConnStats) -> Seq<(Seq<char>, Shape)> {
    seq![
        ("active"@, json::whole_shape(s.active as int)),
        ("tcp"@, json::whole_shape(s.tcp as int)),
        ("udp"@, json::whole_shape(s.udp as int)),
        ("clients"@, json::whole_shape(s.clients as int)),
        ("fakeip"@, json::whole_shape(s.fakeip as int)),
        ("realip"@, json::whole_shape(s.realip as int)),
    ]
}

/// What changes while the gateway runs.
pub open spec fn dynamic_fields(
    t: Moment,
    u: Usage,
    down: int,
    up: int,
    s: runtime::ConnStats,
) -> Seq<(Seq<char>, Shape)> {
    seq![
        ("timestamp"@, json::whole_shape(t.timestamp as int)),
        ("uptime"@, json::whole_shape(t.uptime as int)),
        ("memory"@, Shape::Object(memory_fields(t))),
        ("cpu"@, Shape::Object(cpu_fields(u))),
        (
            "traffic"@,
            Shape::Object(
                seq![
                    ("downloadTotal"@, json::whole_shape(down)),
                    ("uploadTotal"@, json::whole_shape(up)),
                ],
            ),
        ),
        ("fakeip"@, Shape::Object(seq![("mapped"@, opt_count(t.mapped))])),
        ("connections"@, Shape::Object(conn_fields_of(s))),
    ]
}

/// What memory is used.
fn memory_json(t: &Moment) -> (r: Json)
    ensures
        r@ == Shape::Object(memory_fields(*t)),
{
    let mut es: Vec<(String, Json)> = Vec::new();
    json::add_field(&mut es, "available", json::whole_of(t.available));
    json::add_field(&mut es, "sniffbox_rss", json::whole_of(t.own_rss));
    json::add_field(&mut es, "sniffbox_uptime", json::opt_whole(t.own_uptime));
    json::add_field(&mut es, "clash_rss", json::opt_whole(t.clash_rss));
    json::add_field(&mut es, "clash_uptime", json::opt_whole(t.clash_uptime));
    json::add_field(&mut es, "ovpn_rss", json::opt_whole(t.ovpn_rss));
    json::add_field(&mut es, "ovpn_uptime", json::opt_whole(t.ovpn_uptime));
    assert(json::entries(es@) =~= memory_fields(*t));
    Json::Object(es)
}

/// What processors are used.
fn cpu_json(u: &Usage) -> (r: Json)
    ensures
        r@ == Shape::Object(cpu_fields(*u)),
{
    let ghost all = u.cores@.map_values(|n: u64| json::tenths_shape(n as int));
    let mut cores: Vec<Json> = Vec::new();
    let mut i: usize = 0;
    assert(all.take(0) =~= Seq::<Shape>::empty());
    while i < u.cores.len()
        invariant
            i <= u.cores@.len(),
            all == u.cores@.map_values(|n: u64| json::tenths_shape(n as int)),
            json::shapes(cores@) == all.take(i as int),
        decreases u.cores@.len() - i,
    {
        json::push(&mut cores, json::tenths_of(u.cores[i]));
        assert(all.take(i + 1) =~= all.take(i as int).push(all[i as int]));
        i = i + 1;
    }
    assert(all.take(i as int) =~= all);
    let mut es: Vec<(String, Json)> = Vec::new();
    json::add_field(&mut es, "usage", json::tenths_of(u.cpu));
    json::add_field(&mut es, "per_core", Json::List(cores));
    json::add_field(&mut es, "sniffbox", json::tenths_of(u.own));
    json::add_field(&mut es, "clash", opt_tenths_of(u.clash));
    json::add_field(&mut es, "ovpn", opt_tenths_of(u.ovpn));
    assert(json::entries(es@) =~= cpu_fields(*u));
    Json::Object(es)
}

/// How many connections there are.
fn conns_json(s: runtime::ConnStats) -> (r: Json)
    ensures
        r@ == Shape::Object(conn_fields_of(s)),
{
    let mut es: Vec<(String, Json)> = Vec::new();
    json::add_field(&mut es, "active", json::whole_of(s.active));
    json::add_field(&mut es, "tcp", json::whole_of(s.tcp));
    json::add_field(&mut es, "udp", json::whole_of(s.udp));
    json::add_field(&mut es, "clients", json::whole_of(s.clients));
    json::add_field(&mut es, "fakeip", json::whole_of(s.fakeip));
    json::add_field(&mut es, "realip", json::whole_of(s.realip));
    assert(json::entries(es@) =~= conn_fields_of(s));
    Json::Object(es)
}

/// What connections come to, as values: each of them is counted as
/// `runtime::conn_stats` says.
pub open spec fn stats_of(v: Seq<ConnSample>, net: Option<crate::cidr::Ipv4Net>) -> runtime::ConnStats {
    let n = v.len() as int;
    runtime::ConnStats {
        active: runtime::count(v, runtime::open_conn(), n) as u64,
        tcp: runtime::count(v, runtime::open_over(records::Transport::Tcp), n) as u64,
        udp: runtime::count(v, runtime::open_over(records::Transport::Udp), n) as u64,
        clients: runtime::client_set(v, n).len() as u64,
        fakeip: runtime::count(v, runtime::open_to(net, true), n) as u64,
        realip: runtime::count(v, runtime::open_to(net, false), n) as u64,
    }
}

/// What changes while the gateway runs; `down` and `up` are the totals that were taken
/// from connections before, and `net` holds the addresses that are given out for names.
pub fn dynamic_value(
    t: &Moment,
    u: &Usage,
    down: u64,
    up: u64,
    v: &[ConnSample],
    net: Option<crate::cidr::Ipv4Net>,
) -> (r: Json)
    requires
        countable(down, up, v@),
        net matches Some(n) ==> n.wf(),
    ensures
        r@ == Shape::Object(
            dynamic_fields(
                *t,
                *u,
                down + runtime::live_down(v@, v@.len() as int),
                up + runtime::live_up(v@, v@.len() as int),
                stats_of(v@, net),
            ),
        ),
{
    let (d, w) = runtime::live_totals(down, up, v);
    let s = runtime::conn_stats(v, net);
    assert(s == stats_of(v@, net));
    let mut tr: Vec<(String, Json)> = Vec::new();
    json::add_field(&mut tr, "downloadTotal", json::whole_of(d as u64));
    json::add_field(&mut tr, "uploadTotal", json::whole_of(w as u64));
    assert(json::entries(tr@) =~= seq![
        ("downloadTotal"@, json::whole_shape(d as int)),
        ("uploadTotal"@, json::whole_shape(w as int)),
    ]);
    let mut es: Vec<(String, Json)> = Vec::new();
    json::add_field(&mut es, "timestamp", json::whole_of(t.timestamp));
    json::add_field(&mut es, "uptime", json::whole_of(t.uptime));
    json::add_field(&mut es, "memory", memory_json(t));
    json::add_field(&mut es, "cpu", cpu_json(u));
    json::add_field(&mut es, "traffic", Json::Object(tr));
    json::add_field(&mut es, "fakeip", one_field("mapped", json::opt_whole(t.mapped)));
    json::add_field(&mut es, "connections", conns_json(s));
    assert(json::entries(es@) =~= dynamic_fields(*t, *u, d as int, w as int, s));
    Json::Object(es)
}

/// What is asked for.
pub enum Info {
    /// What does not change.
    Static(Json),
    /// What changes.
    Dynamic(Json),
    /// Both.
    All(Json, Json),
}

/// What is told.
pub open spec fn info_shape(i: Info) -> Shape {
    match i {
        Info::Static(v) => v@,
        Info::Dynamic(v) => v@,
        Info::All(a, b) => json::merged(a@, b@),
    }
}

/// What is told, as a text.
pub fn info_json(i: Info) -> (r: String)
    ensures
        r@ == json::json_text(info_shape(i)),
{
    match i {
        Info::Static(v) => json::write(&v),
        Info::Dynamic(v) => json::write(&v),
        Info::All(a, b) => json::write(&json::merge_json(a, b)),
    }
}

/// A connection is listed with its own ends, each under its own name.
pub proof fn law_ends_of_a_connection(r: ConnRow, d: String)
    requires
        r.domain == Some(d),
    ensures
        ({
            let o = Shape::Object(meta_fields(r));
            &&& json::field(o, "network"@) == Some(Shape::Text(if r.sample.transport is Udp { "udp"@ } else { "tcp"@ }))
            &&& json::field(o, "type"@) == Some(Shape::Text(if r.sample.kind is Internal { "Inner"@ } else { records::inbound_text(r.inbound) }))
            &&& json::field(o, "sourceIP"@) == Some(Shape::Text(addr::ip_text(r.sample.src)))
            &&& json::field(o, "sourcePort"@) == Some(Shape::Text(text::decimal(r.src_port as int)))
            &&& json::field(o, "destinationIP"@) == Some(Shape::Text(addr::ip_text(r.sample.dst)))
            &&& json::field(o, "destinationPort"@) == Some(Shape::Text(text::decimal(r.dst_port as int)))
            &&& json::field(o, "host"@) == Some(Shape::Text(r.shown@))
            &&& json::field(o, "dnsMode"@) == Some(Shape::Text("normal"@))
            &&& json::field(o, "processPath"@) == Some(Shape::Text(""@))
            &&& json::field(o, "specialProxy"@) == Some(Shape::Text(""@))
            &&& json::field(o, "sniffHost"@) == Some(Shape::Text(d@))
        }),
{
    reveal_strlit("network");
    reveal_strlit("type");
    reveal_strlit("sourceIP");
    reveal_strlit("sourcePort");
    reveal_strlit("destinationIP");
    reveal_strlit("destinationPort");
    reveal_strlit("host");
    reveal_strlit("dnsMode");
    reveal_strlit("processPath");
    reveal_strlit("specialProxy");
    reveal_strlit("sniffHost");
    assert("network"@.len() == 7);
    assert("type"@.len() == 4);
    assert("sourceIP"@.len() == 8);
    assert("sourcePort"@.len() == 10);
    assert("destinationIP"@.len() == 13);
    assert("destinationPort"@.len() == 15);
    assert("host"@.len() == 4);
    assert("dnsMode"@.len() == 7);
    assert("processPath"@.len() == 11);
    assert("specialProxy"@.len() == 12);
    assert("sniffHost"@.len() == 9);
    assert("type"@[0] == 't' && "host"@[0] == 'h');
    assert("network"@[0] == 'n' && "dnsMode"@[0] == 'd');
    let es = meta_fields(r);
    json::law_fields_by_their_keys(es, "network"@, 0);
    json::law_fields_by_their_keys(es, "type"@, 1);
    json::law_fields_by_their_keys(es, "sourceIP"@, 2);
    json::law_fields_by_their_keys(es, "sourcePort"@, 3);
    json::law_fields_by_their_keys(es, "destinationIP"@, 4);
    json::law_fields_by_their_keys(es, "destinationPort"@, 5);
    json::law_fields_by_their_keys(es, "host"@, 6);
    json::law_fields_by_their_keys(es, "dnsMode"@, 7);
    json::law_fields_by_their_keys(es, "processPath"@, 8);
    json::law_fields_by_their_keys(es, "specialProxy"@, 9);
    json::law_fields_by_their_keys(es, "sniffHost"@, 10);
}

/// A connection is listed with what went up and what came down, each under its own name.
pub proof fn law_values_of_a_connection(r: ConnRow)
    ensures
        ({
            let o = Shape::Object(conn_fields(r));
            &&& json::field(o, "id"@) == Some(Shape::Text(text::decimal(r.id as int)))
            &&& json::field(o, "metadata"@) == Some(Shape::Object(meta_fields(r)))
            &&& json::field(o, "upload"@) == Some(Shape::Number(text::decimal(r.sample.upload as int), Some(r.sample.upload)))
            &&& json::field(o, "download"@) == Some(Shape::Number(text::decimal(r.sample.download as int), Some(r.sample.download)))
            &&& json::field(o, "start"@) == Some(Shape::Text(civil::moment(r.created_ms as int)))
            &&& json::field(o, "chains"@) == Some(Shape::List(Seq::empty()))
            &&& json::field(o, "rule"@) == Some(Shape::Text(""@))
            &&& json::field(o, "rulePayload"@) == Some(Shape::Text(""@))
        }),
{
    reveal_strlit("id");
    reveal_strlit("metadata");
    reveal_strlit("upload");
    reveal_strlit("download");
    reveal_strlit("start");
    reveal_strlit("chains");
    reveal_strlit("rule");
    reveal_strlit("rulePayload");
    assert("id"@.len() == 2);
    assert("metadata"@.len() == 8);
    assert("upload"@.len() == 6);
    assert("download"@.len() == 8);
    assert("start"@.len() == 5);
    assert("chains"@.len() == 6);
    assert("rule"@.len() == 4);
    assert("rulePayload"@.len() == 11);
    assert("metadata"@[0] == 'm' && "download"@[0] == 'd');
    assert("upload"@[0] == 'u' && "chains"@[0] == 'c');
    let es = conn_fields(r);
    json::law_fields_by_their_keys(es, "id"@, 0);
    json::law_fields_by_their_keys(es, "metadata"@, 1);
    json::law_fields_by_their_keys(es, "upload"@, 2);
    json::law_fields_by_their_keys(es, "download"@, 3);
    json::law_fields_by_their_keys(es, "start"@, 4);
    json::law_fields_by_their_keys(es, "chains"@, 5);
    json::law_fields_by_their_keys(es, "rule"@, 6);
    json::law_fields_by_their_keys(es, "rulePayload"@, 7);
}

/// The connections that are listed are those that are open, in their order.
pub proof fn law_open_connections_are_listed(v: Seq<ConnRow>, n: int)
    requires
        0 <= n < v.len(),
    ensures
        v[n].sample.closed ==> open_run(v, n + 1) == open_run(v, n),
        !v[n].sample.closed ==> open_run(v, n + 1) == open_run(v, n).push(
            Shape::Object(conn_fields(v[n])),
        ),
        open_run(v, 0) == Seq::<Shape>::empty(),
{
}

/// A listing holds both totals, each with what the open connections add to it.
pub proof fn law_totals_of_a_listing(down: u64, up: u64, v: Seq<ConnRow>)
    requires
        countable(down, up, samples(v)),
    ensures
        ({
            let o = Shape::Object(listing(down, up, v));
            &&& json::field(o, "downloadTotal"@) == Some(Shape::Number(text::decimal((down + runtime::live_down(samples(v), samples(v).len() as int)) as u64 as int), Some((down + runtime::live_down(samples(v), samples(v).len() as int)) as u64)))
            &&& json::field(o, "uploadTotal"@) == Some(Shape::Number(text::decimal((up + runtime::live_up(samples(v), samples(v).len() as int)) as u64 as int), Some((up + runtime::live_up(samples(v), samples(v).len() as int)) as u64)))
            &&& json::field(o, "connections"@) == Some(Shape::List(open_run(v, v.len() as int)))
        }),
{
    reveal_strlit("downloadTotal");
    reveal_strlit("uploadTotal");
    reveal_strlit("connections");
    assert("downloadTotal"@.len() == 13);
    assert("uploadTotal"@.len() == 11);
    assert("connections"@.len() == 11);
    assert("uploadTotal"@[0] == 'u' && "connections"@[0] == 'c');
    let es = listing(down, up, v);
    lemma_live_nonneg(samples(v), samples(v).len() as int);
    json::law_fields_by_their_keys(es, "downloadTotal"@, 0);
    json::law_fields_by_their_keys(es, "uploadTotal"@, 1);
    json::law_fields_by_their_keys(es, "connections"@, 2);
}

/// What live connections carried is never below nothing.
proof fn lemma_live_nonneg(v: Seq<ConnSample>, n: int)
    requires
        0 <= n <= v.len(),
    ensures
        runtime::live_up(v, n) >= 0,
        runtime::live_down(v, n) >= 0,
    decreases n,
{
    if n > 0 {
        lemma_live_nonneg(v, n - 1);
    }
}

/// A card is told with its own addresses.
pub proof fn law_values_of_a_card(i: Iface, mac: String, gateway: String)
    requires
        i.mac == Some(mac),
        i.gateway == Some(gateway),
    ensures
        ({
            let o = Shape::Object(iface_fields(i));
            &&& json::field(o, "name"@) == Some(Shape::Text(i.name@))
            &&& json::field(o, "ipv4"@) == Some(Shape::List(json::text_shapes(text::strings(i.ipv4@))))
            &&& json::field(o, "ipv6"@) == Some(Shape::List(json::text_shapes(text::strings(i.ipv6@))))
            &&& json::field(o, "mac"@) == Some(Shape::Text(mac@))
            &&& json::field(o, "gateway"@) == Some(Shape::Text(gateway@))
        }),
{
    reveal_strlit("name");
    reveal_strlit("ipv4");
    reveal_strlit("ipv6");
    reveal_strlit("mac");
    reveal_strlit("gateway");
    assert("name"@.len() == 4);
    assert("ipv4"@.len() == 4);
    assert("ipv6"@.len() == 4);
    assert("mac"@.len() == 3);
    assert("gateway"@.len() == 7);
    assert("name"@[0] == 'n' && "ipv4"@[0] == 'i');
    assert("name"@[0] == 'n' && "ipv6"@[0] == 'i');
    assert("ipv4"@[3] == '4' && "ipv6"@[3] == '6');
    let es = iface_fields(i);
    json::law_fields_by_their_keys(es, "name"@, 0);
    json::law_fields_by_their_keys(es, "ipv4"@, 1);
    json::law_fields_by_their_keys(es, "ipv6"@, 2);
    json::law_fields_by_their_keys(es, "mac"@, 3);
    json::law_fields_by_their_keys(es, "gateway"@, 4);
}

/// The server that is trusted is the one that is set, on its port or on the usual one, and
/// without one the one in use.
pub proof fn law_trusted_server(
    env: Surroundings,
    file: Seq<char>,
    server: Option<SocketAddr>,
    ip: Seq<char>,
    port: u16,
)
    requires
        ip.len() > 0,
        !text::is_space(ip[0]) && !text::is_space(ip.last()),
    ensures
        ({
            let set = said(env.dns_ip, file, "dns_ip"@);
            let on = said(env.dns_port, file, "dns_port"@);
            let r = trusted(env, file, server);
            &&& set == Some(ip) ==> json::field(r, "ip"@) == Some(Shape::Text(ip))
            &&& set == Some(ip) && on == Some(text::decimal(port as int)) ==> json::field(
                r,
                "port"@,
            ) == Some(Shape::Number(text::decimal(port as int), Some(port as u64)))
            &&& set == Some(ip) && on is None ==> json::field(r, "port"@) == Some(
                Shape::Number(text::decimal(53), Some(53)),
            )
            &&& set is None && server is None ==> r == Shape::Null
            &&& set is None && server is Some ==> json::field(r, "ip"@) == Some(
                Shape::Text(addr::ip_text(server->0.ip)),
            ) && json::field(r, "port"@) == Some(
                Shape::Number(
                    text::decimal(server->0.port as int),
                    Some(server->0.port as u64),
                ),
            )
        }),
{
    let e = Seq::<char>::empty();
    text::law_trimming(e, ip, e);
    let d = text::decimal(port as int);
    text::law_number_round_trip(port as int, 65535);
    assert(!text::is_space(d[0]) && !text::is_space(d[d.len() - 1]));
    text::law_trimming(e, d, e);
    reveal_strlit("ip");
    reveal_strlit("port");
    assert("ip"@.len() == 2 && "port"@.len() == 4);
    let r = trusted(env, file, server);
    if r is Object {
        json::law_fields_by_their_keys(r->Object_0, "ip"@, 0);
        json::law_fields_by_their_keys(r->Object_0, "port"@, 1);
    }
}

/// The mode that is shown is the one that is set, and without one the one in use.
pub proof fn law_shown_mode(env: Surroundings, stat: InfoStatic, mode: String)
    requires
        mode@.len() > 0,
        !text::is_space(mode@[0]) && !text::is_space(mode@.last()),
    ensures
        env.mode == Some(mode) ==> mode_shown(env, stat) == mode@,
        env.mode is None ==> mode_shown(env, stat) == runtime::mode_text(stat.mode),
{
    let e = Seq::<char>::empty();
    text::law_trimming(e, mode@, e);
}

/// A subscription is shown where the mode is the one for it and the address is marked.
pub proof fn law_shown_subscription(env: Surroundings, file: Seq<char>, stat: InfoStatic)
    ensures
        subscribes(env, file, stat) <==> mode_shown(env, stat) == "suburl"@ && runtime::is_ppsub(
            said(env.suburl, file, "suburl"@),
        ),
{
}

/// The servers for names are shown by where they come from.
pub proof fn law_shown_servers(env: Surroundings, file: Seq<char>, m: Machine, stat: InfoStatic)
    ensures
        ({
            let o = Shape::Object(dns_fields(env, file, m, stat));
            &&& json::field(o, "trusted"@) == Some(trusted(env, file, stat.dns_resolver))
            &&& json::field(o, "ex_dns"@) == Some(Shape::List(json::text_shapes(others(env, file))))
            &&& json::field(o, "system"@) == Some(Shape::List(json::text_shapes(text::strings(m.nameservers@))))
        }),
{
    reveal_strlit("trusted");
    reveal_strlit("ex_dns");
    reveal_strlit("system");
    assert("trusted"@.len() == 7);
    assert("ex_dns"@.len() == 6);
    assert("system"@.len() == 6);
    assert("ex_dns"@[0] == 'e' && "system"@[0] == 's');
    let es = dns_fields(env, file, m, stat);
    json::law_fields_by_their_keys(es, "trusted"@, 0);
    json::law_fields_by_their_keys(es, "ex_dns"@, 1);
    json::law_fields_by_their_keys(es, "system"@, 2);
}

/// What is switched on is shown by its own name.
pub proof fn law_shown_features(
    env: Surroundings,
    file: Seq<char>,
    stat: InfoStatic,
    shared: runtime::SharedView,
)
    requires
        0 <= shared.max_rec <= u64::MAX,
        0 <= shared.net_cleanday <= u64::MAX,
    ensures
        ({
            let o = Shape::Object(feature_fields(env, file, stat, shared));
            &&& json::field(o, "dns_burn"@) == Some(Shape::Bool(runtime::truth(said(env.dns_burn, file, "dns_burn"@))))
            &&& json::field(o, "net_rec"@) == Some(Shape::Bool(stat.net_rec))
            &&& json::field(o, "openport"@) == Some(Shape::Bool(stat.openport_enabled))
            &&& json::field(o, "openport_port"@) == Some(Shape::Number(text::decimal(stat.openport_port as int), Some(stat.openport_port as u64)))
            &&& json::field(o, "udp_enable"@) == Some(Shape::Bool(stat.udp_enable))
            &&& json::field(o, "max_rec"@) == Some(Shape::Number(text::decimal(shared.max_rec as int), Some(shared.max_rec as u64)))
            &&& json::field(o, "net_cleanday"@) == Some(Shape::Number(text::decimal(shared.net_cleanday as int), Some(shared.net_cleanday as u64)))
        }),
{
    reveal_strlit("dns_burn");
    reveal_strlit("net_rec");
    reveal_strlit("openport");
    reveal_strlit("openport_port");
    reveal_strlit("udp_enable");
    reveal_strlit("max_rec");
    reveal_strlit("net_cleanday");
    assert("dns_burn"@.len() == 8);
    assert("net_rec"@.len() == 7);
    assert("openport"@.len() == 8);
    assert("openport_port"@.len() == 13);
    assert("udp_enable"@.len() == 10);
    assert("max_rec"@.len() == 7);
    assert("net_cleanday"@.len() == 12);
    assert("dns_burn"@[0] == 'd' && "openport"@[0] == 'o');
    assert("net_rec"@[0] == 'n' && "max_rec"@[0] == 'm');
    let es = feature_fields(env, file, stat, shared);
    json::law_fields_by_their_keys(es, "dns_burn"@, 0);
    json::law_fields_by_their_keys(es, "net_rec"@, 1);
    json::law_fields_by_their_keys(es, "openport"@, 2);
    json::law_fields_by_their_keys(es, "openport_port"@, 3);
    json::law_fields_by_their_keys(es, "udp_enable"@, 4);
    json::law_fields_by_their_keys(es, "max_rec"@, 5);
    json::law_fields_by_their_keys(es, "net_cleanday"@, 6);
}

/// What is blocked is shown by its own name.
pub proof fn law_shown_blocks(f: runtime::RouteFlags)
    ensures
        ({
            let o = Shape::Object(route_fields(f));
            &&& json::field(o, "block_bittorrent"@) == Some(Shape::Bool(f.block_bittorrent))
            &&& json::field(o, "block_quic"@) == Some(Shape::Bool(f.block_quic))
            &&& json::field(o, "block_unknown"@) == Some(Shape::Bool(f.block_unknown))
        }),
{
    reveal_strlit("block_bittorrent");
    reveal_strlit("block_quic");
    reveal_strlit("block_unknown");
    assert("block_bittorrent"@.len() == 16);
    assert("block_quic"@.len() == 10);
    assert("block_unknown"@.len() == 13);
    let es = route_fields(f);
    json::law_fields_by_their_keys(es, "block_bittorrent"@, 0);
    json::law_fields_by_their_keys(es, "block_quic"@, 1);
    json::law_fields_by_their_keys(es, "block_unknown"@, 2);
}

/// The nets that may manage and those that may go through are shown each by itself.
pub proof fn law_shown_nets(shared: runtime::SharedView)
    ensures
        ({
            let o = Shape::Object(acl_fields(shared));
            &&& json::field(o, "admin_cidr"@) == Some(Shape::List(json::text_shapes(runtime::net_texts(shared.admin_acl))))
            &&& json::field(o, "proxy_cidr"@) == Some(Shape::List(json::text_shapes(runtime::net_texts(shared.proxy_acl))))
        }),
{
    reveal_strlit("admin_cidr");
    reveal_strlit("proxy_cidr");
    assert("admin_cidr"@.len() == 10);
    assert("proxy_cidr"@.len() == 10);
    assert("admin_cidr"@[0] == 'a' && "proxy_cidr"@[0] == 'p');
    let es = acl_fields(shared);
    json::law_fields_by_their_keys(es, "admin_cidr"@, 0);
    json::law_fields_by_their_keys(es, "proxy_cidr"@, 1);
}

/// The memory and the time of each program are shown by its own name.
pub proof fn law_shown_memory(t: Moment, a: u64, b: u64, c: u64, d: u64, e: u64)
    requires
        t.own_uptime == Some(a),
        t.clash_rss == Some(b),
        t.clash_uptime == Some(c),
        t.ovpn_rss == Some(d),
        t.ovpn_uptime == Some(e),
    ensures
        ({
            let o = Shape::Object(memory_fields(t));
            &&& json::field(o, "available"@) == Some(Shape::Number(text::decimal(t.available as int), Some(t.available)))
            &&& json::field(o, "sniffbox_rss"@) == Some(Shape::Number(text::decimal(t.own_rss as int), Some(t.own_rss)))
            &&& json::field(o, "sniffbox_uptime"@) == Some(Shape::Number(text::decimal(a as int), Some(a)))
            &&& json::field(o, "clash_rss"@) == Some(Shape::Number(text::decimal(b as int), Some(b)))
            &&& json::field(o, "clash_uptime"@) == Some(Shape::Number(text::decimal(c as int), Some(c)))
            &&& json::field(o, "ovpn_rss"@) == Some(Shape::Number(text::decimal(d as int), Some(d)))
            &&& json::field(o, "ovpn_uptime"@) == Some(Shape::Number(text::decimal(e as int), Some(e)))
        }),
{
    reveal_strlit("available");
    reveal_strlit("sniffbox_rss");
    reveal_strlit("sniffbox_uptime");
    reveal_strlit("clash_rss");
    reveal_strlit("clash_uptime");
    reveal_strlit("ovpn_rss");
    reveal_strlit("ovpn_uptime");
    assert("available"@.len() == 9);
    assert("sniffbox_rss"@.len() == 12);
    assert("sniffbox_uptime"@.len() == 15);
    assert("clash_rss"@.len() == 9);
    assert("clash_uptime"@.len() == 12);
    assert("ovpn_rss"@.len() == 8);
    assert("ovpn_uptime"@.len() == 11);
    assert("available"@[0] == 'a' && "clash_rss"@[0] == 'c');
    assert("sniffbox_rss"@[0] == 's' && "clash_uptime"@[0] == 'c');
    let es = memory_fields(t);
    json::law_fields_by_their_keys(es, "available"@, 0);
    json::law_fields_by_their_keys(es, "sniffbox_rss"@, 1);
    json::law_fields_by_their_keys(es, "sniffbox_uptime"@, 2);
    json::law_fields_by_their_keys(es, "clash_rss"@, 3);
    json::law_fields_by_their_keys(es, "clash_uptime"@, 4);
    json::law_fields_by_their_keys(es, "ovpn_rss"@, 5);
    json::law_fields_by_their_keys(es, "ovpn_uptime"@, 6);
}

/// What each program takes of the processor is shown by its own name.
pub proof fn law_shown_usage(u: Usage, a: u64, b: u64)
    requires
        u.clash == Some(a),
        u.ovpn == Some(b),
    ensures
        ({
            let o = Shape::Object(cpu_fields(u));
            &&& json::field(o, "usage"@) == Some(json::tenths_shape(u.cpu as int))
            &&& json::field(o, "per_core"@) == Some(Shape::List(u.cores@.map_values(|n: u64| json::tenths_shape(n as int))))
            &&& json::field(o, "sniffbox"@) == Some(json::tenths_shape(u.own as int))
            &&& json::field(o, "clash"@) == Some(json::tenths_shape(a as int))
            &&& json::field(o, "ovpn"@) == Some(json::tenths_shape(b as int))
        }),
{
    reveal_strlit("usage");
    reveal_strlit("per_core");
    reveal_strlit("sniffbox");
    reveal_strlit("clash");
    reveal_strlit("ovpn");
    assert("usage"@.len() == 5);
    assert("per_core"@.len() == 8);
    assert("sniffbox"@.len() == 8);
    assert("clash"@.len() == 5);
    assert("ovpn"@.len() == 4);
    assert("per_core"@[0] == 'p' && "sniffbox"@[0] == 's');
    assert("usage"@[0] == 'u' && "clash"@[0] == 'c');
    let es = cpu_fields(u);
    json::law_fields_by_their_keys(es, "usage"@, 0);
    json::law_fields_by_their_keys(es, "per_core"@, 1);
    json::law_fields_by_their_keys(es, "sniffbox"@, 2);
    json::law_fields_by_their_keys(es, "clash"@, 3);
    json::law_fields_by_their_keys(es, "ovpn"@, 4);
}

/// Connections are counted by their own names.
pub proof fn law_shown_counts(s: runtime::ConnStats)
    ensures
        ({
            let o = Shape::Object(conn_fields_of(s));
            &&& json::field(o, "active"@) == Some(json::whole_shape(s.active as int))
            &&& json::field(o, "tcp"@) == Some(json::whole_shape(s.tcp as int))
            &&& json::field(o, "udp"@) == Some(json::whole_shape(s.udp as int))
            &&& json::field(o, "clients"@) == Some(json::whole_shape(s.clients as int))
            &&& json::field(o, "fakeip"@) == Some(json::whole_shape(s.fakeip as int))
            &&& json::field(o, "realip"@) == Some(json::whole_shape(s.realip as int))
        }),
{
    reveal_strlit("active");
    reveal_strlit("tcp");
    reveal_strlit("udp");
    reveal_strlit("clients");
    reveal_strlit("fakeip");
    reveal_strlit("realip");
    assert("active"@.len() == 6);
    assert("tcp"@.len() == 3);
    assert("udp"@.len() == 3);
    assert("clients"@.len() == 7);
    assert("fakeip"@.len() == 6);
    assert("realip"@.len() == 6);
    assert("tcp"@[0] == 't' && "udp"@[0] == 'u');
    assert("active"@[0] == 'a' && "fakeip"@[0] == 'f');
    assert("active"@[0] == 'a' && "realip"@[0] == 'r');
    assert("fakeip"@[0] == 'f' && "realip"@[0] == 'r');
    let es = conn_fields_of(s);
    json::law_fields_by_their_keys(es, "active"@, 0);
    json::law_fields_by_their_keys(es, "tcp"@, 1);
    json::law_fields_by_their_keys(es, "udp"@, 2);
    json::law_fields_by_their_keys(es, "clients"@, 3);
    json::law_fields_by_their_keys(es, "fakeip"@, 4);
    json::law_fields_by_their_keys(es, "realip"@, 5);
}

/// What took its time of the processor: all time but that at rest.
pub proof fn law_shares_of_time(
    all: u128,
    rest: u128,
    more: u128,
    idle: u128,
    a: u128,
    b: u128,
    pid: u32,
    other: u32,
)
    requires
        idle <= more,
        all + more <= u128::MAX,
        rest + idle <= u128::MAX,
        a <= b,
    ensures
        busy((all, rest), ((all + more) as u128, (rest + idle) as u128)) == (Share {
            part: (more - idle) as u128,
            whole: more,
        }),
        share_of(a, b, all).whole == all,
        b - a <= all ==> share_of(a, b, all).part == b - a,
        b - a > all ==> share_of(a, b, all).part == all,
        share_of(b, a, all).part == 0,
        share_of_process(Some((pid, a)), Some((pid, b)), all) == share_of(a, b, all),
        pid != other ==> share_of_process(Some((pid, a)), Some((other, b)), all) == (Share {
            part: 0,
            whole: 0,
        }),
        share_of_process(None, Some((pid, b)), all) == (Share { part: 0, whole: 0 }),
{
}

/// Each core is compared with itself, and nothing is shown where their number changed.
pub proof fn law_shares_of_cores(from: Seq<(u128, u128)>, to: Seq<(u128, u128)>, i: int)
    ensures
        from.len() != to.len() ==> busy_cores(from, to).len() == 0,
        from.len() == to.len() ==> busy_cores(from, to).len() == to.len(),
        from.len() == to.len() && 0 <= i < to.len() ==> busy_cores(from, to)[i] == busy(
            from[i],
            to[i],
        ),
{
}

/// Both kinds of what is shown are laid one over the other.
pub proof fn law_all_is_both(a: Json, b: Json)
    ensures
        info_shape(Info::Static(a)) == a@,
        info_shape(Info::Dynamic(b)) == b@,
        info_shape(Info::All(a, b)) == json::merged(a@, b@),
{
}

/// What does not change is shown by its own name.
#[verifier::rlimit(80)]
pub proof fn law_shown_of_the_machine(
    env: Surroundings,
    file: Seq<char>,
    m: Machine,
    stat: InfoStatic,
    shared: runtime::SharedView,
    v: ClashVersion,
    a: SocketAddr,
    net: String,
)
    requires
        m.clash == Some(v),
        stat.pplog == Some(a),
        m.fakeip_cidr == Some(net),
    ensures
        ({
            let o = Shape::Object(static_fields(env, file, m, stat, shared));
            &&& json::field(o, "version"@) == Some(Shape::Text(m.version@))
            &&& json::field(o, "clash_version"@) == Some(Shape::Text(v.version@))
            &&& json::field(o, "clash_meta"@) == Some(Shape::Bool(v.meta))
            &&& json::field(o, "mode"@) == Some(Shape::Text(mode_shown(env, stat)))
            &&& json::field(o, "ppsub"@) == Some(Shape::Bool(subscribes(env, file, stat)))
            &&& json::field(o, "kernel"@) == Some(Shape::Text(m.kernel@))
            &&& json::field(o, "memory"@) == Some(Shape::Object(seq![("total"@, json::whole_shape(m.mem_total as int))]))
            &&& json::field(o, "cpu"@) == Some(Shape::Object(seq![("model"@, Shape::Text(m.cpu_model@)), ("cores"@, json::whole_shape(m.cpu_cores as int))]))
            &&& json::field(o, "interfaces"@) == Some(Shape::List(ifaces_run(m.ifaces@, m.ifaces@.len() as int)))
            &&& json::field(o, "dns"@) == Some(Shape::Object(dns_fields(env, file, m, stat)))
            &&& json::field(o, "features"@) == Some(Shape::Object(feature_fields(env, file, stat, shared)))
            &&& json::field(o, "route"@) == Some(Shape::Object(route_fields(shared.route)))
            &&& json::field(o, "acl"@) == Some(Shape::Object(acl_fields(shared)))
            &&& json::field(o, "fakeip"@) == Some(Shape::Object(seq![("cidr"@, Shape::Text(net@))]))
            &&& json::field(o, "pplog"@) == Some(Shape::Text(addr::socket_text(a)))
        }),
{
    reveal_strlit("version");
    reveal_strlit("clash_version");
    reveal_strlit("clash_meta");
    reveal_strlit("mode");
    reveal_strlit("ppsub");
    reveal_strlit("kernel");
    reveal_strlit("memory");
    reveal_strlit("cpu");
    reveal_strlit("interfaces");
    reveal_strlit("dns");
    reveal_strlit("features");
    reveal_strlit("route");
    reveal_strlit("acl");
    reveal_strlit("fakeip");
    reveal_strlit("pplog");
    assert("version"@.len() == 7);
    assert("clash_version"@.len() == 13);
    assert("clash_meta"@.len() == 10);
    assert("mode"@.len() == 4);
    assert("ppsub"@.len() == 5);
    assert("kernel"@.len() == 6);
    assert("memory"@.len() == 6);
    assert("cpu"@.len() == 3);
    assert("interfaces"@.len() == 10);
    assert("dns"@.len() == 3);
    assert("features"@.len() == 8);
    assert("route"@.len() == 5);
    assert("acl"@.len() == 3);
    assert("fakeip"@.len() == 6);
    assert("pplog"@.len() == 5);
    assert("kernel"@[0] == 'k' && "memory"@[0] == 'm');
    assert("clash_meta"@[0] == 'c' && "interfaces"@[0] == 'i');
    assert("cpu"@[0] == 'c' && "dns"@[0] == 'd');
    assert("ppsub"@[0] == 'p' && "route"@[0] == 'r');
    assert("cpu"@[0] == 'c' && "acl"@[0] == 'a');
    assert("dns"@[0] == 'd' && "acl"@[0] == 'a');
    assert("kernel"@[0] == 'k' && "fakeip"@[0] == 'f');
    assert("memory"@[0] == 'm' && "fakeip"@[0] == 'f');
    assert("ppsub"@[2] == 's' && "pplog"@[2] == 'l');
    assert("route"@[0] == 'r' && "pplog"@[0] == 'p');
    let es = static_fields(env, file, m, stat, shared);
    json::law_fields_by_their_keys(es, "version"@, 0);
    json::law_fields_by_their_keys(es, "clash_version"@, 1);
    json::law_fields_by_their_keys(es, "clash_meta"@, 2);
    json::law_fields_by_their_keys(es, "mode"@, 3);
    json::law_fields_by_their_keys(es, "ppsub"@, 4);
    json::law_fields_by_their_keys(es, "kernel"@, 5);
    json::law_fields_by_their_keys(es, "memory"@, 6);
    json::law_fields_by_their_keys(es, "cpu"@, 7);
    json::law_fields_by_their_keys(es, "interfaces"@, 8);
    json::law_fields_by_their_keys(es, "dns"@, 9);
    json::law_fields_by_their_keys(es, "features"@, 10);
    json::law_fields_by_their_keys(es, "route"@, 11);
    json::law_fields_by_their_keys(es, "acl"@, 12);
    json::law_fields_by_their_keys(es, "fakeip"@, 13);
    json::law_fields_by_their_keys(es, "pplog"@, 14);
}

/// What changes is shown by its own name, what came down and what went up each by itself.
pub proof fn law_shown_of_the_moment(
    t: Moment,
    u: Usage,
    down: int,
    up: int,
    s: runtime::ConnStats,
    n: u64,
)
    requires
        t.mapped == Some(n),
    ensures
        ({
            let o = Shape::Object(dynamic_fields(t, u, down, up, s));
            &&& json::field(o, "timestamp"@) == Some(json::whole_shape(t.timestamp as int))
            &&& json::field(o, "uptime"@) == Some(json::whole_shape(t.uptime as int))
            &&& json::field(o, "memory"@) == Some(Shape::Object(memory_fields(t)))
            &&& json::field(o, "cpu"@) == Some(Shape::Object(cpu_fields(u)))
            &&& json::field(o, "traffic"@) == Some(Shape::Object(seq![("downloadTotal"@, json::whole_shape(down)), ("uploadTotal"@, json::whole_shape(up))]))
            &&& json::field(o, "fakeip"@) == Some(Shape::Object(seq![("mapped"@, json::whole_shape(n as int))]))
            &&& json::field(o, "connections"@) == Some(Shape::Object(conn_fields_of(s)))
        }),
{
    reveal_strlit("timestamp");
    reveal_strlit("uptime");
    reveal_strlit("memory");
    reveal_strlit("cpu");
    reveal_strlit("traffic");
    reveal_strlit("fakeip");
    reveal_strlit("connections");
    assert("timestamp"@.len() == 9);
    assert("uptime"@.len() == 6);
    assert("memory"@.len() == 6);
    assert("cpu"@.len() == 3);
    assert("traffic"@.len() == 7);
    assert("fakeip"@.len() == 6);
    assert("connections"@.len() == 11);
    assert("uptime"@[0] == 'u' && "memory"@[0] == 'm');
    assert("uptime"@[0] == 'u' && "fakeip"@[0] == 'f');
    assert("memory"@[0] == 'm' && "fakeip"@[0] == 'f');
    let es = dynamic_fields(t, u, down, up, s);
    json::law_fields_by_their_keys(es, "timestamp"@, 0);
    json::law_fields_by_their_keys(es, "uptime"@, 1);
    json::law_fields_by_their_keys(es, "memory"@, 2);
    json::law_fields_by_their_keys(es, "cpu"@, 3);
    json::law_fields_by_their_keys(es, "traffic"@, 4);
    json::law_fields_by_their_keys(es, "fakeip"@, 5);
    json::law_fields_by_their_keys(es, "connections"@, 6);
}

/// Each count is that of its own kind of connection.
pub proof fn law_counts_by_kind(v: Seq<ConnSample>, net: Option<crate::cidr::Ipv4Net>)
    requires
        v.len() <= u64::MAX,
    ensures
        ({
            let s = stats_of(v, net);
            let n = v.len() as int;
            &&& s.active == runtime::count(v, runtime::open_conn(), n)
            &&& s.tcp == runtime::count(v, runtime::open_over(records::Transport::Tcp), n)
            &&& s.udp == runtime::count(v, runtime::open_over(records::Transport::Udp), n)
            &&& s.fakeip == runtime::count(v, runtime::open_to(net, true), n)
            &&& s.realip == runtime::count(v, runtime::open_to(net, false), n)
            &&& s.active == s.tcp + s.udp
            &&& s.fakeip + s.realip <= s.active
        }),
{
    lemma_counts(v, net, v.len() as int);
}

/// The counts of the kinds make up the whole.
proof fn lemma_counts(v: Seq<ConnSample>, net: Option<crate::cidr::Ipv4Net>, n: int)
    requires
        0 <= n <= v.len(),
    ensures
        0 <= runtime::count(v, runtime::open_to(net, true), n),
        0 <= runtime::count(v, runtime::open_to(net, false), n),
        0 <= runtime::count(v, runtime::open_over(records::Transport::Tcp), n),
        0 <= runtime::count(v, runtime::open_over(records::Transport::Udp), n),
        runtime::count(v, runtime::open_conn(), n) <= n,
        runtime::count(v, runtime::open_conn(), n) == runtime::count(
            v,
            runtime::open_over(records::Transport::Tcp),
            n,
        ) + runtime::count(v, runtime::open_over(records::Transport::Udp), n),
        runtime::count(v, runtime::open_to(net, true), n) + runtime::count(
            v,
            runtime::open_to(net, false),
            n,
        ) <= runtime::count(v, runtime::open_conn(), n),
    decreases n,
{
    if n > 0 {
        lemma_counts(v, net, n - 1);
    }
}

} // verus!
