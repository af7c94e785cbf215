use serde_json::Value;
use sniffbox::addr::IpAddr;
use sniffbox::cidr::Ipv4Net;
use sniffbox::config::{AclCfg, CidrAcl, Config, RouteCfg, StatsCfg};
use sniffbox::info::{
    connections_snapshot, dynamic_value, info_json, static_value, ConnRow, Info, InfoSample, Machine,
    Moment, Share, Surroundings, Usage,
};
use sniffbox::json::{merge_json, Json};
use sniffbox::records::{ConnSample, InboundKind, RecordKind, Transport};
use sniffbox::runtime::{live_totals, InfoStatic, SharedState};
use sniffbox::sysinfo::{interfaces, uptime_secs, ClashVersion, HwFacts, IfEntry, LinkAddr};
use sniffbox::table::Table;

fn cfg(bt: bool) -> Config {
    let mut c = Config::defaults(4);
    c.route = RouteCfg {
        block_bittorrent: bt,
        block_quic: false,
        block_unknown: false,
        log_sniffed: true,
    };
    c
}

fn ip(s: &str) -> IpAddr {
    IpAddr::parse(s).unwrap()
}

fn sample(up: u64, down: u64) -> ConnSample {
    ConnSample {
        kind: RecordKind::Client,
        transport: Transport::Tcp,
        closed: false,
        src: ip("10.0.0.9"),
        dst: ip("1.1.1.1"),
        upload: up,
        download: down,
        drained_up: 0,
        drained_down: 0,
    }
}

fn row(s: ConnSample) -> ConnRow {
    ConnRow {
        id: 7,
        sample: s,
        inbound: InboundKind::TProxy,
        src_port: 5555,
        dst_port: 443,
        shown: "example.com".to_string(),
        domain: Some("example.com".to_string()),
        created_ms: 1_609_459_323_456,
    }
}

fn nowhere() -> Surroundings {
    Surroundings {
        mode: None,
        suburl: None,
        dns_ip: None,
        dns_port: None,
        ex_dns: None,
        dns_burn: None,
    }
}

fn machine() -> Machine {
    Machine {
        version: "1.0".to_string(),
        clash: None,
        kernel: "6.1".to_string(),
        mem_total: 1024,
        cpu_model: "chip".to_string(),
        cpu_cores: 4,
        ifaces: interfaces(&entries(), &Table::new(), &Table::new()),
        nameservers: vec!["1.1.1.1".to_string()],
        fakeip_cidr: None,
    }
}

fn moment() -> Moment {
    Moment {
        timestamp: 1_700_000_000,
        uptime: 90,
        available: 512,
        own_rss: 64,
        own_uptime: Some(80),
        clash_rss: None,
        clash_uptime: None,
        ovpn_rss: None,
        ovpn_uptime: None,
        mapped: None,
    }
}

fn usage() -> Usage {
    Usage { cpu: 125, cores: vec![0, 1000], own: 3, clash: Some(40), ovpn: None }
}

fn entry(name: &str, loopback: bool, addr: LinkAddr) -> IfEntry {
    IfEntry { name: name.to_string(), loopback, addr }
}

fn entries() -> Vec<IfEntry> {
    vec![
        entry("lo", true, LinkAddr::V4(0x7f00_0001, Some(0xff00_0000))),
        entry("wan", false, LinkAddr::Hardware(vec![0, 1, 2, 0xab, 0xcd, 0xef])),
        entry("eth0", false, LinkAddr::V4(0xc0a8_0102, Some(0xffff_ff00))),
        entry("wan", false, LinkAddr::V6(1, None)),
        entry("eth0", false, LinkAddr::V4(0x0a00_0001, None)),
        entry("eth0", false, LinkAddr::Hardware(vec![1, 2])),
        entry("tun0", false, LinkAddr::Other),
    ]
}

fn fixed(c: &Config) -> Value {
    let shared = SharedState::new(c);
    let v = static_value(&nowhere(), "", &machine(), &InfoStatic::from_cfg(c), &shared);
    serde_json::from_str(&info_json(Info::Static(v))).expect("static valid JSON")
}

fn changing(taken: (u64, u64), v: &[ConnSample]) -> Json {
    dynamic_value(&moment(), &usage(), taken.0, taken.1, v, None)
}

#[test]
fn info_dynamic_traffic_totals_are_live_not_flush_lagged() {
    let dyn_totals = |taken: (u64, u64), v: &[ConnSample]| -> (u64, u64) {
        let v: Value = serde_json::from_str(&info_json(Info::Dynamic(changing(taken, v)))).unwrap();
        (
            v["traffic"]["downloadTotal"].as_u64().unwrap(),
            v["traffic"]["uploadTotal"].as_u64().unwrap(),
        )
    };
    assert_eq!(dyn_totals((0, 0), &[]), (0, 0));
    let mut rec = sample(2_000_000, 100_000_000);
    assert_eq!(
        dyn_totals((0, 0), &[rec]),
        (100_000_000, 2_000_000),
        "totals must reflect undrained increments"
    );
    rec.download = 200_000_000;
    assert_eq!(dyn_totals((0, 0), &[rec]).0, 200_000_000);
    rec.drained_up = rec.upload;
    rec.drained_down = rec.download;
    assert_eq!(
        dyn_totals((200_000_000, 2_000_000), &[rec]),
        (200_000_000, 2_000_000),
        "totals monotonically consistent before and after settlement"
    );
    assert_eq!(live_totals(200_000_000, 2_000_000, &[rec]), (200_000_000, 2_000_000));
}

#[test]
fn web_info_json_is_valid_and_complete() {
    let sv = fixed(&cfg(true));
    for key in [
        "version",
        "mode",
        "ppsub",
        "kernel",
        "memory",
        "cpu",
        "interfaces",
        "dns",
        "features",
        "route",
        "acl",
        "fakeip",
    ] {
        assert!(sv.get(key).is_some(), "static missing {key}: {sv}");
    }
    assert!(!sv["mode"].as_str().unwrap().contains('@'), "mode must be bare: {sv}");
    assert_eq!(sv["route"]["block_bittorrent"], Value::Bool(true), "cfg(true) blocks BT");
    assert_eq!(sv["route"]["block_quic"], Value::Bool(false));
    assert!(sv["acl"]["admin_cidr"].as_array().unwrap().is_empty(), "no acl allows all");
    assert!(sv["acl"]["proxy_cidr"].as_array().unwrap().is_empty());
    assert_eq!(sv["features"]["net_rec"], Value::Bool(false));
    assert!(sv["memory"]["total"].as_u64().unwrap() > 0);
    assert!(sv["cpu"]["cores"].as_u64().unwrap() >= 1);
    assert!(
        !sv["interfaces"].as_array().unwrap().iter().any(|i| i["name"] == "lo"),
        "lo should be filtered"
    );
    assert!(sv.get("timestamp").is_none(), "timestamp is dynamic-only");

    let dv: Value = serde_json::from_str(&info_json(Info::Dynamic(changing((0, 0), &[]))))
        .expect("dynamic valid JSON");
    for key in ["timestamp", "uptime", "memory", "cpu", "traffic", "fakeip", "connections"] {
        assert!(dv.get(key).is_some(), "dynamic missing {key}: {dv}");
    }
    assert!(dv["uptime"].as_u64().unwrap() > 0);
    assert!(dv["traffic"].get("downloadRate").is_none(), "rates are frontend-computed: {dv}");
    for key in ["active", "tcp", "udp", "clients", "fakeip", "realip"] {
        assert!(dv["connections"].get(key).is_some(), "connections missing {key}: {dv}");
    }
    assert!(dv.get("version").is_none(), "version is static-only");
    assert_eq!(dv["cpu"]["usage"].as_f64(), Some(12.5));
    assert_eq!(dv["cpu"]["per_core"][1].as_f64(), Some(100.0));
    assert_eq!(dv["cpu"]["sniffbox"].as_f64(), Some(0.3));
    assert!(dv["cpu"]["ovpn"].is_null());

    let c = cfg(true);
    let shared = SharedState::new(&c);
    let sv = static_value(&nowhere(), "", &machine(), &InfoStatic::from_cfg(&c), &shared);
    let av: Value = serde_json::from_str(&info_json(Info::All(sv, changing((0, 0), &[]))))
        .expect("all valid JSON");
    assert!(av["version"].is_string());
    assert!(av["memory"]["total"].as_u64().unwrap() > 0);
    assert!(av["memory"].get("available").is_some());
    assert!(av["cpu"].get("model").is_some() && av["cpu"].get("usage").is_some());
    assert!(av["fakeip"].get("cidr").is_some() && av["fakeip"].get("mapped").is_some());
    assert!(av["connections"].get("active").is_some());
}

#[test]
fn info_reports_net_rec_and_acl_from_config() {
    let mut c = cfg(true);
    c.stats = Some(StatsCfg { enabled: true, max_rec: 77, net_cleanday: 3, traffic_window_min: 30 });
    c.acl = AclCfg { proxy_cidr: CidrAcl::parse("192.168.0.0/16").unwrap() };
    c.web.admin_cidr = CidrAcl::parse("10.10.10.0/24").unwrap();
    let sv = fixed(&c);
    assert_eq!(sv["features"]["net_rec"], Value::Bool(true));
    assert_eq!(sv["features"]["max_rec"].as_u64(), Some(77));
    assert_eq!(sv["features"]["net_cleanday"].as_u64(), Some(3));
    let list = |s: &str| Value::Array(vec![Value::String(s.to_string())]);
    assert_eq!(sv["acl"]["proxy_cidr"], list("192.168.0.0/16"));
    assert_eq!(sv["acl"]["admin_cidr"], list("10.10.10.0/24"));
}

#[test]
fn connections_snapshot_empty_rule_and_live_totals() {
    let mut gone = sample(5, 6);
    gone.closed = true;
    gone.drained_up = 5;
    gone.drained_down = 6;
    let rows = [row(sample(100, 200)), row(gone)];
    let v: Value = serde_json::from_str(&connections_snapshot(0, 0, &rows)).unwrap();
    assert_eq!(v["uploadTotal"], 100, "live upload total: {v}");
    assert_eq!(v["downloadTotal"], 200, "live download total: {v}");
    let conns = v["connections"].as_array().unwrap();
    assert_eq!(conns.len(), 1);
    assert_eq!(conns[0]["rule"], "", "rule must be empty (no-clash)");
    assert_eq!(conns[0]["chains"].as_array().unwrap().len(), 0);
    assert_eq!(conns[0]["metadata"]["type"], "TProxy");
    assert_eq!(conns[0]["upload"], 100);
    assert_eq!(conns[0]["id"], "7");
    assert_eq!(conns[0]["start"], "2021-01-01T00:02:03.456Z");
    assert_eq!(conns[0]["metadata"]["sourceIP"], "10.0.0.9");
    assert_eq!(conns[0]["metadata"]["destinationPort"], "443");
    assert_eq!(conns[0]["metadata"]["sniffHost"], "example.com");
}

#[test]
fn the_surroundings_come_before_the_settings() {
    let mut env = nowhere();
    env.mode = Some(" suburl ".to_string());
    env.dns_port = Some("5353".to_string());
    let file = "suburl=\"ppsub@https://x/y.json\"\ndns_ip=\"9.9.9.9\"\nex_dns=\"a, ,b\"\ndns_burn=yes\n";
    let mut m = machine();
    m.clash = Some(ClashVersion { version: "v1.18".to_string(), meta: true });
    m.fakeip_cidr = Some("7.0.0.0/8".to_string());
    let c = cfg(false);
    let v = static_value(&env, file, &m, &InfoStatic::from_cfg(&c), &SharedState::new(&c));
    let v: Value = serde_json::from_str(&info_json(Info::Static(v))).unwrap();
    assert_eq!(v["mode"], "suburl");
    assert_eq!(v["ppsub"], Value::Bool(true));
    assert_eq!(v["dns"]["trusted"]["ip"], "9.9.9.9");
    assert_eq!(v["dns"]["trusted"]["port"], 5353);
    assert_eq!(v["dns"]["ex_dns"][1], "b");
    assert_eq!(v["dns"]["system"][0], "1.1.1.1");
    assert_eq!(v["features"]["dns_burn"], Value::Bool(true));
    assert_eq!((&v["clash_version"], &v["clash_meta"]), (&Value::from("v1.18"), &Value::Bool(true)));
    assert_eq!(v["fakeip"]["cidr"], "7.0.0.0/8");
    assert!(v["pplog"].is_null());
}

#[test]
fn shares_are_told_between_two_samples() {
    let mut s = InfoSample::empty();
    let first = InfoSample {
        cpu: Some((100, 40)),
        cores: vec![(50, 20), (50, 20)],
        own: Some(5),
        clash: Some((9, 10)),
        ovpn: None,
    };
    let used = s.take(first);
    assert_eq!(used.cpu, Share { part: 0, whole: 0 });
    assert!(used.cores.is_empty());
    let second = InfoSample {
        cpu: Some((200, 90)),
        cores: vec![(100, 70), (100, 20)],
        own: Some(30),
        clash: Some((10, 60)),
        ovpn: Some((3, 1)),
    };
    let used = s.take(second);
    assert_eq!(used.cpu, Share { part: 50, whole: 100 });
    assert_eq!(used.cores, vec![Share { part: 0, whole: 50 }, Share { part: 50, whole: 50 }]);
    assert_eq!(used.own, Share { part: 25, whole: 100 });
    assert_eq!(used.clash, Share { part: 0, whole: 0 }, "another process");
    let third = InfoSample {
        cpu: Some((210, 90)),
        cores: vec![(1, 1)],
        own: Some(900),
        clash: Some((10, 65)),
        ovpn: Some((3, 0)),
    };
    let used = s.take(third);
    assert_eq!(used.own, Share { part: 10, whole: 10 }, "at most all of it");
    assert_eq!(used.clash, Share { part: 5, whole: 10 });
    assert_eq!(used.ovpn, Share { part: 0, whole: 10 });
    assert!(used.cores.is_empty());
}

#[test]
fn connections_are_counted_by_their_kind() {
    let mut own = sample(0, 0);
    own.kind = RecordKind::Internal;
    let mut fake = sample(0, 0);
    fake.dst = ip("7.1.2.3");
    fake.transport = Transport::Udp;
    let net = Ipv4Net::parse("7.0.0.0/8");
    let v = dynamic_value(&moment(), &usage(), 0, 0, &[sample(0, 0), own, fake], net);
    let v: Value = serde_json::from_str(&info_json(Info::Dynamic(v))).unwrap();
    let c = &v["connections"];
    assert_eq!((c["active"].as_u64(), c["tcp"].as_u64(), c["udp"].as_u64()), (Some(3), Some(2), Some(1)));
    assert_eq!((c["clients"].as_u64(), c["fakeip"].as_u64(), c["realip"].as_u64()), (Some(1), Some(1), Some(1)));
}

#[test]
fn merging_goes_to_any_depth() {
    let object = |es: Vec<(&str, Json)>| {
        Json::Object(es.into_iter().map(|(k, v)| (k.to_string(), v)).collect())
    };
    let a = object(vec![
        ("x", object(vec![("p", Json::Bool(true)), ("q", Json::Null)])),
        ("y", Json::Bool(false)),
    ]);
    let b = object(vec![
        ("x", object(vec![("q", Json::Bool(false)), ("r", Json::Bool(true))])),
        ("z", object(vec![("s", Json::Bool(true))])),
    ]);
    let text = info_json(Info::Dynamic(merge_json(a, b)));
    assert_eq!(
        text,
        "{\"x\":{\"p\":true,\"q\":false,\"r\":true},\"y\":false,\"z\":{\"s\":true}}"
    );
    assert_eq!(info_json(Info::All(object(vec![("a", Json::Null)]), Json::Bool(true))), "true");
}

#[test]
fn interfaces_are_gathered_by_name() {
    let mut gateways = Table::new();
    gateways.insert("eth0".to_string(), 0xc0a8_0101);
    let mut hw = Table::new();
    hw.insert(
        "eth0".to_string(),
        HwFacts {
            carrier: Some(1),
            duplex: Some("full".to_string()),
            speed: Some(2500),
            has_device: true,
            driver: Some("igc".to_string()),
            vendor: Some("0x8086".to_string()),
            device: Some("0x15f3".to_string()),
            uevent: None,
            tun: false,
        },
    );
    let v = interfaces(&entries(), &gateways, &hw);
    let names: Vec<&str> = v.iter().map(|i| i.name.as_str()).collect();
    assert_eq!(names, ["eth0", "tun0", "wan"]);
    assert_eq!(v[0].ipv4, ["192.168.1.2/24", "10.0.0.1/32"]);
    assert_eq!(v[0].mac, None, "six bytes make an address");
    assert_eq!(v[0].gateway.as_deref(), Some("192.168.1.1"));
    assert_eq!((v[0].speed, v[0].pci_id.as_deref()), (Some(2500), Some("8086:15f3")));
    assert!(v[1].ipv4.is_empty() && v[1].gateway.is_none());
    assert_eq!(v[2].mac.as_deref(), Some("00:01:02:ab:cd:ef"));
    assert_eq!(v[2].ipv6, ["::1/128"]);
}

#[test]
fn interfaces_no_loopback() {
    let ifs = interfaces(&entries(), &Table::new(), &Table::new());
    assert!(!ifs.iter().any(|i| i.name == "lo"), "loopback interface should be filtered");
}

#[test]
fn uptime_drops_the_fraction() {
    assert_eq!(uptime_secs("12345.99 6789.00\n"), 12345);
    assert_eq!(uptime_secs(""), 0);
    assert_eq!(uptime_secs("soon"), 0);
}

fn pct(s: &Share) -> f64 {
    if s.whole == 0 {
        return 0.0;
    }
    (s.part as f64 / s.whole as f64) * 100.0
}

#[test]
fn cpu_usage_bounds() {
    let look = |cpu: (u128, u128)| {
        let mut s = InfoSample::empty();
        s.cpu = Some(cpu);
        s
    };
    let mut last = look((100, 40));
    let u = pct(&last.take(look((200, 90))).cpu);
    assert!((0.0..=100.0).contains(&u));
    assert_eq!(u, 50.0);
    let mut last = look((100, 40));
    assert_eq!(pct(&last.take(look((100, 40))).cpu), 0.0);
}

#[test]
fn process_cpu_pct_bounds() {
    let look = |total: u128, own: u128| {
        let mut s = InfoSample::empty();
        s.cpu = Some((total, 0));
        s.own = Some(own);
        s
    };
    let mut last = look(0, 0);
    assert_eq!(pct(&last.take(look(0, 0)).own), 0.0);
    let mut last = look(0, 0);
    assert_eq!(pct(&last.take(look(200, 50)).own), 25.0);
    let mut last = look(0, 0);
    assert_eq!(pct(&last.take(look(100, 999)).own), 100.0);
}
