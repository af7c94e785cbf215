use sniffbox::addr::IpAddr;
use sniffbox::cidr::Ipv4Net;
use sniffbox::civil::{civil_date, rfc3339_ms};
use sniffbox::config::{AclCfg, CidrAcl, Config, OutboundMode, RouteCfg, StatsCfg};
use sniffbox::records::{ConnSample, RecordKind, Transport};
use sniffbox::runtime::{
    agg_window_secs, auto_max_entries, comma_list, conn_stats, env_bool, env_or_ini, in_demand, is_ppsub_suburl,
    mem_available_bytes, mode_string, ppsub_active, AtomicRoute, SharedState,
};

fn cfg(bt: bool) -> Config {
    let mut c = Config::defaults(4);
    c.route = RouteCfg {
        block_bittorrent: bt,
        block_quic: false,
        block_unknown: false,
        log_sniffed: true,
    };
    c
}

fn ip(s: &str) -> IpAddr {
    IpAddr::parse(s).unwrap()
}

fn sample(up: u64, down: u64) -> ConnSample {
    ConnSample {
        kind: RecordKind::Client,
        transport: Transport::Tcp,
        closed: false,
        src: ip("10.0.0.9"),
        dst: ip("1.1.1.1"),
        upload: up,
        download: down,
        drained_up: 0,
        drained_down: 0,
    }
}

#[test]
fn suburl_mode_detects_ppsub() {
    assert!(is_ppsub_suburl(Some("ppsub@http://10.10.10.8/ppsub.json")));
    assert!(is_ppsub_suburl(Some("  ppsub@https://x/y.json  ")));
    assert!(!is_ppsub_suburl(Some("https://sub.example/link")));
    assert!(!is_ppsub_suburl(Some("ppsub@")));
    assert!(!is_ppsub_suburl(None));
}

#[test]
fn rfc3339_ms_formats_utc() {
    assert_eq!(rfc3339_ms(0), "1970-01-01T00:00:00.000Z");
    assert_eq!(rfc3339_ms(1_609_459_200_000), "2021-01-01T00:00:00.000Z");
    assert_eq!(rfc3339_ms(1_609_459_323_456), "2021-01-01T00:02:03.456Z");
}

#[test]
fn leap_days_are_counted() {
    assert_eq!(civil_date(0), (1970, 1, 1));
    assert_eq!(civil_date(11_016), (2000, 2, 29));
    assert_eq!(civil_date(11_017), (2000, 3, 1));
}

#[test]
fn reload_swaps_route_atomically() {
    let mut state = SharedState::new(&cfg(true));
    assert!(state.route.load().block_bittorrent);
    state.reload(&cfg(false));
    assert!(!state.route.load().block_bittorrent);
}

#[test]
fn route_flags_pack_roundtrip() {
    let rc = RouteCfg {
        block_bittorrent: true,
        block_quic: false,
        block_unknown: true,
        log_sniffed: false,
    };
    let f = AtomicRoute::new(&rc).load();
    assert!(f.block_bittorrent && !f.block_quic && f.block_unknown && !f.log_sniffed);
}

#[test]
fn auto_max_entries_capped_by_usable() {
    let mem = Some(4_000_000_000u64);
    let (big, small) = (16_777_214u32, 254u32);
    for pct in [1u8, 30, 100] {
        let n = auto_max_entries(mem, pct, big, 300);
        assert!(n <= big as usize && n >= 4096.min(big as usize), "big pct {pct} → {n}");
        assert_eq!(
            auto_max_entries(mem, pct, small, 300),
            small as usize,
            "small cidr must cap at usable"
        );
    }
    assert!(auto_max_entries(mem, 50, big, 300) >= auto_max_entries(mem, 1, big, 300));
    assert_eq!(auto_max_entries(mem, 30, big, 300), 4_000_000);
    assert_eq!(auto_max_entries(None, 30, big, 300), 65_536);
}

#[test]
fn reload_updates_splice_and_sniff_timeout() {
    let mut c = cfg(true);
    c.inbound.splice_copy = true;
    c.inbound.splice_threshold = 1024 * 1024;
    c.inbound.sniff_timeout_ms = 300;
    let mut state = SharedState::new(&c);
    assert!(state.splice_copy());
    assert_eq!(state.splice_threshold(), 1024 * 1024);
    assert_eq!(state.sniff_timeout_ms(), 300);

    c.inbound.splice_copy = false;
    c.inbound.splice_threshold = 4096;
    c.inbound.sniff_timeout_ms = 150;
    state.reload(&c);
    assert!(!state.splice_copy());
    assert_eq!(state.splice_threshold(), 4096);
    assert_eq!(state.sniff_timeout_ms(), 150);
}

#[test]
fn reload_swaps_proxy_acl_and_stats() {
    let ten = ip("10.0.0.5");
    let mut c = cfg(true);
    let mut state = SharedState::new(&c);
    assert!(state.proxy_allowed(ten));
    assert_eq!(state.max_rec(), 5000);
    assert_eq!(state.net_cleanday(), 0);

    c.acl = AclCfg { proxy_cidr: CidrAcl::parse("192.168.0.0/16").unwrap() };
    c.stats =
        Some(StatsCfg { enabled: true, max_rec: 123, net_cleanday: 7, traffic_window_min: 30 });
    state.reload(&c);
    assert!(!state.proxy_allowed(ten));
    assert!(state.proxy_allowed(ip("192.168.1.1")));
    assert!(state.proxy_allowed(ip("127.0.0.1")));
    assert_eq!(state.max_rec(), 123);
    assert_eq!(state.net_cleanday(), 7);

    c.acl = AclCfg::default();
    c.stats = None;
    state.reload(&c);
    assert!(state.proxy_allowed(ten));
    assert_eq!(state.max_rec(), 5000);
    assert_eq!(state.net_cleanday(), 0);
}

#[test]
fn reload_swaps_admin_cidr_and_openport_auth() {
    let lan = ip("10.10.10.50");
    let mut c = cfg(true);
    c.web.password = "old-pass".into();
    let mut state = SharedState::new(&c);
    assert!(state.admin_allowed(lan));
    assert!(state.openport_auth().is_none());
    assert_eq!(state.web_password(), "old-pass");

    c.web.admin_cidr = CidrAcl::parse("192.168.0.0/16").unwrap();
    c.inbound_proxy.auth = Some(("u".into(), "pw".into()));
    c.web.password = "new-pass".into();
    state.reload(&c);
    assert!(!state.admin_allowed(lan));
    assert_eq!(state.web_password(), "new-pass");
    assert!(state.admin_allowed(ip("192.168.1.2")));
    assert!(state.admin_allowed(ip("127.0.0.1")));
    assert_eq!(state.openport_auth(), &Some(("u".into(), "pw".into())));

    c.web.admin_cidr = CidrAcl::default();
    c.inbound_proxy.auth = None;
    state.reload(&c);
    assert!(state.admin_allowed(lan));
    assert!(state.openport_auth().is_none());
}

#[test]
fn a_change_of_mode_or_address_asks_for_a_restart() {
    let mut c = cfg(true);
    let mut state = SharedState::new(&c);
    let calm = state.reload(&c);
    assert!(!calm.mode && !calm.listen);
    c.outbound.mode = OutboundMode::Ovpn;
    c.inbound.listen.port = 9;
    let notes = state.reload(&c);
    assert!(notes.mode && notes.listen);
}

#[test]
fn connections_are_counted_by_kind() {
    let net = Ipv4Net::parse("7.0.0.0/8");
    let mut udp = sample(0, 0);
    udp.transport = Transport::Udp;
    udp.dst = ip("7.1.2.3");
    let mut closed = sample(0, 0);
    closed.closed = true;
    let s = conn_stats(&[sample(0, 0), udp, closed], net);
    assert_eq!((s.active, s.tcp, s.udp), (2, 1, 1));
    assert_eq!((s.fakeip, s.realip), (1, 1));
    assert_eq!(s.clients, 1);
}

#[test]
fn the_environment_goes_before_the_file() {
    assert_eq!(env_or_ini(Some("a"), "k=b\n", "k").as_deref(), Some("a"));
    assert_eq!(env_or_ini(None, "k=b\n", "k").as_deref(), Some("b"));
    assert!(env_bool(Some("yes"), "", "k"));
    assert!(!env_bool(None, "", "k"));
    assert_eq!(mode_string(None, OutboundMode::Ovpn), "ovpn");
    assert!(ppsub_active(Some("suburl"), Some("ppsub@http://x/y"), ""));
    assert!(!ppsub_active(Some("free"), Some("ppsub@http://x/y"), ""));
    assert_eq!(comma_list(" a, ,b "), vec!["a".to_string(), "b".to_string()]);
}

#[test]
fn free_memory_is_read_in_bytes() {
    assert_eq!(mem_available_bytes("MemTotal: 2 kB\nMemAvailable:   1024 kB\n"), Some(1_048_576));
    assert_eq!(mem_available_bytes("MemTotal: 2 kB\n"), None);
}

#[test]
fn demand_ends_with_its_window() {
    assert!(!in_demand(0, 5));
    assert!(in_demand(1_000, 31_000));
    assert!(!in_demand(1_000, 31_001));
}

#[test]
fn traffic_is_summed_up_over_a_minute_at_least() {
    let mut c = Config::defaults(4);
    c.stats = None;
    assert_eq!(agg_window_secs(&c), 3600);
    c.stats = Some(StatsCfg {
        enabled: true,
        max_rec: 10,
        net_cleanday: 0,
        traffic_window_min: 15,
    });
    assert_eq!(agg_window_secs(&c), 900);
    c.stats = Some(StatsCfg {
        enabled: true,
        max_rec: 10,
        net_cleanday: 0,
        traffic_window_min: 0,
    });
    assert_eq!(agg_window_secs(&c), 60);
}
