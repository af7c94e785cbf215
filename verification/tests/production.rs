use sniffbox::addr::{IpAddr, SocketAddr};
use sniffbox::cidr::Ipv4Net;
use sniffbox::config::{Config, OutboundMode};
use sniffbox::production::{
    auto_pool, auto_spoof_cache_cap, auto_workers, build, build_production, ini_value, ipv6_enabled,
    PpgwIni,
};

const CPUS: usize = 4;

fn ppgw(text: &str) -> PpgwIni {
    PpgwIni::parse(text)
}

fn built(p: &PpgwIni) -> Config {
    build(p, CPUS, false, None, None)
}

fn sock(s: &str) -> SocketAddr {
    SocketAddr::parse(s).unwrap()
}

fn ip(s: &str) -> IpAddr {
    IpAddr::parse(s).unwrap()
}

fn net(s: &str) -> Ipv4Net {
    Ipv4Net::parse(s).unwrap()
}

#[test]
fn fixed_defaults_hold() {
    let cfg = built(&PpgwIni::empty());
    assert_eq!(cfg.log.level, "info");
    assert!(cfg.log.timestamp);
    assert_eq!(cfg.inbound.listen, sock("127.0.0.1:1081"));
    assert_eq!(cfg.inbound.sniff_timeout_ms, 300);
    assert!(cfg.inbound.splice_copy);
    assert_eq!(cfg.inbound.udp_idle_sec, 60);
    assert!(cfg.inbound.tune_sysctl);
    assert_eq!(cfg.socks5.server, sock("127.0.0.1:1080"));
    let dns = cfg.dns.unwrap();
    assert!(dns.enabled);
    assert_eq!(dns.listen, sock("0.0.0.0:53"));
    assert_eq!(dns.ttl, 3);
    assert_eq!(dns.max_entries, None);
    assert_eq!(dns.max_mem_pct, 30);
    assert_eq!(dns.shards, 16);
}

#[test]
fn missing_ppgw_uses_defaults() {
    let cfg = build_production(None, CPUS, false, None, None);
    assert!(!cfg.inbound.udp);
    let s = cfg.stats.unwrap();
    assert!(!s.enabled);
    assert_eq!(s.max_rec, 5000);
    assert_eq!(s.net_cleanday, 0);
    assert_eq!(cfg.dns.unwrap().fake_cidr, net("7.0.0.0/8"));
    assert!(cfg.route.block_bittorrent);
    assert!(cfg.route.block_quic);
    assert!(!cfg.route.block_unknown);
    assert!(cfg.route.log_sniffed);
}

#[test]
fn reads_ppgw_variable_fields() {
    let p = ppgw(
        "#paopao-gateway\n\
         udp_enable=yes\n\
         net_rec=yes\n\
         max_rec=12000\n\
         net_cleanday=15\n\
         fake_cidr=28.0.0.0/8\n",
    );
    let cfg = built(&p);
    assert!(cfg.inbound.udp);
    let s = cfg.stats.unwrap();
    assert!(s.enabled);
    assert_eq!(s.max_rec, 12000);
    assert_eq!(s.net_cleanday, 15);
    assert_eq!(cfg.dns.unwrap().fake_cidr, net("28.0.0.0/8"));
}

#[test]
fn box_overrides_route() {
    let p = ppgw(
        "box=\"route.block_bittorrent=false,route.block_quic=false,route.block_unknown=true\"\n",
    );
    let r = p.route();
    assert!(!r.block_bittorrent);
    assert!(!r.block_quic);
    assert!(r.block_unknown);
}

#[test]
fn box_partial_override_keeps_other_defaults() {
    let p = ppgw("box=route.block_quic=false\n");
    let r = p.route();
    assert!(r.block_bittorrent);
    assert!(!r.block_quic);
    assert!(!r.block_unknown);
}

#[test]
fn quotes_stripped() {
    let p = ppgw("clash_web_password=\"hunter2\"\nudp_enable=\"no\"\n");
    assert_eq!(p.str("clash_web_password"), Some("hunter2"));
    assert_eq!(p.bool("udp_enable"), Some(false));
}

#[test]
fn comments_and_blanks_skipped() {
    let p = ppgw("# comment\n\n; semi\nmax_rec=42\n");
    assert_eq!(p.num("max_rec", usize::MAX as u64), Some(42));
}

#[test]
fn auto_values_within_bounds() {
    for cpus in [1usize, 2, 4, 8, 64, 1024] {
        let (min, max) = auto_pool(cpus);
        assert!(min >= 8 && min <= max);
        assert!(max <= 1024);
        assert!(auto_workers(cpus) >= 1 && auto_workers(cpus) <= 8);
        assert!(auto_spoof_cache_cap(cpus) >= 1024);
    }
}

#[test]
fn web_fixed_listen_and_defaults() {
    let cfg = built(&PpgwIni::empty());
    assert_eq!(cfg.web.listen, sock("0.0.0.0:80"));
    assert_eq!(cfg.web.clash_sock, "/tmp/clash.sock");
    assert!(cfg.web.admin_cidr.is_empty());
    assert!(cfg.acl.proxy_cidr.is_empty());
    assert!(cfg.inbound_proxy.enabled);
    assert_eq!(cfg.inbound_proxy.listen_port, 1080);
    assert_eq!(cfg.outbound.mode, OutboundMode::Free);
    assert!(cfg.outbound.bind_device.is_none());
    assert!(cfg.report.pplog.is_none());
}

#[test]
fn reads_admin_and_proxy_cidr() {
    let cfg = built(&ppgw("admin_cidr=10.10.10.123\nproxy_cidr=10.10.10.0/24\n"));
    assert!(cfg.web.admin_cidr.allows(ip("10.10.10.123")));
    assert!(!cfg.web.admin_cidr.allows(ip("10.10.10.124")));
    assert!(cfg.acl.proxy_cidr.allows(ip("10.10.10.55")));
    assert!(!cfg.acl.proxy_cidr.allows(ip("10.10.11.1")));
}

#[test]
fn reads_openport_keys() {
    let cfg = built(&ppgw("openport=no\nopenport_auth=alice:secret\nudp_enable=yes\n"));
    assert!(cfg.inbound_proxy.enabled);
    assert!(cfg.inbound_proxy.udp);
    assert_eq!(cfg.inbound_proxy.auth, Some(("alice".into(), "secret".into())));
}

#[test]
fn udp_through_the_gateway_is_apart_from_the_open_port() {
    for (ini, routed) in [("", false), ("udp_enable=no\n", false), ("udp_enable=yes\n", true)] {
        let cfg = built(&ppgw(ini));
        assert_eq!(cfg.inbound.udp, routed);
        assert!(cfg.inbound_proxy.udp);
    }
}

#[test]
fn reads_socks5_outbound_keys() {
    let cfg = built(&ppgw(
        "mode=socks5\nsocks5_ip=1.2.3.4\nsocks5_port=1080\nsocks5_username=u\nsocks5_password=pw\n",
    ));
    assert_eq!(cfg.outbound.mode, OutboundMode::Socks5);
    assert_eq!(cfg.outbound.upstream, Some(sock("1.2.3.4:1080")));
    assert_eq!(cfg.outbound.auth, Some(("u".into(), "pw".into())));
    assert!(cfg.outbound.bind_device.is_none());
}

#[test]
fn ovpn_mode_binds_tun114_and_resolver() {
    let cfg = built(&ppgw("mode=ovpn\ndns_ip=10.10.10.3\n"));
    assert_eq!(cfg.outbound.mode, OutboundMode::Ovpn);
    assert_eq!(cfg.outbound.bind_device.as_deref(), Some("tun114"));
    assert_eq!(cfg.outbound.resolver.server, Some(sock("10.10.10.3:53")));
}

#[test]
fn socks5_port_defaults_when_only_ip() {
    let cfg = built(&ppgw("mode=socks5\nsocks5_ip=9.9.9.9\n"));
    assert_eq!(cfg.outbound.upstream, Some(sock("9.9.9.9:7890")));
}

#[test]
fn reads_pplog() {
    let report = built(&ppgw(
        "pplog=10.10.10.200:9000\npplog_uuid=990c7c49-dbb2-470b-bb05-2f8260281759\n",
    ))
    .report;
    assert_eq!(report.pplog, Some(sock("10.10.10.200:9000")));
    assert_eq!(report.pplog_uuid.unwrap()[0], 0x99);
    assert!(built(&ppgw("pplog=10.10.10.200:9000\n")).report.pplog_uuid.is_none());
}

#[test]
fn web_password_from_ppgw_when_env_absent() {
    let p = ppgw("clash_web_password=hunter2\n");
    assert_eq!(built(&p).web.password, "hunter2");
    assert_eq!(built(&PpgwIni::empty()).web.password, "clashpass");
    assert_eq!(build(&p, CPUS, false, Some("env"), None).web.password, "env");
}

#[test]
fn a_single_setting_is_found_in_the_file() {
    assert_eq!(ini_value("a=1\nmode=\"ovpn\"\n", "mode").as_deref(), Some("ovpn"));
    assert_eq!(ini_value("a=1\n", "mode"), None);
}

#[test]
fn the_second_family_is_on_only_where_asked_for() {
    let with = build(&PpgwIni::empty(), CPUS, true, None, None);
    let without = built(&PpgwIni::empty());
    assert!(with.inbound.listen6.is_some());
    assert!(without.inbound.listen6.is_none());
    assert!(!ipv6_enabled(""));
}

#[test]
fn the_name_server_has_a_default() {
    let resolver = |file: &str| {
        let cfg = build_production(Some(file), CPUS, false, None, None);
        cfg.outbound.resolver.server.map(|s| s.text())
    };
    assert_eq!(resolver("#paopao-gateway\nmode=free\n").as_deref(), Some("1.0.0.1:53"));
    assert_eq!(resolver("dns_port=5304\n").as_deref(), Some("1.0.0.1:5304"));
    assert_eq!(resolver("dns_ip=\"\"\ndns_port=x\n").as_deref(), Some("1.0.0.1:53"));
    assert_eq!(resolver("dns_ip=10.10.10.8\ndns_port=5304\n").as_deref(), Some("10.10.10.8:5304"));
    assert_eq!(resolver("dns_ip=not an address\n"), None);
}

#[test]
fn the_port_of_the_pages_can_be_set() {
    let listen = |file: &str| {
        build_production(Some(file), CPUS, false, None, None).web.listen.text()
    };
    assert_eq!(listen(""), "0.0.0.0:80");
    assert_eq!(listen("clash_web_port=\"8080\"\n"), "0.0.0.0:8080");
    assert_eq!(listen("clash_web_port=70000\n"), "0.0.0.0:80");
}

#[test]
fn the_gateway_is_its_own_upstream_by_default() {
    let own = IpAddr::parse("10.10.10.3");
    let upstream = |file: &str, own: Option<IpAddr>| {
        let cfg = build_production(Some(file), CPUS, false, None, own);
        cfg.outbound.upstream.map(|s| s.text())
    };
    assert_eq!(upstream("mode=socks5\n", own).as_deref(), Some("10.10.10.3:7890"));
    assert_eq!(upstream("mode=socks5\nsocks5_port=1080\n", own).as_deref(), Some("10.10.10.3:1080"));
    assert_eq!(upstream("socks5_ip=9.9.9.9\n", own).as_deref(), Some("9.9.9.9:7890"));
    assert_eq!(upstream("mode=socks5\n", None), None);
}
