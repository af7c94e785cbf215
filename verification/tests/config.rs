use sniffbox::addr::{IpAddr, SocketAddr};
use sniffbox::cidr::Ipv4Net;
use sniffbox::config::{
    default_udp_workers, parse_bool, parse_ini, parse_uuid, CidrAcl, Config, ConfigErr, OutboundMode,
};

const CPUS: usize = 4;

const MIN_INI: &str = r#"
        [inbound]
        listen = 127.0.0.1:1081

        [socks5]
        server = 127.0.0.1:1080

        [route]
        block_bittorrent = true
    "#;

fn sock(s: &str) -> SocketAddr {
    SocketAddr::parse(s).unwrap()
}

fn ip(s: &str) -> IpAddr {
    IpAddr::parse(s).unwrap()
}

fn net(s: &str) -> Ipv4Net {
    Ipv4Net::parse(s).unwrap()
}

fn cfg(s: &str) -> Config {
    match parse_ini(s) {
        Ok(ini) => match Config::from_ini(ini, CPUS) {
            Ok(c) => c,
            Err(e) => panic!("{}", e.text()),
        },
        Err(e) => panic!("{}", e.text()),
    }
}

fn err(s: &str) -> ConfigErr {
    match parse_ini(s) {
        Ok(ini) => match Config::from_ini(ini, CPUS) {
            Ok(_) => panic!("accepted: {s}"),
            Err(e) => e,
        },
        Err(e) => panic!("{}", e.text()),
    }
}

#[test]
fn parse_min() {
    let cfg = cfg(MIN_INI);
    assert_eq!(cfg.inbound.listen, sock("127.0.0.1:1081"));
    assert!(cfg.route.block_bittorrent);
    assert!(!cfg.route.block_quic);
    assert!(cfg.route.log_sniffed);
    assert!(cfg.stats.is_none());
}

#[test]
fn listen6_parsed_and_validated() {
    assert!(cfg(MIN_INI).inbound.listen6.is_none());
    let c = cfg(
        "[inbound]\nlisten = 127.0.0.1:1081\nlisten6 = [::1]:1081\n\n[socks5]\nserver = 127.0.0.1:1080\n\n[route]\nblock_bittorrent = true\n",
    );
    assert_eq!(c.inbound.listen6, Some(sock("[::1]:1081")));
    let _ = err("[inbound]\nlisten = 127.0.0.1:1081\nlisten6 = 127.0.0.1:1081\n");
}

#[test]
fn defaults_kick_in() {
    let cfg = cfg("");
    assert_eq!(cfg.log.level, "info");
    assert_eq!(cfg.inbound.sniff_timeout_ms, 300);
    assert!(cfg.inbound.splice_copy);
    assert_eq!(cfg.inbound.splice_threshold, 1024 * 1024);
    assert_eq!(cfg.socks5.pool_min, 8);
}

#[test]
fn parse_splice_threshold() {
    let cfg = cfg("[inbound]\nsplice_threshold = 4096\n");
    assert_eq!(cfg.inbound.splice_threshold, 4096);
}

#[test]
fn comments_and_blank_lines_ok() {
    let cfg = cfg("# top comment\n\n[log]\n; semi comment\nlevel = debug\n");
    assert_eq!(cfg.log.level, "debug");
}

#[test]
fn tune_sysctl_defaults_true_and_parses() {
    assert!(cfg("").inbound.tune_sysctl);
    assert!(!cfg("[inbound]\ntune_sysctl = false\n").inbound.tune_sysctl);
}

#[test]
fn bool_synonyms() {
    let cfg = cfg("[route]\nblock_quic = yes\nlog_sniffed = off\n");
    assert!(cfg.route.block_quic);
    assert!(!cfg.route.log_sniffed);
}

#[test]
fn rejects_bad_bool() {
    let e = err("[route]\nblock_quic = maybe\n");
    assert!(matches!(e, ConfigErr::Field { .. }));
}

#[test]
fn rejects_bad_socket() {
    let e = err("[inbound]\nlisten = notanaddr\n");
    assert!(matches!(e, ConfigErr::Field { .. }));
}

#[test]
fn rejects_key_before_section() {
    let e = match parse_ini("foo = bar\n") {
        Ok(_) => panic!("accepted"),
        Err(e) => e,
    };
    assert!(matches!(e, ConfigErr::Parse { .. }));
}

#[test]
fn stats_disabled_skips_other_fields() {
    let s = cfg("[stats]\nenabled = false\nmax_rec = 999\n").stats.unwrap();
    assert!(!s.enabled);
    assert_eq!(s.max_rec, 5000);
}

#[test]
fn rejects_pool_min_gt_max() {
    let e = err("[socks5]\npool_min = 10\npool_max = 4\n");
    assert!(matches!(e, ConfigErr::Validation(_)));
}

#[test]
fn rejects_absurd_pool_max() {
    let e = err("[socks5]\npool_max = 999999999\n");
    assert!(matches!(e, ConfigErr::Validation(_)));
}

#[test]
fn dns_absent_is_none() {
    assert!(cfg(MIN_INI).dns.is_none());
}

#[test]
fn dns_defaults_and_parse() {
    let d = cfg("[dns]\nfake_cidr = 28.0.0.0/8\n").dns.unwrap();
    assert!(d.enabled);
    assert_eq!(d.listen, sock("127.0.0.1:1053"));
    assert_eq!(d.fake_cidr, net("28.0.0.0/8"));
    assert_eq!(d.ttl, 3);
    assert_eq!(d.max_entries, None);
    assert_eq!(d.max_mem_pct, 30);
    assert_eq!(d.shards, 16);
}

#[test]
fn dns_full_parse() {
    let d = cfg(
        "[dns]\nenabled = true\nlisten = 0.0.0.0:53\nfake_cidr = 198.18.0.0/15\nttl = 10\nmax_entries = 1024\nmax_mem_pct = 50\nshards = 32\n",
    )
    .dns
    .unwrap();
    assert_eq!(d.listen, sock("0.0.0.0:53"));
    assert_eq!(d.fake_cidr, net("198.18.0.0/15"));
    assert_eq!(d.ttl, 10);
    assert_eq!(d.max_entries, Some(1024));
    assert_eq!(d.max_mem_pct, 50);
    assert_eq!(d.shards, 32);
}

#[test]
fn dns_rejects_zero_shards() {
    assert!(matches!(err("[dns]\nshards = 0\n"), ConfigErr::Validation(_)));
}

#[test]
fn dns_rejects_bad_mem_pct() {
    for bad in ["0", "101", "200"] {
        assert!(
            matches!(err(&format!("[dns]\nmax_mem_pct = {bad}\n")), ConfigErr::Validation(_)),
            "pct {bad}"
        );
    }
}

#[test]
fn dns_disabled_skips_fields() {
    let d = cfg("[dns]\nenabled = false\nfake_cidr = garbage\n").dns.unwrap();
    assert!(!d.enabled);
}

#[test]
fn dns_rejects_bad_cidr() {
    assert!(matches!(err("[dns]\nfake_cidr = not-a-cidr\n"), ConfigErr::Field { .. }));
}

#[test]
fn dns_rejects_zero_max_entries() {
    assert!(matches!(err("[dns]\nmax_entries = 0\n"), ConfigErr::Validation(_)));
}

#[test]
fn web_defaults_when_absent() {
    let cfg = cfg(MIN_INI);
    assert_eq!(cfg.web.listen, sock("0.0.0.0:80"));
    assert_eq!(cfg.web.clash_sock, "/tmp/clash.sock");
    assert_eq!(cfg.web.screen_dev, "/dev/vcs1");
    assert!(cfg.web.admin_cidr.is_empty());
    assert!(cfg.acl.proxy_cidr.is_empty());
    assert!(!cfg.inbound_proxy.enabled);
    assert_eq!(cfg.inbound_proxy.listen_port, 1080);
    assert_eq!(cfg.outbound.mode, OutboundMode::Free);
    assert!(cfg.report.pplog.is_none());
}

#[test]
fn cidr_acl_empty_allows_all() {
    let acl = CidrAcl::parse("").unwrap();
    assert!(acl.is_empty());
    assert!(acl.allows(ip("8.8.8.8")));
}

#[test]
fn cidr_acl_single_ip_and_cidr() {
    let acl = CidrAcl::parse("10.10.10.123, 192.168.0.0/16").unwrap();
    assert!(!acl.is_empty());
    assert!(acl.allows(ip("10.10.10.123")));
    assert!(!acl.allows(ip("10.10.10.124")));
    assert!(acl.allows(ip("192.168.5.5")));
    assert!(!acl.allows(ip("172.16.0.1")));
}

#[test]
fn cidr_acl_rejects_garbage() {
    assert!(CidrAcl::parse("not-an-ip").is_err());
    assert!(CidrAcl::parse("10.0.0.0/99").is_err());
}

#[test]
fn web_acl_parsed_from_section() {
    let cfg = cfg("[web]\nadmin_cidr = 10.10.10.123\n[acl]\nproxy_cidr = 10.10.10.0/24\n");
    assert!(cfg.web.admin_cidr.allows(ip("10.10.10.123")));
    assert!(!cfg.web.admin_cidr.allows(ip("10.10.10.1")));
    assert!(cfg.acl.proxy_cidr.allows(ip("10.10.10.55")));
    assert!(!cfg.acl.proxy_cidr.allows(ip("10.10.11.1")));
}

#[test]
fn outbound_mode_parse() {
    assert_eq!(OutboundMode::parse("socks5"), OutboundMode::Socks5);
    assert_eq!(OutboundMode::parse("OVPN"), OutboundMode::Ovpn);
    assert_eq!(OutboundMode::parse("yaml"), OutboundMode::Yaml);
    assert_eq!(OutboundMode::parse("suburl"), OutboundMode::Suburl);
    assert_eq!(OutboundMode::parse("free"), OutboundMode::Free);
    assert_eq!(OutboundMode::parse("whatever"), OutboundMode::Free);
    assert!(OutboundMode::Yaml.via_clash() && OutboundMode::Suburl.via_clash());
    assert!(!OutboundMode::Free.via_clash() && !OutboundMode::Socks5.via_clash());
}

#[test]
fn outbound_section_parse() {
    let o = cfg(
        "[outbound]\nmode = socks5\nserver = 1.2.3.4:1080\nusername = u\npassword = pw\nbind_device = tun114\n",
    )
    .outbound;
    assert_eq!(o.mode, OutboundMode::Socks5);
    assert_eq!(o.upstream, Some(sock("1.2.3.4:1080")));
    assert_eq!(o.auth, Some(("u".into(), "pw".into())));
    assert_eq!(o.bind_device.as_deref(), Some("tun114"));
}

#[test]
fn inbound_proxy_auth_parse() {
    let p = cfg("[inbound_proxy]\nenabled = yes\nauth = alice:secret\nudp = yes\n").inbound_proxy;
    assert!(p.enabled && p.udp);
    assert_eq!(p.auth, Some(("alice".into(), "secret".into())));
}

#[test]
fn inbound_proxy_rejects_bad_auth() {
    assert!(matches!(err("[inbound_proxy]\nauth = noseparator\n"), ConfigErr::Field { .. }));
}

#[test]
fn report_pplog_parse() {
    let r =
        cfg("[report]\npplog = 10.10.10.200:9000\nuuid = 990c7c49-dbb2-470b-bb05-2f8260281759\n")
            .report;
    assert_eq!(r.pplog, Some(sock("10.10.10.200:9000")));
    assert_eq!(r.pplog_uuid.unwrap()[0], 0x99);
    assert_eq!(r.pplog_uuid.unwrap()[15], 0x59);
}

#[test]
fn report_rejects_bad_uuid() {
    assert!(matches!(err("[report]\nuuid = not-a-uuid\n"), ConfigErr::Field { .. }));
}

#[test]
fn parse_uuid_with_and_without_dashes() {
    let a = parse_uuid("990c7c49-dbb2-470b-bb05-2f8260281759").unwrap();
    let b = parse_uuid("990c7c49dbb2470bbb052f8260281759").unwrap();
    assert_eq!(a, b);
    assert_eq!(a[0], 0x99);
    assert!(parse_uuid("short").is_none());
    assert!(parse_uuid("zz0c7c49dbb2470bbb052f8260281759").is_none());
}

#[test]
fn error_texts_name_what_was_refused() {
    assert_eq!(
        err("[route]\nblock_quic = \"maybe\n").text(),
        parse_bool("route", "block_quic", "\"maybe").unwrap_err().text()
    );
    let t = parse_bool("route", "block_quic", "a\"b").unwrap_err().text();
    assert!(t.starts_with("field route.block_quic = \"a\\\"b\" — "), "{t}");
    match parse_ini("[log]\nlevel\n") {
        Err(e) => assert!(e.text().starts_with("ini parse at line 2: "), "{}", e.text()),
        Ok(_) => panic!("accepted"),
    }
    assert_eq!(ConfigErr::Io("gone".into()).text(), "io: gone");
    assert_eq!(ConfigErr::Validation("no".into()).text(), "validation: no");
}

#[test]
fn host_bits_of_a_network_are_kept() {
    assert_eq!(net("10.1.2.3/8").text(), "10.1.2.3/8");
    assert!(net("10.1.2.3/8").contains(0x0aff_ffff));
    assert!(!net("10.1.2.3/8").contains(0x0b00_0000));
    assert!(Ipv4Net::parse("10.1.2.3").is_none());
    assert!(Ipv4Net::parse("10.1.2.3/33").is_none());
}

#[test]
fn udp_workers_follow_the_processors() {
    assert!(default_udp_workers(1) >= 1);
    assert!(default_udp_workers(64) <= 64);
    assert_eq!(cfg("").inbound.udp_workers, default_udp_workers(CPUS));
    let d = Config::defaults(CPUS);
    assert_eq!(d.inbound.listen, cfg("").inbound.listen);
}
