use sniffbox::addr::{IpAddr, SocketAddr};
use sniffbox::cli::{
    bind_failure, enable_bbr, nofile_fallback, nofile_want, parse_args, raise_sysctl, run_plan,
    sysctl_path, wants_fq, warm_due, warm_wait, BindFailure, ConfigSource, Congestion, ParsedArgs,
    RAISE,
};
use sniffbox::config::{Config, ConfigErr, OutboundMode};
use sniffbox::dns_server::{
    handle_query, Query, Reply, CLASS_IN, RCODE_FORMERR, RCODE_NOTIMP, RCODE_NXDOMAIN, TYPE_A,
};
use sniffbox::inbound_proxy::HEALTHCHECK_PORT;
use sniffbox::logging::{
    filter_text, fmt_fields, fmt_flow, format_event, on_console, paint, sanitize, Level, GREEN,
    RESET,
};
use sniffbox::outbound::{resolved_addr, Connect, Outbound, UdpUpstream};
use sniffbox::ovpn_ctl::{
    monitor_next, monitor_start, proc_is_ovpn, EnsureStep, MonitorStep, OvpnSupervisor,
};
use sniffbox::probe::{is_udp_req, probe_udp, UdpOutcome, WebProbe, MAX_INFLIGHT};
use sniffbox::resolver::{
    bind_addr, check_answer, resolv_conf_nameserver, AnswerErr, Resolve, ResolveErr, Resolver,
    CACHE_SOFT_CAP,
};
use sniffbox::tasks::{drain_local, flush_once, Drained, Tidy};

fn sock(s: &str) -> SocketAddr {
    SocketAddr::parse(s).unwrap()
}

fn ip(s: &str) -> IpAddr {
    IpAddr::parse(s).unwrap()
}

fn args(words: &[&str]) -> Vec<String> {
    words.iter().map(|w| w.to_string()).collect()
}

#[test]
fn parse_args_production_when_no_c() {
    match parse_args(&args(&["sniffbox"]), "1").unwrap() {
        ParsedArgs::Run(r) => assert!(matches!(r.source, ConfigSource::Production)),
        _ => panic!("expected Run"),
    }
}

#[test]
fn parse_args_custom_path() {
    match parse_args(&args(&["sniffbox", "-c", "/etc/x.ini"]), "1").unwrap() {
        ParsedArgs::Run(r) => {
            assert!(matches!(r.source, ConfigSource::File(p) if p == "/etc/x.ini"));
        }
        _ => panic!("expected Run"),
    }
}

#[test]
fn parse_args_listen_override() {
    match parse_args(&args(&["sniffbox", "--listen", "0.0.0.0:9999"]), "1").unwrap() {
        ParsedArgs::Run(r) => {
            assert_eq!(r.overrides.listen.unwrap().port, 9999);
        }
        _ => panic!("expected Run"),
    }
}

#[test]
fn parse_args_help() {
    assert!(matches!(
        parse_args(&args(&["sniffbox", "--help"]), "1").unwrap(),
        ParsedArgs::PrintAndExit(_)
    ));
}

#[test]
fn parse_args_version() {
    match parse_args(&args(&["sniffbox", "-V"]), "1.2.3").unwrap() {
        ParsedArgs::PrintAndExit(s) => {
            assert!(s.starts_with("sniffbox "));
            assert_eq!(s, "sniffbox 1.2.3");
        }
        _ => panic!("expected PrintAndExit"),
    }
}

#[test]
fn arguments_that_cannot_be_taken_are_named() {
    let err = |words: &[&str]| parse_args(&args(words), "1").unwrap_err();
    assert_eq!(err(&["s", "-c"]), "missing value for -c");
    assert_eq!(err(&["s", "--listen"]), "missing value for --listen");
    assert_eq!(err(&["s", "--log-level"]), "missing value for --log-level");
    assert_eq!(err(&["s", "-x"]), "unknown arg: -x");
    let std_err = "nope".parse::<core::net::SocketAddr>().unwrap_err();
    assert_eq!(
        err(&["s", "--listen", "nope"]),
        format!("--listen: invalid socket addr: {std_err}")
    );
}

#[test]
fn the_command_line_goes_before_the_file() {
    let p = parse_args(&args(&["s", "--listen", "1.2.3.4:5", "--log-level", "debug"]), "1");
    let mut cfg = Config::defaults(2);
    match p.unwrap() {
        ParsedArgs::Run(r) => {
            r.overrides.apply(&mut cfg);
            assert_eq!(r.source.describe(), "<production: fixed + /tmp/ppgw.ini>");
            assert!(r.source.write_running_snapshot().is_some());
        }
        _ => panic!("expected Run"),
    }
    assert_eq!(cfg.inbound.listen, sock("1.2.3.4:5"));
    assert_eq!(cfg.log.level, "debug");
}

#[test]
fn sources_are_loaded_from_their_texts() {
    let file = ConfigSource::File("/etc/x.ini".into());
    assert_eq!(file.path(), "/etc/x.ini");
    let c = file.load(Ok("[log]\nlevel = warn\n"), 2, false, None, None);
    assert_eq!(c.ok().unwrap().log.level, "warn");
    match file.load(Err("gone"), 2, false, None, None) {
        Err(ConfigErr::Io(e)) => assert_eq!(e, "gone"),
        _ => panic!("expected an error"),
    }
    let c = ConfigSource::Production.load(Err("gone"), 2, false, None, None).ok().unwrap();
    assert!(c.inbound_proxy.enabled);
    let c = ConfigSource::Production.load(Ok("mode=ovpn\n"), 2, false, None, None).ok().unwrap();
    assert_eq!(c.outbound.mode, OutboundMode::Ovpn);
}

#[test]
fn limits_of_the_system_are_only_raised() {
    assert_eq!(nofile_want(10), 1_048_576);
    assert_eq!(nofile_want(2_000_000), 2_000_000);
    assert_eq!(nofile_fallback(10, 20), Some(20));
    assert_eq!(nofile_fallback(20, 20), None);
    assert_eq!(sysctl_path(RAISE[0].0), "/proc/sys/net/core/rmem_max");
    assert_eq!(raise_sysctl(Some("8192\n"), 8192), None);
    assert_eq!(raise_sysctl(Some("128\n"), 8192).as_deref(), Some("8192"));
    assert_eq!(raise_sysctl(None, 8192).as_deref(), Some("8192"));
    assert!(wants_fq("pfifo_fast\n"));
    assert!(!wants_fq("fq_codel\n"));
    assert_eq!(enable_bbr("reno cubic\n", "cubic\n"), Congestion::Unavailable);
    assert_eq!(enable_bbr("reno cubic bbr\n", "cubic\n"), Congestion::SetBbr);
    assert_eq!(enable_bbr("reno cubic bbr\n", "bbr\n"), Congestion::Keep);
}

#[test]
fn the_configuration_decides_what_is_started() {
    let mut c = Config::defaults(2);
    c.inbound.tcp_workers = 0;
    c.inbound.udp = false;
    c.inbound.listen6 = Some(sock("[::1]:1081"));
    let p = run_plan(&c, true);
    assert_eq!(p.tcp_workers, 1);
    assert!(!p.clash && !p.ovpn && !p.stats);
    assert_eq!(p.udp6, None);
    assert_eq!(p.dns, None);
    c.outbound.mode = OutboundMode::Yaml;
    assert!(run_plan(&c, true).clash);
    c.outbound.mode = OutboundMode::Ovpn;
    assert!(run_plan(&c, true).ovpn);
    assert_eq!(bind_failure(0, true), BindFailure::Fatal);
    assert_eq!(bind_failure(0, false), BindFailure::Skip);
    assert_eq!(bind_failure(1, true), BindFailure::Fewer);
    assert_eq!(warm_wait(10, 4_000), Some(6_000));
    assert_eq!(warm_wait(10, 10_001), None);
    assert_eq!(warm_wait(u64::MAX, 0), Some(u64::MAX as u128 * 1_000));
    assert!(warm_due(5_000) && !warm_due(4_999));
}

fn flow(scheme: Option<&str>, domain: Option<&str>) -> String {
    fmt_flow(false, ip("10.10.10.202"), sock("43.132.107.47:443"), scheme, domain, false)
}

#[test]
fn flow_plain_ip_when_no_domain() {
    assert_eq!(flow(None, None), "10.10.10.202 -> 43.132.107.47:443");
    assert_eq!(flow(Some("bt"), None), "10.10.10.202 -> 43.132.107.47:443");
}

#[test]
fn flow_scheme_domain_port() {
    assert_eq!(flow(Some("tls"), Some("a.com")), "10.10.10.202 -> tls://a.com:443");
    assert_eq!(flow(None, Some("a.com")), "10.10.10.202 -> a.com:443");
}

#[test]
fn flow_udp_marker_before_arrow() {
    let s = fmt_flow(
        false,
        ip("10.10.10.202"),
        sock("43.132.107.47:443"),
        Some("quic"),
        Some("a.com"),
        true,
    );
    assert_eq!(s, "10.10.10.202 UDP -> quic://a.com:443");
}

#[test]
fn flow_sanitizes_control_chars_in_domain() {
    assert_eq!(
        flow(Some("tls"), Some("a\x1b[31m.com")),
        "10.10.10.202 -> tls://a\u{FFFD}[31m.com:443"
    );
    for c in '\0'..='\u{2ff}' {
        let want = if c.is_control() { '\u{FFFD}' } else { c };
        assert_eq!(sanitize(&c.to_string()), want.to_string());
    }
}

#[test]
fn broadcast_preserves_message_ansi_color_codes() {
    let f = ("message".to_string(), "\x1b[32ma.com\x1b[0m".to_string());
    assert_eq!(fmt_fields(false, &[f]), "\x1b[32ma.com\x1b[0m");
}

#[test]
fn lines_of_the_log_are_laid_out() {
    let f = |n: &str, v: &str| (n.to_string(), v.to_string());
    assert_eq!(
        format_event(false, Some(0), Level::Warn, &[f("message", "hi"), f("k", "a\nb")]),
        " PaoPaoGW BOX 08:00:00 WARN hi k=a\u{FFFD}b\n"
    );
    assert_eq!(
        format_event(false, None, Level::Info, &[f("message", "[PaoPaoGW X] y")]),
        " [PaoPaoGW X] y\n"
    );
    assert_eq!(paint(true, GREEN, "x"), format!("{GREEN}x{RESET}"));
    assert_eq!(paint(false, GREEN, "x"), "x");
    assert_eq!(filter_text(None, "info"), "info,sniffbox::smart_speed=debug");
    assert_eq!(filter_text(Some("warn"), "info"), "warn,sniffbox::smart_speed=debug");
    assert!(!on_console("sniffbox::smart_speed::x", Level::Debug));
    assert!(on_console("sniffbox::smart_speed::x", Level::Info));
    assert!(on_console("sniffbox", Level::Debug));
}

#[test]
fn config_missing_ensure_up_is_noop() {
    let mut sup = OvpnSupervisor::new(None, None);
    assert_eq!(sup.ensure_up(false, None, false), EnsureStep::NoConfig);
    assert_eq!(sup.ensure_up(false, None, true), EnsureStep::Spawn);
    assert_eq!(sup.ensure_up(false, Some(7), true), EnsureStep::Adopted);
    assert_eq!(sup.ensure_up(true, None, true), EnsureStep::Running);
    assert!(sup.cold_restart(false).is_err());
    assert_eq!(sup.pid(), None);
}

#[test]
fn config_changed_false_without_file() {
    let sup = OvpnSupervisor::new(None, None);
    assert!(!sup.config_changed(None));
    assert!(sup.config_changed(Some(5)));
    let adopted = OvpnSupervisor::new(Some(9), Some(5));
    assert!(!adopted.config_changed(Some(5)));
    assert!(adopted.config_changed(Some(6)));
    assert!(!adopted.config_changed(None));
}

#[test]
fn proc_is_ovpn_rejects_self() {
    assert!(!proc_is_ovpn(Some("gateway_test\n")));
    assert!(proc_is_ovpn(Some("openvpn\n")));
}

#[test]
fn a_sick_tunnel_is_restarted_twice() {
    assert_eq!(monitor_start(true, true), MonitorStep::Reload);
    assert_eq!(monitor_start(false, true), MonitorStep::Done);
    assert_eq!(monitor_start(false, false), MonitorStep::Restart(1));
    assert_eq!(monitor_next(1, false), MonitorStep::Restart(2));
    assert_eq!(monitor_next(2, false), MonitorStep::GiveUp);
    assert_eq!(monitor_next(1, true), MonitorStep::Done);
    let sup = OvpnSupervisor::new(Some(9), None);
    assert!(sup.is_healthy(true, None, true));
    assert!(sup.is_healthy(false, Some(3), true));
    assert!(!sup.is_healthy(true, None, false));
    assert_eq!(sup.kill_target(Some(3)), Some(9));
}

fn with_mode(mode: OutboundMode) -> Config {
    let mut c = Config::defaults(2);
    c.outbound.mode = mode;
    c.socks5.server = sock("127.0.0.1:1080");
    c
}

#[test]
fn socks5_mode_builds_pool_with_target_and_auth() {
    let mut c = with_mode(OutboundMode::Socks5);
    c.outbound.upstream = Some(sock("9.9.9.9:1080"));
    c.outbound.auth = Some(("u".into(), "p".into()));
    let ob = Outbound::build(&c, None, false);
    let pool = ob.socks5_pool().expect("socks5 mode has a pool");
    assert_eq!(pool.target, sock("9.9.9.9:1080"));
    assert_eq!(pool.auth, Some(("u".into(), "p".into())));
    match ob.udp_upstream() {
        UdpUpstream::Socks5 { target, auth } => {
            assert_eq!(target, sock("9.9.9.9:1080"));
            assert!(auth.is_some());
        }
        _ => panic!("expected socks5 udp upstream"),
    }
}

#[test]
fn direct_reload_swaps_resolver_only() {
    let mut c = with_mode(OutboundMode::Ovpn);
    c.outbound.bind_device = Some("tun114".into());
    c.outbound.resolver.server = Some(sock("1.1.1.1:53"));
    let mut ob = Outbound::build(&c, None, true);
    c.outbound.resolver.server = Some(sock("9.9.9.9:53"));
    match &ob {
        Outbound::Direct(d) => {
            assert_eq!(d.bind_device.as_deref(), Some("tun114"));
            assert_eq!(d.resolver.server(), sock("1.1.1.1:53"));
        }
        _ => panic!("ovpn → Direct"),
    }
    ob.reload(&c, None);
    match &ob {
        Outbound::Direct(d) => {
            assert_eq!(d.resolver.server(), sock("9.9.9.9:53"));
            assert_eq!(d.bind_device.as_deref(), Some("tun114"));
        }
        _ => panic!("ovpn → Direct"),
    }
}

#[test]
fn socks5_reload_is_noop() {
    let c = with_mode(OutboundMode::Yaml);
    let mut ob = Outbound::build(&c, None, false);
    ob.reload(&c, None);
    assert!(ob.socks5_pool().is_some());
}

#[test]
fn yaml_mode_targets_clash_no_auth() {
    let ob = Outbound::build(&with_mode(OutboundMode::Yaml), None, false);
    let pool = ob.socks5_pool().unwrap();
    assert_eq!(pool.target, sock("127.0.0.1:1080"));
    assert!(pool.auth.is_none());
}

#[test]
fn ovpn_gate_rejects_before_resolve_when_tun_down() {
    let mut c = with_mode(OutboundMode::Ovpn);
    c.outbound.bind_device = Some("tun-nonexistent-zzz".into());
    let mut ob = Outbound::build(&c, None, false);
    assert_eq!(ob.tun_ready(), Some(false), "ovpn has a gate");
    let dest = sock("0.0.0.0:443");
    assert_eq!(ob.connect_tcp(dest, Some("example.com")), Connect::NotReady);
    ob.set_ready(true);
    assert_eq!(ob.connect_tcp(dest, Some("example.com")), Connect::Resolve(443));
}

#[test]
fn direct_connect_literal_ip_no_dns() {
    let ob = Outbound::build(&with_mode(OutboundMode::Free), None, false);
    assert!(ob.is_direct() && ob.socks5_pool().is_none());
    assert_eq!(ob.tun_ready(), None);
    let dest = sock("127.0.0.1:4321");
    assert_eq!(ob.connect_tcp(dest, None), Connect::Dial(dest));
    assert_eq!(resolved_addr(0x7f00_0001, 4321), dest);
}

#[test]
fn cache_put_is_bounded() {
    let mut r = Resolver::from_cfg(Some(sock("127.0.0.1:1")), None);
    for i in 0..(CACHE_SOFT_CAP + 64) {
        r.cache_put(&format!("h{i}.example"), &[0x7f00_0001], 600, 0);
    }
    assert!(
        r.cached() <= CACHE_SOFT_CAP,
        "cache must stay bounded, got {}",
        r.cached()
    );
    r.cache_put("fresh.example", &[1], 600, 600_000);
    assert_eq!(r.cached(), 1, "answers whose time is over make room");
}

#[test]
fn literal_ip_skips_upstream() {
    let mut r = Resolver::from_cfg(Some(sock("127.0.0.1:1")), None);
    assert_eq!(r.resolve_v4("203.0.113.7", 0), Resolve::Known(0xcb00_7107));
}

#[test]
fn inflight_dedup_shares_one_roundtrip() {
    let mut r = Resolver::from_cfg(Some(sock("127.0.0.1:1")), None);
    assert_eq!(r.resolve_v4("dedup.example", 0), Resolve::Lead);
    for _ in 0..49 {
        assert_eq!(r.resolve_v4("dedup.example", 0), Resolve::Follow);
    }
    assert_eq!(r.followed("dedup.example", Some(&[0x0101_0101]), 0), Some(0x0101_0101));
    assert_eq!(r.query_and_cache("dedup.example", Some((&[0x0101_0101], 60)), 0), Ok(0x0101_0101));
    r.release("dedup.example");
    assert_eq!(r.resolve_v4("dedup.example", 59_999), Resolve::Known(0x0101_0101));
    assert_eq!(r.resolve_v4("dedup.example", 60_000), Resolve::Lead);
}

#[test]
fn follower_recovers_when_leader_cancelled() {
    let mut r = Resolver::from_cfg(Some(sock("127.0.0.1:1")), None);
    assert_eq!(r.resolve_v4("poison.example", 0), Resolve::Lead);
    r.release("poison.example");
    assert_eq!(r.followed("poison.example", None, 0), None);
    assert_eq!(r.resolve_v4("poison.example", 0), Resolve::Lead);
    let e = r.query_and_cache("poison.example", None, 0).unwrap_err();
    assert_eq!(e.text(), "dns query failed");
    assert_eq!(r.query_and_cache("x", Some((&[], 60)), 0), Err(ResolveErr::NoAddress));
}

#[test]
fn set_from_cfg_swaps_server() {
    let mut r = Resolver::from_cfg(Some(sock("1.1.1.1:53")), None);
    assert_eq!(r.server(), sock("1.1.1.1:53"));
    r.set_from_cfg(Some(sock("2.2.2.2:53")), None);
    assert_eq!(r.server(), sock("2.2.2.2:53"));
    r.set_from_cfg(None, Some("# x\nnameserver bad\n nameserver 9.9.9.9\n"));
    assert_eq!(r.server(), sock("9.9.9.9:53"));
    r.set_from_cfg(None, Some(""));
    assert_eq!(r.server(), sock("8.8.8.8:53"));
    assert_eq!(resolv_conf_nameserver("nameserver ::1\n"), Some(sock("[::1]:53")));
    assert_eq!((r.take_id(), r.take_id()), (1, 2));
    assert_eq!(bind_addr(sock("[::1]:53")), sock("[::]:0"));
    assert_eq!(bind_addr(sock("1.1.1.1:53")), sock("0.0.0.0:0"));
    assert_eq!(check_answer(1, 2, 1), Err(AnswerErr::IdMismatch));
    assert_eq!(check_answer(1, 1, 0).unwrap_err().text(), "no A record in response");
    assert_eq!(check_answer(1, 1, 1), Ok(()));
}

#[test]
fn short_and_long_times_are_kept_within_bounds() {
    let mut r = Resolver::from_cfg(None, None);
    r.cache_put("a", &[1], 0, 0);
    assert_eq!(r.cache_get("a", 1_999), Some(1));
    assert_eq!(r.cache_get("a", 2_000), None);
    r.cache_put("b", &[2], 86_400, 0);
    assert_eq!(r.cache_get("b", 599_999), Some(2));
    assert_eq!(r.cache_get("b", 600_000), None);
}

#[test]
fn inflight_cap_returns_busy_and_permits_are_returned() {
    let mut p = WebProbe::new(false);
    for _ in 0..MAX_INFLIGHT {
        assert!(p.acquire(), "under cap");
    }
    assert_eq!(p.inflight(), MAX_INFLIGHT);
    assert!(!p.acquire(), "when quota full, should not get permit");
    for _ in 0..MAX_INFLIGHT {
        p.release();
    }
    assert_eq!(p.inflight(), 0, "permit drop should return quota");
    assert!(p.acquire());
}

#[test]
fn proxy_targets_the_healthcheck_inbound() {
    assert_eq!(
        WebProbe::new(false).proxy(),
        format!("socks5h://127.0.0.1:{HEALTHCHECK_PORT}")
    );
    assert_eq!(WebProbe::new(false).socks_addr(), sock("127.0.0.1:1079"));
}

#[test]
fn udp_request_is_routed_to_the_udp_probe() {
    assert!(is_udp_req(r#"{"udp":true}"#));
    assert!(!is_udp_req(r#"{"udp":false}"#));
    assert!(!is_udp_req(r#"{"url":"https://example.com/"}"#));
    assert!(!is_udp_req("not json"), "bad json falls through to http probe");
}

#[test]
fn udp_probe_short_circuits_when_udp_disabled() {
    let v: serde_json::Value = serde_json::from_str(&probe_udp(None)).unwrap();
    assert_eq!(v["ok"], true);
    assert_eq!(v["body"], "udp=0");
}

#[test]
fn udp_probe_failure_is_encoded_in_body_not_ok_false() {
    let out = probe_udp(Some(UdpOutcome::Failed { err: "a\"b".into(), ms: 7 }));
    let v: serde_json::Value = serde_json::from_str(&out).unwrap();
    assert_eq!(v["ok"], true, "failure must not surface as ok:false");
    assert_eq!(v["status"], 200);
    assert_eq!(v["ms"], 7);
    assert_eq!(v["body"], "udp=2\nerr=a\"b");
    assert_eq!(out, r#"{"body":"udp=2\nerr=a\"b","ms":7,"ok":true,"status":200}"#);
    let out = probe_udp(Some(UdpOutcome::Egress { ip: "1.2.3.4".into(), via: "x".into(), ms: 1 }));
    let v: serde_json::Value = serde_json::from_str(&out).unwrap();
    assert_eq!(v["body"], "udp=1\nip=1.2.3.4\nvia=x");
    let out = probe_udp(Some(UdpOutcome::Partial { via: "x".into(), err: "e".into(), ms: 1 }));
    let v: serde_json::Value = serde_json::from_str(&out).unwrap();
    assert_eq!(v["body"], "udp=3\nerr=udp reachable (x), egress probe blocked: e");
}

fn query(qclass: u16, qtype: u16, valid: bool) -> Reply {
    handle_query(Some(Query { qclass, qtype, valid }))
}

#[test]
fn aaaa_and_https_are_nodata() {
    for qt in [28u16, 65] {
        assert_eq!(query(CLASS_IN, qt, true), Reply::NoData);
    }
    assert_eq!(query(CLASS_IN, TYPE_A, true), Reply::Address);
    assert_eq!(query(3, TYPE_A, true), Reply::Error(RCODE_NOTIMP));
}

#[test]
fn malformed_query_is_formerr_no_panic() {
    assert_eq!(handle_query(None), Reply::Error(RCODE_FORMERR));
}

#[test]
fn invalid_domain_nxdomain_no_alloc() {
    assert_eq!(query(CLASS_IN, TYPE_A, false), Reply::Error(RCODE_NXDOMAIN));
}

fn drained(up: u64, down: u64) -> Drained {
    Drained {
        id: 1,
        new_up: up,
        new_down: down,
        fold_up: up,
        fold_down: down,
        up: 500,
        down: 1000,
        closed: false,
    }
}

#[test]
fn drain_accumulates_totals_then_zero_on_idle() {
    let (acts, down, up) = drain_local(&[drained(500, 1000)], true);
    assert_eq!((down, up), (1000, 500));
    assert!(acts[0].touch && acts[0].update && acts[0].fold);
    let (acts, down, up) = drain_local(&[drained(0, 0)], true);
    assert_eq!((down, up), (0, 0));
    assert!(!acts[0].touch && !acts[0].update && !acts[0].fold);
}

#[test]
fn close_path_tail_bytes_counted_in_totals() {
    let mut d = drained(900, 1_073_741_824);
    d.closed = true;
    let (acts, down, up) = drain_local(&[d], true);
    assert_eq!((down, up), (1_073_741_824, 900));
    assert!(acts[0].touch && !acts[0].update);
    assert_eq!(flush_once(1_000, 31_000, 9), Tidy::Rebuild(9));
    assert_eq!(flush_once(0, 31_000, 9), Tidy::Prune(9));
}

#[test]
fn the_probe_knows_whether_datagrams_are_relayed() {
    assert!(WebProbe::new(true).udp_enabled());
    assert!(!WebProbe::new(false).udp_enabled());
}

#[test]
fn resolves_via_mock_and_caches() {
    let mut r = Resolver::from_cfg(Some(sock("127.0.0.1:53")), None);
    assert_eq!(r.resolve_v4("example.com", 0), Resolve::Lead);
    assert_eq!(r.query_and_cache("example.com", Some((&[0x5db8_d822], 60)), 0), Ok(0x5db8_d822));
    r.release("example.com");
    assert!(r.cache_get("example.com", 1).is_some());
    assert_eq!(r.resolve_v4("example.com", 1), Resolve::Known(0x5db8_d822));
}

#[test]
fn times_out_on_silent_server() {
    let mut r = Resolver::from_cfg(Some(sock("127.0.0.1:53")), None);
    assert_eq!(r.resolve_v4("nowhere.example", 0), Resolve::Lead);
    assert!(r.query_and_cache("nowhere.example", None, 200).is_err());
    r.release("nowhere.example");
    assert_eq!(r.cache_get("nowhere.example", 200), None);
}

#[test]
fn adopts_none_when_no_ovpn() {
    let sup = OvpnSupervisor::new(None, None);
    assert!(sup.pid().is_none());
}

#[test]
fn a_reload_resizes_the_pool() {
    let mut c = with_mode(OutboundMode::Socks5);
    let mut ob = Outbound::build(&c, None, false);
    let target = ob.socks5_pool().unwrap().target;
    c.socks5.pool_min = 3;
    c.socks5.pool_max = 9;
    c.socks5.pool_idle_sec = 77;
    ob.reload(&c, None);
    ob.resize_pool(&c);
    let pool = ob.socks5_pool().unwrap();
    assert_eq!((pool.pool_min, pool.pool_max, pool.pool_idle_sec), (3, 9, 77));
    assert_eq!(pool.target, target);

    let mut direct = Outbound::build(&with_mode(OutboundMode::Free), None, false);
    direct.resize_pool(&c);
    assert!(direct.is_direct());
}
