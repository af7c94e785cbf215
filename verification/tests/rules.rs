use sniffbox::addr::{IpAddr, SocketAddr};
use sniffbox::cf_edge::builtin_candidates;
use sniffbox::domain_rules::{self, IpHints};
use sniffbox::engine::{
    could_start_known_proto, farewell, is_server_first_port, look_plan, looks_inside, peek_after,
    peek_ready, proto_scheme, relay_plan, resolve_domains, serve_established, should_block,
    unknown_label, Block, FakeIp,
    PeekEvent, PeekNext, Proto, RelayEvent, RelayRun, RelayStep, Sniffed,
};
use sniffbox::inbound_proxy::Established;
use sniffbox::geo_cron::{date_text, parse_restart_hour, restarts, should_fire, tick, Tick};
use sniffbox::ip_rules::{self, EDGE_V4, EDGE_V6, TELEGRAM_V4, TELEGRAM_V6};
use sniffbox::records::{InboundKind, SniffedProto};
use sniffbox::runtime::RouteFlags;

fn ip(s: &str) -> IpAddr {
    IpAddr::parse(s).unwrap()
}

fn sock(s: &str) -> SocketAddr {
    SocketAddr::parse(s).unwrap()
}

#[test]
fn parse_enabled_hour() {
    assert_eq!(parse_restart_hour(r#"{"restart_cron":{"enable":true,"hour":4}}"#), Some(4));
    assert_eq!(parse_restart_hour(r#"{"restart_cron":{"enable":true,"hour":0}}"#), Some(0));
    assert_eq!(parse_restart_hour(r#"{"restart_cron":{"enable":true,"hour":23}}"#), Some(23));
}

#[test]
fn parse_rejects_disabled_missing_invalid() {
    assert_eq!(parse_restart_hour(r#"{"restart_cron":{"enable":false,"hour":4}}"#), None);
    assert_eq!(parse_restart_hour(r#"{"restart_cron":{"hour":4}}"#), None);
    assert_eq!(parse_restart_hour(r#"{"restart_cron":{"enable":true,"hour":24}}"#), None);
    assert_eq!(parse_restart_hour(r#"{"restart_cron":{"enable":true,"hour":-1}}"#), None);
    assert_eq!(parse_restart_hour(r#"{"restart_cron":{"enable":true,"hour":"4"}}"#), None);
    assert_eq!(parse_restart_hour(r#"{"restart_cron":{"enable":true}}"#), None);
    assert_eq!(parse_restart_hour(r#"{"global_monitor":{"enable":true}}"#), None);
    assert_eq!(parse_restart_hour("not json"), None);
}

#[test]
fn fire_once_per_day_at_hour() {
    assert!(should_fire(4, 4, "2026-07-16", None));
    assert!(should_fire(4, 4, "2026-07-16", Some("2026-07-15")));
    assert!(!should_fire(4, 4, "2026-07-16", Some("2026-07-16")));
    assert!(!should_fire(4, 4, "2026-07-16", Some("2026-07-16\n")));
    assert!(!should_fire(4, 3, "2026-07-16", None));
    assert!(!should_fire(4, 5, "2026-07-16", None));
    assert_eq!(date_text(2026, 7, 6), "2026-07-06");
}

#[test]
fn all_cidrs_parse() {
    let telegram = [
        "91.105.192.0/23",
        "91.108.4.0/22",
        "91.108.8.0/21",
        "91.108.16.0/21",
        "91.108.56.0/22",
        "95.161.64.0/20",
        "149.154.160.0/20",
        "185.76.151.0/24",
        "2001:67c:4e8::/48",
        "2001:b28:f23c::/47",
        "2001:b28:f23f::/48",
        "2a0a:f280::/32",
    ];
    let edge = ["198.41.192.0/24", "198.41.200.0/24", "2606:4700:a0::/48", "2606:4700:a8::/48"];
    let check = |texts: &[&str], v4: &[(u32, u8)], v6: &[(u128, u8)]| {
        assert_eq!(texts.len(), v4.len() + v6.len());
        for (i, t) in texts.iter().enumerate() {
            match t.parse::<ipnet::IpNet>().unwrap() {
                ipnet::IpNet::V4(n) => assert_eq!(v4[i], (u32::from(n.addr()), n.prefix_len())),
                ipnet::IpNet::V6(n) => {
                    assert_eq!(v6[i - v4.len()], (u128::from(n.addr()), n.prefix_len()))
                }
            }
        }
    };
    check(&telegram, &TELEGRAM_V4, &TELEGRAM_V6);
    check(&edge, &EDGE_V4, &EDGE_V6);
}

#[test]
fn matches_known_telegram_ipv4() {
    assert_eq!(ip_rules::match_group(ip("149.154.167.51")), Some("telegram"));
    assert_eq!(ip_rules::match_group(ip("91.108.4.1")), Some("telegram"));
    assert_eq!(ip_rules::match_group(ip("185.76.151.200")), Some("telegram"));
}

#[test]
fn matches_known_telegram_ipv6() {
    assert_eq!(ip_rules::match_group(ip("2001:67c:4e8::1")), Some("telegram"));
    assert_eq!(ip_rules::match_group(ip("2a0a:f280:1::1234")), Some("telegram"));
}

#[test]
fn matches_cloudflared_edge_ranges() {
    for a in builtin_candidates() {
        assert_eq!(
            ip_rules::match_group(a),
            Some("cloudflared"),
            "builtin edge {} must fall inside the cloudflared group",
            a.text()
        );
    }
    assert_eq!(ip_rules::match_group(ip("2606:4700:a0::1")), Some("cloudflared"));
    assert_eq!(ip_rules::match_group(ip("2606:4700:a8::10")), Some("cloudflared"));
    assert_eq!(ip_rules::match_group(ip("104.16.0.1")), None);
    assert_eq!(ip_rules::match_group(ip("198.41.128.1")), None);
}

#[test]
fn rejects_non_group() {
    assert_eq!(ip_rules::match_group(ip("8.8.8.8")), None);
    assert_eq!(ip_rules::match_group(ip("1.1.1.1")), None);
    assert_eq!(ip_rules::match_group(ip("2606:4700::1")), None);
    assert_eq!(ip_rules::match_group(ip("91.105.194.0")), None);
}

#[test]
fn matches_group_domain_and_subdomains() {
    for d in [
        "argotunnel.com",
        "region1.v2.argotunnel.com",
        "update.argotunnel.com",
        "cftunnel.com",
        "h2.cftunnel.com",
    ] {
        assert_eq!(domain_rules::match_group(d), Some("cloudflared"), "{d} should match");
    }
}

#[test]
fn match_is_case_insensitive_and_tolerates_fqdn_dot() {
    assert_eq!(domain_rules::match_group("Region1.V2.ArgoTunnel.COM"), Some("cloudflared"));
    assert_eq!(domain_rules::match_group("argotunnel.com."), Some("cloudflared"));
}

#[test]
fn rejects_non_group_and_label_boundary_lookalikes() {
    for d in [
        "example.com",
        "cloudflare.com",
        "notargotunnel.com",
        "xargotunnel.com",
        "argotunnel.com.evil.net",
        "cfargotunnel.com",
        "cloudflareaccess.com",
        "trycloudflare.com",
        "cloudflareclient.com",
        "",
        ".",
    ] {
        assert_eq!(domain_rules::match_group(d), None, "{d} must not match");
    }
}

#[test]
fn hints_roundtrip() {
    let mut h = IpHints::default();
    let a = ip("198.41.192.7");
    assert_eq!(h.get(a), None);
    h.note(a, "cloudflared");
    assert_eq!(h.get(a), Some("cloudflared"));
    h.note(a, "cloudflared");
    assert_eq!(h.len(), 1);
}

#[test]
fn empty_hints_short_circuit_without_touching_map() {
    let mut h = IpHints::default();
    assert!(h.is_empty());
    assert_eq!(h.get(ip("8.8.8.8")), None);
    assert_eq!(h.len(), 0);
}

#[test]
fn count_mirrors_map_len_across_evictions() {
    let mut h = IpHints::with_cap(8);
    for i in 0..40u32 {
        h.note(IpAddr::V4(0x0a00_0100 + i), "cloudflared");
    }
    let mut held = 0;
    for i in 0..40u32 {
        if h.get(IpAddr::V4(0x0a00_0100 + i)).is_some() {
            held += 1;
        }
    }
    assert_eq!(h.len(), held, "count mirror must survive eviction");
    assert!(h.len() <= 8);
}

#[test]
fn hints_evict_when_full_but_keep_recent() {
    let mut h = IpHints::with_cap(8);
    for i in 0..8u32 {
        h.note(IpAddr::V4(0x0a00_0000 + i), "cloudflared");
    }
    let hot = IpAddr::V4(0x0a00_0007);
    for i in 100..110u32 {
        h.note(IpAddr::V4(0x0a00_0000 + i), "cloudflared");
        assert_eq!(h.get(hot), Some("cloudflared"));
    }
    assert!(h.len() <= 8 + 1, "cap must bound growth, got {}", h.len());
    assert_eq!(h.get(hot), Some("cloudflared"), "recent entry survives");
}

#[test]
fn server_first_ports_bypassed_not_implicit_tls() {
    for p in [21, 22, 23, 25, 110, 143, 587] {
        assert!(is_server_first_port(p), "port {p} should bypass");
    }
    for p in [443, 465, 993, 995, 8443] {
        assert!(!is_server_first_port(p), "port {p} must still be sniffed");
    }
}

#[test]
fn prefix_gate_only_admits_known_first_bytes() {
    assert!(could_start_known_proto(0x16));
    assert!(could_start_known_proto(0x13));
    assert!(could_start_known_proto(b'G'));
    assert!(could_start_known_proto(b'P'));
    assert!(!could_start_known_proto(b'S'));
    assert!(!could_start_known_proto(0x00));
    assert!(!could_start_known_proto(0xff));
}

fn tls_sniff(domain: Option<&str>, ech_outer: bool) -> Sniffed {
    Sniffed { proto: Proto::Tls, domain: domain.map(str::to_string), ech_outer }
}

fn fake(domain: Option<&str>) -> FakeIp {
    FakeIp { inside: true, domain: domain.map(str::to_string) }
}

#[test]
fn resolve_non_ech_sni_is_routing_and_stats() {
    let s = tls_sniff(Some("a.com"), false);
    let r = resolve_domains(None, &s, None, sock("1.2.3.4:443"));
    assert_eq!(r.routing.as_deref(), Some("a.com"));
    assert_eq!(r.stats.as_deref(), Some("a.com"));
    assert!(!r.fakeip_unresolved);
}

#[test]
fn resolve_fakeip_sniff_first_ignores_ech() {
    let s = tls_sniff(Some("cloudflare-ech.com"), true);
    let r = resolve_domains(None, &s, Some(&fake(Some("real-target.com"))), sock("7.0.0.1:443"));
    assert_eq!(r.routing.as_deref(), Some("cloudflare-ech.com"));
    assert_eq!(r.stats.as_deref(), Some("cloudflare-ech.com"));
    assert!(!r.fakeip_unresolved);
}

#[test]
fn resolve_fakeip_sniff_fails_falls_back_to_lookback() {
    let s = tls_sniff(None, false);
    let r = resolve_domains(None, &s, Some(&fake(Some("real-target.com"))), sock("7.0.0.1:443"));
    assert_eq!(r.routing.as_deref(), Some("real-target.com"));
    assert!(!r.fakeip_unresolved);
}

#[test]
fn resolve_no_fakeip_ech_routes_by_ip_keeps_cover_for_stats() {
    let s = tls_sniff(Some("cloudflare-ech.com"), true);
    let r = resolve_domains(None, &s, None, sock("1.2.3.4:443"));
    assert_eq!(r.routing, None);
    assert_eq!(r.stats.as_deref(), Some("cloudflare-ech.com"));
    assert!(!r.fakeip_unresolved);
}

#[test]
fn resolve_handshake_domain_wins_over_ech() {
    let s = tls_sniff(Some("cloudflare-ech.com"), true);
    let r = resolve_domains(Some("explicit.com".into()), &s, None, sock("1.2.3.4:443"));
    assert_eq!(r.routing.as_deref(), Some("explicit.com"));
    assert_eq!(r.stats.as_deref(), Some("explicit.com"));
}

#[test]
fn resolve_fakeip_miss_blocks() {
    let s = tls_sniff(None, false);
    let r = resolve_domains(None, &s, Some(&fake(None)), sock("7.1.2.3:443"));
    assert_eq!(r.routing, None);
    assert!(r.fakeip_unresolved);
}

#[test]
fn healthcheck_label_by_port_http_else_tls() {
    assert!(matches!(unknown_label(InboundKind::HealthCheck, true, 80), SniffedProto::Http));
    assert!(matches!(unknown_label(InboundKind::HealthCheck, true, 8080), SniffedProto::Http));
    assert!(matches!(unknown_label(InboundKind::HealthCheck, true, 443), SniffedProto::Tls));
    assert!(matches!(unknown_label(InboundKind::HealthCheck, true, 8443), SniffedProto::Tls));
    assert!(matches!(unknown_label(InboundKind::Socks5, true, 80), SniffedProto::Socks5));
    assert!(matches!(unknown_label(InboundKind::Http, true, 443), SniffedProto::HttpProxy));
}

#[test]
fn peek_bails_early_on_non_proto_first_byte() {
    assert_eq!(peek_after(PeekEvent::Read(Proto::Unknown, Some(b'S'))), PeekNext::Stop);
    assert_eq!(peek_after(PeekEvent::Read(Proto::Unknown, Some(b'G'))), PeekNext::Read);
    assert_eq!(peek_after(PeekEvent::Read(Proto::Http, Some(b'G'))), PeekNext::Stop);
    assert_eq!(peek_after(PeekEvent::Failed), PeekNext::Fail);
    assert_eq!(peek_ready(false, 0), PeekNext::Stop);
    assert_eq!(peek_ready(true, 10), PeekNext::Stop);
    assert_eq!(peek_ready(false, 10), PeekNext::Read);
}

#[test]
fn connections_are_refused_only_where_asked_for() {
    let on = RouteFlags {
        block_bittorrent: true,
        block_quic: true,
        block_unknown: true,
        log_sniffed: true,
    };
    let off = RouteFlags {
        block_bittorrent: false,
        block_quic: false,
        block_unknown: false,
        log_sniffed: false,
    };
    assert_eq!(should_block(on, false, false, Proto::Bittorrent, false), Some(Block::Bittorrent));
    assert_eq!(should_block(on, false, false, Proto::Unknown, false), Some(Block::Unknown));
    assert_eq!(should_block(on, false, false, Proto::Unknown, true), None);
    assert_eq!(should_block(on, true, true, Proto::Bittorrent, false), None);
    assert_eq!(should_block(off, false, false, Proto::Bittorrent, false), None);
    let r = should_block(off, false, true, Proto::Tls, false);
    assert_eq!(r.unwrap().reason(), "fakeip-unresolved");
}

#[test]
fn looked_at_bytes_are_sent_once() {
    let spliced = relay_plan(40001, 3, 5, true);
    assert!(spliced.send_prelude && spliced.send_peeked && !spliced.replay_peeked);
    assert_eq!(spliced.remember, Some(40001));
    let copied = relay_plan(0, 0, 5, false);
    assert!(!copied.send_peeked && copied.replay_peeked);
    assert_eq!(copied.remember, None);
    assert!(looks_inside(true, 443, None, false));
    assert!(!looks_inside(true, 22, None, false));
    assert!(!looks_inside(true, 443, Some("telegram"), false));
    assert_eq!(proto_scheme(Proto::Tls), Some("tls"));
}

#[test]
fn the_restart_comes_once_and_only_with_its_marker() {
    let four = Some(r#"{"restart_cron":{"enable":true,"hour":4}}"#);
    let day = "2024-05-01";
    assert_eq!(tick(true, four, 4, day, None), Tick::Restart);
    assert_eq!(tick(true, four, 4, day, Some("2024-04-30\n")), Tick::Restart);
    assert_eq!(tick(true, four, 4, day, Some("2024-05-01\n")), Tick::Idle);
    assert_eq!(tick(true, four, 5, day, None), Tick::Idle);
    assert_eq!(tick(false, four, 4, day, None), Tick::Idle);
    assert_eq!(tick(true, None, 4, day, None), Tick::Idle);
    assert_eq!(tick(true, Some("{}"), 4, day, None), Tick::Idle);
    assert!(restarts(Tick::Restart, true));
    assert!(!restarts(Tick::Restart, false) && !restarts(Tick::Idle, true));
}

#[test]
fn a_connection_is_served_whatever_goes_wrong() {
    let close = |client, other| RelayStep::Close { client, other };
    let mut r = RelayRun::new(3, 5, true);
    assert_eq!(r.next(RelayEvent::Unreachable).step, close(true, false));

    let mut r = RelayRun::new(3, 5, true);
    let m = r.next(RelayEvent::Connected(40001));
    assert_eq!((m.remember, m.sent, m.step), (Some(40001), 0, RelayStep::SendPrelude));
    assert_eq!(r.next(RelayEvent::NotSent).step, close(true, true));

    let mut r = RelayRun::new(3, 5, true);
    r.next(RelayEvent::Connected(0));
    let m = r.next(RelayEvent::Sent);
    assert_eq!((m.remember, m.sent, m.step), (None, 3, RelayStep::SendPeeked));
    let mut broken = r;
    assert_eq!(broken.next(RelayEvent::NotSent).step, close(true, true));
    let m = r.next(RelayEvent::Sent);
    assert_eq!((m.sent, m.step), (5, RelayStep::Copy { replay: false }));
    assert_eq!(r.next(RelayEvent::Ended).step, close(false, false));

    let mut r = RelayRun::new(0, 5, false);
    let m = r.next(RelayEvent::Connected(7));
    assert_eq!((m.remember, m.sent, m.step), (Some(7), 0, RelayStep::Copy { replay: true }));
}

fn came_in(dest: &str, domain: Option<&str>) -> Established {
    Established {
        dest: sock(dest),
        inbound: InboundKind::TProxy,
        domain: domain.map(str::to_string),
        prelude: Vec::new(),
        sniff: true,
    }
}

#[test]
fn a_connection_is_looked_at_named_and_served() {
    let est = came_in("93.184.216.34:443", None);
    let look = look_plan(&est, false);
    assert!(look.inside && look.ip_group.is_none() && !look.port_skip);
    assert!(!look_plan(&est, true).inside);
    assert!(look_plan(&came_in("93.184.216.34:22", None), false).port_skip);
    let route = RouteFlags {
        block_bittorrent: true,
        block_quic: false,
        block_unknown: true,
        log_sniffed: true,
    };
    let tls = Sniffed { proto: Proto::Tls, domain: Some("a.com".to_string()), ech_outer: false };
    let s = serve_established(&est, ip("10.0.0.2"), look, &tls, 300, None, route, false);
    assert_eq!(s.flow.as_deref(), Some("10.0.0.2 -> tls://a.com:443"));
    assert_eq!(s.refused, None);
    assert_eq!(s.routing.as_deref(), Some("a.com"));
    assert!(matches!(s.label, SniffedProto::Tls));
    assert!(!s.told_nothing && !s.keep_head);

    let dark = Sniffed { proto: Proto::Unknown, domain: None, ech_outer: false };
    let s = serve_established(&est, ip("10.0.0.2"), look, &dark, 5, None, route, false);
    assert_eq!(s.refused.as_deref(), Some("10.0.0.2 -> 93.184.216.34:443 blocked (unknown)"));
    assert!(s.told_nothing && s.keep_head);

    let named = came_in("93.184.216.34:443", Some("b.com"));
    let s = serve_established(&named, ip("10.0.0.2"), look, &dark, 0, None, route, false);
    assert_eq!(s.refused, None, "a name from the handshake is enough");
    assert!(!s.keep_head);

    let grouped = came_in("149.154.167.50:443", None);
    let look = look_plan(&grouped, false);
    assert!(look.ip_group.is_some() && !look.inside);
    let s = serve_established(&grouped, ip("10.0.0.2"), look, &dark, 0, None, route, false);
    assert_eq!(s.refused, None);
    assert!(matches!(s.label, SniffedProto::IpGroup(_)));
}

#[test]
fn a_connection_that_ends_is_settled() {
    let f = farewell(0, 0, 0);
    assert_eq!((f.forget, f.totals), (None, None));
    let f = farewell(40_000, 3, 5);
    assert_eq!((f.forget, f.totals), (Some(40_000), Some((5, 3))));
}

#[test]
fn exactly_a_quarter_of_the_oldest_leave() {
    let ip = |i: u32| IpAddr::V4(0x0a00_0000 + i);
    let mut h = IpHints::with_cap(8);
    for i in 0..8 {
        h.note(ip(i), "cloudflared");
    }
    assert_eq!(h.get(ip(0)), Some("cloudflared"));
    h.note(ip(3), "other");
    assert_eq!(h.len(), 8);
    h.note(ip(8), "new");
    assert_eq!(h.len(), 7);
    let left: Vec<u32> = (0..9).filter(|i| h.get(ip(*i)).is_some()).collect();
    assert_eq!(left, [0, 3, 4, 5, 6, 7, 8]);
    assert_eq!(h.get(ip(3)), Some("cloudflared"), "a known address keeps its label");
    assert_eq!(h.get(ip(8)), Some("new"));

    let mut small = IpHints::with_cap(2);
    for i in 0..5 {
        small.note(ip(i), "cloudflared");
        assert!(small.len() <= 2);
    }
    assert_eq!(small.get(ip(2)), None);
    assert_eq!(small.get(ip(3)), Some("cloudflared"));
}
