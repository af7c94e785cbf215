use sniffbox::addr::{IpAddr, SocketAddr};
use sniffbox::cf_config::{CfProtocol, CfProxyMode, CloudflaredCfg, Protocol};
use sniffbox::cf_ctl::{
    after_rung, append_line_if_missing, cf_asset, cf_elf_machine, cf_version, desired_protocol,
    download_retry, group_line, idle_plan, is_noise, ladder_for, passwd_line, plan_replica,
    proc_is_cf, proc_status, proc_uid, proxy_chores_possible, proxy_stamp, pump_line, reload_gen,
    replaced, replica_argv, restart_refusal, room_for_update, rung_possible, scores_now,
    scoring_wanted, stamp_base, stamp_base_of, stamp_with, start_gate, verify_elf, waits_ready,
    status, tick_locked, want_egress, watch, why_now, BinaryState, Climb, Egress,
    ElfErr, Fetch, Found, Gate, Look, Proc, Program, ProtocolWhy, Round, RungEnd, Step,
    TickAct, TickEvent, Watch, CF_GID,
    CF_GID_DIRECT, CF_UID, CF_UID_DIRECT, DOWNLOAD_RETRY_DIRECT_MS, DOWNLOAD_RETRY_PROXY_MS, HEALTH_SOCKS5, METRICS_DIRECT,
    METRICS_PROXIED,
};
use sniffbox::cf_edge::{
    builtin_candidates, collect_edges, connection_id, discovers, dns_plan, first_answer, fmt_picks,
    is_version_negotiation, measure_next, pick_fastest, untried, vn_probe_packet, EdgeHunt,
    EdgeRtt, HuntStage, HuntStep, MeasureStep, BUILTIN_V4, DNS_DIRECT, DNS_VIA_PROXY, ROUND_BUDGET_MS,
};
use sniffbox::cf_probe::{
    body_len, build_argv, hostname_from_log_text, is_probe_argv, judge_body, judge_head, log_tail,
    origin_head, origin_url, parse_min_rtt, probe_home, probe_log_port, probe_request, refused_in_log,
    request_path, sweepable, ProbeErr, Sample, Stage, MAX_PROBE_BYTES,
};
use sniffbox::cf_quality::{
    backoff, clearly_better, degraded_pick, describe, edge_signs, pick_choice, score, stand_in, PickEnd, Signs, Stand, fails_after, fails_before, favoured,
    fresh_verdict, gate_path,
    history_path, load_history, median_dur, pick_end, pick_start, probe_wait, rank, read_gate,
    read_verdict, record_attempt, record_history, remember_verdict, remembered, rescore,
    verdict_path, winner, ArmResult, ArmView, Compared, HistRow, LastRounds, PickStart, Rank, Rescore, VerdictSource,
    HISTORY_TTL_SEC, MAX_PROBE_GAP_SEC, MIN_PROBE_GAP_SEC, REFUSED_GAP_SEC, SCORE_TTL_SEC,
};
use sniffbox::config::OutboundMode;

fn cfg(token: Option<&str>, protocol: CfProtocol) -> CloudflaredCfg {
    CloudflaredCfg { token: token.map(str::to_string), proxy: CfProxyMode::default(), protocol }
}

#[test]
fn proc_is_cf_rejects_self() {
    assert!(!proc_is_cf(Some("cloudflared_tests\n")));
    assert!(proc_is_cf(Some("cloudflared\n")));
    assert!(!proc_is_cf(None));
}

#[test]
fn egress_paths_are_fully_separated() {
    let (p, d) = (Egress::Proxied, Egress::Direct);
    assert_eq!(p.uid_gid(), (CF_UID, CF_GID));
    assert_eq!(d.uid_gid(), (CF_UID_DIRECT, CF_GID_DIRECT));
    assert_ne!(p.uid_gid(), d.uid_gid(), "direct must NOT reuse the nft uid");
    assert_ne!(p.home(), d.home());
    assert_ne!(p.upd_dir(), d.upd_dir());
    assert_ne!(p.user_name(), d.user_name());
    assert_eq!(p.proxy_arg(), HEALTH_SOCKS5);
    assert_eq!(d.proxy_arg(), "");
    assert_ne!(p.metrics_addr(), d.metrics_addr());
    assert_eq!(p.metrics_addr(), METRICS_PROXIED);
    assert_eq!(d.metrics_addr(), METRICS_DIRECT);
    assert_eq!(p.as_str(), "proxy");
    assert_eq!(d.as_str(), "direct");
    assert_eq!(Egress::ALL, [Egress::Direct, Egress::Proxied]);
}

#[test]
fn egress_from_uid_maps_only_the_two_known_uids() {
    assert_eq!(Egress::from_uid(CF_UID), Some(Egress::Proxied));
    assert_eq!(Egress::from_uid(CF_UID_DIRECT), Some(Egress::Direct));
    assert_eq!(Egress::from_uid(0), None);
    assert_eq!(Egress::from_uid(65534), None);
    assert_eq!(proc_uid("Name:\tx\nUid:\t7844\t7844\t7844\t7844\n"), Some(7844));
    assert_eq!(proc_uid(""), None);
}

#[test]
fn cf_proxy_selects_which_replicas_run() {
    let modes = [
        OutboundMode::Socks5,
        OutboundMode::Ovpn,
        OutboundMode::Yaml,
        OutboundMode::Suburl,
    ];
    for m in modes {
        assert!(
            !want_egress(Egress::Direct, CfProxyMode::Yes, m),
            "{m:?}: yes = tunnel goes through the proxy, direct replica off"
        );
        assert!(want_egress(Egress::Direct, CfProxyMode::No, m), "{m:?}");
        assert!(want_egress(Egress::Direct, CfProxyMode::Both, m), "{m:?}");
        assert!(
            want_egress(Egress::Proxied, CfProxyMode::Yes, m),
            "{m:?} has a distinct egress (clash node / upstream socks5 / tun114)"
        );
        assert!(!want_egress(Egress::Proxied, CfProxyMode::No, m), "{m:?}");
        assert!(want_egress(Egress::Proxied, CfProxyMode::Both, m), "{m:?}");
        for mode in [CfProxyMode::Yes, CfProxyMode::No, CfProxyMode::Both] {
            assert!(
                Egress::ALL.iter().any(|&e| want_egress(e, mode, m)),
                "{m:?} + {mode:?} must keep at least one replica"
            );
        }
        assert_eq!(
            Egress::ALL.iter().filter(|&&e| want_egress(e, CfProxyMode::Both, m)).count(),
            2,
            "{m:?}: both must run two replicas"
        );
    }
    for mode in [CfProxyMode::Yes, CfProxyMode::No, CfProxyMode::Both] {
        assert!(
            want_egress(Egress::Direct, mode, OutboundMode::Free),
            "free mode always keeps the direct replica ({mode:?})"
        );
        assert!(
            !want_egress(Egress::Proxied, mode, OutboundMode::Free),
            "free mode has no second path; a proxied replica would be a pointless twin"
        );
    }
}

#[test]
fn modes_without_a_proxy_process_never_wait_for_one() {
    for mode in [OutboundMode::Free, OutboundMode::Socks5] {
        assert!(
            proxy_chores_possible(mode, false),
            "{mode:?}: nothing to wait for — download/update must be attempted best-effort"
        );
    }
    assert!(
        !proxy_chores_possible(OutboundMode::Ovpn, false),
        "ovpn without tun114 has a real proxy to wait for"
    );
    assert!(
        proxy_chores_possible(OutboundMode::Yaml, true)
            && !proxy_chores_possible(OutboundMode::Yaml, false),
        "clash modes must gate on the clash process"
    );
    assert_eq!(DOWNLOAD_RETRY_PROXY_MS, 300_000);
    assert_eq!(DOWNLOAD_RETRY_DIRECT_MS, 60_000);
    for (mode, want) in [
        (OutboundMode::Free, DOWNLOAD_RETRY_DIRECT_MS),
        (OutboundMode::Socks5, DOWNLOAD_RETRY_PROXY_MS),
        (OutboundMode::Ovpn, DOWNLOAD_RETRY_PROXY_MS),
        (OutboundMode::Yaml, DOWNLOAD_RETRY_PROXY_MS),
        (OutboundMode::Suburl, DOWNLOAD_RETRY_PROXY_MS),
    ] {
        assert_eq!(download_retry(mode), want, "{mode:?}");
    }
}

#[test]
fn missing_binary_without_egress_is_not_an_attempt() {
    let mut g = Program::new();
    assert_eq!(
        g.ensure_binary(false, false, 1_000, 60_000),
        Fetch::Settled(BinaryState::EgressDown)
    );
    assert!(g.last_download.is_none(), "a skipped attempt must not start the backoff window");
    assert!(!g.link_ok, "egress stays marked down so recovery triggers a retry");
    assert_eq!(g.ensure_binary(false, true, 1_001, 60_000), Fetch::Download);
    assert_eq!(
        g.ensure_binary(false, true, 2_000, 60_000),
        Fetch::Settled(BinaryState::DownloadFailed)
    );
    assert_eq!(g.ensure_binary(true, true, 2_000, 60_000), Fetch::Settled(BinaryState::Ready));
    assert!(g.update_due(0));
}

#[test]
fn gateway_reload_generation_restamps_both_replicas() {
    let stamp = |e: Egress, marker: &str| {
        let proxy = proxy_stamp(OutboundMode::Free, None, "", false);
        let base = stamp_base(e, proxy, reload_gen(Some(marker)));
        stamp_with(&base.expect("free mode always has a stamp"), Protocol::Quic)
    };
    let first: Vec<String> = Egress::ALL.iter().map(|&e| stamp(e, "1000000001\n")).collect();
    assert!(
        first.iter().all(|st| st.contains("#reload=1000000001")),
        "both replicas must carry the reload generation: {first:?}"
    );
    for (i, &e) in Egress::ALL.iter().enumerate() {
        assert_ne!(
            stamp(e, "1000000002\n"),
            first[i],
            "{} must be restamped after a gateway reload",
            e.as_str()
        );
    }
    assert_eq!(reload_gen(Some(&"x".repeat(4096))).map(|g| g.len()), Some(32));
    assert_eq!(reload_gen(Some("   \n")), None, "blank marker adds nothing to the stamp");
}

#[test]
fn binary_state_notes_are_distinct() {
    assert_eq!(
        BinaryState::EgressDown.note(),
        "waiting for a usable egress to download cloudflared"
    );
    assert_eq!(
        BinaryState::DownloadFailed.note(),
        "cloudflared binary missing (download failed)"
    );
    assert!(BinaryState::Ready.note().is_empty());
}

#[test]
fn direct_replica_start_does_not_depend_on_the_proxy() {
    assert!(matches!(start_gate(60_000, true, false), Gate::Go(false)));
    assert!(matches!(start_gate(60_000, true, true), Gate::Go(true)));
    assert!(matches!(start_gate(60_000, false, true), Gate::Fetch));
    assert!(matches!(start_gate(60_000, false, false), Gate::Wait(_)));
    assert!(matches!(start_gate(59_999, true, true), Gate::Wait(_)));
}

#[test]
fn only_the_self_inflicted_diagnostic_chatter_is_filtered() {
    for noisy in [
        "2026-08-07T17:50:41Z INF Collection finished collector=tunnelState",
        "2026-08-07T17:50:42Z INF Collection started collector=tunnelState",
        "2026-08-07T17:50:42Z INF Collection started collector=systemInformation",
    ] {
        assert!(is_noise(noisy), "must be filtered: {noisy}");
    }
    for keep in [
        "2026-08-07T17:46:42Z INF Registered tunnel connection connIndex=0 location=hkg10 protocol=http2",
        "2026-08-07T17:46:48Z INF precheck complete hard_fail=false suggested_protocol=http2",
        "2026-08-07T17:46:42Z WRN ICMP proxy feature is disabled",
        "2026-08-07T17:46:37Z INF Requesting new quick Tunnel on trycloudflare.com...",
        "2026-08-07T17:50:41Z ERR Collection finished collector=tunnelState error=boom",
    ] {
        assert!(!is_noise(keep), "must be kept: {keep}");
    }
}

#[test]
fn a_locked_protocol_has_no_ladder() {
    for p in [Protocol::Quic, Protocol::Http2] {
        let rungs = ladder_for(CfProtocol::Fixed(p), None);
        assert_eq!(rungs.len(), 1);
        assert_eq!(rungs[0].0, p);
        assert_eq!(rungs[0].1, ProtocolWhy::Locked);
        assert!(rungs[0].2, "a locked transport still pins its own edges");
        let with_memory =
            ladder_for(CfProtocol::Fixed(p), Some((p.other(), VerdictSource::Scored)));
        assert_eq!(with_memory.len(), 1);
        assert_eq!(with_memory[0].0, p);
    }
}

#[test]
fn auto_climbs_the_full_ladder_without_memory() {
    let rungs = ladder_for(CfProtocol::Auto, None);
    assert_eq!(
        rungs.iter().map(|(p, _, pin)| (p.as_str(), *pin)).collect::<Vec<_>>(),
        vec![("quic", true), ("http2", true), ("http2", false)]
    );
    assert_eq!(rungs[0].1, ProtocolWhy::Initial);
    assert_eq!(rungs[1].1, ProtocolWhy::Fallback);
    assert_eq!(rungs[2].1, ProtocolWhy::Fallback);
}

#[test]
fn a_remembered_http2_skips_the_quic_rung() {
    let rungs = ladder_for(CfProtocol::Auto, Some((Protocol::Http2, VerdictSource::Scored)));
    assert!(
        rungs.iter().all(|(p, _, _)| *p == Protocol::Http2),
        "the quic rung must be skipped, got {:?}",
        rungs.iter().map(|r| r.0.as_str()).collect::<Vec<_>>()
    );
    let quic = ladder_for(CfProtocol::Auto, Some((Protocol::Quic, VerdictSource::Scored)));
    assert_eq!(quic.len(), 3);
    assert_eq!(quic[0].0, Protocol::Quic);
}

#[test]
fn a_confirmed_verdict_updates_what_the_panel_says() {
    assert_eq!(
        why_now(Some(Protocol::Quic), ProtocolWhy::Initial, None),
        ProtocolWhy::Initial
    );
    let scored = Some((Protocol::Quic, VerdictSource::Scored));
    assert_eq!(
        why_now(Some(Protocol::Quic), ProtocolWhy::Initial, scored),
        ProtocolWhy::Scored
    );
    let fell_back = Some((Protocol::Http2, VerdictSource::Fallback));
    assert_eq!(
        why_now(Some(Protocol::Http2), ProtocolWhy::Initial, fell_back),
        ProtocolWhy::Fallback
    );
    assert_eq!(
        why_now(Some(Protocol::Quic), ProtocolWhy::Initial, fell_back),
        ProtocolWhy::Initial
    );
    assert_eq!(why_now(None, ProtocolWhy::Unknown, fell_back), ProtocolWhy::Unknown);
}

#[test]
fn the_first_rung_reports_how_the_memory_was_made() {
    let scored = ladder_for(CfProtocol::Auto, Some((Protocol::Quic, VerdictSource::Scored)));
    assert_eq!(scored[0].1, ProtocolWhy::Scored);
    let fell_back = ladder_for(CfProtocol::Auto, Some((Protocol::Http2, VerdictSource::Fallback)));
    assert_eq!(fell_back[0].1, ProtocolWhy::Fallback);
    assert_eq!(ladder_for(CfProtocol::Auto, None)[0].1, ProtocolWhy::Initial);
    for why in [
        ProtocolWhy::Locked,
        ProtocolWhy::Initial,
        ProtocolWhy::Scored,
        ProtocolWhy::Fallback,
    ] {
        assert!(!why.as_str().is_empty());
    }
}

#[test]
fn the_protocol_is_part_of_the_stamp() {
    let base = "direct-egress#reload=1000000001";
    let q = stamp_with(base, Protocol::Quic);
    let h = stamp_with(base, Protocol::Http2);
    assert_ne!(q, h);
    assert!(q.ends_with("#proto=quic") && h.ends_with("#proto=http2"));
    assert_eq!(q, stamp_with(base, Protocol::Quic), "must be stable");
    assert_eq!(q.split_once("#proto=").unwrap().0, base);
    assert_eq!(stamp_base_of(&q), base);
}

#[test]
fn desired_protocol_follows_the_policy() {
    assert_eq!(desired_protocol(CfProtocol::Fixed(Protocol::Http2), None), Protocol::Http2);
    assert_eq!(desired_protocol(CfProtocol::Auto, None), Protocol::Quic);
}

#[test]
fn cf_proxy_mode_parsing() {
    for (s, want) in [
        ("yes", CfProxyMode::Yes),
        ("YES", CfProxyMode::Yes),
        (" true ", CfProxyMode::Yes),
        ("1", CfProxyMode::Yes),
        ("proxy", CfProxyMode::Yes),
        ("no", CfProxyMode::No),
        ("false", CfProxyMode::No),
        ("0", CfProxyMode::No),
        ("direct", CfProxyMode::No),
        ("only", CfProxyMode::Yes),
        ("both", CfProxyMode::Both),
        ("BOTH", CfProxyMode::Both),
        (" dual ", CfProxyMode::Both),
    ] {
        assert_eq!(CfProxyMode::parse(s), Some(want), "parsing {s:?}");
    }
    assert_eq!(CfProxyMode::parse("maybe"), None);
    assert_eq!(CfProxyMode::parse(""), None);
    assert_eq!(CfProxyMode::parse("auto"), None);
    assert_eq!(
        CfProxyMode::default(),
        CfProxyMode::Yes,
        "default keeps the tunnel behind the proxy"
    );
    assert_eq!(CfProxyMode::Yes.as_str(), "yes");
    assert_eq!(CfProxyMode::No.as_str(), "no");
    assert_eq!(CfProxyMode::Both.as_str(), "both");
}

#[test]
fn status_and_restart_without_token() {
    let c = cfg(None, CfProtocol::Auto);
    for e in Egress::ALL {
        let look = Look { pid: None, uptime: None, fresh: None, wait_sec: 600, last_round: None };
        let p = proc_status(e, &Proc::none(), &look, &c, OutboundMode::Free);
        assert!(!p.wanted, "nothing is wanted without a token");
        assert_eq!(p.note, Some("no token"));
        assert_eq!(p.metrics, p.egress.metrics_addr());
        assert_eq!(p.running, p.pid.is_some());
    }
    assert!(
        restart_refusal(&c, None, OutboundMode::Free).is_some(),
        "nothing to restart without a token"
    );
    assert!(restart_refusal(&c, Some(Egress::Direct), OutboundMode::Free).is_some());
    let with = cfg(Some("t"), CfProtocol::Auto);
    assert_eq!(restart_refusal(&with, Some(Egress::Direct), OutboundMode::Free), None);
    assert_eq!(
        restart_refusal(&with, Some(Egress::Proxied), OutboundMode::Free),
        Some("that replica is disabled in this configuration")
    );
}

#[test]
fn monitor_tick_skips_while_a_start_is_in_flight() {
    let mut p = Proc::none();
    p.ready_misses = 2;
    p.unready_since = Some(5);
    p.forgive();
    assert_eq!(p.ready_misses, 0, "ready misses must be cleared");
    assert!(p.unready_since.is_none(), "downtime must restart");
}

#[test]
fn a_process_without_a_connection_is_given_time() {
    let mut p = Proc::none();
    p.protocol = Some(Protocol::Quic);
    assert_eq!(watch(&mut p, 0, 1_000, true), Watch::Leave);
    assert_eq!(watch(&mut p, 0, 2_000, true), Watch::Leave);
    assert_eq!(watch(&mut p, 0, 3_000, true), Watch::Restart);
    assert_eq!(watch(&mut p, 0, 181_000, true), Watch::Rescore);
    assert_eq!(watch(&mut p, 1, 181_000, true), Watch::Leave);
}

#[test]
fn free_mode_stamp_is_direct() {
    assert_eq!(
        proxy_stamp(OutboundMode::Free, None, "", false).as_deref(),
        Some("direct")
    );
    assert_eq!(proxy_stamp(OutboundMode::Yaml, None, "", false), None);
    assert_eq!(proxy_stamp(OutboundMode::Ovpn, None, "", false), None);
}

#[test]
fn asset_and_elf_machine_match_target_arch() {
    assert_eq!(cf_asset(true), "cloudflared-linux-arm64");
    assert_eq!(cf_elf_machine(true), 0xb7);
    assert_eq!(cf_asset(false), "cloudflared-linux-amd64");
    assert_eq!(cf_elf_machine(false), 0x3e);
}

#[test]
fn verify_elf_rejects_html_error_page() {
    let e = verify_elf(2_000_000, &[b'<'; 20], false).unwrap_err();
    assert!(matches!(e, ElfErr::NotElf));
}

#[test]
fn verify_elf_rejects_truncated_download() {
    let mut head = b"\x7fELF".to_vec();
    head.resize(20, 0);
    let e = verify_elf(4096, &head, false).unwrap_err();
    assert!(matches!(e, ElfErr::TooSmall(4096)));
    assert!(e.text(false).contains("4096"));
}

#[test]
fn verify_elf_accepts_native_arch_binary() {
    for arm in [false, true] {
        let mut head = vec![0u8; 20];
        head[..4].copy_from_slice(b"\x7fELF");
        head[18..20].copy_from_slice(&cf_elf_machine(arm).to_le_bytes());
        verify_elf(2_000_000, &head, arm).unwrap();
        assert!(matches!(verify_elf(2_000_000, &head, !arm), Err(ElfErr::Machine(_))));
    }
}

#[test]
fn replicas_are_started_stopped_and_held() {
    let mut p = Proc::none();
    let stamp = || Some("s".to_string());
    assert!(matches!(plan_replica(&p, false, false, "t", stamp()), Step::Leave));
    assert!(matches!(plan_replica(&p, true, false, "t", stamp()), Step::Stop));
    assert!(matches!(plan_replica(&p, false, true, "t", None), Step::Hold(_)));
    assert!(matches!(plan_replica(&p, false, true, "t", stamp()), Step::Start(s) if s == "s"));
    p.token = Some("t".into());
    p.stamp = Some("s".into());
    assert!(matches!(plan_replica(&p, true, true, "t", stamp()), Step::Leave));
    assert!(matches!(plan_replica(&p, true, true, "u", stamp()), Step::Start(_)));
    let idle = idle_plan(true, 60_000, true, false);
    assert!(idle.score && !idle.update);
}

#[test]
fn the_last_rung_is_kept_whatever_comes() {
    assert!(waits_ready(true, 0, 2));
    assert!(matches!(after_rung(true, 0, 2, false), RungEnd::Next));
    assert!(matches!(after_rung(true, 2, 2, false), RungEnd::KeepNoted));
    assert!(matches!(after_rung(true, 0, 2, true), RungEnd::Keep));
    assert!(matches!(after_rung(false, 0, 0, false), RungEnd::Keep));
    assert!(rung_possible(false, 0, false));
    assert!(rung_possible(true, 0, true));
    assert!(rung_possible(true, 1, false));
    assert!(!rung_possible(true, 0, false));
}

#[test]
fn files_and_arguments_of_a_replica() {
    let argv = replica_argv("T", Egress::Direct, Protocol::Http2, &["1.2.3.4:7844".to_string()]);
    let joined = argv.join(" ");
    assert!(joined.contains("--protocol http2"));
    assert!(joined.contains("--edge 1.2.3.4:7844"));
    assert!(joined.contains(METRICS_DIRECT));
    assert!(passwd_line(Egress::Direct).contains(":7845:7845:"));
    assert!(group_line(Egress::Proxied).contains(":7844:"));
    assert_eq!(append_line_if_missing("a:1\nb:2\n", "a:", "a:9"), None);
    assert_eq!(append_line_if_missing("b:2", "a:", "a:9").as_deref(), Some("\na:9"));
    assert_eq!(append_line_if_missing("b:2\n", "a:", "a:9").as_deref(), Some("a:9"));
    assert!(room_for_update(None, 5) && room_for_update(Some(15), 5) && !room_for_update(Some(14), 5));
    assert!(replaced(Some((1, 2)), Some((1, 3))));
    assert!(!replaced(Some((1, 2)), Some((1, 2))));
    assert!(cf_version(Some("cloudflared version 2026.7.3 (built x)\n")).contains("2026.7.3"));
    assert!(pump_line(Egress::Direct, "INF hello").unwrap().contains("INF hello"));
    assert_eq!(pump_line(Egress::Direct, "Z INF Collection started collector=x"), None);
}

#[test]
fn comparisons_run_only_for_a_wanted_adaptive_replica() {
    let auto = cfg(Some("t"), CfProtocol::Auto);
    let fixed = cfg(Some("t"), CfProtocol::Fixed(Protocol::Quic));
    assert!(scoring_wanted(&auto, Egress::Direct, OutboundMode::Free));
    assert!(!scoring_wanted(&fixed, Egress::Direct, OutboundMode::Free));
    assert!(!scoring_wanted(&auto, Egress::Proxied, OutboundMode::Free));
    let now = 1_000_000;
    let kept = remember_verdict(Protocol::Quic, now, VerdictSource::Scored);
    assert!(scores_now(&auto, Egress::Direct, OutboundMode::Free, None, "", now));
    assert!(!scores_now(&auto, Egress::Direct, OutboundMode::Free, Some(&kept), "", now));
    let gate = record_attempt(now, 0);
    assert!(!scores_now(&auto, Egress::Direct, OutboundMode::Free, None, &gate, now));
}

#[test]
fn builtin_list_is_sane() {
    let ips = builtin_candidates();
    assert_eq!(ips.len(), BUILTIN_V4.len(), "every builtin must parse");
    assert_eq!(ips.len(), 20);
    let in_region = |p: &str| ips.iter().filter(|ip| ip.text().starts_with(p)).count();
    assert_eq!(
        (in_region("198.41.192."), in_region("198.41.200.")),
        (10, 10),
        "both regions must be represented"
    );
    let mut texts: Vec<String> = ips.iter().map(|ip| ip.text()).collect();
    texts.sort();
    texts.dedup();
    assert_eq!(texts.len(), ips.len());
}

fn packet(n: u64) -> Vec<u8> {
    vn_probe_packet(&connection_id(7, 2 * n), &connection_id(7, 2 * n + 1))
}

#[test]
fn vn_probe_packet_shape() {
    let p = packet(0);
    assert_eq!(p.len(), 1200, "must be padded to the anti-amplification floor");
    assert_eq!(p[0] & 0xc0, 0xc0, "long header + fixed bit");
    assert_eq!(&p[1..5], &[0x0a, 0x0a, 0x0a, 0x0a], "reserved 'force VN' version");
    assert_eq!(p[5], 8, "DCID len");
    assert_eq!(p[14], 8, "SCID len");
    assert_ne!(&p[6..14], &p[15..23]);
}

#[test]
fn probe_packets_have_distinct_ids() {
    let mut ids: Vec<Vec<u8>> = (0..8).map(|n| packet(n)[6..14].to_vec()).collect();
    ids.sort();
    ids.dedup();
    assert_eq!(ids.len(), 8, "connection ids must not repeat");
}

#[test]
fn version_negotiation_detection() {
    let mut vn = vec![0xc0, 0, 0, 0, 0];
    vn.extend_from_slice(&[0, 0, 0, 1]);
    assert!(is_version_negotiation(&vn));
    assert!(!is_version_negotiation(&[0xc0, 0, 0, 0, 1]));
    assert!(!is_version_negotiation(&[0x40, 0, 0, 0, 0]));
    assert!(!is_version_negotiation(&[0xc0, 0, 0]));
    assert!(!is_version_negotiation(&[]));
}

#[test]
fn dns_plan_prefers_matching_path_then_falls_back() {
    let p = dns_plan(Egress::Proxied);
    assert_eq!(p[0], (DNS_VIA_PROXY, Egress::Proxied));
    assert_eq!(p[1], (DNS_DIRECT, Egress::Direct));
    let d = dns_plan(Egress::Direct);
    assert_eq!(d[0], (DNS_DIRECT, Egress::Direct));
    assert_eq!(d[1], (DNS_VIA_PROXY, Egress::Proxied));
}

#[test]
fn discovery_results_already_tried_are_skipped() {
    let builtin = builtin_candidates();
    assert!(
        untried(&builtin, &builtin).is_empty(),
        "identical list must yield nothing to probe"
    );
    let discovered = vec![
        builtin[0],
        IpAddr::parse("198.41.208.11").unwrap(),
        IpAddr::parse("198.41.208.12").unwrap(),
    ];
    let fresh = untried(&discovered, &builtin);
    assert_eq!(fresh.len(), 2, "only addresses we have not tried yet");
    assert!(!fresh.contains(&builtin[0]));
}

#[test]
fn the_fastest_edges_are_picked() {
    let edge = |n: u32, rtt_ns: u64| EdgeRtt { ip: IpAddr::V4(n), rtt_ns, quic: true };
    let all = [edge(1, 50), edge(2, 10), edge(3, 40), edge(4, 20), edge(5, 30)];
    let picks = pick_fastest(&all);
    let ips: Vec<IpAddr> = picks.iter().map(|e| e.ip).collect();
    assert_eq!(ips, vec![IpAddr::V4(2), IpAddr::V4(4), IpAddr::V4(5), IpAddr::V4(3)]);
    assert!(fmt_picks(&picks).starts_with("0.0.0.2"));
}

#[test]
fn reads_the_assigned_hostname_past_the_banner() {
    let log = "\
2026-08-07T10:00:00Z INF Thank you for trying Cloudflare Tunnel.
2026-08-07T10:00:00Z INF https://developers.cloudflare.com/cloudflare-one/
2026-08-07T10:00:01Z INF +----------------------------------------+
2026-08-07T10:00:01Z INF |  https://four-word-name-here.trycloudflare.com  |
2026-08-07T10:00:01Z INF +----------------------------------------+
";
    assert_eq!(
        hostname_from_log_text(log).as_deref(),
        Some("four-word-name-here.trycloudflare.com")
    );
}

#[test]
fn no_trycloudflare_hostname_is_none() {
    assert_eq!(hostname_from_log_text("INF https://developers.cloudflare.com/x\n"), None);
    assert_eq!(hostname_from_log_text(""), None);
}

#[test]
fn rate_limit_is_recognised_from_either_wording() {
    assert!(refused_in_log(Some(
        "ERR failed to request quick tunnel: 429 Too Many Requests\n"
    )));
    assert!(refused_in_log(Some("<title>Access denied</title> error code: 1015")));
    assert!(!refused_in_log(Some("INF Registered tunnel connection\n")));
    assert!(!refused_in_log(None));
}

#[test]
fn only_numbered_probe_logs_are_sweepable() {
    assert_eq!(probe_log_port("sniffbox.cf.probe.44513.log"), Some(44513));
    for keep in [
        "sniffbox.cf.probe.proxy",
        "sniffbox.cf.probe.direct",
        "sniffbox.cf.proto.proxy",
        "sniffbox.cf.history.proxy",
        "sniffbox_running.ini",
        "sniffbox.cf.probe.log",
        "sniffbox.cf.probe.99999999.log",
        "ppgw.ini",
    ] {
        assert_eq!(probe_log_port(keep), None, "must not be swept: {keep}");
    }
    assert!(sweepable("sniffbox.cf.probe.44513.log", &[]));
    assert!(!sweepable(
        "sniffbox.cf.probe.44513.log",
        &["cloudflared tunnel --metrics 127.0.0.1:44513 --url x".to_string()]
    ));
}

#[test]
fn only_our_own_probe_argv_matches() {
    assert!(is_probe_argv(
        "cloudflared tunnel --no-autoupdate --protocol quic --metrics 127.0.0.1:34567 --url http://127.0.0.1:45678"
    ));
    assert!(!is_probe_argv(
        "cloudflared tunnel --no-autoupdate --metrics 127.0.0.1:20241 --edge 198.41.192.7:7844 run --token eyJhIjoi"
    ));
    assert!(!is_probe_argv("cloudflared tunnel --url http://127.0.0.1:8080"));
}

#[test]
fn probe_argv_shape() {
    let argv = build_argv(
        Protocol::Http2,
        IpAddr::parse("198.41.192.7"),
        "http://127.0.0.1:45678",
        SocketAddr::parse("127.0.0.1:34567").unwrap(),
    );
    let joined = argv.join(" ");
    assert_eq!(
        joined,
        "tunnel --no-autoupdate --protocol http2 --edge 198.41.192.7:7844 \
         --metrics 127.0.0.1:34567 --url http://127.0.0.1:45678"
    );
    assert!(is_probe_argv(&joined));
    assert!(!joined.contains("--token"), "a probe must never carry the production token");
    let bare = build_argv(
        Protocol::Quic,
        None,
        "http://127.0.0.1:1",
        SocketAddr::parse("127.0.0.1:2").unwrap(),
    );
    assert!(!bare.contains(&"--edge".to_string()));
    assert_eq!(bare[3], "quic");
}

#[test]
fn origin_supplies_the_requested_size_up_to_a_cap() {
    assert_eq!(body_len("/b/1048576"), 1024 * 1024);
    assert_eq!(body_len("/b/999999999"), MAX_PROBE_BYTES);
    assert_eq!(body_len("/"), 2);
    assert_eq!(body_len("/b/notanumber"), 2);
}

#[test]
fn the_trial_origin_answers_what_it_was_asked_for() {
    assert_eq!(request_path("GET /b/4096 HTTP/1.1\r\nHost: x\r\n\r\n"), "/b/4096");
    assert!(origin_head(4096).starts_with("HTTP/1.1 200 OK"));
    assert!(origin_head(4096).contains("4096"));
    assert_eq!(origin_url(8080), "http://127.0.0.1:8080");
    assert!(probe_request("h.example", "/x").contains("Host: h.example\r\n"));
    assert!(judge_head("HTTP/1.1 200 OK\r\n").is_none());
    let bad = judge_head("HTTP/1.1 530 \r\nx: y\r\n").unwrap();
    assert!(bad.as_text().starts_with("edge answered \"HTTP/1.1 530"));
    assert!(judge_body(5, 5).is_none());
    assert_eq!(
        judge_body(3, 5).unwrap().as_text(),
        "truncated body (3/5 bytes)"
    );
    assert_eq!(ProbeErr::Timeout.as_text(), "timed out");
    assert_eq!(ProbeErr::Io.as_text(), "connection broke before a response");
}

#[test]
fn log_tail_takes_the_end_and_truncates() {
    let log = "a\n\n  b  \nc\nd\n";
    assert_eq!(log_tail(Some(log), 3), "b | c | d", "tail only, blanks dropped");
    assert_eq!(log_tail(Some(log), 99), "a | b | c | d", "fewer lines than asked");
    let long = format!("{}\n", "x".repeat(5000));
    assert_eq!(log_tail(Some(&long), 1).len(), 200, "each line is capped");
    assert_eq!(log_tail(None, 3), "<no log>");
}

#[test]
fn min_rtt_takes_the_lowest_connection() {
    let body = "\
quic_client_min_rtt{conn_index=\"0\"} 163
quic_client_min_rtt{conn_index=\"1\"} 155
quic_client_latest_rtt{conn_index=\"0\"} 200
";
    assert_eq!(parse_min_rtt(body), Some(155));
    assert_eq!(parse_min_rtt("go_goroutines 38\n"), None);
}

#[test]
fn rank_separates_disqualification_from_no_information() {
    assert_eq!(
        rank(true, true, false, false, false, false),
        Some(Rank::Better),
        "a transport that never registered loses by default"
    );
    assert_eq!(
        rank(true, true, false, true, false, false),
        None,
        "a transport that registered but could not be measured is no information"
    );
    assert_eq!(rank(false, false, false, true, false, false), None);
    assert_eq!(winner(Rank::Same), Protocol::Quic);
    assert_eq!(winner(Rank::Worse), Protocol::Http2);
}

#[test]
fn backoff_doubles_and_caps() {
    assert_eq!(backoff(0, false), MIN_PROBE_GAP_SEC);
    assert_eq!(backoff(1, false), MIN_PROBE_GAP_SEC * 2);
    assert_eq!(backoff(2, false), MIN_PROBE_GAP_SEC * 4);
    assert_eq!(backoff(9, false), MAX_PROBE_GAP_SEC, "capped");
    assert_eq!(backoff(0, true), REFUSED_GAP_SEC);
    assert!(backoff(1, true) >= REFUSED_GAP_SEC * 2);
    assert_eq!(backoff(5, true), MAX_PROBE_GAP_SEC);
}

#[test]
fn degraded_pick_requires_both_signals_to_agree() {
    let quic = favoured(true, false);
    let http2 = favoured(false, true);
    let tied = favoured(false, false);
    assert_eq!(degraded_pick(quic, quic), Some(Protocol::Quic));
    assert_eq!(degraded_pick(quic, http2), None);
    assert_eq!(degraded_pick(tied, quic), None);
    assert_eq!(degraded_pick(quic, None), None);
    assert_eq!(degraded_pick(None, quic), None);
}

#[test]
fn verdict_round_trips_with_its_source() {
    let now = 1_700_000_000;
    assert_eq!(read_verdict(None, now), None, "no file = no memory");

    let kept = remember_verdict(Protocol::Http2, now, VerdictSource::Fallback);
    let (p, age, src) = read_verdict(Some(&kept), now + 3).unwrap();
    assert_eq!(p, Protocol::Http2);
    assert_eq!(src, VerdictSource::Fallback);
    assert!(age < 5);

    let (p, _, src) = read_verdict(Some(&format!("quic {now}")), now).unwrap();
    assert_eq!((p, src), (Protocol::Quic, VerdictSource::Scored));

    let old = format!("quic {} scored", now - SCORE_TTL_SEC - 60);
    let (_, age, _) = read_verdict(Some(&old), now).unwrap();
    assert!(age > SCORE_TTL_SEC, "the row parses but is stale");
    assert_eq!(fresh_verdict(Some(&old), now), None);
    assert_eq!(
        fresh_verdict(Some(&kept), now),
        Some((Protocol::Http2, VerdictSource::Fallback))
    );

    assert_eq!(read_verdict(Some("garbage\n"), now), None);
}

#[test]
fn state_files_are_per_replica() {
    let d = verdict_path("/tmp", Egress::Direct);
    let p = verdict_path("/tmp", Egress::Proxied);
    assert_ne!(d, p);
    assert!(d.ends_with(".direct") && p.ends_with(".proxy"));
    assert_ne!(gate_path("/tmp", Egress::Direct), gate_path("/tmp", Egress::Proxied));
    assert_ne!(history_path("/tmp", Egress::Direct), history_path("/tmp", Egress::Proxied));
}

fn measured(protocol: Protocol, rate: &str, ttfb_ms: u128, at: u64) -> HistRow {
    HistRow {
        protocol,
        rate: rate.to_string(),
        ttfb_ms,
        completed: "1".to_string(),
        edge_ms: 160,
        at,
    }
}

#[test]
fn history_round_trips_and_replaces_per_protocol() {
    let now = 1_700_000_000;
    let kept = record_history("", &[measured(Protocol::Quic, "3000000", 120, now)]);
    assert_eq!(kept, "quic 3000000 120 1 160 1700000000");
    let back = remembered(&kept, Protocol::Quic, now, Some(160)).unwrap();
    assert_eq!(back.rate.parse::<f64>().unwrap(), 3_000_000.0);
    assert_eq!(back.ttfb_ms, 120);
    assert!(remembered(&kept, Protocol::Http2, now, Some(160)).is_none());

    let kept = record_history(&kept, &[measured(Protocol::Http2, "1000000", 300, now)]);
    assert!(
        remembered(&kept, Protocol::Quic, now, Some(160)).is_some(),
        "recording one arm must not wipe the other"
    );
    let kept = record_history(&kept, &[measured(Protocol::Quic, "9000000", 90, now)]);
    assert_eq!(load_history(&kept).len(), 2, "one row per transport");
    assert_eq!(
        remembered(&kept, Protocol::Quic, now, Some(160)).unwrap().rate.parse::<f64>().unwrap(),
        9_000_000.0
    );
}

#[test]
fn history_is_discarded_when_the_path_changed() {
    let now = 1_700_000_000;
    let kept = record_history("", &[measured(Protocol::Quic, "3000000", 120, now)]);
    let rate = |edge: Option<u128>| remembered(&kept, Protocol::Quic, now, edge).map(|r| r.rate);
    assert!(rate(Some(200)).is_some());
    assert_eq!(rate(Some(14)), None, "edge rtt 160ms -> 14ms is a different link entirely");
    assert_eq!(rate(Some(400)), None);
    assert!(rate(None).is_some());
    assert!(rate(Some(320)).is_some(), "twice as long is not more than twice");
    assert!(rate(Some(321)).is_none());
    assert!(rate(Some(80)).is_some());
    assert!(rate(Some(79)).is_none());
}

#[test]
fn legacy_history_rows_are_dropped_not_guessed() {
    assert!(load_history("quic 3000000 120 1 1700000000\n").is_empty());
    assert!(load_history("quic fast 120 1 160 1700000000").is_empty());
    assert!(load_history("quic 3000000 -1 1 160 1700000000").is_empty());
    assert!(load_history("tcp 3000000 120 1 160 1700000000").is_empty());
    let rows = load_history("x\nquic 3e6 120 0.75 160 1700000000\r\n\n");
    assert_eq!(rows.len(), 1);
    assert_eq!((rows[0].rate.as_str(), rows[0].completed.as_str()), ("3e6", "0.75"));
}

#[test]
fn history_expires() {
    let now = 1_700_000_000;
    let old = now - HISTORY_TTL_SEC - 60;
    let kept = format!("quic 3000000 120 1 160 {old}\n");
    assert_eq!(load_history(&kept).len(), 1, "the row parses");
    assert!(
        remembered(&kept, Protocol::Quic, now, Some(160)).is_none(),
        "but it is too old to be used"
    );
    assert!(remembered(&kept, Protocol::Quic, now - 60, Some(160)).is_some());
}

#[test]
fn a_comparison_waits_and_notes_itself() {
    let now = 1_700_000_000;
    match pick_start("", now) {
        PickStart::Go(note, fails) => {
            assert_eq!((note.as_str(), fails), ("1700000000 1", 0));
            match pick_start(&note, now) {
                PickStart::Wait(w) => assert_eq!(w, probe_wait(&note, now)),
                PickStart::Go(..) => panic!("a second comparison must wait"),
            }
        }
        PickStart::Wait(_) => panic!("nothing to wait for"),
    }
}

#[test]
fn a_comparison_ends_with_a_verdict_or_without() {
    let up = ArmResult { scored: true, ready: true, refused: false };
    let down = ArmResult { scored: false, ready: false, refused: false };
    let mute = ArmResult { scored: false, ready: true, refused: true };
    let both = pick_end(up, up, false, true, 3);
    assert_eq!((both.keep, both.fails, both.verdict), (true, Some(0), Some(Protocol::Http2)));
    let draw = pick_end(up, up, false, false, 3);
    assert_eq!(draw.verdict, Some(Protocol::Quic));
    let one = pick_end(down, up, false, false, 3);
    assert_eq!((one.keep, one.fails, one.verdict), (true, None, Some(Protocol::Http2)));
    let open = pick_end(up, mute, false, false, 3);
    assert_eq!((open.keep, open.fails, open.verdict), (true, Some(5), None));
    let none = pick_end(down, down, true, false, 3);
    assert_eq!((none.keep, none.fails, none.verdict), (false, None, None));
}

#[test]
fn a_climb_goes_up_rung_by_rung() {
    let mut c = Climb::new(CfProtocol::Auto, None);
    assert_eq!(c.rung().0, Protocol::Quic);
    assert!(c.waits());
    assert_eq!(c.finish(false), RungEnd::Next);
    assert_eq!(c.rung().0, Protocol::Http2);
    assert_eq!(c.finish(true), RungEnd::KeepNoted);
    while c.waits() {
        assert_eq!(c.finish(false), RungEnd::Next);
    }
    assert_eq!(c.finish(false), RungEnd::KeepNoted, "the last rung stays");
    let mut fixed = Climb::new(CfProtocol::Fixed(Protocol::Http2), None);
    assert_eq!(fixed.rung().0, Protocol::Http2);
    assert!(!fixed.waits());
    assert_eq!(fixed.finish(false), RungEnd::Keep);
}

fn found(proc: Proc, running: bool, stamp: Option<&str>) -> Found {
    Found { proc, running, stamp: stamp.map(str::to_string) }
}

#[test]
fn a_tick_plans_both_processes() {
    let none = cfg(None, CfProtocol::Auto);
    let t = tick_locked(
        &none,
        OutboundMode::Socks5,
        found(Proc::none(), true, Some("a")),
        found(Proc::none(), false, None),
    );
    assert!(!t.forget);
    assert!(matches!(t.direct, Step::Stop));
    assert!(matches!(t.proxied, Step::Leave));

    let mut c = cfg(Some("key"), CfProtocol::Fixed(Protocol::Quic));
    c.proxy = CfProxyMode::Both;
    let t = tick_locked(
        &c,
        OutboundMode::Socks5,
        found(Proc::none(), false, Some("a#proto=quic")),
        found(Proc::none(), true, None),
    );
    assert!(t.forget, "a fixed protocol needs no verdict");
    match t.direct {
        Step::Start(s) => assert_eq!(s, "a#proto=quic"),
        _ => panic!("the direct replica must start"),
    }
    assert!(matches!(t.proxied, Step::Hold("proxy engine not ready")));

    let mut p = Proc::none();
    p.token = Some("key".to_string());
    p.stamp = Some("a#proto=quic".to_string());
    let t = tick_locked(
        &c,
        OutboundMode::Socks5,
        found(p, true, Some("a#proto=quic")),
        found(Proc::none(), false, Some("b")),
    );
    assert!(matches!(t.direct, Step::Leave), "nothing changed");
    assert!(matches!(t.proxied, Step::Start(_)));
}

#[test]
fn a_status_tells_of_both_processes() {
    let mut c = cfg(Some("key"), CfProtocol::Auto);
    c.proxy = CfProxyMode::Both;
    let up =
        Look { pid: Some(7), uptime: Some(60), fresh: None, wait_sec: 600, last_round: None };
    let down = Look { pid: None, uptime: None, fresh: None, wait_sec: 0, last_round: None };
    let s = status(
        &c,
        OutboundMode::Socks5,
        (&Proc::none(), &up),
        (&Proc::none(), &down),
        Some("2024.1".to_string()),
    );
    assert!(s.enabled && s.binary);
    assert_eq!(s.version.as_deref(), Some("2024.1"));
    assert_eq!((s.procs[0].pid, s.procs[0].note, s.procs[0].next_probe_min), (Some(7), None, Some(10)));
    assert_eq!((s.procs[1].pid, s.procs[1].note), (None, Some("starting")));
}

#[test]
fn describe_tells_every_stage_apart() {
    let said = [
        describe(Stage::NotRegistered, 0, None),
        describe(Stage::Registered, 0, None),
        describe(Stage::Resolved, 0, Some("edge answered \"HTTP/1.1 530\"")),
        describe(Stage::Warm, 8, Some("timed out")),
    ];
    assert!(said[0].contains("did not register"));
    assert!(said[1].contains("never resolved"));
    assert!(said[2].contains("never answered 200") && said[2].contains("530"));
    assert!(said[3].contains("no usable sample") && said[3].contains("timed out"));
    for i in 0..said.len() {
        for j in (i + 1)..said.len() {
            assert_ne!(said[i], said[j], "stages {i} and {j} read the same");
        }
    }
    for line in &said {
        assert!(!line.starts_with("quic"), "no protocol prefix: {line}");
    }
}

#[test]
fn attempts_are_counted_and_pauses_kept() {
    assert_eq!(read_gate(""), (0, 0));
    assert_eq!(read_gate(&record_attempt(77, 3)), (77, 3));
    assert_eq!(probe_wait("", 1_000_000), 0);
    assert_eq!(
        probe_wait(&record_attempt(1_000_000, 0), 1_000_000),
        MIN_PROBE_GAP_SEC
    );
    assert_eq!(fails_before(0), 1);
    assert_eq!(fails_after(2, false, 5), Some(0));
    assert_eq!(fails_after(1, true, 5), Some(7));
    assert_eq!(fails_after(1, false, 5), None);
    assert_eq!(median_dur(&[100, 300, 200]), 200);
    assert_eq!(rescore(Protocol::Quic, Some(Protocol::Http2), 3_600), Rescore::Switch);
    assert_eq!(rescore(Protocol::Quic, Some(Protocol::Http2), 3_599), Rescore::Stay);
    assert_eq!(rescore(Protocol::Quic, Some(Protocol::Quic), 0), Rescore::Confirm);
    assert_eq!(rescore(Protocol::Quic, None, 9_999), Rescore::Stay);
}

#[test]
fn edges_are_collected_in_order_and_once() {
    let ip = |s: &str| IpAddr::parse(s).unwrap();
    let found = [ip("::1"), ip("9.9.9.9"), ip("1.1.1.1"), ip("9.9.9.9")];
    assert_eq!(collect_edges(&found), [ip("1.1.1.1"), ip("9.9.9.9"), ip("::1")]);
    assert!(collect_edges(&[]).is_empty());
    assert!(discovers(0, ROUND_BUDGET_MS - 1));
    assert!(!discovers(1, 0) && !discovers(0, ROUND_BUDGET_MS));
    let hosts = |v: &[&str]| Some(v.iter().map(|h| h.to_string()).collect::<Vec<String>>());
    assert_eq!(first_answer(&[None, hosts(&[]), hosts(&["a"]), hosts(&["b"])]), Some(2));
    assert_eq!(first_answer(&[None, hosts(&[])]), None);
}

#[test]
fn a_sample_grows_with_its_requests() {
    let mut s = Sample::new(Protocol::Quic, true);
    assert!(s.completed().is_none() && s.refused);
    s.registered(Some(12));
    s.resolved();
    assert_eq!((s.stage, s.min_rtt_ms), (Stage::Resolved, Some(12)));
    s.warmed(None);
    assert_eq!(s.stage, Stage::Warm);
    s.tiny(Ok(5));
    s.tiny(Err(&ProbeErr::Timeout));
    s.sized(Err(&ProbeErr::Io));
    assert_eq!(s.detail.as_deref(), Some("timed out"), "the first failure is kept");
    s.sized(Ok(0));
    assert_eq!(s.failures, 3);
    assert!(s.completed().is_none(), "no body was measured");
    s.sized(Ok(9));
    assert_eq!(s.completed(), Some((2, 5)));

    let mut t = Sample::new(Protocol::Http2, false);
    t.registered(None);
    t.resolved();
    t.warmed(Some(&ProbeErr::Connect));
    assert_eq!(t.stage, Stage::Resolved);
    assert!(t.detail.is_some());
}

#[test]
fn completing_counts_before_speed_and_speed_before_delay() {
    let even = Compared {
        completes_more: false,
        completes_less: false,
        faster: false,
        slower: false,
        ahead: false,
        ttfb_ns: 70_000_000,
        other_ns: 100_000_000,
    };
    assert!(!clearly_better(even));
    assert!(clearly_better(Compared { ahead: true, ..even }));
    assert!(!clearly_better(Compared { ahead: true, other_ns: 99_999_999, ..even }));
    assert!(!clearly_better(Compared { ahead: true, other_ns: 0, ..even }));
    assert!(!clearly_better(Compared { ahead: true, slower: true, ..even }));
    assert!(clearly_better(Compared { faster: true, ..even }));
    assert!(!clearly_better(Compared { faster: true, completes_less: true, ..even }));
    assert!(clearly_better(Compared { completes_more: true, slower: true, ..even }));
}

fn sample(protocol: Protocol, stage: Stage) -> Sample {
    let mut s = Sample::new(protocol, false);
    s.ready = true;
    s.stage = stage;
    s
}

#[test]
fn arms_carry_numbers_when_measured_and_a_note_when_not() {
    let mut measured = sample(Protocol::Quic, Stage::Warm);
    measured.ttfb_ns = vec![91_000_000];
    measured.body_ns = vec![8_000_000];
    measured.min_rtt_ms = Some(16);
    let scored = score(&measured, &1.0f64.to_string(), &10_912_500.0f64.to_string()).unwrap();
    let a = ArmView::new(Protocol::Quic, Some(&scored), &measured);
    assert_eq!(a.rate_bps.as_deref().map(|r| r.parse()), Some(Ok(10_912_500.0)));
    assert_eq!(a.ttfb_ms, Some(91));
    assert_eq!(a.completed.as_deref().map(|c| c.parse()), Some(Ok(1.0)));
    assert_eq!(a.edge_rtt_ms, Some(16));
    assert!(a.note.is_none(), "a measured arm needs no prose");

    let mut stuck = sample(Protocol::Http2, Stage::Resolved);
    stuck.detail = Some("edge answered \"HTTP/1.1 530\"".into());
    let unscored = score(&stuck, "", "");
    assert!(unscored.is_none());
    let b = ArmView::new(Protocol::Http2, unscored.as_ref(), &stuck);
    assert!(
        b.rate_bps.is_none() && b.ttfb_ms.is_none() && b.completed.is_none(),
        "no numbers to show"
    );
    let note = b.note.expect("an unmeasured arm must explain itself");
    assert!(note.contains("never answered 200") && note.contains("530"));
}

#[test]
fn the_latest_comparison_is_kept_on_its_own_way() {
    let arm = |p| ArmView::new(p, None, &sample(p, Stage::Registered));
    let mut rounds = LastRounds::new();
    rounds.decided(Egress::Direct, Some(Protocol::Quic));
    assert!(rounds.last_round(Egress::Direct).is_none(), "nothing was measured yet");
    rounds.measured(Egress::Direct, 1_000, arm(Protocol::Quic), arm(Protocol::Http2));
    let r = rounds.last_round(Egress::Direct).unwrap();
    assert_eq!((r.at, r.verdict, r.arms.len()), (1_000, None, 2));
    assert_eq!((r.arms[0].protocol, r.arms[1].protocol), (Protocol::Quic, Protocol::Http2));
    assert_eq!((r.age_secs(1_060), r.age_secs(900)), (60, 0));
    rounds.decided(Egress::Direct, Some(Protocol::Http2));
    let r = rounds.last_round(Egress::Direct).unwrap();
    assert_eq!((r.at, r.verdict, r.arms.len()), (1_000, Some(Protocol::Http2), 2));
    assert!(rounds.last_round(Egress::Proxied).is_none());

    let look = |at| Look {
        pid: None,
        uptime: None,
        fresh: None,
        wait_sec: 0,
        last_round: rounds.last_round(at),
    };
    let auto = cfg(Some("t"), CfProtocol::Auto);
    let fixed = cfg(Some("t"), CfProtocol::Fixed(Protocol::Quic));
    let shown = |c: &CloudflaredCfg, e| {
        proc_status(e, &Proc::none(), &look(e), c, OutboundMode::Socks5).last_round
    };
    assert_eq!(shown(&auto, Egress::Direct).map(|r| r.verdict), Some(Some(Protocol::Http2)));
    assert!(shown(&auto, Egress::Proxied).is_none());
    assert!(shown(&fixed, Egress::Direct).is_none(), "a fixed protocol shows no comparison");
}

#[test]
fn edges_speak_for_the_one_that_answers_sooner() {
    let at = |q, h, qa, ha| {
        let s = edge_signs(q, h, qa, ha);
        (s.known, s.quic, s.http2)
    };
    assert_eq!(at(Some(20_000_000), Some(50_000_000), true, false), (true, true, false));
    assert_eq!(at(Some(20_000_001), Some(50_000_000), true, false), (true, false, false));
    assert_eq!(at(Some(80_000_000), Some(20_000_000), false, true), (true, false, true));
    assert_eq!(at(Some(80_000_000), None, true, true), (false, false, false));
}

#[test]
fn a_list_is_asked_over_tcp_only_without_an_answer_over_quic() {
    assert_eq!(measure_next(1, false), MeasureStep::Done);
    assert_eq!(measure_next(0, false), MeasureStep::Tcp);
    assert_eq!(measure_next(0, true), MeasureStep::Done);
}

fn picks(step: HuntStep) -> Vec<EdgeRtt> {
    match step {
        HuntStep::Done(v) => v,
        _ => panic!("the search must be over"),
    }
}

#[test]
fn the_picks_come_from_one_round() {
    let mut h = EdgeHunt::new();
    let n = h.candidates().len();
    assert_eq!(n, BUILTIN_V4.len());
    let mut answers = vec![None; n];
    for (i, t) in [(7, 40), (3, 10), (9, 30), (1, 20), (5, 50)] {
        answers[i] = Some(t);
    }
    let want: Vec<IpAddr> = [3, 1, 9, 7].iter().map(|i| h.candidates()[*i]).collect();
    let v = picks(h.measured(&answers, 1));
    assert_eq!(v.iter().map(|e| e.ip).collect::<Vec<_>>(), want);
    assert_eq!(v.iter().map(|e| e.rtt_ns).collect::<Vec<_>>(), [10, 20, 30, 40]);
    assert!(v.iter().all(|e| e.quic));
    assert_eq!(h.stage(), HuntStage::Over);

    let mut h = EdgeHunt::new();
    assert!(matches!(h.measured(&vec![None; n], 1), HuntStep::Probe(false)));
    answers[5] = None;
    let v = picks(h.measured(&answers, 2));
    assert_eq!(v.len(), 4);
    assert!(v.iter().all(|e| !e.quic), "all were asked in one way");
}

#[test]
fn more_edges_are_looked_for_when_none_answers() {
    let n = EdgeHunt::new().candidates().len();
    let none = vec![None; n];
    let silent = || {
        let mut h = EdgeHunt::new();
        h.measured(&none, 1);
        h
    };
    let mut h = silent();
    assert!(picks(h.measured(&none, ROUND_BUDGET_MS)).is_empty(), "no time is left");

    let mut h = silent();
    assert!(matches!(h.measured(&none, ROUND_BUDGET_MS - 1), HuntStep::Discover));
    let known = h.candidates()[0];
    assert!(picks(h.discovered(&[known])).is_empty(), "nothing new was found");

    let mut h = silent();
    h.measured(&none, 2);
    let (a, b) = (IpAddr::parse("9.9.9.9").unwrap(), IpAddr::parse("1.1.1.1").unwrap());
    assert!(matches!(h.discovered(&[a, known, b, a]), HuntStep::Probe(true)));
    assert_eq!(h.candidates().as_slice(), [b, a]);
    assert!(matches!(h.measured(&[None, None], 3), HuntStep::Probe(false)));
    let v = picks(h.measured(&[None, Some(5)], 4));
    assert_eq!(v, [EdgeRtt { ip: a, rtt_ns: 5, quic: false }]);
}

#[test]
fn trials_have_a_directory_of_their_own() {
    assert_eq!(probe_home(Egress::Proxied), "/tmp/cloudflared/probe");
    assert_eq!(probe_home(Egress::Direct), "/tmp/cloudflared-direct/probe");
}

#[test]
fn a_stopped_process_keeps_its_protocol_alone() {
    assert_ne!(Egress::Proxied.idx(), Egress::Direct.idx());
    let mut p = Proc::none();
    p.started(42, "key", "base", Protocol::Quic, ProtocolWhy::Initial, vec!["1.2.3.4:7844".into()]);
    assert_eq!(p.pid, Some(42));
    assert_eq!(p.stamp.as_deref(), Some(stamp_with("base", Protocol::Quic).as_str()));
    p.stopped();
    assert_eq!(p.pid, None);
    assert!(p.token.is_none() && p.stamp.is_none() && p.edges.is_empty());
    assert_eq!(p.protocol, Some(Protocol::Quic));
}

/// What is measured of a protocol.
struct Measured {
    completed: f64,
    rate: f64,
    ttfb_ms: f64,
}

fn arm(completed: f64, rate: f64, ttfb_ms: f64) -> Measured {
    Measured { completed, rate, ttfb_ms }
}

fn beats(a: &Measured, b: &Measured) -> bool {
    clearly_better(Compared {
        completes_more: a.completed > b.completed + f64::EPSILON,
        completes_less: a.completed < b.completed - f64::EPSILON,
        faster: a.rate >= b.rate * 1.25,
        slower: b.rate >= a.rate * 1.25,
        ahead: a.ttfb_ms * 1.25 <= b.ttfb_ms,
        ttfb_ns: (a.ttfb_ms * 1_000_000.0) as u128,
        other_ns: (b.ttfb_ms * 1_000_000.0) as u128,
    })
}

#[test]
fn stability_outranks_everything() {
    let fast_but_broken = arm(0.75, 10_000_000.0, 50.0);
    let slow_but_solid = arm(1.0, 1_000_000.0, 500.0);
    assert!(beats(&slow_but_solid, &fast_but_broken));
    assert!(!beats(&fast_but_broken, &slow_but_solid));
}

#[test]
fn throughput_outranks_latency() {
    let fat = arm(1.0, 3_150_000.0, 926.0);
    let quick = arm(1.0, 1_900_000.0, 412.0);
    assert!(beats(&fat, &quick));
    assert!(!beats(&quick, &fat));
}

#[test]
fn latency_speaks_only_when_throughput_ties() {
    let a = arm(1.0, 1_000_000.0, 100.0);
    let b = arm(1.0, 1_100_000.0, 400.0);
    assert!(beats(&a, &b), "1.1x is inside the margin, so latency decides");
    assert!(!beats(&b, &a));
}

#[test]
fn a_small_gap_is_a_tie() {
    let a = arm(1.0, 1_575_000.0, 457.0);
    let b = arm(1.0, 1_912_500.0, 496.0);
    assert!(!beats(&a, &b));
    assert!(!beats(&b, &a));
}

#[test]
fn a_tiny_absolute_latency_gain_is_not_a_win() {
    let a = arm(1.0, 1_000_000.0, 30.0);
    let b = arm(1.0, 1_000_000.0, 50.0);
    assert!(
        !beats(&a, &b),
        "20 ms is below the absolute floor even though the ratio clears the margin"
    );
    let far = arm(1.0, 1_000_000.0, 300.0);
    let farther = arm(1.0, 1_000_000.0, 500.0);
    assert!(beats(&far, &farther));
}

#[test]
fn an_unusable_arm_scores_none_not_zero() {
    let never_registered = Sample::new(Protocol::Quic, false);
    assert_eq!(never_registered.completed(), None);
    let mut registered_but_silent = Sample::new(Protocol::Quic, false);
    registered_but_silent.ready = true;
    registered_but_silent.failures = 8;
    assert_eq!(registered_but_silent.completed(), None);
}

#[test]
fn score_summarises_medians_and_completion() {
    let mut sample = Sample::new(Protocol::Quic, false);
    sample.ready = true;
    sample.ttfb_ns = vec![100_000_000, 300_000_000, 200_000_000];
    sample.body_ns = vec![1_048_576_000, 349_525_333, 524_288_000];
    sample.failures = 2;
    assert_eq!(median_dur(&sample.ttfb_ns), 200_000_000);
    assert_eq!(median_dur(&sample.body_ns), 524_288_000);
    let (done, tried) = sample.completed().unwrap();
    assert!((done as f64 / tried as f64 - 6.0 / 8.0).abs() < 1e-9);
}

#[test]
fn tick_is_noop_without_token() {
    let found = || Found { proc: Proc::none(), running: false, stamp: None };
    let cfg = CloudflaredCfg { token: None, ..CloudflaredCfg::default() };
    let tick = tick_locked(&cfg, OutboundMode::Free, found(), found());
    assert!(!matches!(tick.direct, Step::Start(_)));
    assert!(!matches!(tick.proxied, Step::Start(_)));
}

fn settled(up_ms: u64, update_due: bool, chores: bool, binary: bool) -> TickEvent {
    TickEvent::Settled { up_ms, update_due, chores, binary }
}

fn updated(changed: bool, direct: Option<&str>, proxied: Option<&str>) -> TickEvent {
    TickEvent::Updated {
        changed,
        direct: direct.map(|s| s.to_string()),
        proxied: proxied.map(|s| s.to_string()),
    }
}

fn both(protocol: CfProtocol) -> CloudflaredCfg {
    CloudflaredCfg { token: Some("key".to_string()), proxy: CfProxyMode::Both, protocol }
}

fn missing(stamp: Option<&str>) -> Found {
    Found { proc: Proc::none(), running: false, stamp: stamp.map(|s| s.to_string()) }
}

fn healthy(stamp: &str) -> Found {
    let mut proc = Proc::none();
    proc.token = Some("key".to_string());
    proc.stamp = Some(stamp.to_string());
    Found { proc, running: true, stamp: Some(stamp.to_string()) }
}

fn list(act: TickAct) -> Vec<(Egress, String)> {
    match act {
        TickAct::Start(v) => v,
        _ => panic!("processes must be started"),
    }
}

#[test]
fn a_tick_starts_what_is_missing() {
    let c = both(CfProtocol::Auto);
    let mode = OutboundMode::Socks5;
    let (mut r, act) = Round::begin(&c);
    assert!(matches!(act, TickAct::Watch(false)));
    let act = r.next(&c, mode, TickEvent::Watched(healthy("d"), missing(Some("p"))));
    assert!(matches!(act, TickAct::Settle(Step::Leave, Step::Start(_))));
    assert!(matches!(r.next(&c, mode, settled(60_000, false, true, false)), TickAct::Fetch));
    let fetched = TickEvent::Fetched { state: BinaryState::Ready, chores: true };
    assert!(matches!(r.next(&c, mode, fetched), TickAct::Update));
    let starts = list(r.next(&c, mode, updated(true, Some("d2"), Some("p2"))));
    assert_eq!(
        starts,
        [(Egress::Proxied, "p".to_string()), (Egress::Direct, "d2".to_string())],
        "a changed program restarts the other process too"
    );
    assert!(!r.over());
    assert!(matches!(r.next(&c, mode, TickEvent::Started), TickAct::Score));
    assert!(r.over());
    assert!(matches!(r.next(&c, mode, TickEvent::Started), TickAct::Done));
}

#[test]
fn a_tick_waits_for_what_it_needs() {
    let c = both(CfProtocol::Fixed(Protocol::Quic));
    let mode = OutboundMode::Socks5;
    let at_gate = || {
        let (mut r, act) = Round::begin(&c);
        assert!(matches!(act, TickAct::Watch(true)), "a fixed protocol needs no verdict");
        r.next(&c, mode, TickEvent::Watched(missing(Some("d")), missing(None)));
        r
    };
    let mut r = at_gate();
    let act = r.next(&c, mode, settled(59_999, true, true, true));
    assert!(matches!(act, TickAct::Note("waiting for system to settle", true, false)));
    assert!(r.over());

    let mut r = at_gate();
    let act = r.next(&c, mode, settled(60_000, true, false, false));
    assert!(matches!(
        act,
        TickAct::Note("waiting for the proxy to download cloudflared", true, false)
    ));

    let mut r = at_gate();
    r.next(&c, mode, settled(60_000, true, true, false));
    let failed = TickEvent::Fetched { state: BinaryState::DownloadFailed, chores: true };
    let act = r.next(&c, mode, failed);
    assert!(matches!(
        act,
        TickAct::Note("cloudflared binary missing (download failed)", true, false)
    ));

    let mut r = at_gate();
    let starts = list(r.next(&c, mode, settled(60_000, true, false, true)));
    assert_eq!(starts, [(Egress::Direct, "d".to_string())], "the direct way waits for no proxy");
    assert!(matches!(r.next(&c, mode, TickEvent::Started), TickAct::Done));

    let mut r = at_gate();
    assert!(matches!(r.next(&c, mode, settled(60_000, true, true, true)), TickAct::Update));
    let starts = list(r.next(&c, mode, updated(false, Some("d2"), Some("p2"))));
    assert_eq!(starts, [(Egress::Direct, "d".to_string())]);
}

#[test]
fn a_tick_without_anything_to_start_looks_for_a_newer_program() {
    let c = both(CfProtocol::Auto);
    let mode = OutboundMode::Socks5;
    let idle = || {
        let (mut r, _) = Round::begin(&c);
        r.next(&c, mode, TickEvent::Watched(healthy("d"), healthy("p")));
        r
    };
    let mut r = idle();
    match r.next(&c, mode, settled(59_999, true, false, true)) {
        TickAct::Idle(i) => assert!(!i.score && !i.update),
        _ => panic!("nothing has to be started"),
    }
    assert!(r.over());
    let mut r = idle();
    match r.next(&c, mode, settled(60_000, true, true, true)) {
        TickAct::Idle(i) => assert!(i.score && i.update),
        _ => panic!("nothing has to be started"),
    }
    assert!(matches!(r.next(&c, mode, TickEvent::Rested), TickAct::Fetch));
    let fetched = TickEvent::Fetched { state: BinaryState::Ready, chores: true };
    assert!(matches!(r.next(&c, mode, fetched), TickAct::Update));
    let starts = list(r.next(&c, mode, updated(true, Some("d2"), None)));
    assert_eq!(starts, [(Egress::Direct, "d2".to_string())]);
    assert!(r.over());

    let mut r = idle();
    r.next(&c, mode, settled(60_000, true, true, false));
    r.next(&c, mode, TickEvent::Rested);
    let failed = TickEvent::Fetched { state: BinaryState::DownloadFailed, chores: true };
    assert!(matches!(r.next(&c, mode, failed), TickAct::Done), "no program, no newer one");
    assert!(r.over());

    let mut r = idle();
    r.next(&c, mode, settled(60_000, true, true, true));
    r.next(&c, mode, TickEvent::Rested);
    r.next(&c, mode, TickEvent::Fetched { state: BinaryState::Ready, chores: false });
    assert!(matches!(r.next(&c, mode, updated(false, Some("d2"), None)), TickAct::Done));
    assert!(r.over());

    let none = CloudflaredCfg { token: None, ..CloudflaredCfg::default() };
    let (r, act) = Round::begin(&none);
    assert!(r.over() && matches!(act, TickAct::StopAll));
}

#[test]
fn without_a_verdict_edges_and_measures_must_agree() {
    let end = |verdict| PickEnd { keep: true, fails: None, verdict };
    let signs = |known, quic, http2| Signs { known, quic, http2 };
    let quic = signs(true, true, false);
    let http2 = signs(true, false, true);
    assert_eq!(pick_choice(end(Some(Protocol::Http2)), quic, quic), Some(Protocol::Http2));
    assert_eq!(pick_choice(end(None), quic, quic), Some(Protocol::Quic));
    assert_eq!(pick_choice(end(None), http2, http2), Some(Protocol::Http2));
    assert_eq!(pick_choice(end(None), quic, http2), None);
    assert_eq!(pick_choice(end(None), signs(false, true, false), quic), None);
    assert_eq!(pick_choice(end(None), quic, signs(true, false, false)), None);
}

#[test]
fn what_was_measured_before_stands_in() {
    let kept = record_history("", &[measured(Protocol::Quic, "1000", 40, 1_000)]);
    assert!(matches!(stand_in(true, &kept, Protocol::Quic, 1_001, 20), Stand::Measured));
    assert!(matches!(stand_in(false, "", Protocol::Quic, 1_001, 20), Stand::Nothing));
    assert!(matches!(stand_in(false, &kept, Protocol::Http2, 1_001, 20), Stand::Nothing));
    match stand_in(false, &kept, Protocol::Quic, 1_001, load_history(&kept)[0].edge_ms) {
        Stand::Remembered(row) => assert_eq!(row.rate, "1000"),
        _ => panic!("a fresh row must stand in"),
    }
}
