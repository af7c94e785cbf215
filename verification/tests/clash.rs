use sniffbox::addr::IpAddr;
use sniffbox::clash_ctl::{proc_is_clash, ClashSupervisor};
use sniffbox::clash_pull::{
    accumulate, clash_inbound_label, collect_types, config_listener_types, dechunk_buffered,
    in_demand_window, mirror_direct_inbounds, mirror_mode, nodes_due, parse_connections,
    restore_with_index, ListenersGate, MirrorAct, MirrorMode, SocksSrc, SourceIndex,
};
use sniffbox::names::Names;
use sniffbox::records::{InboundKind, Transport};
use sniffbox::smart_speed::{
    best_of, bucket_by_url, dechunk, eligible_members, fastest, group_names, needs_providers,
    parse_smart_groups, pause_sec, pct_encode_segment, plan_pass, plan_runners, request_text, seed_from_clash,
    select_path, sweep_order, sweep_start, switches, test_path, test_result, GroupState, Member,
    NodeHist, RawNode, RawProvider, RawProviders, RawProxies, Runner, SmartGroup, Sweep, Pass, Ladder, Rise, HIST_CAP,
};
use sniffbox::table::Table;

const SAMPLE: &str = r#"{
        "downloadTotal": 100, "uploadTotal": 50,
        "connections": [
            {"id":"a","metadata":{"host":"example.com"},"chains":["HKG 01","Asia-Pacific"],"upload":10,"download":20},
            {"id":"b","metadata":{"host":"x"},"chains":["JP 02","Asia-Pacific"],"upload":7,"download":9}
        ]
    }"#;

fn total(shares: &[(String, u64, u64)], node: &str) -> u64 {
    shares.iter().filter(|s| s.0 == node).map(|s| s.1 + s.2).sum()
}

fn names(items: &[&str]) -> Names {
    let mut n = Names::new();
    for i in items {
        n.insert(i.to_string());
    }
    n
}

#[test]
fn parse_extracts_id_chains_bytes() {
    let conns = parse_connections(SAMPLE);
    assert_eq!(conns.len(), 2);
    assert_eq!(conns[0].id, "a");
    assert_eq!(conns[0].endpoint(), "HKG 01");
    assert_eq!(conns[0].upload, 10);
    assert_eq!(conns[1].endpoint(), "JP 02");
}

#[test]
fn parse_bad_json_is_empty() {
    assert!(parse_connections("not json").is_empty());
    assert!(parse_connections("{}").is_empty());
}

#[test]
fn clash_pull_dechunk_roundtrip() {
    let chunked = b"18\r\n{\"connections\":[],\"x\":1}\r\n0\r\n\r\n";
    let out = dechunk_buffered(chunked);
    assert_eq!(out, br#"{"connections":[],"x":1}"#);
}

#[test]
fn accumulate_deltas_by_endpoint_node() {
    let mut last: Table<(u64, u64)> = Table::new();
    let mut all = accumulate(&mut last, &parse_connections(SAMPLE));
    let p2 = r#"{"connections":[
            {"id":"a","chains":["HKG 01"],"upload":100,"download":200},
            {"id":"b","chains":["JP 02"],"upload":7,"download":9},
            {"id":"c","chains":["HKG 01"],"upload":5,"download":5}
        ]}"#;
    all.extend(accumulate(&mut last, &parse_connections(p2)));
    assert_eq!(total(&all, "HKG 01"), 310);
    assert_eq!(total(&all, "JP 02"), 16);
}

#[test]
fn restore_rewrites_loopback_drops_unmatched_keeps_nonloopback() {
    let mut index = SourceIndex::new();
    index.insert(
        40001,
        SocksSrc {
            ip: IpAddr::parse("10.0.0.5").unwrap(),
            port: 1234,
            inbound: InboundKind::TProxy,
        },
    );
    let raw = r#"{
            "downloadTotal": 100, "uploadTotal": 50,
            "connections": [
                {"id":"a","metadata":{"type":"Socks5","sourceIP":"127.0.0.1","sourcePort":"40001","host":"x.com"},"chains":["N"],"upload":1,"download":2},
                {"id":"b","metadata":{"type":"Socks5","sourceIP":"127.0.0.1","sourcePort":"55555","host":"speedtest"},"chains":["N"],"upload":3,"download":4},
                {"id":"c","metadata":{"type":"TProxy","sourceIP":"192.168.1.9","sourcePort":"6000","host":"y.com"},"chains":["N"],"upload":5,"download":6}
            ]
        }"#;
    let out = restore_with_index(&index, raw);
    let v: serde_json::Value = serde_json::from_str(&out).unwrap();
    assert_eq!(v["downloadTotal"], 100);
    assert_eq!(v["uploadTotal"], 50);
    let conns = v["connections"].as_array().unwrap();
    assert_eq!(conns.len(), 2);
    let a = conns.iter().find(|c| c["id"] == "a").unwrap();
    assert_eq!(a["metadata"]["sourceIP"], "10.0.0.5");
    assert_eq!(a["metadata"]["sourcePort"], "1234");
    assert_eq!(a["metadata"]["type"], "TProxy");
    assert_eq!(a["metadata"]["host"], "x.com");
    let c = conns.iter().find(|c| c["id"] == "c").unwrap();
    assert_eq!(c["metadata"]["sourceIP"], "192.168.1.9");
    assert_eq!(c["metadata"]["sourcePort"], "6000");
    assert!(
        conns.iter().all(|c| c["id"] != "b"),
        "unmatched loopback b must be dropped"
    );
}

#[test]
fn sources_are_found_until_they_are_removed() {
    let mut index = SourceIndex::new();
    assert!(index.get(7).is_none());
    let src = SocksSrc { ip: IpAddr::V4(1), port: 2, inbound: InboundKind::Http };
    index.insert(7, src);
    assert_eq!(index.get(7).unwrap().port, 2);
    index.remove(7);
    assert!(index.get(7).is_none());
}

#[test]
fn demand_window_gates_on_recent_access() {
    assert!(!in_demand_window(0, 1_000_000));
    assert!(in_demand_window(1_000_000, 1_000_000));
    assert!(in_demand_window(1_000_000, 1_000_000 + 29_000));
    assert!(in_demand_window(1_000_000, 1_000_000 + 30_000));
    assert!(!in_demand_window(1_000_000, 1_000_000 + 31_000));
}

#[test]
fn restore_bad_json_is_empty_snapshot() {
    let out = restore_with_index(&SourceIndex::new(), "not json");
    assert_eq!(out, r#"{"downloadTotal":0,"uploadTotal":0,"connections":[]}"#);
}

#[test]
fn parse_extracts_metadata_for_mirror() {
    let raw = r#"{"connections":[
            {"id":"m1","metadata":{"type":"Shadowsocks","network":"tcp","host":"ex.com",
             "sourceIP":"10.0.0.8","sourcePort":"5555","destinationIP":"1.2.3.4","destinationPort":"443"},
             "chains":["N"],"upload":11,"download":22}
        ]}"#;
    let c = &parse_connections(raw)[0];
    assert_eq!(c.inbound_type, "Shadowsocks");
    assert_eq!(c.network, "tcp");
    assert_eq!(c.host, "ex.com");
    assert_eq!(c.src_ip.unwrap().text(), "10.0.0.8");
    assert_eq!(c.src_port, 5555);
    assert_eq!(c.dst_ip.unwrap().text(), "1.2.3.4");
    assert_eq!(c.dst_port, 443);
}

#[test]
fn inbound_label_skips_regular_and_inner_maps_listeners() {
    for t in ["HTTPS", "HTTP", "Redir", "Socks4", "Socks5", "TProxy", "Tun", "Inner"] {
        assert_eq!(clash_inbound_label(t), None, "{t} should not be mirrored");
        assert_eq!(clash_inbound_label(&t.to_lowercase()), None);
        assert_eq!(clash_inbound_label(&t.to_uppercase()), None);
    }
    assert_eq!(clash_inbound_label(""), None);
    for (t, want) in [
        ("AnyTLS", "anytls"),
        ("Hysteria2", "hysteria2"),
        ("Mieru", "mieru"),
        ("ShadowSocks", "shadowsocks"),
        ("Snell", "snell"),
        ("Sudoku", "sudoku"),
        ("Trojan", "trojan"),
        ("TrustTunnel", "trusttunnel"),
        ("Tuic", "tuic"),
        ("Tunnel", "tunnel"),
        ("Vless", "vless"),
        ("VMESS", "vmess"),
    ] {
        assert_eq!(clash_inbound_label(t), Some(want));
    }
    assert_eq!(clash_inbound_label("FutureProto"), Some("clash"));
}

fn types_of(yaml: &str) -> Vec<String> {
    config_listener_types(yaml).items().clone()
}

#[test]
fn config_listener_types_detection() {
    assert_eq!(
        types_of("port: 7890\nlisteners:\n  - name: ss-in-1\n    type: shadowsocks\n    port: 8080\n    listen: 0.0.0.0\nrules:\n  - MATCH,DIRECT\n"),
        vec!["shadowsocks"]
    );
    assert_eq!(
        types_of("listeners:\n  - name: a\n    type: shadowsocks\n  - name: b\n    type: Vless\n  - name: c\n    type: shadowsocks\n"),
        vec!["shadowsocks", "vless"]
    );
    for y in [
        "port: 7890\nrules:\n  - MATCH,DIRECT\n",
        "listeners:\nrules:\n  - MATCH,DIRECT\n",
        "listeners: []\n",
        "listeners: null\n",
        "listeners: # comment\nrules: []\n",
        "",
    ] {
        assert!(config_listener_types(y).is_empty(), "should be empty: {y:?}");
    }
    assert_eq!(types_of("listeners: [{name: a, type: mixed, port: 1}]\n"), vec!["mixed"]);
    assert!(
        config_listener_types("x:\n  listeners:\n    - name: a\n    type: shadowsocks\n").is_empty()
    );
}

#[test]
fn collect_types_ignores_key_suffix_and_takes_value() {
    let chars = |s: &str| s.chars().collect::<Vec<char>>();
    let mut s = Names::new();
    collect_types(&chars("    type: shadowsocks"), &mut s);
    assert!(s.contains("shadowsocks"));
    let mut s2 = Names::new();
    collect_types(&chars("    proxy-type: foo"), &mut s2);
    assert!(s2.is_empty());
}

#[test]
fn mirror_records_direct_inbound_updates_and_closes() {
    let mut mirror = Names::new();
    let raw = r#"{"connections":[
            {"id":"ss1","metadata":{"type":"Shadowsocks","network":"tcp","host":"ex.com",
             "sourceIP":"10.0.0.8","sourcePort":"5555","destinationIP":"1.2.3.4","destinationPort":"443"},
             "chains":["N"],"upload":100,"download":200},
            {"id":"lo","metadata":{"type":"Socks5","network":"tcp","host":"x",
             "sourceIP":"127.0.0.1","sourcePort":"40001"},"chains":["N"],"upload":1,"download":1},
            {"id":"inner","metadata":{"type":"Inner","network":"tcp","host":"speedtest",
             "sourceIP":"10.0.0.9","sourcePort":"1"},"chains":["N"],"upload":1,"download":1},
            {"id":"vmess-lo","metadata":{"type":"Vmess","network":"udp","host":"",
             "sourceIP":"127.0.0.1","sourcePort":"2"},"chains":["N"],"upload":1,"download":1}
        ]}"#;
    let active = names(&["shadowsocks"]);
    let conns = parse_connections(raw);
    let acts = mirror_direct_inbounds(&mut mirror, &conns, &active);
    assert_eq!(mirror.len(), 1);
    assert_eq!(acts.len(), 1);
    match &acts[0] {
        MirrorAct::Open(i, rec) => {
            assert_eq!(conns[*i].id, "ss1");
            assert_eq!(rec.src.0.text(), "10.0.0.8");
            assert_eq!(rec.src.1, 5555);
            assert_eq!(rec.dst.1, 443);
            assert_eq!(rec.label, "shadowsocks");
            assert_eq!(rec.domain.as_deref(), Some("ex.com"));
            assert!(matches!(rec.transport, Transport::Tcp));
            assert_eq!(conns[*i].upload, 100);
            assert_eq!(conns[*i].download, 200);
        }
        _ => panic!("expected a new record"),
    }

    let raw2 = r#"{"connections":[
            {"id":"ss1","metadata":{"type":"Shadowsocks","network":"tcp","host":"ex.com",
             "sourceIP":"10.0.0.8","sourcePort":"5555","destinationIP":"1.2.3.4","destinationPort":"443"},
             "chains":["N"],"upload":150,"download":260}
        ]}"#;
    let acts = mirror_direct_inbounds(&mut mirror, &parse_connections(raw2), &active);
    assert_eq!(mirror.len(), 1);
    assert!(
        acts.len() == 1 && matches!(acts[0], MirrorAct::Keep(0)),
        "reuse record with same id"
    );

    let acts = mirror_direct_inbounds(&mut mirror, &[], &active);
    assert!(mirror.is_empty());
    assert!(
        acts.len() == 1 && matches!(&acts[0], MirrorAct::Close(id) if id == "ss1"),
        "disappearance marks as closed"
    );
}

#[test]
fn mirror_skips_undeclared_type() {
    let mut mirror = Names::new();
    let raw = r#"{"connections":[
            {"id":"v1","metadata":{"type":"Vmess","network":"tcp","host":"ex.com",
             "sourceIP":"10.0.0.8","sourcePort":"5555","destinationIP":"1.2.3.4","destinationPort":"443"},
             "chains":["N"],"upload":100,"download":200}
        ]}"#;
    let acts = mirror_direct_inbounds(&mut mirror, &parse_connections(raw), &Names::new());
    assert!(mirror.is_empty());
    assert_eq!(acts.len(), 0);
}

#[test]
fn accumulate_prunes_closed_conns() {
    let mut last: Table<(u64, u64)> = Table::new();
    accumulate(&mut last, &parse_connections(SAMPLE));
    assert_eq!(last.len(), 2);
    accumulate(
        &mut last,
        &parse_connections(
            r#"{"connections":[{"id":"a","chains":["HKG 01"],"upload":10,"download":20}]}"#,
        ),
    );
    assert_eq!(last.len(), 1);
    assert!(last.get("a").is_some());
}

#[test]
fn listeners_are_read_anew_only_when_the_file_changed() {
    let mut gate = ListenersGate::new();
    assert!(gate.stale(Some(5)));
    gate.refresh(Some(5), Some("listeners:\n  - type: vless\n"));
    assert!(gate.types().contains("vless"));
    assert!(!gate.stale(Some(5)));
    assert!(gate.stale(Some(6)));
    assert_eq!(mirror_mode(true, true), MirrorMode::Idle);
    assert!(nodes_due(true, true, 600));
    assert!(!nodes_due(true, true, 599));
    assert!(!nodes_due(true, false, 600));
}

#[test]
fn another_process_of_clash_is_taken_over() {
    let mut s = ClashSupervisor::new(None);
    assert!(s.ensure_up(false, None));
    assert!(!s.ensure_up(false, Some(9)));
    assert_eq!(s.pid(), Some(9));
    assert!(!s.ensure_up(true, None));
    assert_eq!(s.restart(Some(11)), Some(9));
    assert_eq!(s.pid(), None);
    s.spawned(12);
    assert_eq!(s.pid(), Some(12));
    assert!(proc_is_clash(Some("clash\n")));
    assert!(!proc_is_clash(Some("clashx")));
    assert!(!proc_is_clash(None));
}

fn delays(v: &serde_json::Value) -> Vec<Option<u64>> {
    match v.as_array() {
        Some(a) => a.iter().map(|e| e["delay"].as_u64()).collect(),
        None => Vec::new(),
    }
}

fn text_at(v: &serde_json::Value, key: &str) -> Option<String> {
    v.get(key).and_then(|x| x.as_str()).map(str::to_string)
}

fn node(v: &serde_json::Value) -> RawNode {
    let mut extra: Table<Vec<Option<u64>>> = Table::new();
    if let Some(o) = v.get("extra").and_then(|x| x.as_object()) {
        for (url, e) in o {
            extra.insert(url.clone(), delays(&e["history"]));
        }
    }
    RawNode {
        name: text_at(v, "name"),
        typ: text_at(v, "type"),
        now: text_at(v, "now"),
        all: v.get("all").and_then(|x| x.as_array()).map(|a| {
            a.iter().filter_map(|x| x.as_str()).map(str::to_string).collect()
        }),
        history: delays(&v["history"]),
        extra,
    }
}

fn rp(json: &str) -> RawProxies {
    let v: serde_json::Value = serde_json::from_str(json).unwrap();
    let mut proxies: Table<RawNode> = Table::new();
    for (name, n) in v["proxies"].as_object().unwrap() {
        proxies.insert(name.clone(), node(n));
    }
    RawProxies { proxies }
}

fn rv(json: &str) -> RawProviders {
    let v: serde_json::Value = serde_json::from_str(json).unwrap();
    let providers = v["providers"]
        .as_object()
        .unwrap()
        .iter()
        .map(|(name, p)| RawProvider {
            name: name.clone(),
            proxies: p["proxies"].as_array().unwrap().iter().map(node).collect(),
        })
        .collect();
    RawProviders { providers }
}

#[test]
fn hist_caps_at_8_samples() {
    let mut h = NodeHist::default();
    for i in 0..20 {
        h.push(Some(i));
    }
    assert_eq!(h.samples().len(), HIST_CAP);
    assert_eq!(h.samples().first(), Some(&Some(12)), "old sample evicted");
}

#[test]
fn parse_smart_groups_filters_and_trims() {
    let j = r#"{"node-groups":[
            {"name":"A","smart":true,"speedtest_url":" http://x "},
            {"name":"B","speedtest_url":"http://y","interval":300},
            {"name":"C","smart":true},
            {"name":"","smart":true},
            {"name":"D","smart":false}
        ]}"#;
    let g = parse_smart_groups(j);
    let got: Vec<(&str, &str)> = g.iter().map(|g| (g.name.as_str(), g.url.as_str())).collect();
    assert_eq!(got, vec![("A", "http://x"), ("C", "")]);
    assert!(parse_smart_groups("not json").is_empty());
    assert!(parse_smart_groups("{}").is_empty());
}

#[test]
fn eligible_members_skips_marker_and_reject_types() {
    let px = rp(r#"{"proxies":{
            "Smart":{"type":"Selector","now":"N1","all":["N1","N2","DIRECT","REJECT",
                     "smartspeedtest@hide","Sub_Sub: 1.23G/2.00G@@2026-08-01"]},
            "N1":{"type":"Trojan"},
            "N2":{"type":"Vless"},
            "DIRECT":{"type":"Direct"},
            "REJECT":{"type":"Reject"},
            "smartspeedtest@hide":{"type":"Reject"},
            "Sub_Sub: 1.23G/2.00G@@2026-08-01":{"type":"Shadowsocks"}
        }}"#);
    let (m, now) = eligible_members(&px, None, "Smart").unwrap();
    let names: Vec<&str> = m.iter().map(|m| m.name.as_str()).collect();
    assert_eq!(
        names,
        vec!["N1", "N2", "DIRECT"],
        "skip reject-type, tag nodes and traffic virtual nodes containing @@"
    );
    assert_eq!(now, "N1");
    assert!(m.iter().all(|m| m.provider.is_none()));
    assert!(eligible_members(&px, None, "Nope").is_none());
}

#[test]
fn eligible_members_locates_provider_nodes() {
    let px = rp(r#"{"proxies":{
            "Grp":{"type":"Selector","now":"P1","all":["P1","smartspeedtest@hide","Ghost"]}
        }}"#);
    let pv = rv(r#"{"providers":{
            "Grp=(Pre🔗Grp)":{"proxies":[
                {"name":"P1","type":"Trojan"},
                {"name":"smartspeedtest@hide","type":"Reject"}
            ]}
        }}"#);
    assert!(needs_providers(&px, "Grp"));
    let (m, _) = eligible_members(&px, Some(&pv), "Grp").unwrap();
    assert_eq!(m.len(), 1, "Ghost not found on either side → skip; tag nodes skipped");
    assert_eq!(m[0].name, "P1");
    assert_eq!(m[0].provider.as_deref(), Some("Grp=(Pre🔗Grp)"));
}

#[test]
fn needs_providers_false_when_all_toplevel() {
    let px = rp(r#"{"proxies":{
            "Smart":{"all":["N1","smartspeedtest@hide"]},
            "N1":{"type":"Trojan"}
        }}"#);
    assert!(!needs_providers(&px, "Smart"), "tag nodes should not trigger provider pulls");
    assert!(!needs_providers(&px, "Nope"));
}

fn group(name: &str, url: &str) -> SmartGroup {
    SmartGroup { name: name.into(), url: url.into() }
}

#[test]
fn bucket_groups_by_effective_url() {
    let gs = vec![
        group("A", "http://x"),
        group("B", ""),
        group("C", "http://x"),
        group("D", "http://def"),
        group("A", "http://dup"),
    ];
    let b = bucket_by_url(&gs, "http://def");
    assert_eq!(b.len(), 2);
    let of = |url: &str| group_names(&b.iter().find(|x| x.url == url).unwrap().groups);
    assert_eq!(of("http://x"), vec!["A", "C"]);
    assert_eq!(of("http://def"), vec!["B", "D"]);
}

#[test]
fn buckets_stand_in_the_order_of_their_addresses() {
    let gs = [group("A", "http://x"), group("B", ""), group("C", "http://m"), group("D", "http://x")];
    let b = bucket_by_url(&gs, "http://def");
    let urls: Vec<&str> = b.iter().map(|x| x.url.as_str()).collect();
    assert_eq!(urls, ["http://def", "http://m", "http://x"]);
    assert_eq!(group_names(&b[2].groups), ["A", "D"]);
}

fn member(name: &str) -> Member {
    Member { name: name.into(), provider: None }
}

#[test]
fn seed_from_clash_prefers_url_bucket_and_falls_back() {
    let px = rp(r#"{"proxies":{

            "N1":{"type":"Trojan",
                  "history":[{"delay":999}],
                  "extra":{"http://t":{"history":[{"delay":100},{"delay":0},{"delay":120}]}}},

            "N2":{"type":"Vless","history":[{"delay":300}],
                  "extra":{"http://other":{"history":[{"delay":280}]}}},

            "N3":{"type":"Vless","history":[]}
        }}"#);
    let members = vec![member("N1"), member("N2"), member("N3")];
    let mut st = GroupState::new();
    let n = seed_from_clash(&mut st, &members, &px, None, "http://t");
    assert_eq!(n, 2);
    assert_eq!(
        st.get("N1").unwrap().samples(),
        &vec![Some(100), None, Some(120)],
        "extra[url] bucket takes priority, delay=0 counted as failure"
    );
    assert_eq!(st.get("N2").unwrap().samples(), &vec![Some(300)], "top-level history fallback");
    assert!(st.get("N3").is_none());
    let n2 = seed_from_clash(&mut st, &members, &px, None, "http://t");
    assert_eq!(n2, 0);
}

#[test]
fn smart_speed_dechunk_roundtrip() {
    assert_eq!(dechunk(b"4\r\nWiki\r\n5\r\npedia\r\n0\r\n\r\n"), b"Wikipedia");
}

#[test]
fn members_that_left_are_forgotten() {
    let mut st = GroupState::new();
    st.push("a", Some(1));
    st.push("b", None);
    st.retain(&[member("b")]);
    assert!(st.get("a").is_none());
    assert!(st.get("b").is_some());
    assert!(st.untested("a"));
}

#[test]
fn the_best_score_is_the_smallest() {
    assert_eq!(best_of(&[5, 3, 3]), Some(1));
    assert_eq!(best_of(&[]), None);
    assert_eq!(fastest(&[None, Some(9), Some(4)]), Some(2));
    assert_eq!(fastest(&[None]), None);
    let ms = [member("a"), member("b"), member("c")];
    assert_eq!(sweep_order(&ms, "c", &[2, 1, 3]), vec![1, 0]);
    assert!(switches(1, 5));
    assert!(!switches(5, 5));
}

#[test]
fn paths_are_escaped() {
    assert_eq!(pct_encode_segment("a b/ü"), "a%20b%2F%C3%BC");
    assert_eq!(select_path("G 1"), "/proxies/G%201");
    assert!(test_path(&member("N 1"), "http://t", 500).starts_with("/proxies/N%201/delay?"));
    let r = request_text("PUT", "/x", Some("{}"));
    assert!(r.starts_with("PUT /x HTTP/1."));
    assert!(r.ends_with("\r\n\r\n{}"));
    assert_eq!(test_result(200, b"{\"delay\":42}"), Some(42));
    assert_eq!(test_result(504, b"{\"delay\":42}"), None);
    assert_eq!(test_result(200, b"nope"), None);
}

fn named(name: &str) -> Member {
    Member { name: name.to_string(), provider: None }
}

#[test]
fn a_sweep_tests_each_node_once_and_switches_downwards() {
    let members = [named("a"), named("b"), named("c")];
    assert_eq!(sweep_start(&members, "b", &[3, 2, 1]), (1, false));
    assert_eq!(sweep_start(&members, "gone", &[3, 2, 1]), (2, true));
    let mut s = Sweep::new(&members, 1, &[30, 20, 10]);
    assert_eq!(s.next(), Some(2));
    assert!(s.tested(15, 20));
    assert_eq!((s.current(), s.next()), (2, Some(0)));
    assert!(!s.tested(15, 15), "an equal score is no reason to switch");
    assert_eq!((s.current(), s.next()), (2, None));
}

#[test]
fn tasks_follow_the_groups() {
    let group = |name: &str, url: &str| SmartGroup { name: name.to_string(), url: url.to_string() };
    let buckets = bucket_by_url(&[group("g1", ""), group("g2", "u2"), group("g3", "u2")], "u1");
    let runner = |url: &str, names: &[&str]| Runner {
        url: url.to_string(),
        names: names.iter().map(|n| n.to_string()).collect(),
    };
    let plan = plan_runners(&[], &buckets);
    assert_eq!((plan.stop.len(), plan.start.len()), (0, 2));
    let plan = plan_runners(&[runner("u1", &["g1"]), runner("u2", &["g2", "g3"])], &buckets);
    assert!(plan.stop.is_empty() && plan.start.is_empty());
    let plan = plan_runners(&[runner("u2", &["g2"]), runner("u3", &["g1"])], &buckets);
    assert_eq!(plan.stop, [0, 1]);
    assert_eq!(plan.start.len(), 2, "a task that ends leaves its bucket without one");
}

#[test]
fn a_round_depends_on_what_is_known() {
    let mut st = GroupState::new();
    assert!(matches!(plan_pass(&st, &[]), Pass::Skip));
    let members = [member("a"), member("b"), member("c")];
    assert!(matches!(plan_pass(&st, &members), Pass::Ladder));
    st.push("b", Some(40));
    assert!(matches!(plan_pass(&st, &members), Pass::Sweep(v) if v == [0, 2]));
    assert_eq!(pause_sec(false), 30);
    assert_eq!(pause_sec(true), 15);
}

#[test]
fn the_ladder_ends_with_the_first_answer() {
    let members = [member("a"), member("b"), member("c")];
    let mut st = GroupState::new();
    let mut l = Ladder::new();
    assert_eq!(l.timeout_ms(), 500);
    let silent = [(0, None), (1, None), (2, None)];
    assert_eq!(l.tested(&mut st, &members, &silent, "a"), Rise::Again);
    assert_eq!(l.timeout_ms(), 1000);
    assert!(st.untested("a"), "a node that did not answer gets no sample");
    let r = l.tested(&mut st, &members, &[(2, Some(90)), (0, None), (1, Some(70))], "a");
    assert_eq!(r, Rise::Pick(1, true));
    assert_eq!(st.get("b").unwrap().samples(), &[Some(70)]);
    assert_eq!(st.get("c").unwrap().samples(), &[Some(90)]);
    let again = Ladder::new().tested(&mut st, &members, &[(1, Some(70)), (2, Some(70))], "b");
    assert_eq!(again, Rise::Pick(1, false), "it is selected already");
}

#[test]
fn the_ladder_gives_up_in_the_end() {
    let members = [member("a")];
    let mut st = GroupState::new();
    let mut l = Ladder::new();
    let mut waits: Vec<u64> = vec![l.timeout_ms()];
    while l.tested(&mut st, &members, &[(0, None)], "a") == Rise::Again {
        waits.push(l.timeout_ms());
    }
    assert_eq!(waits, [500, 1000, 1500, 2000, 2500, 3000, 3500, 4000, 4500, 5000]);
}

#[test]
fn chunks_are_put_together_again() {
    let pieces: [&[u8]; 3] = [b"one\r\ntwo", b"\r\n0\r\n\r\n", &[b'x'; 300]];
    let mut sent: Vec<u8> = Vec::new();
    let mut whole: Vec<u8> = Vec::new();
    for p in pieces {
        sent.extend_from_slice(format!("{:x}\r\n", p.len()).as_bytes());
        sent.extend_from_slice(p);
        sent.extend_from_slice(b"\r\n");
        whole.extend_from_slice(p);
    }
    sent.extend_from_slice(b"0\r\n\r\n");
    assert_eq!(dechunk_buffered(&sent), whole);
    assert_eq!(dechunk(&sent), whole);
    assert!(dechunk_buffered(b"0\r\n\r\n").is_empty());
}
