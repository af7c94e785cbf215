use sniffbox::cf_config::Protocol;
use sniffbox::cf_metrics::{
    conn_bytes, diag_tunnel, find_family, metrics_request, parse_prometheus, protocol_of,
    ready_connections, split_answer, ByteAccum, DiagConn, DiagTunnel, Family,
};
use sniffbox::cf_summary::{summarize, Figures, Summary};
use sniffbox::decimal::{clamp, parse, Number};
use sniffbox::table::Table;

const SAMPLE: &str = r#"
# HELP cloudflared_tunnel_server_locations Where each tunnel is connected to
# TYPE cloudflared_tunnel_server_locations gauge
cloudflared_tunnel_server_locations{connection_id="1",edge_location="LAX"} 1
cloudflared_tunnel_server_locations{connection_id="0",edge_location="SJC"} 1
cloudflared_tunnel_server_locations{connection_id="0",edge_location="NRT"} 0
cloudflared_tunnel_total_requests 42
cloudflared_tunnel_concurrent_requests_per_tunnel 3
cloudflared_tunnel_max_concurrent_requests_per_tunnel{connection_id="0"} 7
cloudflared_tunnel_max_concurrent_requests_per_tunnel{connection_id="1"} 11
cloudflared_tunnel_response_by_code{status_code="200"} 30
cloudflared_tunnel_response_by_code{status_code="502"} 2
cloudflared_tunnel_request_errors 1
cloudflared_tcp_active_sessions 2
cloudflared_tcp_total_sessions 19
cloudflared_tunnel_tunnel_register_success{rpcName="registerConnection"} 4
cloudflared_tunnel_tunnel_rpc_fail{error="dial",rpcName="registerConnection"} 1
cloudflared_tunnel_ha_connections 2
cloudflared_udp_active_sessions 3
cloudflared_udp_total_sessions 9
cloudflared_proxy_connect_latency_sum 250
cloudflared_proxy_connect_latency_count 5
build_info{goversion="go1.26.4",revision="2026-07-23-09:58 UTC",type="",version="2026.7.3"} 1
process_resident_memory_bytes 3.9206912e+07
process_cpu_seconds_total 4.51
process_open_fds 12
process_start_time_seconds 1.78540922511e+09
process_network_receive_bytes_total 103290
process_network_transmit_bytes_total 204343
quic_client_latest_rtt{conn_index="0"} 11
quic_client_latest_rtt{conn_index="1"} 35
quic_client_min_rtt{conn_index="0"} 10
quic_client_congestion_window{conn_index="0"} 39424
quic_client_sent_bytes{conn_index="0"} 204343
quic_client_receive_bytes{conn_index="0"} 103290
go_goroutines 38
go_threads 9
"#;

const DIAG: &str = r#"{"tunnelID":"dcdb67dc-cd58-46e5-9d95-90c0221085f3","connectorID":"24adc1cc-4732-4c4d-a4bf-541bc5d33aec","connections":[{"isConnected":true,"protocol":1,"edgeAddress":"198.41.192.227","index":1},{"isConnected":true,"protocol":1,"edgeAddress":"198.41.200.43"}],"icmp_sources":["10.10.10.235","::"]}"#;

fn values(fams: &Vec<Family>, name: &str) -> Option<Vec<f64>> {
    find_family(fams, name)
        .map(|i| fams[i].series.iter().map(|s| s.value.parse::<f64>().unwrap()).collect())
}

fn sum(fams: &Vec<Family>, name: &str) -> Option<f64> {
    values(fams, name).map(|v| v.iter().sum())
}

fn max(fams: &Vec<Family>, name: &str) -> Option<f64> {
    values(fams, name).and_then(|v| v.into_iter().reduce(f64::max))
}

fn figures(fams: &Vec<Family>) -> Figures {
    let mut f = Figures { sums: Table::new(), peaks: Table::new() };
    for fam in fams {
        if let Some(v) = sum(fams, &fam.name).filter(|v| *v >= 0.0) {
            f.sums.insert(fam.name.clone(), v as u64);
        }
        if let Some(v) = max(fams, &fam.name).filter(|v| *v >= 0.0) {
            f.peaks.insert(fam.name.clone(), v as u64);
        }
    }
    f
}

fn summary(text: &str, ready: Option<u64>, diag: Option<&DiagTunnel>) -> Summary {
    let fams = parse_prometheus(text);
    summarize(&fams, &figures(&fams), ready, diag)
}

#[test]
fn parses_labels_and_values() {
    let fams = parse_prometheus(SAMPLE);
    assert_eq!(sum(&fams, "cloudflared_tunnel_total_requests"), Some(42.0));
    assert_eq!(sum(&fams, "cloudflared_tunnel_response_by_code"), Some(32.0));
    assert_eq!(
        max(&fams, "cloudflared_tunnel_max_concurrent_requests_per_tunnel"),
        Some(11.0)
    );
    assert_eq!(sum(&fams, "no_such_metric"), None);
}

#[test]
fn summarize_shapes_frontend_json() {
    let v = summary(SAMPLE, Some(2), None);
    assert_eq!(v.ready, Some(2));
    assert_eq!(v.counts.ha_connections, Some(2));
    assert_eq!(v.counts.requests_total, Some(42));
    assert_eq!(v.counts.requests_max_concurrent, Some(11));
    assert_eq!(v.codes.get("200"), Some(&30));
    assert_eq!(v.codes.get("502"), Some(&2));
    assert_eq!(v.counts.tcp_total, Some(19));
    assert_eq!(v.counts.udp_active, Some(3));
    assert_eq!(v.counts.latency_count, Some(5));
    assert_eq!(v.counts.goroutines, Some(38));
    assert_eq!(v.counts.threads, Some(9));
    let build = v.build.unwrap();
    assert_eq!(build.version, "2026.7.3");
    assert_eq!(build.go_version, "go1.26.4");
    assert_eq!(v.counts.rss_bytes, Some(39206912));
    assert_eq!(v.counts.net_tx_bytes, Some(204343));
    assert_eq!(v.counts.open_fds, Some(12));
}

#[test]
fn byte_accum_is_monotonic_across_connection_resets() {
    let mut acc = ByteAccum::default();
    assert_eq!(acc.fold(conn_bytes(&parse_prometheus(SAMPLE))), (204343, 103290));
    let grown = "quic_client_sent_bytes{conn_index=\"0\"} 300000\n\
                 quic_client_receive_bytes{conn_index=\"0\"} 200000\n";
    assert_eq!(acc.fold(conn_bytes(&parse_prometheus(grown))), (300000, 200000));
    let reset = "quic_client_sent_bytes{conn_index=\"0\"} 500\n\
                 quic_client_receive_bytes{conn_index=\"0\"} 400\n\
                 quic_client_sent_bytes{conn_index=\"1\"} 70\n\
                 quic_client_receive_bytes{conn_index=\"1\"} 30\n";
    assert_eq!(acc.fold(conn_bytes(&parse_prometheus(reset))), (300570, 200430));
    assert_eq!(acc.fold(Table::new()), (300570, 200430));
    assert_eq!(acc.totals(), (300570, 200430));
    assert_eq!(acc.fold(conn_bytes(&parse_prometheus(reset))), (301140, 200860));
}

#[test]
fn byte_accum_starts_at_zero() {
    let mut acc = ByteAccum::default();
    assert_eq!(acc.totals(), (0, 0));
    assert_eq!(acc.fold(conn_bytes(&parse_prometheus(""))), (0, 0));
}

#[test]
fn register_metrics_use_the_doubled_tunnel_prefix() {
    let v = summary(SAMPLE, None, None);
    assert_eq!(
        v.counts.register_success,
        Some(4),
        "must read cloudflared_tunnel_tunnel_register_success"
    );
    assert_eq!(v.counts.register_rpc_fail, Some(1));
    assert_eq!(v.counts.register_fail, None);
    let wrong = summary("cloudflared_tunnel_register_success 7\n", None, None);
    assert_eq!(wrong.counts.register_success, None);
}

#[test]
fn running_protocol_reads_the_omitempty_field() {
    assert_eq!(protocol_of(&diag_tunnel(DIAG).unwrap()), Some(Protocol::Quic));
    let http2 =
        diag_tunnel(r#"{"connections":[{"isConnected":true,"edgeAddress":"198.41.192.7"}]}"#);
    assert_eq!(protocol_of(&http2.unwrap()), Some(Protocol::Http2));
    let empty = DiagTunnel {
        tunnel_id: String::new(),
        connector_id: String::new(),
        connections: Vec::new(),
    };
    assert_eq!(protocol_of(&empty), None);
}

#[test]
fn conns_join_diag_colo_and_quic_quality() {
    let d = diag_tunnel(DIAG).unwrap();
    let v = summary(SAMPLE, Some(2), Some(&d));
    assert_eq!(v.tunnel_id.as_deref(), Some("dcdb67dc-cd58-46e5-9d95-90c0221085f3"));
    assert_eq!(v.connector_id.as_deref(), Some("24adc1cc-4732-4c4d-a4bf-541bc5d33aec"));
    let conns = &v.conns;
    assert_eq!(conns.len(), 2);
    assert_eq!(conns[0].index, Some(1));
    assert_eq!(conns[0].edge.as_deref(), Some("198.41.192.227"));
    assert_eq!(conns[0].protocol, Some("quic"));
    assert_eq!(conns[0].colo.as_deref(), Some("LAX"));
    assert_eq!(conns[0].rtt_ms.as_ref().unwrap().parse::<f64>(), Ok(35.0));
    assert_eq!(conns[1].index, Some(0));
    assert_eq!(conns[1].edge.as_deref(), Some("198.41.200.43"));
    assert_eq!(conns[1].colo.as_deref(), Some("SJC"));
    assert_eq!(conns[1].rtt_ms.as_ref().unwrap().parse::<f64>(), Ok(11.0));
    assert_eq!(conns[1].min_rtt_ms.as_ref().unwrap().parse::<f64>(), Ok(10.0));
    assert_eq!(conns[1].cwnd, Some(39424));
    assert_eq!(conns[1].sent_bytes, Some(204343));
    assert_eq!(conns[1].connected, Some(true));
}

#[test]
fn conns_fall_back_to_server_locations_without_diag() {
    let v = summary(SAMPLE, None, None);
    let conns = &v.conns;
    assert_eq!(conns.len(), 2, "two currently-connected colos");
    assert_eq!(conns[0].index, Some(0));
    assert_eq!(conns[0].colo.as_deref(), Some("SJC"));
    assert_eq!(conns[0].edge, None);
    assert_eq!(conns[1].colo.as_deref(), Some("LAX"));
}

#[test]
fn missing_metrics_become_null_not_zero() {
    let v = summary("", None, None);
    assert_eq!(v.ready, None);
    assert_eq!(v.counts.requests_total, None);
    assert_eq!(v.counts.tcp_active, None);
    assert_eq!(v.counts.ha_connections, None);
    assert!(v.build.is_none());
    assert_eq!(v.counts.rss_bytes, None);
    assert!(v.conns.is_empty());
}

#[test]
fn tolerates_garbage_lines() {
    let text = "# comment\n\nbroken line without value\nname{unterminated 1\nok_metric 5\nnan_metric NaN\ninf_metric +Inf\n";
    let fams = parse_prometheus(text);
    assert_eq!(sum(&fams, "ok_metric"), Some(5.0));
    assert!(find_family(&fams, "nan_metric").is_none());
    assert!(find_family(&fams, "inf_metric").is_none());
}

#[test]
fn parses_escaped_label_values() {
    let fams = parse_prometheus(r#"m{error="dial \"tcp\"",rpcName="X"} 3"#);
    let s = &fams[find_family(&fams, "m").unwrap()].series[0];
    assert_eq!(s.labels.get("error").unwrap(), "dial \"tcp\"");
    assert_eq!(s.labels.get("rpcName").unwrap(), "X");
    assert_eq!(s.value.parse::<f64>(), Ok(3.0));
}

#[test]
fn answers_are_cut_into_status_and_body() {
    let a = "HTTP/1.0 200 OK\r\nx: y\r\n\r\n{\"readyConnections\":4}\n";
    let (status, body) = split_answer(a).unwrap();
    assert_eq!(status, 200);
    assert_eq!(ready_connections(&body), Some(4));
    assert_eq!(ready_connections("nope"), None);
    assert!(split_answer("no blank line").is_none());
    assert!(metrics_request("/ready", "127.0.0.1:20241").starts_with("GET /ready HTTP/1.0\r\n"));
    let c = DiagConn {
        index: 0,
        edge_address: String::new(),
        protocol: 0,
        is_connected: false,
    };
    assert_eq!(c.protocol_name(), "http2");
}

#[test]
fn numbers_with_a_fraction_round_as_doubles_do() {
    let texts = [
        "0", "-0", "1", "+1", "1.5", "0.5", "-3.7", "1.", ".5", "1e3", "1E+3", "12e-1", "155.9",
        "0.9999999999999999", "0.99999999999999994", "0.99999999999999995", "0.99999999999999999",
        "1.9999999999999998", "1.9999999999999999", "1.99999999999999988897769753748434595763683319091796875",
        "1.99999999999999988897769753748434595763683319091796876",
        "4503599627370495.4", "4503599627370495.5", "4503599627370496.5", "4503599627370497.5",
        "4503599627370497.4999999999999999999999", "4503599627370497.50000000000000000001",
        "9007199254740991.5", "9007199254740992.5", "9007199254740993", "9007199254740993.0",
        "9007199254740993.00000000000000000000001", "9007199254740995", "9007199254740994.999",
        "18446744073709549567", "18446744073709549568", "18446744073709550591",
        "18446744073709550592", "18446744073709551615", "18446744073709551616", "1e19", "1e20",
        "123456789012345678901234567890", "1e300", "1e308", "1e309", "1.7976931348623157e308",
        "1.7976931348623158e308", "1.7976931348623159e308", "-1.8e308", "1e400", "1e401", "1e-5",
        "1e-400", "0e999999999999999999999999", "1e999999999999999999999999999999999999999999",
        "1e-999999999999999999999999999999999999999999", "000000000000000000000000000000000012.7",
        "0.000000000000000000000000000012e30", "1234567890e-5", "inf", "-inf", "+Infinity", "NaN",
        "-nan", "", ".", "e5", "1e", "1e+", "1.2.3", "1 ", "0x1", "--1", "infinit", "1_000",
    ];
    for t in texts {
        let chars: Vec<char> = t.chars().collect();
        let ours = parse(&chars);
        match t.parse::<f64>() {
            Ok(v) => {
                let n = ours.unwrap_or_else(|| panic!("{t} is a number"));
                assert_eq!(clamp(n), v as u64, "{t}");
                assert_eq!(matches!(n, Number::Finite(_, _)), v.is_finite(), "{t}");
                assert_eq!(matches!(n, Number::Nan), v.is_nan(), "{t}");
            }
            Err(_) => assert!(ours.is_none(), "{t} is no number"),
        }
    }
    let below = format!("{:.0}", f64::MAX);
    let half = [
        "17976931348623158079372897140530341507993413271003782693617377898044496829276475",
        "09466490179775872070963302864166928879109465555478519404026306574886715058206819",
        "08902000708383676273854845817711531764475730270069855571366959622842914819860834",
        "936475292719074168444365510704342711559699508093042880177904174497792",
    ]
    .concat();
    for (t, finite) in [(below, true), (half.clone(), false), (format!("{half}.5"), false)] {
        let chars: Vec<char> = t.chars().collect();
        let n = parse(&chars).unwrap();
        assert_eq!(t.parse::<f64>().unwrap().is_finite(), finite);
        assert_eq!(matches!(n, Number::Finite(_, _)), finite);
    }
    let mut less = half.into_bytes();
    let last = less.len() - 1;
    less[last - 1] -= 1;
    less[last] = b'9';
    let t = String::from_utf8(less).unwrap();
    let chars: Vec<char> = t.chars().collect();
    assert!(t.parse::<f64>().unwrap().is_finite());
    assert!(matches!(parse(&chars), Some(Number::Finite(false, u64::MAX))));
}
