//! What the counters of a process that carries the tunnel come to.

use crate::cf_metrics;
use crate::cf_metrics::{DiagTunnel, Family, Series};
use crate::decimal;
use crate::names;
use crate::names::Names;
use crate::table::Table;
use crate::text;
use vstd::prelude::*;

verus! {

/// Sums and peaks of counters by name, as whole numbers. A name without counters, or
/// with a sum below zero, is not there.
pub struct Figures {
    pub sums: Table<u64>,
    pub peaks: Table<u64>,
}

/// The number under a name.
pub open spec fn at(m: Map<Seq<char>, u64>, name: Seq<char>) -> Option<u64> {
    if m.contains_key(name) {
        Some(m[name])
    } else {
        None
    }
}

/// The number under a name.
fn figure(t: &Table<u64>, name: &str) -> (r: Option<u64>)
    requires
        t.wf(),
    ensures
        r == at(t@, name@),
{
    match t.get(name) {
        Some(v) => Some(*v),
        None => None,
    }
}

/// The counters of a process. One that it does not tell is missing, not zero.
#[derive(Debug, Clone, Copy, PartialEq, Eq, Structural)]
pub struct Counts {
    pub ha_connections: Option<u64>,
    pub requests_total: Option<u64>,
    pub requests_concurrent: Option<u64>,
    pub requests_max_concurrent: Option<u64>,
    pub requests_errors: Option<u64>,
    pub tcp_active: Option<u64>,
    pub tcp_total: Option<u64>,
    pub udp_active: Option<u64>,
    pub udp_total: Option<u64>,
    pub register_success: Option<u64>,
    pub register_fail: Option<u64>,
    pub register_rpc_fail: Option<u64>,
    pub latency_count: Option<u64>,
    pub latency_stream_errors: Option<u64>,
    pub config_pushes: Option<u64>,
    pub config_push_errors: Option<u64>,
    pub config_version: Option<u64>,
    pub rss_bytes: Option<u64>,
    pub open_fds: Option<u64>,
    pub started_at: Option<u64>,
    pub net_rx_bytes: Option<u64>,
    pub net_tx_bytes: Option<u64>,
    pub goroutines: Option<u64>,
    pub heap_bytes: Option<u64>,
    pub threads: Option<u64>,
}

/// The counters of a process, each under its name.
pub open spec fn counts_of(sums: Map<Seq<char>, u64>, peaks: Map<Seq<char>, u64>) -> Counts {
    Counts {
        ha_connections: at(sums, "cloudflared_tunnel_ha_connections"@),
        requests_total: at(sums, "cloudflared_tunnel_total_requests"@),
        requests_concurrent: at(sums, "cloudflared_tunnel_concurrent_requests_per_tunnel"@),
        requests_max_concurrent: at(
            peaks,
            "cloudflared_tunnel_max_concurrent_requests_per_tunnel"@,
        ),
        requests_errors: at(sums, "cloudflared_tunnel_request_errors"@),
        tcp_active: at(sums, "cloudflared_tcp_active_sessions"@),
        tcp_total: at(sums, "cloudflared_tcp_total_sessions"@),
        udp_active: at(sums, "cloudflared_udp_active_sessions"@),
        udp_total: at(sums, "cloudflared_udp_total_sessions"@),
        register_success: at(sums, "cloudflared_tunnel_tunnel_register_success"@),
        register_fail: at(sums, "cloudflared_tunnel_tunnel_register_fail"@),
        register_rpc_fail: at(sums, "cloudflared_tunnel_tunnel_rpc_fail"@),
        latency_count: at(sums, "cloudflared_proxy_connect_latency_count"@),
        latency_stream_errors: at(sums, "cloudflared_proxy_connect_streams_errors"@),
        config_pushes: at(sums, "cloudflared_config_local_config_pushes"@),
        config_push_errors: at(sums, "cloudflared_config_local_config_pushes_errors"@),
        config_version: at(sums, "cloudflared_orchestration_config_version"@),
        rss_bytes: at(sums, "process_resident_memory_bytes"@),
        open_fds: at(sums, "process_open_fds"@),
        started_at: at(sums, "process_start_time_seconds"@),
        net_rx_bytes: at(sums, "process_network_receive_bytes_total"@),
        net_tx_bytes: at(sums, "process_network_transmit_bytes_total"@),
        goroutines: at(sums, "go_goroutines"@),
        heap_bytes: at(sums, "go_memstats_heap_alloc_bytes"@),
        threads: at(sums, "go_threads"@),
    }
}

/// The counters of a process.
fn counts(f: &Figures) -> (r: Counts)
    requires
        f.sums.wf(),
        f.peaks.wf(),
    ensures
        r == counts_of(f.sums@, f.peaks@),
{
    let s = &f.sums;
    Counts {
        ha_connections: figure(s, "cloudflared_tunnel_ha_connections"),
        requests_total: figure(s, "cloudflared_tunnel_total_requests"),
        requests_concurrent: figure(s, "cloudflared_tunnel_concurrent_requests_per_tunnel"),
        requests_max_concurrent: figure(
            &f.peaks,
            "cloudflared_tunnel_max_concurrent_requests_per_tunnel",
        ),
        requests_errors: figure(s, "cloudflared_tunnel_request_errors"),
        tcp_active: figure(s, "cloudflared_tcp_active_sessions"),
        tcp_total: figure(s, "cloudflared_tcp_total_sessions"),
        udp_active: figure(s, "cloudflared_udp_active_sessions"),
        udp_total: figure(s, "cloudflared_udp_total_sessions"),
        register_success: figure(s, "cloudflared_tunnel_tunnel_register_success"),
        register_fail: figure(s, "cloudflared_tunnel_tunnel_register_fail"),
        register_rpc_fail: figure(s, "cloudflared_tunnel_tunnel_rpc_fail"),
        latency_count: figure(s, "cloudflared_proxy_connect_latency_count"),
        latency_stream_errors: figure(s, "cloudflared_proxy_connect_streams_errors"),
        config_pushes: figure(s, "cloudflared_config_local_config_pushes"),
        config_push_errors: figure(s, "cloudflared_config_local_config_pushes_errors"),
        config_version: figure(s, "cloudflared_orchestration_config_version"),
        rss_bytes: figure(s, "process_resident_memory_bytes"),
        open_fds: figure(s, "process_open_fds"),
        started_at: figure(s, "process_start_time_seconds"),
        net_rx_bytes: figure(s, "process_network_receive_bytes_total"),
        net_tx_bytes: figure(s, "process_network_transmit_bytes_total"),
        goroutines: figure(s, "go_goroutines"),
        heap_bytes: figure(s, "go_memstats_heap_alloc_bytes"),
        threads: figure(s, "go_threads"),
    }
}

/// The counters of a name, where there are any.
fn series<'a>(fams: &'a Vec<Family>, name: &str) -> (r: Option<&'a Vec<Series>>)
    requires
        cf_metrics::families_wf(fams@),
    ensures
        match r {
            Some(v) => {
                &&& cf_metrics::series_views(v@) == cf_metrics::series_of(
                    cf_metrics::family_views(fams@),
                    name@,
                )
                &&& forall|j: int| 0 <= j < v@.len() ==> (#[trigger] v@[j]).labels.wf()
            },
            None => cf_metrics::series_of(cf_metrics::family_views(fams@), name@).len() == 0,
        },
{
    match cf_metrics::find_family(fams, name) {
        Some(i) => Some(&fams[i].series),
        None => None,
    }
}

/// A label of a counter; the empty text where it has none.
fn label(s: &Series, key: &str) -> (r: String)
    requires
        s.labels.wf(),
    ensures
        r@ == cf_metrics::label_of(s@, key@),
{
    let r = match s.labels.get(key) {
        Some(v) => v.clone(),
        None => String::new(),
    };
    assert(r@ =~= cf_metrics::label_of(s@, key@));
    r
}

/// The value of a counter as a whole number; nothing below zero.
fn count(s: &Series) -> (r: u64)
    ensures
        r == cf_metrics::count_of(s@),
{
    let cs = text::chars_of(s.value.as_str());
    match decimal::parse(cs.as_slice()) {
        Some(n) => decimal::clamp(n),
        None => 0,
    }
}

/// Where each connection ends, after the first `n` counters: those that are up count,
/// and of several the last.
pub open spec fn colo_of(ss: Seq<cf_metrics::SeriesView>, n: int) -> Map<Seq<char>, Seq<char>>
    decreases n,
{
    if n <= 0 {
        Map::empty()
    } else if cf_metrics::count_of(ss[n - 1]) >= 1 {
        colo_of(ss, n - 1).insert(
            cf_metrics::label_of(ss[n - 1], "connection_id"@),
            cf_metrics::label_of(ss[n - 1], "edge_location"@),
        )
    } else {
        colo_of(ss, n - 1)
    }
}

/// Where each connection ends.
pub open spec fn colos(fs: Seq<cf_metrics::FamilyView>) -> Map<Seq<char>, Seq<char>> {
    let ss = cf_metrics::series_of(fs, "cloudflared_tunnel_server_locations"@);
    colo_of(ss, ss.len() as int)
}

/// Where each connection ends, and the names of the connections in their order.
fn colo_table(fams: &Vec<Family>) -> (r: (Table<String>, Names))
    requires
        cf_metrics::families_wf(fams@),
    ensures
        r.0.wf(),
        r.1.wf(),
        cf_metrics::label_view(r.0) == colos(cf_metrics::family_views(fams@)),
        r.1@ == colos(cf_metrics::family_views(fams@)).dom(),
{
    let mut out: Table<String> = Table::new();
    let mut keys = Names::new();
    let ghost all = cf_metrics::series_of(
        cf_metrics::family_views(fams@),
        "cloudflared_tunnel_server_locations"@,
    );
    assert(cf_metrics::label_view(out) =~= Map::<Seq<char>, Seq<char>>::empty());
    assert(keys@ =~= colo_of(all, 0).dom());
    match series(fams, "cloudflared_tunnel_server_locations") {
        Some(v) => {
            let mut i: usize = 0;
            while i < v.len()
                invariant
                    i <= v@.len(),
                    out.wf(),
                    keys.wf(),
                    all == cf_metrics::series_views(v@),
                    forall|j: int| 0 <= j < v@.len() ==> (#[trigger] v@[j]).labels.wf(),
                    cf_metrics::label_view(out) == colo_of(all, i as int),
                    keys@ == colo_of(all, i as int).dom(),
                decreases v@.len() - i,
            {
                let s = &v[i];
                assert(all[i as int] == s@);
                if count(s) >= 1 {
                    let ghost before = cf_metrics::label_view(out);
                    let k = label(s, "connection_id");
                    let e = label(s, "edge_location");
                    keys.insert(k.clone());
                    let ghost kv = k@;
                    let ghost ev = e@;
                    out.insert(k, e);
                    assert(cf_metrics::label_view(out) =~= before.insert(kv, ev));
                    assert(keys@ =~= colo_of(all, i + 1).dom());
                }
                i = i + 1;
            }
        },
        None => {},
    }
    (out, keys)
}

/// The value of the last of the first `n` counters that belongs to a connection.
pub open spec fn conn_value(ss: Seq<cf_metrics::SeriesView>, idx: Seq<char>, n: int) -> Option<
    cf_metrics::SeriesView,
>
    decreases n,
{
    if n <= 0 {
        None
    } else if cf_metrics::label_of(ss[n - 1], "conn_index"@) == idx {
        Some(ss[n - 1])
    } else {
        conn_value(ss, idx, n - 1)
    }
}

/// The counter of a name that belongs to a connection.
pub open spec fn conn_series(
    fs: Seq<cf_metrics::FamilyView>,
    name: Seq<char>,
    idx: Seq<char>,
) -> Option<cf_metrics::SeriesView> {
    let ss = cf_metrics::series_of(fs, name);
    conn_value(ss, idx, ss.len() as int)
}

/// The value of a counter, as it is written.
pub open spec fn as_written(s: Option<cf_metrics::SeriesView>) -> Option<Seq<char>> {
    match s {
        Some(v) => Some(v.value),
        None => None,
    }
}

/// The value of a counter, as a whole number.
pub open spec fn as_whole(s: Option<cf_metrics::SeriesView>) -> Option<u64> {
    match s {
        Some(v) => Some(cf_metrics::count_of(v)),
        None => None,
    }
}

/// The counter of a name that belongs to a connection.
fn per_conn<'a>(fams: &'a Vec<Family>, name: &str, idx: &str) -> (r: Option<&'a Series>)
    requires
        cf_metrics::families_wf(fams@),
    ensures
        match r {
            Some(s) => conn_series(cf_metrics::family_views(fams@), name@, idx@) == Some(s@),
            None => conn_series(cf_metrics::family_views(fams@), name@, idx@) is None,
        },
{
    let ghost all = cf_metrics::series_of(cf_metrics::family_views(fams@), name@);
    let v = match series(fams, name) {
        Some(v) => v,
        None => return None,
    };
    let mut i: usize = v.len();
    while i > 0
        invariant
            i <= v@.len(),
            all == cf_metrics::series_views(v@),
            all == cf_metrics::series_of(cf_metrics::family_views(fams@), name@),
            forall|j: int| 0 <= j < v@.len() ==> (#[trigger] v@[j]).labels.wf(),
            conn_value(all, idx@, all.len() as int) == conn_value(all, idx@, i as int),
        decreases i,
    {
        let s = &v[i - 1];
        assert(all[i - 1] == s@);
        if text::same_str(label(s, "conn_index").as_str(), idx) {
            return Some(s);
        }
        i = i - 1;
    }
    None
}

/// The counter of a name that belongs to a connection, as it is written.
fn written(fams: &Vec<Family>, name: &str, idx: &str) -> (r: Option<String>)
    requires
        cf_metrics::families_wf(fams@),
    ensures
        text::opt_string(r) == as_written(
            conn_series(cf_metrics::family_views(fams@), name@, idx@),
        ),
{
    match per_conn(fams, name, idx) {
        Some(s) => Some(s.value.clone()),
        None => None,
    }
}

/// The counter of a name that belongs to a connection, as a whole number.
fn whole(fams: &Vec<Family>, name: &str, idx: &str) -> (r: Option<u64>)
    requires
        cf_metrics::families_wf(fams@),
    ensures
        r == as_whole(conn_series(cf_metrics::family_views(fams@), name@, idx@)),
{
    match per_conn(fams, name, idx) {
        Some(s) => Some(count(s)),
        None => None,
    }
}

/// A connection of the process: what it tells itself of it, where the connection
/// ends, and how well it goes.
#[derive(Debug)]
pub struct ConnRow {
    pub index: Option<u64>,
    pub edge: Option<String>,
    pub protocol: Option<&'static str>,
    pub connected: Option<bool>,
    pub colo: Option<String>,
    pub rtt_ms: Option<String>,
    pub min_rtt_ms: Option<String>,
    pub smoothed_rtt_ms: Option<String>,
    pub cwnd: Option<u64>,
    pub mtu: Option<u64>,
    pub sent_bytes: Option<u64>,
    pub recv_bytes: Option<u64>,
    pub lost_packets: Option<u64>,
}

/// A connection, as values.
#[verifier::ext_equal]
pub struct ConnRowView {
    pub index: Option<u64>,
    pub edge: Option<Seq<char>>,
    pub protocol: Option<Seq<char>>,
    pub connected: Option<bool>,
    pub colo: Option<Seq<char>>,
    pub rtt_ms: Option<Seq<char>>,
    pub min_rtt_ms: Option<Seq<char>>,
    pub smoothed_rtt_ms: Option<Seq<char>>,
    pub cwnd: Option<u64>,
    pub mtu: Option<u64>,
    pub sent_bytes: Option<u64>,
    pub recv_bytes: Option<u64>,
    pub lost_packets: Option<u64>,
}

impl View for ConnRow {
    type V = ConnRowView;

    open spec fn view(&self) -> ConnRowView {
        ConnRowView {
            index: self.index,
            edge: text::opt_string(self.edge),
            protocol: text::opt_str(self.protocol),
            connected: self.connected,
            colo: text::opt_string(self.colo),
            rtt_ms: text::opt_string(self.rtt_ms),
            min_rtt_ms: text::opt_string(self.min_rtt_ms),
            smoothed_rtt_ms: text::opt_string(self.smoothed_rtt_ms),
            cwnd: self.cwnd,
            mtu: self.mtu,
            sent_bytes: self.sent_bytes,
            recv_bytes: self.recv_bytes,
            lost_packets: self.lost_packets,
        }
    }
}

/// Connections, as values.
pub open spec fn row_views(v: Seq<ConnRow>) -> Seq<ConnRowView> {
    Seq::new(v.len(), |i: int| v[i]@)
}

/// What the process tells of the connection with a name, from a place on.
pub open spec fn told_of(cs: Seq<cf_metrics::DiagConnView>, idx: Seq<char>, i: int) -> Option<
    cf_metrics::DiagConnView,
>
    decreases cs.len() - i,
{
    if i < 0 || i >= cs.len() {
        None
    } else if text::decimal(cs[i].index as int) == idx {
        Some(cs[i])
    } else {
        told_of(cs, idx, i + 1)
    }
}

/// The connections that the process tells of itself; none where it tells nothing.
pub open spec fn told(diag: Option<cf_metrics::DiagView>) -> Seq<cf_metrics::DiagConnView> {
    match diag {
        Some(d) => d.connections,
        None => Seq::empty(),
    }
}

/// A connection of the process.
pub open spec fn row_of(
    fs: Seq<cf_metrics::FamilyView>,
    cs: Seq<cf_metrics::DiagConnView>,
    idx: Seq<char>,
) -> ConnRowView {
    let d = told_of(cs, idx, 0);
    ConnRowView {
        index: match text::number(idx, 10, u64::MAX as int) {
            Some(n) => Some(n as u64),
            None => None,
        },
        edge: match d {
            Some(c) => Some(c.edge_address),
            None => None,
        },
        protocol: match d {
            Some(c) => Some(
                if c.protocol == 1 {
                    "quic"@
                } else {
                    "http2"@
                },
            ),
            None => None,
        },
        connected: match d {
            Some(c) => Some(c.is_connected),
            None => None,
        },
        colo: if colos(fs).contains_key(idx) {
            Some(colos(fs)[idx])
        } else {
            None
        },
        rtt_ms: as_written(conn_series(fs, "quic_client_latest_rtt"@, idx)),
        min_rtt_ms: as_written(conn_series(fs, "quic_client_min_rtt"@, idx)),
        smoothed_rtt_ms: as_written(conn_series(fs, "quic_client_smoothed_rtt"@, idx)),
        cwnd: as_whole(conn_series(fs, "quic_client_congestion_window"@, idx)),
        mtu: as_whole(conn_series(fs, "quic_client_mtu"@, idx)),
        sent_bytes: as_whole(conn_series(fs, "quic_client_sent_bytes"@, idx)),
        recv_bytes: as_whole(conn_series(fs, "quic_client_receive_bytes"@, idx)),
        lost_packets: as_whole(conn_series(fs, "quic_client_lost_packets"@, idx)),
    }
}

/// What the process tells of the connection with a name.
fn find_told<'a>(diag: Option<&'a DiagTunnel>, idx: &str) -> (r: Option<&'a cf_metrics::DiagConn>)
    ensures
        match r {
            Some(c) => told_of(told(diag_view(diag)), idx@, 0) == Some(c@),
            None => told_of(told(diag_view(diag)), idx@, 0) is None,
        },
{
    let d = match diag {
        Some(d) => d,
        None => return None,
    };
    let ghost cs = d@.connections;
    let mut i: usize = 0;
    while i < d.connections.len()
        invariant
            i <= d.connections@.len(),
            cs == d@.connections,
            cs == told(diag_view(diag)),
            told_of(cs, idx@, 0) == told_of(cs, idx@, i as int),
        decreases d.connections@.len() - i,
    {
        let c = &d.connections[i];
        assert(cs[i as int] == c@);
        if text::same_str(text::decimal_of(c.index).as_str(), idx) {
            return Some(c);
        }
        i = i + 1;
    }
    None
}

/// What the process tells of itself, as values.
pub open spec fn diag_view(d: Option<&DiagTunnel>) -> Option<cf_metrics::DiagView> {
    match d {
        Some(t) => Some(t@),
        None => None,
    }
}

/// A connection of the process.
fn row(fams: &Vec<Family>, diag: Option<&DiagTunnel>, colo: &Table<String>, idx: &str) -> (r: ConnRow)
    requires
        cf_metrics::families_wf(fams@),
        colo.wf(),
        cf_metrics::label_view(*colo) == colos(cf_metrics::family_views(fams@)),
    ensures
        r@ == row_of(cf_metrics::family_views(fams@), told(diag_view(diag)), idx@),
{
    let d = find_told(diag, idx);
    let cs = text::chars_of(idx);
    let ghost fs = cf_metrics::family_views(fams@);
    let at_colo = match colo.get(idx) {
        Some(c) => Some(c.clone()),
        None => None,
    };
    assert(text::opt_string(at_colo) == if colos(fs).contains_key(idx@) {
        Some(colos(fs)[idx@])
    } else {
        None
    }) by {
        assert(cf_metrics::label_view(*colo).contains_key(idx@) == colo@.contains_key(idx@));
    }
    ConnRow {
        index: text::parse_number(cs.as_slice(), 10, u64::MAX),
        edge: match d {
            Some(c) => Some(c.edge_address.clone()),
            None => None,
        },
        protocol: match d {
            Some(c) => Some(c.protocol_name()),
            None => None,
        },
        connected: match d {
            Some(c) => Some(c.is_connected),
            None => None,
        },
        colo: at_colo,
        rtt_ms: written(fams, "quic_client_latest_rtt", idx),
        min_rtt_ms: written(fams, "quic_client_min_rtt", idx),
        smoothed_rtt_ms: written(fams, "quic_client_smoothed_rtt", idx),
        cwnd: whole(fams, "quic_client_congestion_window", idx),
        mtu: whole(fams, "quic_client_mtu", idx),
        sent_bytes: whole(fams, "quic_client_sent_bytes", idx),
        recv_bytes: whole(fams, "quic_client_receive_bytes", idx),
        lost_packets: whole(fams, "quic_client_lost_packets", idx),
    }
}

/// Whether texts stand in their order, each once, and are those of a set.
pub open spec fn ordered(q: Seq<Seq<char>>, s: Set<Seq<char>>) -> bool {
    &&& forall|i: int, j: int| 0 <= i < j < q.len() ==> names::before(#[trigger] q[i], #[trigger] q[j])
    &&& q.to_set() == s
}

/// The connections of the process: those that it tells of, in its order, or else those
/// whose end is known, in the order of their names, which is `q`.
pub open spec fn rows_of(
    fs: Seq<cf_metrics::FamilyView>,
    cs: Seq<cf_metrics::DiagConnView>,
    q: Seq<Seq<char>>,
) -> Seq<ConnRowView> {
    if cs.len() > 0 {
        Seq::new(cs.len(), |i: int| row_of(fs, cs, text::decimal(cs[i].index as int)))
    } else {
        Seq::new(q.len(), |i: int| row_of(fs, cs, q[i]))
    }
}

/// The connections of the process.
fn rows(fams: &Vec<Family>, diag: Option<&DiagTunnel>) -> (r: Vec<ConnRow>)
    requires
        cf_metrics::families_wf(fams@),
    ensures
        exists|q: Seq<Seq<char>>| #[trigger]
            ordered(q, colos(cf_metrics::family_views(fams@)).dom()) && row_views(r@) == rows_of(
                cf_metrics::family_views(fams@),
                told(diag_view(diag)),
                q,
            ),
{
    let ghost fs = cf_metrics::family_views(fams@);
    let ghost cs = told(diag_view(diag));
    let (colo, keys) = colo_table(fams);
    proof {
        keys.lemma_order();
    }
    let ghost q = keys.order();
    assert(ordered(q, colos(fs).dom()));
    let mut out: Vec<ConnRow> = Vec::new();
    match diag {
        Some(d) => if d.connections.len() > 0 {
            let mut i: usize = 0;
            while i < d.connections.len()
                invariant
                    i <= d.connections@.len(),
                    cf_metrics::families_wf(fams@),
                    fs == cf_metrics::family_views(fams@),
                    diag == Some(d),
                    cs == told(diag_view(diag)),
                    colo.wf(),
                    cf_metrics::label_view(colo) == colos(fs),
                    out@.len() == i,
                    forall|k: int|
                        0 <= k < i ==> (#[trigger] out@[k])@ == row_of(
                            fs,
                            cs,
                            text::decimal(cs[k].index as int),
                        ),
                decreases d.connections@.len() - i,
            {
                assert(cs[i as int] == d.connections@[i as int]@);
                let idx = text::decimal_of(d.connections[i].index);
                out.push(row(fams, diag, &colo, idx.as_str()));
                i = i + 1;
            }
            assert(row_views(out@) =~= rows_of(fs, cs, q));
            return out;
        },
        None => {},
    }
    let items = keys.items();
    let mut i: usize = 0;
    while i < items.len()
        invariant
            i <= items@.len(),
            cf_metrics::families_wf(fams@),
            fs == cf_metrics::family_views(fams@),
            cs == told(diag_view(diag)),
            q == text::strings(items@),
            colo.wf(),
            cf_metrics::label_view(colo) == colos(fs),
            out@.len() == i,
            forall|k: int| 0 <= k < i ==> (#[trigger] out@[k])@ == row_of(fs, cs, q[k]),
        decreases items@.len() - i,
    {
        assert(q[i as int] == items@[i as int]@);
        out.push(row(fams, diag, &colo, items[i].as_str()));
        i = i + 1;
    }
    assert(row_views(out@) =~= rows_of(fs, cs, q));
    out
}

/// How often each status was answered, after the first `n` counters. Those without a
/// status do not count.
pub open spec fn codes_of(ss: Seq<cf_metrics::SeriesView>, n: int) -> Map<Seq<char>, u64>
    decreases n,
{
    if n <= 0 {
        Map::empty()
    } else {
        let before = codes_of(ss, n - 1);
        let s = ss[n - 1];
        if s.labels.contains_key("status_code"@) {
            let code = s.labels["status_code"@];
            let was = match at(before, code) {
                Some(v) => v,
                None => 0,
            };
            before.insert(code, cf_metrics::wrapped_sum(was, cf_metrics::count_of(s)))
        } else {
            before
        }
    }
}

/// How often each status was answered.
fn codes(fams: &Vec<Family>) -> (r: Table<u64>)
    requires
        cf_metrics::families_wf(fams@),
    ensures
        r.wf(),
        r@ == {
            let ss = cf_metrics::series_of(
                cf_metrics::family_views(fams@),
                "cloudflared_tunnel_response_by_code"@,
            );
            codes_of(ss, ss.len() as int)
        },
{
    let mut out: Table<u64> = Table::new();
    let v = match series(fams, "cloudflared_tunnel_response_by_code") {
        Some(v) => v,
        None => return out,
    };
    let ghost all = cf_metrics::series_views(v@);
    let mut i: usize = 0;
    while i < v.len()
        invariant
            i <= v@.len(),
            out.wf(),
            all == cf_metrics::series_views(v@),
            forall|j: int| 0 <= j < v@.len() ==> (#[trigger] v@[j]).labels.wf(),
            out@ == codes_of(all, i as int),
        decreases v@.len() - i,
    {
        let s = &v[i];
        assert(all[i as int] == s@);
        match s.labels.get("status_code") {
            Some(code) => {
                let was: u64 = match figure(&out, code.as_str()) {
                    Some(n) => n,
                    None => 0,
                };
                let now: u64 = was.wrapping_add(count(s));
                assert(now == cf_metrics::wrapped_sum(was, cf_metrics::count_of(s@)));
                out.insert(code.clone(), now);
            },
            None => {},
        }
        i = i + 1;
    }
    out
}

/// What a process was built from.
#[derive(Debug)]
pub struct Build {
    pub version: String,
    pub go_version: String,
    pub revision: String,
}

/// What a process was built from, as values.
pub open spec fn build_view(b: Option<Build>) -> Option<(Seq<char>, Seq<char>, Seq<char>)> {
    match b {
        Some(v) => Some((v.version@, v.go_version@, v.revision@)),
        None => None,
    }
}

/// What a process was built from, by the first counter that tells it.
pub open spec fn build_of(ss: Seq<cf_metrics::SeriesView>) -> Option<
    (Seq<char>, Seq<char>, Seq<char>),
> {
    if ss.len() > 0 {
        Some(
            (
                cf_metrics::label_of(ss[0], "version"@),
                cf_metrics::label_of(ss[0], "goversion"@),
                cf_metrics::label_of(ss[0], "revision"@),
            ),
        )
    } else {
        None
    }
}

/// What a process was built from.
fn build(fams: &Vec<Family>) -> (r: Option<Build>)
    requires
        cf_metrics::families_wf(fams@),
    ensures
        build_view(r) == build_of(
            cf_metrics::series_of(cf_metrics::family_views(fams@), "build_info"@),
        ),
{
    match series(fams, "build_info") {
        Some(v) => if v.len() > 0 {
            assert(cf_metrics::series_views(v@)[0] == v@[0]@);
            Some(
                Build {
                    version: label(&v[0], "version"),
                    go_version: label(&v[0], "goversion"),
                    revision: label(&v[0], "revision"),
                },
            )
        } else {
            None
        },
        None => None,
    }
}

/// What the counters of a process come to.
pub struct Summary {
    pub ready: Option<u64>,
    pub connector_id: Option<String>,
    pub tunnel_id: Option<String>,
    pub build: Option<Build>,
    pub conns: Vec<ConnRow>,
    pub codes: Table<u64>,
    pub counts: Counts,
}

/// What the counters of a process come to: `ready` is how many of its connections are
/// up, `diag` what it tells of itself, and `figures` the sums and peaks of `fams`.
pub fn summarize(
    fams: &Vec<Family>,
    figures: &Figures,
    ready: Option<u64>,
    diag: Option<&DiagTunnel>,
) -> (r: Summary)
    requires
        cf_metrics::families_wf(fams@),
        figures.sums.wf(),
        figures.peaks.wf(),
    ensures
        r.ready == ready,
        text::opt_string(r.connector_id) == match diag_view(diag) {
            Some(d) => Some(d.connector_id),
            None => None,
        },
        text::opt_string(r.tunnel_id) == match diag_view(diag) {
            Some(d) => Some(d.tunnel_id),
            None => None,
        },
        build_view(r.build) == build_of(
            cf_metrics::series_of(cf_metrics::family_views(fams@), "build_info"@),
        ),
        exists|q: Seq<Seq<char>>| #[trigger]
            ordered(q, colos(cf_metrics::family_views(fams@)).dom()) && row_views(r.conns@)
                == rows_of(cf_metrics::family_views(fams@), told(diag_view(diag)), q),
        r.codes.wf(),
        r.codes@ == {
            let ss = cf_metrics::series_of(
                cf_metrics::family_views(fams@),
                "cloudflared_tunnel_response_by_code"@,
            );
            codes_of(ss, ss.len() as int)
        },
        r.counts == counts_of(figures.sums@, figures.peaks@),
{
    Summary {
        ready,
        connector_id: match diag {
            Some(d) => Some(d.connector_id.clone()),
            None => None,
        },
        tunnel_id: match diag {
            Some(d) => Some(d.tunnel_id.clone()),
            None => None,
        },
        build: build(fams),
        conns: rows(fams, diag),
        codes: codes(fams),
        counts: counts(figures),
    }
}

/// Each figure of the summary is the one that is counted under its own name, and there is
/// none where nothing is counted under that name.
pub proof fn law_figures_by_name(sums: Map<Seq<char>, u64>, peaks: Map<Seq<char>, u64>, n: u64)
    ensures
        counts_of(sums.insert("cloudflared_tunnel_ha_connections"@, n), peaks).ha_connections == Some(
            n,
        ),
        counts_of(sums.remove("cloudflared_tunnel_ha_connections"@), peaks).ha_connections is None,
        counts_of(sums.insert("cloudflared_tunnel_total_requests"@, n), peaks).requests_total == Some(
            n,
        ),
        counts_of(sums.remove("cloudflared_tunnel_total_requests"@), peaks).requests_total is None,
        counts_of(sums.insert("cloudflared_tunnel_concurrent_requests_per_tunnel"@, n), peaks).requests_concurrent == Some(
            n,
        ),
        counts_of(sums.remove("cloudflared_tunnel_concurrent_requests_per_tunnel"@), peaks).requests_concurrent is None,
        counts_of(sums.insert("cloudflared_tunnel_request_errors"@, n), peaks).requests_errors == Some(
            n,
        ),
        counts_of(sums.remove("cloudflared_tunnel_request_errors"@), peaks).requests_errors is None,
        counts_of(sums.insert("cloudflared_tcp_active_sessions"@, n), peaks).tcp_active == Some(
            n,
        ),
        counts_of(sums.remove("cloudflared_tcp_active_sessions"@), peaks).tcp_active is None,
        counts_of(sums.insert("cloudflared_tcp_total_sessions"@, n), peaks).tcp_total == Some(
            n,
        ),
        counts_of(sums.remove("cloudflared_tcp_total_sessions"@), peaks).tcp_total is None,
        counts_of(sums.insert("cloudflared_udp_active_sessions"@, n), peaks).udp_active == Some(
            n,
        ),
        counts_of(sums.remove("cloudflared_udp_active_sessions"@), peaks).udp_active is None,
        counts_of(sums.insert("cloudflared_udp_total_sessions"@, n), peaks).udp_total == Some(
            n,
        ),
        counts_of(sums.remove("cloudflared_udp_total_sessions"@), peaks).udp_total is None,
        counts_of(sums.insert("cloudflared_tunnel_tunnel_register_success"@, n), peaks).register_success == Some(
            n,
        ),
        counts_of(sums.remove("cloudflared_tunnel_tunnel_register_success"@), peaks).register_success is None,
        counts_of(sums.insert("cloudflared_tunnel_tunnel_register_fail"@, n), peaks).register_fail == Some(
            n,
        ),
        counts_of(sums.remove("cloudflared_tunnel_tunnel_register_fail"@), peaks).register_fail is None,
        counts_of(sums.insert("cloudflared_tunnel_tunnel_rpc_fail"@, n), peaks).register_rpc_fail == Some(
            n,
        ),
        counts_of(sums.remove("cloudflared_tunnel_tunnel_rpc_fail"@), peaks).register_rpc_fail is None,
        counts_of(sums.insert("cloudflared_proxy_connect_latency_count"@, n), peaks).latency_count == Some(
            n,
        ),
        counts_of(sums.remove("cloudflared_proxy_connect_latency_count"@), peaks).latency_count is None,
        counts_of(sums.insert("cloudflared_proxy_connect_streams_errors"@, n), peaks).latency_stream_errors == Some(
            n,
        ),
        counts_of(sums.remove("cloudflared_proxy_connect_streams_errors"@), peaks).latency_stream_errors is None,
        counts_of(sums.insert("cloudflared_config_local_config_pushes"@, n), peaks).config_pushes == Some(
            n,
        ),
        counts_of(sums.remove("cloudflared_config_local_config_pushes"@), peaks).config_pushes is None,
        counts_of(sums.insert("cloudflared_config_local_config_pushes_errors"@, n), peaks).config_push_errors == Some(
            n,
        ),
        counts_of(sums.remove("cloudflared_config_local_config_pushes_errors"@), peaks).config_push_errors is None,
        counts_of(sums.insert("cloudflared_orchestration_config_version"@, n), peaks).config_version == Some(
            n,
        ),
        counts_of(sums.remove("cloudflared_orchestration_config_version"@), peaks).config_version is None,
        counts_of(sums.insert("process_resident_memory_bytes"@, n), peaks).rss_bytes == Some(
            n,
        ),
        counts_of(sums.remove("process_resident_memory_bytes"@), peaks).rss_bytes is None,
        counts_of(sums.insert("process_open_fds"@, n), peaks).open_fds == Some(
            n,
        ),
        counts_of(sums.remove("process_open_fds"@), peaks).open_fds is None,
        counts_of(sums.insert("process_start_time_seconds"@, n), peaks).started_at == Some(
            n,
        ),
        counts_of(sums.remove("process_start_time_seconds"@), peaks).started_at is None,
        counts_of(sums.insert("process_network_receive_bytes_total"@, n), peaks).net_rx_bytes == Some(
            n,
        ),
        counts_of(sums.remove("process_network_receive_bytes_total"@), peaks).net_rx_bytes is None,
        counts_of(sums.insert("process_network_transmit_bytes_total"@, n), peaks).net_tx_bytes == Some(
            n,
        ),
        counts_of(sums.remove("process_network_transmit_bytes_total"@), peaks).net_tx_bytes is None,
        counts_of(sums.insert("go_goroutines"@, n), peaks).goroutines == Some(
            n,
        ),
        counts_of(sums.remove("go_goroutines"@), peaks).goroutines is None,
        counts_of(sums.insert("go_memstats_heap_alloc_bytes"@, n), peaks).heap_bytes == Some(
            n,
        ),
        counts_of(sums.remove("go_memstats_heap_alloc_bytes"@), peaks).heap_bytes is None,
        counts_of(sums.insert("go_threads"@, n), peaks).threads == Some(
            n,
        ),
        counts_of(sums.remove("go_threads"@), peaks).threads is None,
        counts_of(sums, peaks.insert("cloudflared_tunnel_max_concurrent_requests_per_tunnel"@, n)).requests_max_concurrent == Some(n),
        counts_of(sums, peaks.remove("cloudflared_tunnel_max_concurrent_requests_per_tunnel"@)).requests_max_concurrent is None,
{
}

/// A place is noted for a connection that is in use, under its own number, and the last note
/// stays.
pub proof fn law_places_of_connections(
    ss: Seq<cf_metrics::SeriesView>,
    s: cf_metrics::SeriesView,
    other: Seq<char>,
)
    requires
        s.labels.contains_key("connection_id"@),
        s.labels.contains_key("edge_location"@),
    ensures
        ({
            let n = ss.len() as int;
            let before = colo_of(ss, n);
            let all = colo_of(ss.push(s), n + 1);
            let id = s.labels["connection_id"@];
            &&& cf_metrics::count_of(s) == 0 ==> all == before
            &&& cf_metrics::count_of(s) > 0 ==> all.contains_key(id) && all[id]
                == s.labels["edge_location"@]
            &&& other != id ==> (all.contains_key(other) <==> before.contains_key(other))
            &&& other != id && before.contains_key(other) ==> all[other] == before[other]
        }),
{
    lemma_colo_before(ss, s, ss.len() as int);
}

/// The first places do not depend on what stands behind them.
proof fn lemma_colo_before(ss: Seq<cf_metrics::SeriesView>, s: cf_metrics::SeriesView, n: int)
    requires
        0 <= n <= ss.len(),
    ensures
        colo_of(ss.push(s), n) == colo_of(ss, n),
    decreases n,
{
    if n > 0 {
        lemma_colo_before(ss, s, n - 1);
        assert(ss.push(s)[n - 1] == ss[n - 1]);
    }
}

/// The value of a connection is the last one with its number.
pub proof fn law_values_of_connections(
    ss: Seq<cf_metrics::SeriesView>,
    s: cf_metrics::SeriesView,
    idx: Seq<char>,
)
    requires
        s.labels.contains_key("conn_index"@),
    ensures
        ({
            let n = ss.len() as int;
            let all = conn_value(ss.push(s), idx, n + 1);
            &&& s.labels["conn_index"@] == idx ==> all == Some(s)
            &&& s.labels["conn_index"@] != idx ==> all == conn_value(ss, idx, n)
        }),
        conn_value(seq![], idx, 0) is None,
{
    lemma_conn_before(ss, s, idx, ss.len() as int);
}

/// The value among the first does not depend on what stands behind them.
proof fn lemma_conn_before(
    ss: Seq<cf_metrics::SeriesView>,
    s: cf_metrics::SeriesView,
    idx: Seq<char>,
    n: int,
)
    requires
        0 <= n <= ss.len(),
    ensures
        conn_value(ss.push(s), idx, n) == conn_value(ss, idx, n),
    decreases n,
{
    if n > 0 {
        lemma_conn_before(ss, s, idx, n - 1);
        assert(ss.push(s)[n - 1] == ss[n - 1]);
    }
}

/// A row holds for its connection each value from the family for it, and what was told of
/// the connection with its number.
pub proof fn law_values_of_a_row(
    fs: Seq<cf_metrics::FamilyView>,
    cs: Seq<cf_metrics::DiagConnView>,
    i: int,
    s: cf_metrics::SeriesView,
)
    requires
        0 <= i < cs.len(),
        forall|j: int|
            0 <= j < i ==> text::decimal((#[trigger] cs[j]).index as int) != text::decimal(
                cs[i].index as int,
            ),
    ensures
        ({
            let idx = text::decimal(cs[i].index as int);
            let r = row_of(fs, cs, idx);
            let rtt = conn_series(fs, "quic_client_latest_rtt"@, idx);
            let least = conn_series(fs, "quic_client_min_rtt"@, idx);
            let smooth = conn_series(fs, "quic_client_smoothed_rtt"@, idx);
            let window = conn_series(fs, "quic_client_congestion_window"@, idx);
            let mtu = conn_series(fs, "quic_client_mtu"@, idx);
            let sent = conn_series(fs, "quic_client_sent_bytes"@, idx);
            let received = conn_series(fs, "quic_client_receive_bytes"@, idx);
            let lost = conn_series(fs, "quic_client_lost_packets"@, idx);
            &&& r.index == Some(cs[i].index)
            &&& r.edge == Some(cs[i].edge_address)
            &&& r.connected == Some(cs[i].is_connected)
            &&& cs[i].protocol == 1 ==> r.protocol == Some("quic"@)
            &&& cs[i].protocol != 1 ==> r.protocol == Some("http2"@)
            &&& rtt == Some(s) ==> r.rtt_ms == Some(s.value)
            &&& least == Some(s) ==> r.min_rtt_ms == Some(s.value)
            &&& smooth == Some(s) ==> r.smoothed_rtt_ms == Some(s.value)
            &&& window == Some(s) ==> r.cwnd == Some(cf_metrics::count_of(s))
            &&& mtu == Some(s) ==> r.mtu == Some(cf_metrics::count_of(s))
            &&& sent == Some(s) ==> r.sent_bytes == Some(cf_metrics::count_of(s))
            &&& received == Some(s) ==> r.recv_bytes == Some(cf_metrics::count_of(s))
            &&& lost == Some(s) ==> r.lost_packets == Some(cf_metrics::count_of(s))
            &&& rtt is None ==> r.rtt_ms is None
            &&& sent is None ==> r.sent_bytes is None
            &&& received is None ==> r.recv_bytes is None
        }),
{
    let idx = text::decimal(cs[i].index as int);
    text::law_number_round_trip(cs[i].index as int, u64::MAX as int);
    lemma_told_from(cs, idx, 0, i);
}

/// Connections with other numbers are passed over.
proof fn lemma_told_from(cs: Seq<cf_metrics::DiagConnView>, idx: Seq<char>, i: int, k: int)
    requires
        0 <= i <= k < cs.len(),
        forall|j: int| 0 <= j < k ==> text::decimal((#[trigger] cs[j]).index as int) != idx,
    ensures
        told_of(cs, idx, i) == told_of(cs, idx, k),
    decreases k - i,
{
    if i < k {
        assert(text::decimal(cs[i].index as int) != idx);
        lemma_told_from(cs, idx, i + 1, k);
    }
}

/// The rows are those of the connections that were told of, in their order, and else those
/// of the places that are known.
pub proof fn law_which_rows_are_shown(
    fs: Seq<cf_metrics::FamilyView>,
    cs: Seq<cf_metrics::DiagConnView>,
    q: Seq<Seq<char>>,
    i: int,
)
    ensures
        cs.len() > 0 ==> rows_of(fs, cs, q).len() == cs.len(),
        0 <= i < cs.len() ==> rows_of(fs, cs, q)[i].index == Some(cs[i].index),
        cs.len() == 0 ==> rows_of(fs, cs, q).len() == q.len(),
        cs.len() == 0 && 0 <= i < q.len() ==> rows_of(fs, cs, q)[i] == row_of(fs, cs, q[i]),
        cs.len() == 0 && 0 <= i < q.len() ==> rows_of(fs, cs, q)[i].edge is None,
{
    if 0 <= i < cs.len() {
        text::law_number_round_trip(cs[i].index as int, u64::MAX as int);
    }
}

/// Answers are counted by their number: those with the same are added up.
pub proof fn law_answers_by_their_number(
    ss: Seq<cf_metrics::SeriesView>,
    s: cf_metrics::SeriesView,
    other: Seq<char>,
)
    ensures
        ({
            let n = ss.len() as int;
            let before = codes_of(ss, n);
            let all = codes_of(ss.push(s), n + 1);
            let code = s.labels["status_code"@];
            &&& !s.labels.contains_key("status_code"@) ==> all == before
            &&& s.labels.contains_key("status_code"@) ==> {
                &&& all.contains_key(code)
                &&& !before.contains_key(code) ==> all[code] == cf_metrics::count_of(s)
                &&& before.contains_key(code) && before[code] + cf_metrics::count_of(s)
                    <= u64::MAX ==> all[code] == before[code] + cf_metrics::count_of(s)
                &&& other != code && before.contains_key(other) ==> all.contains_key(other)
                    && all[other] == before[other]
                &&& other != code && !before.contains_key(other) ==> !all.contains_key(other)
            }
        }),
{
    lemma_codes_before(ss, s, ss.len() as int);
}

/// The first counts do not depend on what stands behind them.
proof fn lemma_codes_before(ss: Seq<cf_metrics::SeriesView>, s: cf_metrics::SeriesView, n: int)
    requires
        0 <= n <= ss.len(),
    ensures
        codes_of(ss.push(s), n) == codes_of(ss, n),
    decreases n,
{
    if n > 0 {
        lemma_codes_before(ss, s, n - 1);
        assert(ss.push(s)[n - 1] == ss[n - 1]);
    }
}

/// What a program is made of is told by the labels of its first entry.
pub proof fn law_what_a_build_tells(ss: Seq<cf_metrics::SeriesView>)
    ensures
        ss.len() == 0 ==> build_of(ss) is None,
        ss.len() > 0 && ss[0].labels.contains_key("version"@) && ss[0].labels.contains_key(
            "goversion"@,
        ) && ss[0].labels.contains_key("revision"@) ==> build_of(ss) == Some(
            (
                ss[0].labels["version"@],
                ss[0].labels["goversion"@],
                ss[0].labels["revision"@],
            ),
        ),
{
}

} // verus!
