//! Trial tunnels that measure what a protocol is worth.

use crate::addr;
use crate::addr::{IpAddr, SocketAddr};
use crate::cf_config;
use crate::cf_config::Protocol;
use crate::cf_ctl;
use crate::cf_ctl::Egress;
use crate::decimal;
use crate::text;
use vstd::prelude::*;

verus! {

/// The port of the edge of the tunnel.
pub const EDGE_PORT: u16 = 7844;

/// How many bytes a measurement fetches.
pub const PROBE_BYTES: usize = 1_048_576;

/// How many bytes are served at most.
pub const MAX_PROBE_BYTES: usize = 4_194_304;

/// How far a trial tunnel came.
#[derive(Debug, Clone, Copy, PartialEq, Eq, PartialOrd, Ord, Structural)]
pub enum Stage {
    NotRegistered,
    Registered,
    Resolved,
    Warm,
}

impl Default for Stage {
    fn default() -> (r: Self)
        ensures
            r == Stage::NotRegistered,
    {
        Stage::NotRegistered
    }
}

/// Why a request through a trial tunnel failed.
#[derive(Debug, Clone)]
pub enum ProbeErr {
    Connect,
    Io,
    Status(String),
    Short { got: usize, want: usize },
    Timeout,
}

/// The text of why a request failed.
pub open spec fn err_text(e: ProbeErr) -> Seq<char> {
    match e {
        ProbeErr::Connect => "cannot connect (proxy refused, or edge unreachable)"@,
        ProbeErr::Io => "connection broke before a response"@,
        ProbeErr::Status(line) => "edge answered "@ + text::debug_text(line@),
        ProbeErr::Short { got, want } => "truncated body ("@ + text::decimal(got as int) + "/"@
            + text::decimal(want as int) + " bytes)"@,
        ProbeErr::Timeout => "timed out"@,
    }
}

impl ProbeErr {
    /// The text of why a request failed.
    pub fn as_text(&self) -> (r: String)
        ensures
            r@ == err_text(*self),
    {
        match self {
            ProbeErr::Connect => "cannot connect (proxy refused, or edge unreachable)".to_owned(),
            ProbeErr::Io => "connection broke before a response".to_owned(),
            ProbeErr::Status(line) => {
                let mut out = "edge answered ".to_owned();
                out.append(text::debug_of(line.as_str()).as_str());
                out
            },
            ProbeErr::Short { got, want } => {
                let mut out = "truncated body (".to_owned();
                text::push_decimal(&mut out, *got as u64);
                out.append("/");
                text::push_decimal(&mut out, *want as u64);
                out.append(" bytes)");
                assert(out@ =~= err_text(*self));
                out
            },
            ProbeErr::Timeout => "timed out".to_owned(),
        }
    }
}

/// What a trial tunnel was measured at.
pub struct Sample {
    pub protocol: Protocol,
    /// It came up.
    pub ready: bool,
    /// How long first bytes took, in nanoseconds.
    pub ttfb_ns: Vec<u64>,
    /// How long bodies took, in nanoseconds.
    pub body_ns: Vec<u64>,
    pub failures: u32,
    pub min_rtt_ms: Option<u64>,
    /// The trial was refused.
    pub refused: bool,
    pub stage: Stage,
    /// Why the first request failed that did.
    pub detail: Option<String>,
}

/// Whether two samples differ at most in the stage, in whether the tunnel came up, in the
/// time to the edge, and in why a request failed.
pub open spec fn same_measures(a: Sample, b: Sample) -> bool {
    &&& a.protocol == b.protocol
    &&& a.ttfb_ns@ == b.ttfb_ns@
    &&& a.body_ns@ == b.body_ns@
    &&& a.failures == b.failures
    &&& a.refused == b.refused
}

/// What follows a request that failed: the failure is counted, and why it failed is kept
/// where nothing is kept yet.
pub open spec fn failed_once(a: Sample, b: Sample, why: Option<Seq<char>>) -> bool {
    &&& b.protocol == a.protocol
    &&& b.ready == a.ready
    &&& b.ttfb_ns@ == a.ttfb_ns@
    &&& b.body_ns@ == a.body_ns@
    &&& b.failures == a.failures + 1
    &&& b.min_rtt_ms == a.min_rtt_ms
    &&& b.refused == a.refused
    &&& b.stage == a.stage
    &&& text::opt_string(b.detail) == if a.detail is Some {
        text::opt_string(a.detail)
    } else {
        why
    }
}

impl Sample {
    /// Nothing was measured yet.
    pub fn new(protocol: Protocol, refused: bool) -> (r: Sample)
        ensures
            r.protocol == protocol,
            !r.ready,
            r.ttfb_ns@.len() == 0,
            r.body_ns@.len() == 0,
            r.failures == 0,
            r.min_rtt_ms is None,
            r.refused == refused,
            r.stage == Stage::NotRegistered,
            r.detail is None,
    {
        Sample {
            protocol,
            ready: false,
            ttfb_ns: Vec::new(),
            body_ns: Vec::new(),
            failures: 0,
            min_rtt_ms: None,
            refused,
            stage: Stage::NotRegistered,
            detail: None,
        }
    }

    /// The tunnel came up.
    pub fn registered(&mut self, min_rtt_ms: Option<u64>)
        ensures
            same_measures(*old(self), *final(self)),
            final(self).ready,
            final(self).stage == Stage::Registered,
            final(self).min_rtt_ms == min_rtt_ms,
            final(self).detail == old(self).detail,
    {
        self.ready = true;
        self.stage = Stage::Registered;
        self.min_rtt_ms = min_rtt_ms;
    }

    /// Its name was found.
    pub fn resolved(&mut self)
        ensures
            same_measures(*old(self), *final(self)),
            final(self).ready == old(self).ready,
            final(self).stage == Stage::Resolved,
            final(self).min_rtt_ms == old(self).min_rtt_ms,
            final(self).detail == old(self).detail,
    {
        self.stage = Stage::Resolved;
    }

    /// It was asked until it answered, or until it was clear that it does not.
    pub fn warmed(&mut self, failure: Option<&ProbeErr>)
        ensures
            same_measures(*old(self), *final(self)),
            final(self).ready == old(self).ready,
            final(self).min_rtt_ms == old(self).min_rtt_ms,
            match failure {
                Some(e) => final(self).stage == old(self).stage && text::opt_string(
                    final(self).detail,
                ) == Some(err_text(*e)),
                None => final(self).stage == Stage::Warm && final(self).detail == old(self).detail,
            },
    {
        match failure {
            Some(e) => {
                self.detail = Some(e.as_text());
            },
            None => {
                self.stage = Stage::Warm;
            },
        }
    }

    /// A request failed.
    fn failed(&mut self, why: Option<&ProbeErr>)
        requires
            old(self).failures < u32::MAX,
        ensures
            failed_once(
                *old(self),
                *final(self),
                match why {
                    Some(e) => Some(err_text(*e)),
                    None => None,
                },
            ),
    {
        self.failures = self.failures + 1;
        match why {
            Some(e) => {
                if self.detail.is_none() {
                    self.detail = Some(e.as_text());
                }
            },
            None => {},
        }
    }

    /// A request for nothing was made.
    pub fn tiny(&mut self, answer: Result<u64, &ProbeErr>)
        requires
            old(self).failures < u32::MAX,
        ensures
            match answer {
                Ok(ns) => final(self).ttfb_ns@ == old(self).ttfb_ns@.push(ns) && final(self).protocol
                    == old(self).protocol && final(self).ready == old(self).ready
                    && final(self).body_ns == old(self).body_ns && final(self).failures
                    == old(self).failures && final(self).min_rtt_ms == old(self).min_rtt_ms
                    && final(self).refused == old(self).refused && final(self).stage
                    == old(self).stage && final(self).detail == old(self).detail,
                Err(e) => failed_once(*old(self), *final(self), Some(err_text(*e))),
            },
    {
        match answer {
            Ok(ns) => {
                self.ttfb_ns.push(ns);
            },
            Err(e) => {
                self.failed(Some(e));
            },
        }
    }

    /// A request for a body was made. One that took no time at all counts as a failure.
    pub fn sized(&mut self, answer: Result<u64, &ProbeErr>)
        requires
            old(self).failures < u32::MAX,
        ensures
            match answer {
                Ok(ns) => if ns > 0 {
                    final(self).body_ns@ == old(self).body_ns@.push(ns) && final(self).protocol
                        == old(self).protocol && final(self).ready == old(self).ready
                        && final(self).ttfb_ns == old(self).ttfb_ns && final(self).failures
                        == old(self).failures && final(self).min_rtt_ms == old(self).min_rtt_ms
                        && final(self).refused == old(self).refused && final(self).stage
                        == old(self).stage && final(self).detail == old(self).detail
                } else {
                    failed_once(*old(self), *final(self), None)
                },
                Err(e) => failed_once(*old(self), *final(self), Some(err_text(*e))),
            },
    {
        match answer {
            Ok(ns) => if ns > 0 {
                self.body_ns.push(ns);
            } else {
                self.failed(None);
            },
            Err(e) => {
                self.failed(Some(e));
            },
        }
    }

    /// How many requests were completed, and how many were made; `None` where too little
    /// was measured to tell anything.
    pub fn completed(&self) -> (r: Option<(u128, u128)>)
        ensures
            match r {
                Some((done, made)) => self.ready && self.ttfb_ns@.len() > 0 && self.body_ns@.len() > 0
                    && done == self.ttfb_ns@.len() + self.body_ns@.len() && made == done
                    + self.failures,
                None => !self.ready || self.ttfb_ns@.len() == 0 || self.body_ns@.len() == 0,
            },
    {
        if !self.ready || self.ttfb_ns.len() == 0 || self.body_ns.len() == 0 {
            return None;
        }
        let done: u128 = self.ttfb_ns.len() as u128 + self.body_ns.len() as u128;
        Some((done, done + self.failures as u128))
    }
}

/// The shortest time to the edge that a line tells, in milliseconds.
pub open spec fn rtt_in_line(line: Seq<char>) -> Option<u64> {
    if text::starts(line, "quic_client_min_rtt{"@) {
        let last = match text::rcut(line, ' ') {
            Some((_, v)) => v,
            None => line,
        };
        match decimal::number_of(text::trimmed(last)) {
            Some(n) => Some(decimal::clamped(n)),
            None => None,
        }
    } else {
        None
    }
}

/// The shortest time that the first `n` lines tell.
pub open spec fn least_rtt(ls: Seq<Seq<char>>, n: int) -> Option<u64>
    decreases n,
{
    if n <= 0 {
        None
    } else {
        match (least_rtt(ls, n - 1), rtt_in_line(ls[n - 1])) {
            (Some(a), Some(b)) => Some(
                if b < a {
                    b
                } else {
                    a
                },
            ),
            (Some(a), None) => Some(a),
            (None, b) => b,
        }
    }
}

/// The shortest time to the edge that a listing of counters tells, in
/// milliseconds.
pub fn parse_min_rtt(metrics_body: &str) -> (r: Option<u64>)
    ensures
        r == least_rtt(text::lines(metrics_body@), text::lines(metrics_body@).len() as int),
{
    let cs = text::chars_of(metrics_body);
    let ls = text::lines_of(cs.as_slice());
    let ghost all = text::lines(metrics_body@);
    let mut best: Option<u64> = None;
    let mut i: usize = 0;
    while i < ls.len()
        invariant
            i <= ls@.len(),
            all == text::texts(ls@),
            best == least_rtt(all, i as int),
        decreases ls@.len() - i,
    {
        let line = ls[i];
        assert(all[i as int] == line@);
        if text::starts_with(line, "quic_client_min_rtt{") {
            let last = match text::rsplit_once(line, ' ') {
                Some((_, v)) => v,
                None => line,
            };
            match decimal::parse(text::trim(last)) {
                Some(n) => {
                    let v = decimal::clamp(n);
                    best = match best {
                        Some(a) => if v < a {
                            Some(v)
                        } else {
                            Some(a)
                        },
                        None => Some(v),
                    };
                },
                None => {},
            }
        }
        i = i + 1;
    }
    best
}

/// Whether a character can stand in the name of a host.
pub open spec fn in_host(c: char) -> bool {
    ('0' <= c && c <= '9') || ('A' <= c && c <= 'Z') || ('a' <= c && c <= 'z') || c == '-' || c == '.'
}

/// The characters of the name of a host.
pub open spec fn host_chars() -> spec_fn(char) -> bool {
    |c: char| in_host(c)
}

/// The name of the host at a place in a log: behind `https://`, up to another
/// character, and one that was given out for a trial.
pub open spec fn host_at(s: Seq<char>, p: int) -> Option<Seq<char>> {
    match text::after(s.skip(p), "https://"@) {
        Some(rest) => {
            let n = text::lead(rest, host_chars());
            if n < rest.len() && text::ends(rest.take(n), ".trycloudflare.com"@) {
                Some(rest.take(n))
            } else {
                None
            }
        },
        None => None,
    }
}

/// The first name of a host in a log from a place on.
pub open spec fn host_from(s: Seq<char>, p: int) -> Option<Seq<char>>
    decreases s.len() - p,
{
    if p < 0 || p >= s.len() {
        None
    } else {
        match host_at(s, p) {
            Some(h) => Some(h),
            None => host_from(s, p + 1),
        }
    }
}

/// The name of the host that was given out for a trial, from the log.
pub fn hostname_from_log_text(log: &str) -> (r: Option<String>)
    ensures
        text::opt_string(r) == host_from(log@, 0),
{
    let cs = text::chars_of(log);
    let n: usize = cs.len();
    let mut p: usize = 0;
    while p < n
        invariant
            p <= n,
            n == cs@.len(),
            cs@ == log@,
            host_from(log@, 0) == host_from(log@, p as int),
        decreases n - p,
    {
        let here = vstd::slice::slice_subrange(cs.as_slice(), p, n);
        assert(here@ =~= cs@.skip(p as int));
        match text::strip_prefix(here, "https://") {
            Some(rest) => {
                let m: usize = rest.len();
                let mut k: usize = 0;
                while k < m && host_char(rest[k])
                    invariant
                        k <= m,
                        m == rest@.len(),
                        forall|j: int| 0 <= j < k ==> in_host(#[trigger] rest@[j]),
                    decreases m - k,
                {
                    k = k + 1;
                }
                proof {
                    text::lemma_lead(rest@, host_chars(), k as int);
                }
                let host = vstd::slice::slice_subrange(rest, 0, k);
                assert(host@ =~= rest@.take(k as int));
                if k < m && text::ends_with(host, ".trycloudflare.com") {
                    return Some(text::str_of(host));
                }
            },
            None => {},
        }
        p = p + 1;
    }
    None
}

/// Whether a character can stand in the name of a host.
fn host_char(c: char) -> (r: bool)
    ensures
        r == in_host(c),
{
    ('0' <= c && c <= '9') || ('A' <= c && c <= 'Z') || ('a' <= c && c <= 'z') || c == '-' || c == '.'
}

/// Whether a log says that the trial was refused because there were too many.
pub fn refused_in_log(log: Option<&str>) -> (r: bool)
    ensures
        r == match log {
            Some(t) => text::holds(t@, "429 Too Many Requests"@) || text::holds(
                t@,
                "error code: 1015"@,
            ),
            None => false,
        },
{
    match log {
        Some(t) => {
            let cs = text::chars_of(t);
            text::contains(cs.as_slice(), "429 Too Many Requests") || text::contains(
                cs.as_slice(),
                "error code: 1015",
            )
        },
        None => false,
    }
}

/// The first characters of a text.
pub open spec fn clipped(s: Seq<char>, n: int) -> Seq<char> {
    if s.len() > n {
        s.take(n)
    } else {
        s
    }
}

/// The first characters of a text.
fn clip(cs: &[char], n: usize) -> (r: &[char])
    ensures
        r@ == clipped(cs@, n as int),
{
    if cs.len() > n {
        let r = vstd::slice::slice_subrange(cs, 0, n);
        assert(r@ =~= cs@.take(n as int));
        r
    } else {
        cs
    }
}

/// The lines among the first `n` that are not blank, without the spaces around
/// them and cut to a length.
pub open spec fn told_lines(ls: Seq<Seq<char>>, n: int) -> Seq<Seq<char>>
    decreases n,
{
    if n <= 0 {
        Seq::empty()
    } else if text::trimmed(ls[n - 1]).len() > 0 {
        told_lines(ls, n - 1).push(clipped(text::trimmed(ls[n - 1]), 200))
    } else {
        told_lines(ls, n - 1)
    }
}

/// The last lines of a log, in one line.
pub open spec fn tail_text(log: Seq<char>, n: int) -> Seq<char> {
    let ls = text::lines(log);
    let told = told_lines(ls, ls.len() as int);
    text::joined(
        if told.len() > n {
            told.skip(told.len() - n)
        } else {
            told
        },
        " | "@,
    )
}

/// The last lines of a log, in one line.
pub fn log_tail(log: Option<&str>, n: usize) -> (r: String)
    ensures
        r@ == match log {
            Some(t) => tail_text(t@, n as int),
            None => "<no log>"@,
        },
{
    let t = match log {
        Some(t) => t,
        None => return "<no log>".to_owned(),
    };
    let cs = text::chars_of(t);
    let ls = text::lines_of(cs.as_slice());
    let ghost all = text::lines(t@);
    let mut told: Vec<String> = Vec::new();
    let mut i: usize = 0;
    assert(text::strings(told@) =~= Seq::<Seq<char>>::empty());
    while i < ls.len()
        invariant
            i <= ls@.len(),
            all == text::texts(ls@),
            text::strings(told@) == told_lines(all, i as int),
        decreases ls@.len() - i,
    {
        let ghost before = text::strings(told@);
        assert(all[i as int] == ls@[i as int]@);
        let line = text::trim(ls[i]);
        if line.len() > 0 {
            told.push(text::str_of(clip(line, 200)));
            assert(text::strings(told@) =~= before.push(clipped(line@, 200)));
        }
        i = i + 1;
    }
    let m: usize = told.len();
    assert(text::strings(told@).len() == m);
    if m > n {
        let last = vstd::slice::slice_subrange(told.as_slice(), m - n, m);
        assert(text::strings(last@) =~= text::strings(told@).skip(m - n));
        text::join(last, " | ")
    } else {
        text::join(told.as_slice(), " | ")
    }
}

/// The port in the name of the log of a trial.
pub open spec fn log_port(name: Seq<char>) -> Option<u16> {
    match text::after(name, "sniffbox.cf.probe."@) {
        Some(rest) => if text::ends(rest, ".log"@) {
            match text::number(rest.take(rest.len() - ".log"@.len()), 10, 65535) {
                Some(n) => Some(n as u16),
                None => None,
            }
        } else {
            None
        },
        None => None,
    }
}

/// The port in the name of the log of a trial.
pub fn probe_log_port(name: &str) -> (r: Option<u16>)
    ensures
        r == log_port(name@),
{
    let cs = text::chars_of(name);
    match text::strip_prefix(cs.as_slice(), "sniffbox.cf.probe.") {
        Some(rest) => {
            if !text::ends_with(rest, ".log") {
                return None;
            }
            let suffix = text::chars_of(".log");
            let n: usize = rest.len() - suffix.len();
            let digits = vstd::slice::slice_subrange(rest, 0, n);
            assert(digits@ =~= rest@.take(rest@.len() - ".log"@.len()));
            match text::parse_number(digits, 10, 65535) {
                Some(p) => Some(p as u16),
                None => None,
            }
        },
        None => None,
    }
}

/// Whether a command line is that of a trial.
pub open spec fn is_trial(argv: Seq<char>) -> bool {
    &&& text::holds(argv, "--url http://127.0.0.1:"@)
    &&& text::holds(argv, "--metrics 127.0.0.1:"@)
    &&& !text::holds(argv, "--token"@)
}

/// Whether a command line is that of a trial.
pub fn is_probe_argv(argv: &str) -> (r: bool)
    ensures
        r == is_trial(argv@),
{
    let cs = text::chars_of(argv);
    text::contains(cs.as_slice(), "--url http://127.0.0.1:") && text::contains(
        cs.as_slice(),
        "--metrics 127.0.0.1:",
    ) && !text::contains(cs.as_slice(), "--token")
}

/// Whether one of some command lines speaks of a port of the machine itself.
pub open spec fn port_in_use(live: Seq<String>, port: u16) -> bool {
    exists|i: int|
        0 <= i < live.len() && text::holds(
            (#[trigger] live[i])@,
            "127.0.0.1:"@ + text::decimal(port as int),
        )
}

/// Whether the log of a trial can go: no tunnel that runs uses its port.
pub fn sweepable(name: &str, live: &[String]) -> (r: bool)
    ensures
        r == match log_port(name@) {
            Some(port) => !port_in_use(live@, port),
            None => false,
        },
{
    let port = match probe_log_port(name) {
        Some(p) => p,
        None => return false,
    };
    let mut needle = "127.0.0.1:".to_owned();
    text::push_decimal(&mut needle, port as u64);
    let mut i: usize = 0;
    while i < live.len()
        invariant
            i <= live@.len(),
            log_port(name@) == Some(port),
            needle@ == "127.0.0.1:"@ + text::decimal(port as int),
            forall|j: int|
                0 <= j < i ==> !text::holds(
                    (#[trigger] live@[j])@,
                    "127.0.0.1:"@ + text::decimal(port as int),
                ),
        decreases live@.len() - i,
    {
        let cs = text::chars_of(live[i].as_str());
        if text::contains(cs.as_slice(), needle.as_str()) {
            assert(port_in_use(live@, port));
            return false;
        }
        i = i + 1;
    }
    true
}

/// The directory of the trials.
pub fn probe_home(egress: Egress) -> (r: String)
    ensures
        r@ == cf_ctl::home_of(egress) + "/probe"@,
{
    let mut out = egress.home().to_owned();
    out.append("/probe");
    out
}

/// An address of the edge as an argument.
pub open spec fn edge_text(ip: IpAddr) -> Seq<char> {
    addr::ip_text(ip) + ":"@ + text::decimal(EDGE_PORT as int)
}

/// An address of the edge as an argument.
pub fn edge_arg(ip: IpAddr) -> (r: String)
    ensures
        r@ == edge_text(ip),
{
    let mut out = ip.text();
    out.append(":");
    text::push_decimal(&mut out, EDGE_PORT as u64);
    out
}

/// The arguments of a trial.
pub open spec fn trial_args(
    proto: Protocol,
    edge: Option<IpAddr>,
    origin_url: Seq<char>,
    metrics: SocketAddr,
) -> Seq<Seq<char>> {
    seq!["tunnel"@, "--no-autoupdate"@, "--protocol"@, cf_config::protocol_text(proto)] + match edge {
        Some(ip) => seq!["--edge"@, edge_text(ip)],
        None => Seq::empty(),
    } + seq!["--metrics"@, addr::socket_text(metrics), "--url"@, origin_url]
}

/// The arguments of a trial. It never carries the key to the tunnel.
pub fn build_argv(proto: Protocol, edge: Option<IpAddr>, origin_url: &str, metrics: SocketAddr) -> (r:
    Vec<String>)
    ensures
        text::strings(r@) == trial_args(proto, edge, origin_url@, metrics),
{
    let mut argv: Vec<String> = Vec::new();
    argv.push("tunnel".to_owned());
    argv.push("--no-autoupdate".to_owned());
    argv.push("--protocol".to_owned());
    argv.push(proto.as_str().to_owned());
    match edge {
        Some(ip) => {
            argv.push("--edge".to_owned());
            argv.push(edge_arg(ip));
        },
        None => {},
    }
    argv.push("--metrics".to_owned());
    argv.push(metrics.text());
    argv.push("--url".to_owned());
    argv.push(origin_url.to_owned());
    assert(text::strings(argv@) =~= trial_args(proto, edge, origin_url@, metrics));
    argv
}

/// The first line of an answer, without the spaces at its end and cut to a length.
pub open spec fn first_line(head: Seq<char>) -> Seq<char> {
    let ls = text::lines(head);
    if ls.len() > 0 {
        clipped(text::trim_end_of(ls[0], text::spaces()), 80)
    } else {
        Seq::empty()
    }
}

/// The first line of an answer.
pub fn status_line(head: &str) -> (r: String)
    ensures
        r@ == first_line(head@),
{
    let cs = text::chars_of(head);
    let ls = text::lines_of(cs.as_slice());
    assert(text::lines(head@) == text::texts(ls@));
    if ls.len() > 0 {
        assert(text::lines(head@)[0] == ls@[0]@);
        text::str_of(clip(text::trim_end(ls[0]), 80))
    } else {
        String::new()
    }
}

/// What the head of an answer means: `None` where the request was served.
pub fn judge_head(head: &str) -> (r: Option<ProbeErr>)
    ensures
        match r {
            None => text::starts(head@, "HTTP/1.1 200"@),
            Some(e) => !text::starts(head@, "HTTP/1.1 200"@) && (e matches ProbeErr::Status(line)
                && line@ == first_line(head@)),
        },
{
    let cs = text::chars_of(head);
    if text::starts_with(cs.as_slice(), "HTTP/1.1 200") {
        None
    } else {
        Some(ProbeErr::Status(status_line(head)))
    }
}

/// What the length of a body means: `None` where all of it came.
pub fn judge_body(got: usize, want: usize) -> (r: Option<ProbeErr>)
    ensures
        r == if got < want {
            Some(ProbeErr::Short { got, want })
        } else {
            None
        },
{
    if got < want {
        Some(ProbeErr::Short { got, want })
    } else {
        None
    }
}

/// How many bytes are served under a path: as many as it asks for, up to a limit,
/// and two where it asks for none.
pub open spec fn served_bytes(path: Seq<char>) -> int {
    match text::after(path, "/b/"@) {
        Some(n) => match text::number(n, 10, usize::MAX as int) {
            Some(k) => if k < MAX_PROBE_BYTES {
                k
            } else {
                MAX_PROBE_BYTES as int
            },
            None => 2,
        },
        None => 2,
    }
}

/// How many bytes are served under a path.
pub fn body_len(path: &str) -> (r: usize)
    ensures
        r == served_bytes(path@),
        r <= MAX_PROBE_BYTES,
{
    let cs = text::chars_of(path);
    match text::strip_prefix(cs.as_slice(), "/b/") {
        Some(n) => match text::parse_number(n, 10, usize::MAX as u64) {
            Some(k) => if k < MAX_PROBE_BYTES as u64 {
                k as usize
            } else {
                MAX_PROBE_BYTES
            },
            None => 2,
        },
        None => 2,
    }
}

/// The path that a request asks for: what stands between its first two spaces.
pub open spec fn path_in(req: Seq<char>) -> Seq<char> {
    match text::cut(req, ' ') {
        Some((_, rest)) => match text::cut(rest, ' ') {
            Some((path, _)) => path,
            None => rest,
        },
        None => "/"@,
    }
}

/// The path that a request asks for.
pub fn request_path(req: &str) -> (r: String)
    ensures
        r@ == path_in(req@),
{
    let cs = text::chars_of(req);
    match text::split_once(cs.as_slice(), ' ') {
        Some((_, rest)) => match text::split_once(rest, ' ') {
            Some((path, _)) => text::str_of(path),
            None => text::str_of(rest),
        },
        None => "/".to_owned(),
    }
}

/// The head of what is served.
pub fn origin_head(len: usize) -> (r: String)
    ensures
        r@ == "HTTP/1.1 200 OK\r\nContent-Length: "@ + text::decimal(len as int)
            + "\r\nContent-Type: application/octet-stream\r\nConnection: close\r\n\r\n"@,
{
    let mut out = "HTTP/1.1 200 OK\r\nContent-Length: ".to_owned();
    text::push_decimal(&mut out, len as u64);
    out.append("\r\nContent-Type: application/octet-stream\r\nConnection: close\r\n\r\n");
    out
}

/// The address of what serves a trial.
pub fn origin_url(port: u16) -> (r: String)
    ensures
        r@ == "http://127.0.0.1:"@ + text::decimal(port as int),
{
    let mut out = "http://127.0.0.1:".to_owned();
    text::push_decimal(&mut out, port as u64);
    out
}

/// A request through a trial tunnel.
pub fn probe_request(host: &str, path: &str) -> (r: String)
    ensures
        r@ == "GET "@ + path@ + " HTTP/1.1\r\nHost: "@ + host@ + "\r\nConnection: close\r\n\r\n"@,
{
    let mut out = "GET ".to_owned();
    out.append(path);
    out.append(" HTTP/1.1\r\nHost: ");
    out.append(host);
    out.append("\r\nConnection: close\r\n\r\n");
    out
}

/// What went wrong with a trial, in words.
pub proof fn law_what_went_wrong(got: usize, want: usize, line: String)
    ensures
        err_text(ProbeErr::Connect) == "cannot connect (proxy refused, or edge unreachable)"@,
        err_text(ProbeErr::Io) == "connection broke before a response"@,
        err_text(ProbeErr::Timeout) == "timed out"@,
        err_text(ProbeErr::Short { got, want }) == "truncated body ("@ + text::decimal(got as int)
            + "/"@ + text::decimal(want as int) + " bytes)"@,
        err_text(ProbeErr::Status(line)) == "edge answered "@ + text::debug_text(line@),
{
}

/// The time to the edge is the number at the end of its line.
pub proof fn law_times_to_the_edge(labels: Seq<char>, n: int, line: Seq<char>)
    requires
        0 <= n < 0x20_0000_0000_0000,
    ensures
        rtt_in_line("quic_client_min_rtt{"@ + labels + "} "@ + text::decimal(n)) == Some(n as u64),
        !text::starts(line, "quic_client_min_rtt{"@) ==> rtt_in_line(line) is None,
{
    let d = text::decimal(n);
    let p = "quic_client_min_rtt{"@;
    let a = p + labels + "}"@;
    let e = Seq::<char>::empty();
    reveal_strlit("}");
    reveal_strlit("} ");
    let s = p + labels + "} "@ + d;
    assert(s =~= a + seq![' '] + d);
    text::law_number_round_trip(n, n);
    assert forall|i: int| 0 <= i < d.len() implies #[trigger] d[i] != ' ' by {
        assert(!text::is_space(d[i]));
    }
    text::lemma_rcut_last(a, d, ' ');
    text::law_trimming(e, d, e);
    decimal::law_whole_numbers_are_read(n);
    assert(s =~= p + (labels + "} "@ + d));
    text::lemma_after(p, labels + "} "@ + d);
}

/// Of several times the least counts; lines without one make no difference.
pub proof fn law_least_time_counts(ls: Seq<Seq<char>>, line: Seq<char>)
    ensures
        ({
            let before = least_rtt(ls, ls.len() as int);
            let all = least_rtt(ls.push(line), ls.len() as int + 1);
            let here = rtt_in_line(line);
            &&& here is None ==> all == before
            &&& before is None ==> all == here
            &&& here is Some && before is Some ==> all is Some && all->0 <= here->0 && all->0
                <= before->0 && (all == here || all == before)
        }),
        least_rtt(seq![], 0) is None,
{
    lemma_least_before(ls, line, ls.len() as int);
}

/// The least of the first lines does not depend on those behind them.
proof fn lemma_least_before(ls: Seq<Seq<char>>, line: Seq<char>, n: int)
    requires
        0 <= n <= ls.len(),
    ensures
        least_rtt(ls.push(line), n) == least_rtt(ls, n),
    decreases n,
{
    if n > 0 {
        lemma_least_before(ls, line, n - 1);
        assert(ls.push(line)[n - 1] == ls[n - 1]);
    }
}

/// A host that was given out is found behind its scheme, up to what cannot be in a host.
pub proof fn law_given_hosts_are_found(before: Seq<char>, name: Seq<char>, rest: Seq<char>)
    requires
        forall|i: int| 0 <= i < before.len() ==> #[trigger] before[i] != 'h',
        forall|i: int|
            0 <= i < name.len() ==> ('a' <= #[trigger] name[i] <= 'z' || '0' <= name[i] <= '9'
                || name[i] == '-'),
        rest.len() > 0,
        rest[0] == ' ' || rest[0] == '\n' || rest[0] == '|',
    ensures
        host_from(before + ("https://"@ + (name + ".trycloudflare.com"@ + rest)), 0) == Some(
            name + ".trycloudflare.com"@,
        ),
{
    let h = name + ".trycloudflare.com"@;
    let p = "https://"@;
    let s = before + (p + (h + rest));
    let n = before.len() as int;
    reveal_strlit("https://");
    reveal_strlit(".trycloudflare.com");
    let t = ".trycloudflare.com"@;
    assert(s.skip(n) =~= p + (h + rest));
    text::lemma_after(p, h + rest);
    assert forall|i: int| 0 <= i < h.len() implies host_chars()(#[trigger] (h + rest)[i]) by {
        if i < name.len() {
            assert((h + rest)[i] == name[i]);
        } else {
            assert((h + rest)[i] == t[i - name.len()]);
            lemma_host_end(i - name.len());
        }
    }
    assert(!host_chars()((h + rest)[h.len() as int]));
    text::lemma_lead(h + rest, host_chars(), h.len() as int);
    assert((h + rest).take(h.len() as int) =~= h);
    assert(h.skip(h.len() - t.len()) =~= t);
    assert(text::ends(h, t));
    assert(host_at(s, n) == Some(h));
    lemma_host_from(s, 0, n);
}

/// The end of a host is made of what may be in one.
proof fn lemma_host_end(i: int)
    requires
        0 <= i < ".trycloudflare.com"@.len(),
    ensures
        in_host(".trycloudflare.com"@[i]),
{
    reveal_strlit(".trycloudflare.com");
    let t = ".trycloudflare.com"@;
    assert(in_host(t[0]) && in_host(t[1]) && in_host(t[2]) && in_host(t[3]) && in_host(t[4])
        && in_host(t[5]) && in_host(t[6]) && in_host(t[7]) && in_host(t[8]) && in_host(t[9])
        && in_host(t[10]) && in_host(t[11]) && in_host(t[12]) && in_host(t[13]) && in_host(t[14])
        && in_host(t[15]) && in_host(t[16]) && in_host(t[17]));
    assert(t.len() == 18);
}

/// Places where no scheme begins are passed over.
proof fn lemma_host_from(s: Seq<char>, i: int, k: int)
    requires
        0 <= i <= k < s.len(),
        forall|j: int| 0 <= j < k ==> #[trigger] s[j] != 'h',
    ensures
        host_from(s, i) == host_from(s, k),
    decreases k - i,
{
    if i < k {
        reveal_strlit("https://");
        let p = "https://"@;
        if text::starts(s.skip(i), p) {
            assert(s.skip(i).take(p.len() as int)[0] == s[i]);
            assert(p[0] == 'h');
        }
        assert(s[i] != 'h');
        assert(host_at(s, i) is None);
        lemma_host_from(s, i + 1, k);
    }
}

/// What is told of a log are its last lines that hold anything, each without the blanks
/// around it and cut to a length.
pub proof fn law_told_of_a_log(ls: Seq<Seq<char>>, line: Seq<char>)
    ensures
        ({
            let n = ls.len() as int;
            let before = told_lines(ls, n);
            let all = told_lines(ls.push(line), n + 1);
            let t = text::trimmed(line);
            &&& t.len() == 0 ==> all == before
            &&& 0 < t.len() <= 200 ==> all == before.push(t)
            &&& t.len() > 200 ==> all == before.push(t.subrange(0, 200))
        }),
        told_lines(seq![], 0) == Seq::<Seq<char>>::empty(),
{
    lemma_told_before(ls, line, ls.len() as int);
    let t = text::trimmed(line);
    if t.len() > 200 {
        assert(t.take(200) =~= t.subrange(0, 200));
    }
}

/// What is told of the first lines does not depend on those behind them.
proof fn lemma_told_before(ls: Seq<Seq<char>>, line: Seq<char>, n: int)
    requires
        0 <= n <= ls.len(),
    ensures
        told_lines(ls.push(line), n) == told_lines(ls, n),
    decreases n,
{
    if n > 0 {
        lemma_told_before(ls, line, n - 1);
        assert(ls.push(line)[n - 1] == ls[n - 1]);
    }
}

/// The name of a log gives its port back.
pub proof fn law_ports_of_logs(port: u16, name: Seq<char>)
    ensures
        log_port("sniffbox.cf.probe."@ + (text::decimal(port as int) + ".log"@)) == Some(port),
        !text::starts(name, "sniffbox.cf.probe."@) ==> log_port(name) is None,
        !text::ends(name, ".log"@) ==> log_port(name) is None,
{
    let d = text::decimal(port as int);
    let p = "sniffbox.cf.probe."@;
    let t = ".log"@;
    text::lemma_after(p, d + t);
    text::law_number_round_trip(port as int, 65535);
    assert((d + t).skip(d.len() as int) =~= t);
    assert((d + t).take(d.len() as int) =~= d);
    assert(text::ends(d + t, t));
    if text::starts(name, p) && !text::ends(name, t) {
        let rest = text::after(name, p)->0;
        assert(rest =~= name.skip(p.len() as int));
        if text::ends(rest, t) {
            assert(name.skip(name.len() - t.len()) =~= rest.skip(rest.len() - t.len()));
        }
    }
}

/// A trial is told by the two addresses it is run with, and a tunnel by its key.
pub proof fn law_which_processes_are_trials(argv: Seq<char>)
    ensures
        is_trial(argv) ==> text::holds(argv, "--url http://127.0.0.1:"@) && text::holds(
            argv,
            "--metrics 127.0.0.1:"@,
        ),
        text::holds(argv, "--token"@) ==> !is_trial(argv),
        text::holds(argv, "--url http://127.0.0.1:"@) && text::holds(argv, "--metrics 127.0.0.1:"@)
            && !text::holds(argv, "--token"@) ==> is_trial(argv),
{
}

/// A trial is run with its transport, its edge where there is one, its metrics and what it
/// serves, each behind its mark.
pub proof fn law_how_a_trial_is_run(
    proto: Protocol,
    ip: u32,
    origin: Seq<char>,
    metrics: SocketAddr,
)
    ensures
        trial_args(proto, None, origin, metrics) == seq![
            "tunnel"@,
            "--no-autoupdate"@,
            "--protocol"@,
            cf_config::protocol_text(proto),
            "--metrics"@,
            addr::socket_text(metrics),
            "--url"@,
            origin,
        ],
        trial_args(proto, Some(IpAddr::V4(ip)), origin, metrics) == seq![
            "tunnel"@,
            "--no-autoupdate"@,
            "--protocol"@,
            cf_config::protocol_text(proto),
            "--edge"@,
            addr::v4_text(ip) + ":7844"@,
            "--metrics"@,
            addr::socket_text(metrics),
            "--url"@,
            origin,
        ],
{
    reveal_strlit(":");
    reveal_strlit(":7844");
    reveal_with_fuel(text::written, 5);
    assert(text::decimal(7844) =~= seq!['7', '8', '4', '4']);
    assert(addr::v4_text(ip) + ":"@ + text::decimal(7844) =~= addr::v4_text(ip) + ":7844"@);
    assert(trial_args(proto, None, origin, metrics) =~= seq![
        "tunnel"@,
        "--no-autoupdate"@,
        "--protocol"@,
        cf_config::protocol_text(proto),
        "--metrics"@,
        addr::socket_text(metrics),
        "--url"@,
        origin,
    ]);
    assert(trial_args(proto, Some(IpAddr::V4(ip)), origin, metrics) =~= seq![
        "tunnel"@,
        "--no-autoupdate"@,
        "--protocol"@,
        cf_config::protocol_text(proto),
        "--edge"@,
        addr::v4_text(ip) + ":7844"@,
        "--metrics"@,
        addr::socket_text(metrics),
        "--url"@,
        origin,
    ]);
}

/// A request for so many bytes is served with as many, up to a bound; any other is served
/// with two.
pub proof fn law_how_much_is_served(n: usize, path: Seq<char>)
    ensures
        n <= MAX_PROBE_BYTES ==> served_bytes("/b/"@ + text::decimal(n as int)) == n,
        n > MAX_PROBE_BYTES ==> served_bytes("/b/"@ + text::decimal(n as int)) == MAX_PROBE_BYTES,
        !text::starts(path, "/b/"@) ==> served_bytes(path) == 2,
{
    text::lemma_after("/b/"@, text::decimal(n as int));
    text::law_number_round_trip(n as int, usize::MAX as int);
}

/// The path of a request is its second word.
pub proof fn law_paths_of_requests(method: Seq<char>, path: Seq<char>, rest: Seq<char>)
    requires
        forall|i: int| 0 <= i < method.len() ==> #[trigger] method[i] != ' ',
        forall|i: int| 0 <= i < path.len() ==> #[trigger] path[i] != ' ',
    ensures
        path_in(method + seq![' '] + (path + seq![' '] + rest)) == path,
        path_in(method + seq![' '] + path) == path,
        path_in(method) == "/"@,
{
    text::lemma_cut_first(method, path + seq![' '] + rest, ' ');
    text::lemma_cut_first(path, rest, ' ');
    text::lemma_cut_first(method, path, ' ');
    text::lemma_no_cut(path, ' ');
    text::lemma_no_cut(method, ' ');
}

/// A trial that failed once more keeps what it had and the first reason for it.
pub proof fn law_first_reason_stays(a: Sample, b: Sample, why: Option<Seq<char>>)
    requires
        failed_once(a, b, why),
    ensures
        b.failures == a.failures + 1,
        b.ttfb_ns@ == a.ttfb_ns@ && b.body_ns@ == a.body_ns@,
        b.protocol == a.protocol && b.ready == a.ready && b.refused == a.refused,
        b.stage == a.stage && b.min_rtt_ms == a.min_rtt_ms,
        a.detail is Some ==> b.detail is Some && b.detail->0@ == a.detail->0@,
        a.detail is None && why is Some ==> b.detail is Some && b.detail->0@ == why->0,
{
}

/// Of a longer log only as many lines are told as are wanted, the last ones.
pub proof fn law_last_lines_are_told(log: Seq<char>, n: int)
    requires
        n >= 0,
    ensures
        ({
            let told = told_lines(text::lines(log), text::lines(log).len() as int);
            &&& told.len() <= n ==> tail_text(log, n) == text::joined(told, " | "@)
            &&& told.len() > n ==> tail_text(log, n) == text::joined(
                told.subrange(told.len() - n, told.len() as int),
                " | "@,
            )
        }),
{
    let told = told_lines(text::lines(log), text::lines(log).len() as int);
    if told.len() > n {
        assert(told.skip(told.len() - n) =~= told.subrange(told.len() - n, told.len() as int));
    }
}

} // verus!
