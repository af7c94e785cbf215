//! The proxy of the local network: requests over HTTP and SOCKS, and what becomes
//! of them.

use crate::addr;
use crate::addr::{IpAddr, SocketAddr};
use crate::bytes;
use crate::config;
use crate::records::InboundKind;
use crate::text;
use vstd::prelude::*;
use vstd::slice::slice_subrange;

verus! {

/// The port on which the gateway checks its own health.
pub const HEALTHCHECK_PORT: u16 = 1079;

/// How long the head of a request may be.
pub const HTTP_HEAD_MAX: usize = 0x4000;

/// How the proxy runs.
#[derive(Debug, Clone, Copy, PartialEq, Eq, Structural)]
pub struct InboundProxyParams {
    pub listen_port: u16,
    pub udp: bool,
    pub udp_idle_sec: u64,
}

/// What a listener of the proxy does.
#[derive(Debug, Clone, Copy)]
pub struct InboundProfile {
    pub socks5: InboundKind,
    pub http: InboundKind,
    pub apply_auth: bool,
    pub acl: bool,
    pub sniff: bool,
}

/// The listeners for the local network.
pub fn openport_profile() -> (r: InboundProfile)
    ensures
        r == (InboundProfile {
            socks5: InboundKind::Socks5,
            http: InboundKind::Http,
            apply_auth: true,
            acl: true,
            sniff: true,
        }),
{
    InboundProfile {
        socks5: InboundKind::Socks5,
        http: InboundKind::Http,
        apply_auth: true,
        acl: true,
        sniff: true,
    }
}

/// The listener for checks of the gateway's own health.
pub fn healthcheck_profile() -> (r: InboundProfile)
    ensures
        r == (InboundProfile {
            socks5: InboundKind::HealthCheck,
            http: InboundKind::HealthCheck,
            apply_auth: false,
            acl: false,
            sniff: false,
        }),
{
    InboundProfile {
        socks5: InboundKind::HealthCheck,
        http: InboundKind::HealthCheck,
        apply_auth: false,
        acl: false,
        sniff: false,
    }
}

/// The parameters of the listener for checks of the gateway's own health.
pub fn healthcheck_params() -> (r: InboundProxyParams)
    ensures
        r == (InboundProxyParams { listen_port: HEALTHCHECK_PORT, udp: false, udp_idle_sec: 60 }),
{
    InboundProxyParams { listen_port: HEALTHCHECK_PORT, udp: false, udp_idle_sec: 60 }
}

// ---------------------------------------------------------------------------
// Where a connection is to go
// ---------------------------------------------------------------------------

/// A connection that came in and is to be served.
#[derive(Debug)]
pub struct Established {
    pub dest: SocketAddr,
    pub inbound: InboundKind,
    pub domain: Option<String>,
    pub prelude: Vec<u8>,
    pub sniff: bool,
}

/// The values of a connection that is to be served.
pub struct EstablishedView {
    pub dest: SocketAddr,
    pub inbound: InboundKind,
    pub domain: Option<Seq<char>>,
    pub prelude: Seq<u8>,
    pub sniff: bool,
}

impl View for Established {
    type V = EstablishedView;

    open spec fn view(&self) -> EstablishedView {
        EstablishedView {
            dest: self.dest,
            inbound: self.inbound,
            domain: text::opt_string(self.domain),
            prelude: self.prelude@,
            sniff: self.sniff,
        }
    }
}

/// A destination in a SOCKS request.
#[derive(Debug)]
pub enum DestAddr {
    Ip(SocketAddr),
    Domain(String, u16),
}

/// The address that stands for a name with a port.
pub open spec fn unspecified(port: u16) -> SocketAddr {
    SocketAddr { ip: IpAddr::V4(0), port, scope: 0 }
}

/// The connection that a SOCKS request asks for.
pub fn dest_to_established(dest: DestAddr, inbound: InboundKind, sniff: bool) -> (r: Established)
    ensures
        r@ == (EstablishedView {
            dest: match dest {
                DestAddr::Ip(a) => a,
                DestAddr::Domain(_, port) => unspecified(port),
            },
            inbound,
            domain: match dest {
                DestAddr::Ip(_) => None,
                DestAddr::Domain(host, _) => Some(host@),
            },
            prelude: seq![],
            sniff,
        }),
{
    match dest {
        DestAddr::Ip(a) => Established {
            dest: a,
            inbound,
            domain: None,
            prelude: Vec::new(),
            sniff,
        },
        DestAddr::Domain(host, port) => Established {
            dest: SocketAddr::new(IpAddr::V4(0), port),
            inbound,
            domain: Some(host),
            prelude: Vec::new(),
            sniff,
        },
    }
}

/// The connection to a host that is an address or a name.
pub open spec fn to_host(
    host: Seq<char>,
    port: u16,
    prelude: Seq<u8>,
    sniff: bool,
    inbound: InboundKind,
) -> EstablishedView {
    match addr::ip(host) {
        Some(ip) => EstablishedView {
            dest: SocketAddr { ip, port, scope: 0 },
            inbound,
            domain: None,
            prelude,
            sniff,
        },
        None => EstablishedView {
            dest: unspecified(port),
            inbound,
            domain: Some(host),
            prelude,
            sniff,
        },
    }
}

/// The connection to a host that is an address or a name.
pub fn host_port_to_established(
    host: String,
    port: u16,
    prelude: Vec<u8>,
    sniff: bool,
    inbound: InboundKind,
) -> (r: Established)
    ensures
        r@ == to_host(host@, port, prelude@, sniff, inbound),
{
    match IpAddr::parse(host.as_str()) {
        Some(ip) => Established {
            dest: SocketAddr::new(ip, port),
            inbound,
            domain: None,
            prelude,
            sniff,
        },
        None => Established {
            dest: SocketAddr::new(IpAddr::V4(0), port),
            inbound,
            domain: Some(host),
            prelude,
            sniff,
        },
    }
}

// ---------------------------------------------------------------------------
// Requests over HTTP
// ---------------------------------------------------------------------------

/// Whether the bytes from a place on are two line ends.
pub open spec fn head_ends_at(b: Seq<u8>, i: int) -> bool {
    0 <= i && i + 4 <= b.len() && b[i] == 13 && b[i + 1] == 10 && b[i + 2] == 13 && b[i + 3] == 10
}

/// Where the head of a request ends, with the two line ends that close it.
pub fn find_head_end(b: &[u8]) -> (r: Option<usize>)
    ensures
        match r {
            Some(n) => n >= 4 && head_ends_at(b@, n - 4) && forall|j: int|
                0 <= j < n - 4 ==> !#[trigger] head_ends_at(b@, j),
            None => forall|j: int| !#[trigger] head_ends_at(b@, j),
        },
{
    let n: usize = b.len();
    if n < 4 {
        return None;
    }
    let mut i: usize = 0;
    while i <= n - 4
        invariant
            n == b@.len(),
            n >= 4,
            i <= n - 3,
            forall|j: int| 0 <= j < i ==> !#[trigger] head_ends_at(b@, j),
        decreases n - i,
    {
        if b[i] == 13 && b[i + 1] == 10 && b[i + 2] == 13 && b[i + 3] == 10 {
            assert(head_ends_at(b@, i as int));
            return Some(i + 4);
        }
        assert(!head_ends_at(b@, i as int));
        i = i + 1;
    }
    None
}

/// What to do after some bytes of a head have come.
#[derive(Debug, Clone, Copy, PartialEq, Eq, Structural)]
pub enum HeadStep {
    /// The head is there.
    Done,
    /// It is too long.
    GiveUp,
    /// More has to come.
    More,
}

/// Decides what to do after some bytes of a head have come.
pub fn head_step(b: &[u8]) -> (r: HeadStep)
    ensures
        r == if exists|j: int| #[trigger] head_ends_at(b@, j) {
            HeadStep::Done
        } else if b@.len() > HTTP_HEAD_MAX {
            HeadStep::GiveUp
        } else {
            HeadStep::More
        },
{
    match find_head_end(b) {
        Some(n) => {
            assert(head_ends_at(b@, n - 4));
            HeadStep::Done
        },
        None => if b.len() > HTTP_HEAD_MAX {
            HeadStep::GiveUp
        } else {
            HeadStep::More
        },
    }
}

/// A header of a request.
#[derive(Debug)]
pub struct Header {
    pub name: String,
    pub value: Vec<u8>,
}

/// The head of a request.
#[derive(Debug)]
pub struct HttpHead {
    pub method: String,
    pub path: String,
    pub version: u8,
    pub headers: Vec<Header>,
}

/// The values of a header.
pub struct HeaderView {
    pub name: Seq<char>,
    pub value: Seq<u8>,
}

/// The values of the head of a request.
pub struct HeadView {
    pub method: Seq<char>,
    pub path: Seq<char>,
    pub version: int,
    pub headers: Seq<HeaderView>,
}

impl View for Header {
    type V = HeaderView;

    open spec fn view(&self) -> HeaderView {
        HeaderView { name: self.name@, value: self.value@ }
    }
}

/// The views of headers.
pub open spec fn header_views(v: Seq<Header>) -> Seq<HeaderView> {
    Seq::new(v.len(), |i: int| v[i]@)
}

impl View for HttpHead {
    type V = HeadView;

    open spec fn view(&self) -> HeadView {
        HeadView {
            method: self.method@,
            path: self.path@,
            version: self.version as int,
            headers: header_views(self.headers@),
        }
    }
}

/// What `Request::parse` of the crate `httparse` makes of bytes, with room for 64
/// headers: the head of a request where the bytes hold a whole one.
pub uninterp spec fn http_head(b: Seq<u8>) -> Option<HeadView>;

/// `Request::parse` of the crate `httparse`, with room for 64 headers. Its result
/// is a function of the bytes; `None` stands for an error and for a head that is
/// not whole.
#[verifier::external_body]
fn httparse_request(b: &[u8]) -> (r: Option<HttpHead>)
    ensures
        match r {
            Some(h) => http_head(b@) == Some(h@),
            None => http_head(b@) is None,
        },
{
    let mut headers = [httparse::EMPTY_HEADER;64];
    let mut req = httparse::Request::new(&mut headers);
    match req.parse(b) {
        Ok(httparse::Status::Complete(_)) => Some(
            HttpHead {
                method: req.method?.to_string(),
                path: req.path?.to_string(),
                version: req.version?,
                headers: req.headers.iter().map(
                    |h| Header { name: h.name.to_string(), value: h.value.to_vec() },
                ).collect(),
            },
        ),
        _ => None,
    }
}

/// The text of the first header, from header `i` on, with a name in any case;
/// nothing where it is not valid text.
pub open spec fn header_text(v: Seq<HeaderView>, name: Seq<char>, i: int) -> Option<Seq<char>>
    decreases v.len() - i,
{
    if i < 0 || i >= v.len() {
        None
    } else if text::same_nocase(v[i].name, name) {
        if vstd::utf8::valid_utf8(v[i].value) {
            Some(vstd::utf8::decode_utf8(v[i].value))
        } else {
            None
        }
    } else {
        header_text(v, name, i + 1)
    }
}

/// The text of the first header with a name.
fn header_value(v: &Vec<Header>, name: &str) -> (r: Option<String>)
    ensures
        text::opt_string(r) == header_text(header_views(v@), name@, 0),
{
    let ghost all = header_views(v@);
    let mut i: usize = 0;
    while i < v.len()
        invariant
            i <= v@.len(),
            all == header_views(v@),
            header_text(all, name@, 0) == header_text(all, name@, i as int),
        decreases v@.len() - i,
    {
        assert(all[i as int] == v@[i as int]@);
        let cs = text::chars_of(v[i].name.as_str());
        if text::eq_nocase(&cs, name) {
            return bytes::text_of(v[i].value.as_slice());
        }
        i = i + 1;
    }
    None
}

/// The host part and the path of an absolute address; the path is a slash where it
/// is missing.
pub open spec fn absolute_uri(uri: Seq<char>) -> Option<(Seq<char>, Seq<char>)> {
    let rest = match text::after(uri, "http://"@) {
        Some(r) => Some(r),
        None => text::after(uri, "https://"@),
    };
    match rest {
        Some(r) => {
            let i = text::first(r, '/');
            if i < r.len() {
                Some((r.take(i), r.skip(i)))
            } else {
                Some((r, "/"@))
            }
        },
        None => None,
    }
}

/// Splits an absolute address into its host part and its path.
fn split_absolute_uri(uri: &[char]) -> (r: Option<(Vec<char>, Vec<char>)>)
    ensures
        match r {
            Some((a, b)) => absolute_uri(uri@) == Some((a@, b@)),
            None => absolute_uri(uri@) is None,
        },
{
    let rest = match text::strip_prefix(uri, "http://") {
        Some(t) => t,
        None => match text::strip_prefix(uri, "https://") {
            Some(t) => t,
            None => return None,
        },
    };
    let n: usize = rest.len();
    match text::find(rest, '/') {
        Some(i) => Some(
            (
                text::copy_chars(slice_subrange(rest, 0, i)),
                text::copy_chars(slice_subrange(rest, i, n)),
            ),
        ),
        None => Some((text::copy_chars(rest), text::chars_of("/"))),
    }
}

/// The host and the port in a text. A host in square brackets may be followed by a
/// colon and a port; any other host ends at the last colon where only digits
/// follow it.
pub open spec fn host_port(s: Seq<char>, absent: int) -> Option<(Seq<char>, int)> {
    if s.len() == 0 {
        None
    } else if s[0] == '[' {
        let rest = s.skip(1);
        let end = text::first(rest, ']');
        if end >= rest.len() {
            None
        } else {
            let tail = rest.skip(end + 1);
            if tail.len() > 0 && tail[0] == ':' {
                match text::number(tail.skip(1), 10, 0xffff) {
                    Some(p) => Some((rest.take(end), p)),
                    None => None,
                }
            } else {
                Some((rest.take(end), absent))
            }
        }
    } else {
        match text::rcut(s, ':') {
            Some((h, p)) => if h.len() > 0 && p.len() > 0 && text::all_digits(p, 10) {
                match text::number(p, 10, 0xffff) {
                    Some(n) => Some((h, n)),
                    None => None,
                }
            } else {
                Some((s, absent))
            },
            None => Some((s, absent)),
        }
    }
}

/// The view of an optional host and port.
pub open spec fn host_port_view(r: Option<(String, u16)>) -> Option<(Seq<char>, int)> {
    match r {
        Some((h, p)) => Some((h@, p as int)),
        None => None,
    }
}

/// Whether a text is made of decimal digits alone.
fn only_digits(cs: &[char]) -> (r: bool)
    ensures
        r == text::all_digits(cs@, 10),
{
    let mut i: usize = 0;
    while i < cs.len()
        invariant
            i <= cs@.len(),
            forall|j: int| 0 <= j < i ==> text::is_digit(#[trigger] cs@[j], 10),
        decreases cs@.len() - i,
    {
        if !text::decimal_digit(cs[i]) {
            assert(!text::is_digit(cs@[i as int], 10));
            return false;
        }
        i = i + 1;
    }
    true
}

/// Splits characters into a host and a port.
fn host_port_chars(cs: &[char], absent: u16) -> (r: Option<(String, u16)>)
    ensures
        host_port_view(r) == host_port(cs@, absent as int),
{
    let n: usize = cs.len();
    if n == 0 {
        return None;
    }
    if cs[0] == '[' {
        let rest = slice_subrange(cs, 1, n);
        let m: usize = rest.len();
        let end = match text::find(rest, ']') {
            Some(e) => e,
            None => return None,
        };
        let host = text::str_of(slice_subrange(rest, 0, end));
        let tail = slice_subrange(rest, end + 1, m);
        let k: usize = tail.len();
        if k > 0 && tail[0] == ':' {
            match text::parse_number(slice_subrange(tail, 1, k), 10, 0xffff) {
                Some(p) => Some((host, p as u16)),
                None => None,
            }
        } else {
            Some((host, absent))
        }
    } else {
        match text::rsplit_once(cs, ':') {
            Some((h, p)) => {
                assert(text::rcut(cs@, ':') == Some((h@, p@)));
                if h.len() > 0 && p.len() > 0 && only_digits(p) {
                    match text::parse_number(p, 10, 0xffff) {
                        Some(v) => Some((text::str_of(h), v as u16)),
                        None => None,
                    }
                } else {
                    Some((text::str_of(cs), absent))
                }
            },
            None => Some((text::str_of(cs), absent)),
        }
    }
}

/// Splits a text into a host and a port.
pub fn split_host_port(s: &str, default_port: u16) -> (r: Option<(String, u16)>)
    ensures
        host_port_view(r) == host_port(s@, default_port as int),
{
    let cs = text::chars_of(s);
    host_port_chars(&cs, default_port)
}

/// Whether a header goes on to the server: those that are for the proxy alone do
/// not.
pub open spec fn kept(h: HeaderView) -> bool {
    &&& h.name.len() > 0
    &&& !text::same_nocase(h.name, "proxy-connection"@)
    &&& !text::same_nocase(h.name, "proxy-authorization"@)
}

/// A header as it is sent.
pub open spec fn header_line(h: HeaderView) -> Seq<u8> {
    bytes::utf8(h.name) + bytes::utf8(": "@) + h.value + bytes::utf8("\r\n"@)
}

/// The first `n` headers that go on, as they are sent.
pub open spec fn header_lines(v: Seq<HeaderView>, n: int) -> Seq<u8>
    decreases n,
{
    if n <= 0 {
        seq![]
    } else if kept(v[n - 1]) {
        header_lines(v, n - 1) + header_line(v[n - 1])
    } else {
        header_lines(v, n - 1)
    }
}

/// Whether one of the first `n` headers names the host.
pub open spec fn names_host(v: Seq<HeaderView>, n: int) -> bool
    decreases n,
{
    n > 0 && (names_host(v, n - 1) || (kept(v[n - 1]) && text::same_nocase(
        v[n - 1].name,
        "host"@,
    )))
}

/// The first line of a request.
pub open spec fn request_line(method: Seq<char>, path: Seq<char>, version: int) -> Seq<char> {
    method + " "@ + path + " HTTP/"@ + if version == 0 {
        "1.0"@
    } else {
        "1.1"@
    } + "\r\n"@
}

/// The header that names the host.
pub open spec fn host_header(host: Seq<char>, port: int) -> Seq<char> {
    if port == 80 {
        "Host: "@ + host + "\r\n"@
    } else {
        "Host: "@ + host + ":"@ + text::decimal(port) + "\r\n"@
    }
}

/// The request as the server gets it: with the path alone, without the headers for
/// the proxy, and with the host named.
pub open spec fn origin_request(
    method: Seq<char>,
    path: Seq<char>,
    version: int,
    headers: Seq<HeaderView>,
    host: Seq<char>,
    port: int,
) -> Seq<u8> {
    bytes::utf8(request_line(method, path, version)) + header_lines(headers, headers.len() as int)
        + if names_host(headers, headers.len() as int) {
        Seq::<u8>::empty()
    } else {
        bytes::utf8(host_header(host, port))
    } + bytes::utf8("\r\n"@)
}

/// Builds the request as the server gets it.
pub fn rebuild_origin_request(
    method: &str,
    path: &str,
    version: u8,
    headers: &Vec<Header>,
    host: &str,
    port: u16,
) -> (r: Vec<u8>)
    ensures
        r@ == origin_request(
            method@,
            path@,
            version as int,
            header_views(headers@),
            host@,
            port as int,
        ),
{
    let mut line = method.to_owned();
    line.append(" ");
    line.append(path);
    line.append(" HTTP/");
    if version == 0 {
        line.append("1.0");
    } else {
        line.append("1.1");
    }
    line.append("\r\n");
    let mut out: Vec<u8> = Vec::new();
    bytes::push_text(&mut out, line.as_str());
    let ghost head = bytes::utf8(request_line(method@, path@, version as int));
    assert(out@ =~= head);
    let ghost all = header_views(headers@);
    let mut have_host = false;
    let mut i: usize = 0;
    assert(out@ =~= head + header_lines(all, 0));
    while i < headers.len()
        invariant
            i <= headers@.len(),
            all == header_views(headers@),
            out@ == head + header_lines(all, i as int),
            have_host == names_host(all, i as int),
        decreases headers@.len() - i,
    {
        assert(all[i as int] == headers@[i as int]@);
        let h = &headers[i];
        i = i + 1;
        if h.name.as_str().is_empty() {
            continue ;
        }
        let name = text::chars_of(h.name.as_str());
        if text::eq_nocase(&name, "proxy-connection") || text::eq_nocase(
            &name,
            "proxy-authorization",
        ) {
            continue ;
        }
        if text::eq_nocase(&name, "host") {
            have_host = true;
        }
        let ghost before = out@;
        bytes::push_text(&mut out, h.name.as_str());
        bytes::push_text(&mut out, ": ");
        bytes::push_bytes(&mut out, h.value.as_slice());
        bytes::push_text(&mut out, "\r\n");
        assert(out@ =~= before + header_line(h@));
        assert(head + header_lines(all, i - 1) + header_line(h@) =~= head + (header_lines(
            all,
            i - 1,
        ) + header_line(h@)));
    }
    let ghost before = out@;
    if !have_host {
        let mut hh = "Host: ".to_owned();
        hh.append(host);
        if port != 80 {
            hh.append(":");
            text::push_decimal(&mut hh, port as u64);
        }
        hh.append("\r\n");
        assert(hh@ =~= host_header(host@, port as int));
        bytes::push_text(&mut out, hh.as_str());
    }
    bytes::push_text(&mut out, "\r\n");
    assert(out@ =~= origin_request(
        method@,
        path@,
        version as int,
        all,
        host@,
        port as int,
    ));
    out
}

/// What a request over HTTP asks for.
#[derive(Debug)]
pub enum HttpReqKind {
    Connect { host: String, port: u16 },
    Forward { host: String, port: u16, request: Vec<u8> },
}

/// A request over HTTP and what it shows to be let in.
#[derive(Debug)]
pub struct ParsedHttpProxy {
    pub kind: HttpReqKind,
    pub proxy_authorization: Option<String>,
}

/// What a request over HTTP asks for.
pub enum ReqView {
    Connect { host: Seq<char>, port: int },
    Forward { host: Seq<char>, port: int, request: Seq<u8> },
}

/// The values of a request over HTTP.
pub struct ParsedView {
    pub kind: ReqView,
    pub proxy_authorization: Option<Seq<char>>,
}

impl View for HttpReqKind {
    type V = ReqView;

    open spec fn view(&self) -> ReqView {
        match *self {
            HttpReqKind::Connect { host, port } => ReqView::Connect {
                host: host@,
                port: port as int,
            },
            HttpReqKind::Forward { host, port, request } => ReqView::Forward {
                host: host@,
                port: port as int,
                request: request@,
            },
        }
    }
}

impl View for ParsedHttpProxy {
    type V = ParsedView;

    open spec fn view(&self) -> ParsedView {
        ParsedView {
            kind: self.kind@,
            proxy_authorization: text::opt_string(self.proxy_authorization),
        }
    }
}

/// The view of an optional request.
pub open spec fn parsed_view(r: Option<ParsedHttpProxy>) -> Option<ParsedView> {
    match r {
        Some(p) => Some(p@),
        None => None,
    }
}

/// What the head of a request asks the proxy for: a tunnel, or an absolute address
/// whose request goes on.
pub open spec fn proxy_request_of(h: HeadView) -> Option<ParsedView> {
    let auth = header_text(h.headers, "proxy-authorization"@, 0);
    if text::same_nocase(h.method, "CONNECT"@) {
        match host_port(h.path, 443) {
            Some((host, port)) => Some(
                ParsedView { kind: ReqView::Connect { host, port }, proxy_authorization: auth },
            ),
            None => None,
        }
    } else {
        match absolute_uri(h.path) {
            Some((target, path)) => match host_port(target, 80) {
                Some((host, port)) => Some(
                    ParsedView {
                        kind: ReqView::Forward {
                            host,
                            port,
                            request: origin_request(
                                h.method,
                                path,
                                h.version,
                                h.headers,
                                host,
                                port,
                            ),
                        },
                        proxy_authorization: auth,
                    },
                ),
                None => None,
            },
            None => None,
        }
    }
}

/// What the head of a request asks the proxy for.
pub fn proxy_request(h: &HttpHead) -> (r: Option<ParsedHttpProxy>)
    ensures
        parsed_view(r) == proxy_request_of(h@),
{
    let proxy_authorization = header_value(&h.headers, "proxy-authorization");
    let method = text::chars_of(h.method.as_str());
    let path = text::chars_of(h.path.as_str());
    if text::eq_nocase(&method, "CONNECT") {
        return match host_port_chars(&path, 443) {
            Some((host, port)) => Some(
                ParsedHttpProxy {
                    kind: HttpReqKind::Connect { host, port },
                    proxy_authorization,
                },
            ),
            None => None,
        };
    }
    let (target, abs_path) = match split_absolute_uri(&path) {
        Some(x) => x,
        None => return None,
    };
    let (host, port) = match host_port_chars(&target, 80) {
        Some(x) => x,
        None => return None,
    };
    let abs = text::str_of(&abs_path);
    let request = rebuild_origin_request(
        h.method.as_str(),
        abs.as_str(),
        h.version,
        &h.headers,
        host.as_str(),
        port,
    );
    Some(
        ParsedHttpProxy {
            kind: HttpReqKind::Forward { host, port, request },
            proxy_authorization,
        },
    )
}

/// Reads a request to the proxy.
pub fn parse_http_proxy_request(head: &[u8]) -> (r: Option<ParsedHttpProxy>)
    ensures
        parsed_view(r) == match http_head(head@) {
            Some(h) => proxy_request_of(h),
            None => None,
        },
{
    match httparse_request(head) {
        Some(h) => proxy_request(&h),
        None => None,
    }
}

// ---------------------------------------------------------------------------
// Letting clients in
// ---------------------------------------------------------------------------

/// The character of a digit in base 64.
pub open spec fn b64_char(v: int) -> char {
    if v < 26 {
        ((v + 65) as u32) as char
    } else if v < 52 {
        ((v + 71) as u32) as char
    } else if v < 62 {
        ((v - 4) as u32) as char
    } else if v == 62 {
        '+'
    } else {
        '/'
    }
}

/// The number that up to three bytes make.
pub open spec fn b64_group(b: Seq<u8>) -> int {
    b[0] * 0x1_0000 + if b.len() > 1 {
        b[1] * 0x100
    } else {
        0
    } + if b.len() > 2 {
        b[2] as int
    } else {
        0
    }
}

/// The four characters for up to three bytes.
pub open spec fn b64_chars(b: Seq<u8>) -> Seq<char> {
    let n = b64_group(b);
    seq![
        b64_char(n / 0x4_0000),
        b64_char(n / 0x1000 % 64),
        if b.len() > 1 {
            b64_char(n / 64 % 64)
        } else {
            '='
        },
        if b.len() > 2 {
            b64_char(n % 64)
        } else {
            '='
        },
    ]
}

/// Bytes in base 64: four characters for each three bytes, the last ones filled up
/// with equals signs.
pub open spec fn b64(b: Seq<u8>) -> Seq<char>
    decreases b.len(),
{
    if b.len() == 0 {
        seq![]
    } else if b.len() <= 3 {
        b64_chars(b)
    } else {
        b64_chars(b.take(3)) + b64(b.skip(3))
    }
}

/// The character of a digit in base 64.
fn b64_char_of(v: u8) -> (r: char)
    requires
        v < 64,
    ensures
        r == b64_char(v as int),
{
    if v < 26 {
        (v + 65) as char
    } else if v < 52 {
        (v + 71) as char
    } else if v < 62 {
        (v - 4) as char
    } else if v == 62 {
        '+'
    } else {
        '/'
    }
}

/// Writes bytes in base 64.
pub fn base64_encode(data: &[u8]) -> (r: String)
    ensures
        r@ == b64(data@),
{
    let mut out = String::new();
    let total: usize = data.len();
    let mut i: usize = 0;
    assert(out@ + b64(data@.skip(0)) =~= b64(data@)) by {
        assert(data@.skip(0) =~= data@);
    }
    while i < total
        invariant
            total == data@.len(),
            i <= total,
            out@ + b64(data@.skip(i as int)) == b64(data@),
        decreases total - i,
    {
        let left: usize = total - i;
        let b0: u32 = data[i] as u32;
        let b1: u32 = if left > 1 {
            data[i + 1] as u32
        } else {
            0
        };
        let b2: u32 = if left > 2 {
            data[i + 2] as u32
        } else {
            0
        };
        let n: u32 = b0 * 0x1_0000 + b1 * 0x100 + b2;
        let ghost rest = data@.skip(i as int);
        let ghost group = if rest.len() <= 3 {
            rest
        } else {
            rest.take(3)
        };
        let ghost before = out@;
        assert(b64_group(group) == n);
        out.push(b64_char_of((n / 0x4_0000) as u8));
        out.push(b64_char_of((n / 0x1000 % 64) as u8));
        out.push(
            if left > 1 {
                b64_char_of((n / 64 % 64) as u8)
            } else {
                '='
            },
        );
        out.push(
            if left > 2 {
                b64_char_of((n % 64) as u8)
            } else {
                '='
            },
        );
        assert(out@ =~= before + b64_chars(group));
        if left <= 3 {
            assert(b64(rest) == b64_chars(group));
            i = total;
            assert(data@.skip(total as int) =~= Seq::<u8>::empty());
            assert(out@ + b64(data@.skip(i as int)) =~= before + b64(rest));
        } else {
            assert(rest.skip(3) =~= data@.skip(i + 3));
            assert(before + (b64_chars(group) + b64(data@.skip(i + 3))) =~= before + b64_chars(
                group,
            ) + b64(data@.skip(i + 3)));
            i = i + 3;
        }
    }
    assert(data@.skip(i as int) =~= Seq::<u8>::empty());
    assert(out@ + b64(data@.skip(i as int)) =~= out@);
    out
}

/// What a client shows to be let in.
pub open spec fn basic_auth(user: Seq<char>, pass: Seq<char>) -> Seq<char> {
    "Basic "@ + b64(bytes::utf8(user + ":"@ + pass))
}

/// What a client shows to be let in.
pub fn basic_auth_header_value(user: &str, pass: &str) -> (r: String)
    ensures
        r@ == basic_auth(user@, pass@),
{
    let mut raw = user.to_owned();
    raw.append(":");
    raw.append(pass);
    let mut out = "Basic ".to_owned();
    out.append(base64_encode(raw.as_str().as_bytes()).as_str());
    out
}

/// What becomes of a request over HTTP.
#[derive(Debug)]
pub enum HttpAction {
    /// It is not understood.
    BadRequest,
    /// It is not let in.
    AuthRequired,
    /// The client is told that there is a tunnel, and the connection is served.
    Tunnel(Established),
    /// The connection is served, with the request first.
    Forward(Established),
}

/// What becomes of a request over HTTP.
pub enum HttpActionView {
    BadRequest,
    AuthRequired,
    Tunnel(EstablishedView),
    Forward(EstablishedView),
}

impl View for HttpAction {
    type V = HttpActionView;

    open spec fn view(&self) -> HttpActionView {
        match *self {
            HttpAction::BadRequest => HttpActionView::BadRequest,
            HttpAction::AuthRequired => HttpActionView::AuthRequired,
            HttpAction::Tunnel(e) => HttpActionView::Tunnel(e@),
            HttpAction::Forward(e) => HttpActionView::Forward(e@),
        }
    }
}

/// What becomes of a request: where a user and a password are asked for, only one
/// that shows them is served. What goes through a tunnel is sniffed as the listener
/// says; a request that goes on is not.
pub open spec fn http_action(
    parsed: Option<ParsedView>,
    creds: Option<(Seq<char>, Seq<char>)>,
    profile: InboundProfile,
) -> HttpActionView {
    match parsed {
        None => HttpActionView::BadRequest,
        Some(p) => if profile.apply_auth && (creds matches Some((user, pass))
            && p.proxy_authorization != Some(basic_auth(user, pass))) {
            HttpActionView::AuthRequired
        } else {
            match p.kind {
                ReqView::Connect { host, port } => HttpActionView::Tunnel(
                    to_host(host, port as u16, seq![], profile.sniff, profile.http),
                ),
                ReqView::Forward { host, port, request } => HttpActionView::Forward(
                    to_host(host, port as u16, request, false, profile.http),
                ),
            }
        },
    }
}

/// Decides what becomes of a request.
pub fn decide_http(
    parsed: Option<ParsedHttpProxy>,
    creds: &Option<(String, String)>,
    profile: InboundProfile,
) -> (r: HttpAction)
    ensures
        r@ == http_action(parsed_view(parsed), config::opt_pair(*creds), profile),
{
    let p = match parsed {
        Some(p) => p,
        None => return HttpAction::BadRequest,
    };
    if profile.apply_auth {
        if let Some((user, pass)) = creds {
            let expected = basic_auth_header_value(user.as_str(), pass.as_str());
            let shown = match &p.proxy_authorization {
                Some(a) => text::same_str(a.as_str(), expected.as_str()),
                None => false,
            };
            if !shown {
                return HttpAction::AuthRequired;
            }
        }
    }
    match p.kind {
        HttpReqKind::Connect { host, port } => HttpAction::Tunnel(
            host_port_to_established(host, port, Vec::new(), profile.sniff, profile.http),
        ),
        HttpReqKind::Forward { host, port, request } => HttpAction::Forward(
            host_port_to_established(host, port, request, false, profile.http),
        ),
    }
}

// ---------------------------------------------------------------------------
// Requests over SOCKS
// ---------------------------------------------------------------------------

/// A command of a SOCKS request.
#[derive(Debug, Clone, Copy, PartialEq, Eq, Structural)]
pub enum SocksCmd {
    Connect,
    UdpAssociate,
    Other(u8),
}

/// What becomes of a SOCKS request.
#[derive(Debug, Clone, Copy, PartialEq, Eq, Structural)]
pub enum SocksAction {
    /// The client is told of success, and the connection is served.
    Serve,
    /// Packets are passed on for as long as the connection stays.
    Associate,
    /// The command is not supported.
    Refuse,
}

/// Decides what becomes of a SOCKS request.
pub fn decide_socks(cmd: SocksCmd, udp: bool) -> (r: SocksAction)
    ensures
        r == match cmd {
            SocksCmd::Connect => SocksAction::Serve,
            SocksCmd::UdpAssociate => if udp {
                SocksAction::Associate
            } else {
                SocksAction::Refuse
            },
            SocksCmd::Other(_) => SocksAction::Refuse,
        },
{
    match cmd {
        SocksCmd::Connect => SocksAction::Serve,
        SocksCmd::UdpAssociate => if udp {
            SocksAction::Associate
        } else {
            SocksAction::Refuse
        },
        SocksCmd::Other(_) => SocksAction::Refuse,
    }
}

/// Which protocol a client speaks, by its first byte.
#[derive(Debug, Clone, Copy, PartialEq, Eq, Structural)]
pub enum Spoken {
    Nothing,
    Socks5,
    Http,
}

/// Which protocol a client speaks.
pub fn spoken(first: Option<u8>) -> (r: Spoken)
    ensures
        r == match first {
            None => Spoken::Nothing,
            Some(b) => if b == 5 {
                Spoken::Socks5
            } else {
                Spoken::Http
            },
        },
{
    match first {
        None => Spoken::Nothing,
        Some(b) => if b == 5 {
            Spoken::Socks5
        } else {
            Spoken::Http
        },
    }
}

/// The kinds of addresses in SOCKS.
pub const ATYP_IPV4: u8 = 1;

pub const ATYP_DOMAIN: u8 = 3;

pub const ATYP_IPV6: u8 = 4;

/// The header of a packet of a client: where it is to go, by address or by name,
/// and where its contents start. Packets in fragments have none.
pub open spec fn udp_header(b: Seq<u8>) -> Option<(SocketAddr, Option<Seq<char>>, int)> {
    if b.len() < 4 || b[0] != 0 || b[1] != 0 || b[2] != 0 {
        None
    } else if b[3] == ATYP_IPV4 {
        if b.len() < 10 {
            None
        } else {
            Some(
                (
                    SocketAddr {
                        ip: IpAddr::V4(bytes::be_value(b.subrange(4, 8)) as u32),
                        port: bytes::be_value(b.subrange(8, 10)) as u16,
                        scope: 0,
                    },
                    None,
                    10,
                ),
            )
        }
    } else if b[3] == ATYP_IPV6 {
        if b.len() < 22 {
            None
        } else {
            Some(
                (
                    SocketAddr {
                        ip: IpAddr::V6(bytes::be_value(b.subrange(4, 20)) as u128),
                        port: bytes::be_value(b.subrange(20, 22)) as u16,
                        scope: 0,
                    },
                    None,
                    22,
                ),
            )
        }
    } else if b[3] == ATYP_DOMAIN {
        if b.len() < 5 || b.len() < 7 + b[4] {
            None
        } else {
            let end = 5 + b[4];
            let name = b.subrange(5, end);
            if vstd::utf8::valid_utf8(name) {
                Some(
                    (
                        unspecified(bytes::be_value(b.subrange(end, end + 2)) as u16),
                        Some(vstd::utf8::decode_utf8(name)),
                        end + 2,
                    ),
                )
            } else {
                None
            }
        }
    } else {
        None
    }
}

/// Two bytes as a number.
fn read_u16(b: &[u8], at: usize) -> (r: u16)
    requires
        at + 2 <= b@.len(),
    ensures
        r == bytes::be_value(b@.subrange(at as int, at + 2)),
{
    proof {
        let s = b@.subrange(at as int, at + 2);
        reveal_with_fuel(bytes::be_value, 3);
        assert(s.drop_last() =~= seq![b@[at as int]]);
        assert(s.drop_last().drop_last() =~= Seq::<u8>::empty());
    }
    (b[at] as u16) * 256 + (b[at + 1] as u16)
}

/// Up to sixteen bytes as a number.
fn read_be(b: &[u8], at: usize, len: usize) -> (r: u128)
    requires
        at + len <= b@.len(),
        len <= 16,
    ensures
        r == bytes::be_value(b@.subrange(at as int, at + len)),
        r < vstd::arithmetic::power::pow(256, len as nat),
    decreases len,
{
    reveal(vstd::arithmetic::power::pow);
    let total: usize = b.len();
    if len == 0 {
        assert(b@.subrange(at as int, at as int) =~= Seq::<u8>::empty());
        return 0;
    }
    let hi = read_be(b, at, len - 1);
    let ghost s = b@.subrange(at as int, at + len);
    let ghost p = vstd::arithmetic::power::pow(256, (len - 1) as nat);
    proof {
        assert(s.drop_last() =~= b@.subrange(at as int, at + len - 1));
        assert(vstd::arithmetic::power::pow(256, len as nat) == 256 * p);
        vstd::arithmetic::power::lemma_pow_increases(256, (len - 1) as nat, 15);
        assert(vstd::arithmetic::power::pow(256, 15) == 0x100_0000_0000_0000_0000_0000_0000_0000)
            by {
            reveal_with_fuel(vstd::arithmetic::power::pow, 16);
        }
    }
    hi * 256 + (b[at + len - 1] as u128)
}

/// The view of a header of a packet.
pub open spec fn udp_header_view(r: Option<(SocketAddr, Option<String>, usize)>) -> Option<
    (SocketAddr, Option<Seq<char>>, int),
> {
    match r {
        Some((a, h, n)) => Some((a, text::opt_string(h), n as int)),
        None => None,
    }
}

/// Reads the header of a packet of a client.
pub fn decode_client_udp_header(b: &[u8]) -> (r: Option<(SocketAddr, Option<String>, usize)>)
    ensures
        udp_header_view(r) == udp_header(b@),
        r matches Some((_, _, n)) ==> n <= b@.len(),
{
    let n: usize = b.len();
    if n < 4 || b[0] != 0 || b[1] != 0 || b[2] != 0 {
        return None;
    }
    if b[3] == ATYP_IPV4 {
        if n < 10 {
            return None;
        }
        let ip = read_be(b, 4, 4);
        proof {
            reveal_with_fuel(vstd::arithmetic::power::pow, 5);
        }
        Some((SocketAddr::new(IpAddr::V4(ip as u32), read_u16(b, 8)), None, 10))
    } else if b[3] == ATYP_IPV6 {
        if n < 22 {
            return None;
        }
        Some((SocketAddr::new(IpAddr::V6(read_be(b, 4, 16)), read_u16(b, 20)), None, 22))
    } else if b[3] == ATYP_DOMAIN {
        if n < 5 {
            return None;
        }
        let end: usize = 5 + b[4] as usize;
        if n < end + 2 {
            return None;
        }
        match bytes::text_of(slice_subrange(b, 5, end)) {
            Some(host) => Some(
                (SocketAddr::new(IpAddr::V4(0), read_u16(b, end)), Some(host), end + 2),
            ),
            None => None,
        }
    } else {
        None
    }
}

/// Where a packet of a client goes.
#[derive(Debug)]
pub enum PacketRoute {
    /// To a name.
    Name(String),
    /// To the address in its header.
    Address,
    /// Nowhere.
    Drop,
}

/// Decides where a packet goes. A name in its header counts; else the name that the
/// gateway gave its address out for, and an address of the gateway's own without a
/// name leads nowhere.
pub fn route_packet(host: Option<String>, own: bool, given_for: Option<String>) -> (r: PacketRoute)
    ensures
        match r {
            PacketRoute::Name(h) => Some(h@) == if host is Some {
                text::opt_string(host)
            } else {
                text::opt_string(given_for)
            } && (host is Some || own),
            PacketRoute::Address => host is None && !own,
            PacketRoute::Drop => host is None && own && given_for is None,
        },
{
    match host {
        Some(h) => PacketRoute::Name(h),
        None => if own {
            match given_for {
                Some(h) => PacketRoute::Name(h),
                None => PacketRoute::Drop,
            }
        } else {
            PacketRoute::Address
        },
    }
}

/// What happened while datagrams were relayed for a client.
#[derive(Debug, Clone, Copy, PartialEq, Eq, Structural)]
pub enum AssocEvent {
    /// A datagram came from this address.
    Packet(SocketAddr),
    /// Nothing can be received any more.
    ReceiveFailed,
    /// The last datagram could not be sent on.
    ForwardFailed,
    /// So many bytes came on the connection that holds the relay open.
    Control(usize),
    /// That connection failed.
    ControlFailed,
    /// Nothing happened for too long.
    Idle,
}

/// What is done next.
#[derive(Debug, Clone, Copy, PartialEq, Eq, Structural)]
pub enum AssocStep {
    /// The datagram is sent on, and answers go to this address from now on.
    Forward(SocketAddr),
    /// Nothing.
    Ignore,
    /// The relay ends.
    End,
}

/// What is done next. Only the client's own datagrams are sent on, and the relay lives
/// for as long as the connection that holds it open.
pub open spec fn assoc_next(peer: IpAddr, event: AssocEvent) -> AssocStep {
    match event {
        AssocEvent::Packet(from) => if from.ip == peer {
            AssocStep::Forward(from)
        } else {
            AssocStep::Ignore
        },
        AssocEvent::Control(n) => if n == 0 {
            AssocStep::End
        } else {
            AssocStep::Ignore
        },
        _ => AssocStep::End,
    }
}

/// What is done next while datagrams are relayed for a client.
pub fn assoc_step(peer: IpAddr, event: AssocEvent) -> (r: AssocStep)
    ensures
        r == assoc_next(peer, event),
{
    match event {
        AssocEvent::Packet(from) => if from.ip == peer {
            AssocStep::Forward(from)
        } else {
            AssocStep::Ignore
        },
        AssocEvent::Control(n) => if n == 0 {
            AssocStep::End
        } else {
            AssocStep::Ignore
        },
        AssocEvent::ReceiveFailed => AssocStep::End,
        AssocEvent::ForwardFailed => AssocStep::End,
        AssocEvent::ControlFailed => AssocStep::End,
        AssocEvent::Idle => AssocStep::End,
    }
}

/// Nobody but the client gets a datagram through its relay, and nobody else's address
/// is ever answered.
pub proof fn law_relay_serves_its_client(peer: IpAddr, event: AssocEvent)
    ensures
        assoc_next(peer, event) matches AssocStep::Forward(to) ==> to.ip == peer && event
            == AssocEvent::Packet(to),
{
}

// ---------------------------------------------------------------------------
// Addresses of the machine
// ---------------------------------------------------------------------------

/// Whether the proxy listens on an address: not on one of the machine itself, none
/// that stands for all, and none that is for one link only.
pub open spec fn listens_on(a: u32) -> bool {
    a / 0x100_0000 != 127 && a != 0 && a / 0x1_0000 != 0xa9fe
}

/// Whether numbers stand in ascending order, each once.
pub open spec fn increasing(v: Seq<u32>) -> bool {
    forall|i: int, j: int| 0 <= i < j < v.len() ==> #[trigger] v[i] < #[trigger] v[j]
}

/// Puts a number into a vector in ascending order, where it is not there.
fn put_once(v: &mut Vec<u32>, x: u32)
    requires
        increasing(old(v)@),
    ensures
        increasing(final(v)@),
        forall|y: u32| #[trigger] final(v)@.contains(y) <==> (old(v)@.contains(y) || y == x),
{
    let ghost before = v@;
    let mut i: usize = 0;
    while i < v.len() && v[i] < x
        invariant
            v@ == before,
            i <= v@.len(),
            forall|j: int| 0 <= j < i ==> #[trigger] v@[j] < x,
        decreases v@.len() - i,
    {
        i = i + 1;
    }
    if i < v.len() && v[i] == x {
        assert(before[i as int] == x);
        return;
    }
    v.insert(i, x);
    proof {
        assert forall|a: int, b: int| 0 <= a < b < v@.len() implies #[trigger] v@[a]
            < #[trigger] v@[b] by {
            let p = if a < i { a } else { a - 1 };
            let q = if b < i { b } else { b - 1 };
            if a != i && b != i {
                assert(before[p] < before[q]);
            } else if a == i {
                assert(x < before[i as int]);
                if q > i {
                    assert(before[i as int] < before[q]);
                }
            }
        }
        assert forall|y: u32| #[trigger] v@.contains(y) <==> (before.contains(y) || y == x) by {
            if v@.contains(y) {
                let j = choose|j: int| 0 <= j < v@.len() && v@[j] == y;
                if j != i {
                    assert(before[if j < i { j } else { j - 1 }] == y);
                }
            }
            if before.contains(y) {
                let j = choose|j: int| 0 <= j < before.len() && before[j] == y;
                assert(v@[if j < i { j } else { j + 1 }] == y);
            }
            assert(v@[i as int] == x);
        }
    }
}

/// The addresses that the proxy listens on, in ascending order, each once.
pub fn lan_ipv4s(addrs: &[u32]) -> (r: Vec<u32>)
    ensures
        increasing(r@),
        forall|a: u32| #[trigger] r@.contains(a) <==> (addrs@.contains(a) && listens_on(a)),
{
    let mut out: Vec<u32> = Vec::new();
    let mut i: usize = 0;
    while i < addrs.len()
        invariant
            i <= addrs@.len(),
            increasing(out@),
            forall|a: u32| #[trigger]
                out@.contains(a) <==> (addrs@.take(i as int).contains(a) && listens_on(a)),
        decreases addrs@.len() - i,
    {
        let x = addrs[i];
        let ghost prev = addrs@.take(i as int);
        let ghost next = addrs@.take(i + 1);
        proof {
            assert(next =~= prev.push(x));
            assert forall|a: u32| next.contains(a) <==> (prev.contains(a) || a == x) by {
                if prev.contains(a) {
                    let j = choose|j: int| 0 <= j < prev.len() && prev[j] == a;
                    assert(next[j] == a);
                }
                assert(next[i as int] == x);
            }
        }
        if x / 0x100_0000 != 127 && x != 0 && x / 0x1_0000 != 0xa9fe {
            put_once(&mut out, x);
        }
        i = i + 1;
    }
    assert(addrs@.take(i as int) =~= addrs@);
    out
}

// ---------------------------------------------------------------------------
// Laws
// ---------------------------------------------------------------------------

/// Where a user and a password are asked for, a request that does not show exactly
/// them is never served.
pub proof fn law_no_way_past_the_password(
    p: ParsedView,
    user: Seq<char>,
    pass: Seq<char>,
    profile: InboundProfile,
)
    requires
        profile.apply_auth,
        p.proxy_authorization != Some(basic_auth(user, pass)),
    ensures
        http_action(Some(p), Some((user, pass)), profile) is AuthRequired,
{
}

/// Different digits have different characters, and none is an equals sign.
proof fn lemma_b64_char(a: int, b: int)
    requires
        0 <= a < 64,
        0 <= b < 64,
    ensures
        b64_char(a) == b64_char(b) ==> a == b,
        b64_char(a) != '=',
{
}

/// Digits in base 64 give their number back.
#[verifier::rlimit(40)]
proof fn lemma_b64_digits(n: int)
    requires
        0 <= n < 0x100_0000,
    ensures
        n == n / 0x4_0000 * 0x4_0000 + n / 0x1000 % 64 * 0x1000 + n / 64 % 64 * 64 + n % 64,
        0 <= n / 0x4_0000 < 64,
        0 <= n / 0x1000 % 64 < 64,
        0 <= n / 64 % 64 < 64,
        0 <= n % 64 < 64,
        n % 0x1_0000 == 0 ==> n / 64 % 64 == 0 && n % 64 == 0,
        n % 0x100 == 0 ==> n % 64 == 0,
{
}

/// The number of a group gives its bytes back.
proof fn lemma_b64_group(b: Seq<u8>)
    requires
        1 <= b.len() <= 3,
    ensures
        ({
            let n = b64_group(b);
            &&& 0 <= n < 0x100_0000
            &&& b[0] == n / 0x1_0000
            &&& b.len() > 1 ==> b[1] == n / 0x100 % 0x100
            &&& b.len() > 2 ==> b[2] == n % 0x100
            &&& b.len() == 1 ==> n % 0x1_0000 == 0
            &&& b.len() == 2 ==> n % 0x100 == 0
        }),
{
}

/// The characters of a group give its bytes back.
proof fn lemma_b64_chars(a: Seq<u8>, b: Seq<u8>)
    requires
        1 <= a.len() <= 3,
        1 <= b.len() <= 3,
        b64_chars(a) == b64_chars(b),
    ensures
        a == b,
{
    let x = b64_chars(a);
    let y = b64_chars(b);
    let n = b64_group(a);
    let m = b64_group(b);
    assert(x[0] == y[0] && x[1] == y[1] && x[2] == y[2] && x[3] == y[3]);
    lemma_b64_group(a);
    lemma_b64_group(b);
    lemma_b64_digits(n);
    lemma_b64_digits(m);
    lemma_b64_char(n / 0x4_0000, m / 0x4_0000);
    lemma_b64_char(n / 0x1000 % 64, m / 0x1000 % 64);
    lemma_b64_char(n / 64 % 64, m / 64 % 64);
    lemma_b64_char(n % 64, m % 64);
    lemma_b64_char(m / 64 % 64, 0);
    lemma_b64_char(m % 64, 0);
    assert(a.len() == b.len());
    assert(n == m);
    assert(a =~= b);
}

/// Different bytes have different texts in base 64.
pub proof fn law_base64_is_faithful(a: Seq<u8>, b: Seq<u8>)
    requires
        b64(a) == b64(b),
    ensures
        a == b,
    decreases a.len(),
{
    if a.len() == 0 || b.len() == 0 {
        if a.len() > 0 {
            assert(b64(a).len() >= 4);
        }
        if b.len() > 0 {
            assert(b64(b).len() >= 4);
        }
        assert(a =~= b);
    } else {
        let ga = if a.len() <= 3 { a } else { a.take(3) };
        let gb = if b.len() <= 3 { b } else { b.take(3) };
        let ra = if a.len() <= 3 { Seq::<u8>::empty() } else { a.skip(3) };
        let rb = if b.len() <= 3 { Seq::<u8>::empty() } else { b.skip(3) };
        assert(b64(a) =~= b64_chars(ga) + b64(ra));
        assert(b64(b) =~= b64_chars(gb) + b64(rb));
        assert(b64_chars(ga) =~= b64(a).take(4));
        assert(b64_chars(gb) =~= b64(b).take(4));
        assert(b64(ra) =~= b64(a).skip(4));
        assert(b64(rb) =~= b64(b).skip(4));
        lemma_b64_chars(ga, gb);
        law_base64_is_faithful(ra, rb);
        assert(a =~= ga + ra);
        assert(b =~= gb + rb);
    }
}

/// A header that names the host is not one for the proxy alone.
proof fn lemma_host_goes_on(name: Seq<char>)
    requires
        text::same_nocase(name, "host"@),
    ensures
        name.len() > 0,
        !text::same_nocase(name, "proxy-connection"@),
        !text::same_nocase(name, "proxy-authorization"@),
{
    reveal_strlit("host");
    reveal_strlit("proxy-connection");
    reveal_strlit("proxy-authorization");
    assert(text::lowered(name).len() == text::lowered("host"@).len());
    assert(text::lowered("host"@).len() == 4);
    assert(text::lowered("proxy-connection"@).len() == 16);
    assert(text::lowered("proxy-authorization"@).len() == 19);
}

/// The lines of headers are those that go on, one behind the other.
proof fn lemma_header_lines(
    v: Seq<HeaderView>,
    n: int,
    goes_on: spec_fn(HeaderView) -> bool,
    line: spec_fn(HeaderView) -> Seq<u8>,
)
    requires
        0 <= n <= v.len(),
        forall|h: HeaderView| #[trigger] goes_on(h) == kept(h),
        forall|h: HeaderView| #[trigger] line(h) == header_line(h),
    ensures
        header_lines(v, n) == v.take(n).filter(goes_on).map_values(line).flatten(),
    decreases n,
{
    let all = v.take(n).filter(goes_on).map_values(line);
    all.lemma_flatten_and_flatten_alt_are_equivalent();
    reveal(Seq::filter);
    if n > 0 {
        lemma_header_lines(v, n - 1, goes_on, line);
        let less = v.take(n - 1).filter(goes_on).map_values(line);
        less.lemma_flatten_and_flatten_alt_are_equivalent();
        assert(v.take(n).drop_last() =~= v.take(n - 1));
        assert(v.take(n).last() == v[n - 1]);
        if kept(v[n - 1]) {
            assert(all =~= less.push(line(v[n - 1])));
            assert(all.drop_last() =~= less);
        } else {
            assert(all =~= less);
        }
    } else {
        assert(all =~= Seq::<Seq<u8>>::empty());
    }
}

/// One of the headers names the host where that is what it is called.
proof fn lemma_names_host(v: Seq<HeaderView>, n: int)
    requires
        0 <= n <= v.len(),
    ensures
        names_host(v, n) <==> exists|i: int|
            0 <= i < n && text::same_nocase((#[trigger] v[i]).name, "host"@),
    decreases n,
{
    if n > 0 {
        lemma_names_host(v, n - 1);
        if text::same_nocase(v[n - 1].name, "host"@) {
            lemma_host_goes_on(v[n - 1].name);
        }
    }
}

/// A request goes on with every header that it came with, in their order and with their
/// names and values as they were, but for headers without a name and the two that are
/// meant for the proxy. Its first line holds the path alone. A host is named in a line of
/// its own behind them where no header names one, with its port unless that is the usual
/// one.
pub proof fn law_headers_go_on(
    method: Seq<char>,
    path: Seq<char>,
    version: int,
    headers: Seq<HeaderView>,
    host: Seq<char>,
    port: int,
    goes_on: spec_fn(HeaderView) -> bool,
    line: spec_fn(HeaderView) -> Seq<u8>,
)
    requires
        forall|h: HeaderView| #[trigger]
            goes_on(h) == (h.name.len() > 0 && !text::same_nocase(h.name, "proxy-connection"@)
                && !text::same_nocase(h.name, "proxy-authorization"@)),
        forall|h: HeaderView| #[trigger]
            line(h) == bytes::utf8(h.name) + bytes::utf8(": "@) + h.value + bytes::utf8("\r\n"@),
    ensures
        origin_request(method, path, version, headers, host, port) == bytes::utf8(
            method + " "@ + path + if version == 0 {
                " HTTP/1.0\r\n"@
            } else {
                " HTTP/1.1\r\n"@
            },
        ) + headers.filter(goes_on).map_values(line).flatten() + if exists|i: int|
            0 <= i < headers.len() && text::same_nocase((#[trigger] headers[i]).name, "host"@) {
            Seq::<u8>::empty()
        } else {
            bytes::utf8(
                "Host: "@ + host + if port == 80 {
                    ""@
                } else {
                    ":"@ + text::decimal(port)
                } + "\r\n"@,
            )
        } + bytes::utf8("\r\n"@),
{
    let n = headers.len() as int;
    lemma_header_lines(headers, n, goes_on, line);
    assert(headers.take(n) =~= headers);
    lemma_names_host(headers, n);
    reveal_strlit(" HTTP/");
    reveal_strlit("1.0");
    reveal_strlit("1.1");
    reveal_strlit("\r\n");
    reveal_strlit("");
    reveal_strlit(" HTTP/1.0\r\n");
    reveal_strlit(" HTTP/1.1\r\n");
    assert(request_line(method, path, version) =~= method + " "@ + path + if version == 0 {
        " HTTP/1.0\r\n"@
    } else {
        " HTTP/1.1\r\n"@
    });
    assert(host_header(host, port) =~= "Host: "@ + host + if port == 80 {
        ""@
    } else {
        ":"@ + text::decimal(port)
    } + "\r\n"@);
}

/// A destination keeps the port, the bytes and the marks that it came with. A host that is
/// written as an address is that address, and has no name; any other is the name.
pub proof fn law_destination_is_the_host(
    host: Seq<char>,
    port: u16,
    prelude: Seq<u8>,
    sniff: bool,
    inbound: InboundKind,
)
    ensures
        ({
            let e = to_host(host, port, prelude, sniff, inbound);
            &&& e.dest.port == port
            &&& e.prelude == prelude
            &&& e.sniff == sniff
            &&& e.inbound == inbound
            &&& addr::ip(host) matches Some(a) ==> e.dest.ip == a && e.domain is None
            &&& addr::ip(host) is None ==> e.domain == Some(host) && e.dest.ip == IpAddr::V4(0)
        }),
{
}

/// An absolute address is taken apart into who is asked and what for, whatever its scheme.
/// Without a path the root is asked for, and an address without a scheme is none.
pub proof fn law_absolute_address_taken_apart(who: Seq<char>, path: Seq<char>)
    requires
        forall|i: int| 0 <= i < who.len() ==> #[trigger] who[i] != '/',
        path.len() > 0 ==> path[0] == '/',
    ensures
        absolute_uri("http://"@ + who + path) == Some(
            (
                who,
                if path.len() > 0 {
                    path
                } else {
                    "/"@
                },
            ),
        ),
        absolute_uri("https://"@ + who + path) == absolute_uri("http://"@ + who + path),
        path.len() > 0 ==> absolute_uri(path) is None,
{
    reveal_strlit("http://");
    reveal_strlit("https://");
    reveal_strlit("/");
    let r = who + path;
    text::lemma_after("http://"@, r);
    text::lemma_after("https://"@, r);
    assert("http://"@ + who + path =~= "http://"@ + r);
    assert("https://"@ + who + path =~= "https://"@ + r);
    assert(("https://"@ + r).take(7)[4] == 's');
    assert("http://"@[4] == ':');
    assert forall|i: int| 0 <= i < who.len() implies #[trigger] r[i] != '/' by {
        assert(r[i] == who[i]);
    }
    text::lemma_first(r, '/', who.len() as int);
    assert(r.take(who.len() as int) =~= who);
    assert(r.skip(who.len() as int) =~= path);
    if path.len() == 0 {
        assert(r =~= who);
    } else {
        if path.len() >= 7 {
            assert(path.take(7)[0] == '/' && "http://"@[0] == 'h');
        }
        if path.len() >= 8 {
            assert(path.take(8)[0] == '/' && "https://"@[0] == 'h');
        }
    }
}

/// A host and its port are read back from the text that is made of them, and a host alone
/// has the usual port. A host in brackets may hold colons.
#[verifier::rlimit(50)]
pub proof fn law_host_and_port_taken_apart(host: Seq<char>, port: int, usual: int)
    requires
        0 <= port <= 0xffff,
        host.len() > 0,
    ensures
        (forall|i: int| 0 <= i < host.len() ==> #[trigger] host[i] != ':') && host[0] != '[' ==> {
            &&& host_port(host + ":"@ + text::decimal(port), usual) == Some((host, port))
            &&& host_port(host, usual) == Some((host, usual))
        },
        (forall|i: int| 0 <= i < host.len() ==> #[trigger] host[i] != ']') ==> {
            &&& host_port("["@ + host + "]:"@ + text::decimal(port), usual) == Some((host, port))
            &&& host_port("["@ + host + "]"@, usual) == Some((host, usual))
        },
        host_port(""@, usual) is None,
{
    reveal_strlit("");
    reveal_strlit(":");
    reveal_strlit("[");
    reveal_strlit("]");
    reveal_strlit("]:");
    let d = text::decimal(port);
    text::law_number_round_trip(port, 0xffff);
    text::lemma_written(port, 10);
    assert forall|i: int| 0 <= i < d.len() implies #[trigger] d[i] != ':' by {
        assert(text::is_digit(d[i], 10));
    }
    if (forall|i: int| 0 <= i < host.len() ==> #[trigger] host[i] != ':') && host[0] != '[' {
        let s = host + ":"@ + d;
        assert(s =~= host + seq![':'] + d);
        text::lemma_rcut_last(host, d, ':');
        assert(s[0] == host[0]);
        text::lemma_no_cut(host, ':');
    }
    if forall|i: int| 0 <= i < host.len() ==> #[trigger] host[i] != ']' {
        let n = host.len() as int;
        let a = "["@ + host + "]:"@ + d;
        let ra = a.skip(1);
        assert(ra =~= host + seq![']'] + (seq![':'] + d));
        assert forall|i: int| 0 <= i < n implies #[trigger] ra[i] != ']' by {
            assert(ra[i] == host[i]);
        }
        text::lemma_first(ra, ']', n);
        assert(ra.take(n) =~= host);
        assert(ra.skip(n + 1) =~= seq![':'] + d);
        assert((seq![':'] + d).skip(1) =~= d);
        let b = "["@ + host + "]"@;
        let rb = b.skip(1);
        assert(rb =~= host + seq![']']);
        assert forall|i: int| 0 <= i < n implies #[trigger] rb[i] != ']' by {
            assert(rb[i] == host[i]);
        }
        text::lemma_first(rb, ']', n);
        assert(rb.take(n) =~= host);
        assert(rb.skip(n + 1).len() == 0);
    }
}

/// A client that asks for a tunnel gets one to the host and port that it names. A client
/// that asks for a page has its request sent to the host of the page, with the path alone
/// and everything else as it was. What it shows as a password is found either way.
pub proof fn law_requests_reach_their_host(
    method: Seq<char>,
    host: Seq<char>,
    port: int,
    path: Seq<char>,
    version: int,
    headers: Seq<HeaderView>,
)
    requires
        0 <= port <= 0xffff,
        host.len() > 0,
        host[0] != '[',
        forall|i: int| 0 <= i < host.len() ==> #[trigger] host[i] != ':' && host[i] != '/',
        path.len() > 0,
        path[0] == '/',
    ensures
        ({
            let who = host + ":"@ + text::decimal(port);
            let tunnel = proxy_request_of(HeadView { method, path: who, version, headers });
            let page = proxy_request_of(
                HeadView { method, path: "http://"@ + who + path, version, headers },
            );
            let bare = proxy_request_of(
                HeadView { method, path: "http://"@ + host + path, version, headers },
            );
            let shown = header_text(headers, "proxy-authorization"@, 0);
            &&& text::same_nocase(method, "CONNECT"@) ==> tunnel == Some(
                ParsedView {
                    kind: ReqView::Connect { host, port },
                    proxy_authorization: shown,
                },
            )
            &&& !text::same_nocase(method, "CONNECT"@) ==> {
                &&& page == Some(
                    ParsedView {
                        kind: ReqView::Forward {
                            host,
                            port,
                            request: origin_request(method, path, version, headers, host, port),
                        },
                        proxy_authorization: shown,
                    },
                )
                &&& bare == Some(
                    ParsedView {
                        kind: ReqView::Forward {
                            host,
                            port: 80,
                            request: origin_request(method, path, version, headers, host, 80),
                        },
                        proxy_authorization: shown,
                    },
                )
                &&& proxy_request_of(HeadView { method, path, version, headers }) is None
            }
        }),
        text::same_nocase(method, "CONNECT"@) ==> proxy_request_of(
            HeadView { method, path: host, version, headers },
        ) == Some(
            ParsedView {
                kind: ReqView::Connect { host, port: 443 },
                proxy_authorization: header_text(headers, "proxy-authorization"@, 0),
            },
        ),
{
    let who = host + ":"@ + text::decimal(port);
    reveal_strlit(":");
    text::lemma_written(port, 10);
    assert forall|i: int| 0 <= i < who.len() implies #[trigger] who[i] != '/' by {
        if i < host.len() {
            assert(who[i] == host[i]);
        } else if i > host.len() {
            assert(who[i] == text::decimal(port)[i - host.len() - 1]);
            assert(text::is_digit(text::decimal(port)[i - host.len() - 1], 10));
        }
    }
    law_host_and_port_taken_apart(host, port, 443);
    law_host_and_port_taken_apart(host, port, 80);
    law_absolute_address_taken_apart(who, path);
    law_absolute_address_taken_apart(host, path);
}

/// What a header says is what the first one of its name holds, whatever the case of the
/// name, and nothing where that is no text or where there is none.
pub proof fn law_first_header_counts(v: Seq<HeaderView>, name: Seq<char>, k: int)
    requires
        0 <= k < v.len(),
        text::same_nocase(v[k].name, name),
        forall|j: int| 0 <= j < k ==> !text::same_nocase((#[trigger] v[j]).name, name),
    ensures
        vstd::utf8::valid_utf8(v[k].value) ==> header_text(v, name, 0) == Some(
            vstd::utf8::decode_utf8(v[k].value),
        ),
        !vstd::utf8::valid_utf8(v[k].value) ==> header_text(v, name, 0) is None,
{
    lemma_header_from(v, name, 0, k);
}

/// Headers of other names are passed over.
proof fn lemma_header_from(v: Seq<HeaderView>, name: Seq<char>, i: int, k: int)
    requires
        0 <= i <= k <= v.len(),
        forall|j: int| i <= j < k ==> !text::same_nocase((#[trigger] v[j]).name, name),
    ensures
        header_text(v, name, i) == header_text(v, name, k),
    decreases k - i,
{
    if i < k {
        lemma_header_from(v, name, i + 1, k);
    }
}

/// Who shows the name and the password that are asked for, or is asked for none, is let in:
/// a tunnel begins with nothing sent, and a page with its request.
pub proof fn law_the_right_password_is_let_in(
    p: ParsedView,
    creds: Option<(Seq<char>, Seq<char>)>,
    profile: InboundProfile,
)
    requires
        creds is None || !profile.apply_auth || p.proxy_authorization == Some(
            "Basic "@ + b64(bytes::utf8((creds->0).0 + ":"@ + (creds->0).1)),
        ),
    ensures
        p.kind matches ReqView::Connect { host, port } ==> http_action(Some(p), creds, profile)
            == HttpActionView::Tunnel(
            to_host(host, port as u16, seq![], profile.sniff, profile.http),
        ),
        p.kind matches ReqView::Forward { host, port, request } ==> http_action(
            Some(p),
            creds,
            profile,
        ) == HttpActionView::Forward(to_host(host, port as u16, request, false, profile.http)),
        http_action(None, creds, profile) is BadRequest,
{
}

/// A packet of a client is taken apart as it was put together: three zero bytes, the kind
/// of the address, the address, the port, and what the packet carries. Where a name stands
/// for the address its length comes before it. A packet that is a part of another is not
/// taken.
pub proof fn law_packets_are_taken_apart(
    v4: u32,
    v6: u128,
    name: Seq<char>,
    port: u16,
    data: Seq<u8>,
)
    requires
        bytes::utf8(name).len() <= 255,
    ensures
        udp_header(
            seq![0u8, 0u8, 0u8, 1u8] + bytes::be(v4 as int, 4) + bytes::be(port as int, 2) + data,
        ) == Some((SocketAddr { ip: IpAddr::V4(v4), port, scope: 0 }, None::<Seq<char>>, 10int)),
        udp_header(
            seq![0u8, 0u8, 0u8, 4u8] + bytes::be(v6 as int, 16) + bytes::be(port as int, 2) + data,
        ) == Some((SocketAddr { ip: IpAddr::V6(v6), port, scope: 0 }, None::<Seq<char>>, 22int)),
        udp_header(
            seq![0u8, 0u8, 0u8, 3u8, bytes::utf8(name).len() as u8] + bytes::utf8(name) + bytes::be(
                port as int,
                2,
            ) + data,
        ) == Some(
            (
                SocketAddr { ip: IpAddr::V4(0), port, scope: 0 },
                Some(name),
                7 + bytes::utf8(name).len() as int,
            ),
        ),
        forall|b: Seq<u8>|
            b.len() >= 3 && (b[0] != 0 || b[1] != 0 || b[2] != 0) ==> #[trigger] udp_header(b)
                is None,
        forall|b: Seq<u8>|
            b.len() >= 4 && b[3] != 1 && b[3] != 3 && b[3] != 4 ==> #[trigger] udp_header(b) is None,
{
    assert(vstd::arithmetic::power::pow(256, 2) == 0x1_0000
        && vstd::arithmetic::power::pow(256, 4) == 0x1_0000_0000
        && vstd::arithmetic::power::pow(256, 16) == u128::MAX + 1) by {
        reveal_with_fuel(vstd::arithmetic::power::pow, 17);
    }
    bytes::law_be_round_trip(port as int, 2);
    bytes::law_be_round_trip(v4 as int, 4);
    bytes::law_be_round_trip(v6 as int, 16);
    let p = bytes::be(port as int, 2);
    let a = seq![0u8, 0u8, 0u8, 1u8] + bytes::be(v4 as int, 4) + p + data;
    assert(a.subrange(4, 8) =~= bytes::be(v4 as int, 4));
    assert(a.subrange(8, 10) =~= p);
    let b = seq![0u8, 0u8, 0u8, 4u8] + bytes::be(v6 as int, 16) + p + data;
    assert(b.subrange(4, 20) =~= bytes::be(v6 as int, 16));
    assert(b.subrange(20, 22) =~= p);
    let u = bytes::utf8(name);
    let n = u.len() as int;
    let c = seq![0u8, 0u8, 0u8, 3u8, n as u8] + u + p + data;
    assert(c[4] == n);
    assert(c.subrange(5, 5 + n) =~= u);
    assert(c.subrange(5 + n, 7 + n) =~= p);
    vstd::utf8::encode_utf8_valid_utf8(name);
    vstd::utf8::encode_utf8_decode_utf8(name);
}

/// The characters that write bytes are those of the usual alphabet, six bits each: three
/// bytes are four characters, and a rest of one or two bytes is filled up with equal signs.
pub proof fn law_base64_alphabet(b: Seq<u8>, rest: Seq<u8>)
    requires
        1 <= b.len() <= 3,
    ensures
        ({
            let abc = "ABCDEFGHIJKLMNOPQRSTUVWXYZabcdefghijklmnopqrstuvwxyz0123456789+/"@;
            let x = b[0] as int;
            let y = if b.len() > 1 {
                b[1] as int
            } else {
                0
            };
            let z = if b.len() > 2 {
                b[2] as int
            } else {
                0
            };
            b64(b) == seq![
                abc[x / 4],
                abc[x % 4 * 16 + y / 16],
                if b.len() > 1 {
                    abc[y % 16 * 4 + z / 64]
                } else {
                    '='
                },
                if b.len() > 2 {
                    abc[z % 64]
                } else {
                    '='
                },
            ]
        }),
        b.len() == 3 ==> b64(b + rest) == b64(b) + b64(rest),
        b64(Seq::<u8>::empty()) == Seq::<char>::empty(),
{
    let abc = "ABCDEFGHIJKLMNOPQRSTUVWXYZabcdefghijklmnopqrstuvwxyz0123456789+/"@;
    let x = b[0] as int;
    let y = if b.len() > 1 {
        b[1] as int
    } else {
        0
    };
    let z = if b.len() > 2 {
        b[2] as int
    } else {
        0
    };
    lemma_alphabet(x / 4);
    lemma_alphabet(x % 4 * 16 + y / 16);
    lemma_alphabet(y % 16 * 4 + z / 64);
    lemma_alphabet(z % 64);
    lemma_six_bits(x, y, z);
    assert(b64_group(b) == x * 0x1_0000 + y * 0x100 + z);
    if b.len() == 3 {
        assert((b + rest).take(3) =~= b);
        assert((b + rest).skip(3) =~= rest);
        if rest.len() == 0 {
            assert(b + rest =~= b);
            assert(b64(b) + b64(rest) =~= b64(b));
        }
    }
}

/// Three bytes, six bits at a time.
proof fn lemma_six_bits(x: int, y: int, z: int)
    requires
        0 <= x <= 255,
        0 <= y <= 255,
        0 <= z <= 255,
    ensures
        ({
            let n = x * 0x1_0000 + y * 0x100 + z;
            &&& n / 0x4_0000 == x / 4
            &&& n / 0x1000 % 64 == x % 4 * 16 + y / 16
            &&& n / 64 % 64 == y % 16 * 4 + z / 64
            &&& n % 64 == z % 64
        }),
{
    let n = x * 0x1_0000 + y * 0x100 + z;
    assert(n / 0x4_0000 == x / 4);
    assert(n / 0x1000 == x * 16 + y / 16);
    assert((x * 16 + y / 16) % 64 == x % 4 * 16 + y / 16);
    assert(n / 64 == x * 1024 + y * 4 + z / 64);
    assert((x * 1024 + y * 4 + z / 64) % 64 == y % 16 * 4 + z / 64);
}

/// The characters of the alphabet, by their number.
proof fn lemma_alphabet(v: int)
    requires
        0 <= v < 64,
    ensures
        b64_char(v)
            == "ABCDEFGHIJKLMNOPQRSTUVWXYZabcdefghijklmnopqrstuvwxyz0123456789+/"@[v],
{
    reveal_strlit("ABCDEFGHIJKLMNOPQRSTUVWXYZabcdefghijklmnopqrstuvwxyz0123456789+/");
}

/// The proxy of the local network listens on every address of the machine but those of the
/// machine alone, the empty one, and those that an interface gave itself.
pub proof fn law_addresses_listened_on(a: int, b: int, c: int, d: int)
    requires
        0 <= a <= 255,
        0 <= b <= 255,
        0 <= c <= 255,
        0 <= d <= 255,
    ensures
        listens_on((a * 0x100_0000 + b * 0x1_0000 + c * 0x100 + d) as u32) <==> !(a == 127 || (a
            == 169 && b == 254) || (a == 0 && b == 0 && c == 0 && d == 0)),
{
}

/// A packet from the client is passed on to whom it was sent, one from anybody else is left
/// alone, and the relay ends with the connection that asked for it, with time, or with a
/// failure.
pub proof fn law_a_relay_lives_with_its_client(peer: IpAddr, from: SocketAddr, n: usize)
    ensures
        from.ip == peer ==> assoc_next(peer, AssocEvent::Packet(from)) == AssocStep::Forward(from),
        from.ip != peer ==> assoc_next(peer, AssocEvent::Packet(from)) is Ignore,
        n == 0 <==> assoc_next(peer, AssocEvent::Control(n)) is End,
        n != 0 <==> assoc_next(peer, AssocEvent::Control(n)) is Ignore,
        assoc_next(peer, AssocEvent::Idle) is End,
        assoc_next(peer, AssocEvent::ControlFailed) is End,
        assoc_next(peer, AssocEvent::ReceiveFailed) is End,
        assoc_next(peer, AssocEvent::ForwardFailed) is End,
{
}

} // verus!
