//! Questions of the web about whether something outside can be reached.

use crate::addr::{IpAddr, SocketAddr};
use crate::inbound_proxy::HEALTHCHECK_PORT;
use crate::json;
use crate::json::{Json, Shape};
use crate::text;
use vstd::prelude::*;

verus! {

/// How many questions are looked into at a time.
pub const MAX_INFLIGHT: usize = 8;

/// What is answered where packets without a connection are off.
pub const UDP_OFF: &'static str = "{\"ok\":true,\"status\":200,\"body\":\"udp=0\",\"ms\":0}";

/// What is answered where the question was dropped.
pub const UDP_DROPPED: &'static str =
    "{\"ok\":true,\"status\":200,\"body\":\"udp=2\\nerr=probe task failed\",\"ms\":0}";

/// What became of packets without a connection.
#[derive(Debug)]
pub enum UdpOutcome {
    /// They came out, from this address and by way of this server.
    Egress { ip: String, via: String, ms: u64 },
    /// They got somewhere, but from which address is not known.
    Partial { via: String, err: String, ms: u64 },
    /// They did not.
    Failed { err: String, ms: u64 },
}

/// What is told of packets without a connection.
pub open spec fn udp_body(o: UdpOutcome) -> Seq<char> {
    match o {
        UdpOutcome::Egress { ip, via, .. } => "udp=1\nip="@ + ip@ + "\nvia="@ + via@,
        UdpOutcome::Partial { via, err, .. } => "udp=3\nerr=udp reachable ("@ + via@
            + "), egress probe blocked: "@ + err@,
        UdpOutcome::Failed { err, .. } => "udp=2\nerr="@ + err@,
    }
}

/// How long it took, in milliseconds.
pub open spec fn udp_ms(o: UdpOutcome) -> u64 {
    match o {
        UdpOutcome::Egress { ms, .. } => ms,
        UdpOutcome::Partial { ms, .. } => ms,
        UdpOutcome::Failed { ms, .. } => ms,
    }
}

/// The answer with a body: all went well, the status, the body, and how long it took.
pub open spec fn answer(body: Seq<char>, ms: u64) -> Shape {
    Shape::Object(
        seq![
            ("ok"@, Shape::Bool(true)),
            ("status"@, json::whole_shape(200)),
            ("body"@, Shape::Text(body)),
            ("ms"@, json::whole_shape(ms as int)),
        ],
    )
}

/// The answer about packets without a connection.
pub fn udp_answer(o: UdpOutcome) -> (r: Json)
    ensures
        r@ == answer(udp_body(o), udp_ms(o)),
{
    let mut body = String::new();
    let ms: u64 = match &o {
        UdpOutcome::Egress { ip, via, ms } => {
            body.append("udp=1\nip=");
            body.append(ip.as_str());
            body.append("\nvia=");
            body.append(via.as_str());
            *ms
        },
        UdpOutcome::Partial { via, err, ms } => {
            body.append("udp=3\nerr=udp reachable (");
            body.append(via.as_str());
            body.append("), egress probe blocked: ");
            body.append(err.as_str());
            *ms
        },
        UdpOutcome::Failed { err, ms } => {
            body.append("udp=2\nerr=");
            body.append(err.as_str());
            *ms
        },
    };
    assert(body@ =~= udp_body(o));
    let mut es: Vec<(String, Json)> = Vec::new();
    json::add_field(&mut es, "ok", Json::Bool(true));
    json::add_field(&mut es, "status", json::whole_of(200));
    json::add_field(&mut es, "body", Json::Text(body));
    json::add_field(&mut es, "ms", json::whole_of(ms));
    assert(json::entries(es@) =~= seq![
        ("ok"@, Shape::Bool(true)),
        ("status"@, json::whole_shape(200)),
        ("body"@, Shape::Text(udp_body(o))),
        ("ms"@, json::whole_shape(udp_ms(o) as int)),
    ]);
    Json::Object(es)
}

/// What is answered about packets without a connection; `outcome` is missing where
/// they are off and nothing was sent.
pub fn probe_udp(outcome: Option<UdpOutcome>) -> (r: String)
    ensures
        match outcome {
            Some(o) => r@ == json::json_text(answer(udp_body(o), udp_ms(o))),
            None => r@ == UDP_OFF@,
        },
{
    match outcome {
        Some(o) => {
            let j = udp_answer(o);
            json::write(&j)
        },
        None => UDP_OFF.to_owned(),
    }
}

/// Whether a question is about packets without a connection.
pub open spec fn about_udp(v: Option<Shape>) -> bool {
    match v {
        Some(j) => json::truth_at(j, "udp"@) == Some(true),
        None => false,
    }
}

/// Whether a question is about packets without a connection.
pub fn is_udp(v: &Json) -> (r: bool)
    ensures
        r == about_udp(Some(v@)),
{
    match v.bool_at("udp") {
        Some(b) => b,
        None => false,
    }
}

/// Whether a question is about packets without a connection; one that cannot be
/// read is not.
pub fn is_udp_req(req_json: &str) -> (r: bool)
    ensures
        r == about_udp(json::json_value(req_json@)),
{
    match json::parse(req_json) {
        Some(v) => is_udp(&v),
        None => false,
    }
}

/// The questions that are looked into.
#[derive(Debug, Clone, Copy)]
pub struct WebProbe {
    inflight: usize,
    udp_enabled: bool,
}

impl WebProbe {
    /// How many questions are looked into.
    pub closed spec fn busy(&self) -> int {
        self.inflight as int
    }

    /// Whether packets without a connection are on.
    pub closed spec fn udp(&self) -> bool {
        self.udp_enabled
    }

    /// Whether no more are looked into than may be.
    pub open spec fn wf(&self) -> bool {
        0 <= self.busy() <= MAX_INFLIGHT
    }

    /// No question is looked into yet.
    pub fn new(udp_enabled: bool) -> (r: WebProbe)
        ensures
            r.wf(),
            r.busy() == 0,
            r.udp() == udp_enabled,
    {
        WebProbe { inflight: 0, udp_enabled }
    }

    /// The proxy through which questions go: the gateway's own.
    pub fn proxy(&self) -> (r: String)
        ensures
            r@ == "socks5h://127.0.0.1:"@ + text::decimal(HEALTHCHECK_PORT as int),
    {
        let mut out = "socks5h://127.0.0.1:".to_owned();
        text::push_decimal(&mut out, HEALTHCHECK_PORT as u64);
        out
    }

    /// The address of that proxy.
    pub fn socks_addr(&self) -> (r: SocketAddr)
        ensures
            r == (SocketAddr { ip: IpAddr::V4(0x7f00_0001), port: HEALTHCHECK_PORT, scope: 0 }),
    {
        SocketAddr::new(IpAddr::V4(0x7f00_0001), HEALTHCHECK_PORT)
    }

    /// Whether packets without a connection are on.
    pub fn udp_enabled(&self) -> (r: bool)
        ensures
            r == self.udp(),
    {
        self.udp_enabled
    }

    /// How many questions are looked into.
    pub fn inflight(&self) -> (r: usize)
        ensures
            r == self.busy(),
    {
        self.inflight
    }

    /// Takes a question in, unless too many are looked into.
    pub fn acquire(&mut self) -> (r: bool)
        requires
            old(self).wf(),
        ensures
            final(self).wf(),
            r == (old(self).busy() < MAX_INFLIGHT),
            final(self).busy() == old(self).busy() + if r {
                1int
            } else {
                0
            },
            final(self).udp() == old(self).udp(),
    {
        if self.inflight < MAX_INFLIGHT {
            self.inflight = self.inflight + 1;
            true
        } else {
            false
        }
    }

    /// A question was answered.
    pub fn release(&mut self)
        requires
            old(self).wf(),
            old(self).busy() > 0,
        ensures
            final(self).wf(),
            final(self).busy() == old(self).busy() - 1,
            final(self).udp() == old(self).udp(),
    {
        self.inflight = self.inflight - 1;
    }
}

/// An outcome is told by its number: one with an address of its own, one that was only
/// reached, and one that failed. Each is told with its own words and its own time.
pub proof fn law_outcomes_are_told(ip: String, via: String, err: String, ms: u64)
    ensures
        ({
            let a = UdpOutcome::Egress { ip, via, ms };
            let b = UdpOutcome::Partial { via, err, ms };
            let c = UdpOutcome::Failed { err, ms };
            &&& udp_body(a) == "udp=1\nip="@ + ip@ + "\nvia="@ + via@
            &&& udp_body(b) == "udp=3\nerr=udp reachable ("@ + via@ + "), egress probe blocked: "@
                + err@
            &&& udp_body(c) == "udp=2\nerr="@ + err@
            &&& udp_ms(a) == ms && udp_ms(b) == ms && udp_ms(c) == ms
        }),
{
}

/// An answer is a success that holds its words and its time under their names.
pub proof fn law_answers_by_name(body: Seq<char>, ms: u64)
    ensures
        json::field(answer(body, ms), "ok"@) == Some(Shape::Bool(true)),
        json::field(answer(body, ms), "status"@) == Some(
            Shape::Number(text::decimal(200), Some(200)),
        ),
        json::field(answer(body, ms), "body"@) == Some(Shape::Text(body)),
        json::field(answer(body, ms), "ms"@) == Some(
            Shape::Number(text::decimal(ms as int), Some(ms)),
        ),
{
    reveal_strlit("ok");
    reveal_strlit("status");
    reveal_strlit("body");
    reveal_strlit("ms");
    assert("ok"@[0] == 'o' && "ms"@[0] == 'm' && "ok"@.len() == 2 && "ms"@.len() == 2);
    assert("status"@.len() == 6 && "body"@.len() == 4);
    let es = answer(body, ms)->Object_0;
    json::law_fields_by_their_keys(es, "ok"@, 0);
    json::law_fields_by_their_keys(es, "status"@, 1);
    json::law_fields_by_their_keys(es, "body"@, 2);
    json::law_fields_by_their_keys(es, "ms"@, 3);
}

/// A request is about UDP only where it says so.
pub proof fn law_requests_about_udp(v: Shape)
    ensures
        about_udp(Some(v)) <==> json::field(v, "udp"@) == Some(Shape::Bool(true)),
        !about_udp(None),
{
}

} // verus!
