//! Connections as the gateway keeps them.

use crate::addr::IpAddr;
use vstd::prelude::*;

verus! {

/// How a connection came in.
#[derive(Debug, Clone, Copy)]
pub enum InboundKind {
    TProxy,
    Socks5,
    Http,
    HealthCheck,
    /// Through a listener of clash, with its label.
    Clash(&'static str),
}

/// Who a connection belongs to.
#[derive(Debug, Clone, Copy, PartialEq, Eq, Structural)]
pub enum RecordKind {
    /// A client of the gateway.
    Client,
    /// The gateway itself.
    Internal,
}

/// What carries a connection.
#[derive(Debug, Clone, Copy, PartialEq, Eq, Structural)]
pub enum Transport {
    Tcp,
    Udp,
}

/// What a connection was found to be.
#[derive(Debug, Clone, Copy)]
pub enum SniffedProto {
    Unknown,
    Http,
    Tls,
    Quic,
    Bittorrent,
    Skipped,
    /// An address of a known group, with its label.
    IpGroup(&'static str),
    FakeIp,
    RealIp,
    Socks5,
    HttpProxy,
}

/// The counters of a connection and what it is to the statistics.
#[derive(Debug, Clone, Copy, PartialEq, Eq, Structural)]
pub struct ConnSample {
    pub kind: RecordKind,
    pub transport: Transport,
    pub closed: bool,
    pub src: IpAddr,
    pub dst: IpAddr,
    pub upload: u64,
    pub download: u64,
    pub drained_up: u64,
    pub drained_down: u64,
}

impl Transport {
    /// The name of the transport.
    pub fn as_str(self) -> (r: &'static str)
        ensures
            r@ == match self {
                Transport::Tcp => "tcp"@,
                Transport::Udp => "udp"@,
            },
    {
        match self {
            Transport::Tcp => "tcp",
            Transport::Udp => "udp",
        }
    }
}

/// The name of the way that a connection came in.
pub open spec fn inbound_text(k: InboundKind) -> Seq<char> {
    match k {
        InboundKind::TProxy => "TProxy"@,
        InboundKind::Socks5 => "Socks5"@,
        InboundKind::Http => "HTTP"@,
        InboundKind::HealthCheck => "HealthCheck"@,
        InboundKind::Clash(label) => label@,
    }
}

/// The name of the way that a connection came in.
pub fn inbound_type_str(k: InboundKind) -> (r: &'static str)
    ensures
        r@ == inbound_text(k),
{
    match k {
        InboundKind::TProxy => "TProxy",
        InboundKind::Socks5 => "Socks5",
        InboundKind::Http => "HTTP",
        InboundKind::HealthCheck => "HealthCheck",
        InboundKind::Clash(label) => label,
    }
}

/// The type of a connection in listings.
pub fn conn_type(kind: RecordKind, inbound: InboundKind) -> (r: &'static str)
    ensures
        r@ == match kind {
            RecordKind::Internal => "Inner"@,
            RecordKind::Client => inbound_text(inbound),
        },
{
    match kind {
        RecordKind::Internal => "Inner",
        RecordKind::Client => inbound_type_str(inbound),
    }
}

/// The names of the ways in.
pub proof fn law_names_of_inbounds(label: &'static str)
    ensures
        inbound_text(InboundKind::TProxy) == "TProxy"@,
        inbound_text(InboundKind::Socks5) == "Socks5"@,
        inbound_text(InboundKind::Http) == "HTTP"@,
        inbound_text(InboundKind::HealthCheck) == "HealthCheck"@,
        inbound_text(InboundKind::Clash(label)) == label@,
{
}

} // verus!
