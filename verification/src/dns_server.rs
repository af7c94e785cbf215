//! How questions for names are answered.

use vstd::prelude::*;

verus! {

pub const CLASS_IN: u16 = 1;

pub const TYPE_A: u16 = 1;

pub const RCODE_FORMERR: u8 = 1;

pub const RCODE_NXDOMAIN: u8 = 3;

pub const RCODE_NOTIMP: u8 = 4;

/// How long is waited after a packet could not be received, in milliseconds.
pub const RECV_BACKOFF_MS: u64 = 50;

/// A question that could be read: its class, its type, and whether its name can have
/// an address of the gateway's own.
#[derive(Debug, Clone, Copy, PartialEq, Eq, Structural)]
pub struct Query {
    pub qclass: u16,
    pub qtype: u16,
    pub valid: bool,
}

/// How a question is answered.
#[derive(Debug, Clone, Copy, PartialEq, Eq, Structural)]
pub enum Reply {
    /// With an error.
    Error(u8),
    /// With an address of the gateway's own, which stands for the name.
    Address,
    /// With nothing.
    NoData,
}

/// How a question is answered. Only names that can have an address of the gateway's
/// own get one, and only where an address of the older family is asked for.
pub fn handle_query(query: Option<Query>) -> (r: Reply)
    ensures
        r == match query {
            None => Reply::Error(RCODE_FORMERR),
            Some(q) => if q.qclass != CLASS_IN {
                Reply::Error(RCODE_NOTIMP)
            } else if q.qtype != TYPE_A {
                Reply::NoData
            } else if !q.valid {
                Reply::Error(RCODE_NXDOMAIN)
            } else {
                Reply::Address
            },
        },
{
    match query {
        None => Reply::Error(RCODE_FORMERR),
        Some(q) => if q.qclass != CLASS_IN {
            Reply::Error(RCODE_NOTIMP)
        } else if q.qtype != TYPE_A {
            Reply::NoData
        } else if !q.valid {
            Reply::Error(RCODE_NXDOMAIN)
        } else {
            Reply::Address
        },
    }
}

} // verus!
