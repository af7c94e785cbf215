//! Reports of connections: events as bytes, and packets that only the receiver can
//! open.

use crate::addr::{IpAddr, SocketAddr};
use crate::bytes;
use crate::config;
use crate::config::ReportCfg;
use crate::records::{InboundKind, RecordKind, SniffedProto, Transport};
use vstd::prelude::*;

verus! {

/// How a packet starts.
pub const MAGIC: [u8; 2] = [0x50, 0x4c];

pub const LEVEL_OPEN: u8 = 10;

pub const LEVEL_UPDATE: u8 = 11;

pub const LEVEL_CLOSE: u8 = 12;

pub const LEVEL_NODE: u8 = 13;

/// How many bytes of nodes a packet holds at most.
pub const NODE_LIMIT: usize = 1200;

/// Something that happened to connections.
#[derive(Debug)]
pub enum Event {
    Open {
        id: u64,
        ts_sec: u32,
        src: IpAddr,
        inbound: u8,
        transport: u8,
        sniff: u8,
        domain: Option<String>,
        head: Vec<u8>,
    },
    Update { id: u64, up: u64, down: u64 },
    Close { id: u64, up: u64, down: u64, dur_ms: u32, inbound: u8 },
    NodeDist { nodes: Vec<(String, u64, u64)> },
}

/// Who brought a connection in, as a number.
pub fn inbound_code(kind: RecordKind, inbound: InboundKind) -> (r: u8)
    ensures
        r == match kind {
            RecordKind::Internal => 3u8,
            RecordKind::Client => match inbound {
                InboundKind::TProxy => 0u8,
                InboundKind::Socks5 => 1,
                InboundKind::Http => 2,
                InboundKind::HealthCheck => 4,
                InboundKind::Clash(_) => 5,
            },
        },
{
    match kind {
        RecordKind::Internal => 3,
        RecordKind::Client => match inbound {
            InboundKind::TProxy => 0,
            InboundKind::Socks5 => 1,
            InboundKind::Http => 2,
            InboundKind::HealthCheck => 4,
            InboundKind::Clash(_) => 5,
        },
    }
}

/// What carries a connection, as a number.
pub fn transport_code(t: Transport) -> (r: u8)
    ensures
        r == match t {
            Transport::Tcp => 0u8,
            Transport::Udp => 1,
        },
{
    match t {
        Transport::Tcp => 0,
        Transport::Udp => 1,
    }
}

/// What a connection was found to be, as a number.
pub fn sniff_code(p: SniffedProto) -> (r: u8)
    ensures
        r == match p {
            SniffedProto::Unknown => 0u8,
            SniffedProto::Http => 1,
            SniffedProto::Tls => 2,
            SniffedProto::Quic => 3,
            SniffedProto::Bittorrent => 4,
            SniffedProto::Skipped => 5,
            SniffedProto::IpGroup(_) => 6,
            SniffedProto::FakeIp => 7,
            SniffedProto::RealIp => 8,
            SniffedProto::Socks5 => 9,
            SniffedProto::HttpProxy => 10,
        },
{
    match p {
        SniffedProto::Unknown => 0,
        SniffedProto::Http => 1,
        SniffedProto::Tls => 2,
        SniffedProto::Quic => 3,
        SniffedProto::Bittorrent => 4,
        SniffedProto::Skipped => 5,
        SniffedProto::IpGroup(_) => 6,
        SniffedProto::FakeIp => 7,
        SniffedProto::RealIp => 8,
        SniffedProto::Socks5 => 9,
        SniffedProto::HttpProxy => 10,
    }
}

/// A moment in seconds, in as many bits as an event has for it.
pub fn event_secs(epoch_ms: u64) -> (r: u32)
    ensures
        r == epoch_ms as int / 1000 % 0x1_0000_0000,
{
    (epoch_ms / 1000 % 0x1_0000_0000) as u32
}

/// A duration in milliseconds, cut off at what an event has room for.
pub fn event_duration(ms: u128) -> (r: u32)
    ensures
        r == config::min_of(ms as int, u32::MAX as int),
{
    if ms > u32::MAX as u128 {
        u32::MAX
    } else {
        ms as u32
    }
}

// ---------------------------------------------------------------------------
// Events as bytes
// ---------------------------------------------------------------------------

/// The first bytes of some bytes, at most `n`.
pub open spec fn prefix(b: Seq<u8>, n: int) -> Seq<u8> {
    b.take(config::min_of(b.len() as int, n))
}

/// Bytes with their number before them, at most `max`.
pub open spec fn counted(b: Seq<u8>, max: int) -> Seq<u8> {
    seq![config::min_of(b.len() as int, max) as u8] + prefix(b, max)
}

/// The bytes of an address.
pub open spec fn ip_bytes(ip: IpAddr) -> Seq<u8> {
    match ip {
        IpAddr::V4(a) => bytes::be(a as int, 4),
        IpAddr::V6(a) => bytes::be(a as int, 16),
    }
}

/// The bytes of a node: its name, and what went up and down through it.
pub open spec fn node_bytes(n: (String, u64, u64)) -> Seq<u8> {
    counted(bytes::utf8(n.0@), 255) + bytes::be(n.1 as int, 8) + bytes::be(n.2 as int, 8)
}

/// Whether a node fits behind `len` bytes.
pub open spec fn node_fits(len: int, n: (String, u64, u64)) -> bool {
    len + 1 + config::min_of(bytes::utf8(n.0@).len() as int, 255) + 16 <= NODE_LIMIT
}

/// How many nodes from node `i` on fit behind `len` bytes: those before the first
/// that does not.
pub open spec fn nodes_fitting(len: int, nodes: Seq<(String, u64, u64)>, i: int) -> int
    decreases nodes.len() - i,
{
    if i < 0 || i >= nodes.len() || !node_fits(len, nodes[i]) {
        0
    } else {
        1 + nodes_fitting(len + node_bytes(nodes[i]).len(), nodes, i + 1)
    }
}

/// The bytes of the nodes from node `i` on that fit behind `len` bytes.
pub open spec fn nodes_bytes(len: int, nodes: Seq<(String, u64, u64)>, i: int) -> Seq<u8>
    decreases nodes.len() - i,
{
    if i < 0 || i >= nodes.len() || !node_fits(len, nodes[i]) {
        seq![]
    } else {
        node_bytes(nodes[i]) + nodes_bytes(len + node_bytes(nodes[i]).len(), nodes, i + 1)
    }
}

/// The level of an event.
pub open spec fn event_level(ev: Event) -> u8 {
    match ev {
        Event::Open { .. } => LEVEL_OPEN,
        Event::Update { .. } => LEVEL_UPDATE,
        Event::Close { .. } => LEVEL_CLOSE,
        Event::NodeDist { .. } => LEVEL_NODE,
    }
}

/// What a buffer holds after an event was written behind what it held. The number
/// of nodes stands at the very start of the buffer.
pub open spec fn with_event(buf: Seq<u8>, ev: Event) -> Seq<u8> {
    match ev {
        Event::Open { id, ts_sec, src, inbound, transport, sniff, domain, head } => buf + (bytes::be(
            id as int,
            8,
        ) + bytes::be(ts_sec as int, 4) + seq![
            if src is V6 {
                1u8
            } else {
                0u8
            },
            inbound,
            transport,
            sniff,
        ] + ip_bytes(src) + counted(
            match domain {
                Some(d) => bytes::utf8(d@),
                None => seq![],
            },
            255,
        ) + counted(head@, 8)),
        Event::Update { id, up, down } => buf + (bytes::be(id as int, 8) + bytes::be(up as int, 8)
            + bytes::be(down as int, 8)),
        Event::Close { id, up, down, dur_ms, inbound } => buf + (bytes::be(id as int, 8)
            + bytes::be(up as int, 8) + bytes::be(down as int, 8) + bytes::be(dur_ms as int, 4)
            + seq![inbound]),
        Event::NodeDist { nodes } => {
            let len = buf.len() as int + 2;
            let count = nodes_fitting(len, nodes@, 0);
            (buf + seq![0u8, 0u8] + nodes_bytes(len, nodes@, 0)).update(
                0,
                (count / 256) as u8,
            ).update(1, (count % 256) as u8)
        },
    }
}

/// Appends bytes with their number before them.
fn push_counted(buf: &mut Vec<u8>, b: &[u8], max: usize)
    requires
        max <= 255,
    ensures
        final(buf)@ == old(buf)@ + counted(b@, max as int),
{
    let ghost start = buf@;
    let n: usize = if b.len() < max {
        b.len()
    } else {
        max
    };
    buf.push(n as u8);
    bytes::push_bytes(buf, vstd::slice::slice_subrange(b, 0, n));
    assert(buf@ =~= start + counted(b@, max as int));
}

/// Appends the bytes of an address.
fn push_ip(buf: &mut Vec<u8>, ip: IpAddr)
    ensures
        final(buf)@ == old(buf)@ + ip_bytes(ip),
{
    match ip {
        IpAddr::V4(a) => bytes::push_be(buf, a as u64, 4),
        IpAddr::V6(a) => {
            let ghost start = buf@;
            let hi: u64 = (a / 0x1_0000_0000_0000_0000) as u64;
            let lo: u64 = (a % 0x1_0000_0000_0000_0000) as u64;
            bytes::push_be(buf, hi, 8);
            bytes::push_be(buf, lo, 8);
            proof {
                lemma_be_halves(a as int);
                assert(buf@ =~= start + ip_bytes(ip));
            }
        },
    }
}

/// Sixteen bytes are eight and eight.
proof fn lemma_be_halves(a: int)
    requires
        a >= 0,
    ensures
        bytes::be(a, 16) == bytes::be(a / 0x1_0000_0000_0000_0000, 8) + bytes::be(
            a % 0x1_0000_0000_0000_0000,
            8,
        ),
{
    lemma_be_split(a, 8);
    assert(vstd::arithmetic::power::pow(256, 8) == 0x1_0000_0000_0000_0000) by {
        reveal_with_fuel(vstd::arithmetic::power::pow, 9);
    }
}

/// The last bytes of a number, and those before them.
proof fn lemma_be_split(a: int, k: nat)
    requires
        a >= 0,
    ensures
        vstd::arithmetic::power::pow(256, k) > 0,
        bytes::be(a, 8 + k) == bytes::be(a / vstd::arithmetic::power::pow(256, k), 8) + bytes::be(
            a % vstd::arithmetic::power::pow(256, k),
            k,
        ),
    decreases k,
{
    reveal(vstd::arithmetic::power::pow);
    if k == 0 {
        assert(bytes::be(a, 8) =~= bytes::be(a / 1, 8) + bytes::be(a % 1, 0));
    } else {
        let j = (k - 1) as nat;
        let p = vstd::arithmetic::power::pow(256, j);
        let q = vstd::arithmetic::power::pow(256, k);
        lemma_be_split(a / 256, j);
        assert(q == 256 * p);
        assert(a / 256 / p == a / q) by {
            vstd::arithmetic::div_mod::lemma_div_denominator(a, 256, p);
        }
        assert((a % q) / 256 == (a / 256) % p) by {
            vstd::arithmetic::div_mod::lemma_mod_breakdown(a, 256, p);
            vstd::arithmetic::div_mod::lemma_div_multiples_vanish_fancy(
                (a / 256) % p,
                a % 256,
                256,
            );
        }
        assert((a % q) % 256 == a % 256) by {
            vstd::arithmetic::div_mod::lemma_mod_breakdown(a, 256, p);
            vstd::arithmetic::div_mod::lemma_mod_multiples_vanish((a / 256) % p, a % 256, 256);
        }
        assert(bytes::be(a, 8 + k) == bytes::be(a / 256, 8 + j).push((a % 256) as u8));
        assert(bytes::be(a % q, k) == bytes::be((a % q) / 256, j).push(((a % q) % 256) as u8));
        assert(bytes::be(a, 8 + k) =~= bytes::be(a / q, 8) + bytes::be(a % q, k));
    }
}

/// A node takes as many bytes as it is measured by.
proof fn lemma_node_len(n: (String, u64, u64))
    ensures
        node_bytes(n).len() == 1 + config::min_of(bytes::utf8(n.0@).len() as int, 255) + 16,
{
    bytes::lemma_be_len(n.1 as int, 8);
    bytes::lemma_be_len(n.2 as int, 8);
}

/// Each node takes at least seventeen bytes.
proof fn lemma_nodes_bound(len: int, nodes: Seq<(String, u64, u64)>, i: int)
    requires
        0 <= len,
        0 <= i <= nodes.len(),
    ensures
        0 <= nodes_fitting(len, nodes, i),
        len <= NODE_LIMIT ==> len + 17 * nodes_fitting(len, nodes, i) <= NODE_LIMIT,
        len > NODE_LIMIT ==> nodes_fitting(len, nodes, i) == 0,
    decreases nodes.len() - i,
{
    if i < nodes.len() && node_fits(len, nodes[i]) {
        lemma_node_len(nodes[i]);
        lemma_nodes_bound(len + node_bytes(nodes[i]).len(), nodes, i + 1);
    }
}

/// Writes an event behind what a buffer holds, and gives its level.
pub fn encode_event(buf: &mut Vec<u8>, ev: &Event) -> (r: u8)
    ensures
        r == event_level(*ev),
        final(buf)@ == with_event(old(buf)@, *ev),
{
    let ghost start = buf@;
    match ev {
        Event::Open { id, ts_sec, src, inbound, transport, sniff, domain, head } => {
            bytes::push_be(buf, *id, 8);
            bytes::push_be(buf, *ts_sec as u64, 4);
            buf.push(
                match *src {
                    IpAddr::V4(_) => 0u8,
                    IpAddr::V6(_) => 1u8,
                },
            );
            buf.push(*inbound);
            buf.push(*transport);
            buf.push(*sniff);
            push_ip(buf, *src);
            match domain {
                Some(d) => push_counted(buf, d.as_str().as_bytes(), 255),
                None => {
                    let none: Vec<u8> = Vec::new();
                    push_counted(buf, none.as_slice(), 255);
                },
            }
            push_counted(buf, head.as_slice(), 8);
            assert(buf@ =~= with_event(start, *ev));
            LEVEL_OPEN
        },
        Event::Update { id, up, down } => {
            bytes::push_be(buf, *id, 8);
            bytes::push_be(buf, *up, 8);
            bytes::push_be(buf, *down, 8);
            assert(buf@ =~= with_event(start, *ev));
            LEVEL_UPDATE
        },
        Event::Close { id, up, down, dur_ms, inbound } => {
            bytes::push_be(buf, *id, 8);
            bytes::push_be(buf, *up, 8);
            bytes::push_be(buf, *down, 8);
            bytes::push_be(buf, *dur_ms as u64, 4);
            buf.push(*inbound);
            assert(buf@ =~= with_event(start, *ev));
            LEVEL_CLOSE
        },
        Event::NodeDist { nodes } => {
            buf.push(0);
            buf.push(0);
            let n = push_nodes(buf, nodes);
            proof {
                lemma_nodes_bound(start.len() as int + 2, nodes@, 0);
                assert(start.push(0).push(0) =~= start + seq![0u8, 0u8]);
            }
            buf.set(0, (n / 256) as u8);
            buf.set(1, (n % 256) as u8);
            LEVEL_NODE
        },
    }
}

/// Appends the nodes that fit, and counts them.
fn push_nodes(buf: &mut Vec<u8>, nodes: &Vec<(String, u64, u64)>) -> (r: u64)
    ensures
        r == nodes_fitting(old(buf)@.len() as int, nodes@, 0),
        r <= 100,
        final(buf)@ == old(buf)@ + nodes_bytes(old(buf)@.len() as int, nodes@, 0),
{
    let ghost start = buf@;
    let ghost count = nodes_fitting(start.len() as int, nodes@, 0);
    let ghost goal = start + nodes_bytes(start.len() as int, nodes@, 0);
    let mut n: u64 = 0;
    let mut i: usize = 0;
    proof {
        lemma_nodes_bound(start.len() as int, nodes@, 0);
    }
    while i < nodes.len()
        invariant
            i <= nodes@.len(),
            start == old(buf)@,
            n <= count <= 100,
            count == nodes_fitting(start.len() as int, nodes@, 0),
            goal == start + nodes_bytes(start.len() as int, nodes@, 0),
            count == n + nodes_fitting(buf@.len() as int, nodes@, i as int),
            buf@ + nodes_bytes(buf@.len() as int, nodes@, i as int) == goal,
        decreases nodes@.len() - i,
    {
        let name = nodes[i].0.as_str().as_bytes();
        let used: usize = if name.len() < 255 {
            name.len()
        } else {
            255
        };
        let len: usize = buf.len();
        if len > NODE_LIMIT || len + 1 + used + 16 > NODE_LIMIT {
            assert(!node_fits(buf@.len() as int, nodes@[i as int]));
            assert(buf@ + Seq::<u8>::empty() =~= buf@);
            return n;
        }
        let ghost before = buf@;
        let ghost node = node_bytes(nodes@[i as int]);
        let ghost rest = nodes_bytes((buf@.len() + node.len()) as int, nodes@, i + 1);
        proof {
            lemma_node_len(nodes@[i as int]);
            lemma_nodes_bound((buf@.len() + node.len()) as int, nodes@, i + 1);
        }
        push_counted(buf, name, 255);
        bytes::push_be(buf, nodes[i].1, 8);
        bytes::push_be(buf, nodes[i].2, 8);
        proof {
            assert(buf@ =~= before + node);
            assert(before + (node + rest) =~= buf@ + rest);
        }
        n = n + 1;
        i = i + 1;
    }
    assert(buf@ + Seq::<u8>::empty() =~= buf@);
    n
}

// ---------------------------------------------------------------------------
// Packets
// ---------------------------------------------------------------------------

/// What `Sha256::digest` of the crate `sha2` makes of bytes.
pub uninterp spec fn sha256(b: Seq<u8>) -> Seq<u8>;

/// `Sha256::digest` of the crate `sha2`. The digest is a function of the bytes and
/// has 32 bytes.
#[verifier::external_body]
fn sha256_digest(b: &[u8]) -> (r: Vec<u8>)
    ensures
        r@ == sha256(b@),
        r@.len() == 32,
{
    <sha2::Sha256 as sha2::Digest>::digest(b).to_vec()
}

/// What `encrypt` of the crate `chacha20poly1305` makes of a key, a nonce, a message
/// and the data that goes with it.
pub uninterp spec fn chacha_sealed(
    key: Seq<u8>,
    nonce: Seq<u8>,
    msg: Seq<u8>,
    aad: Seq<u8>,
) -> Seq<u8>;

/// `ChaCha20Poly1305::new_from_slice` and then `Aead::encrypt` of the crate
/// `chacha20poly1305`. The first fails on a key that has not 32 bytes. The cipher
/// counts blocks of 64 bytes in 32 bits and starts at the second one, so that the
/// second fails on a message that takes more than 2 to the 32 minus two of them. The
/// result is a function of the arguments, and is the message with a tag of 16 bytes
/// behind it in length.
#[verifier::external_body]
fn chacha_seal(key: &[u8], nonce: &[u8], msg: &[u8], aad: &[u8]) -> (r: Vec<u8>)
    requires
        key@.len() == 32,
        nonce@.len() == 12,
        msg@.len() <= 64 * 0xffff_fffe,
    ensures
        r@ == chacha_sealed(key@, nonce@, msg@, aad@),
        r@.len() == msg@.len() + 16,
{
    let c = <chacha20poly1305::ChaCha20Poly1305 as chacha20poly1305::KeyInit>::new_from_slice(
        key,
    ).unwrap();
    <chacha20poly1305::ChaCha20Poly1305 as chacha20poly1305::aead::Aead>::encrypt(
        &c,
        chacha20poly1305::Nonce::from_slice(nonce),
        chacha20poly1305::aead::Payload { msg, aad },
    ).unwrap()
}

/// What starts a packet: the mark, the first bytes of the key's digest, and the
/// nonce.
pub open spec fn header_bytes(hint: Seq<u8>, session: Seq<u8>, seq: u32) -> Seq<u8> {
    seq![0x50u8, 0x4c] + hint + nonce_bytes(session, seq)
}

/// The nonce of a packet: the session and the number of the packet.
pub open spec fn nonce_bytes(session: Seq<u8>, seq: u32) -> Seq<u8> {
    session + bytes::be(seq as int, 4) + seq![0u8, 0, 0, 0]
}

/// What a packet hides: its number, its level, the length of its contents in
/// sixteen bits, and the contents.
pub open spec fn plain_bytes(seq: u32, level: u8, payload: Seq<u8>) -> Seq<u8> {
    bytes::be(seq as int, 4) + seq![level] + bytes::be(payload.len() as int, 2) + payload
}

/// The key and the session of a reporter.
pub struct Crypto {
    key: Vec<u8>,
    session: [u8; 4],
}

impl Crypto {
    #[verifier::type_invariant]
    spec fn wf(&self) -> bool {
        self.key@.len() == 32
    }

    /// The key.
    pub closed spec fn key(&self) -> Seq<u8> {
        self.key@
    }

    /// The session.
    pub closed spec fn session(&self) -> Seq<u8> {
        self.session@
    }

    /// The key that an identifier gives, for a session.
    pub fn new(uuid: &[u8; 16], session: [u8; 4]) -> (r: Crypto)
        ensures
            r.key() == sha256(uuid@),
            r.session() == session@,
    {
        Crypto { key: sha256_digest(uuid.as_slice()), session }
    }

    /// The packet that hides an event.
    pub fn seal(&self, seq: u32, level: u8, payload: &[u8]) -> (r: Vec<u8>)
        requires
            payload@.len() + 7 <= 64 * 0xffff_fffe,
        ensures
            r@ == packet_bytes(self.key(), self.session(), seq, level, payload@),
    {
        proof {
            use_type_invariant(self);
        }
        let nonce = packet_nonce(&self.session, seq);
        let header = packet_header(self.key.as_slice(), &self.session, seq);
        let pt = packet_plain(seq, level, payload);
        proof {
            bytes::lemma_be_len(seq as int, 4);
            bytes::lemma_be_len(payload@.len() as int, 2);
        }
        let ct = chacha_seal(self.key.as_slice(), nonce.as_slice(), pt.as_slice(), header.as_slice());
        let mut pkt = header;
        bytes::push_bytes(&mut pkt, ct.as_slice());
        pkt
    }
}

/// The packet that hides an event: its header in the open, and the rest sealed with
/// the header as the data that goes with it.
pub open spec fn packet_bytes(
    key: Seq<u8>,
    session: Seq<u8>,
    seq: u32,
    level: u8,
    payload: Seq<u8>,
) -> Seq<u8> {
    let header = header_bytes(key.take(4), session, seq);
    header + chacha_sealed(
        key,
        nonce_bytes(session, seq),
        plain_bytes(seq, level, payload),
        header,
    )
}

/// The nonce of a packet.
pub fn packet_nonce(session: &[u8; 4], seq: u32) -> (r: Vec<u8>)
    ensures
        r@ == nonce_bytes(session@, seq),
        r@.len() == 12,
{
    let mut out: Vec<u8> = Vec::new();
    bytes::push_bytes(&mut out, session.as_slice());
    bytes::push_be(&mut out, seq as u64, 4);
    out.push(0);
    out.push(0);
    out.push(0);
    out.push(0);
    proof {
        bytes::lemma_be_len(seq as int, 4);
        assert(out@ =~= nonce_bytes(session@, seq));
    }
    out
}

/// What starts a packet.
pub fn packet_header(key: &[u8], session: &[u8; 4], seq: u32) -> (r: Vec<u8>)
    requires
        key@.len() >= 4,
    ensures
        r@ == header_bytes(key@.take(4), session@, seq),
        r@.len() == 18,
{
    let mut out: Vec<u8> = Vec::new();
    out.push(MAGIC[0]);
    out.push(MAGIC[1]);
    bytes::push_bytes(&mut out, vstd::slice::slice_subrange(key, 0, 4));
    let nonce = packet_nonce(session, seq);
    bytes::push_bytes(&mut out, nonce.as_slice());
    assert(out@ =~= header_bytes(key@.take(4), session@, seq));
    out
}

/// What a packet hides.
pub fn packet_plain(seq: u32, level: u8, payload: &[u8]) -> (r: Vec<u8>)
    ensures
        r@ == plain_bytes(seq, level, payload@),
{
    let mut out: Vec<u8> = Vec::new();
    bytes::push_be(&mut out, seq as u64, 4);
    out.push(level);
    bytes::push_be(&mut out, payload.len() as u64, 2);
    bytes::push_bytes(&mut out, payload);
    assert(out@ =~= plain_bytes(seq, level, payload@));
    out
}

/// The number of the packet that follows one.
pub fn next_seq(seq: u32) -> (r: u32)
    ensures
        r == (seq + 1) % 0x1_0000_0000,
{
    if seq == u32::MAX {
        0
    } else {
        seq + 1
    }
}

/// What becomes of reports.
#[derive(Debug, Clone, Copy)]
pub enum ReportPlan {
    /// They are sent.
    Send(SocketAddr, [u8; 16]),
    /// They would be, but there is no identifier to make a key from.
    NoKey,
    /// They are off.
    Off,
}

/// Decides what becomes of reports.
pub fn report_plan(r: &ReportCfg) -> (p: ReportPlan)
    ensures
        match p {
            ReportPlan::Send(a, u) => r.pplog == Some(a) && r.pplog_uuid == Some(u),
            ReportPlan::NoKey => r.pplog is Some && r.pplog_uuid is None,
            ReportPlan::Off => r.pplog is None,
        },
{
    match r.pplog {
        Some(a) => match r.pplog_uuid {
            Some(u) => ReportPlan::Send(a, u),
            None => ReportPlan::NoKey,
        },
        None => ReportPlan::Off,
    }
}

// ---------------------------------------------------------------------------
// Laws
// ---------------------------------------------------------------------------

/// Within a session no two packets with different numbers have one nonce.
pub proof fn law_nonces_differ(session: Seq<u8>, a: u32, b: u32)
    requires
        a != b,
    ensures
        nonce_bytes(session, a) != nonce_bytes(session, b),
{
    let n = nonce_bytes(session, a);
    let m = nonce_bytes(session, b);
    bytes::lemma_be_len(a as int, 4);
    bytes::lemma_be_len(b as int, 4);
    let k = session.len() as int;
    assert(n.subrange(k, k + 4) =~= bytes::be(a as int, 4));
    assert(m.subrange(k, k + 4) =~= bytes::be(b as int, 4));
    assert(vstd::arithmetic::power::pow(256, 4) == 0x1_0000_0000) by {
        reveal_with_fuel(vstd::arithmetic::power::pow, 5);
    }
    bytes::law_be_round_trip(a as int, 4);
    bytes::law_be_round_trip(b as int, 4);
}

/// The receiver finds the contents of a packet by their length: where they have
/// fewer than 2 to the 16 bytes, the length that stands before them is theirs, and
/// they end the packet.
pub proof fn law_contents_are_framed(seq: u32, level: u8, payload: Seq<u8>)
    requires
        payload.len() < 0x1_0000,
    ensures
        ({
            let p = plain_bytes(seq, level, payload);
            &&& p.len() == 7 + payload.len()
            &&& p[4] == level
            &&& bytes::be_value(p.subrange(5, 7)) == payload.len()
            &&& p.skip(7) == payload
        }),
{
    let p = plain_bytes(seq, level, payload);
    bytes::lemma_be_len(seq as int, 4);
    bytes::lemma_be_len(payload.len() as int, 2);
    assert(p.subrange(5, 7) =~= bytes::be(payload.len() as int, 2));
    assert(vstd::arithmetic::power::pow(256, 2) == 0x1_0000) by {
        reveal_with_fuel(vstd::arithmetic::power::pow, 3);
    }
    bytes::law_be_round_trip(payload.len() as int, 2);
    assert(p.skip(7) =~= payload);
}

/// A list of nodes written into an empty buffer never takes more room than a packet
/// has for it.
pub proof fn law_nodes_fit(nodes: Vec<(String, u64, u64)>)
    ensures
        with_event(seq![], Event::NodeDist { nodes }).len() <= NODE_LIMIT,
{
    lemma_nodes_total(2, nodes@, 0);
}

/// The nodes that fit behind some bytes end within the limit.
proof fn lemma_nodes_total(len: int, nodes: Seq<(String, u64, u64)>, i: int)
    requires
        0 <= len <= NODE_LIMIT,
        0 <= i <= nodes.len(),
    ensures
        len + nodes_bytes(len, nodes, i).len() <= NODE_LIMIT,
    decreases nodes.len() - i,
{
    if i < nodes.len() && node_fits(len, nodes[i]) {
        lemma_node_len(nodes[i]);
        lemma_nodes_total(len + node_bytes(nodes[i]).len(), nodes, i + 1);
    }
}

/// Numbers of one, two, four and eight bytes are read back from them.
proof fn lemma_be_read(n: int)
    ensures
        bytes::be(n, 2).len() == 2,
        bytes::be(n, 4).len() == 4,
        bytes::be(n, 8).len() == 8,
        bytes::be(n, 16).len() == 16,
        0 <= n < 0x1_0000 ==> bytes::be_value(bytes::be(n, 2)) == n,
        0 <= n < 0x1_0000_0000 ==> bytes::be_value(bytes::be(n, 4)) == n,
        0 <= n < 0x1_0000_0000_0000_0000 ==> bytes::be_value(bytes::be(n, 8)) == n,
        0 <= n <= u128::MAX ==> bytes::be_value(bytes::be(n, 16)) == n,
{
    bytes::lemma_be_len(n, 2);
    bytes::lemma_be_len(n, 4);
    bytes::lemma_be_len(n, 8);
    bytes::lemma_be_len(n, 16);
    assert(vstd::arithmetic::power::pow(256, 2) == 0x1_0000
        && vstd::arithmetic::power::pow(256, 4) == 0x1_0000_0000
        && vstd::arithmetic::power::pow(256, 8) == 0x1_0000_0000_0000_0000
        && vstd::arithmetic::power::pow(256, 16) == u128::MAX + 1) by {
        reveal_with_fuel(vstd::arithmetic::power::pow, 17);
    }
    if 0 <= n < 0x1_0000 {
        bytes::law_be_round_trip(n, 2);
    }
    if 0 <= n < 0x1_0000_0000 {
        bytes::law_be_round_trip(n, 4);
    }
    if 0 <= n < 0x1_0000_0000_0000_0000 {
        bytes::law_be_round_trip(n, 8);
    }
    if 0 <= n <= u128::MAX {
        bytes::law_be_round_trip(n, 16);
    }
}

/// The receiver reads the counters of a connection where it looks for them: behind what
/// the buffer held come the number of the connection, what went up, and what came down,
/// in eight bytes each. At its end there follow how long it lasted, in four bytes, and who
/// brought it in. What the buffer held stays.
pub proof fn law_counters_are_read_back(
    buf: Seq<u8>,
    id: u64,
    up: u64,
    down: u64,
    dur_ms: u32,
    inbound: u8,
)
    ensures
        ({
            let k = buf.len() as int;
            let u = with_event(buf, Event::Update { id, up, down });
            &&& u.len() == k + 24
            &&& u.take(k) == buf
            &&& bytes::be_value(u.subrange(k, k + 8)) == id
            &&& bytes::be_value(u.subrange(k + 8, k + 16)) == up
            &&& bytes::be_value(u.subrange(k + 16, k + 24)) == down
        }),
        ({
            let k = buf.len() as int;
            let c = with_event(buf, Event::Close { id, up, down, dur_ms, inbound });
            &&& c.len() == k + 29
            &&& c.take(k) == buf
            &&& bytes::be_value(c.subrange(k, k + 8)) == id
            &&& bytes::be_value(c.subrange(k + 8, k + 16)) == up
            &&& bytes::be_value(c.subrange(k + 16, k + 24)) == down
            &&& bytes::be_value(c.subrange(k + 24, k + 28)) == dur_ms
            &&& c[k + 28] == inbound
        }),
{
    let k = buf.len() as int;
    lemma_be_read(id as int);
    lemma_be_read(up as int);
    lemma_be_read(down as int);
    lemma_be_read(dur_ms as int);
    let u = with_event(buf, Event::Update { id, up, down });
    assert(u.take(k) =~= buf);
    assert(u.subrange(k, k + 8) =~= bytes::be(id as int, 8));
    assert(u.subrange(k + 8, k + 16) =~= bytes::be(up as int, 8));
    assert(u.subrange(k + 16, k + 24) =~= bytes::be(down as int, 8));
    let c = with_event(buf, Event::Close { id, up, down, dur_ms, inbound });
    assert(c.take(k) =~= buf);
    assert(c.subrange(k, k + 8) =~= bytes::be(id as int, 8));
    assert(c.subrange(k + 8, k + 16) =~= bytes::be(up as int, 8));
    assert(c.subrange(k + 16, k + 24) =~= bytes::be(down as int, 8));
    assert(c.subrange(k + 24, k + 28) =~= bytes::be(dur_ms as int, 4));
}

/// The receiver reads a new connection where it looks for it: its number, when it began,
/// one byte each for the kind of its address, who brought it in, what carries it and what
/// it was found to be, then its address, and then its name and its first bytes, each with
/// their length before them and cut off where there is no room.
pub proof fn law_a_new_connection_is_read_back(
    buf: Seq<u8>,
    id: u64,
    ts_sec: u32,
    src: IpAddr,
    inbound: u8,
    transport: u8,
    sniff: u8,
    domain: Option<String>,
    head: Vec<u8>,
)
    ensures
        ({
            let k = buf.len() as int;
            let o = with_event(
                buf,
                Event::Open { id, ts_sec, src, inbound, transport, sniff, domain, head },
            );
            let a = k + 16 + if src is V6 {
                16int
            } else {
                4int
            };
            let n = o[a] as int;
            let h = o[a + 1 + n] as int;
            &&& o.take(k) == buf
            &&& bytes::be_value(o.subrange(k, k + 8)) == id
            &&& bytes::be_value(o.subrange(k + 8, k + 12)) == ts_sec
            &&& o[k + 12] == if src is V6 {
                1u8
            } else {
                0u8
            }
            &&& o[k + 13] == inbound
            &&& o[k + 14] == transport
            &&& o[k + 15] == sniff
            &&& bytes::be_value(o.subrange(k + 16, a)) == match src {
                IpAddr::V4(x) => x as int,
                IpAddr::V6(x) => x as int,
            }
            &&& domain is None ==> n == 0
            &&& domain matches Some(d) ==> {
                let name = bytes::utf8(d@);
                &&& name.len() <= 255 ==> n == name.len()
                &&& name.len() > 255 ==> n == 255
                &&& o.subrange(a + 1, a + 1 + n) == name.take(n)
            }
            &&& head@.len() <= 8 ==> h == head@.len()
            &&& head@.len() > 8 ==> h == 8
            &&& o.subrange(a + 2 + n, a + 2 + n + h) == head@.take(h)
            &&& o.len() == a + 2 + n + h
        }),
{
    let k = buf.len() as int;
    let o = with_event(
        buf,
        Event::Open { id, ts_sec, src, inbound, transport, sniff, domain, head },
    );
    lemma_be_read(id as int);
    lemma_be_read(ts_sec as int);
    let w = match src {
        IpAddr::V4(x) => x as int,
        IpAddr::V6(x) => x as int,
    };
    lemma_be_read(w);
    let a = k + 16 + ip_bytes(src).len();
    let name = match domain {
        Some(d) => bytes::utf8(d@),
        None => seq![],
    };
    let n = config::min_of(name.len() as int, 255);
    let h = config::min_of(head@.len() as int, 8);
    assert(o.take(k) =~= buf);
    assert(o.subrange(k, k + 8) =~= bytes::be(id as int, 8));
    assert(o.subrange(k + 8, k + 12) =~= bytes::be(ts_sec as int, 4));
    assert(o.subrange(k + 16, a) =~= ip_bytes(src));
    assert(o[a] == n);
    assert(o.subrange(a + 1, a + 1 + n) =~= name.take(n));
    assert(o[a + 1 + n] == h);
    assert(o.subrange(a + 2 + n, a + 2 + n + h) =~= head@.take(h));
}

/// The receiver tells the kinds of events apart by their level.
pub proof fn law_levels_tell_events_apart(a: Event, b: Event)
    ensures
        event_level(a) == event_level(b) <==> (a is Open && b is Open) || (a is Update && b is Update)
            || (a is Close && b is Close) || (a is NodeDist && b is NodeDist),
        a is Open ==> event_level(a) == 10,
        a is Update ==> event_level(a) == 11,
        a is Close ==> event_level(a) == 12,
        a is NodeDist ==> event_level(a) == 13,
{
}

/// Reads nodes out of bytes: for each the length of its name, the name, and two numbers of
/// eight bytes.
pub open spec fn read_nodes(b: Seq<u8>, n: int) -> Seq<(Seq<u8>, int, int)>
    decreases n,
{
    if n <= 0 {
        seq![]
    } else {
        let k = 1 + b[0] as int;
        seq![
            (
                b.subrange(1, k),
                bytes::be_value(b.subrange(k, k + 8)),
                bytes::be_value(b.subrange(k + 8, k + 16)),
            ),
        ] + read_nodes(b.skip(k + 16), n - 1)
    }
}

/// The nodes that were written are read back.
proof fn lemma_nodes_read(len: int, nodes: Seq<(String, u64, u64)>, i: int)
    requires
        0 <= len,
        0 <= i <= nodes.len(),
    ensures
        ({
            let n = nodes_fitting(len, nodes, i);
            let b = nodes_bytes(len, nodes, i);
            let r = read_nodes(b, n);
            &&& 0 <= n <= nodes.len() - i
            &&& r.len() == n
            &&& forall|j: int|
                0 <= j < n ==> (#[trigger] r[j]) == (
                    prefix(bytes::utf8(nodes[i + j].0@), 255),
                    nodes[i + j].1 as int,
                    nodes[i + j].2 as int,
                )
            &&& i + n < nodes.len() ==> !node_fits(len + b.len(), nodes[i + n])
        }),
    decreases nodes.len() - i,
{
    if i < nodes.len() && node_fits(len, nodes[i]) {
        let x = node_bytes(nodes[i]);
        lemma_node_len(nodes[i]);
        lemma_nodes_read(len + x.len(), nodes, i + 1);
        lemma_be_read(nodes[i].1 as int);
        lemma_be_read(nodes[i].2 as int);
        let rest = nodes_bytes(len + x.len(), nodes, i + 1);
        let b = nodes_bytes(len, nodes, i);
        let name = prefix(bytes::utf8(nodes[i].0@), 255);
        let k = 1 + name.len() as int;
        assert(b == x + rest);
        assert(b[0] == name.len());
        assert(b.subrange(1, k) =~= name);
        assert(b.subrange(k, k + 8) =~= bytes::be(nodes[i].1 as int, 8));
        assert(b.subrange(k + 8, k + 16) =~= bytes::be(nodes[i].2 as int, 8));
        assert(b.skip(k + 16) =~= rest);
        let n = nodes_fitting(len, nodes, i);
        let r = read_nodes(b, n);
        let s = read_nodes(rest, n - 1);
        assert forall|j: int| 0 <= j < n implies (#[trigger] r[j]) == (
            prefix(bytes::utf8(nodes[i + j].0@), 255),
            nodes[i + j].1 as int,
            nodes[i + j].2 as int,
        ) by {
            if j > 0 {
                assert(r[j] == s[j - 1]);
                assert(nodes[i + 1 + (j - 1)] == nodes[i + j]);
            }
        }
    }
}

/// The receiver reads a list of nodes back: how many there are stands in two bytes, and
/// they are the first ones of the list, each with its name, what went up through it and
/// what came down. A node is left out only where it would take the packet past its limit.
pub proof fn law_nodes_are_read_back(nodes: Vec<(String, u64, u64)>)
    ensures
        ({
            let b = with_event(seq![], Event::NodeDist { nodes });
            let n = bytes::be_value(b.take(2));
            let r = read_nodes(b.skip(2), n);
            &&& r.len() == n <= nodes@.len()
            &&& forall|j: int|
                0 <= j < n ==> {
                    let name = bytes::utf8(nodes@[j].0@);
                    &&& (#[trigger] r[j]).0 == if name.len() <= 255 {
                        name
                    } else {
                        name.take(255)
                    }
                    &&& r[j].1 == nodes@[j].1
                    &&& r[j].2 == nodes@[j].2
                }
            &&& n < nodes@.len() ==> {
                let name = bytes::utf8(nodes@[n].0@);
                b.len() + 17 + if name.len() <= 255 {
                    name.len() as int
                } else {
                    255
                } > 1200
            }
        }),
{
    let b = with_event(seq![], Event::NodeDist { nodes });
    let n = nodes_fitting(2, nodes@, 0);
    lemma_nodes_read(2, nodes@, 0);
    lemma_nodes_bound(2, nodes@, 0);
    lemma_be_read(n);
    assert(bytes::be(n, 2) =~= seq![(n / 256) as u8, (n % 256) as u8]) by {
        assert(bytes::be(n, 2) == bytes::be(n / 256, 1).push((n % 256) as u8));
        assert(bytes::be(n / 256, 1) == bytes::be(n / 256 / 256, 0).push((n / 256 % 256) as u8));
    }
    assert(b.take(2) =~= bytes::be(n, 2));
    assert(b.skip(2) =~= nodes_bytes(2, nodes@, 0));
    assert forall|j: int| 0 <= j < n implies (#[trigger] read_nodes(b.skip(2), n)[j]).0 == if bytes::utf8(
        nodes@[j].0@,
    ).len() <= 255 {
        bytes::utf8(nodes@[j].0@)
    } else {
        bytes::utf8(nodes@[j].0@).take(255)
    } by {
        let name = bytes::utf8(nodes@[j].0@);
        assert(nodes@[0 + j] == nodes@[j]);
        assert(name.take(name.len() as int) =~= name);
    }
}

/// A packet starts in the open with its mark, the first bytes of the key, and the nonce: the
/// session, the number of the packet, and zeros. The rest is sealed under that nonce with
/// the start as the data that goes with it, and holds the number, the level and the
/// contents.
pub proof fn law_packet_layout(
    key: Seq<u8>,
    session: Seq<u8>,
    seq: u32,
    level: u8,
    payload: Seq<u8>,
)
    requires
        key.len() == 32,
        session.len() == 4,
    ensures
        ({
            let p = packet_bytes(key, session, seq, level, payload);
            &&& p.take(2) == seq![0x50u8, 0x4cu8]
            &&& p.subrange(2, 6) == key.take(4)
            &&& p.subrange(6, 10) == session
            &&& bytes::be_value(p.subrange(10, 14)) == seq
            &&& p.subrange(14, 18) == seq![0u8, 0u8, 0u8, 0u8]
            &&& p.skip(18) == chacha_sealed(
                key,
                p.subrange(6, 18),
                plain_bytes(seq, level, payload),
                p.take(18),
            )
            &&& bytes::be_value(plain_bytes(seq, level, payload).take(4)) == seq
            &&& plain_bytes(seq, level, payload)[4] == level
            &&& plain_bytes(seq, level, payload).skip(7) == payload
        }),
{
    let p = packet_bytes(key, session, seq, level, payload);
    lemma_be_read(seq as int);
    lemma_be_read(payload.len() as int);
    assert(p.take(2) =~= seq![0x50u8, 0x4cu8]);
    assert(p.subrange(2, 6) =~= key.take(4));
    assert(p.subrange(6, 10) =~= session);
    assert(p.subrange(10, 14) =~= bytes::be(seq as int, 4));
    assert(p.subrange(14, 18) =~= seq![0u8, 0u8, 0u8, 0u8]);
    assert(p.subrange(6, 18) =~= nonce_bytes(session, seq));
    assert(p.take(18) =~= header_bytes(key.take(4), session, seq));
    assert(p.skip(18) =~= chacha_sealed(
        key,
        nonce_bytes(session, seq),
        plain_bytes(seq, level, payload),
        header_bytes(key.take(4), session, seq),
    ));
    let q = plain_bytes(seq, level, payload);
    assert(q.take(4) =~= bytes::be(seq as int, 4));
    assert(q.skip(7) =~= payload);
}

} // verus!
