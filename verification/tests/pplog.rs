use chacha20poly1305::aead::{Aead, Payload};
use chacha20poly1305::{ChaCha20Poly1305, KeyInit, Nonce};
use sha2::{Digest, Sha256};
use sniffbox::addr::{IpAddr, SocketAddr};
use sniffbox::config::ReportCfg;
use sniffbox::records::{InboundKind, RecordKind, SniffedProto, Transport};
use sniffbox::pplog::{
    encode_event, event_duration, event_secs, inbound_code, next_seq, report_plan, sniff_code,
    transport_code, Crypto, Event, ReportPlan, LEVEL_CLOSE, LEVEL_NODE,
    LEVEL_OPEN, LEVEL_UPDATE, MAGIC,
};

const UUID: [u8; 16] = [
    0x99, 0x0c, 0x7c, 0x49, 0xdb, 0xb2, 0x47, 0x0b, 0xbb, 0x05, 0x2f, 0x82, 0x60, 0x28, 0x17, 0x59,
];

const SESSION: [u8; 4] = [1, 2, 3, 4];

fn open_packet(uuid: [u8; 16], pkt: &[u8]) -> (u8, Vec<u8>) {
    assert_eq!(&pkt[0..2], &MAGIC);
    let mut key = [0u8; 32];
    key.copy_from_slice(&Sha256::digest(uuid));
    assert_eq!(&pkt[2..6], &key[0..4], "KeyHint matches sha256(uuid)[0:4]");
    let cipher = ChaCha20Poly1305::new_from_slice(&key).unwrap();
    let header = &pkt[0..18];
    let nonce = &pkt[6..18];
    let pt = cipher
        .decrypt(Nonce::from_slice(nonce), Payload { msg: &pkt[18..], aad: header })
        .expect("decrypt");
    let level = pt[4];
    let plen = u16::from_be_bytes([pt[5], pt[6]]) as usize;
    (level, pt[7..7 + plen].to_vec())
}

#[test]
fn seal_roundtrip_and_keyhint() {
    let c = Crypto::new(&UUID, SESSION);
    let pkt = c.seal(7, LEVEL_OPEN, b"hello");
    let (lvl, payload) = open_packet(UUID, &pkt);
    assert_eq!(lvl, LEVEL_OPEN);
    assert_eq!(payload, b"hello");
}

#[test]
fn wrong_uuid_fails_decrypt() {
    let c = Crypto::new(&UUID, SESSION);
    let pkt = c.seal(0, LEVEL_OPEN, b"x");
    let mut bad = UUID;
    bad[0] ^= 0xff;
    let mut key = [0u8; 32];
    key.copy_from_slice(&Sha256::digest(bad));
    let cipher = ChaCha20Poly1305::new_from_slice(&key).unwrap();
    assert!(cipher
        .decrypt(Nonce::from_slice(&pkt[6..18]), Payload { msg: &pkt[18..], aad: &pkt[0..18] })
        .is_err());
}

#[test]
fn encode_open_fields() {
    let mut buf = Vec::new();
    let level = encode_event(
        &mut buf,
        &Event::Open {
            id: 0x0102030405060708,
            ts_sec: 0x11223344,
            src: IpAddr::parse("10.0.0.5").unwrap(),
            inbound: 0,
            transport: 0,
            sniff: 8,
            domain: Some("ex.com".into()),
            head: vec![0x2a, 0x31, 0x0d, 0x0a],
        },
    );
    assert_eq!(level, LEVEL_OPEN);
    assert_eq!(&buf[0..8], &0x0102030405060708u64.to_be_bytes());
    assert_eq!(&buf[8..12], &0x11223344u32.to_be_bytes());
    assert_eq!(buf[12], 0);
    assert_eq!(buf[13], 0);
    assert_eq!(buf[15], 8);
    assert_eq!(&buf[16..20], &[10, 0, 0, 5]);
    assert_eq!(buf[20], 6);
    assert_eq!(&buf[21..27], b"ex.com");
    assert_eq!(buf[27], 4);
    assert_eq!(&buf[28..32], &[0x2a, 0x31, 0x0d, 0x0a]);
}

#[test]
fn every_kind_of_event_has_its_level() {
    let mut buf = Vec::new();
    assert_eq!(encode_event(&mut buf, &Event::Update { id: 1, up: 2, down: 3 }), LEVEL_UPDATE);
    assert_eq!(&buf[0..8], &1u64.to_be_bytes());
    buf.clear();
    let close = Event::Close { id: 9, up: 2, down: 3, dur_ms: 4, inbound: 5 };
    assert_eq!(encode_event(&mut buf, &close), LEVEL_CLOSE);
    assert_eq!(&buf[0..8], &9u64.to_be_bytes());
    buf.clear();
    let nodes = Event::NodeDist { nodes: vec![("n".into(), 1, 2)] };
    assert_eq!(encode_event(&mut buf, &nodes), LEVEL_NODE);
}

#[test]
fn packets_of_a_session_differ_by_number() {
    let c = Crypto::new(&UUID, SESSION);
    let a = c.seal(1, LEVEL_OPEN, b"same");
    let b = c.seal(2, LEVEL_OPEN, b"same");
    assert_ne!(a[6..18], b[6..18]);
    assert_ne!(a[18..], b[18..]);
    assert_eq!(next_seq(u32::MAX), 0);
    assert_eq!(next_seq(7), 8);
}

#[test]
fn reports_need_an_address_and_a_key() {
    let a = SocketAddr::parse("10.10.10.200:9000").unwrap();
    let plan = |pplog, pplog_uuid| report_plan(&ReportCfg { pplog, pplog_uuid });
    assert!(matches!(plan(Some(a), Some(UUID)), ReportPlan::Send(x, u) if x == a && u == UUID));
    assert!(matches!(plan(Some(a), None), ReportPlan::NoKey));
    assert!(matches!(plan(None, Some(UUID)), ReportPlan::Off));
}

#[test]
fn reports_use_fixed_codes() {
    let kinds = [
        InboundKind::TProxy,
        InboundKind::Socks5,
        InboundKind::Http,
        InboundKind::HealthCheck,
        InboundKind::Clash("clash-socks"),
    ];
    let codes: Vec<u8> = kinds.iter().map(|k| inbound_code(RecordKind::Client, *k)).collect();
    assert_eq!(codes, [0, 1, 2, 4, 5]);
    assert_eq!(inbound_code(RecordKind::Internal, InboundKind::Http), 3);
    assert_eq!(transport_code(Transport::Tcp), 0);
    assert_eq!(transport_code(Transport::Udp), 1);
    let protos = [
        SniffedProto::Unknown,
        SniffedProto::Http,
        SniffedProto::Tls,
        SniffedProto::Quic,
        SniffedProto::Bittorrent,
        SniffedProto::Skipped,
        SniffedProto::IpGroup("telegram"),
        SniffedProto::FakeIp,
        SniffedProto::RealIp,
        SniffedProto::Socks5,
        SniffedProto::HttpProxy,
    ];
    let codes: Vec<u8> = protos.iter().map(|p| sniff_code(*p)).collect();
    assert_eq!(codes, [0, 1, 2, 3, 4, 5, 6, 7, 8, 9, 10]);
}

#[test]
fn times_in_reports_fit_four_bytes() {
    assert_eq!(event_secs(1_700_000_000_999), 1_700_000_000);
    assert_eq!(event_secs(4_294_967_296_000), 0);
    assert_eq!(event_duration(1500), 1500);
    assert_eq!(event_duration(u128::from(u32::MAX) + 1), u32::MAX);
}
