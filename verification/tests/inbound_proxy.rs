use sniffbox::addr::{IpAddr, SocketAddr};
use sniffbox::inbound_proxy::{
    assoc_step, base64_encode, basic_auth_header_value, decide_http, decide_socks,
    decode_client_udp_header, dest_to_established, find_head_end, head_step, healthcheck_params,
    healthcheck_profile, lan_ipv4s, openport_profile, parse_http_proxy_request, route_packet,
    split_host_port, spoken, AssocEvent, AssocStep, DestAddr, HeadStep, HttpAction, HttpReqKind,
    PacketRoute, SocksAction, SocksCmd, Spoken,
};
use sniffbox::records::{inbound_type_str, InboundKind};

#[test]
fn base64_matches_known_vectors() {
    assert_eq!(base64_encode(b""), "");
    assert_eq!(base64_encode(b"f"), "Zg==");
    assert_eq!(base64_encode(b"fo"), "Zm8=");
    assert_eq!(base64_encode(b"foo"), "Zm9v");
    assert_eq!(base64_encode(b"foobar"), "Zm9vYmFy");
    assert_eq!(
        basic_auth_header_value("Aladdin", "open sesame"),
        "Basic QWxhZGRpbjpvcGVuIHNlc2FtZQ=="
    );
}

#[test]
fn split_host_port_variants() {
    assert_eq!(split_host_port("example.com:443", 80), Some(("example.com".into(), 443)));
    assert_eq!(split_host_port("example.com", 80), Some(("example.com".into(), 80)));
    assert_eq!(split_host_port("1.2.3.4:8080", 80), Some(("1.2.3.4".into(), 8080)));
    assert_eq!(split_host_port("[::1]:9000", 80), Some(("::1".into(), 9000)));
    assert_eq!(split_host_port("[::1]", 80), Some(("::1".into(), 80)));
}

#[test]
fn parse_connect_request() {
    let head = b"CONNECT example.com:443 HTTP/1.1\r\nHost: example.com:443\r\n\r\n";
    let p = parse_http_proxy_request(head).unwrap();
    match p.kind {
        HttpReqKind::Connect { host, port } => {
            assert_eq!(host, "example.com");
            assert_eq!(port, 443);
        }
        _ => panic!("expected connect"),
    }
}

#[test]
fn parse_absolute_uri_forward() {
    let head = b"GET http://example.com/path?x=1 HTTP/1.1\r\nHost: example.com\r\nProxy-Connection: keep-alive\r\nUser-Agent: t\r\n\r\n";
    let p = parse_http_proxy_request(head).unwrap();
    match p.kind {
        HttpReqKind::Forward { host, port, request } => {
            assert_eq!(host, "example.com");
            assert_eq!(port, 80);
            let s = String::from_utf8(request).unwrap();
            assert!(s.starts_with("GET /path?x=1 HTTP/1.1\r\n"), "got: {s:?}");
            assert!(s.contains("Host: example.com\r\n"));
            assert!(!s.to_ascii_lowercase().contains("proxy-connection"));
            assert!(s.ends_with("\r\n\r\n"));
        }
        _ => panic!("expected forward"),
    }
}

#[test]
fn parse_absolute_uri_with_explicit_port() {
    let head = b"GET http://example.com:8080/ HTTP/1.1\r\n\r\n";
    let p = parse_http_proxy_request(head).unwrap();
    match p.kind {
        HttpReqKind::Forward { host, port, request } => {
            assert_eq!((host.as_str(), port), ("example.com", 8080));
            let s = String::from_utf8(request).unwrap();
            assert!(s.contains("Host: example.com:8080\r\n"), "got: {s:?}");
        }
        _ => panic!("expected forward"),
    }
}

#[test]
fn parse_extracts_proxy_authorization() {
    let head = b"GET http://x.com/ HTTP/1.1\r\nProxy-Authorization: Basic abc\r\n\r\n";
    let p = parse_http_proxy_request(head).unwrap();
    assert_eq!(p.proxy_authorization.as_deref(), Some("Basic abc"));
}

#[test]
fn decode_client_udp_ipv4() {
    let frame = [0u8, 0, 0, 1, 1, 2, 3, 4, 0, 53, 0xAB, 0xCD];
    let (dst, host, off) = decode_client_udp_header(&frame).unwrap();
    assert_eq!(dst, SocketAddr::parse("1.2.3.4:53").unwrap());
    assert!(host.is_none());
    assert_eq!(off, 10);
    assert_eq!(&frame[off..], &[0xAB, 0xCD]);
}

#[test]
fn decode_client_udp_domain() {
    let host = b"example.com";
    let mut frame = vec![0u8, 0, 0, 3, host.len() as u8];
    frame.extend_from_slice(host);
    frame.extend_from_slice(&443u16.to_be_bytes());
    frame.extend_from_slice(b"data");
    let (dst, h, off) = decode_client_udp_header(&frame).unwrap();
    assert_eq!(dst.port, 443);
    assert_eq!(h.as_deref(), Some("example.com"));
    assert_eq!(&frame[off..], b"data");
}

#[test]
fn decode_client_udp_rejects_fragment() {
    let frame = [0u8, 0, 1, 1, 1, 2, 3, 4, 0, 53];
    assert!(decode_client_udp_header(&frame).is_none());
}

#[test]
fn a_head_that_is_no_request_is_refused() {
    assert!(parse_http_proxy_request(b"nonsense\r\n\r\n").is_none());
    assert!(parse_http_proxy_request(b"GET / HTTP/1.1\r\nHost: x\r\n").is_none());
    assert!(matches!(
        decide_http(None, &None, openport_profile()),
        HttpAction::BadRequest
    ));
}

#[test]
fn http_auth_is_asked_for_only_where_the_listener_says() {
    let head = b"CONNECT a.com:443 HTTP/1.1\r\n\r\n";
    let creds = Some(("u".to_string(), "p".to_string()));
    assert!(matches!(
        decide_http(parse_http_proxy_request(head), &creds, openport_profile()),
        HttpAction::AuthRequired
    ));
    assert!(matches!(
        decide_http(parse_http_proxy_request(head), &creds, healthcheck_profile()),
        HttpAction::Tunnel(_)
    ));
    let shown = format!(
        "CONNECT a.com:443 HTTP/1.1\r\nProxy-Authorization: {}\r\n\r\n",
        basic_auth_header_value("u", "p")
    );
    match decide_http(parse_http_proxy_request(shown.as_bytes()), &creds, openport_profile()) {
        HttpAction::Tunnel(e) => {
            assert_eq!(e.domain.as_deref(), Some("a.com"));
            assert_eq!(e.dest.port, 443);
        }
        other => panic!("{other:?}"),
    }
}

#[test]
fn first_byte_and_command_decide_the_protocol() {
    assert_eq!(spoken(Some(5)), Spoken::Socks5);
    assert_eq!(spoken(Some(b'G')), Spoken::Http);
    assert_eq!(spoken(None), Spoken::Nothing);
    assert_eq!(decide_socks(SocksCmd::Connect, false), SocksAction::Serve);
    assert_eq!(decide_socks(SocksCmd::UdpAssociate, false), SocksAction::Refuse);
    assert_eq!(decide_socks(SocksCmd::UdpAssociate, true), SocksAction::Associate);
    assert_eq!(decide_socks(SocksCmd::Other(2), true), SocksAction::Refuse);
}

#[test]
fn heads_end_at_the_blank_line() {
    assert_eq!(head_step(b"GET / HTTP/1.1\r\n"), HeadStep::More);
    assert_eq!(head_step(b"GET / HTTP/1.1\r\n\r\nrest"), HeadStep::Done);
    assert_eq!(find_head_end(b"GET / HTTP/1.1\r\n\r\nrest"), Some(18));
    assert_eq!(head_step(&vec![b'a'; 0x4001]), HeadStep::GiveUp);
}

#[test]
fn healthcheck_connections_have_their_own_kind() {
    let p = healthcheck_profile();
    assert!(matches!(p.socks5, InboundKind::HealthCheck));
    assert_eq!(inbound_type_str(p.http), inbound_type_str(InboundKind::HealthCheck));
    assert_ne!(inbound_type_str(p.http), inbound_type_str(InboundKind::Socks5));
}

#[test]
fn own_and_link_local_addresses_are_not_listened_on() {
    let v = lan_ipv4s(&[0xc0a8_0101, 0x0a0a_0a01, 0x7f00_0001, 0xa9fe_0101, 0, 0x0a0a_0a01]);
    assert_eq!(v, vec![0x0a0a_0a01, 0xc0a8_0101]);
    assert_eq!(IpAddr::V4(0x0a0a_0a01).text(), "10.10.10.1");
}

#[test]
fn a_relay_serves_its_client_until_it_leaves() {
    let peer = SocketAddr::parse("10.0.0.2:5000").unwrap();
    let own = SocketAddr::parse("10.0.0.2:6000").unwrap();
    let other = SocketAddr::parse("10.0.0.3:6000").unwrap();
    let step = |e: AssocEvent| assoc_step(peer.ip, e);
    assert_eq!(step(AssocEvent::Packet(own)), AssocStep::Forward(own));
    assert_eq!(step(AssocEvent::Packet(other)), AssocStep::Ignore);
    assert_eq!(step(AssocEvent::Control(1)), AssocStep::Ignore);
    assert_eq!(step(AssocEvent::Control(0)), AssocStep::End);
    for e in [
        AssocEvent::ReceiveFailed,
        AssocEvent::ForwardFailed,
        AssocEvent::ControlFailed,
        AssocEvent::Idle,
    ] {
        assert_eq!(step(e), AssocStep::End);
    }
}

#[test]
fn a_destination_is_an_address_or_a_name() {
    let addr = SocketAddr::parse("1.2.3.4:443").unwrap();
    let est = dest_to_established(DestAddr::Ip(addr), InboundKind::Socks5, true);
    assert_eq!(est.dest, addr);
    assert_eq!(est.domain, None);
    assert!(est.sniff && est.prelude.is_empty());
    let est = dest_to_established(DestAddr::Domain("a.com".into(), 80), InboundKind::Socks5, false);
    assert_eq!(est.dest, SocketAddr::parse("0.0.0.0:80").unwrap());
    assert_eq!(est.domain.as_deref(), Some("a.com"));
    assert!(!est.sniff);
}

#[test]
fn a_packet_goes_to_its_name_first() {
    let named = route_packet(Some("a.com".into()), true, Some("b.com".into()));
    assert!(matches!(named, PacketRoute::Name(n) if n == "a.com"));
    let given = route_packet(None, true, Some("b.com".into()));
    assert!(matches!(given, PacketRoute::Name(n) if n == "b.com"));
    assert!(matches!(route_packet(None, true, None), PacketRoute::Drop));
    assert!(matches!(route_packet(None, false, None), PacketRoute::Address));
}

#[test]
fn the_health_check_relays_no_datagrams() {
    let p = healthcheck_params();
    assert_eq!(p.listen_port, 1079);
    assert!(!p.udp);
    assert_eq!(p.udp_idle_sec, 60);
}
