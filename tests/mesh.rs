use bytes::{Bytes, BytesMut};
use rtp::endpoint::{endpoint_to_text, parse_endpoint, Endpoint};
use rtp::kinds::{ErrorKind, StreamType};
use rtp::mesh::{Join, Mesh};
use rtp::peers::PeerManager;
use rtp::playout::{PlayoutAdmission, PlayoutBuffer};
use rtp::receiver::MediaReceiver;
use rtp::rtp::RtpSession;
use rtp::h264::get_fragments;
use rtp::signaling::SessionConfig;
use rtp::wire::{build_request, build_response, parse_request, parse_response};

fn ep(text: &str) -> Endpoint {
    parse_endpoint(text.as_bytes()).expect("endpoint")
}

const SPS: [u8; 4] = [0x67, 0x42, 0x00, 0x1E];
const PPS: [u8; 4] = [0x68, 0xCE, 0x3C, 0x80];

fn node(media: &str) -> Mesh {
    let mut m = Mesh::new();
    m.set_local_h264(Bytes::from_static(&SPS), Bytes::from_static(&PPS)).unwrap();
    m.init_stream(StreamType::Video, ep(media)).unwrap();
    m
}

#[test]
fn endpoint_text_round_trip() {
    let e = ep("127.0.0.1:50001");
    assert_eq!(e, Endpoint { ip: 0x7F000001, port: 50001 });
    assert_eq!(endpoint_to_text(&e), b"127.0.0.1:50001".to_vec());
    let z = Endpoint { ip: 0, port: 0 };
    assert_eq!(endpoint_to_text(&z), b"0.0.0.0:0".to_vec());
    assert_eq!(parse_endpoint(b"255.255.255.255:65535"), Some(Endpoint { ip: u32::MAX, port: 65535 }));
}

#[test]
fn endpoint_parse_rejects_non_canonical_text() {
    for bad in [
        "127.0.0.01:1", "1.2.3:4", "256.1.1.1:1", "1.2.3.4:65536", "1.2.3.4:", "1.2.3.4", ":1",
        "1.2.3.4:5 ", " 1.2.3.4:5", "1.2.3.4:05", "a.b.c.d:1", "",
    ] {
        assert_eq!(parse_endpoint(bad.as_bytes()), None, "{:?}", bad);
    }
}

#[test]
fn request_round_trip() {
    let b = build_request(StreamType::Video, &ep("127.0.0.1:50002"), &ep("127.0.0.1:60002"), &SPS, &PPS)
        .unwrap();
    let mut expected = b"video\r\n127.0.0.1:50002\r\n127.0.0.1:60002\r\n".to_vec();
    expected.extend_from_slice(&SPS);
    expected.extend_from_slice(b"\r\n");
    expected.extend_from_slice(&PPS);
    expected.extend_from_slice(b"\r\n\r\n");
    assert_eq!(b, expected);
    let q = parse_request(&b).unwrap();
    assert_eq!(q.kind, StreamType::Video);
    assert_eq!(q.signaling_addr, ep("127.0.0.1:50002"));
    assert_eq!(q.media_addr, ep("127.0.0.1:60002"));
    assert_eq!(q.sps, SPS.to_vec());
    assert_eq!(q.pps, PPS.to_vec());
}

#[test]
fn audio_request_carries_no_codec_lines() {
    let b = build_request(StreamType::Audio, &ep("10.0.0.1:1"), &ep("10.0.0.1:2"), &[], &[]).unwrap();
    assert_eq!(b, b"audio\r\n10.0.0.1:1\r\n10.0.0.1:2\r\n\r\n".to_vec());
    let q = parse_request(&b).unwrap();
    assert_eq!(q.kind, StreamType::Audio);
    assert!(q.sps.is_empty() && q.pps.is_empty());
}

#[test]
fn request_with_unknown_kind_is_invalid() {
    let r = parse_request(b"videos\r\n127.0.0.1:1\r\n127.0.0.1:2\r\nA\r\nB\r\n\r\n");
    assert_eq!(r.err(), Some(ErrorKind::InvalidData));
    let r = parse_request(b"hello\r\n127.0.0.1:1\r\n127.0.0.1:2\r\n\r\n");
    assert_eq!(r.err(), Some(ErrorKind::InvalidData));
}

#[test]
fn malformed_requests_are_invalid() {
    for bad in [
        &b""[..],
        b"video\r\n127.0.0.1:1\r\n127.0.0.1:2\r\nA\r\nB\r\n",
        b"video\r\n127.0.0.1:1\r\n127.0.0.1:2\r\n\r\nB\r\n\r\n",
        b"video\n127.0.0.1:1\r\n127.0.0.1:2\r\nA\r\nB\r\n\r\n",
        b"video\r\n127.0.0.1:1\r\n127.0.0.1:2\r\nA\rx\r\nB\r\n\r\n",
        b"video\r\n127.0.0.1:1\r\n127.0.0.1:2\r\nA\r\nB\r\n\r\nextra",
        b"audio\r\n127.0.0.1:1\r\n127.0.0.1:2\r\nA\r\nB\r\n\r\n",
    ] {
        assert_eq!(parse_request(bad).err(), Some(ErrorKind::InvalidData));
    }
}

#[test]
fn codec_bytes_with_line_breaks_are_refused() {
    let r = build_request(StreamType::Video, &ep("1.1.1.1:1"), &ep("1.1.1.1:2"), &[0x67, 0x0D], &PPS);
    assert_eq!(r.err(), Some(ErrorKind::InvalidData));
    let r = build_response(StreamType::Video, &ep("1.1.1.1:2"), &SPS, &[0x0A], &[]);
    assert_eq!(r.err(), Some(ErrorKind::InvalidData));
    let mut c = SessionConfig::new();
    assert_eq!(c.get_local_h264().err(), Some(ErrorKind::NotReady));
    assert_eq!(c.set_local_h264(Bytes::from_static(&[0x67, 0x0A]), Bytes::from_static(&PPS)), Err(ErrorKind::InvalidData));
    assert_eq!(c.set_local_h264(Bytes::from_static(&SPS), Bytes::from_static(&PPS)), Ok(()));
    assert_eq!(c.set_local_h264(Bytes::from_static(&SPS), Bytes::from_static(&PPS)), Err(ErrorKind::AlreadyInitialized));
    let p = c.get_local_h264().unwrap();
    assert_eq!(p.sps_bytes(), &SPS);
    assert_eq!(p.pps_bytes(), &PPS);
}

#[test]
fn response_round_trip_with_peers() {
    let peers = vec![ep("127.0.0.1:50003"), ep("10.1.2.3:7")];
    let b = build_response(StreamType::Video, &ep("127.0.0.1:60001"), &SPS, &PPS, &peers).unwrap();
    let mut expected = b"video\r\n127.0.0.1:60001\r\n".to_vec();
    expected.extend_from_slice(&SPS);
    expected.extend_from_slice(b"\r\n");
    expected.extend_from_slice(&PPS);
    expected.extend_from_slice(b"\r\n127.0.0.1:50003\r\n10.1.2.3:7\r\n\r\n");
    assert_eq!(b, expected);
    let r = parse_response(&b).unwrap();
    assert_eq!(r.kind, StreamType::Video);
    assert_eq!(r.media_addr, ep("127.0.0.1:60001"));
    assert_eq!(r.sps, SPS.to_vec());
    assert_eq!(r.pps, PPS.to_vec());
    assert_eq!(r.peers, peers);
    let bad = b"video\r\n127.0.0.1:60001\r\nA\r\nB\r\nnot-an-address\r\n\r\n";
    assert_eq!(parse_response(bad).err(), Some(ErrorKind::InvalidData));
}

#[test]
fn peer_registry_add_is_idempotent_and_skips_local() {
    let local = ep("127.0.0.1:60001");
    let mut p = PeerManager::new(local);
    assert!(!p.add_peer(local));
    assert!(p.add_peer(ep("127.0.0.1:60002")));
    assert!(!p.add_peer(ep("127.0.0.1:60002")));
    assert!(p.add_peer(ep("127.0.0.1:60003")));
    assert_eq!(p.get_peers(), vec![ep("127.0.0.1:60002"), ep("127.0.0.1:60003")]);
    assert_eq!(p.len(), 2);
    assert_eq!(p.local_addr(), local);
}

#[test]
fn signaling_before_configuration_is_not_ready() {
    let mut m = Mesh::new();
    let req = build_request(StreamType::Video, &ep("127.0.0.1:50002"), &ep("127.0.0.1:60002"), &SPS, &PPS).unwrap();
    assert_eq!(m.handle_signaling_client(&req).err(), Some(ErrorKind::NotReady));
    m.set_local_h264(Bytes::from_static(&SPS), Bytes::from_static(&PPS)).unwrap();
    assert_eq!(m.handle_signaling_client(&req).err(), Some(ErrorKind::NotReady));
    assert_eq!(m.handle_signaling_client(b"bogus\r\n\r\n").err(), Some(ErrorKind::InvalidData));
    assert_eq!(m.init_stream(StreamType::Video, ep("127.0.0.1:60001")), Ok(()));
    assert_eq!(m.init_stream(StreamType::Video, ep("127.0.0.1:60001")), Err(ErrorKind::AlreadyInitialized));
    assert!(m.handle_signaling_client(&req).is_ok());
}

#[test]
fn two_node_video_join() {
    let a_sig = ep("127.0.0.1:50001");
    let b_sig = ep("127.0.0.1:50002");
    let mut a = node("127.0.0.1:60001");
    let mut b = node("127.0.0.1:60002");

    let mut join = Join::new(StreamType::Video, a_sig, b_sig);
    assert_eq!(join.next_target(), Some(a_sig));
    let request = b.connect_request(StreamType::Video, &b_sig).unwrap();
    let response = a.handle_signaling_client(&request).unwrap();
    assert_eq!(join.on_response(&mut b, &response), Ok(()));
    assert_eq!(join.next_target(), None);

    assert_eq!(a.media_peers(StreamType::Video).unwrap(), vec![ep("127.0.0.1:60002")]);
    assert_eq!(b.media_peers(StreamType::Video).unwrap(), vec![ep("127.0.0.1:60001")]);
    assert_eq!(a.media_peers(StreamType::Audio), None);
    assert_eq!(a.signaling_peers().unwrap(), vec![b_sig]);
    assert_eq!(b.signaling_peers().unwrap(), vec![a_sig]);

    // A third node joins through A and reaches B through A's list.
    let c_sig = ep("127.0.0.1:50003");
    let mut c = node("127.0.0.1:60003");
    let mut join = Join::new(StreamType::Video, a_sig, c_sig);
    let request = c.connect_request(StreamType::Video, &c_sig).unwrap();
    let response = a.handle_signaling_client(&request).unwrap();
    assert_eq!(join.on_response(&mut c, &response), Ok(()));
    assert_eq!(join.next_target(), Some(b_sig));
    let response = b.handle_signaling_client(&request).unwrap();
    assert_eq!(join.on_response(&mut c, &response), Ok(()));
    assert_eq!(join.next_target(), None);
    let mut cm = c.media_peers(StreamType::Video).unwrap();
    cm.sort_by_key(|e| e.port);
    assert_eq!(cm, vec![ep("127.0.0.1:60001"), ep("127.0.0.1:60002")]);
    let mut cs = c.signaling_peers().unwrap();
    cs.sort_by_key(|e| e.port);
    assert_eq!(cs, vec![a_sig, b_sig]);
    let mut bm = b.media_peers(StreamType::Video).unwrap();
    bm.sort_by_key(|e| e.port);
    assert_eq!(bm, vec![ep("127.0.0.1:60001"), ep("127.0.0.1:60003")]);
}

#[test]
fn join_ends_when_bootstrap_fails() {
    let mut j = Join::new(StreamType::Video, ep("1.1.1.1:1"), ep("2.2.2.2:2"));
    j.on_failure();
    assert_eq!(j.next_target(), None);
    let mut m = node("2.2.2.2:3");
    let mut j = Join::new(StreamType::Video, ep("1.1.1.1:1"), ep("2.2.2.2:2"));
    assert_eq!(j.on_response(&mut m, b"garbage"), Err(ErrorKind::InvalidData));
    assert_eq!(j.next_target(), None);
}

#[test]
fn receiver_adds_an_unseen_source() {
    let mut d = node("127.0.0.1:60004");
    let c = ep("127.0.0.1:60005");
    assert!(d.add_media_peer(StreamType::Video, c));
    assert!(!d.add_media_peer(StreamType::Video, c));
    assert_eq!(d.media_peers(StreamType::Video).unwrap(), vec![c]);
    assert!(!d.add_media_peer(StreamType::Audio, c));
}

#[test]
fn playout_orders_by_deadline_then_timestamp() {
    let mut p = PlayoutBuffer::new(6000, false);
    assert!(matches!(p.insert(100, 30, Bytes::from_static(b"c"), 0), PlayoutAdmission::Queued));
    assert!(matches!(p.insert(50, 20, Bytes::from_static(b"a"), 0), PlayoutAdmission::Queued));
    assert!(matches!(p.insert(100, 10, Bytes::from_static(b"b"), 0), PlayoutAdmission::Queued));
    assert!(matches!(p.insert(100, 10, Bytes::from_static(b"b2"), 0), PlayoutAdmission::Queued));
    assert_eq!(p.next_deadline(), Some(6050));
    assert!(p.pop_due(6049).is_none());
    let order: Vec<Vec<u8>> = (0..4).map(|_| p.pop_due(10_000).unwrap().coded_data.to_vec()).collect();
    assert_eq!(order, vec![b"a".to_vec(), b"b".to_vec(), b"b2".to_vec(), b"c".to_vec()]);
    assert!(p.pop_due(10_000).is_none());
}

#[test]
fn late_units_are_dropped_or_delivered() {
    let mut p = PlayoutBuffer::new(10, false);
    assert!(matches!(p.insert(0, 1, Bytes::from_static(b"x"), 11), PlayoutAdmission::Dropped));
    assert_eq!(p.dropped(), 1);
    assert_eq!(p.len(), 0);
    let mut q = PlayoutBuffer::new(10, true);
    match q.insert(0, 1, Bytes::from_static(b"x"), 11) {
        PlayoutAdmission::DeliverNow(n) => {
            assert_eq!(n.playout_time, 10);
            assert_eq!(n.coded_data.to_vec(), b"x".to_vec());
        }
        _ => panic!("expected immediate delivery"),
    }
    assert!(matches!(q.insert(0, 1, Bytes::from_static(b"y"), 10), PlayoutAdmission::Queued));
}

#[test]
fn receiver_stages_completed_units_for_playout() {
    let mut r = MediaReceiver::new(6000, false);
    let mut s = RtpSession::new(3, 0);
    let nal = vec![0x65u8; 1500];
    let packets = get_fragments(&nal, &mut s, true);
    assert_eq!(packets.len(), 2);
    assert!(r.on_datagram(BytesMut::from(&packets[0][..]), 1000, 1000).is_none());
    let got = r.on_datagram(BytesMut::from(&packets[1][..]), 1000, 1000);
    assert!(matches!(got, Some(PlayoutAdmission::Queued)));
    let node = r.playout.pop_due(7000).unwrap();
    assert_eq!(node.coded_data.to_vec(), nal);
    assert_eq!(node.playout_time, 7000);
    assert!(r.on_datagram(BytesMut::from(&[0x80u8, 0x60, 0][..]), 0, 0).is_none());
    assert!(r.on_datagram(BytesMut::from(&[0x81u8, 0x60, 0, 0, 0, 0, 0, 0, 0, 0, 0, 0][..]), 0, 0).is_none());
}
