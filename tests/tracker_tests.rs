use bittorrent::metainfo::parse_metainfo;
use bittorrent::tracker::{
    check_tracker, connect_request, http_request_for, parse_compact_peers, parse_connect_response,
    udp_tracker_address, Action, AnnounceRequest, AnnounceResponse, Event, HTTPResponse, Peer,
    ScrapeRequest, ScrapeResponse, ScrapeSubresponse, ToUrl, TrackerKind, TrackerRequest,
    TrackerResponse, UdpAnnounce, UdpPhase, UdpStep,
};
use bittorrent::wire::{FromByte, ToByte};
use bittorrent::Error;

#[test]
fn compact_peer_parse() {
    let b = [0x0A, 0x00, 0x00, 0x01, 0x1A, 0xE1, 0xC0, 0xA8, 0x01, 0x02, 0x1A, 0xE1];
    let peers = parse_compact_peers(&b).unwrap();
    assert_eq!(peers.len(), 2);
    assert_eq!(peers[0].ip, [10, 0, 0, 1]);
    assert_eq!(peers[0].port, 6881);
    assert_eq!(peers[1].ip, [192, 168, 1, 2]);
    assert_eq!(peers[1].port, 6881);
}

#[test]
fn compact_peer_count_and_order() {
    let mut b = Vec::new();
    for k in 0..5u8 {
        b.extend_from_slice(&[k, k, k, k, 0, k]);
    }
    let peers = parse_compact_peers(&b).unwrap();
    assert_eq!(peers.len(), 5);
    for (k, p) in peers.iter().enumerate() {
        assert_eq!(p.ip, [k as u8; 4]);
        assert_eq!(p.port, k as u16);
    }
    assert!(parse_compact_peers(&b[..7]).is_none());
    assert_eq!(parse_compact_peers(&[]).unwrap().len(), 0);
}

#[test]
fn peer_from_bytes() {
    let p = Peer::from_be_bytes(&[1, 2, 3, 4, 0x1f, 0x90]).unwrap();
    assert_eq!(p.ip, [1, 2, 3, 4]);
    assert_eq!(p.port, 8080);
    assert!(Peer::from_be_bytes(&[1, 2, 3]).is_none());
}

#[test]
fn udp_connect_handshake() {
    let txid: u32 = 0xdeadbeef;
    let req = connect_request(txid);
    assert_eq!(req, vec![0x00, 0x00, 0x04, 0x17, 0x27, 0x10, 0x19, 0x80, 0, 0, 0, 0, 0xde, 0xad, 0xbe, 0xef]);
    let mut u = UdpAnnounce::new([1; 20], [2; 20], 30000, Event::Empty, 7, -1, 6969, txid);
    let mut resp = vec![0, 0, 0, 0, 0xde, 0xad, 0xbe, 0xef];
    resp.extend_from_slice(&[0x11, 0x22, 0x33, 0x44, 0x55, 0x66, 0x77, 0x88]);
    match u.on_datagram(&resp) {
        Ok(UdpStep::Send(d, t)) => {
            assert_eq!(t, 15);
            assert_eq!(d.len(), 98);
            assert_eq!(&d[0..8], &[0x11, 0x22, 0x33, 0x44, 0x55, 0x66, 0x77, 0x88]);
            assert_eq!(&d[8..12], &[0, 0, 0, 1]);
            assert_eq!(&d[12..16], &[0xde, 0xad, 0xbe, 0xef]);
            assert_eq!(&d[16..36], &[1u8; 20]);
            assert_eq!(&d[36..56], &[2u8; 20]);
            assert_eq!(&d[64..72], &30000u64.to_be_bytes());
            assert_eq!(&d[92..96], &[0xff, 0xff, 0xff, 0xff]);
            assert_eq!(&d[96..98], &[0x1b, 0x39]);
        }
        _ => panic!("expected the announce request"),
    }
    assert_eq!(u.phase, UdpPhase::Announcing(0x1122334455667788));
}

#[test]
fn udp_mismatched_transaction_is_discarded_and_retried() {
    let mut u = UdpAnnounce::new([1; 20], [2; 20], 5, Event::Started, 0, 50, 6969, 42);
    let mut resp = vec![0, 0, 0, 0, 0, 0, 0, 43];
    resp.extend_from_slice(&[9; 8]);
    assert!(matches!(u.on_datagram(&resp), Ok(UdpStep::Wait)));
    assert_eq!(u.phase, UdpPhase::Connecting);
    match u.on_timeout() {
        Ok(UdpStep::Send(d, t)) => {
            assert_eq!(d, connect_request(42));
            assert_eq!(t, 30);
        }
        _ => panic!("expected a retransmission"),
    }
    assert!(matches!(u.on_datagram(&[0, 0, 0, 1]), Err(Error::ProtocolError)));
}

#[test]
fn udp_retries_double_then_time_out() {
    let mut u = UdpAnnounce::new([0; 20], [0; 20], 0, Event::Empty, 0, -1, 1, 1);
    let mut waits = Vec::new();
    for _ in 0..8 {
        match u.on_timeout() {
            Ok(UdpStep::Send(_, t)) => waits.push(t),
            _ => panic!("expected a retransmission"),
        }
    }
    assert_eq!(waits, vec![30, 60, 120, 240, 480, 960, 1920, 3840]);
    assert!(matches!(u.on_timeout(), Err(Error::Timeout)));
}

#[test]
fn udp_announce_response_finishes() {
    let mut u = UdpAnnounce::new([0; 20], [0; 20], 0, Event::Empty, 0, -1, 1, 5);
    let mut c = vec![0, 0, 0, 0, 0, 0, 0, 5];
    c.extend_from_slice(&[0, 0, 0, 0, 0, 0, 0, 9]);
    assert!(matches!(u.on_datagram(&c), Ok(UdpStep::Send(..))));
    let mut other = vec![0, 0, 0, 1, 0, 0, 0, 6];
    other.extend_from_slice(&[0; 12]);
    assert!(matches!(u.on_datagram(&other), Ok(UdpStep::Wait)));
    let mut a = vec![0, 0, 0, 1, 0, 0, 0, 5, 0, 0, 7, 8, 0, 0, 0, 2, 0, 0, 0, 3];
    a.extend_from_slice(&[10, 0, 0, 1, 0x1a, 0xe1]);
    match u.on_datagram(&a) {
        Ok(UdpStep::Done(r)) => {
            assert_eq!(r.interval, 0x0708);
            assert_eq!(r.leechers, 2);
            assert_eq!(r.seeders, 3);
            assert_eq!(r.peers.len(), 1);
            assert_eq!(r.peers[0].port, 6881);
        }
        _ => panic!("expected the response"),
    }
    assert_eq!(u.phase, UdpPhase::Finished);
}

#[test]
fn udp_start_draws_a_transaction_id() {
    let (u, d) = UdpAnnounce::start([0; 20], [0; 20], 0, Event::Empty, 0, -1, 1);
    assert_eq!(d, connect_request(u.transaction_id));
    assert_eq!(u.phase, UdpPhase::Connecting);
}

#[test]
fn connect_response_checks() {
    let mut r = vec![0, 0, 0, 0, 0, 0, 0, 1];
    r.extend_from_slice(&[0, 0, 0, 0, 0, 0, 1, 0]);
    assert_eq!(parse_connect_response(&r, 1), Ok(Some(256)));
    assert_eq!(parse_connect_response(&r, 2), Ok(None));
    assert_eq!(parse_connect_response(&r[..15], 1), Err(Error::ProtocolError));
}

#[test]
fn announce_request_layout() {
    let req = AnnounceRequest {
        connection_id: 1,
        action: Action::AnnounceRequest,
        transaction_id: 2,
        info_hash: [3; 20],
        peer_id: [4; 20],
        downloaded: 5,
        left: 6,
        uploaded: 7,
        event: Event::Stopped,
        ip: Some([127, 0, 0, 1]),
        key: 8,
        num_want: 9,
        port: 10,
    };
    let b = req.to_be_bytes();
    assert_eq!(b.len(), 98);
    assert_eq!(&b[80..84], &[0, 0, 0, 3]);
    assert_eq!(&b[84..88], &[127, 0, 0, 1]);
    assert_eq!(&b[96..98], &[0, 10]);
}

#[test]
fn announce_response_needs_whole_entries() {
    assert!(AnnounceResponse::from_be_bytes(&[0; 19]).is_none());
    assert!(AnnounceResponse::from_be_bytes(&[0; 23]).is_none());
    assert_eq!(AnnounceResponse::from_be_bytes(&[0; 26]).unwrap().peers.len(), 1);
}

#[test]
fn scrape_records() {
    let req = ScrapeRequest { connection_id: 1, action: 2, transaction_id: 3, hashes: vec![[7; 20]] };
    let b = req.to_be_bytes();
    assert_eq!(b.len(), 36);
    assert_eq!(&b[16..36], &[7u8; 20]);
    let mut resp = vec![0, 0, 0, 2, 0, 0, 0, 3];
    resp.extend_from_slice(&[0, 0, 0, 1, 0, 0, 0, 2, 0, 0, 0, 3]);
    let r = ScrapeResponse::from_be_bytes(&resp).unwrap();
    assert_eq!(r.action, 2);
    assert_eq!(r.sub_response.len(), 1);
    assert_eq!(r.sub_response[0].completed, 2);
    assert!(ScrapeResponse::from_be_bytes(&resp[..10]).is_none());
    let s = ScrapeSubresponse::from_be_bytes(&[0, 0, 0, 9, 0, 0, 0, 8, 0, 0, 0, 7]).unwrap();
    assert_eq!((s.seeders, s.completed, s.leechers), (9, 8, 7));
}

#[test]
fn event_names_and_action_codes() {
    assert_eq!(Event::Empty.to_string(), "");
    assert_eq!(Event::Completed.to_string(), "completed");
    assert_eq!(Event::Started.to_string(), "started");
    assert_eq!(Event::Stopped.to_string(), "stopped");
    assert_eq!(Event::Started.code(), 2);
    assert_eq!(Action::ConnectRequest.code(), 0);
    assert_eq!(Action::AnnounceRequest.code(), 1);
}

#[test]
fn url_params_escape_every_byte() {
    let mut info_hash = [0u8; 20];
    info_hash[0] = 0x12;
    info_hash[1] = 0xab;
    info_hash[2] = b'A';
    let req = TrackerRequest {
        info_hash,
        peer_id: [b'-'; 20],
        port: 6969,
        uploaded: 0,
        downloaded: 12,
        left: 30000,
        compact: 1,
        no_peer_id: false,
        event: Event::Started,
        ip: None,
        num_want: Some(-1),
        key: None,
        tracker_id: None,
    };
    let q = req.to_url_params();
    let expected = format!(
        "?info_hash=%12%ab%41{}&peer_id={}&port=6969&uploaded=0&downloaded=12&left=30000&compact=1&no_peer_id=0&event=started&numwant=-1",
        "%00".repeat(17),
        "%2d".repeat(20)
    );
    assert_eq!(q, expected);
    assert!(!q.contains("&ip="));
    let regular = TrackerRequest { event: Event::Empty, tracker_id: None, ..TrackerRequest { ..clone_request(&req) } };
    assert!(regular.to_url_params().ends_with("&no_peer_id=0&event=&numwant=-1"));
    let with_ip = TrackerRequest { ip: Some([10, 0, 0, 1]), key: Some(7), tracker_id: Some("t1".to_string()), num_want: None, ..req };
    assert!(with_ip.to_url_params().ends_with("&event=started&ip=10.0.0.1&key=7&trackerid=%74%31"));
}

#[test]
fn http_request_for_torrent() {
    let mut info = b"d4:infod6:lengthi30000e4:name5:hello12:piece lengthi16384e6:pieces40:".to_vec();
    info.extend_from_slice(&[1u8; 40]);
    info.extend_from_slice(b"ee");
    let t = parse_metainfo(&info).unwrap();
    let r = http_request_for(&t, [7; 20]);
    assert_eq!(r.left, 30000);
    assert_eq!(r.info_hash, t.info_hash);
    assert!(r.to_url_params().contains("&event=started"));
}

#[test]
fn http_failure_response() {
    let r = TrackerResponse::from_http_response(b"d14:failure reason6:bannede").unwrap();
    assert_eq!(r.failure.as_ref().unwrap().failure_reason, "banned");
    assert!(r.success.is_none());
    assert!(matches!(r.peers(), Err(Error::TrackerReject)));
}

#[test]
fn http_success_response() {
    let mut body = b"d8:completei5e10:incompletei3e8:intervali1800e12:min intervali60e5:peers12:".to_vec();
    body.extend_from_slice(&[10, 0, 0, 1, 0x1a, 0xe1, 192, 168, 1, 2, 0x1a, 0xe2]);
    body.extend_from_slice(b"10:tracker id3:abce");
    let r = TrackerResponse::from_http_response(&body).unwrap();
    let g = r.success.as_ref().unwrap();
    assert_eq!(g.complete, 5);
    assert_eq!(g.incomplete, 3);
    assert_eq!(g.interval, 1800);
    assert_eq!(g.min_interval, Some(60));
    assert_eq!(g.tracker_id.as_deref(), Some("abc"));
    assert!(g.warning_message.is_none());
    let peers = r.peers().unwrap();
    assert_eq!(peers.len(), 2);
    assert_eq!(peers[1].port, 6882);
}

#[test]
fn http_response_errors() {
    assert!(matches!(TrackerResponse::from_http_response(b"d8:intervali1e"), Err(Error::Malformed)));
    assert!(matches!(TrackerResponse::from_http_response(b"i1e"), Err(Error::BadShape)));
    assert!(matches!(
        TrackerResponse::from_http_response(b"d8:completei1e10:incompletei1ee"),
        Err(Error::MissingField)
    ));
    assert!(matches!(
        TrackerResponse::from_http_response(b"d8:completei1e10:incompletei1e8:intervali-1ee"),
        Err(Error::BadShape)
    ));
}

#[test]
fn tracker_kinds_by_scheme() {
    assert_eq!(check_tracker("udp://tracker.example:6969/announce"), Ok(TrackerKind::Udp));
    assert_eq!(check_tracker("http://tracker.example/announce"), Ok(TrackerKind::Http));
    assert_eq!(check_tracker("https://tracker.example/announce"), Ok(TrackerKind::Http));
    assert_eq!(check_tracker("wss://tracker.example/announce"), Err(Error::ProtocolError));
    assert_eq!(check_tracker("not a url"), Err(Error::ProtocolError));
}

#[test]
fn udp_tracker_addresses() {
    assert_eq!(
        udp_tracker_address("udp://tracker.example:6969/announce"),
        Ok(("tracker.example".to_string(), 6969))
    );
    assert_eq!(udp_tracker_address("udp://tracker.example/announce"), Ok(("tracker.example".to_string(), 80)));
    assert_eq!(udp_tracker_address("not a url"), Err(Error::ProtocolError));
}

fn clone_request(r: &TrackerRequest) -> TrackerRequest {
    TrackerRequest {
        info_hash: r.info_hash,
        peer_id: r.peer_id,
        port: r.port,
        uploaded: r.uploaded,
        downloaded: r.downloaded,
        left: r.left,
        compact: r.compact,
        no_peer_id: r.no_peer_id,
        event: r.event,
        ip: r.ip,
        num_want: r.num_want,
        key: r.key,
        tracker_id: r.tracker_id.clone(),
    }
}
