use torrent_engine::bencode::BValue;
use torrent_engine::bencode::dict_get;
use torrent_engine::bencode::parse_value;
use torrent_engine::file_map::FileMap;
use torrent_engine::init_check::InitialCheck;
use torrent_engine::lengths::Lengths;
use torrent_engine::state::PeerAddr;
use torrent_engine::state::TorrentState;
use torrent_engine::tracker::TRACKER_FALLBACK_SLEEP_SECS;
use torrent_engine::tracker::TrackerEvent;
use torrent_engine::tracker::TrackerFault;
use torrent_engine::tracker::TrackerRequest;
use torrent_engine::tracker::announce_step;
use torrent_engine::tracker::parse_compact_peers;
use torrent_engine::tracker::process_tracker_response;

#[test]
fn bencode_parses_integers() {
    let data = b"i1800e".to_vec();
    let (v, end) = parse_value(&data, 0).unwrap();
    assert!(matches!(v, BValue::Integer(1800)));
    assert_eq!(end, 6);
    let data = b"i-42e".to_vec();
    let (v, _) = parse_value(&data, 0).unwrap();
    assert!(matches!(v, BValue::Integer(-42)));
}

#[test]
fn bencode_parses_bytes_lists_and_dicts() {
    let data = b"4:spam".to_vec();
    let (v, end) = parse_value(&data, 0).unwrap();
    assert_eq!(end, 6);
    match v {
        BValue::Bytes(b) => assert_eq!(b, b"spam".to_vec()),
        _ => panic!("expected a byte string"),
    }
    let data = b"l4:spami7ee".to_vec();
    let (v, _) = parse_value(&data, 0).unwrap();
    match v {
        BValue::List(items) => {
            assert_eq!(items.len(), 2);
            assert!(matches!(items[1], BValue::Integer(7)));
        },
        _ => panic!("expected a list"),
    }
    let data = b"d3:cow3:moo4:spami4ee".to_vec();
    let (v, _) = parse_value(&data, 0).unwrap();
    match v {
        BValue::Dict(pairs) => {
            assert_eq!(pairs.len(), 2);
            assert!(matches!(dict_get(&pairs, b"spam"), Some(BValue::Integer(4))));
            assert!(dict_get(&pairs, b"missing").is_none());
        },
        _ => panic!("expected a dictionary"),
    }
}

#[test]
fn bencode_is_canonical() {
    // leading zeros and negative zero are rejected; the most negative
    // counter value round-trips
    assert!(parse_value(&b"i007e".to_vec(), 0).is_err());
    assert!(parse_value(&b"i-0e".to_vec(), 0).is_err());
    assert!(parse_value(&b"02:ab".to_vec(), 0).is_err());
    let data = b"i-9223372036854775808e".to_vec();
    let (v, end) = parse_value(&data, 0).unwrap();
    assert!(matches!(v, BValue::Integer(i64::MIN)));
    assert_eq!(end, data.len());
}

#[test]
fn bencode_rejects_garbage() {
    assert!(parse_value(&b"x".to_vec(), 0).is_err());
    assert!(parse_value(&b"".to_vec(), 0).is_err());
    assert!(parse_value(&b"i12".to_vec(), 0).is_err());
    assert!(parse_value(&b"5:abc".to_vec(), 0).is_err());
    assert!(parse_value(&b"li1e".to_vec(), 0).is_err());
}

#[test]
fn querystring_renders_every_field() {
    let req = TrackerRequest {
        info_hash: vec![0xab; 20],
        peer_id: b"-TE0001-abcdefghijkl".to_vec(),
        port: 6881,
        uploaded: 0,
        downloaded: 100,
        left: 50,
        compact: true,
        no_peer_id: false,
        event: Some(TrackerEvent::Started),
    };
    let q = String::from_utf8(req.as_querystring()).unwrap();
    let mut expected = String::from("info_hash=");
    for _ in 0..20 {
        expected.push_str("%AB");
    }
    expected.push_str("&peer_id=-TE0001-abcdefghijkl");
    expected.push_str("&port=6881&uploaded=0&downloaded=100&left=50");
    expected.push_str("&compact=1&no_peer_id=0&event=started");
    assert_eq!(q, expected);
}

#[test]
fn querystring_omits_an_absent_event() {
    let req = TrackerRequest {
        info_hash: b"aaaaaaaaaaaaaaaaaaaa".to_vec(),
        peer_id: b"bbbbbbbbbbbbbbbbbbbb".to_vec(),
        port: 1,
        uploaded: 7,
        downloaded: 8,
        left: 9,
        compact: true,
        no_peer_id: true,
        event: None,
    };
    let q = String::from_utf8(req.as_querystring()).unwrap();
    assert_eq!(
        q,
        "info_hash=aaaaaaaaaaaaaaaaaaaa&peer_id=bbbbbbbbbbbbbbbbbbbb\
         &port=1&uploaded=7&downloaded=8&left=9&compact=1&no_peer_id=1"
    );
}

#[test]
fn compact_peers_decode_exactly() {
    let bytes = vec![1, 2, 3, 4, 0x1a, 0xe1, 5, 6, 7, 8, 0, 80];
    let peers = parse_compact_peers(&bytes).unwrap();
    assert_eq!(peers.len(), 2);
    assert_eq!(peers[0], PeerAddr { ip: 16909060, port: 6881 });
    assert_eq!(peers[1], PeerAddr { ip: 84281096, port: 80 });
    // a block that is not a multiple of six bytes is rejected
    assert!(parse_compact_peers(&vec![1, 2, 3]).is_err());
}

#[test]
fn tracker_failure_payload_keeps_event_and_backs_off() {
    // HTTP 200 carrying an explicit failure reason: no peers, the stored
    // event stays Started, and the loop sleeps the fixed fallback
    let body = b"d14:failure reason4:oopse".to_vec();
    let outcome = process_tracker_response(true, &body);
    match &outcome {
        Err(TrackerFault::Failure(reason)) => assert_eq!(reason, &b"oops".to_vec()),
        _ => panic!("expected an explicit tracker failure"),
    }
    let (event, sleep) = announce_step(Some(TrackerEvent::Started), &outcome, None, 0);
    assert_eq!(event, Some(TrackerEvent::Started));
    assert_eq!(sleep, TRACKER_FALLBACK_SLEEP_SECS);
    assert_eq!(sleep, 60);
}

#[test]
fn tracker_bad_status_is_a_fault() {
    let body = b"d8:intervali1800e5:peers0:e".to_vec();
    let outcome = process_tracker_response(false, &body);
    assert!(matches!(outcome, Err(TrackerFault::HttpStatus)));
}

#[test]
fn tracker_undecodable_payload_is_a_fault() {
    let outcome = process_tracker_response(true, &b"not bencode".to_vec());
    assert!(matches!(outcome, Err(TrackerFault::Decode)));
    // a dictionary without an interval cannot be decoded either
    let outcome = process_tracker_response(true, &b"d5:peers0:e".to_vec());
    assert!(matches!(outcome, Err(TrackerFault::Decode)));
}

#[test]
fn tracker_success_yields_peers_and_interval() {
    // interval 1800 and three compact peers: all three distinct addresses
    // surface, and the loop sleeps the tracker's interval
    let mut body = b"d8:intervali1800e5:peers18:".to_vec();
    body.extend_from_slice(&[1, 2, 3, 4, 0x1a, 0xe1]);
    body.extend_from_slice(&[5, 6, 7, 8, 0, 80]);
    body.extend_from_slice(&[9, 10, 11, 12, 1, 187]);
    body.push(b'e');
    let outcome = process_tracker_response(true, &body);
    let resp = match &outcome {
        Ok(r) => r,
        Err(_) => panic!("expected a successful decode"),
    };
    assert_eq!(resp.interval, 1800);
    assert_eq!(resp.peers.len(), 3);
    assert_eq!(resp.peers[0], PeerAddr { ip: 16909060, port: 6881 });
    assert_eq!(resp.peers[2], PeerAddr { ip: 151653132, port: 443 });
    let (event, sleep) = announce_step(Some(TrackerEvent::Started), &outcome, None, 0);
    assert_eq!(event, None);
    assert_eq!(sleep, 1800);
    // a configured override wins over the tracker's interval
    let (_, sleep) = announce_step(None, &outcome, Some(30), 0);
    assert_eq!(sleep, 30);
    // a configured minimum floors a short interval
    let (_, sleep) = announce_step(None, &outcome, None, 3600);
    assert_eq!(sleep, 3600);
}

#[test]
fn tracker_success_feeds_the_peer_set() {
    let l = Lengths::new(20, 10, None).unwrap();
    let m = FileMap::new(vec![20]).unwrap();
    let mut c = InitialCheck::new(l);
    c.record_piece(false);
    c.record_piece(false);
    let mut s = TorrentState::new(l, m, &c, vec![7u8; 20], vec![9u8; 20], vec![vec![0u8; 20], vec![0u8; 20]]);

    let mut body = b"d8:intervali1800e5:peers18:".to_vec();
    body.extend_from_slice(&[1, 2, 3, 4, 0x1a, 0xe1]);
    body.extend_from_slice(&[5, 6, 7, 8, 0, 80]);
    body.extend_from_slice(&[9, 10, 11, 12, 1, 187]);
    body.push(b'e');
    let resp = process_tracker_response(true, &body).unwrap();
    let mut added = 0;
    for p in &resp.peers {
        if s.add_peer_if_not_seen(*p) {
            added += 1;
        }
    }
    assert_eq!(added, 3);
    assert_eq!(s.peers.len(), 3);
    // the same announce again adds nothing new
    for p in &resp.peers {
        assert!(!s.add_peer_if_not_seen(*p));
    }
    assert_eq!(s.peers.len(), 3);
}

#[test]
fn dict_form_peers_decode() {
    // peers as a list of dictionaries with a dotted-decimal address and
    // a port
    let body = b"d8:intervali60e5:peersld2:ip7:1.2.3.44:porti6881eeee".to_vec();
    let resp = process_tracker_response(true, &body).unwrap();
    assert_eq!(resp.interval, 60);
    assert_eq!(resp.peers.len(), 1);
    assert_eq!(resp.peers[0], PeerAddr { ip: 16909060, port: 6881 });
    // a malformed address is a decode fault
    let body = b"d8:intervali60e5:peersld2:ip7:1.2.3.x4:porti6881eeee".to_vec();
    assert!(matches!(process_tracker_response(true, &body), Err(TrackerFault::Decode)));
}
