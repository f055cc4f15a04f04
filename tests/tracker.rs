use torrent::bencode::BencodeValue;
use torrent::tracker::{extract_peers, Peer, TrackerError, TrackerResponse};

#[test]
fn compact_peers_decode() {
    let bytes = vec![0x0A, 0x00, 0x00, 0x01, 0x1A, 0xE1, 0xC0, 0xA8, 0x01, 0x01, 0x06, 0xB8];
    let value = BencodeValue::ByteString(bytes);
    let peers = extract_peers(Some(&value)).unwrap();
    assert_eq!(
        peers,
        vec![Peer { ip: [10, 0, 0, 1], port: 6881 }, Peer { ip: [192, 168, 1, 1], port: 1720 }]
    );
}

#[test]
fn peers_length_not_multiple_of_six() {
    let value = BencodeValue::ByteString(vec![1, 2, 3, 4, 5]);
    assert!(matches!(extract_peers(Some(&value)), Err(TrackerError::IllegalPeersLength(5))));
    assert!(matches!(extract_peers(None), Err(TrackerError::MissingPeers)));
    assert!(matches!(extract_peers(Some(&BencodeValue::Integer(1))), Err(TrackerError::MalformedPeersList)));
}

#[test]
fn tracker_response_from_body() {
    let mut body = b"d8:intervali1800e5:peers6:".to_vec();
    body.extend_from_slice(&[127, 0, 0, 1, 0x1A, 0xE1]);
    body.push(b'e');
    let r = TrackerResponse::from_bytes(&body).unwrap();
    assert_eq!(r.interval, 1800);
    assert_eq!(r.peers, vec![Peer { ip: [127, 0, 0, 1], port: 6881 }]);
}

#[test]
fn tracker_response_errors() {
    assert!(matches!(TrackerResponse::from_bytes(b"garbage"), Err(TrackerError::NonBencodedTrackerResponse(_))));
    assert!(matches!(TrackerResponse::from_bytes(b"i1e"), Err(TrackerError::TrackerResponseNotADictionary)));
    assert!(matches!(TrackerResponse::from_bytes(b"d5:peers0:e"), Err(TrackerError::MissingInterval)));
    assert!(matches!(TrackerResponse::from_bytes(b"d8:interval1:x5:peers0:e"), Err(TrackerError::MalformedInterval(_))));
    assert!(matches!(TrackerResponse::from_bytes(b"d8:intervali5ee"), Err(TrackerError::MissingPeers)));
}
