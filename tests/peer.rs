use torrent::bitfield::{Bitfield, BitfieldError};
use torrent::handshake::{check_handshake, peer_id, PeerError, TorrentHandshake};
use torrent::message::{Message, MessageId};

#[test]
fn handshake_mismatch_reports_both_hashes() {
    let ours = [7u8; 20];
    let mut bytes = TorrentHandshake::new(&ours).to_bytes();
    assert_eq!(bytes.len(), 68);
    assert!(check_handshake(&ours, &bytes).is_ok());
    bytes[30] ^= 0xFF;
    let mut theirs = ours;
    theirs[2] ^= 0xFF;
    match check_handshake(&ours, &bytes) {
        Err(PeerError::MismatchedHash(a, b)) => {
            assert_eq!(a, ours);
            assert_eq!(b, theirs);
        }
        other => panic!("unexpected {other:?}"),
    }
}

#[test]
fn handshake_layout() {
    let bytes = TorrentHandshake::new(&[1u8; 20]).to_bytes();
    assert_eq!(bytes[0], 0x13);
    assert_eq!(&bytes[1..20], b"BitTorrent protocol");
    assert_eq!(&bytes[20..28], &[0u8; 8]);
    assert_eq!(&bytes[28..48], &[1u8; 20]);
    assert_eq!(&bytes[48..68], &peer_id());
}

#[test]
fn handshake_malformed() {
    assert!(matches!(TorrentHandshake::from_bytes(&[0u8; 10]), Err(PeerError::InvalidHandshakeLength(10))));
    let mut bytes = TorrentHandshake::new(&[1u8; 20]).to_bytes();
    bytes[0] = 18;
    assert!(matches!(TorrentHandshake::from_bytes(&bytes), Err(PeerError::InvalidProtocolIdLength(18))));
    bytes[0] = 19;
    bytes[5] = b'X';
    assert!(matches!(TorrentHandshake::from_bytes(&bytes), Err(PeerError::InvalidProtocolId(_))));
}

#[test]
fn message_round_trips() {
    let frame = Message::Request { index: 3, begin: 16384, length: 16384 }.encode();
    assert_eq!(frame, vec![0, 0, 0, 13, 6, 0, 0, 0, 3, 0, 0, 0x40, 0, 0, 0, 0x40, 0]);
    match Message::decode(&frame[4..]).unwrap() {
        Message::Request { index, begin, length } => {
            assert_eq!((index, begin, length), (3, 16384, 16384));
        }
        other => panic!("unexpected {other:?}"),
    }
    let frame = Message::Piece { index: 1, begin: 2, bytes: vec![9, 8] }.encode();
    assert_eq!(frame, vec![0, 0, 0, 11, 7, 0, 0, 0, 1, 0, 0, 0, 2, 9, 8]);
    assert_eq!(Message::KeepAlive.encode(), vec![0, 0, 0, 0]);
    assert_eq!(Message::Interested.encode(), vec![0, 0, 0, 1, 2]);
    assert_eq!(Message::Have { index: 258 }.encode(), vec![0, 0, 0, 5, 4, 0, 0, 1, 2]);
    assert_eq!(Message::Bitfield { bitfield: vec![0xF0] }.encode(), vec![0, 0, 0, 2, 5, 0xF0]);
}

#[test]
fn message_decode_errors() {
    assert!(matches!(Message::decode(&[9]), Err(PeerError::UnknownMessageId(9))));
    assert!(matches!(Message::decode(&[7, 0, 0, 0]), Err(PeerError::PieceMessageTooSmall(3))));
    assert!(matches!(Message::decode(&[4, 0]), Err(PeerError::PayloadTooSmall(4, 1))));
    assert!(matches!(Message::decode(&[]), Ok(Message::KeepAlive)));
    assert!(matches!(Message::decode(&[0, 1, 2]), Ok(Message::Choke)));
    assert!(matches!(MessageId::from_byte(5), Ok(MessageId::Bitfield)));
}

#[test]
fn bitfield_set_then_get() {
    let mut bf = Bitfield::new(10, false);
    for i in 0..10 {
        assert!(!bf.has_piece(i).unwrap());
    }
    bf.mark_piece(9).unwrap();
    assert!(bf.has_piece(9).unwrap());
    assert_eq!(bf.num_set(), 1);
    assert_eq!(bf.num_unset(), 9);
    bf.ummark_piece(9).unwrap();
    assert!(bf.none());
    assert!(matches!(bf.has_piece(10), Err(BitfieldError::PieceOutOfRange(10))));
    assert!(matches!(bf.mark_piece(10), Err(BitfieldError::PieceOutOfRange(10))));
}

#[test]
fn bitfield_unused_bits_clear() {
    let bf = Bitfield::new(10, true);
    assert_eq!(bf.as_bytes(), &vec![0xFF, 0xC0]);
    assert!(bf.all());
    let bf = Bitfield::try_from_vec(vec![0xFF, 0xFF, 0xFF], 12).unwrap();
    assert_eq!(bf.as_bytes(), &vec![0xFF, 0xF0]);
    assert_eq!(bf.num_set(), 12);
    assert!(matches!(
        Bitfield::try_from_vec(vec![0xFF], 9),
        Err(BitfieldError::Unrepresentible { num_fields: 9, num_elements: 1 })
    ));
}

#[test]
fn bitfield_width() {
    assert_eq!(Bitfield::new(10, false).num(), 10);
    assert_eq!(Bitfield::try_from_vec(vec![0, 0], 12).unwrap().num(), 12);
}
