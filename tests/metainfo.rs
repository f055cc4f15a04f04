use torrent::metainfo::{FileModeInfo, TorrentFile, TorrentFileError};
use torrent::parse_torrent;
use torrent::sha1::sha1_hash;
use torrent::tracker::announce_query;
use torrent::handshake::peer_id;

fn info_bytes() -> Vec<u8> {
    let mut v = b"d6:lengthi3e4:name1:a12:piece lengthi3e6:pieces20:".to_vec();
    v.extend_from_slice(&[0u8; 20]);
    v.push(b'e');
    v
}

fn torrent_bytes(announce: &str, info: &[u8]) -> Vec<u8> {
    let mut v = format!("d8:announce{}:{}4:info", announce.len(), announce).into_bytes();
    v.extend_from_slice(info);
    v.push(b'e');
    v
}

#[test]
fn info_hash_of_info_region() {
    let mut v = b"d4:info".to_vec();
    v.extend_from_slice(&info_bytes());
    v.push(b'e');
    let mut with_announce = b"d8:announce18:http://tracker/ann4:info".to_vec();
    with_announce.extend_from_slice(&info_bytes());
    with_announce.push(b'e');
    // The bare document lacks the announce key, which a torrent needs.
    assert!(matches!(
        TorrentFile::new("a.torrent".to_string(), &v),
        Err(TorrentFileError::MissingRequiredKey("announce"))
    ));
    let t = TorrentFile::new("a.torrent".to_string(), &with_announce).unwrap();
    assert_eq!(t.hash, sha1_hash(&info_bytes()));
    assert_eq!(torrent::util::to_string(&t.hash), "f5f90c975d51200dd25a4cef2e31425540e0a47b");
    assert_eq!(t.num_pieces, 1);
    assert_eq!(t.piece_hashes, vec![[0u8; 20]]);
    assert_eq!(t.total_num_bytes, 3);
    assert_eq!(t.num_bytes_per_piece, 3);
    assert_eq!(t.announce, "http://tracker/ann");
    assert!(!t.private);
    match &t.info {
        FileModeInfo::Single { filename, length, md5sum } => {
            assert_eq!(filename, "a");
            assert_eq!(*length, 3);
            assert!(md5sum.is_none());
        }
        _ => panic!("expected a single file"),
    }
}

#[test]
fn invalid_announce_url_rejected() {
    let bytes = torrent_bytes("not a url", &info_bytes());
    assert!(matches!(
        parse_torrent("a.torrent".to_string(), &bytes),
        Err(TorrentFileError::InvalidAnnounceUrl(_))
    ));
}

#[test]
fn not_a_dictionary_rejected() {
    assert!(matches!(
        parse_torrent("a.torrent".to_string(), b"li1ee"),
        Err(TorrentFileError::FileIsNotDictionary)
    ));
    assert!(matches!(
        parse_torrent("a.torrent".to_string(), b"d"),
        Err(TorrentFileError::BencodeError(_, _))
    ));
}

#[test]
fn length_mismatch_rejected() {
    let mut info = b"d6:lengthi7e4:name1:a12:piece lengthi3e6:pieces20:".to_vec();
    info.extend_from_slice(&[0u8; 20]);
    info.push(b'e');
    let bytes = torrent_bytes("http://t/a", &info);
    assert!(matches!(
        parse_torrent("a.torrent".to_string(), &bytes),
        Err(TorrentFileError::LengthMismatch(7, 3))
    ));
}

#[test]
fn pieces_not_multiple_of_twenty_rejected() {
    let info = b"d6:lengthi3e4:name1:a12:piece lengthi3e6:pieces3:abce".to_vec();
    let bytes = torrent_bytes("http://t/a", &info);
    assert!(matches!(
        parse_torrent("a.torrent".to_string(), &bytes),
        Err(TorrentFileError::InvalidNumberOfPieces(3))
    ));
}

#[test]
fn private_flag_values() {
    let mut info = b"d6:lengthi3e4:name1:a12:piece lengthi3e6:pieces20:".to_vec();
    info.extend_from_slice(&[0u8; 20]);
    info.extend_from_slice(b"7:privatei1ee");
    let t = parse_torrent("a.torrent".to_string(), &torrent_bytes("http://t/a", &info)).unwrap();
    assert!(t.private);
    let mut info2 = b"d6:lengthi3e4:name1:a12:piece lengthi3e6:pieces20:".to_vec();
    info2.extend_from_slice(&[0u8; 20]);
    info2.extend_from_slice(b"7:privatei2ee");
    assert!(matches!(
        parse_torrent("a.torrent".to_string(), &torrent_bytes("http://t/a", &info2)),
        Err(TorrentFileError::InvalidPrivateValue(2))
    ));
}

#[test]
fn multi_file_torrent() {
    let mut info = b"d5:filesld6:lengthi5e4:pathl1:xeed6:lengthi7e4:pathl3:sub1:yeee4:name3:dir12:piece lengthi4e6:pieces60:".to_vec();
    info.extend_from_slice(&[7u8; 60]);
    info.push(b'e');
    let mut doc = b"d8:announce10:http://t/a13:announce-listll10:http://t/bee7:comment2:hi4:info".to_vec();
    doc.extend_from_slice(&info);
    doc.push(b'e');
    let t = parse_torrent("m.torrent".to_string(), &doc).unwrap();
    assert_eq!(t.total_num_bytes, 12);
    assert_eq!(t.num_pieces, 3);
    assert_eq!(t.announce_list, vec![vec!["http://t/b".to_string()]]);
    assert_eq!(t.comment, Some("hi".to_string()));
    match &t.info {
        FileModeInfo::Multiple { directory, files } => {
            assert_eq!(directory, "dir");
            assert_eq!(files.len(), 2);
            assert_eq!(files[0].length, 5);
            assert_eq!(files[1].path, vec!["sub".to_string(), "y".to_string()]);
        }
        _ => panic!("expected several files"),
    }
}

#[test]
fn announce_query_percent_encodes() {
    let mut hash = [0u8; 20];
    hash[0] = 0x12;
    hash[1] = b'A';
    hash[2] = b'-';
    let q = announce_query(&hash, &peer_id(), 6881, 3);
    let text = String::from_utf8(q).unwrap();
    assert!(text.starts_with("port=6881&uploaded=0&downloaded=0&compact=1&left=3&info_hash=%12A%2D%00"));
    assert!(text.ends_with("&peer_id=%21MySuperCoolTorrent%21"));
}

fn with_info_entries(entries: &[u8]) -> Vec<u8> {
    let mut info = b"d".to_vec();
    info.extend_from_slice(entries);
    info.push(b'e');
    torrent_bytes("http://t/a", &info)
}

fn parse(bytes: &[u8]) -> Result<TorrentFile, TorrentFileError> {
    parse_torrent("x.torrent".to_string(), bytes)
}

#[test]
fn metainfo_error_variants() {
    let mut pieces = b"6:pieces20:".to_vec();
    pieces.extend_from_slice(&[0u8; 20]);

    assert!(matches!(parse(b"d8:announcei1ee"), Err(TorrentFileError::KeyDoesNotMapToString("announce"))));
    assert!(matches!(parse(b"d8:announce10:http://t/a4:infoi1ee"), Err(TorrentFileError::KeyDoesNotMapToDictionary("info"))));
    assert!(matches!(parse(b"d8:announce10:http://t/ae"), Err(TorrentFileError::MissingRequiredKey("info"))));
    assert!(matches!(
        parse(b"d8:announce10:http://t/a13:creation datei-5e4:infodee"),
        Err(TorrentFileError::NegativeInteger(-5))
    ));
    assert!(matches!(
        parse(b"d8:announce10:http://t/a13:creation date1:x4:infodee"),
        Err(TorrentFileError::KeyDoesNotMapToInteger("creation date"))
    ));
    assert!(matches!(
        parse(b"d8:announce10:http://t/a13:announce-listi1e4:infodee"),
        Err(TorrentFileError::KeyDoesNotMapToList("announce-list"))
    ));
    assert!(matches!(
        parse(b"d8:announce10:http://t/a13:announce-listle4:infodee"),
        Err(TorrentFileError::KeyMapsToAnEmptyList("announce-list"))
    ));
    assert!(matches!(
        parse(b"d8:announce10:http://t/a13:announce-listli1ee4:infodee"),
        Err(TorrentFileError::InvalidAnnounceListElement)
    ));
    assert!(matches!(
        parse(b"d8:announce10:http://t/a13:announce-listl1:\xffe4:infodee"),
        Err(TorrentFileError::InvalidString(_))
    ));
    assert!(matches!(parse(&with_info_entries(b"")), Err(TorrentFileError::MissingRequiredKey("piece length"))));

    let mut e = b"6:lengthi3e6:md5sum2:ab4:name1:a12:piece lengthi3e".to_vec();
    e.extend_from_slice(&pieces);
    assert!(matches!(parse(&with_info_entries(&e)), Err(TorrentFileError::InvalidMd5Length(2))));

    let mut e = b"5:filesi1e4:name1:a12:piece lengthi3e".to_vec();
    e.extend_from_slice(&pieces);
    assert!(matches!(parse(&with_info_entries(&e)), Err(TorrentFileError::KeyDoesNotMapToListOfStrings("files"))));

    let mut e = b"5:filesle4:name1:a12:piece lengthi3e".to_vec();
    e.extend_from_slice(&pieces);
    assert!(matches!(parse(&with_info_entries(&e)), Err(TorrentFileError::KeyMapsToAnEmptyList("files"))));

    let mut e = b"5:filesld6:lengthi3e4:pathleee4:name1:a12:piece lengthi3e".to_vec();
    e.extend_from_slice(&pieces);
    assert!(matches!(parse(&with_info_entries(&e)), Err(TorrentFileError::KeyMapsToAnEmptyList("path"))));

    let mut e = b"5:filesld6:lengthi3e4:pathli1eeee4:name1:a12:piece lengthi3e".to_vec();
    e.extend_from_slice(&pieces);
    assert!(matches!(parse(&with_info_entries(&e)), Err(TorrentFileError::KeyDoesNotMapToString("path"))));
}
