use torrent::download::{
    FileDownloadInfo, FileDownloadState, PieceDownload, PieceDownloadProgress, PieceOutcome, State, Worker,
    BLOCK_SIZE,
};
use torrent::message::Message;
use torrent::metainfo::TorrentFile;
use torrent::sha1::sha1_hash;

fn torrent_for(pieces: &[Vec<u8>], piece_length: usize, total: usize) -> TorrentFile {
    let mut hashes = Vec::new();
    for p in pieces {
        hashes.extend_from_slice(&sha1_hash(p));
    }
    let mut info = format!("d6:lengthi{}e4:name1:a12:piece lengthi{}e6:pieces{}:", total, piece_length, hashes.len())
        .into_bytes();
    info.extend_from_slice(&hashes);
    info.push(b'e');
    let mut doc = b"d8:announce10:http://t/a4:info".to_vec();
    doc.extend_from_slice(&info);
    doc.push(b'e');
    TorrentFile::new("t.torrent".to_string(), &doc).unwrap()
}

/// Downloads one claimed piece from a simulated peer that answers each request
/// with `answer(index, begin, length)`.
fn fetch(info: &FileDownloadInfo, piece: u32, answer: &dyn Fn(u32, u32, u32) -> Vec<u8>) -> Vec<u8> {
    let size = info.piece_size(piece) as u32;
    let mut dl = PieceDownload::new(piece, size);
    while !dl.progress.complete() {
        match dl.next_request() {
            Some(Message::Request { index, begin, length }) => {
                let bytes = answer(index, begin, length);
                dl.on_message(Message::Piece { index, begin, bytes });
            }
            _ => panic!("expected a request"),
        }
    }
    dl.progress.into_data()
}

fn run_worker(
    worker: &mut Worker,
    shared: &mut FileDownloadState,
    info: &FileDownloadInfo,
    answer: &dyn Fn(u32, u32, u32) -> Vec<u8>,
) {
    let bitfield = vec![0xFFu8; (info.num_pieces() as usize + 7) / 8];
    let send = worker.handle_message(Message::Bitfield { bitfield }, info.num_pieces() as usize);
    assert!(send);
    assert_eq!(worker.state, State::Interested);
    worker.handle_message(Message::Unchoke, info.num_pieces() as usize);
    assert_eq!(worker.state, State::Unchoked);
    while worker.state == State::Unchoked {
        let piece = match worker.claim_piece(shared) {
            Some(p) => p,
            None => break,
        };
        let data = fetch(info, piece, answer);
        let outcome = if info.verify_piece(piece, &data) { PieceOutcome::Saved } else { PieceOutcome::HashMismatch };
        worker.finish_piece(shared, piece, outcome);
    }
}

#[test]
fn piece_hash_mismatch_requeues_for_other_peer() {
    let pieces = vec![vec![1u8, 2, 3, 4], vec![5u8, 6, 7, 8]];
    let t = torrent_for(&pieces, 4, 8);
    let info = FileDownloadInfo::from_torrent(&t).unwrap();
    let mut shared = FileDownloadState::new(2);
    let zeros = |_i: u32, _b: u32, l: u32| vec![0u8; l as usize];
    let honest = |i: u32, b: u32, l: u32| pieces[i as usize][b as usize..(b + l) as usize].to_vec();
    let mut a = Worker::new();
    run_worker(&mut a, &mut shared, &info, &zeros);
    assert_eq!(a.state, State::NotInterested);
    assert_eq!(a.skip_set, vec![0, 1]);
    assert!(!shared.all_done());
    let mut b = Worker::new();
    run_worker(&mut b, &mut shared, &info, &honest);
    assert_eq!(b.state, State::NotInterested);
    assert!(b.skip_set.is_empty());
    assert!(shared.all_done());
}

#[test]
fn single_piece_single_peer() {
    let pieces = vec![vec![42u8; 5]];
    let t = torrent_for(&pieces, 5, 5);
    let info = FileDownloadInfo::from_torrent(&t).unwrap();
    let mut shared = FileDownloadState::new(1);
    let honest = |i: u32, b: u32, l: u32| pieces[i as usize][b as usize..(b + l) as usize].to_vec();
    let mut w = Worker::new();
    run_worker(&mut w, &mut shared, &info, &honest);
    assert!(shared.all_done());
    assert!(shared.is_done(0));
}

#[test]
fn final_piece_full_length() {
    let pieces = vec![vec![1u8; 4], vec![2u8; 4]];
    let t = torrent_for(&pieces, 4, 8);
    let info = FileDownloadInfo::from_torrent(&t).unwrap();
    assert_eq!(info.piece_size(0), 4);
    assert_eq!(info.piece_size(1), 4);
}

#[test]
fn final_piece_short_tail() {
    let pieces = vec![vec![1u8; 4], vec![2u8; 4], vec![3u8; 2]];
    let t = torrent_for(&pieces, 4, 10);
    let info = FileDownloadInfo::from_torrent(&t).unwrap();
    assert_eq!(info.piece_size(2), 2);
    let mut shared = FileDownloadState::new(3);
    let honest = |i: u32, b: u32, l: u32| pieces[i as usize][b as usize..(b + l) as usize].to_vec();
    let mut w = Worker::new();
    run_worker(&mut w, &mut shared, &info, &honest);
    assert!(shared.all_done());
}

#[test]
fn non_seed_peer_abandoned() {
    let mut w = Worker::new();
    assert!(!w.handle_message(Message::Bitfield { bitfield: vec![0x80] }, 2));
    assert_eq!(w.state, State::NotInterested);
    let mut w = Worker::new();
    assert!(!w.handle_message(Message::Choke, 2));
    assert_eq!(w.state, State::Curious);
}

#[test]
fn transport_error_chokes_worker() {
    let mut shared = FileDownloadState::new(1);
    let mut w = Worker::new();
    let p = w.claim_piece(&mut shared).unwrap();
    w.finish_piece(&mut shared, p, PieceOutcome::TransportError);
    assert_eq!(w.state, State::Choked);
    assert_eq!(w.skip_set, vec![0]);
    assert!(w.claim_piece(&mut shared).is_none());
    assert_eq!(w.state, State::NotInterested);
}

#[test]
fn block_requests_and_choking() {
    let mut dl = PieceDownload::new(0, BLOCK_SIZE + 10);
    match dl.next_request() {
        Some(Message::Request { index: 0, begin: 0, length }) => assert_eq!(length, BLOCK_SIZE),
        other => panic!("unexpected {other:?}"),
    }
    dl.on_message(Message::Piece { index: 0, begin: 0, bytes: vec![1; 5] });
    assert_eq!(dl.progress.offset, 0);
    dl.on_message(Message::Choke);
    assert!(dl.next_request().is_none());
    dl.on_message(Message::Unchoke);
    dl.on_message(Message::Piece { index: 0, begin: 0, bytes: vec![1; BLOCK_SIZE as usize] });
    assert_eq!(dl.progress.offset, BLOCK_SIZE);
    match dl.next_request() {
        Some(Message::Request { begin, length, .. }) => assert_eq!((begin, length), (BLOCK_SIZE, 10)),
        other => panic!("unexpected {other:?}"),
    }
    let p = PieceDownloadProgress::new(3);
    assert_eq!(p.remaining(), 3);
    assert_eq!(p.get_next_block_size(), 3);
    assert!(!p.complete());
}

#[test]
fn disk_error_releases_piece_and_stops_worker() {
    let mut shared = FileDownloadState::new(2);
    let mut w = Worker::new();
    let p = w.claim_piece(&mut shared).unwrap();
    w.finish_piece(&mut shared, p, PieceOutcome::DiskError);
    assert_eq!(w.state, State::NotInterested);
    let mut other = Worker::new();
    assert_eq!(other.claim_piece(&mut shared), Some(1));
    assert_eq!(other.claim_piece(&mut shared), Some(0));
    assert!(!shared.all_done());
}
