use vstd::prelude::*;

use crate::bitfield::{count_true, Bitfield};
use crate::message::Message;
use crate::metainfo::TorrentFile;
use crate::sha1::{sha1, sha1_hash};

verus! {

/// The largest block that one request asks for.
pub const BLOCK_SIZE: u32 = 16384;

proof fn lemma_count_update(s: Seq<bool>, i: int)
    requires
        0 <= i < s.len(),
        !s[i],
    ensures
        count_true(s.update(i, true)) == count_true(s) + 1,
    decreases s.len(),
{
    let t = s.update(i, true);
    if i == s.len() - 1 {
        assert(t.drop_last() =~= s.drop_last());
    } else {
        lemma_count_update(s.drop_last(), i);
        assert(t.drop_last() =~= s.drop_last().update(i, true));
    }
}

proof fn lemma_count_none(n: nat)
    ensures
        count_true(Seq::new(n, |i: int| false)) == 0,
    decreases n,
{
    if n > 0 {
        lemma_count_none((n - 1) as nat);
        assert(Seq::new(n, |i: int| false).drop_last() =~= Seq::new((n - 1) as nat, |i: int| false));
    }
}

/// The bookkeeping that the workers of one download share: the pieces that no
/// worker has claimed, those in flight, and those completed.
pub struct FileDownloadState {
    done: Bitfield,
    todo: Vec<u32>,
    in_flight: Ghost<Set<u32>>,
}

impl FileDownloadState {
    pub closed spec fn done_bits(&self) -> Seq<bool> {
        self.done@
    }

    pub closed spec fn todo_seq(&self) -> Seq<u32> {
        self.todo@
    }

    /// The pieces that a worker has claimed and not yet completed or returned.
    pub closed spec fn claimed(&self) -> Set<u32> {
        self.in_flight@
    }

    pub closed spec fn num_pieces(&self) -> nat {
        self.done@.len()
    }

    /// Every piece is in exactly one of the unclaimed list, the claimed set and
    /// the completed bits.
    pub closed spec fn wf(&self) -> bool {
        &&& self.done.wf()
        &&& self.todo@.no_duplicates()
        &&& self.in_flight@.finite()
        &&& forall|i: int|
            0 <= i < self.todo@.len() ==> {
                &&& #[trigger] self.todo@[i] < self.done@.len()
                &&& !self.done@[self.todo@[i] as int]
                &&& !self.in_flight@.contains(self.todo@[i])
            }
        &&& forall|p: u32|
            #[trigger] self.in_flight@.contains(p) ==> p < self.done@.len() && !self.done@[p as int]
        &&& self.todo@.len() + count_true(self.done@) + self.in_flight@.len() == self.done@.len()
    }

    /// Every piece unclaimed, none completed.
    pub fn new(num_pieces: usize) -> (r: Self)
        requires
            num_pieces <= u32::MAX,
        ensures
            r.wf(),
            r.num_pieces() == num_pieces,
            r.todo_seq() == Seq::new(num_pieces as nat, |i: int| i as u32),
            r.claimed().is_empty(),
            r.done_bits() == Seq::new(num_pieces as nat, |i: int| false),
    {
        let done = Bitfield::new(num_pieces, false);
        let mut todo: Vec<u32> = Vec::new();
        let mut i: usize = 0;
        while i < num_pieces
            invariant
                i <= num_pieces <= u32::MAX,
                todo@ == Seq::new(i as nat, |j: int| j as u32),
            decreases num_pieces - i,
        {
            todo.push(i as u32);
            proof {
                assert(todo@ =~= Seq::new((i + 1) as nat, |j: int| j as u32));
            }
            i = i + 1;
        }
        proof {
            lemma_count_none(num_pieces as nat);
        }
        FileDownloadState { done, todo, in_flight: Ghost(Set::empty()) }
    }

    /// Claims the first unclaimed piece that is not in `skip`.
    pub fn claim(&mut self, skip: &Vec<u32>) -> (r: Option<u32>)
        requires
            old(self).wf(),
        ensures
            final(self).wf(),
            final(self).done_bits() == old(self).done_bits(),
            match r {
                Some(p) => {
                    &&& old(self).todo_seq().contains(p)
                    &&& p < old(self).num_pieces()
                    &&& !skip@.contains(p)
                    &&& final(self).todo_seq().len() + 1 == old(self).todo_seq().len()
                    &&& forall|q: u32|
                        final(self).todo_seq().contains(q) <==> (old(self).todo_seq().contains(q) && q != p)
                    &&& final(self).claimed() == old(self).claimed().insert(p)
                    &&& !old(self).claimed().contains(p)
                },
                None => {
                    &&& forall|i: int| 0 <= i < old(self).todo_seq().len() ==> skip@.contains(#[trigger] old(self).todo_seq()[i])
                    &&& final(self).todo_seq() == old(self).todo_seq()
                    &&& final(self).claimed() == old(self).claimed()
                },
            },
    {
        let mut i: usize = 0;
        while i < self.todo.len()
            invariant
                i <= self.todo@.len(),
                self.wf(),
                self.done@ == old(self).done@,
                self.done.wf(),
                self.todo@ == old(self).todo@,
                self.in_flight@ == old(self).in_flight@,
                forall|j: int| 0 <= j < i ==> skip@.contains(#[trigger] self.todo@[j]),
            decreases self.todo@.len() - i,
        {
            let p = self.todo[i];
            if !contains(skip, p) {
                let ghost before = self.todo@;
                self.todo.remove(i);
                proof {
                    let t = self.todo@;
                    assert(t =~= before.remove(i as int));
                    assert forall|a: int, b: int| 0 <= a < b < t.len() implies t[a] != t[b] by {
                        let a2 = if a < i { a } else { a + 1 };
                        let b2 = if b < i { b } else { b + 1 };
                        assert(t[a] == before[a2]);
                        assert(t[b] == before[b2]);
                    }
                    assert forall|k: int| 0 <= k < t.len() implies #[trigger] t[k] != p by {
                        let k2 = if k < i { k } else { k + 1 };
                        assert(t[k] == before[k2]);
                    }
                    assert forall|q: u32| t.contains(q) <==> (before.contains(q) && q != p) by {
                        if t.contains(q) {
                            let k = choose|k: int| 0 <= k < t.len() && t[k] == q;
                            let k2 = if k < i { k } else { k + 1 };
                            assert(t[k] == before[k2]);
                        }
                        if before.contains(q) && q != p {
                            let k = choose|k: int| 0 <= k < before.len() && before[k] == q;
                            if k < i {
                                assert(t[k] == q);
                            } else {
                                assert(k != i);
                                assert(t[k - 1] == q);
                            }
                        }
                    }
                    assert forall|k: int| 0 <= k < t.len() implies {
                        &&& #[trigger] t[k] < self.done@.len()
                        &&& !self.done@[t[k] as int]
                        &&& !self.in_flight@.insert(p).contains(t[k])
                    } by {
                        let k2 = if k < i { k } else { k + 1 };
                        assert(t[k] == before[k2]);
                    }
                }
                self.in_flight = Ghost(self.in_flight@.insert(p));
                return Some(p);
            }
            i = i + 1;
        }
        None
    }

    /// Returns a claimed piece to the unclaimed ones.
    pub fn requeue(&mut self, piece_index: u32)
        requires
            old(self).wf(),
            old(self).claimed().contains(piece_index),
        ensures
            final(self).wf(),
            final(self).done_bits() == old(self).done_bits(),
            final(self).todo_seq() == old(self).todo_seq().push(piece_index),
            final(self).claimed() == old(self).claimed().remove(piece_index),
    {
        let ghost before = self.todo@;
        self.todo.push(piece_index);
        self.in_flight = Ghost(self.in_flight@.remove(piece_index));
        proof {
            let t = self.todo@;
            assert forall|a: int, b: int| 0 <= a < b < t.len() implies t[a] != t[b] by {
                if b == t.len() - 1 {
                    assert(t[a] == before[a]);
                }
            }
            assert forall|k: int| 0 <= k < t.len() implies {
                &&& #[trigger] t[k] < self.done@.len()
                &&& !self.done@[t[k] as int]
                &&& !self.in_flight@.contains(t[k])
            } by {
                if k < before.len() {
                    assert(t[k] == before[k]);
                }
            }
        }
    }

    /// Marks a claimed piece completed. A piece is completed at most once: it
    /// is not completed before.
    pub fn complete(&mut self, piece_index: u32)
        requires
            old(self).wf(),
            old(self).claimed().contains(piece_index),
        ensures
            final(self).wf(),
            !old(self).done_bits()[piece_index as int],
            final(self).done_bits() == old(self).done_bits().update(piece_index as int, true),
            final(self).todo_seq() == old(self).todo_seq(),
            final(self).claimed() == old(self).claimed().remove(piece_index),
    {
        let ghost before = self.done@;
        let _ = self.done.mark_piece(piece_index as usize);
        self.in_flight = Ghost(self.in_flight@.remove(piece_index));
        proof {
            lemma_count_update(before, piece_index as int);
            assert forall|k: int| 0 <= k < self.todo@.len() implies {
                &&& #[trigger] self.todo@[k] < self.done@.len()
                &&& !self.done@[self.todo@[k] as int]
                &&& !self.in_flight@.contains(self.todo@[k])
            } by {
                assert(self.todo@[k] != piece_index);
            }
        }
    }

    /// Whether every piece is completed.
    pub fn all_done(&self) -> (r: bool)
        requires
            self.wf(),
        ensures
            r <==> forall|i: int| 0 <= i < self.num_pieces() ==> self.done_bits()[i],
    {
        let r = self.done.all();
        proof {
            assert(r <==> forall|i: int| 0 <= i < self.done@.len() ==> self.done@[i]);
            assert(self.done_bits() == self.done@);
            assert(self.num_pieces() == self.done@.len());
            if r {
                assert forall|i: int| 0 <= i < self.num_pieces() implies self.done_bits()[i] by {
                    assert(self.done@[i]);
                }
            } else {
                let i = choose|i: int| 0 <= i < self.done@.len() && !self.done@[i];
                assert(!self.done_bits()[i]);
            }
        }
        r
    }

    /// Whether a piece is completed.
    pub fn is_done(&self, piece_index: u32) -> (r: bool)
        requires
            self.wf(),
        ensures
            r == (piece_index < self.num_pieces() && self.done_bits()[piece_index as int]),
    {
        match self.done.has_piece(piece_index as usize) {
            Ok(b) => b,
            Err(_) => false,
        }
    }
}

/// Every piece is accounted for once: unclaimed, in flight or completed.
pub proof fn law_pieces_accounted(s: &FileDownloadState)
    requires
        s.wf(),
    ensures
        s.num_pieces() == s.done_bits().len(),
        s.todo_seq().len() + count_true(s.done_bits()) + s.claimed().len() == s.num_pieces(),
        forall|i: int|
            0 <= i < s.todo_seq().len() ==> #[trigger] s.todo_seq()[i] < s.num_pieces() && !s.done_bits()[s.todo_seq()[i] as int],
        forall|p: u32| #[trigger] s.claimed().contains(p) ==> p < s.num_pieces() && !s.done_bits()[p as int],
{
}

/// A piece in flight is not yet completed, so completing it sets its bit for
/// the first and only time.
pub proof fn law_complete_at_most_once(s: &FileDownloadState, p: u32)
    requires
        s.wf(),
        s.claimed().contains(p),
    ensures
        !s.done_bits()[p as int],
{
}

/// Whether `skip` holds `p`.
pub fn contains(skip: &Vec<u32>, p: u32) -> (r: bool)
    ensures
        r == skip@.contains(p),
{
    let mut i: usize = 0;
    while i < skip.len()
        invariant
            i <= skip@.len(),
            forall|j: int| 0 <= j < i ==> skip@[j] != p,
        decreases skip@.len() - i,
    {
        if skip[i] == p {
            return true;
        }
        i = i + 1;
    }
    false
}

/// The size of piece `index` of `num` pieces of `piece_len` bytes over `total`
/// bytes: the last piece holds what is left.
pub open spec fn piece_size_spec(piece_len: nat, total: nat, num: nat, index: nat) -> int {
    if index + 1 == num {
        total - piece_len * (num - 1)
    } else {
        piece_len as int
    }
}

/// What the workers of one download need to know of the torrent.
#[derive(Debug)]
pub struct FileDownloadInfo {
    bytes_per_piece: u64,
    total: u64,
    piece_hashes: Vec<[u8; 20]>,
    hash: [u8; 20],
}

impl FileDownloadInfo {
    pub closed spec fn piece_len(&self) -> nat {
        self.bytes_per_piece as nat
    }

    pub closed spec fn total(&self) -> nat {
        self.total as nat
    }

    pub closed spec fn hashes(&self) -> Seq<[u8; 20]> {
        self.piece_hashes@
    }

    pub closed spec fn info_hash(&self) -> Seq<u8> {
        self.hash@
    }

    /// The pieces cover the payload exactly, the last one nonempty.
    pub closed spec fn wf(&self) -> bool {
        &&& crate::metainfo::layout_ok(self.bytes_per_piece as int, self.piece_hashes@.len() as int, self.total as int)
        &&& self.piece_hashes@.len() <= u32::MAX
    }

    /// The download facts of a torrent, when its pieces cover its payload.
    pub fn from_torrent(file: &TorrentFile) -> (r: Option<Self>)
        ensures
            match r {
                Some(info) => {
                    &&& info.wf()
                    &&& info.piece_len() == file.num_bytes_per_piece
                    &&& info.total() == file.total_num_bytes
                    &&& info.hashes() == file.piece_hashes@
                    &&& info.info_hash() == file.hash@
                },
                None => !crate::metainfo::layout_ok(
                    file.num_bytes_per_piece as int,
                    file.piece_hashes@.len() as int,
                    file.total_num_bytes as int,
                ) || file.piece_hashes@.len() > u32::MAX,
            },
    {
        let n = file.piece_hashes.len();
        if n > 0xFFFF_FFFF {
            return None;
        }
        let pl = file.num_bytes_per_piece as u128;
        let total = file.total_num_bytes as u128;
        proof {
            assert(pl * (n as u128) <= 0xFFFF_FFFF_FFFF_FFFFu128 * 0xFFFF_FFFFu128) by (nonlinear_arith)
                requires
                    pl <= 0xFFFF_FFFF_FFFF_FFFFu128,
                    n <= 0xFFFF_FFFF,
            ;
            assert(n >= 1 ==> pl * ((n - 1) as u128) <= pl * (n as u128)) by (nonlinear_arith);
        }
        let lower_ok = if n == 0 { pl > 0 || total > 0 } else { pl * ((n - 1) as u128) < total };
        if !lower_ok || total > pl * (n as u128) {
            return None;
        }
        let mut hashes: Vec<[u8; 20]> = Vec::new();
        let mut i: usize = 0;
        while i < n
            invariant
                i <= n,
                n == file.piece_hashes@.len(),
                hashes@ == file.piece_hashes@.take(i as int),
            decreases n - i,
        {
            hashes.push(file.piece_hashes[i]);
            proof {
                assert(hashes@ =~= file.piece_hashes@.take(i + 1));
            }
            i = i + 1;
        }
        proof {
            assert(hashes@ =~= file.piece_hashes@);
        }
        Some(FileDownloadInfo {
            bytes_per_piece: file.num_bytes_per_piece,
            total: file.total_num_bytes,
            piece_hashes: hashes,
            hash: file.hash,
        })
    }

    pub fn num_pieces(&self) -> (r: u32)
        requires
            self.wf(),
        ensures
            r == self.hashes().len(),
    {
        self.piece_hashes.len() as u32
    }

    pub fn info_hash_bytes(&self) -> (r: [u8; 20])
        ensures
            r@ == self.info_hash(),
    {
        self.hash
    }

    /// The number of bytes of piece `index`: the piece length, but for the last
    /// piece, which holds what is left of the payload.
    pub fn piece_size(&self, index: u32) -> (r: u64)
        requires
            self.wf(),
            index < self.hashes().len(),
        ensures
            r == piece_size_spec(self.piece_len(), self.total(), self.hashes().len(), index as nat),
            0 < r <= self.piece_len(),
    {
        let n = self.piece_hashes.len();
        let pl = self.bytes_per_piece;
        if (index as usize) + 1 == n {
            proof {
                let k = (n - 1) as int;
                assert(pl * k < self.total <= pl * (k + 1));
                assert(pl * (k + 1) == pl * k + pl) by (nonlinear_arith);
            }
            let before = pl * ((n - 1) as u64);
            self.total - before
        } else {
            proof {
                let k = (n - 1) as int;
                assert(pl * k < self.total);
                assert(pl > 0) by (nonlinear_arith)
                    requires
                        pl * k < self.total,
                        k >= 1,
                        self.total <= pl * (k + 1),
                ;
            }
            pl
        }
    }

    /// Whether `data` hashes to the digest recorded for piece `index`.
    pub fn verify_piece(&self, index: u32, data: &[u8]) -> (r: bool)
        requires
            index < self.hashes().len(),
        ensures
            r == (sha1(data@) == self.hashes()[index as int]@),
    {
        let digest = sha1_hash(data);
        let expected = &self.piece_hashes[index as usize];
        let mut i: usize = 0;
        while i < 20
            invariant
                i <= 20,
                digest@.len() == 20,
                expected@.len() == 20,
                digest@ == sha1(data@),
                index < self.hashes().len(),
                *expected == self.hashes()[index as int],
                forall|j: int| 0 <= j < i ==> digest@[j] == expected@[j],
            decreases 20 - i,
        {
            if digest[i] != expected[i] {
                proof {
                    assert(digest@[i as int] != expected@[i as int]);
                    assert(digest@ != expected@);
                }
                return false;
            }
            i = i + 1;
        }
        proof {
            assert(digest@ =~= expected@);
        }
        true
    }
}

/// The bytes received so far of one piece.
#[derive(Debug)]
pub struct PieceDownloadProgress {
    pub offset: u32,
    pub size: u32,
    pub data: Vec<u8>,
}

impl PieceDownloadProgress {
    pub open spec fn size(&self) -> nat {
        self.size as nat
    }

    pub open spec fn received(&self) -> Seq<u8> {
        self.data@
    }

    pub open spec fn wf(&self) -> bool {
        self.offset <= self.size && self.data@.len() == self.offset
    }

    pub fn new(piece_size: u32) -> (r: Self)
        ensures
            r.wf(),
            r.size() == piece_size,
            r.offset == 0,
            r.received() == Seq::<u8>::empty(),
    {
        PieceDownloadProgress { offset: 0, size: piece_size, data: Vec::new() }
    }

    /// The bytes still missing.
    pub fn remaining(&self) -> (r: u32)
        requires
            self.wf(),
        ensures
            r == self.size() - self.offset,
    {
        self.size - self.offset
    }

    /// The size of the next block to ask for: what is missing, at most a block.
    pub fn get_next_block_size(&self) -> (r: u32)
        requires
            self.wf(),
        ensures
            r == if self.size() - self.offset < BLOCK_SIZE { self.size() - self.offset } else { BLOCK_SIZE as int },
    {
        let rem = self.remaining();
        if rem < BLOCK_SIZE {
            rem
        } else {
            BLOCK_SIZE
        }
    }

    pub fn complete(&self) -> (r: bool)
        requires
            self.wf(),
        ensures
            r == (self.offset == self.size()),
    {
        self.get_next_block_size() == 0
    }

    /// Appends a received block.
    pub fn add_block(&mut self, block: &[u8])
        requires
            old(self).wf(),
            old(self).offset + block@.len() <= old(self).size(),
        ensures
            final(self).wf(),
            final(self).size() == old(self).size(),
            final(self).offset == old(self).offset + block@.len(),
            final(self).received() == old(self).received() + block@,
    {
        crate::tracker::push_all(&mut self.data, block);
        self.offset = self.offset + block.len() as u32;
    }

    pub fn into_data(self) -> (r: Vec<u8>)
        ensures
            r@ == self.received(),
    {
        self.data
    }
}

/// The requests and replies of one piece's download from one peer.
#[derive(Debug)]
pub struct PieceDownload {
    pub piece: u32,
    pub progress: PieceDownloadProgress,
    pub choked: bool,
    pub request_size: u32,
}

impl PieceDownload {
    pub open spec fn wf(&self) -> bool {
        &&& self.progress.wf()
        &&& self.progress.offset + self.request_size <= self.progress.size()
    }

    pub fn new(piece: u32, size: u32) -> (r: Self)
        ensures
            r.wf(),
            r.piece == piece,
            r.progress.size() == size,
            r.progress.offset == 0,
            !r.choked,
    {
        PieceDownload { piece, progress: PieceDownloadProgress::new(size), choked: false, request_size: 0 }
    }

    /// The request to send next: none once the piece is whole or while the
    /// peer chokes us; else the next block, which becomes the awaited size.
    pub fn next_request(&mut self) -> (r: Option<Message>)
        requires
            old(self).wf(),
        ensures
            final(self).wf(),
            final(self).piece == old(self).piece,
            final(self).progress == old(self).progress,
            final(self).choked == old(self).choked,
            match r {
                Some(Message::Request { index, begin, length }) => {
                    &&& !old(self).choked
                    &&& old(self).progress.offset < old(self).progress.size()
                    &&& index == old(self).piece
                    &&& begin == old(self).progress.offset
                    &&& length == final(self).request_size
                    &&& length == if old(self).progress.size() - old(self).progress.offset < BLOCK_SIZE {
                        old(self).progress.size() - old(self).progress.offset
                    } else {
                        BLOCK_SIZE as int
                    }
                },
                None => {
                    &&& (old(self).choked || old(self).progress.offset == old(self).progress.size())
                    &&& final(self).request_size == old(self).request_size
                },
                _ => false,
            },
    {
        if self.progress.complete() || self.choked {
            return None;
        }
        self.request_size = self.progress.get_next_block_size();
        Some(Message::Request { index: self.piece, begin: self.progress.offset, length: self.request_size })
    }

    /// Takes in a message from the peer: a block is kept only when it is the
    /// awaited one of this piece; choke and unchoke stop and resume requests.
    pub fn on_message(&mut self, msg: Message)
        requires
            old(self).wf(),
        ensures
            final(self).wf(),
            final(self).piece == old(self).piece,
            final(self).progress.size() == old(self).progress.size(),
            match msg {
                Message::Piece { index, begin, bytes } => {
                    if index == old(self).piece && begin == old(self).progress.offset && bytes@.len()
                        == old(self).request_size {
                        &&& final(self).progress.received() == old(self).progress.received() + bytes@
                        &&& final(self).progress.offset == old(self).progress.offset + bytes@.len()
                        &&& final(self).request_size == 0
                    } else {
                        final(self).progress == old(self).progress
                    }
                },
                _ => final(self).progress == old(self).progress,
            },
            msg is Choke ==> final(self).choked,
            msg is Unchoke ==> !final(self).choked,
            !(msg is Choke || msg is Unchoke) ==> final(self).choked == old(self).choked,
    {
        match msg {
            Message::Piece { index, begin, bytes } => {
                if index == self.piece && begin == self.progress.offset && bytes.len() as u64 == self.request_size as u64 {
                    self.progress.add_block(bytes.as_slice());
                    self.request_size = 0;
                }
            },
            Message::Choke => {
                self.choked = true;
            },
            Message::Unchoke => {
                self.choked = false;
            },
            _ => {},
        }
    }
}

/// The state of a worker toward its peer.
#[derive(Debug, Clone, Copy, PartialEq, Eq, Structural)]
pub enum State {
    /// Waiting for the peer's bitfield.
    Curious,
    /// The peer is a seed; waiting to be unchoked.
    Interested,
    /// Done with this peer.
    NotInterested,
    /// Waiting to be unchoked again.
    Choked,
    /// Free to request.
    Unchoked,
}

/// How one attempt at a piece ended.
#[derive(Debug, Clone, Copy, PartialEq, Eq, Structural)]
pub enum PieceOutcome {
    /// The piece matched its digest and was written.
    Saved,
    /// The piece did not match its digest.
    HashMismatch,
    /// The connection failed during the attempt.
    TransportError,
    /// The verified piece could not be written; the worker stops.
    DiskError,
}

/// Whether a bitfield of `num` pieces is all ones.
pub open spec fn is_seed(bytes: Seq<u8>, num: nat) -> bool {
    bytes.len() >= crate::bitfield::bytes_for(num) && forall|i: int| 0 <= i < num ==> crate::bitfield::packed_bit(bytes, i)
}

/// The next state on a message, and whether to send `Interested`.
pub open spec fn transition(state: State, msg: Message, num: nat) -> (State, bool) {
    match state {
        State::Curious => match msg {
            Message::Bitfield { bitfield } => if is_seed(bitfield@, num) {
                (State::Interested, true)
            } else {
                (State::NotInterested, false)
            },
            _ => (State::Curious, false),
        },
        State::Interested | State::Choked => if msg is Unchoke {
            (State::Unchoked, false)
        } else {
            (state, false)
        },
        _ => (state, false),
    }
}

/// The state after an attempt at a piece.
pub open spec fn after_attempt(outcome: PieceOutcome) -> State {
    match outcome {
        PieceOutcome::TransportError => State::Choked,
        PieceOutcome::DiskError => State::NotInterested,
        _ => State::Unchoked,
    }
}

/// One worker's view of the download: its state toward the peer and the pieces
/// it failed on.
#[derive(Debug)]
pub struct Worker {
    pub state: State,
    pub skip_set: Vec<u32>,
}

impl Worker {
    pub fn new() -> (r: Self)
        ensures
            r.state == State::Curious,
            r.skip_set@.len() == 0,
    {
        Worker { state: State::Curious, skip_set: Vec::new() }
    }

    /// Takes in a message from the peer; returns whether to send `Interested`.
    pub fn handle_message(&mut self, msg: Message, num_pieces: usize) -> (r: bool)
        ensures
            (final(self).state, r) == transition(old(self).state, msg, num_pieces as nat),
            final(self).skip_set == old(self).skip_set,
    {
        match self.state {
            State::Curious => match msg {
                Message::Bitfield { bitfield } => {
                    let ghost bytes = bitfield@;
                    let seed = match Bitfield::try_from_vec(bitfield, num_pieces) {
                        Ok(bf) => {
                            let a = bf.all();
                            proof {
                                if a {
                                    assert forall|i: int| 0 <= i < num_pieces implies crate::bitfield::packed_bit(bytes, i) by {
                                        assert(bf@[i]);
                                    }
                                } else {
                                    let i = choose|i: int| 0 <= i < bf@.len() && !bf@[i];
                                    assert(!crate::bitfield::packed_bit(bytes, i));
                                }
                            }
                            a
                        },
                        Err(_) => false,
                    };
                    proof {
                        assert(seed == is_seed(bytes, num_pieces as nat));
                    }
                    if seed {
                        self.state = State::Interested;
                    } else {
                        self.state = State::NotInterested;
                    }
                    seed
                },
                _ => false,
            },
            State::Interested | State::Choked => {
                if let Message::Unchoke = msg {
                    self.state = State::Unchoked;
                }
                false
            },
            _ => false,
        }
    }

    /// Claims a piece to download; with none left to try the worker is done.
    pub fn claim_piece(&mut self, shared: &mut FileDownloadState) -> (r: Option<u32>)
        requires
            old(shared).wf(),
        ensures
            final(shared).wf(),
            final(shared).done_bits() == old(shared).done_bits(),
            final(self).skip_set == old(self).skip_set,
            match r {
                Some(p) => {
                    &&& old(shared).todo_seq().contains(p)
                    &&& p < old(shared).num_pieces()
                    &&& !old(self).skip_set@.contains(p)
                    &&& forall|q: u32|
                        final(shared).todo_seq().contains(q) <==> (old(shared).todo_seq().contains(q) && q != p)
                    &&& final(shared).claimed() == old(shared).claimed().insert(p)
                    &&& final(self).state == old(self).state
                },
                None => {
                    &&& forall|i: int|
                        0 <= i < old(shared).todo_seq().len() ==> old(self).skip_set@.contains(
                            #[trigger] old(shared).todo_seq()[i],
                        )
                    &&& final(self).state == State::NotInterested
                    &&& final(shared).todo_seq() == old(shared).todo_seq()
                    &&& final(shared).claimed() == old(shared).claimed()
                },
            },
    {
        let r = shared.claim(&self.skip_set);
        if r.is_none() {
            self.state = State::NotInterested;
        }
        r
    }

    /// Records how an attempt at a claimed piece ended: a saved piece is
    /// completed; otherwise the piece joins the skip set and goes back to the
    /// unclaimed ones, so no piece is left stranded.
    pub fn finish_piece(&mut self, shared: &mut FileDownloadState, piece: u32, outcome: PieceOutcome)
        requires
            old(shared).wf(),
            old(shared).claimed().contains(piece),
        ensures
            final(shared).wf(),
            final(self).state == after_attempt(outcome),
            final(shared).claimed() == old(shared).claimed().remove(piece),
            forall|i: int| 0 <= i < old(shared).num_pieces() && old(shared).done_bits()[i] ==> final(shared).done_bits()[i],
            outcome == PieceOutcome::Saved ==> {
                &&& final(shared).done_bits() == old(shared).done_bits().update(piece as int, true)
                &&& final(self).skip_set == old(self).skip_set
            },
            outcome != PieceOutcome::Saved ==> {
                &&& final(shared).done_bits() == old(shared).done_bits()
                &&& final(shared).todo_seq() == old(shared).todo_seq().push(piece)
                &&& final(self).skip_set@ == old(self).skip_set@.push(piece)
            },
    {
        match outcome {
            PieceOutcome::Saved => {
                shared.complete(piece);
                self.state = State::Unchoked;
            },
            PieceOutcome::HashMismatch => {
                self.skip_set.push(piece);
                shared.requeue(piece);
                self.state = State::Unchoked;
            },
            PieceOutcome::TransportError => {
                self.skip_set.push(piece);
                shared.requeue(piece);
                self.state = State::Choked;
            },
            PieceOutcome::DiskError => {
                self.skip_set.push(piece);
                shared.requeue(piece);
                self.state = State::NotInterested;
            },
        }
    }
}

} // verus!
