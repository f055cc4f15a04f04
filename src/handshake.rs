use vstd::prelude::*;

verus! {

/// The protocol name that opens every handshake.
pub open spec fn protocol_name() -> Seq<u8> {
    seq![0x42u8, 0x69u8, 0x74u8, 0x54u8, 0x6Fu8, 0x72u8, 0x72u8, 0x65u8, 0x6Eu8, 0x74u8, 0x20u8, 0x70u8, 0x72u8, 0x6Fu8, 0x74u8, 0x6Fu8, 0x63u8, 0x6Fu8, 0x6Cu8]
}

/// This client's peer id.
pub open spec fn local_peer_id() -> Seq<u8> {
    seq![0x21u8, 0x4Du8, 0x79u8, 0x53u8, 0x75u8, 0x70u8, 0x65u8, 0x72u8, 0x43u8, 0x6Fu8, 0x6Fu8, 0x6Cu8, 0x54u8, 0x6Fu8, 0x72u8, 0x72u8, 0x65u8, 0x6Eu8, 0x74u8, 0x21u8]
}

/// The peer id that this client sends.
pub fn peer_id() -> (r: [u8; 20])
    ensures
        r@ == local_peer_id(),
{
    let r: [u8; 20] = [0x21u8, 0x4Du8, 0x79u8, 0x53u8, 0x75u8, 0x70u8, 0x65u8, 0x72u8, 0x43u8, 0x6Fu8, 0x6Fu8, 0x6Cu8, 0x54u8, 0x6Fu8, 0x72u8, 0x72u8, 0x65u8, 0x6Eu8, 0x74u8, 0x21u8];
    proof {
        assert(r@ =~= local_peer_id());
    }
    r
}

fn protocol_name_bytes() -> (r: [u8; 19])
    ensures
        r@ == protocol_name(),
{
    let r: [u8; 19] = [0x42u8, 0x69u8, 0x74u8, 0x54u8, 0x6Fu8, 0x72u8, 0x72u8, 0x65u8, 0x6Eu8, 0x74u8, 0x20u8, 0x70u8, 0x72u8, 0x6Fu8, 0x74u8, 0x6Fu8, 0x63u8, 0x6Fu8, 0x6Cu8];
    proof {
        assert(r@ =~= protocol_name());
    }
    r
}

/// Errors of the peer protocol that concern the bytes exchanged.
#[derive(Debug)]
pub enum PeerError {
    InvalidHandshakeLength(usize),
    InvalidProtocolIdLength(u8),
    InvalidProtocolId([u8; 19]),
    MismatchedHash([u8; 20], [u8; 20]),
    UnknownMessageId(u8),
    PieceMessageTooSmall(usize),
    PayloadTooSmall(u8, usize),
}

/// The 68 bytes of a handshake.
pub open spec fn handshake_bytes(flags: Seq<u8>, info_hash: Seq<u8>, peer_id: Seq<u8>) -> Seq<u8> {
    seq![0x13u8] + protocol_name() + flags + info_hash + peer_id
}

#[derive(Debug)]
pub struct TorrentHandshake {
    pub flags: [u8; 8],
    pub info_hash: [u8; 20],
    pub peer_id: [u8; 20],
}

fn copy20(b: &[u8], o: usize) -> (r: [u8; 20])
    requires
        o + 20 <= b@.len(),
    ensures
        r@ == b@.subrange(o as int, o + 20),
{
    let r: [u8; 20] = [
        b[o], b[o + 1], b[o + 2], b[o + 3], b[o + 4], b[o + 5], b[o + 6], b[o + 7], b[o + 8],
        b[o + 9], b[o + 10], b[o + 11], b[o + 12], b[o + 13], b[o + 14], b[o + 15], b[o + 16],
        b[o + 17], b[o + 18], b[o + 19],
    ];
    proof {
        assert(r@ =~= b@.subrange(o as int, o + 20));
    }
    r
}

impl TorrentHandshake {
    /// Our handshake for a torrent: no flags, our peer id.
    pub fn new(info_hash: &[u8; 20]) -> (r: Self)
        ensures
            r.flags@ == Seq::new(8, |i: int| 0u8),
            r.info_hash@ == info_hash@,
            r.peer_id@ == local_peer_id(),
    {
        let r = TorrentHandshake { flags: [0u8; 8], info_hash: *info_hash, peer_id: peer_id() };
        proof {
            assert(r.flags@ =~= Seq::new(8, |i: int| 0u8));
        }
        r
    }

    /// The bytes of this handshake.
    pub fn to_bytes(&self) -> (r: Vec<u8>)
        ensures
            r@ == handshake_bytes(self.flags@, self.info_hash@, self.peer_id@),
    {
        let mut v: Vec<u8> = Vec::new();
        v.push(0x13);
        let p = protocol_name_bytes();
        let mut i: usize = 0;
        while i < 19
            invariant
                i <= 19,
                p@ == protocol_name(),
                v@ == seq![0x13u8] + p@.take(i as int),
            decreases 19 - i,
        {
            v.push(p[i]);
            proof {
                assert(v@ =~= seq![0x13u8] + p@.take(i + 1));
            }
            i = i + 1;
        }
        let ghost head = v@;
        i = 0;
        while i < 8
            invariant
                i <= 8,
                v@ == head + self.flags@.take(i as int),
            decreases 8 - i,
        {
            v.push(self.flags[i]);
            proof {
                assert(v@ =~= head + self.flags@.take(i + 1));
            }
            i = i + 1;
        }
        let ghost head2 = v@;
        i = 0;
        while i < 20
            invariant
                i <= 20,
                v@ == head2 + self.info_hash@.take(i as int),
            decreases 20 - i,
        {
            v.push(self.info_hash[i]);
            proof {
                assert(v@ =~= head2 + self.info_hash@.take(i + 1));
            }
            i = i + 1;
        }
        let ghost head3 = v@;
        i = 0;
        while i < 20
            invariant
                i <= 20,
                v@ == head3 + self.peer_id@.take(i as int),
            decreases 20 - i,
        {
            v.push(self.peer_id[i]);
            proof {
                assert(v@ =~= head3 + self.peer_id@.take(i + 1));
            }
            i = i + 1;
        }
        proof {
            assert(p@.take(19) =~= p@);
            assert(self.flags@.take(8) =~= self.flags@);
            assert(self.info_hash@.take(20) =~= self.info_hash@);
            assert(self.peer_id@.take(20) =~= self.peer_id@);
            assert(v@ =~= handshake_bytes(self.flags@, self.info_hash@, self.peer_id@));
        }
        v
    }

    /// Reads a received handshake: 68 bytes, the protocol name with its length
    /// first; the reserved bytes and the peer id are taken as they are.
    pub fn from_bytes(bytes: &[u8]) -> (r: Result<Self, PeerError>)
        ensures
            match r {
                Ok(h) => bytes@ == handshake_bytes(h.flags@, h.info_hash@, h.peer_id@),
                Err(PeerError::InvalidHandshakeLength(n)) => bytes@.len() != 68 && n == bytes@.len(),
                Err(PeerError::InvalidProtocolIdLength(n)) => bytes@.len() == 68 && bytes@[0] != 19 && n == bytes@[0],
                Err(PeerError::InvalidProtocolId(p)) => {
                    &&& bytes@.len() == 68
                    &&& bytes@[0] == 19
                    &&& bytes@.subrange(1, 20) != protocol_name()
                    &&& p@ == bytes@.subrange(1, 20)
                },
                Err(_) => false,
            },
            (bytes@.len() == 68 && bytes@[0] == 19 && bytes@.subrange(1, 20) == protocol_name()) ==> r is Ok,
    {
        if bytes.len() != 68 {
            return Err(PeerError::InvalidHandshakeLength(bytes.len()));
        }
        if bytes[0] != 19 {
            return Err(PeerError::InvalidProtocolIdLength(bytes[0]));
        }
        let p = protocol_name_bytes();
        let mut i: usize = 0;
        while i < 19
            invariant
                i <= 19,
                bytes@.len() == 68,
                bytes@[0] == 19,
                p@ == protocol_name(),
                forall|j: int| 0 <= j < i ==> bytes@[1 + j] == p@[j],
            decreases 19 - i,
        {
            if bytes[1 + i] != p[i] {
                let got: [u8; 19] = [
                    bytes[1], bytes[2], bytes[3], bytes[4], bytes[5], bytes[6], bytes[7], bytes[8],
                    bytes[9], bytes[10], bytes[11], bytes[12], bytes[13], bytes[14], bytes[15],
                    bytes[16], bytes[17], bytes[18], bytes[19],
                ];
                proof {
                    assert(got@ =~= bytes@.subrange(1, 20));
                    assert(bytes@.subrange(1, 20)[i as int] != protocol_name()[i as int]);
                }
                return Err(PeerError::InvalidProtocolId(got));
            }
            i = i + 1;
        }
        let flags: [u8; 8] = [bytes[20], bytes[21], bytes[22], bytes[23], bytes[24], bytes[25], bytes[26], bytes[27]];
        let info_hash = copy20(bytes, 28);
        let peer_id = copy20(bytes, 48);
        proof {
            assert(flags@ =~= bytes@.subrange(20, 28));
            assert(bytes@.subrange(1, 20) =~= protocol_name());
            assert(bytes@ =~= handshake_bytes(flags@, info_hash@, peer_id@));
        }
        Ok(TorrentHandshake { flags, info_hash, peer_id })
    }
}

/// Checks a peer's reply to our handshake: well formed and for our torrent.
pub fn check_handshake(info_hash: &[u8; 20], reply: &[u8]) -> (r: Result<TorrentHandshake, PeerError>)
    ensures
        match r {
            Ok(h) => h.info_hash@ == info_hash@ && reply@ == handshake_bytes(h.flags@, h.info_hash@, h.peer_id@),
            Err(PeerError::MismatchedHash(ours, theirs)) => {
                &&& ours@ == info_hash@
                &&& theirs@ != info_hash@
                &&& reply@.len() == 68
                &&& theirs@ == reply@.subrange(28, 48)
            },
            Err(_) => !(reply@.len() == 68 && reply@[0] == 19 && reply@.subrange(1, 20) == protocol_name()),
        },
{
    let theirs = TorrentHandshake::from_bytes(reply)?;
    let mut i: usize = 0;
    while i < 20
        invariant
            i <= 20,
            forall|j: int| 0 <= j < i ==> info_hash@[j] == theirs.info_hash@[j],
            reply@ == handshake_bytes(theirs.flags@, theirs.info_hash@, theirs.peer_id@),
        decreases 20 - i,
    {
        if info_hash[i] != theirs.info_hash[i] {
            proof {
                assert(reply@.subrange(28, 48) =~= theirs.info_hash@);
            }
            return Err(PeerError::MismatchedHash(*info_hash, theirs.info_hash));
        }
        i = i + 1;
    }
    proof {
        assert(info_hash@ =~= theirs.info_hash@);
    }
    Ok(theirs)
}

} // verus!
