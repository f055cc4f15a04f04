use vstd::prelude::*;

use crate::handshake::PeerError;
use crate::sha1::be_word;

verus! {

#[derive(Debug, Clone, Copy, PartialEq, Eq, Structural)]
pub enum MessageId {
    Choke,
    Unchoke,
    Interested,
    NotInterested,
    Have,
    Bitfield,
    Request,
    Piece,
    Cancel,
}

pub open spec fn id_byte(id: MessageId) -> u8 {
    match id {
        MessageId::Choke => 0,
        MessageId::Unchoke => 1,
        MessageId::Interested => 2,
        MessageId::NotInterested => 3,
        MessageId::Have => 4,
        MessageId::Bitfield => 5,
        MessageId::Request => 6,
        MessageId::Piece => 7,
        MessageId::Cancel => 8,
    }
}

impl MessageId {
    /// The id that a byte stands for; `UnknownMessageId` past 8.
    pub fn from_byte(value: u8) -> (r: Result<Self, PeerError>)
        ensures
            match r {
                Ok(id) => value <= 8 && id_byte(id) == value,
                Err(e) => value > 8 && e == PeerError::UnknownMessageId(value),
            },
    {
        match value {
            0 => Ok(MessageId::Choke),
            1 => Ok(MessageId::Unchoke),
            2 => Ok(MessageId::Interested),
            3 => Ok(MessageId::NotInterested),
            4 => Ok(MessageId::Have),
            5 => Ok(MessageId::Bitfield),
            6 => Ok(MessageId::Request),
            7 => Ok(MessageId::Piece),
            8 => Ok(MessageId::Cancel),
            _ => Err(PeerError::UnknownMessageId(value)),
        }
    }

    pub fn to_byte(self) -> (r: u8)
        ensures
            r == id_byte(self),
    {
        match self {
            MessageId::Choke => 0,
            MessageId::Unchoke => 1,
            MessageId::Interested => 2,
            MessageId::NotInterested => 3,
            MessageId::Have => 4,
            MessageId::Bitfield => 5,
            MessageId::Request => 6,
            MessageId::Piece => 7,
            MessageId::Cancel => 8,
        }
    }
}

/// A message of the peer wire protocol. A bitfield is carried as its raw
/// bytes: only the receiver knows how many pieces it covers.
#[derive(Debug)]
pub enum Message {
    KeepAlive,
    Choke,
    Unchoke,
    Interested,
    NotInterested,
    Have { index: u32 },
    Bitfield { bitfield: Vec<u8> },
    Request { index: u32, begin: u32, length: u32 },
    Piece { index: u32, begin: u32, bytes: Vec<u8> },
    Cancel { index: u32, begin: u32, length: u32 },
}

/// `m` is what the frame body `body` (all bytes after the length prefix)
/// carries; surplus bytes of a fixed-size payload are ignored.
pub open spec fn carries(body: Seq<u8>, m: Message) -> bool {
    if body.len() == 0 {
        m is KeepAlive
    } else {
        let id = body[0];
        let p = body.subrange(1, body.len() as int);
        match m {
            Message::KeepAlive => false,
            Message::Choke => id == 0,
            Message::Unchoke => id == 1,
            Message::Interested => id == 2,
            Message::NotInterested => id == 3,
            Message::Have { index } => id == 4 && p.len() >= 4 && index == be_word(p, 0),
            Message::Bitfield { bitfield } => id == 5 && bitfield@ == p,
            Message::Request { index, begin, length } => {
                &&& id == 6
                &&& p.len() >= 12
                &&& index == be_word(p, 0)
                &&& begin == be_word(p, 4)
                &&& length == be_word(p, 8)
            },
            Message::Piece { index, begin, bytes } => {
                &&& id == 7
                &&& p.len() >= 8
                &&& index == be_word(p, 0)
                &&& begin == be_word(p, 4)
                &&& bytes@ == p.subrange(8, p.len() as int)
            },
            Message::Cancel { index, begin, length } => {
                &&& id == 8
                &&& p.len() >= 12
                &&& index == be_word(p, 0)
                &&& begin == be_word(p, 4)
                &&& length == be_word(p, 8)
            },
        }
    }
}

/// The payload that a message with id byte `id` needs at the least.
pub open spec fn min_payload(id: u8) -> nat {
    if id == 4 {
        4
    } else if id == 6 || id == 8 {
        12
    } else if id == 7 {
        8
    } else {
        0
    }
}

/// The big-endian bytes of `x`.
pub open spec fn be_bytes(x: u32) -> Seq<u8> {
    seq![
        #[verifier::truncate]
        ((x >> 24u32) as u8),
        #[verifier::truncate]
        ((x >> 16u32) as u8),
        #[verifier::truncate]
        ((x >> 8u32) as u8),
        #[verifier::truncate]
        (x as u8),
    ]
}

proof fn lemma_be_round_trip(x: u32)
    ensures
        be_word(be_bytes(x), 0) == x,
{
    let b = be_bytes(x);
    let b0 = b[0];
    let b1 = b[1];
    let b2 = b[2];
    let b3 = b[3];
    assert(((b0 as u32) << 24u32) | ((b1 as u32) << 16u32) | ((b2 as u32) << 8u32) | (b3 as u32) == x)
        by (bit_vector)
        requires
            b0 == #[verifier::truncate] ((x >> 24u32) as u8),
            b1 == #[verifier::truncate] ((x >> 16u32) as u8),
            b2 == #[verifier::truncate] ((x >> 8u32) as u8),
            b3 == #[verifier::truncate] (x as u8),
    ;
}

fn read_u32(b: &[u8], o: usize) -> (r: u32)
    requires
        o + 4 <= b@.len(),
    ensures
        r == be_word(b@, o as int),
{
    ((b[o] as u32) << 24u32) | ((b[o + 1] as u32) << 16u32) | ((b[o + 2] as u32) << 8u32) | (b[o
        + 3] as u32)
}

fn push_u32(out: &mut Vec<u8>, x: u32)
    ensures
        final(out)@ == old(out)@ + be_bytes(x),
{
    out.push(#[verifier::truncate] ((x >> 24u32) as u8));
    out.push(#[verifier::truncate] ((x >> 16u32) as u8));
    out.push(#[verifier::truncate] ((x >> 8u32) as u8));
    out.push(#[verifier::truncate] (x as u8));
    proof {
        assert(final(out)@ =~= old(out)@ + be_bytes(x));
    }
}

fn copy_from(b: &[u8], start: usize) -> (r: Vec<u8>)
    requires
        start <= b@.len(),
    ensures
        r@ == b@.subrange(start as int, b@.len() as int),
{
    let mut v: Vec<u8> = Vec::new();
    let mut i = start;
    while i < b.len()
        invariant
            start <= i <= b@.len(),
            v@ == b@.subrange(start as int, i as int),
        decreases b@.len() - i,
    {
        v.push(b[i]);
        proof {
            assert(v@ =~= b@.subrange(start as int, i + 1));
        }
        i = i + 1;
    }
    v
}

impl Message {
    /// Reads the body of a frame, the bytes that follow its length prefix.
    pub fn decode(body: &[u8]) -> (r: Result<Self, PeerError>)
        ensures
            r is Ok <==> (body@.len() == 0 || (body@[0] <= 8 && body@.len() - 1 >= min_payload(body@[0]))),
            match r {
                Ok(m) => carries(body@, m),
                Err(PeerError::UnknownMessageId(id)) => body@.len() > 0 && body@[0] > 8 && id == body@[0],
                Err(PeerError::PieceMessageTooSmall(n)) => body@.len() > 0 && body@[0] == 7 && n == body@.len() - 1,
                Err(PeerError::PayloadTooSmall(id, n)) => {
                    &&& body@.len() > 0
                    &&& id == body@[0]
                    &&& id != 7
                    &&& id <= 8
                    &&& n == body@.len() - 1
                    &&& n < min_payload(id)
                },
                Err(_) => false,
            },
    {
        let len = body.len();
        if len == 0 {
            return Ok(Message::KeepAlive);
        }
        let id = MessageId::from_byte(body[0])?;
        let n = len - 1;
        match id {
            MessageId::Choke => Ok(Message::Choke),
            MessageId::Unchoke => Ok(Message::Unchoke),
            MessageId::Interested => Ok(Message::Interested),
            MessageId::NotInterested => Ok(Message::NotInterested),
            MessageId::Have => {
                if n < 4 {
                    return Err(PeerError::PayloadTooSmall(4, n));
                }
                let index = read_u32(body, 1);
                proof {
                    let p = body@.subrange(1, len as int);
                    assert(be_word(p, 0) == be_word(body@, 1));
                }
                Ok(Message::Have { index })
            },
            MessageId::Bitfield => {
                let bitfield = copy_from(body, 1);
                Ok(Message::Bitfield { bitfield })
            },
            MessageId::Piece => {
                if n < 8 {
                    return Err(PeerError::PieceMessageTooSmall(n));
                }
                let index = read_u32(body, 1);
                let begin = read_u32(body, 5);
                let bytes = copy_from(body, 9);
                proof {
                    let p = body@.subrange(1, len as int);
                    assert(be_word(p, 0) == be_word(body@, 1));
                    assert(be_word(p, 4) == be_word(body@, 5));
                    assert(p.subrange(8, p.len() as int) =~= body@.subrange(9, len as int));
                }
                Ok(Message::Piece { index, begin, bytes })
            },
            MessageId::Request | MessageId::Cancel => {
                if n < 12 {
                    return Err(PeerError::PayloadTooSmall(id.to_byte(), n));
                }
                let index = read_u32(body, 1);
                let begin = read_u32(body, 5);
                let length = read_u32(body, 9);
                proof {
                    let p = body@.subrange(1, len as int);
                    assert(be_word(p, 0) == be_word(body@, 1));
                    assert(be_word(p, 4) == be_word(body@, 5));
                    assert(be_word(p, 8) == be_word(body@, 9));
                }
                if id == MessageId::Request {
                    Ok(Message::Request { index, begin, length })
                } else {
                    Ok(Message::Cancel { index, begin, length })
                }
            },
        }
    }

    /// The frame of a message: its body, after the body's length as four
    /// big-endian bytes. Fixed-size payloads carry no surplus.
    pub fn encode(&self) -> (r: Vec<u8>)
        requires
            match self {
                Message::Bitfield { bitfield } => bitfield@.len() + 1 <= u32::MAX,
                Message::Piece { bytes, .. } => bytes@.len() + 9 <= u32::MAX,
                _ => true,
            },
        ensures
            r@.len() >= 4,
            be_word(r@, 0) == r@.len() - 4,
            carries(r@.subrange(4, r@.len() as int), *self),
            match self {
                Message::KeepAlive => r@.len() == 4,
                Message::Have { .. } => r@.len() == 9,
                Message::Request { .. } | Message::Cancel { .. } => r@.len() == 17,
                Message::Bitfield { bitfield } => r@.len() == 5 + bitfield@.len(),
                Message::Piece { bytes, .. } => r@.len() == 13 + bytes@.len(),
                _ => r@.len() == 5,
            },
    {
        let mut out: Vec<u8> = Vec::new();
        match self {
            Message::KeepAlive => {
                push_u32(&mut out, 0);
            },
            Message::Choke => {
                Self::encode_header(MessageId::Choke, 1, &mut out);
            },
            Message::Unchoke => {
                Self::encode_header(MessageId::Unchoke, 1, &mut out);
            },
            Message::Interested => {
                Self::encode_header(MessageId::Interested, 1, &mut out);
            },
            Message::NotInterested => {
                Self::encode_header(MessageId::NotInterested, 1, &mut out);
            },
            Message::Have { index } => {
                Self::encode_header(MessageId::Have, 5, &mut out);
                push_u32(&mut out, *index);
            },
            Message::Bitfield { bitfield } => {
                Self::encode_header(MessageId::Bitfield, 1 + bitfield.len() as u32, &mut out);
                crate::tracker::push_all(&mut out, bitfield.as_slice());
            },
            Message::Request { index, begin, length } => {
                Self::encode_12(true, *index, *begin, *length, &mut out);
            },
            Message::Cancel { index, begin, length } => {
                Self::encode_12(false, *index, *begin, *length, &mut out);
            },
            Message::Piece { index, begin, bytes } => {
                Self::encode_header(MessageId::Piece, 9 + bytes.len() as u32, &mut out);
                push_u32(&mut out, *index);
                push_u32(&mut out, *begin);
                crate::tracker::push_all(&mut out, bytes.as_slice());
            },
        }
        proof {
            let body = out@.subrange(4, out@.len() as int);
            assert(out@.subrange(0, 4) =~= be_bytes((out@.len() - 4) as u32));
            lemma_be_round_trip((out@.len() - 4) as u32);
            assert(be_word(out@, 0) == be_word(out@.subrange(0, 4), 0));
            if body.len() > 0 {
                let p = body.subrange(1, body.len() as int);
                match self {
                    Message::Have { index } => {
                        assert(p.subrange(0, 4) =~= be_bytes(*index));
                        lemma_be_round_trip(*index);
                        assert(be_word(p, 0) == be_word(p.subrange(0, 4), 0));
                    },
                    Message::Request { index, begin, length } | Message::Cancel { index, begin, length } => {
                        assert(p.subrange(0, 4) =~= be_bytes(*index));
                        assert(p.subrange(4, 8) =~= be_bytes(*begin));
                        assert(p.subrange(8, 12) =~= be_bytes(*length));
                        lemma_be_round_trip(*index);
                        lemma_be_round_trip(*begin);
                        lemma_be_round_trip(*length);
                        assert(be_word(p, 0) == be_word(p.subrange(0, 4), 0));
                        assert(be_word(p, 4) == be_word(p.subrange(4, 8), 0));
                        assert(be_word(p, 8) == be_word(p.subrange(8, 12), 0));
                    },
                    Message::Piece { index, begin, bytes } => {
                        assert(p.subrange(0, 4) =~= be_bytes(*index));
                        assert(p.subrange(4, 8) =~= be_bytes(*begin));
                        lemma_be_round_trip(*index);
                        lemma_be_round_trip(*begin);
                        assert(be_word(p, 0) == be_word(p.subrange(0, 4), 0));
                        assert(be_word(p, 4) == be_word(p.subrange(4, 8), 0));
                        assert(p.subrange(8, p.len() as int) =~= bytes@);
                    },
                    Message::Bitfield { bitfield } => {
                        assert(p =~= bitfield@);
                    },
                    _ => {},
                }
            }
        }
        out
    }

    /// Appends the length prefix and the id byte of a message.
    fn encode_header(id: MessageId, length: u32, out: &mut Vec<u8>)
        ensures
            final(out)@ == old(out)@ + be_bytes(length) + seq![id_byte(id)],
    {
        push_u32(out, length);
        out.push(id.to_byte());
        proof {
            assert(final(out)@ =~= old(out)@ + be_bytes(length) + seq![id_byte(id)]);
        }
    }

    /// Appends a request (or cancel) frame for a block.
    fn encode_12(request: bool, index: u32, begin: u32, length: u32, out: &mut Vec<u8>)
        ensures
            final(out)@ == old(out)@ + be_bytes(13) + seq![if request { 6u8 } else { 8u8 }] + be_bytes(index)
                + be_bytes(begin) + be_bytes(length),
    {
        let id = if request { MessageId::Request } else { MessageId::Cancel };
        Self::encode_header(id, 13, out);
        push_u32(out, index);
        push_u32(out, begin);
        push_u32(out, length);
        proof {
            assert(final(out)@ =~= old(out)@ + be_bytes(13) + seq![if request { 6u8 } else { 8u8 }]
                + be_bytes(index) + be_bytes(begin) + be_bytes(length));
        }
    }
}

} // verus!
