use vstd::prelude::*;

use crate::bencode::{decimal, decode, write_decimal, Bencode, BencodeError, BencodeValue};
use crate::metainfo::{bytes_of, lookup, opt_uint_ok, uint_at, TorrentFile, TorrentFileError};

verus! {

pub open spec fn lit_port() -> Seq<u8> {
    seq![0x70u8, 0x6Fu8, 0x72u8, 0x74u8, 0x3Du8]
}

pub open spec fn lit_mid() -> Seq<u8> {
    seq![0x26u8, 0x75u8, 0x70u8, 0x6Cu8, 0x6Fu8, 0x61u8, 0x64u8, 0x65u8, 0x64u8, 0x3Du8, 0x30u8, 0x26u8, 0x64u8, 0x6Fu8, 0x77u8, 0x6Eu8, 0x6Cu8, 0x6Fu8, 0x61u8, 0x64u8, 0x65u8, 0x64u8, 0x3Du8, 0x30u8, 0x26u8, 0x63u8, 0x6Fu8, 0x6Du8, 0x70u8, 0x61u8, 0x63u8, 0x74u8, 0x3Du8, 0x31u8, 0x26u8, 0x6Cu8, 0x65u8, 0x66u8, 0x74u8, 0x3Du8]
}

pub open spec fn lit_hash() -> Seq<u8> {
    seq![0x26u8, 0x69u8, 0x6Eu8, 0x66u8, 0x6Fu8, 0x5Fu8, 0x68u8, 0x61u8, 0x73u8, 0x68u8, 0x3Du8]
}

pub open spec fn lit_id() -> Seq<u8> {
    seq![0x26u8, 0x70u8, 0x65u8, 0x65u8, 0x72u8, 0x5Fu8, 0x69u8, 0x64u8, 0x3Du8]
}

pub open spec fn key_interval() -> Seq<u8> {
    seq![0x69u8, 0x6Eu8, 0x74u8, 0x65u8, 0x72u8, 0x76u8, 0x61u8, 0x6Cu8]
}

pub open spec fn key_peers() -> Seq<u8> {
    seq![0x70u8, 0x65u8, 0x65u8, 0x72u8, 0x73u8]
}

fn x_lit_port() -> (r: Vec<u8>)
    ensures
        r@ == lit_port(),
{
    let r: Vec<u8> = vec![0x70u8, 0x6Fu8, 0x72u8, 0x74u8, 0x3Du8];
    proof {
        assert(r@ =~= lit_port());
    }
    r
}

fn x_lit_mid() -> (r: Vec<u8>)
    ensures
        r@ == lit_mid(),
{
    let r: Vec<u8> = vec![0x26u8, 0x75u8, 0x70u8, 0x6Cu8, 0x6Fu8, 0x61u8, 0x64u8, 0x65u8, 0x64u8, 0x3Du8, 0x30u8, 0x26u8, 0x64u8, 0x6Fu8, 0x77u8, 0x6Eu8, 0x6Cu8, 0x6Fu8, 0x61u8, 0x64u8, 0x65u8, 0x64u8, 0x3Du8, 0x30u8, 0x26u8, 0x63u8, 0x6Fu8, 0x6Du8, 0x70u8, 0x61u8, 0x63u8, 0x74u8, 0x3Du8, 0x31u8, 0x26u8, 0x6Cu8, 0x65u8, 0x66u8, 0x74u8, 0x3Du8];
    proof {
        assert(r@ =~= lit_mid());
    }
    r
}

fn x_lit_hash() -> (r: Vec<u8>)
    ensures
        r@ == lit_hash(),
{
    let r: Vec<u8> = vec![0x26u8, 0x69u8, 0x6Eu8, 0x66u8, 0x6Fu8, 0x5Fu8, 0x68u8, 0x61u8, 0x73u8, 0x68u8, 0x3Du8];
    proof {
        assert(r@ =~= lit_hash());
    }
    r
}

fn x_lit_id() -> (r: Vec<u8>)
    ensures
        r@ == lit_id(),
{
    let r: Vec<u8> = vec![0x26u8, 0x70u8, 0x65u8, 0x65u8, 0x72u8, 0x5Fu8, 0x69u8, 0x64u8, 0x3Du8];
    proof {
        assert(r@ =~= lit_id());
    }
    r
}

fn x_key_interval() -> (r: Vec<u8>)
    ensures
        r@ == key_interval(),
{
    let r: Vec<u8> = vec![0x69u8, 0x6Eu8, 0x74u8, 0x65u8, 0x72u8, 0x76u8, 0x61u8, 0x6Cu8];
    proof {
        assert(r@ =~= key_interval());
    }
    r
}

fn x_key_peers() -> (r: Vec<u8>)
    ensures
        r@ == key_peers(),
{
    let r: Vec<u8> = vec![0x70u8, 0x65u8, 0x65u8, 0x72u8, 0x73u8];
    proof {
        assert(r@ =~= key_peers());
    }
    r
}

/// An upper-case hexadecimal digit.
pub open spec fn hex_digit(n: int) -> u8 {
    if n < 10 {
        (0x30 + n) as u8
    } else {
        (0x37 + n) as u8
    }
}

pub open spec fn is_alphanumeric(c: u8) -> bool {
    (0x30 <= c <= 0x39) || (0x41 <= c <= 0x5A) || (0x61 <= c <= 0x7A)
}

pub open spec fn percent_byte(c: u8) -> Seq<u8> {
    if is_alphanumeric(c) {
        seq![c]
    } else {
        seq![0x25u8, hex_digit(c as int / 16), hex_digit(c as int % 16)]
    }
}

/// Letters and digits as they are; any other byte as `%` and two upper-case
/// hexadecimal digits.
pub open spec fn percent_encoded(b: Seq<u8>) -> Seq<u8>
    decreases b.len(),
{
    if b.len() == 0 {
        Seq::empty()
    } else {
        percent_encoded(b.drop_last()) + percent_byte(b.last())
    }
}

/// Relies on `percent_encoding::percent_encode` with `NON_ALPHANUMERIC`: ASCII
/// letters and digits pass through, every other byte becomes `%XX` with
/// upper-case hexadecimal digits.
#[verifier::external_body]
fn percent_encode_bytes(b: &[u8]) -> (r: Vec<u8>)
    ensures
        r@ == percent_encoded(b@),
{
    percent_encoding::percent_encode(b, percent_encoding::NON_ALPHANUMERIC).to_string().into_bytes()
}

pub fn push_all(out: &mut Vec<u8>, s: &[u8])
    ensures
        final(out)@ == old(out)@ + s@,
{
    let ghost start = out@;
    let mut i: usize = 0;
    while i < s.len()
        invariant
            i <= s@.len(),
            out@ == start + s@.take(i as int),
        decreases s@.len() - i,
    {
        out.push(s[i]);
        proof {
            assert(out@ =~= start + s@.take(i + 1));
        }
        i = i + 1;
    }
    proof {
        assert(s@.take(i as int) =~= s@);
    }
}

/// The query of an announce request.
pub open spec fn announce_query_spec(info_hash: Seq<u8>, peer_id: Seq<u8>, port: u16, left: u64) -> Seq<u8> {
    lit_port() + decimal(port as nat) + lit_mid() + decimal(left as nat) + lit_hash()
        + percent_encoded(info_hash) + lit_id() + percent_encoded(peer_id)
}

/// The query string of an announce request: the port, zero bytes up and down,
/// a compact peer list, the bytes left, then the info-hash and peer id
/// percent-encoded.
pub fn announce_query(info_hash: &[u8; 20], peer_id: &[u8; 20], port: u16, left: u64) -> (r: Vec<u8>)
    ensures
        r@ == announce_query_spec(info_hash@, peer_id@, port, left),
{
    let mut out: Vec<u8> = Vec::new();
    push_all(&mut out, x_lit_port().as_slice());
    write_decimal(port as u64, &mut out);
    push_all(&mut out, x_lit_mid().as_slice());
    write_decimal(left, &mut out);
    push_all(&mut out, x_lit_hash().as_slice());
    push_all(&mut out, percent_encode_bytes(info_hash.as_slice()).as_slice());
    push_all(&mut out, x_lit_id().as_slice());
    push_all(&mut out, percent_encode_bytes(peer_id.as_slice()).as_slice());
    proof {
        assert(out@ =~= announce_query_spec(info_hash@, peer_id@, port, left));
    }
    out
}

impl TorrentFile {
    /// The query of this torrent's announce request: what is left is the whole
    /// payload.
    pub fn announce_query(&self, peer_id: &[u8; 20], port: u16) -> (r: Vec<u8>)
        ensures
            r@ == announce_query_spec(self.hash@, peer_id@, port, self.total_num_bytes),
    {
        announce_query(&self.hash, peer_id, port, self.total_num_bytes)
    }
}

pub open spec fn bytes_len6(v: Option<Bencode>) -> bool {
    bytes_of(v).len() % 6 == 0
}

/// A peer's IPv4 address and TCP port.
#[derive(Debug, Clone, Copy, PartialEq, Eq)]
pub struct Peer {
    pub ip: [u8; 4],
    pub port: u16,
}

/// The peers of a compact peer list: six bytes each, four of address and two
/// of big-endian port.
pub open spec fn peers_match(peers: Seq<Peer>, b: Seq<u8>) -> bool {
    &&& peers.len() == b.len() / 6
    &&& forall|i: int|
        0 <= i < peers.len() ==> {
            &&& (#[trigger] peers[i]).ip@ == b.subrange(6 * i, 6 * i + 4)
            &&& peers[i].port == b[6 * i + 4] * 256 + b[6 * i + 5]
        }
}

#[derive(Debug, Clone)]
pub struct TrackerResponse {
    pub interval: u64,
    pub peers: Vec<Peer>,
}

#[derive(Debug)]
pub enum TrackerError {
    NonBencodedTrackerResponse(BencodeError),
    TrackerResponseNotADictionary,
    IllegalPeersLength(usize),
    MissingInterval,
    MalformedInterval(TorrentFileError),
    MissingPeers,
    MalformedPeersList,
}

/// Decodes a compact peer list.
pub fn extract_peers(value: Option<&BencodeValue>) -> (r: Result<Vec<Peer>, TrackerError>)
    ensures
        match value {
            None => r matches Err(TrackerError::MissingPeers),
            Some(BencodeValue::ByteString(b)) => match r {
                Ok(peers) => b@.len() % 6 == 0 && peers_match(peers@, b@),
                Err(e) => b@.len() % 6 != 0 && e == TrackerError::IllegalPeersLength(b@.len() as usize),
            },
            Some(_) => r matches Err(TrackerError::MalformedPeersList),
        },
{
    match value {
        Some(BencodeValue::ByteString(bytes)) => {
            if bytes.len() % 6 != 0 {
                return Err(TrackerError::IllegalPeersLength(bytes.len()));
            }
            let n = bytes.len();
            let count: usize = n / 6;
            let mut v: Vec<Peer> = Vec::new();
            let mut i: usize = 0;
            while i < count
                invariant
                    i <= count,
                    count == bytes@.len() / 6,
                    n == bytes@.len(),
                    bytes@.len() % 6 == 0,
                    v@.len() == i,
                    forall|j: int|
                        0 <= j < i ==> {
                            &&& (#[trigger] v@[j]).ip@ == bytes@.subrange(6 * j, 6 * j + 4)
                            &&& v@[j].port == bytes@[6 * j + 4] * 256 + bytes@[6 * j + 5]
                        },
                decreases count - i,
            {
                proof {
                    assert(6 * i + 6 <= n) by (nonlinear_arith)
                        requires
                            i < count,
                            count == n / 6,
                    ;
                }
                let start = i * 6;
                let ip: [u8; 4] = [bytes[start], bytes[start + 1], bytes[start + 2], bytes[start + 3]];
                let port: u16 = (bytes[start + 4] as u16) * 256 + bytes[start + 5] as u16;
                proof {
                    assert(ip@ =~= bytes@.subrange(6 * i as int, 6 * i + 4));
                }
                v.push(Peer { ip, port });
                i = i + 1;
            }
            Ok(v)
        },
        Some(_) => Err(TrackerError::MalformedPeersList),
        None => Err(TrackerError::MissingPeers),
    }
}

impl TrackerResponse {
    /// Reads a decoded tracker response: a dictionary with the announce
    /// interval and a compact peer list.
    pub fn from_value(value: &BencodeValue) -> (r: Result<Self, TrackerError>)
        ensures
            match value@ {
                Bencode::Dict(ps) => {
                    let iv = lookup(ps, key_interval());
                    let pv = lookup(ps, key_peers());
                    &&& (r is Ok) <==> (opt_uint_ok(iv, true) && (pv matches Some(Bencode::Bytes(b))) && bytes_len6(pv))
                    &&& iv is None ==> (r matches Err(TrackerError::MissingInterval))
                    &&& (iv is Some && !opt_uint_ok(iv, true)) ==> (r matches Err(TrackerError::MalformedInterval(_)))
                    &&& opt_uint_ok(iv, true) && pv is None ==> (r matches Err(TrackerError::MissingPeers))
                    &&& (opt_uint_ok(iv, true) && pv is Some && !(pv->Some_0 is Bytes)) ==> (r matches Err(TrackerError::MalformedPeersList))
                    &&& (opt_uint_ok(iv, true) && (pv matches Some(Bencode::Bytes(b))) && !bytes_len6(pv)) ==> r
                        == Err::<TrackerResponse, TrackerError>(
                        TrackerError::IllegalPeersLength(bytes_of(pv).len() as usize),
                    )
                    &&& match r {
                        Ok(t) => t.interval == uint_at(ps, key_interval()) && peers_match(t.peers@, pv->Some_0->Bytes_0),
                        Err(_) => true,
                    }
                },
                _ => r matches Err(TrackerError::TrackerResponseNotADictionary),
            },
    {
        match value {
            BencodeValue::Dictionary(items) => {
                let iv = crate::metainfo::find(items, &x_key_interval());
                if iv.is_none() {
                    return Err(TrackerError::MissingInterval);
                }
                let interval = match TorrentFile::extract_uint(iv, "interval", true) {
                    Ok(Some(n)) => n,
                    Ok(None) => {
                        return Err(TrackerError::MissingInterval);
                    },
                    Err(e) => {
                        return Err(TrackerError::MalformedInterval(e));
                    },
                };
                let pv = crate::metainfo::find(items, &x_key_peers());
                let peers = match extract_peers(pv) {
                    Ok(p) => p,
                    Err(e) => {
                        proof {
                            if let Some(BencodeValue::ByteString(b)) = pv {
                                assert(crate::metainfo::oview(pv) == Some(Bencode::Bytes(b@)));
                                assert(bytes_of(crate::metainfo::oview(pv)) == b@);
                                if b@.len() % 6 != 0 {
                                    assert(e == TrackerError::IllegalPeersLength(b@.len() as usize));
                                    assert(!bytes_len6(crate::metainfo::oview(pv)));
                                }
                            }
                        }
                        return Err(e);
                    },
                };
                Ok(TrackerResponse { interval, peers })
            },
            _ => Err(TrackerError::TrackerResponseNotADictionary),
        }
    }

    /// Reads the body of a tracker's reply.
    pub fn from_bytes(body: &[u8]) -> (r: Result<Self, TrackerError>)
        ensures
            !crate::bencode::is_canonical(body@) ==> (r matches Err(TrackerError::NonBencodedTrackerResponse(_))),
            forall|ps: Seq<(Seq<u8>, Bencode)>|
                crate::bencode::wf(Bencode::Dict(ps)) && #[trigger] crate::bencode::encode(Bencode::Dict(ps)) == body@ ==> {
                    &&& (r is Ok <==> response_ok(ps))
                    &&& match r {
                        Ok(t) => t.interval == uint_at(ps, key_interval()) && peers_match(
                            t.peers@,
                            bytes_of(lookup(ps, key_peers())),
                        ),
                        Err(_) => true,
                    }
                },
    {
        let value = match decode(body) {
            Ok(v) => v,
            Err(e) => {
                return Err(TrackerError::NonBencodedTrackerResponse(e));
            },
        };
        Self::from_value(&value)
    }
}

/// A tracker response dictionary with an interval and a compact peer list.
pub open spec fn response_ok(ps: Seq<(Seq<u8>, Bencode)>) -> bool {
    &&& opt_uint_ok(lookup(ps, key_interval()), true)
    &&& lookup(ps, key_peers()) matches Some(Bencode::Bytes(b))
    &&& bytes_len6(lookup(ps, key_peers()))
}

} // verus!
