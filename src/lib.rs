//! A BitTorrent v1 leech client library: bencode, metainfo, tracker responses,
//! the peer wire protocol, the per-peer download state machine, the shared
//! piece bookkeeping and the layout of reassembled files.

use vstd::prelude::*;

pub mod bitfield;
pub mod bencode;
pub mod sha1;
pub mod metainfo;
pub mod tracker;
pub mod handshake;
pub mod message;
pub mod download;
pub mod util;
pub mod reassembly;

verus! {

/// Parses the bytes of a metainfo file named `filename`.
pub fn parse_torrent(filename: String, contents: &[u8]) -> (r: Result<
    metainfo::TorrentFile,
    metainfo::TorrentFileError,
>)
    ensures
        match r {
            Ok(t) => exists|ps: Seq<(Seq<u8>, bencode::Bencode)>|
                bencode::encode(bencode::Bencode::Dict(ps)) == contents@ && bencode::wf(
                    bencode::Bencode::Dict(ps),
                ) && metainfo::valid_metainfo(ps) && #[trigger] metainfo::torrent_matches(t, ps),
            Err(_) => forall|ps: Seq<(Seq<u8>, bencode::Bencode)>|
                bencode::encode(bencode::Bencode::Dict(ps)) == contents@ && bencode::wf(
                    bencode::Bencode::Dict(ps),
                ) ==> !#[trigger] metainfo::valid_metainfo(ps),
        },
{
    metainfo::TorrentFile::new(filename, contents)
}

} // verus!
pub mod md5;
