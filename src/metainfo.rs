use vstd::prelude::*;

use crate::bencode::{
    bytes_at, compare_keys, decode, encode, encode_bytes, encode_pairs, lemma_view_items, lemma_view_pairs, view_items, view_pairs, wf,
    Bencode, BencodeError, BencodeValue,
};
use crate::sha1::{sha1, sha1_hash};

verus! {

// The keys of a metainfo document.
pub open spec fn key_announce() -> Seq<u8> {
    seq![0x61u8, 0x6Eu8, 0x6Eu8, 0x6Fu8, 0x75u8, 0x6Eu8, 0x63u8, 0x65u8]
}

pub open spec fn key_announce_list() -> Seq<u8> {
    seq![0x61u8, 0x6Eu8, 0x6Eu8, 0x6Fu8, 0x75u8, 0x6Eu8, 0x63u8, 0x65u8, 0x2Du8, 0x6Cu8, 0x69u8, 0x73u8, 0x74u8]
}

pub open spec fn key_creation_date() -> Seq<u8> {
    seq![0x63u8, 0x72u8, 0x65u8, 0x61u8, 0x74u8, 0x69u8, 0x6Fu8, 0x6Eu8, 0x20u8, 0x64u8, 0x61u8, 0x74u8, 0x65u8]
}

pub open spec fn key_comment() -> Seq<u8> {
    seq![0x63u8, 0x6Fu8, 0x6Du8, 0x6Du8, 0x65u8, 0x6Eu8, 0x74u8]
}

pub open spec fn key_created_by() -> Seq<u8> {
    seq![0x63u8, 0x72u8, 0x65u8, 0x61u8, 0x74u8, 0x65u8, 0x64u8, 0x20u8, 0x62u8, 0x79u8]
}

pub open spec fn key_encoding() -> Seq<u8> {
    seq![0x65u8, 0x6Eu8, 0x63u8, 0x6Fu8, 0x64u8, 0x69u8, 0x6Eu8, 0x67u8]
}

pub open spec fn key_info() -> Seq<u8> {
    seq![0x69u8, 0x6Eu8, 0x66u8, 0x6Fu8]
}

pub open spec fn key_piece_length() -> Seq<u8> {
    seq![0x70u8, 0x69u8, 0x65u8, 0x63u8, 0x65u8, 0x20u8, 0x6Cu8, 0x65u8, 0x6Eu8, 0x67u8, 0x74u8, 0x68u8]
}

pub open spec fn key_pieces() -> Seq<u8> {
    seq![0x70u8, 0x69u8, 0x65u8, 0x63u8, 0x65u8, 0x73u8]
}

pub open spec fn key_private() -> Seq<u8> {
    seq![0x70u8, 0x72u8, 0x69u8, 0x76u8, 0x61u8, 0x74u8, 0x65u8]
}

pub open spec fn key_name() -> Seq<u8> {
    seq![0x6Eu8, 0x61u8, 0x6Du8, 0x65u8]
}

pub open spec fn key_length() -> Seq<u8> {
    seq![0x6Cu8, 0x65u8, 0x6Eu8, 0x67u8, 0x74u8, 0x68u8]
}

pub open spec fn key_md5sum() -> Seq<u8> {
    seq![0x6Du8, 0x64u8, 0x35u8, 0x73u8, 0x75u8, 0x6Du8]
}

pub open spec fn key_files() -> Seq<u8> {
    seq![0x66u8, 0x69u8, 0x6Cu8, 0x65u8, 0x73u8]
}

pub open spec fn key_path() -> Seq<u8> {
    seq![0x70u8, 0x61u8, 0x74u8, 0x68u8]
}

fn k_announce() -> (r: Vec<u8>)
    ensures
        r@ == key_announce(),
{
    let r: Vec<u8> = vec![0x61u8, 0x6Eu8, 0x6Eu8, 0x6Fu8, 0x75u8, 0x6Eu8, 0x63u8, 0x65u8];
    proof {
        assert(r@ =~= key_announce());
    }
    r
}

fn k_announce_list() -> (r: Vec<u8>)
    ensures
        r@ == key_announce_list(),
{
    let r: Vec<u8> = vec![0x61u8, 0x6Eu8, 0x6Eu8, 0x6Fu8, 0x75u8, 0x6Eu8, 0x63u8, 0x65u8, 0x2Du8, 0x6Cu8, 0x69u8, 0x73u8, 0x74u8];
    proof {
        assert(r@ =~= key_announce_list());
    }
    r
}

fn k_creation_date() -> (r: Vec<u8>)
    ensures
        r@ == key_creation_date(),
{
    let r: Vec<u8> = vec![0x63u8, 0x72u8, 0x65u8, 0x61u8, 0x74u8, 0x69u8, 0x6Fu8, 0x6Eu8, 0x20u8, 0x64u8, 0x61u8, 0x74u8, 0x65u8];
    proof {
        assert(r@ =~= key_creation_date());
    }
    r
}

fn k_comment() -> (r: Vec<u8>)
    ensures
        r@ == key_comment(),
{
    let r: Vec<u8> = vec![0x63u8, 0x6Fu8, 0x6Du8, 0x6Du8, 0x65u8, 0x6Eu8, 0x74u8];
    proof {
        assert(r@ =~= key_comment());
    }
    r
}

fn k_created_by() -> (r: Vec<u8>)
    ensures
        r@ == key_created_by(),
{
    let r: Vec<u8> = vec![0x63u8, 0x72u8, 0x65u8, 0x61u8, 0x74u8, 0x65u8, 0x64u8, 0x20u8, 0x62u8, 0x79u8];
    proof {
        assert(r@ =~= key_created_by());
    }
    r
}

fn k_encoding() -> (r: Vec<u8>)
    ensures
        r@ == key_encoding(),
{
    let r: Vec<u8> = vec![0x65u8, 0x6Eu8, 0x63u8, 0x6Fu8, 0x64u8, 0x69u8, 0x6Eu8, 0x67u8];
    proof {
        assert(r@ =~= key_encoding());
    }
    r
}

fn k_info() -> (r: Vec<u8>)
    ensures
        r@ == key_info(),
{
    let r: Vec<u8> = vec![0x69u8, 0x6Eu8, 0x66u8, 0x6Fu8];
    proof {
        assert(r@ =~= key_info());
    }
    r
}

fn k_piece_length() -> (r: Vec<u8>)
    ensures
        r@ == key_piece_length(),
{
    let r: Vec<u8> = vec![0x70u8, 0x69u8, 0x65u8, 0x63u8, 0x65u8, 0x20u8, 0x6Cu8, 0x65u8, 0x6Eu8, 0x67u8, 0x74u8, 0x68u8];
    proof {
        assert(r@ =~= key_piece_length());
    }
    r
}

fn k_pieces() -> (r: Vec<u8>)
    ensures
        r@ == key_pieces(),
{
    let r: Vec<u8> = vec![0x70u8, 0x69u8, 0x65u8, 0x63u8, 0x65u8, 0x73u8];
    proof {
        assert(r@ =~= key_pieces());
    }
    r
}

fn k_private() -> (r: Vec<u8>)
    ensures
        r@ == key_private(),
{
    let r: Vec<u8> = vec![0x70u8, 0x72u8, 0x69u8, 0x76u8, 0x61u8, 0x74u8, 0x65u8];
    proof {
        assert(r@ =~= key_private());
    }
    r
}

fn k_name() -> (r: Vec<u8>)
    ensures
        r@ == key_name(),
{
    let r: Vec<u8> = vec![0x6Eu8, 0x61u8, 0x6Du8, 0x65u8];
    proof {
        assert(r@ =~= key_name());
    }
    r
}

fn k_length() -> (r: Vec<u8>)
    ensures
        r@ == key_length(),
{
    let r: Vec<u8> = vec![0x6Cu8, 0x65u8, 0x6Eu8, 0x67u8, 0x74u8, 0x68u8];
    proof {
        assert(r@ =~= key_length());
    }
    r
}

fn k_md5sum() -> (r: Vec<u8>)
    ensures
        r@ == key_md5sum(),
{
    let r: Vec<u8> = vec![0x6Du8, 0x64u8, 0x35u8, 0x73u8, 0x75u8, 0x6Du8];
    proof {
        assert(r@ =~= key_md5sum());
    }
    r
}

fn k_files() -> (r: Vec<u8>)
    ensures
        r@ == key_files(),
{
    let r: Vec<u8> = vec![0x66u8, 0x69u8, 0x6Cu8, 0x65u8, 0x73u8];
    proof {
        assert(r@ =~= key_files());
    }
    r
}

fn k_path() -> (r: Vec<u8>)
    ensures
        r@ == key_path(),
{
    let r: Vec<u8> = vec![0x70u8, 0x61u8, 0x74u8, 0x68u8];
    proof {
        assert(r@ =~= key_path());
    }
    r
}


/// What `String::from_utf8` makes of a byte string: its text when the bytes are
/// valid UTF-8.
pub uninterp spec fn utf8_text(b: Seq<u8>) -> Option<Seq<char>>;

/// Whether `url::Url::parse` accepts a text as an absolute URL.
pub uninterp spec fn url_parses(s: Seq<char>) -> bool;

/// Relies on `String::from_utf8`: the text of valid UTF-8 bytes, none otherwise;
/// the outcome depends on the bytes alone, and ASCII bytes are their own
/// characters.
#[verifier::external_body]
pub(crate) fn text_from_bytes(bytes: &Vec<u8>) -> (r: Option<String>)
    ensures
        match r {
            Some(s) => utf8_text(bytes@) == Some(s@),
            None => utf8_text(bytes@) is None,
        },
        (forall|i: int| 0 <= i < bytes@.len() ==> #[trigger] bytes@[i] < 128) ==> (r is Some
            && r->Some_0@ == bytes@.map_values(|b: u8| b as char)),
{
    String::from_utf8(bytes.clone()).ok()
}

/// Relies on `url::Url::parse`: whether the text parses as an absolute URL
/// depends on the text alone.
#[verifier::external_body]
fn check_url(s: &String) -> (r: bool)
    ensures
        r == url_parses(s@),
{
    url::Url::parse(s).is_ok()
}

/// The value stored under `key`, the first such pair when there are several.
pub open spec fn lookup(ps: Seq<(Seq<u8>, Bencode)>, key: Seq<u8>) -> Option<Bencode>
    decreases ps.len(),
{
    if ps.len() == 0 {
        None
    } else if ps[0].0 == key {
        Some(ps[0].1)
    } else {
        lookup(ps.subrange(1, ps.len() as int), key)
    }
}

pub open spec fn oview(v: Option<&BencodeValue>) -> Option<Bencode> {
    match v {
        Some(x) => Some(x@),
        None => None,
    }
}

/// The dictionary entries of a value, if it is a dictionary.
pub open spec fn entries(v: Option<Bencode>) -> Seq<(Seq<u8>, Bencode)> {
    match v {
        Some(Bencode::Dict(ps)) => ps,
        _ => Seq::empty(),
    }
}

pub open spec fn text_of(v: Bencode) -> Option<Seq<char>> {
    match v {
        Bencode::Bytes(b) => utf8_text(b),
        _ => None,
    }
}

pub open spec fn uint_of(v: Bencode) -> Option<nat> {
    match v {
        Bencode::Int(n) => if n >= 0 {
            Some(n as nat)
        } else {
            None
        },
        _ => None,
    }
}

pub open spec fn opt_text_ok(v: Option<Bencode>, mandatory: bool) -> bool {
    match v {
        None => !mandatory,
        Some(x) => text_of(x) is Some,
    }
}

pub open spec fn opt_uint_ok(v: Option<Bencode>, mandatory: bool) -> bool {
    match v {
        None => !mandatory,
        Some(x) => uint_of(x) is Some,
    }
}

/// A list whose items are all UTF-8 byte strings.
pub open spec fn strings_ok(v: Bencode) -> bool {
    match v {
        Bencode::List(items) => forall|i: int| 0 <= i < items.len() ==> text_of(#[trigger] items[i]) is Some,
        _ => false,
    }
}

pub open spec fn md5_ok(v: Option<Bencode>) -> bool {
    match v {
        None => true,
        Some(Bencode::Bytes(b)) => b.len() == 16,
        _ => false,
    }
}

pub fn find<'a>(pairs: &'a Vec<(Vec<u8>, BencodeValue)>, key: &Vec<u8>) -> (r: Option<&'a BencodeValue>)
    ensures
        oview(r) == lookup(view_pairs(pairs@), key@),
{
    let ghost vp = view_pairs(pairs@);
    proof {
        lemma_view_pairs(pairs@);
        assert(vp.subrange(0, vp.len() as int) =~= vp);
    }
    let mut i: usize = 0;
    while i < pairs.len()
        invariant
            i <= pairs@.len(),
            vp == view_pairs(pairs@),
            vp.len() == pairs@.len(),
            forall|j: int| 0 <= j < pairs@.len() ==> #[trigger] vp[j] == (pairs@[j].0@, pairs@[j].1@),
            lookup(vp, key@) == lookup(vp.subrange(i as int, vp.len() as int), key@),
        decreases pairs@.len() - i,
    {
        let ghost rest = vp.subrange(i as int, vp.len() as int);
        proof {
            assert(rest[0] == vp[i as int]);
            assert(rest.subrange(1, rest.len() as int) =~= vp.subrange(i + 1, vp.len() as int));
        }
        if compare_keys(&pairs[i].0, key) == 0 {
            return Some(&pairs[i].1);
        }
        i = i + 1;
    }
    proof {
        assert(vp.subrange(i as int, vp.len() as int).len() == 0);
    }
    None
}


pub open spec fn private_ok(v: Option<Bencode>) -> bool {
    match v {
        None => true,
        Some(x) => uint_of(x) is Some && uint_of(x)->Some_0 <= 1,
    }
}

pub open spec fn pieces_ok(v: Option<Bencode>) -> bool {
    match v {
        Some(Bencode::Bytes(b)) => b.len() % 20 == 0,
        _ => false,
    }
}

pub open spec fn announce_list_ok(v: Option<Bencode>) -> bool {
    match v {
        None => true,
        Some(Bencode::List(items)) => items.len() > 0 && forall|i: int|
            0 <= i < items.len() ==> tier_ok(#[trigger] items[i]),
        _ => false,
    }
}

/// A file entry of a multi-file torrent.
pub open spec fn file_ok(ps: Seq<(Seq<u8>, Bencode)>) -> bool {
    &&& opt_uint_ok(lookup(ps, key_length()), true)
    &&& lookup(ps, key_path()) is Some
    &&& strings_ok(lookup(ps, key_path())->Some_0)
    &&& lookup(ps, key_path())->Some_0->List_0.len() > 0
    &&& md5_ok(lookup(ps, key_md5sum()))
}

pub open spec fn files_ok(v: Bencode) -> bool {
    match v {
        Bencode::List(items) => items.len() > 0 && forall|i: int|
            0 <= i < items.len() ==> (#[trigger] items[i] is Dict && file_ok(items[i]->Dict_0)),
        _ => false,
    }
}

/// The length that a file entry declares.
pub open spec fn file_length(v: Bencode) -> nat {
    match v {
        Bencode::Dict(ps) => match lookup(ps, key_length()) {
            Some(x) => match uint_of(x) {
                Some(n) => n,
                None => 0,
            },
            None => 0,
        },
        _ => 0,
    }
}

pub open spec fn files_total(items: Seq<Bencode>) -> nat
    decreases items.len(),
{
    if items.len() == 0 {
        0
    } else {
        files_total(items.drop_last()) + file_length(items.last())
    }
}

pub open spec fn mode_ok(ips: Seq<(Seq<u8>, Bencode)>) -> bool {
    match lookup(ips, key_files()) {
        Some(f) => files_ok(f),
        None => opt_uint_ok(lookup(ips, key_length()), true) && md5_ok(lookup(ips, key_md5sum())),
    }
}

/// The total length of the payload that the info dictionary declares.
pub open spec fn total_length(ips: Seq<(Seq<u8>, Bencode)>) -> nat {
    match lookup(ips, key_files()) {
        Some(Bencode::List(items)) => files_total(items),
        _ => match lookup(ips, key_length()) {
            Some(x) => match uint_of(x) {
                Some(n) => n,
                None => 0,
            },
            None => 0,
        },
    }
}

/// Pieces of `piece_len` bytes, `num` of them, hold exactly `total` bytes with
/// a nonempty final piece.
pub open spec fn layout_ok(piece_len: int, num: int, total: int) -> bool {
    piece_len * (num - 1) < total <= piece_len * num
}

pub open spec fn uint_at(ps: Seq<(Seq<u8>, Bencode)>, key: Seq<u8>) -> nat {
    match lookup(ps, key) {
        Some(x) => match uint_of(x) {
            Some(n) => n,
            None => 0,
        },
        None => 0,
    }
}

pub open spec fn text_at(ps: Seq<(Seq<u8>, Bencode)>, key: Seq<u8>) -> Seq<char> {
    match lookup(ps, key) {
        Some(x) => match text_of(x) {
            Some(t) => t,
            None => Seq::empty(),
        },
        None => Seq::empty(),
    }
}

pub open spec fn bytes_of(v: Option<Bencode>) -> Seq<u8> {
    match v {
        Some(Bencode::Bytes(b)) => b,
        _ => Seq::empty(),
    }
}

/// The checks of a top-level dictionary up to the piece length.
pub open spec fn checks_before_private(ps: Seq<(Seq<u8>, Bencode)>) -> bool {
    let info = lookup(ps, key_info());
    let ips = entries(info);
    &&& opt_text_ok(lookup(ps, key_announce()), true)
    &&& url_parses(text_at(ps, key_announce()))
    &&& announce_list_ok(lookup(ps, key_announce_list()))
    &&& opt_uint_ok(lookup(ps, key_creation_date()), false)
    &&& opt_text_ok(lookup(ps, key_comment()), false)
    &&& opt_text_ok(lookup(ps, key_created_by()), false)
    &&& opt_text_ok(lookup(ps, key_encoding()), false)
    &&& info matches Some(Bencode::Dict(_))
    &&& opt_uint_ok(lookup(ips, key_piece_length()), true)
}

/// Every check of a top-level dictionary but the one on the lengths.
pub open spec fn checks_before_layout(ps: Seq<(Seq<u8>, Bencode)>) -> bool {
    let ips = entries(lookup(ps, key_info()));
    &&& checks_before_private(ps)
    &&& private_ok(lookup(ips, key_private()))
    &&& pieces_ok(lookup(ips, key_pieces()))
    &&& opt_text_ok(lookup(ips, key_name()), true)
    &&& mode_ok(ips)
}

/// The payload fits in 64 bits and the pieces cover it exactly.
pub open spec fn lengths_ok(ips: Seq<(Seq<u8>, Bencode)>) -> bool {
    &&& total_length(ips) <= u64::MAX
    &&& layout_ok(
        uint_at(ips, key_piece_length()) as int,
        (bytes_of(lookup(ips, key_pieces())).len() / 20) as int,
        total_length(ips) as int,
    )
}

/// A top-level dictionary that describes a torrent.
pub open spec fn valid_metainfo(ps: Seq<(Seq<u8>, Bencode)>) -> bool {
    checks_before_layout(ps) && lengths_ok(entries(lookup(ps, key_info())))
}

#[derive(Debug)]
pub enum TorrentFileError {
    BencodeError(String, BencodeError),
    FileIsNotDictionary,
    KeyDoesNotMapToString(&'static str),
    MissingRequiredKey(&'static str),
    KeyDoesNotMapToInteger(&'static str),
    NegativeInteger(i64),
    KeyDoesNotMapToDictionary(&'static str),
    KeyDoesNotMapToList(&'static str),
    InvalidMd5Length(usize),
    InvalidPrivateValue(u64),
    KeyDoesNotMapToListOfStrings(&'static str),
    KeyMapsToAnEmptyList(&'static str),
    InvalidNumberOfPieces(usize),
    InvalidAnnounceListElement,
    InvalidString(Vec<u8>),
    InvalidAnnounceUrl(String),
    LengthMismatch(u128, u128),
}

/// One file of a multi-file torrent.
#[derive(Debug, Clone)]
pub struct MultiFileInfo {
    pub length: u64,
    pub md5sum: Option<[u8; 16]>,
    pub path: Vec<String>,
}

#[derive(Debug, Clone)]
pub enum FileModeInfo {
    Single { filename: String, length: u64, md5sum: Option<[u8; 16]> },
    Multiple { directory: String, files: Vec<MultiFileInfo> },
}

/// A parsed metainfo file.
#[derive(Debug, Clone)]
pub struct TorrentFile {
    pub announce: String,
    pub announce_list: Vec<Vec<String>>,
    pub creation_date: Option<u64>,
    pub comment: Option<String>,
    pub created_by: Option<String>,
    pub encoding: Option<String>,
    pub private: bool,
    pub info: FileModeInfo,
    pub total_num_bytes: u64,
    pub num_bytes_per_piece: u64,
    pub num_pieces: usize,
    pub piece_hashes: Vec<[u8; 20]>,
    pub hash: [u8; 20],
    pub filename: String,
}

pub open spec fn md5_matches(m: Option<[u8; 16]>, v: Option<Bencode>) -> bool {
    match m {
        Some(a) => v == Some(Bencode::Bytes(a@)),
        None => v is None,
    }
}

pub open spec fn texts_match(list: Seq<String>, v: Bencode) -> bool {
    &&& list.len() == v->List_0.len()
    &&& forall|i: int| 0 <= i < list.len() ==> text_of(v->List_0[i]) == Some(#[trigger] list[i]@)
}

pub open spec fn file_matches(f: MultiFileInfo, ps: Seq<(Seq<u8>, Bencode)>) -> bool {
    &&& f.length == uint_at(ps, key_length())
    &&& texts_match(f.path@, lookup(ps, key_path())->Some_0)
    &&& md5_matches(f.md5sum, lookup(ps, key_md5sum()))
}

pub open spec fn hashes_match(h: Seq<[u8; 20]>, b: Seq<u8>) -> bool {
    &&& h.len() == b.len() / 20
    &&& forall|i: int| 0 <= i < h.len() ==> (#[trigger] h[i])@ == b.subrange(20 * i, 20 * i + 20)
}


impl TorrentFile {
    fn convert_string(value: &BencodeValue) -> (r: Option<String>)
        ensures
            match r {
                Some(t) => text_of(value@) == Some(t@),
                None => text_of(value@) is None,
            },
    {
        match value {
            BencodeValue::ByteString(text) => text_from_bytes(text),
            _ => None,
        }
    }

    fn extract_string(value: Option<&BencodeValue>, name: &'static str, mandatory: bool) -> (r:
        Result<Option<String>, TorrentFileError>)
        ensures
            r is Ok <==> opt_text_ok(oview(value), mandatory),
            match r {
                Ok(Some(t)) => value is Some && text_of(oview(value)->Some_0) == Some(t@),
                Ok(None) => value is None,
                Err(_) => true,
            },
    {
        match value {
            Some(v) => match Self::convert_string(v) {
                Some(s) => Ok(Some(s)),
                None => Err(TorrentFileError::KeyDoesNotMapToString(name)),
            },
            None => if mandatory {
                Err(TorrentFileError::MissingRequiredKey(name))
            } else {
                Ok(None)
            },
        }
    }

    pub fn extract_uint(value: Option<&BencodeValue>, name: &'static str, mandatory: bool) -> (r:
        Result<Option<u64>, TorrentFileError>)
        ensures
            r is Ok <==> opt_uint_ok(oview(value), mandatory),
            match r {
                Ok(Some(n)) => value is Some && uint_of(oview(value)->Some_0) == Some(n as nat),
                Ok(None) => value is None,
                Err(_) => true,
            },
    {
        match value {
            Some(v) => match v {
                BencodeValue::Integer(num) => {
                    if *num < 0 {
                        Err(TorrentFileError::NegativeInteger(*num))
                    } else {
                        Ok(Some(*num as u64))
                    }
                },
                _ => Err(TorrentFileError::KeyDoesNotMapToInteger(name)),
            },
            None => if mandatory {
                Err(TorrentFileError::MissingRequiredKey(name))
            } else {
                Ok(None)
            },
        }
    }

    fn extract_list_of_string(value: Option<&BencodeValue>, name: &'static str, mandatory: bool) -> (r:
        Result<Vec<String>, TorrentFileError>)
        ensures
            r is Ok <==> match oview(value) {
                None => !mandatory,
                Some(v) => strings_ok(v),
            },
            match r {
                Ok(list) => match oview(value) {
                    None => list@.len() == 0,
                    Some(v) => texts_match(list@, v),
                },
                Err(_) => true,
            },
    {
        let mut list: Vec<String> = Vec::new();
        match value {
            Some(v) => match v {
                BencodeValue::List(elements) => {
                    let ghost items = view_items(elements@);
                    proof {
                        lemma_view_items(elements@);
                    }
                    let mut i: usize = 0;
                    while i < elements.len()
                        invariant
                            i <= elements@.len(),
                            items == view_items(elements@),
                            items.len() == elements@.len(),
                            forall|j: int| 0 <= j < elements@.len() ==> #[trigger] items[j] == elements@[j]@,
                            v@ == Bencode::List(items),
                            oview(value) == Some(v@),
                            list@.len() == i,
                            forall|j: int| 0 <= j < i ==> text_of(items[j]) == Some(#[trigger] list@[j]@),
                            forall|j: int| 0 <= j < i ==> text_of(#[trigger] items[j]) is Some,
                        decreases elements@.len() - i,
                    {
                        match Self::convert_string(&elements[i]) {
                            Some(s) => list.push(s),
                            None => {
                                proof {
                                    assert(items[i as int] == elements@[i as int]@);
                                    assert(text_of(items[i as int]) is None);
                                    assert(oview(value) == Some(v@));
                                    assert(!strings_ok(v@));
                                }
                                return Err(TorrentFileError::KeyDoesNotMapToString(name));
                            },
                        }
                        i = i + 1;
                    }
                },
                _ => {
                    return Err(TorrentFileError::KeyDoesNotMapToList(name));
                },
            },
            None => {
                return if mandatory {
                    Err(TorrentFileError::MissingRequiredKey(name))
                } else {
                    Ok(list)
                };
            },
        }
        Ok(list)
    }

    fn extract_md5sum(value: Option<&BencodeValue>) -> (r: Result<Option<[u8; 16]>, TorrentFileError>)
        ensures
            r is Ok <==> md5_ok(oview(value)),
            match r {
                Ok(m) => md5_matches(m, oview(value)),
                Err(_) => true,
            },
    {
        match value {
            None => Ok(None),
            Some(BencodeValue::ByteString(b)) => {
                if b.len() != 16 {
                    return Err(TorrentFileError::InvalidMd5Length(b.len()));
                }
                let a: [u8; 16] = [
                    b[0], b[1], b[2], b[3], b[4], b[5], b[6], b[7],
                    b[8], b[9], b[10], b[11], b[12], b[13], b[14], b[15],
                ];
                proof {
                    assert(a@ =~= b@);
                }
                Ok(Some(a))
            },
            Some(_) => Err(TorrentFileError::KeyDoesNotMapToString("md5sum")),
        }
    }

    fn extract_pieces(value: Option<&BencodeValue>) -> (r: Result<Vec<[u8; 20]>, TorrentFileError>)
        ensures
            r is Ok <==> pieces_ok(oview(value)),
            match r {
                Ok(h) => hashes_match(h@, bytes_of(oview(value))),
                Err(TorrentFileError::MissingRequiredKey(_)) => value is None,
                Err(TorrentFileError::KeyDoesNotMapToString(_)) => value is Some && !(oview(value)->Some_0 is Bytes),
                Err(TorrentFileError::InvalidNumberOfPieces(n)) => {
                    &&& oview(value) matches Some(Bencode::Bytes(b))
                    &&& n == bytes_of(oview(value)).len()
                    &&& n % 20 != 0
                },
                Err(_) => false,
            },
    {
        match value {
            Some(BencodeValue::ByteString(s)) => {
                let length = s.len();
                if length % 20 != 0 {
                    return Err(TorrentFileError::InvalidNumberOfPieces(length));
                }
                let count = length / 20;
                let mut hashes: Vec<[u8; 20]> = Vec::new();
                let mut i: usize = 0;
                while i < count
                    invariant
                        i <= count,
                        count == s@.len() / 20,
                        length == s@.len(),
                        length % 20 == 0,
                        hashes@.len() == i,
                        forall|j: int| 0 <= j < i ==> (#[trigger] hashes@[j])@ == s@.subrange(20 * j, 20 * j + 20),
                    decreases count - i,
                {
                    let o = 20 * i;
                    let a: [u8; 20] = [
                        s[o], s[o + 1], s[o + 2], s[o + 3], s[o + 4], s[o + 5], s[o + 6], s[o + 7],
                        s[o + 8], s[o + 9], s[o + 10], s[o + 11], s[o + 12], s[o + 13], s[o + 14],
                        s[o + 15], s[o + 16], s[o + 17], s[o + 18], s[o + 19],
                    ];
                    proof {
                        assert(a@ =~= s@.subrange(20 * i as int, 20 * i + 20));
                    }
                    hashes.push(a);
                    i = i + 1;
                }
                Ok(hashes)
            },
            Some(_) => Err(TorrentFileError::KeyDoesNotMapToString("pieces")),
            None => Err(TorrentFileError::MissingRequiredKey("pieces")),
        }
    }

    fn extract_multi_file_info(items: &Vec<(Vec<u8>, BencodeValue)>) -> (r: Result<MultiFileInfo, TorrentFileError>)
        ensures
            r is Ok <==> file_ok(view_pairs(items@)),
            match r {
                Ok(f) => file_matches(f, view_pairs(items@)),
                Err(_) => true,
            },
    {
        let length = match Self::extract_uint(find(items, &k_length()), "length", true)? {
            Some(n) => n,
            None => {
                return Err(TorrentFileError::MissingRequiredKey("length"));
            },
        };
        let path = Self::extract_list_of_string(find(items, &k_path()), "path", true)?;
        if path.len() == 0 {
            return Err(TorrentFileError::KeyMapsToAnEmptyList("path"));
        }
        let md5sum = Self::extract_md5sum(find(items, &k_md5sum()))?;
        Ok(MultiFileInfo { length, md5sum, path })
    }

    fn extract_announce_list(value: Option<&BencodeValue>) -> (r: Result<Vec<Vec<String>>, TorrentFileError>)
        ensures
            r is Ok <==> announce_list_ok(oview(value)),
            match r {
                Ok(list) => match oview(value) {
                    Some(v) => announce_list_matches(list@, v->List_0),
                    None => list@.len() == 0,
                },
                Err(_) => true,
            },
    {
        let mut announce_list: Vec<Vec<String>> = Vec::new();
        if let Some(v) = value {
            match v {
                BencodeValue::List(elements) => {
                    if elements.len() == 0 {
                        return Err(TorrentFileError::KeyMapsToAnEmptyList("announce-list"));
                    }
                    let ghost items = view_items(elements@);
                    proof {
                        lemma_view_items(elements@);
                    }
                    let mut i: usize = 0;
                    while i < elements.len()
                        invariant
                            i <= elements@.len(),
                            items == view_items(elements@),
                            items.len() == elements@.len(),
                            forall|j: int| 0 <= j < elements@.len() ==> #[trigger] items[j] == elements@[j]@,
                            v@ == Bencode::List(items),
                            oview(value) == Some(v@),
                            announce_list@.len() == i,
                            forall|j: int| 0 <= j < i ==> tier_ok(#[trigger] items[j]),
                            forall|j: int| 0 <= j < i ==> tier_matches(#[trigger] announce_list@[j]@, items[j]),
                        decreases elements@.len() - i,
                    {
                        let element = &elements[i];
                        proof {
                            assert(items[i as int] == element@);
                        }
                        let inner_list = match element {
                            BencodeValue::List(_) => {
                                match Self::extract_list_of_string(Some(element), "announce-list", false) {
                                    Ok(l) => l,
                                    Err(e) => {
                                        proof {
                                            assert(!tier_ok(items[i as int]));
                                        }
                                        return Err(e);
                                    },
                                }
                            },
                            BencodeValue::ByteString(bytes) => {
                                match Self::convert_string(element) {
                                    Some(s) => {
                                        let mut one: Vec<String> = Vec::new();
                                        one.push(s);
                                        one
                                    },
                                    None => {
                                        proof {
                                            assert(!tier_ok(items[i as int]));
                                        }
                                        return Err(TorrentFileError::InvalidString(bytes.clone()));
                                    },
                                }
                            },
                            _ => {
                                return Err(TorrentFileError::InvalidAnnounceListElement);
                            },
                        };
                        announce_list.push(inner_list);
                        i = i + 1;
                    }
                },
                _ => {
                    return Err(TorrentFileError::KeyDoesNotMapToList("announce-list"));
                },
            }
        }
        Ok(announce_list)
    }
}

pub open spec fn tier_ok(v: Bencode) -> bool {
    match v {
        Bencode::List(_) => strings_ok(v),
        Bencode::Bytes(b) => utf8_text(b) is Some,
        _ => false,
    }
}

/// A tier of trackers: a list of URLs, or a single URL given on its own.
pub open spec fn tier_matches(list: Seq<String>, v: Bencode) -> bool {
    match v {
        Bencode::List(_) => texts_match(list, v),
        _ => list.len() == 1 && text_of(v) == Some(list[0]@),
    }
}

pub open spec fn announce_list_matches(list: Seq<Vec<String>>, items: Seq<Bencode>) -> bool {
    &&& list.len() == items.len()
    &&& forall|i: int| 0 <= i < list.len() ==> tier_matches((#[trigger] list[i])@, items[i])
}

pub open spec fn opt_text_matches(o: Option<String>, v: Option<Bencode>) -> bool {
    match o {
        Some(t) => v is Some && text_of(v->Some_0) == Some(t@),
        None => v is None,
    }
}

pub open spec fn files_match(files: Seq<MultiFileInfo>, items: Seq<Bencode>) -> bool {
    &&& files.len() == items.len()
    &&& forall|i: int| 0 <= i < files.len() ==> file_matches(#[trigger] files[i], items[i]->Dict_0)
}

/// The torrent holds what the top-level dictionary `ps` says.
pub open spec fn torrent_matches(t: TorrentFile, ps: Seq<(Seq<u8>, Bencode)>) -> bool {
    let info = lookup(ps, key_info());
    let ips = entries(info);
    &&& t.announce@ == text_at(ps, key_announce())
    &&& match lookup(ps, key_announce_list()) {
        Some(v) => announce_list_matches(t.announce_list@, v->List_0),
        None => t.announce_list@.len() == 0,
    }
    &&& match t.creation_date {
        Some(n) => lookup(ps, key_creation_date()) is Some && uint_at(ps, key_creation_date()) == n,
        None => lookup(ps, key_creation_date()) is None,
    }
    &&& opt_text_matches(t.comment, lookup(ps, key_comment()))
    &&& opt_text_matches(t.created_by, lookup(ps, key_created_by()))
    &&& opt_text_matches(t.encoding, lookup(ps, key_encoding()))
    &&& t.hash@ == sha1(encode(info->Some_0))
    &&& t.num_bytes_per_piece == uint_at(ips, key_piece_length())
    &&& t.private == (uint_at(ips, key_private()) == 1)
    &&& hashes_match(t.piece_hashes@, bytes_of(lookup(ips, key_pieces())))
    &&& t.num_pieces == t.piece_hashes@.len()
    &&& t.total_num_bytes == total_length(ips)
    &&& match t.info {
        FileModeInfo::Single { filename, length, md5sum } => {
            &&& lookup(ips, key_files()) is None
            &&& filename@ == text_at(ips, key_name())
            &&& length == uint_at(ips, key_length())
            &&& md5_matches(md5sum, lookup(ips, key_md5sum()))
        },
        FileModeInfo::Multiple { directory, files } => {
            &&& lookup(ips, key_files()) is Some
            &&& directory@ == text_at(ips, key_name())
            &&& files_match(files@, lookup(ips, key_files())->Some_0->List_0)
        },
    }
}

proof fn lemma_files_total_step(items: Seq<Bencode>, i: int)
    requires
        0 <= i < items.len(),
    ensures
        files_total(items.take(i + 1)) == files_total(items.take(i)) + file_length(items[i]),
{
    assert(items.take(i + 1).drop_last() =~= items.take(i));
}

impl TorrentFile {
    /// Reads a torrent from the bytes of a metainfo file named `filename`.
    pub fn new(filename: String, contents: &[u8]) -> (r: Result<Self, TorrentFileError>)
        ensures
            match r {
                Ok(t) => {
                    &&& crate::bencode::is_canonical(contents@)
                    &&& exists|ps: Seq<(Seq<u8>, Bencode)>|
                        encode(Bencode::Dict(ps)) == contents@ && wf(Bencode::Dict(ps))
                            && valid_metainfo(ps) && #[trigger] torrent_matches(t, ps)
                },
                Err(_) => forall|ps: Seq<(Seq<u8>, Bencode)>|
                    encode(Bencode::Dict(ps)) == contents@ && wf(Bencode::Dict(ps)) ==> !#[trigger] valid_metainfo(ps),
            },
    {
        match decode(contents) {
            Ok(bencode_value) => match bencode_value {
                BencodeValue::Dictionary(items) => {
                    let r = TorrentFile::extract(filename, &items);
                    proof {
                        assert(bencode_value@ == Bencode::Dict(view_pairs(items@)));
                    }
                    r
                },
                _ => {
                    proof {
                        assert forall|ps: Seq<(Seq<u8>, Bencode)>|
                            encode(Bencode::Dict(ps)) == contents@ && wf(Bencode::Dict(ps)) implies false by {
                            assert(encode(Bencode::Dict(ps)) == contents@);
                        }
                    }
                    Err(TorrentFileError::FileIsNotDictionary)
                },
            },
            Err(e) => {
                proof {
                    assert forall|ps: Seq<(Seq<u8>, Bencode)>|
                        encode(Bencode::Dict(ps)) == contents@ && wf(Bencode::Dict(ps)) implies false by {
                        assert(encode(Bencode::Dict(ps)) == contents@);
                    }
                }
                Err(TorrentFileError::BencodeError(filename, e))
            },
        }
    }

    /// Reads a torrent from the entries of a decoded top-level dictionary.
    pub fn extract(filename: String, items: &Vec<(Vec<u8>, BencodeValue)>) -> (r: Result<Self, TorrentFileError>)
        ensures
            r is Ok <==> valid_metainfo(view_pairs(items@)),
            match r {
                Ok(t) => torrent_matches(t, view_pairs(items@)) && t.filename == filename,
                Err(_) => true,
            },
            ({
                let ips = entries(lookup(view_pairs(items@), key_info()));
                checks_before_private(view_pairs(items@)) && !private_ok(lookup(ips, key_private()))
                    && opt_uint_ok(lookup(ips, key_private()), false) ==> r == Err::<
                    TorrentFile,
                    TorrentFileError,
                >(TorrentFileError::InvalidPrivateValue(uint_at(ips, key_private()) as u64))
            }),
            ({
                let ips = entries(lookup(view_pairs(items@), key_info()));
                checks_before_layout(view_pairs(items@)) && !lengths_ok(ips) ==> r == Err::<
                    TorrentFile,
                    TorrentFileError,
                >(
                    TorrentFileError::LengthMismatch(
                        total_length(ips) as u128,
                        (uint_at(ips, key_piece_length()) * (bytes_of(lookup(ips, key_pieces())).len()
                            / 20)) as u128,
                    ),
                )
            }),
    {
        let ghost ps = view_pairs(items@);
        let announce = match Self::extract_string(find(items, &k_announce()), "announce", true)? {
            Some(a) => a,
            None => {
                return Err(TorrentFileError::MissingRequiredKey("announce"));
            },
        };
        if !check_url(&announce) {
            return Err(TorrentFileError::InvalidAnnounceUrl(announce));
        }
        let announce_list = Self::extract_announce_list(find(items, &k_announce_list()))?;
        let creation_date = Self::extract_uint(find(items, &k_creation_date()), "creation date", false)?;
        let comment = Self::extract_string(find(items, &k_comment()), "comment", false)?;
        let created_by = Self::extract_string(find(items, &k_created_by()), "created by", false)?;
        let encoding = Self::extract_string(find(items, &k_encoding()), "encoding", false)?;
        let info_value = match find(items, &k_info()) {
            Some(v) => v,
            None => {
                return Err(TorrentFileError::MissingRequiredKey("info"));
            },
        };
        let info_items = match info_value {
            BencodeValue::Dictionary(d) => d,
            _ => {
                return Err(TorrentFileError::KeyDoesNotMapToDictionary("info"));
            },
        };
        let ghost ips = view_pairs(info_items@);
        proof {
            assert(entries(lookup(ps, key_info())) == ips);
        }
        let num_bytes_per_piece = match Self::extract_uint(find(info_items, &k_piece_length()), "piece length", true)? {
            Some(n) => n,
            None => {
                return Err(TorrentFileError::MissingRequiredKey("piece length"));
            },
        };
        let private = match Self::extract_uint(find(info_items, &k_private()), "private", false)? {
            Some(v) => {
                if v <= 1 {
                    v == 1
                } else {
                    return Err(TorrentFileError::InvalidPrivateValue(v));
                }
            },
            None => false,
        };
        let piece_hashes = Self::extract_pieces(find(info_items, &k_pieces()))?;
        let num_pieces = piece_hashes.len();
        let hash = sha1_hash(info_value.to_bytes().as_slice());
        let name = match Self::extract_string(find(info_items, &k_name()), "name", true)? {
            Some(n) => n,
            None => {
                return Err(TorrentFileError::MissingRequiredKey("name"));
            },
        };
        let (info, total) = match find(info_items, &k_files()) {
            Some(v) => {
                let elements = match v {
                    BencodeValue::List(elements) => elements,
                    _ => {
                        return Err(TorrentFileError::KeyDoesNotMapToListOfStrings("files"));
                    },
                };
                let ghost fitems = view_items(elements@);
                proof {
                    lemma_view_items(elements@);
                    assert(fitems.take(0) =~= Seq::<Bencode>::empty());
                }
                let mut files: Vec<MultiFileInfo> = Vec::new();
                let mut length: u128 = 0;
                let mut i: usize = 0;
                while i < elements.len()
                    invariant
                        i <= elements@.len(),
                        fitems == view_items(elements@),
                        fitems.len() == elements@.len(),
                        forall|j: int| 0 <= j < elements@.len() ==> #[trigger] fitems[j] == elements@[j]@,
                        v@ == Bencode::List(fitems),
                        ps == view_pairs(items@),
                        ips == view_pairs(info_items@),
                        entries(lookup(ps, key_info())) == ips,
                        lookup(ips, key_files()) == Some(v@),
                        private_ok(lookup(ips, key_private())),
                        files@.len() == i,
                        forall|j: int| 0 <= j < i ==> (#[trigger] fitems[j] is Dict && file_ok(fitems[j]->Dict_0)),
                        forall|j: int| 0 <= j < i ==> file_matches(#[trigger] files@[j], fitems[j]->Dict_0),
                        length == files_total(fitems.take(i as int)),
                        length <= i * 0xFFFF_FFFF_FFFF_FFFF,
                    decreases elements@.len() - i,
                {
                    proof {
                        assert(fitems[i as int] == elements@[i as int]@);
                    }
                    match &elements[i] {
                        BencodeValue::Dictionary(entries_i) => {
                            let e = match Self::extract_multi_file_info(entries_i) {
                                Ok(e) => e,
                                Err(err) => {
                                    proof {
                                        assert(!files_ok(v@));
                                    }
                                    return Err(err);
                                },
                            };
                            proof {
                                lemma_files_total_step(fitems, i as int);
                                assert(file_length(fitems[i as int]) == e.length);
                                assert(length + e.length <= (i + 1) * 0xFFFF_FFFF_FFFF_FFFF) by (nonlinear_arith)
                                    requires
                                        length <= i * 0xFFFF_FFFF_FFFF_FFFF,
                                        e.length <= 0xFFFF_FFFF_FFFF_FFFFu64,
                                ;
                            }
                            length = length + e.length as u128;
                            files.push(e);
                        },
                        _ => {
                            proof {
                                assert(!files_ok(v@));
                            }
                            return Err(TorrentFileError::KeyDoesNotMapToListOfStrings("files"));
                        },
                    }
                    i = i + 1;
                }
                if files.len() == 0 {
                    return Err(TorrentFileError::KeyMapsToAnEmptyList("files"));
                }
                proof {
                    assert(fitems.take(i as int) =~= fitems);
                }
                (FileModeInfo::Multiple { directory: name, files }, length)
            },
            None => {
                let length = match Self::extract_uint(find(info_items, &k_length()), "length", true)? {
                    Some(n) => n,
                    None => {
                        return Err(TorrentFileError::MissingRequiredKey("length"));
                    },
                };
                let md5sum = Self::extract_md5sum(find(info_items, &k_md5sum()))?;
                (FileModeInfo::Single { filename: name, length, md5sum }, length as u128)
            },
        };
        let pl = num_bytes_per_piece as u128;
        let np = num_pieces as u128;
        proof {
            assert(pl * np <= 0xFFFF_FFFF_FFFF_FFFFu128 * 0xFFFF_FFFF_FFFF_FFFFu128) by (nonlinear_arith)
                requires
                    pl <= 0xFFFF_FFFF_FFFF_FFFFu128,
                    np <= 0xFFFF_FFFF_FFFF_FFFFu128,
            ;
            assert(np >= 1 ==> pl * (np - 1) <= pl * np) by (nonlinear_arith);
        }
        let upper_bound = pl * np;
        let lower_ok = if np == 0 { pl > 0 || total > 0 } else { pl * (np - 1) < total };
        if total > 0xFFFF_FFFF_FFFF_FFFF || !lower_ok || total > upper_bound {
            return Err(TorrentFileError::LengthMismatch(total, upper_bound));
        }
        Ok(TorrentFile {
            announce,
            announce_list,
            creation_date,
            comment,
            created_by,
            encoding,
            private,
            info,
            total_num_bytes: total as u64,
            num_bytes_per_piece,
            num_pieces,
            piece_hashes,
            hash,
            filename,
        })
    }
}

proof fn lemma_at_right(x: Seq<u8>, y: Seq<u8>, a: int, e: Seq<u8>)
    requires
        bytes_at(y, a, e),
    ensures
        bytes_at(x + y, x.len() + a, e),
{
    assert((x + y).subrange(x.len() + a, x.len() + a + e.len()) =~= y.subrange(a, a + e.len()));
}

proof fn lemma_at_left(x: Seq<u8>, y: Seq<u8>, a: int, e: Seq<u8>)
    requires
        bytes_at(x, a, e),
    ensures
        bytes_at(x + y, a, e),
{
    assert((x + y).subrange(a, a + e.len()) =~= x.subrange(a, a + e.len()));
}

proof fn lemma_pairs_region(ps: Seq<(Seq<u8>, Bencode)>, key: Seq<u8>)
    requires
        lookup(ps, key) is Some,
    ensures
        exists|a: int| bytes_at(encode_pairs(ps), a, encode(lookup(ps, key)->Some_0)),
    decreases ps.len(),
{
    let head = encode_bytes(ps[0].0);
    let rest = ps.subrange(1, ps.len() as int);
    let v = lookup(ps, key)->Some_0;
    assert(encode_pairs(ps) == head + encode(ps[0].1) + encode_pairs(rest));
    if ps[0].0 == key {
        assert(bytes_at(encode(v), 0, encode(v))) by {
            assert(encode(v).subrange(0, encode(v).len() as int) =~= encode(v));
        }
        lemma_at_right(head, encode(v), 0, encode(v));
        lemma_at_left(head + encode(v), encode_pairs(rest), head.len() as int, encode(v));
    } else {
        lemma_pairs_region(rest, key);
        let a = choose|a: int| bytes_at(encode_pairs(rest), a, encode(v));
        lemma_at_right(head + encode(ps[0].1), encode_pairs(rest), a, encode(v));
    }
}

/// The info-hash is taken over the source's own bytes: in a canonical
/// document, the encoding of the value under any key, `info` among them, is a
/// run of the document's bytes, so hashing the re-encoded value hashes that
/// region of the file.
pub proof fn law_info_region(ps: Seq<(Seq<u8>, Bencode)>, key: Seq<u8>)
    requires
        lookup(ps, key) is Some,
    ensures
        exists|a: int| bytes_at(encode(Bencode::Dict(ps)), a, encode(lookup(ps, key)->Some_0)),
{
    let v = lookup(ps, key)->Some_0;
    lemma_pairs_region(ps, key);
    let a = choose|a: int| bytes_at(encode_pairs(ps), a, encode(v));
    lemma_at_right(seq![0x64u8], encode_pairs(ps), a, encode(v));
    lemma_at_left(seq![0x64u8] + encode_pairs(ps), seq![0x65u8], 1 + a, encode(v));
    assert(encode(Bencode::Dict(ps)) == seq![0x64u8] + encode_pairs(ps) + seq![0x65u8]);
}

} // verus!
