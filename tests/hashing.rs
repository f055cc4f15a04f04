use torrent::md5::md5_hash;
use torrent::reassembly::{verify_md5, FileError};
use torrent::sha1::sha1_hash;
use torrent::util::{to_hex, to_string};

#[test]
fn sha1_known_vectors() {
    assert_eq!(to_string(&sha1_hash(b"abc")), "a9993e364706816aba3e25717850c26c9cd0d89d");
    assert_eq!(to_string(&sha1_hash(b"")), "da39a3ee5e6b4b0d3255bfef95601890afd80709");
    assert_eq!(to_string(&sha1_hash(&[b'a'; 1000])), "291e9a6c66994949b57ba5e650361e98fc36b1ba");
}

#[test]
fn hex_text_of_bytes() {
    assert_eq!(to_string(&[0x00, 0x0f, 0xa0, 0xff]), "000fa0ff");
    assert_eq!(to_hex(&[0xab]), b"ab".to_vec());
    assert_eq!(to_string(&[]), "");
}

#[test]
fn md5_known_vectors() {
    assert_eq!(to_string(&md5_hash(b"")), "d41d8cd98f00b204e9800998ecf8427e");
    assert_eq!(to_string(&md5_hash(b"abc")), "900150983cd24fb0d6963f7d28e17f72");
    assert_eq!(to_string(&md5_hash(&[b'a'; 1000])), "cabe45dcc9ae5b66ba86600cca6b8ba8");
}

#[test]
fn md5_mismatch_reported() {
    let digest = md5_hash(b"abc");
    assert!(verify_md5("f".to_string(), &digest, b"abc").is_ok());
    match verify_md5("f".to_string(), &digest, b"abd") {
        Err(FileError::Md5Mismatch { filename, expected, received }) => {
            assert_eq!(filename, "f");
            assert_eq!(expected, "900150983cd24fb0d6963f7d28e17f72");
            assert_eq!(received, to_string(&md5_hash(b"abd")));
        }
        other => panic!("unexpected {other:?}"),
    }
}
