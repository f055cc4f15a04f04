use torrent::metainfo::{FileModeInfo, MultiFileInfo};
use torrent::reassembly::{reassemble, FileError};

#[test]
fn reassembly_splits_pieces_into_files() {
    let pieces = vec![vec![0u8, 1, 2, 3], vec![4u8, 5, 6, 7], vec![8u8, 9, 0xA, 0xB]];
    let files = reassemble(&pieces, &vec![5, 7]).unwrap();
    assert_eq!(files, vec![vec![0u8, 1, 2, 3, 4], vec![5u8, 6, 7, 8, 9, 0xA, 0xB]]);
}

#[test]
fn reassembly_truncates_to_total() {
    let pieces = vec![vec![1u8, 2, 3, 4], vec![5u8, 6, 0, 0]];
    let files = reassemble(&pieces, &vec![6]).unwrap();
    assert_eq!(files, vec![vec![1u8, 2, 3, 4, 5, 6]]);
}

#[test]
fn reassembly_short_copy() {
    let pieces = vec![vec![1u8, 2, 3]];
    assert!(matches!(reassemble(&pieces, &vec![2, 2]), Err(FileError::CopyError(1, 2))));
}

#[test]
fn file_layout_of_modes() {
    let single = FileModeInfo::Single { filename: "a.bin".to_string(), length: 3, md5sum: None };
    let f = single.files();
    assert_eq!(f.len(), 1);
    assert_eq!(f[0].path, vec!["a.bin".to_string()]);
    let multi = FileModeInfo::Multiple {
        directory: "d".to_string(),
        files: vec![
            MultiFileInfo { length: 1, md5sum: None, path: vec!["x".to_string()] },
            MultiFileInfo { length: 2, md5sum: Some([0u8; 16]), path: vec!["s".to_string(), "y".to_string()] },
        ],
    };
    let f = multi.files();
    assert_eq!(f.len(), 2);
    assert_eq!(f[1].path, vec!["d".to_string(), "s".to_string(), "y".to_string()]);
    assert_eq!(f[1].length, 2);
    assert_eq!(f[1].md5sum, Some([0u8; 16]));
}
