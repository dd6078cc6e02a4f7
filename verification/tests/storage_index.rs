use just_enough_vcs::storage::store::create_chunk;
use just_enough_vcs::storage::store::{chunk_dir_parts, get_dir};
use just_enough_vcs::storage::error::StorageIOError;
use just_enough_vcs::storage::store::index::{check_chunk, index_file_bytes, parse_index_file, ChunkMismatch};
use just_enough_vcs::storage::store::IndexEntry;

#[test]
fn index_file_round_trip() {
    let a = create_chunk(b"hello".to_vec());
    let b = create_chunk(b"world!".to_vec());
    let entries = vec![
        IndexEntry { hash: a.hash, size: 5 },
        IndexEntry { hash: b.hash, size: 6 },
    ];
    let bytes = index_file_bytes(&entries);
    assert_eq!(bytes.len(), 72);
    assert_eq!(&bytes[32..36], &[5, 0, 0, 0]);
    let back = parse_index_file(&bytes).unwrap();
    assert_eq!(back.len(), 2);
    assert_eq!(back[0].hash, a.hash);
    assert_eq!(back[1].size, 6);
    assert!(parse_index_file(&bytes[..71]).is_none());
    assert_eq!(parse_index_file(&[]).unwrap().len(), 0);
}

#[test]
fn check_chunk_mismatches() {
    let c = create_chunk(b"data".to_vec());
    let entry = IndexEntry { hash: c.hash, size: 4 };
    assert!(check_chunk(&entry, b"data").is_ok());
    match check_chunk(&entry, b"dat") {
        Err(ChunkMismatch::Size { expected, actual }) => {
            assert_eq!(expected, 4);
            assert_eq!(actual, 3);
        }
        _ => panic!("expected a size mismatch"),
    }
    match check_chunk(&entry, b"date") {
        Err(ChunkMismatch::Hash { expected, .. }) => assert_eq!(expected, c.hash),
        _ => panic!("expected a hash mismatch"),
    }
}

#[test]
fn chunk_dir_parts_and_path() {
    let hash = "ab12cdef";
    assert_eq!(
        chunk_dir_parts(hash),
        Some(("ab".to_string(), "12".to_string(), "ab12cdef".to_string()))
    );
    assert_eq!(chunk_dir_parts("abc"), None);
    let p = get_dir(std::path::PathBuf::from("store"), hash.to_string()).unwrap();
    assert_eq!(p, std::path::PathBuf::from("store/ab/12/ab12cdef"));
    assert!(matches!(get_dir(std::path::PathBuf::from("store"), "abc".to_string()), Err(StorageIOError::HashTooShort)));
}
