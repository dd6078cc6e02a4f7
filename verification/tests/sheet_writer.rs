use just_enough_vcs::index_source::IndexSource;
use just_enough_vcs::mapping::{LocalMapping, LocalMappingForward};
use just_enough_vcs::sheet::v1::constants::{CURRENT_SHEET_VERSION, HEADER_SIZE, INDEX_ENTRY_SIZE, MAPPING_BUCKET_MIN_SIZE};
use just_enough_vcs::sheet::v1::writer::{calculate_mapping_bucket_size, calculate_path_hash, serialize_path};
use just_enough_vcs::sheet::writer::convert_sheet_data_to_bytes;
use just_enough_vcs::sheet::SheetData;

#[test]
fn test_serialize_path() {
    let path = vec!["dir".to_string(), "subdir".to_string(), "file.txt".to_string()];
    let bytes = serialize_path(&path);
    assert_eq!(bytes, b"dir/subdir/file.txt");
}

#[test]
fn test_calculate_path_hash() {
    let path1 = vec!["test".to_string(), "file.txt".to_string()];
    let path2 = vec!["test".to_string(), "file.txt".to_string()];
    let path3 = vec!["other".to_string(), "file.txt".to_string()];

    let hash1 = calculate_path_hash(&path1);
    let hash2 = calculate_path_hash(&path2);
    let hash3 = calculate_path_hash(&path3);

    assert_eq!(hash1, hash2);
    assert_ne!(hash1, hash3);
}

#[test]
fn test_calculate_mapping_bucket_size() {
    let mapping = LocalMapping::new(
        vec!["test".to_string(), "file.txt".to_string()],
        IndexSource::new_local(1, 1),
        LocalMappingForward::Latest,
    )
    .unwrap();

    let size = calculate_mapping_bucket_size(&mapping);
    assert_eq!(size, MAPPING_BUCKET_MIN_SIZE + 13);
}

#[test]
fn test_convert_empty_sheet() {
    let sheet_data = SheetData::empty();
    let bytes = convert_sheet_data_to_bytes(sheet_data);

    assert_eq!(bytes[0], CURRENT_SHEET_VERSION);
    assert_eq!(u16::from_le_bytes([bytes[1], bytes[2]]), 0);
    assert_eq!(u32::from_le_bytes([bytes[3], bytes[4], bytes[5], bytes[6]]), 0);

    assert_eq!(bytes.len(), HEADER_SIZE);
}

#[test]
fn test_convert_sheet_with_one_mapping() {
    let mut sheet_data = SheetData::empty();
    let mapping = LocalMapping::new(
        vec!["dir".to_string(), "file.txt".to_string()],
        IndexSource::new_local(1, 1),
        LocalMappingForward::Latest,
    )
    .unwrap();
    sheet_data.insert_mapping(mapping);

    let bytes = convert_sheet_data_to_bytes(sheet_data);

    assert_eq!(bytes[0], CURRENT_SHEET_VERSION);
    assert_eq!(u16::from_le_bytes([bytes[1], bytes[2]]), 1);
    assert_eq!(u32::from_le_bytes([bytes[3], bytes[4], bytes[5], bytes[6]]), 1);

    let mapping_dir_offset = HEADER_SIZE;

    let index_table_offset = u32::from_le_bytes([bytes[11], bytes[12], bytes[13], bytes[14]]) as usize;
    let bucket_offset = u32::from_le_bytes([
        bytes[mapping_dir_offset + 4],
        bytes[mapping_dir_offset + 5],
        bytes[mapping_dir_offset + 6],
        bytes[mapping_dir_offset + 7],
    ]) as usize;

    assert!(bucket_offset >= index_table_offset + INDEX_ENTRY_SIZE);
}
