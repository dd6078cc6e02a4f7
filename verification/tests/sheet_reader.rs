use just_enough_vcs::index_source::IndexSource;
use just_enough_vcs::mapping::{LocalMapping, LocalMappingForward};
use just_enough_vcs::sheet::reader::read_mapping;
use just_enough_vcs::sheet::v1::reader::{compare_paths, deserialize_path, read_bucket_data, read_index_table};
use just_enough_vcs::sheet::writer::convert_sheet_data_to_bytes;
use just_enough_vcs::sheet::SheetData;

#[test]
fn test_deserialize_path() {
    let bytes = b"dir/subdir/file.txt";
    let path = deserialize_path(bytes).unwrap();
    assert_eq!(path, vec!["dir", "subdir", "file.txt"]);
}

#[test]
fn test_paths_match() {
    let path = vec!["dir".to_string(), "file.txt".to_string()];
    let node = &["dir", "file.txt"];
    assert!(compare_paths(&path, node) == std::cmp::Ordering::Equal);

    let node2 = &["dir", "other.txt"];
    assert!(!(compare_paths(&path, node2) == std::cmp::Ordering::Equal));
}

#[test]
fn test_read_index_table() {
    let mut data = Vec::new();
    data.extend_from_slice(&123u32.to_le_bytes());
    data.extend_from_slice(&456u16.to_le_bytes());
    data.push(0);
    data.extend_from_slice(&[0u8; 3]);

    data.extend_from_slice(&789u32.to_le_bytes());
    data.extend_from_slice(&1011u16.to_le_bytes());
    data.push(1);
    data.extend_from_slice(&[0u8; 3]);

    let sources = read_index_table(&data, 0, 2).unwrap();
    assert_eq!(sources.len(), 2);
    assert_eq!(sources[0].id(), 123);
    assert_eq!(sources[0].version(), 456);
    assert_eq!(sources[0].is_remote(), false);
    assert_eq!(sources[1].id(), 789);
    assert_eq!(sources[1].version(), 1011);
    assert_eq!(sources[1].is_remote(), true);
}

#[test]
fn test_read_bucket_data() {
    let mut bucket_data = Vec::new();

    let path1 = b"dir/file.txt";
    bucket_data.push(path1.len() as u8);
    bucket_data.push(0);
    bucket_data.push(0);
    bucket_data.extend_from_slice(path1);
    bucket_data.extend_from_slice(&0u32.to_le_bytes());

    let path2 = b"other/test.txt";
    bucket_data.push(path2.len() as u8);
    bucket_data.push(0);
    bucket_data.push(0);
    bucket_data.extend_from_slice(path2);
    bucket_data.extend_from_slice(&1u32.to_le_bytes());

    let index_sources = vec![IndexSource::new_local(1, 1), IndexSource::new_local(2, 1)];

    let mappings = read_bucket_data(&bucket_data, &index_sources).unwrap();
    assert_eq!(mappings.len(), 2);

    assert_eq!(mappings[0].value(), &["dir".to_string(), "file.txt".to_string()]);
    assert_eq!(mappings[0].index_source().id(), 1);

    assert_eq!(mappings[1].value(), &["other".to_string(), "test.txt".to_string()]);
    assert_eq!(mappings[1].index_source().id(), 2);
}

#[test]
fn test_binary_search_bucket_lookup() {
    let mut sheet_data = SheetData::empty();

    let mapping1 = LocalMapping::new(
        vec!["aaa".to_string(), "file1.txt".to_string()],
        IndexSource::new_local(1, 1),
        LocalMappingForward::Latest,
    )
    .unwrap();

    let mapping2 = LocalMapping::new(
        vec!["mmm".to_string(), "file2.txt".to_string()],
        IndexSource::new_local(2, 2),
        LocalMappingForward::Latest,
    )
    .unwrap();

    let mapping3 = LocalMapping::new(
        vec!["zzz".to_string(), "file3.txt".to_string()],
        IndexSource::new_local(3, 3),
        LocalMappingForward::Latest,
    )
    .unwrap();

    sheet_data.insert_mapping(mapping1.clone());
    sheet_data.insert_mapping(mapping2.clone());
    sheet_data.insert_mapping(mapping3.clone());

    let bytes = convert_sheet_data_to_bytes(sheet_data);

    let node1 = &["aaa", "file1.txt"];
    let result1 = read_mapping(&bytes, node1).unwrap();
    assert!(result1.is_some(), "Should find mapping for aaa/file1.txt");

    let node2 = &["mmm", "file2.txt"];
    let result2 = read_mapping(&bytes, node2).unwrap();
    assert!(result2.is_some(), "Should find mapping for mmm/file2.txt");

    let node3 = &["zzz", "file3.txt"];
    let result3 = read_mapping(&bytes, node3).unwrap();
    assert!(result3.is_some(), "Should find mapping for zzz/file3.txt");

    let node4 = &["xxx", "notfound.txt"];
    let result4 = read_mapping(&bytes, node4).unwrap();
    assert!(result4.is_none(), "Should not find non-existent mapping");

    let empty_bytes = convert_sheet_data_to_bytes(SheetData::empty());
    let result5 = read_mapping(&empty_bytes, node1).unwrap();
    assert!(result5.is_none(), "Should not find anything in empty sheet");
}

#[test]
fn compare_paths_is_the_order_of_string_vectors() {
    let paths: Vec<Vec<&str>> = vec![
        vec![],
        vec!["a"],
        vec!["a", "b"],
        vec!["B"],
        vec!["é"],
        vec!["z", "你"],
        vec!["z", "\u{10000}"],
        vec!["z", "\u{ffff}"],
        vec!["ab"],
        vec!["a", ""],
    ];
    for x in &paths {
        let owned: Vec<String> = x.iter().map(|s| s.to_string()).collect();
        for y in &paths {
            let other: Vec<String> = y.iter().map(|s| s.to_string()).collect();
            assert_eq!(compare_paths(&owned, y), owned.cmp(&other));
        }
    }
}
