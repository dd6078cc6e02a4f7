use just_enough_vcs::index_source::alias::get_file_path_and_offset;

#[test]
fn test_get_file_path_and_offset() {
    assert_eq!(get_file_path_and_offset(0), (0, 0));
    assert_eq!(get_file_path_and_offset(1), (0, 4));
    assert_eq!(get_file_path_and_offset(65535), (0, 262140));
    assert_eq!(get_file_path_and_offset(65536), (1, 0));
    assert_eq!(get_file_path_and_offset(65537), (1, 4));
    assert_eq!(get_file_path_and_offset(131071), (1, 262140));
    assert_eq!(get_file_path_and_offset(131072), (2, 0));
}
