use just_enough_vcs::storage::store::line::{
    detect_line_ending, split_by_lines_custom, split_by_lines_impl, LineEndingType, UnixLineEnding,
    WindowsLineEnding,
};


#[test]
fn test_line_chunking_unix() {
    let data = b"Hello\nWorld\nTest\n";

    let result = split_by_lines_impl(data).unwrap();

    // Should have 3 chunks
    assert_eq!(result.chunks.len(), 3);

    // Verify chunk contents
    assert_eq!(result.chunks[0].data, b"Hello\n");
    assert_eq!(result.chunks[1].data, b"World\n");
    assert_eq!(result.chunks[2].data, b"Test\n");

    // Verify total size
    let total_chunk_size: usize = result.chunks.iter().map(|c| c.data.len()).sum();
    assert_eq!(total_chunk_size, data.len());
}

#[test]
fn test_line_chunking_windows() {
    let data = b"Hello\r\nWorld\r\nTest\r\n";

    let result = split_by_lines_impl(data).unwrap();

    // Should have 3 chunks
    assert_eq!(result.chunks.len(), 3);

    // Verify chunk contents (should include \r\n)
    assert_eq!(result.chunks[0].data, b"Hello\r\n");
    assert_eq!(result.chunks[1].data, b"World\r\n");
    assert_eq!(result.chunks[2].data, b"Test\r\n");
}

#[test]
fn test_line_chunking_mixed() {
    let data = b"Hello\nWorld\r\nTest\n";

    let result = split_by_lines_impl(data).unwrap();

    // Should have 3 chunks
    assert_eq!(result.chunks.len(), 3);

    // Verify chunk contents
    assert_eq!(result.chunks[0].data, b"Hello\n");
    assert_eq!(result.chunks[1].data, b"World\r\n");
    assert_eq!(result.chunks[2].data, b"Test\n");
}

#[test]
fn test_line_chunking_no_trailing_newline() {
    let data = b"Hello\nWorld\nTest";

    let result = split_by_lines_impl(data).unwrap();

    // Should have 3 chunks
    assert_eq!(result.chunks.len(), 3);

    // Verify chunk contents
    assert_eq!(result.chunks[0].data, b"Hello\n");
    assert_eq!(result.chunks[1].data, b"World\n");
    assert_eq!(result.chunks[2].data, b"Test");
}

#[test]
fn test_line_chunking_empty_lines() {
    let data = b"Hello\n\nWorld\n\n\n";

    let result = split_by_lines_impl(data).unwrap();

    // Should have 5 chunks (including empty lines)
    // "Hello\n", "\n", "World\n", "\n", "\n"
    assert_eq!(result.chunks.len(), 5);

    // Verify chunk contents
    assert_eq!(result.chunks[0].data, b"Hello\n");
    assert_eq!(result.chunks[1].data, b"\n");
    assert_eq!(result.chunks[2].data, b"World\n");
    assert_eq!(result.chunks[3].data, b"\n");
    assert_eq!(result.chunks[4].data, b"\n");
}

#[test]
fn test_line_chunking_empty_file() {
    let data = b"";

    let result = split_by_lines_impl(data).unwrap();

    // Should have 1 empty chunk
    assert_eq!(result.chunks.len(), 1);
    assert_eq!(result.chunks[0].data, b"");
}

#[test]
fn test_detect_line_ending() {
    // Test Unix detection
    let unix_data = b"Hello\nWorld\n";
    assert_eq!(detect_line_ending(unix_data), LineEndingType::Unix);

    // Test Windows detection
    let windows_data = b"Hello\r\nWorld\r\n";
    assert_eq!(detect_line_ending(windows_data), LineEndingType::Windows);

    // Test mixed detection
    let mixed_data = b"Hello\nWorld\r\n";
    assert_eq!(detect_line_ending(mixed_data), LineEndingType::Mixed);

    // Test no newlines
    let no_newlines = b"Hello World";
    assert_eq!(detect_line_ending(no_newlines), LineEndingType::Mixed);
}

#[test]
fn test_custom_line_ending_unix() {
    let data = b"Hello\nWorld\n";

    let result = split_by_lines_custom::<UnixLineEnding>(data).unwrap();

    assert_eq!(result.chunks.len(), 2);
    assert_eq!(result.chunks[0].data, b"Hello\n");
    assert_eq!(result.chunks[1].data, b"World\n");
}

#[test]
fn test_custom_line_ending_windows() {
    let data = b"Hello\r\nWorld\r\n";

    let result = split_by_lines_custom::<WindowsLineEnding>(data).unwrap();

    assert_eq!(result.chunks.len(), 2);
    assert_eq!(result.chunks[0].data, b"Hello\r\n");
    assert_eq!(result.chunks[1].data, b"World\r\n");
}

#[test]
fn test_line_ending_type_split() {
    let unix_data = b"Hello\nWorld\n";
    let windows_data = b"Hello\r\nWorld\r\n";
    let mixed_data = b"Hello\nWorld\r\n";

    // Test Unix
    let unix_result = LineEndingType::Unix.split_by_lines(unix_data).unwrap();
    assert_eq!(unix_result.chunks.len(), 2);

    // Test Windows
    let windows_result = LineEndingType::Windows
        .split_by_lines(windows_data)
        .unwrap();
    assert_eq!(windows_result.chunks.len(), 2);

    // Test Mixed
    let mixed_result = LineEndingType::Mixed.split_by_lines(mixed_data).unwrap();
    assert_eq!(mixed_result.chunks.len(), 2);
}

#[test]
fn line_test_chunk_hash_uniqueness() {
    // Test that different lines produce different hashes
    let data1 = b"Hello\n";
    let data2 = b"World\n";

    let result1 = split_by_lines_impl(data1).unwrap();
    let result2 = split_by_lines_impl(data2).unwrap();

    assert_ne!(result1.chunks[0].hash, result2.chunks[0].hash);
}
