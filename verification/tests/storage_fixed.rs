use just_enough_vcs::storage::error::StorageIOError;
use just_enough_vcs::storage::store::fixed::fixed_ranges;
use just_enough_vcs::storage::store::fixed::{calculate_optimal_chunk_size, split_fixed_impl};


#[test]
fn test_fixed_chunking_basic() {
    // Create 10KB of test data
    let data: Vec<u8> = (0..10240).map(|i| (i % 256) as u8).collect();

    // Split into 1KB chunks
    let result = split_fixed_impl(&data, 1024).unwrap();

    // Should have 10 chunks
    assert_eq!(result.chunks.len(), 10);

    // Verify total size
    let total_chunk_size: usize = result.chunks.iter().map(|c| c.data.len()).sum();
    assert_eq!(total_chunk_size, data.len());

    // Verify chunk sizes (last chunk may be smaller)
    for (i, chunk) in result.chunks.iter().enumerate() {
        if i < 9 {
            assert_eq!(chunk.data.len(), 1024);
        } else {
            assert_eq!(chunk.data.len(), 1024); // 10240 / 1024 = 10 exactly
        }
    }
}

#[test]
fn test_fixed_chunking_uneven() {
    // Create 5.5KB of test data
    let data: Vec<u8> = (0..5632).map(|i| (i % 256) as u8).collect();

    // Split into 2KB chunks
    let result = split_fixed_impl(&data, 2048).unwrap();

    // Should have 3 chunks (2048 + 2048 + 1536)
    assert_eq!(result.chunks.len(), 3);

    // Verify chunk sizes
    assert_eq!(result.chunks[0].data.len(), 2048);
    assert_eq!(result.chunks[1].data.len(), 2048);
    assert_eq!(result.chunks[2].data.len(), 1536);

    // Verify data integrity
    let mut reconstructed = Vec::new();
    for chunk in &result.chunks {
        reconstructed.extend_from_slice(&chunk.data);
    }
    assert_eq!(reconstructed, data);
}

#[test]
fn test_fixed_chunking_small_file() {
    // Small file smaller than chunk size
    let data = vec![1, 2, 3, 4, 5];

    let result = split_fixed_impl(&data, 1024).unwrap();

    // Should have exactly one chunk
    assert_eq!(result.chunks.len(), 1);
    assert_eq!(result.chunks[0].data.len(), data.len());
}

#[test]
fn test_fixed_chunking_zero_size() {
    let data = vec![1, 2, 3];

    let result = split_fixed_impl(&data, 0);
    assert!(result.is_err());

    match result {
        Err(StorageIOError::IOErr(e)) => {
            assert_eq!(e.kind(), std::io::ErrorKind::InvalidInput);
        }
        _ => panic!("Expected IOErr with InvalidInput"),
    }
}

#[test]
fn test_calculate_optimal_chunk_size() {
    // Test basic calculation
    assert_eq!(calculate_optimal_chunk_size(1024 * 1024, 16), 64 * 1024); // 1MB / 16 = 64KB

    // Test rounding to power of 2
    assert_eq!(calculate_optimal_chunk_size(1000 * 1000, 17), 64 * 1024); // ~58.8KB rounds to 64KB

    // Test minimum bound
    assert_eq!(calculate_optimal_chunk_size(100, 10), 1024); // 10 bytes per chunk, but min is 1KB

    // Test edge cases
    assert_eq!(calculate_optimal_chunk_size(0, 10), 64 * 1024); // Default
    assert_eq!(calculate_optimal_chunk_size(1000, 0), 64 * 1024); // Default

    // Test large file
    assert_eq!(
        calculate_optimal_chunk_size(100 * 1024 * 1024, 10),
        16 * 1024 * 1024
    ); // 100MB / 10 = 10MB, max is 16MB
}

#[test]
fn fixed_test_chunk_hash_uniqueness() {
    // Test that different data produces different hashes
    let data1 = vec![1, 2, 3, 4, 5];
    let data2 = vec![1, 2, 3, 4, 6];

    let result1 = split_fixed_impl(&data1, 1024).unwrap();
    let result2 = split_fixed_impl(&data2, 1024).unwrap();

    assert_ne!(result1.chunks[0].hash, result2.chunks[0].hash);
}

#[test]
fn fixed_ranges_cover_the_data() {
    let data = vec![7u8; 5632];
    assert_eq!(fixed_ranges(&data, 2048), vec![(0, 2048), (2048, 4096), (4096, 5632)]);
    assert_eq!(fixed_ranges(&[], 16), vec![]);
}
