use std::io::Read;

use squishrs::chunk::{compress_chunk, decompress_chunk, hash_chunk, ChunkStore};
use squishrs::errors::AppError;

#[test]
fn test_hash_chunk_is_consistent() {
    let data = b"some test data";
    let hash1 = hash_chunk(data);
    let hash2 = hash_chunk(data);
    assert_eq!(hash1, hash2, "Hashes should be consistent for same input");
}

#[test]
fn test_hash_chunk_different_inputs_produce_different_hashes() {
    let hash1 = hash_chunk(b"data 1");
    let hash2 = hash_chunk(b"data 2");
    assert_ne!(
        hash1, hash2,
        "Different inputs should produce different hashes"
    );
}

#[test]
fn hash_chunk_is_xxh3_128_little_endian() {
    let data = b"hello";
    let expected = xxhash_rust::xxh3::xxh3_128(data).to_le_bytes();
    assert_eq!(hash_chunk(data), expected);
    assert_ne!(&hash_chunk(&[0u8; 16])[..], &[0u8; 16][..]);
}

#[test]
fn test_insert_first_time_returns_compressed_data() {
    let mut store = ChunkStore::new();
    let data = vec![1u8; 1024];

    let result = store.insert(&data).expect("Insert failed");
    assert_eq!(result.hash, hash_chunk(&data));
    assert!(result.compressed_data.is_some());
    assert_eq!(store.len(), 1);
}

#[test]
fn test_insert_duplicate_returns_none_compressed_data() {
    let mut store = ChunkStore::new();
    let data = vec![2u8; 1024];

    let first = store.insert(&data).unwrap();
    assert!(first.compressed_data.is_some());

    let second = store.insert(&data).unwrap();
    assert!(second.compressed_data.is_none());
    assert_eq!(first.hash, second.hash);
    assert_eq!(store.len(), 1);
}

#[test]
fn test_multiple_unique_inserts_increase_len() {
    let mut store = ChunkStore::new();

    let chunk1 = vec![1u8; 1024];
    let chunk2 = vec![2u8; 1024];
    let chunk3 = vec![3u8; 1024];

    store.insert(&chunk1).unwrap();
    store.insert(&chunk2).unwrap();
    store.insert(&chunk3).unwrap();

    assert_eq!(store.len(), 3);
}

#[test]
fn test_compressed_data_is_smaller_or_equal() {
    let mut store = ChunkStore::new();
    let repetitive_data = vec![42u8; 2048];

    let result = store.insert(&repetitive_data).unwrap();
    assert!(result.compressed_data.is_some());

    let compressed = result.compressed_data.unwrap();
    assert!(
        compressed.len() < repetitive_data.len(),
        "Compressed data should be smaller than original"
    );

    let mut decoder = zstd::stream::Decoder::new(&compressed[..]).unwrap();
    let mut decompressed = Vec::new();
    decoder.read_to_end(&mut decompressed).unwrap();

    assert_eq!(decompressed, repetitive_data);
}

#[test]
fn only_first_of_many_identical_inserts_sees_first_sight() {
    let mut store = ChunkStore::new();
    let data = vec![5u8; 4096];
    let mut firsts = 0;
    for _ in 0..64 {
        if store.insert(&data).unwrap().compressed_data.is_some() {
            firsts += 1;
        }
    }
    assert_eq!(firsts, 1);
    assert_eq!(store.len(), 1);
    assert!(!store.is_empty());
}

#[test]
fn new_store_is_empty() {
    let store = ChunkStore::new();
    assert_eq!(store.len(), 0);
    assert!(store.is_empty());
}

#[test]
fn compress_then_decompress_restores_bytes() {
    let data: Vec<u8> = (0..5000u32).map(|i| (i % 251) as u8).collect();
    let packed = compress_chunk(&data).unwrap();
    assert_ne!(packed, data);
    let unpacked = decompress_chunk(&packed, 10 * 1024 * 1024).unwrap();
    assert_eq!(unpacked, data);
}

#[test]
fn decompress_over_limit_is_corrupt_data() {
    let data = vec![0u8; 4096];
    let packed = compress_chunk(&data).unwrap();
    assert_eq!(decompress_chunk(&packed, 100), Err(AppError::CorruptData));
    assert_eq!(decompress_chunk(b"not zstd", 100), Err(AppError::CorruptData));
}
