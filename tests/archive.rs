use std::io::Cursor;

use squishrs::chunk::{hash_chunk, CHUNK_SIZE};
use squishrs::errors::AppError;
use squishrs::header::{
    patch_u64, verify_header, write_header, write_placeholder_u64, write_timestamp, VERSION,
};
use squishrs::reader::ArchiveReader;
use squishrs::writer::{process_file, relative_path, ArchiveWriter};

fn now() -> u64 {
    std::time::SystemTime::now()
        .duration_since(std::time::UNIX_EPOCH)
        .unwrap()
        .as_secs()
}

fn input(path: &str, contents: &[u8]) -> (String, Vec<u8>) {
    (path.to_string(), contents.to_vec())
}

fn pack(root: &str, files: &[(String, Vec<u8>)]) -> Vec<u8> {
    let mut writer = ArchiveWriter::new(root, now());
    let size = writer.pack(&files.to_vec()).unwrap();
    let bytes = writer.as_bytes().clone();
    assert_eq!(size, bytes.len() as u64);
    bytes
}

fn u64_at(data: &[u8], p: usize) -> u64 {
    let mut b = [0u8; 8];
    b.copy_from_slice(&data[p..p + 8]);
    u64::from_le_bytes(b)
}

fn create_dummy_archive(writer: &mut Vec<u8>) -> Vec<(String, Vec<u8>)> {
    write_header(writer);
    write_timestamp(writer, now());
    let chunk_count_pos = write_placeholder_u64(writer);

    let chunk_data = b"test";
    let chunk_hash = [1u8; 16];
    let original_size = chunk_data.len() as u64;

    let compressed_chunk = zstd::encode_all(Cursor::new(chunk_data), 0).unwrap();
    let compressed_size = compressed_chunk.len() as u64;

    writer.extend_from_slice(&chunk_hash);
    writer.extend_from_slice(&original_size.to_le_bytes());
    writer.extend_from_slice(&compressed_size.to_le_bytes());
    writer.extend_from_slice(&compressed_chunk);

    patch_u64(writer, chunk_count_pos, 1);

    let file_count = 1u32;
    writer.extend_from_slice(&file_count.to_le_bytes());

    let path_bytes = b"file1.txt";
    let path_len = path_bytes.len() as u32;
    writer.extend_from_slice(&path_len.to_le_bytes());
    writer.extend_from_slice(path_bytes);

    writer.extend_from_slice(&original_size.to_le_bytes());
    writer.extend_from_slice(&1u32.to_le_bytes());
    writer.extend_from_slice(&chunk_hash);

    vec![("file1.txt".to_string(), chunk_data.to_vec())]
}

#[test]
fn test_archive_writer_basic() {
    let files = vec![
        input("in/file1.txt", b"Hello, world!\n"),
        input("in/file2.txt", b"This is a test file.\n"),
    ];
    let mut writer = ArchiveWriter::new("in", now());
    let archive_size = writer.pack(&files).unwrap();
    assert!(archive_size > 0, "Archive should not be empty");
    assert_eq!(writer.as_bytes().len() as u64, archive_size);
}

#[test]
fn test_archive_writer_new() {
    let writer = ArchiveWriter::new("in", now());
    let bytes = writer.as_bytes();
    let version_str = verify_header(bytes).unwrap();
    assert_eq!(version_str, VERSION);

    let timestamp = u64_at(bytes, 14);
    assert!(timestamp > 0, "Timestamp should be non-zero");
}

#[test]
fn test_archive_reader_get_summary() {
    let mut data = Vec::new();
    let _files = create_dummy_archive(&mut data);

    let reader = ArchiveReader::new(data).unwrap();
    let summary = reader.get_summary().unwrap();

    assert_eq!(summary.unique_chunks, 1);
    assert_eq!(summary.total_original_size, 4);
    assert!(summary.archive_size > 0);
    let reduction =
        (1.0 - summary.archive_size as f64 / summary.total_original_size as f64) * 100.0;
    assert!(reduction <= 0.0);
    assert_eq!(summary.files.len(), 1);
    assert_eq!(summary.files[0].path, "file1.txt");
}

#[test]
fn test_archive_reader_unpack() {
    let mut data = Vec::new();
    let files = create_dummy_archive(&mut data);

    let reader = ArchiveReader::new(data).unwrap();
    let restored = reader.unpack().unwrap();

    for (filename, contents) in files {
        let found = restored.iter().find(|(p, _)| *p == filename);
        assert!(found.is_some());
        assert_eq!(found.unwrap().1, contents);
    }
}

#[test]
fn test_roundtrip_pack_unpack() {
    let files = vec![input("input/file.txt", b"hello squish")];
    let archive = pack("input", &files);

    let reader = ArchiveReader::new(archive).unwrap();
    let restored = reader.unpack().unwrap();
    assert_eq!(restored, vec![input("file.txt", b"hello squish")]);
}

#[test]
fn identical_small_files_share_one_chunk() {
    let files = vec![input("d/a.txt", b"hello"), input("d/b.txt", b"hello")];
    let archive = pack("d", &files);
    assert_eq!(u64_at(&archive, 22), 1);

    let reader = ArchiveReader::new(archive).unwrap();
    let table = reader.read_file_table().unwrap();
    assert_eq!(table.len(), 2);
    assert_eq!(table[0].chunk_hashes, vec![hash_chunk(b"hello")]);
    assert_eq!(table[1].chunk_hashes, vec![hash_chunk(b"hello")]);

    let summary = reader.get_summary().unwrap();
    assert_eq!(summary.unique_chunks, 1);
    assert_eq!(summary.total_original_size, 10);

    let restored = reader.unpack().unwrap();
    assert_eq!(
        restored,
        vec![input("a.txt", b"hello"), input("b.txt", b"hello")]
    );
}

#[test]
fn two_chunk_file_keeps_read_order() {
    let mut state: u64 = 0x9e3779b97f4a7c15;
    let data: Vec<u8> = (0..2 * CHUNK_SIZE)
        .map(|_| {
            state ^= state << 13;
            state ^= state >> 7;
            state ^= state << 17;
            state as u8
        })
        .collect();
    let archive = pack("r", &[input("r/big.bin", &data)]);
    assert_eq!(u64_at(&archive, 22), 2);

    let reader = ArchiveReader::new(archive).unwrap();
    let table = reader.read_file_table().unwrap();
    assert_eq!(table.len(), 1);
    assert_eq!(
        table[0].chunk_hashes,
        vec![
            hash_chunk(&data[..CHUNK_SIZE]),
            hash_chunk(&data[CHUNK_SIZE..])
        ]
    );
    let restored = reader.unpack().unwrap();
    assert_eq!(restored[0].1, data);
}

#[test]
fn many_identical_files_store_one_chunk() {
    let content = vec![7u8; 1000];
    let files: Vec<_> = (0..20)
        .map(|i| input(&format!("m/f{i}.bin"), &content))
        .collect();
    let archive = pack("m", &files);
    assert_eq!(u64_at(&archive, 22), 1);
    let reader = ArchiveReader::new(archive).unwrap();
    let restored = reader.unpack().unwrap();
    assert_eq!(restored.len(), 20);
    assert!(restored.iter().all(|(_, c)| *c == content));
}

#[test]
fn round_trip_with_empty_and_exact_multiple_files() {
    let exact: Vec<u8> = (0..CHUNK_SIZE).map(|i| (i % 253) as u8).collect();
    let mut longer = exact.clone();
    longer.extend_from_slice(b"tail");
    let files = vec![
        input("t/empty", b""),
        input("t/sub/exact.bin", &exact),
        input("t/sub/deeper/longer.bin", &longer),
    ];
    let archive = pack("t/", &files);
    // the first chunk of `longer` equals `exact`, so three distinct chunks
    // become two: `exact` and "tail"
    assert_eq!(u64_at(&archive, 22), 2);
    let reader = ArchiveReader::new(archive).unwrap();
    let restored = reader.unpack().unwrap();
    assert_eq!(
        restored,
        vec![
            input("empty", b""),
            input("sub/exact.bin", &exact),
            input("sub/deeper/longer.bin", &longer)
        ]
    );
}

#[test]
fn empty_directory_packs_to_zero_files() {
    let archive = pack("e", &[]);
    let reader = ArchiveReader::new(archive).unwrap();
    let summary = reader.get_summary().unwrap();
    assert_eq!(summary.files.len(), 0);
    assert_eq!(summary.unique_chunks, 0);
    assert_eq!(summary.total_original_size, 0);
}

#[test]
fn file_outside_root_is_refused() {
    let mut writer = ArchiveWriter::new("root", now());
    let files = vec![input("other/a.txt", b"x")];
    assert_eq!(
        writer.pack(&files),
        Err(AppError::PathEscapesRoot("other/a.txt".to_string()))
    );
}

#[test]
fn relative_path_follows_components() {
    assert_eq!(relative_path("a/b", "a/b/c.txt"), Ok("c.txt".to_string()));
    assert_eq!(relative_path("a/b/", "a/b/c/d"), Ok("c/d".to_string()));
    assert!(relative_path("a/b", "a/bc/d").is_err());
    assert!(relative_path("a/b", "a/b").is_err());
    assert!(relative_path("a/b", "a/b/").is_err());
}

#[test]
fn process_file_emits_only_new_chunks() {
    let mut store = squishrs::chunk::ChunkStore::new();
    let (rec, msgs) = process_file("r/x", "r", &mut store, b"abc").unwrap();
    assert_eq!(rec.path, "x");
    assert_eq!(rec.original_size, 3);
    assert_eq!(msgs.len(), 1);
    assert_eq!(msgs[0].original_size, 3);
    let (rec2, msgs2) = process_file("r/y", "r", &mut store, b"abc").unwrap();
    assert_eq!(rec2.chunk_hashes, rec.chunk_hashes);
    assert!(msgs2.is_empty());
}

#[test]
fn missing_chunk_names_the_file() {
    let mut data = Vec::new();
    create_dummy_archive(&mut data);
    // point the file entry at a digest that no record holds
    let n = data.len();
    data[n - 1] = 2;
    let reader = ArchiveReader::new(data).unwrap();
    assert_eq!(
        reader.unpack(),
        Err(AppError::MissingChunk("file1.txt".to_string()))
    );
}

#[test]
fn corrupted_magic_fails_to_open() {
    let mut archive = pack("d", &[input("d/a", b"a")]);
    archive[0] = b'S';
    assert!(matches!(ArchiveReader::new(archive), Err(AppError::InvalidFormat)));
}

#[test]
fn other_minor_version_fails_to_open() {
    let mut archive = pack("d", &[input("d/a", b"a")]);
    archive[10] = b'9';
    assert!(matches!(
        ArchiveReader::new(archive),
        Err(AppError::IncompatibleVersion)
    ));
}

#[test]
fn truncated_archive_is_unexpected_eof() {
    let archive = pack("d", &[input("d/a", b"abcdef")]);
    let cut = archive[..archive.len() - 45].to_vec();
    assert!(matches!(ArchiveReader::new(cut), Err(AppError::UnexpectedEof)));
    let reader = ArchiveReader::new(archive[..archive.len() - 3].to_vec()).unwrap();
    assert!(matches!(reader.get_summary(), Err(AppError::UnexpectedEof)));
}

#[test]
fn invalid_utf8_path_is_refused_when_listing() {
    let mut data = Vec::new();
    create_dummy_archive(&mut data);
    let n = data.len();
    // the path "file1.txt" starts 9 + 8 + 4 + 16 bytes before the end
    data[n - 37] = 0xff;
    let reader = ArchiveReader::new(data).unwrap();
    assert!(matches!(reader.get_summary(), Err(AppError::IllegalUTF8)));
}

#[test]
fn oversized_chunk_is_corrupt_data() {
    let big = vec![0u8; 11 * 1024 * 1024];
    let compressed = zstd::encode_all(Cursor::new(&big), 0).unwrap();
    let mut data = Vec::new();
    write_header(&mut data);
    write_timestamp(&mut data, 1);
    data.extend_from_slice(&1u64.to_le_bytes());
    data.extend_from_slice(&hash_chunk(&big));
    data.extend_from_slice(&(big.len() as u64).to_le_bytes());
    data.extend_from_slice(&(compressed.len() as u64).to_le_bytes());
    data.extend_from_slice(&compressed);
    data.extend_from_slice(&0u32.to_le_bytes());
    let reader = ArchiveReader::new(data).unwrap();
    assert!(matches!(reader.unpack(), Err(AppError::CorruptData)));
}
