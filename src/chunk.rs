use std::sync::Arc;

use dashmap::DashMap;
use vstd::bytes::*;
use vstd::prelude::*;

use crate::errors::AppError;

verus! {

/// 16-byte content digest that identifies a chunk.
pub type ChunkHash = [u8; 16];

/// Width of a digest in bytes.
pub const HASH_LEN: usize = 16;

/// Largest chunk a file is cut into: 2 MiB.
pub const CHUNK_SIZE: usize = 2097152;

/// zstd level used for every chunk.
pub const COMPRESSION_LEVEL: i32 = 12;

/// The 128-bit XXH3 hash of `data`.
pub uninterp spec fn xxh3_128_of(data: Seq<u8>) -> u128;

/// What zstd produces for `data` at compression level `level`.
pub uninterp spec fn zstd_compressed(data: Seq<u8>, level: i32) -> Seq<u8>;

/// The content of the zstd frame `data`.
pub uninterp spec fn zstd_decompressed(data: Seq<u8>) -> Seq<u8>;

/// Whether `data` is a zstd frame that decodes.
pub uninterp spec fn zstd_decodes(data: Seq<u8>) -> bool;

/// The digests that a set of stored chunks holds, each as its 16 bytes.
pub uninterp spec fn stored_digests(m: DashMap<ChunkHash, ()>) -> Set<Seq<u8>>;

#[verifier::external_type_specification]
#[verifier::external_body]
pub struct ExIoError(std::io::Error);

#[verifier::external_type_specification]
#[verifier::external_body]
#[verifier::reject_recursive_types(K)]
#[verifier::reject_recursive_types(V)]
#[verifier::reject_recursive_types(S)]
pub struct ExDashMap<K, V, S>(DashMap<K, V, S>);

/// The digest of a chunk: the XXH3-128 hash of its bytes, little-endian.
pub open spec fn spec_hash_chunk(data: Seq<u8>) -> Seq<u8> {
    spec_u128_to_le_bytes(xxh3_128_of(data))
}

/// Relies on xxhash_rust::xxh3::xxh3_128 (default seed and secret): the hash
/// depends on the bytes alone.
#[verifier::external_body]
fn xxh3_128(data: &[u8]) -> (r: u128)
    ensures
        r == xxh3_128_of(data@),
{
    xxhash_rust::xxh3::xxh3_128(data)
}

/// Relies on zstd::bulk::compress: at a valid level it compresses into a
/// buffer of `compress_bound` size, so it succeeds; the frame it makes
/// decodes back to `data` (zstd is lossless).
#[verifier::external_body]
fn zstd_compress(data: &[u8], level: i32) -> (r: Result<Vec<u8>, std::io::Error>)
    requires
        1 <= level <= 22,
    ensures
        r is Ok,
        r matches Ok(v) ==> {
            &&& v@ == zstd_compressed(data@, level)
            &&& zstd_decodes(v@)
            &&& zstd_decompressed(v@) == data@
        },
{
    zstd::bulk::compress(data, level)
}

/// Relies on zstd::bulk::decompress: it succeeds exactly when `data` is a
/// frame that decodes to at most `capacity` bytes, and returns its content.
#[verifier::external_body]
fn zstd_decompress(data: &[u8], capacity: usize) -> (r: Result<Vec<u8>, std::io::Error>)
    ensures
        r is Ok <==> (zstd_decodes(data@) && zstd_decompressed(data@).len() <= capacity),
        r matches Ok(v) ==> v@ == zstd_decompressed(data@),
{
    zstd::bulk::decompress(data, capacity)
}

/// Relies on dashmap::DashMap::new: the map starts empty.
#[verifier::external_body]
fn new_digest_map() -> (m: DashMap<ChunkHash, ()>)
    ensures
        stored_digests(m) == Set::<Seq<u8>>::empty(),
{
    DashMap::new()
}

/// Relies on dashmap::DashMap::insert: it adds the key and returns the
/// previous value, none when the key was absent.
#[verifier::external_body]
fn insert_if_absent(m: &mut DashMap<ChunkHash, ()>, key: ChunkHash) -> (r: bool)
    ensures
        r == !stored_digests(*old(m)).contains(key@),
        stored_digests(*final(m)) == stored_digests(*old(m)).insert(key@),
{
    m.insert(key, ()).is_none()
}

/// Relies on dashmap::DashMap::contains_key: whether the key is held.
#[verifier::external_body]
fn digest_map_contains(m: &DashMap<ChunkHash, ()>, key: &ChunkHash) -> (r: bool)
    ensures
        r == stored_digests(*m).contains(key@),
{
    m.contains_key(key)
}

/// Relies on dashmap::DashMap::len: the number of keys held.
#[verifier::external_body]
fn digest_map_len(m: &DashMap<ChunkHash, ()>) -> (r: usize)
    ensures
        r == stored_digests(*m).len(),
{
    m.len()
}

/// Copies 16 bytes into a digest.
pub fn digest_from_bytes(b: &[u8]) -> (r: ChunkHash)
    requires
        b@.len() == HASH_LEN,
    ensures
        r@ == b@,
{
    let mut r: [u8; 16] = [0u8; 16];
    let mut i: usize = 0;
    while i < HASH_LEN
        invariant
            b@.len() == HASH_LEN,
            r@.len() == HASH_LEN,
            forall|j: int| 0 <= j < i ==> r@[j] == b@[j],
        decreases HASH_LEN - i,
    {
        r[i] = b[i];
        i = i + 1;
    }
    assert(r@ =~= b@);
    r
}

/// The digest of `chunk`.
pub fn hash_chunk(chunk: &[u8]) -> (r: ChunkHash)
    ensures
        r@ == spec_hash_chunk(chunk@),
{
    let h = xxh3_128(chunk);
    let b = u128_to_le_bytes(h);
    digest_from_bytes(b.as_slice())
}

/// Whether the compressed form of `data` decodes back to `data`.
pub open spec fn round_trips(data: Seq<u8>) -> bool {
    &&& zstd_decodes(zstd_compressed(data, COMPRESSION_LEVEL))
    &&& zstd_decompressed(zstd_compressed(data, COMPRESSION_LEVEL)) == data
}

/// Compresses one chunk at the fixed level.
pub fn compress_chunk(data: &[u8]) -> (r: Result<Vec<u8>, AppError>)
    ensures
        r is Ok,
        r matches Ok(v) ==> v@ == zstd_compressed(data@, COMPRESSION_LEVEL),
        round_trips(data@),
        r matches Err(e) ==> e == AppError::Compression,
{
    match zstd_compress(data, COMPRESSION_LEVEL) {
        Ok(v) => Ok(v),
        Err(_) => Err(AppError::Compression),
    }
}

/// Decompresses one chunk, refusing a result longer than `max_size`.
pub fn decompress_chunk(data: &[u8], max_size: usize) -> (r: Result<Vec<u8>, AppError>)
    ensures
        r is Ok <==> (zstd_decodes(data@) && zstd_decompressed(data@).len() <= max_size),
        r matches Ok(v) ==> v@ == zstd_decompressed(data@) && v@.len() <= max_size,
        r matches Err(e) ==> e == AppError::CorruptData,
{
    match zstd_decompress(data, max_size) {
        Ok(v) => Ok(v),
        Err(_) => Err(AppError::CorruptData),
    }
}

/// What one insertion into a [`ChunkStore`] reports.
pub struct InsertReturn {
    pub hash: ChunkHash,
    /// The compressed chunk, present only for the insertion that saw the
    /// digest first.
    pub compressed_data: Option<Arc<Vec<u8>>>,
}

/// The set of digests already scheduled for the chunk table; each digest is
/// compressed and emitted once.
pub struct ChunkStore {
    primary_store: DashMap<ChunkHash, ()>,
}

impl View for ChunkStore {
    type V = Set<Seq<u8>>;

    closed spec fn view(&self) -> Set<Seq<u8>> {
        stored_digests(self.primary_store)
    }
}

impl ChunkStore {
    pub fn new() -> (s: ChunkStore)
        ensures
            s@ == Set::<Seq<u8>>::empty(),
    {
        ChunkStore { primary_store: new_digest_map() }
    }

    /// Records `chunk`'s digest. The first insertion of a digest compresses
    /// the chunk and returns the compressed bytes; later ones return none and
    /// compress nothing. The digest is recorded once the chunk is compressed.
    pub fn insert(&mut self, chunk: &[u8]) -> (r: Result<InsertReturn, AppError>)
        ensures
            r is Ok,
            final(self)@ == old(self)@.insert(spec_hash_chunk(chunk@)),
            r matches Ok(ret) ==> {
                &&& ret.hash@ == spec_hash_chunk(chunk@)
                &&& ret.compressed_data.is_some() == !old(self)@.contains(ret.hash@)
                &&& ret.compressed_data matches Some(c) ==> c@ == zstd_compressed(
                    chunk@,
                    COMPRESSION_LEVEL,
                )
            },
            round_trips(chunk@) || old(self)@.contains(spec_hash_chunk(chunk@)),
            r is Err ==> final(self)@ == old(self)@,
    {
        let hash = hash_chunk(chunk);
        if digest_map_contains(&self.primary_store, &hash) {
            return Ok(InsertReturn { hash, compressed_data: None });
        }
        let compressed = compress_chunk(chunk)?;
        insert_if_absent(&mut self.primary_store, hash);
        Ok(InsertReturn { hash, compressed_data: Some(Arc::new(compressed)) })
    }

    /// The number of distinct digests recorded.
    pub fn len(&self) -> (r: u64)
        ensures
            r == self@.len(),
    {
        digest_map_len(&self.primary_store) as u64
    }

    pub fn is_empty(&self) -> (r: bool)
        ensures
            r == (self@.len() == 0),
    {
        self.len() == 0
    }
}

} // verus!
